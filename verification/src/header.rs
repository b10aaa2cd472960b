//! The entry header and its dotted-path accessor language.
//!
//! Paths are strings split on a separator (default `.`) into tokens; a purely
//! numeric token is an array index, any other token a table key.  `read`,
//! `insert`, `set` and `delete` walk the header tree along those tokens.

use vstd::prelude::*;

use crate::error::{ParserError, ParserErrorKind, StoreError, StoreErrorKind};
use crate::version::{is_valid_semver, semver_ok};
use crate::strutil::{str_chars, string_from_chars, subvec_chars};
use crate::value::{
    spec_table_get,
    SpecValue, Table, Value, spec_table_find, table_find, lemma_table_find, lemma_seq_replace,
    lemma_table_view_len, lemma_table_view_index, lemma_table_view_update, lemma_table_view_push,
    lemma_table_view_remove, lemma_array_view_len, lemma_array_view_index,
    lemma_array_view_update, lemma_array_view_push, lemma_array_view_remove, value_clone,
    lemma_table_view_eq, spec_table_view, spec_array_view,
};

verus! {

/// One token of a header path: a table key or an array index.
#[derive(Debug, Clone, PartialEq, Eq)]
pub enum Token {
    Key(String),
    Index(usize),
}

/// Mathematical model of a path token.
pub enum SpecToken {
    Key(Seq<char>),
    Index(usize),
}

impl Token {
    /// The mathematical value of this token.
    pub open spec fn view(self) -> SpecToken {
        match self {
            Token::Key(s) => SpecToken::Key(s@),
            Token::Index(i) => SpecToken::Index(i),
        }
    }
}

impl View for Token {
    type V = SpecToken;

    open spec fn view(&self) -> SpecToken {
        Token::view(*self)
    }
}

/// The pieces of `s` split on every occurrence of `sep`, continuing from
/// position `i` with the current piece started at `start` and the finished
/// pieces in `acc`.
pub open spec fn spec_split_from(
    s: Seq<char>,
    sep: char,
    i: int,
    start: int,
    acc: Seq<Seq<char>>,
) -> Seq<Seq<char>>
    decreases s.len() - i,
{
    if i < 0 || start < 0 || start > i {
        acc
    } else if i >= s.len() {
        acc.push(s.subrange(start, s.len() as int))
    } else if s[i] == sep {
        spec_split_from(s, sep, i + 1, i + 1, acc.push(s.subrange(start, i)))
    } else {
        spec_split_from(s, sep, i + 1, start, acc)
    }
}

/// The pieces of `s` split on every occurrence of `sep`.  Always yields at
/// least one piece; splitting the empty string yields one empty piece.
pub open spec fn spec_split(s: Seq<char>, sep: char) -> Seq<Seq<char>> {
    spec_split_from(s, sep, 0, 0, Seq::empty())
}

/// Whether `c` is a decimal digit.
pub open spec fn spec_is_digit(c: char) -> bool {
    '0' <= c && c <= '9'
}

/// Whether every character of `p` is a decimal digit.
pub open spec fn spec_all_digits(p: Seq<char>) -> bool {
    forall|i: int| 0 <= i < p.len() ==> spec_is_digit(#[trigger] p[i])
}

/// The numeric value of a digit string.
pub open spec fn spec_digits_val(p: Seq<char>) -> int
    decreases p.len(),
{
    if p.len() == 0 {
        0
    } else {
        spec_digits_val(p.drop_last()) * 10 + (p.last() as int - '0' as int)
    }
}

/// How one path piece is interpreted: a nonempty digit string whose value
/// fits in `usize` is an array index, anything else a table key.
pub open spec fn spec_classify(p: Seq<char>) -> SpecToken {
    if p.len() > 0 && spec_all_digits(p) && spec_digits_val(p) <= usize::MAX {
        SpecToken::Index(spec_digits_val(p) as usize)
    } else {
        SpecToken::Key(p)
    }
}

/// The token sequence of a path string: split on `sep`, each piece classified
/// as index or key.
pub open spec fn spec_tokenize(s: Seq<char>, sep: char) -> Seq<SpecToken> {
    spec_split(s, sep).map(|i: int, p: Seq<char>| spec_classify(p))
}

/// Result of walking a full path for reading.
pub enum SpecReadRes {
    Found(SpecValue),
    Missing,
    TypeFail,
}

/// Walks `toks` from `v`; a missing key or out-of-bounds index is `Missing`,
/// a key applied to a non-table or an index applied to a non-array is
/// `TypeFail`.
pub open spec fn spec_read_at(v: SpecValue, toks: Seq<SpecToken>) -> SpecReadRes
    decreases toks.len(),
{
    if toks.len() == 0 {
        SpecReadRes::Found(v)
    } else {
        match toks[0] {
            SpecToken::Key(k) => match v {
                SpecValue::Table(t) => match spec_table_find(t, k) {
                    Some(i) => spec_read_at(t[i].1, toks.drop_first()),
                    None => SpecReadRes::Missing,
                },
                _ => SpecReadRes::TypeFail,
            },
            SpecToken::Index(i) => match v {
                SpecValue::Array(a) => if (i as int) < a.len() {
                    spec_read_at(a[i as int], toks.drop_first())
                } else {
                    SpecReadRes::Missing
                },
                _ => SpecReadRes::TypeFail,
            },
        }
    }
}

/// Outcome of an `insert` walk.
pub enum SpecInsRes {
    /// The value was inserted at the destination.
    Inserted,
    /// A value already sits at the destination; nothing was changed.
    Exists,
    /// A key or index on the way to the destination's parent was absent.
    Missing,
    /// A container on the way had the wrong kind.
    TypeFail,
}

/// Inserts `nv` at the path `toks` below `v`, never overwriting: the new tree
/// and the outcome.  At an array destination the value is appended to the end
/// when the index is not yet occupied.
pub open spec fn spec_insert_at(v: SpecValue, toks: Seq<SpecToken>, nv: SpecValue) -> (
    SpecValue,
    SpecInsRes,
)
    decreases toks.len(),
{
    if toks.len() == 0 {
        (v, SpecInsRes::TypeFail)
    } else if toks.len() == 1 {
        match toks[0] {
            SpecToken::Key(k) => match v {
                SpecValue::Table(t) => match spec_table_find(t, k) {
                    Some(_) => (v, SpecInsRes::Exists),
                    None => (SpecValue::Table(t.push((k, nv))), SpecInsRes::Inserted),
                },
                _ => (v, SpecInsRes::TypeFail),
            },
            SpecToken::Index(i) => match v {
                SpecValue::Array(a) => if (i as int) < a.len() {
                    (v, SpecInsRes::Exists)
                } else {
                    (SpecValue::Array(a.push(nv)), SpecInsRes::Inserted)
                },
                _ => (v, SpecInsRes::TypeFail),
            },
        }
    } else {
        match toks[0] {
            SpecToken::Key(k) => match v {
                SpecValue::Table(t) => match spec_table_find(t, k) {
                    Some(i) => {
                        let r = spec_insert_at(t[i].1, toks.drop_first(), nv);
                        (SpecValue::Table(t.update(i, (k, r.0))), r.1)
                    },
                    None => (v, SpecInsRes::Missing),
                },
                _ => (v, SpecInsRes::TypeFail),
            },
            SpecToken::Index(i) => match v {
                SpecValue::Array(a) => if (i as int) < a.len() {
                    let r = spec_insert_at(a[i as int], toks.drop_first(), nv);
                    (SpecValue::Array(a.update(i as int, r.0)), r.1)
                } else {
                    (v, SpecInsRes::Missing)
                },
                _ => (v, SpecInsRes::TypeFail),
            },
        }
    }
}

/// Outcome of a `set` walk.
pub enum SpecSetRes {
    /// The value was stored; the previous value at the destination, if the
    /// destination was occupied.
    Stored(Option<SpecValue>),
    /// A key or index on the way to the destination's parent was absent.
    Missing,
    /// A container had the wrong kind.
    TypeFail,
}

/// Stores `nv` at the path `toks` below `v`, overwriting: the new tree and
/// the outcome.  At a table destination the previous value is returned; at an
/// array destination an in-bounds index is replaced (previous value
/// returned), an out-of-bounds index appends to the end and returns nothing.
pub open spec fn spec_set_at(v: SpecValue, toks: Seq<SpecToken>, nv: SpecValue) -> (
    SpecValue,
    SpecSetRes,
)
    decreases toks.len(),
{
    if toks.len() == 0 {
        (v, SpecSetRes::TypeFail)
    } else if toks.len() == 1 {
        match toks[0] {
            SpecToken::Key(k) => match v {
                SpecValue::Table(t) => match spec_table_find(t, k) {
                    Some(i) => (
                        SpecValue::Table(t.update(i, (k, nv))),
                        SpecSetRes::Stored(Some(t[i].1)),
                    ),
                    None => (SpecValue::Table(t.push((k, nv))), SpecSetRes::Stored(None)),
                },
                _ => (v, SpecSetRes::TypeFail),
            },
            SpecToken::Index(i) => match v {
                SpecValue::Array(a) => if (i as int) < a.len() {
                    (SpecValue::Array(a.update(i as int, nv)), SpecSetRes::Stored(Some(a[i as int])))
                } else {
                    (SpecValue::Array(a.push(nv)), SpecSetRes::Stored(None))
                },
                _ => (v, SpecSetRes::TypeFail),
            },
        }
    } else {
        match toks[0] {
            SpecToken::Key(k) => match v {
                SpecValue::Table(t) => match spec_table_find(t, k) {
                    Some(i) => {
                        let r = spec_set_at(t[i].1, toks.drop_first(), nv);
                        (SpecValue::Table(t.update(i, (k, r.0))), r.1)
                    },
                    None => (v, SpecSetRes::Missing),
                },
                _ => (v, SpecSetRes::TypeFail),
            },
            SpecToken::Index(i) => match v {
                SpecValue::Array(a) => if (i as int) < a.len() {
                    let r = spec_set_at(a[i as int], toks.drop_first(), nv);
                    (SpecValue::Array(a.update(i as int, r.0)), r.1)
                } else {
                    (v, SpecSetRes::Missing)
                },
                _ => (v, SpecSetRes::TypeFail),
            },
        }
    }
}

/// Outcome of a `delete` walk.
pub enum SpecDelRes {
    /// The destination was removed; the removed value, if it was present.
    Deleted(Option<SpecValue>),
    /// A key or index on the way to the destination's parent was absent.
    Missing,
    /// A container had the wrong kind.
    TypeFail,
}

/// Removes the value at the path `toks` below `v`: the new tree and the
/// outcome.  Removing an array element shifts the indices of every later
/// element down by one; a missing destination removes nothing.
pub open spec fn spec_delete_at(v: SpecValue, toks: Seq<SpecToken>) -> (SpecValue, SpecDelRes)
    decreases toks.len(),
{
    if toks.len() == 0 {
        (v, SpecDelRes::TypeFail)
    } else if toks.len() == 1 {
        match toks[0] {
            SpecToken::Key(k) => match v {
                SpecValue::Table(t) => match spec_table_find(t, k) {
                    Some(i) => (
                        SpecValue::Table(t.remove(i)),
                        SpecDelRes::Deleted(Some(t[i].1)),
                    ),
                    None => (v, SpecDelRes::Deleted(None)),
                },
                _ => (v, SpecDelRes::TypeFail),
            },
            SpecToken::Index(i) => match v {
                SpecValue::Array(a) => if (i as int) < a.len() {
                    (SpecValue::Array(a.remove(i as int)), SpecDelRes::Deleted(Some(a[i as int])))
                } else {
                    (v, SpecDelRes::Deleted(None))
                },
                _ => (v, SpecDelRes::TypeFail),
            },
        }
    } else {
        match toks[0] {
            SpecToken::Key(k) => match v {
                SpecValue::Table(t) => match spec_table_find(t, k) {
                    Some(i) => {
                        let r = spec_delete_at(t[i].1, toks.drop_first());
                        (SpecValue::Table(t.update(i, (k, r.0))), r.1)
                    },
                    None => (v, SpecDelRes::Missing),
                },
                _ => (v, SpecDelRes::TypeFail),
            },
            SpecToken::Index(i) => match v {
                SpecValue::Array(a) => if (i as int) < a.len() {
                    let r = spec_delete_at(a[i as int], toks.drop_first());
                    (SpecValue::Array(a.update(i as int, r.0)), r.1)
                } else {
                    (v, SpecDelRes::Missing)
                },
                _ => (v, SpecDelRes::TypeFail),
            },
        }
    }
}


/// The mathematical value of a token sequence.
pub open spec fn toks_view(toks: Seq<Token>) -> Seq<SpecToken> {
    toks.map(|i: int, t: Token| t@)
}

/// Classifies one path piece: a nonempty digit string that fits in `usize`
/// becomes an index, anything else a key.
#[verifier::loop_isolation(false)]
fn classify_piece(piece: Vec<char>) -> (t: Token)
    ensures
        t@ == spec_classify(piece@),
{
    let n = piece.len();
    if n == 0 {
        return Token::Key(string_from_chars(&piece));
    }
    let mut val: u128 = 0;
    let mut ovf: bool = false;
    let mut i: usize = 0;
    while i < n
        invariant
            0 <= i <= n,
            n == piece@.len(),
            spec_all_digits(piece@.subrange(0, i as int)),
            !ovf ==> val == spec_digits_val(piece@.subrange(0, i as int)) && val <= usize::MAX
                as u128,
            ovf ==> spec_digits_val(piece@.subrange(0, i as int)) > usize::MAX as int,
        decreases n - i,
    {
        let c = piece[i];
        if c < '0' || c > '9' {
            return Token::Key(string_from_chars(&piece));
        }
        let d: u128 = (c as u32 - '0' as u32) as u128;
        proof {
            assert(piece@.subrange(0, i as int + 1).drop_last() =~= piece@.subrange(0, i as int));
            assert(piece@.subrange(0, i as int + 1).last() == piece@[i as int]);
        }
        if !ovf {
            let nval: u128 = val * 10 + d;
            if nval > usize::MAX as u128 {
                ovf = true;
            } else {
                val = nval;
            }
            proof {
                if ovf {
                    assert(spec_digits_val(piece@.subrange(0, i as int + 1)) > usize::MAX as int);
                }
            }
        } else {
            proof {
                let prev = spec_digits_val(piece@.subrange(0, i as int));
                let next = spec_digits_val(piece@.subrange(0, i as int + 1));
                assert(next == prev * 10 + (piece@[i as int] as int - '0' as int));
                assert(prev * 10 == prev + 9 * prev);
                assert(next > usize::MAX as int);
            }
        }
        i = i + 1;
    }
    proof {
        assert(piece@.subrange(0, n as int) =~= piece@);
    }
    if ovf {
        Token::Key(string_from_chars(&piece))
    } else {
        Token::Index(val as usize)
    }
}

/// Splits `path` on `sep` and classifies every piece.  Tokenization never
/// fails; there is always at least one token.
#[verifier::loop_isolation(false)]
pub fn tokenize(path: &str, sep: char) -> (r: Vec<Token>)
    ensures
        toks_view(r@) == spec_tokenize(path@, sep),
        r@.len() >= 1,
{
    let chars = str_chars(path);
    let ghost s = path@;
    let n = chars.len();
    let mut toks: Vec<Token> = Vec::new();
    let ghost mut pieces: Seq<Seq<char>> = Seq::empty();
    let mut start: usize = 0;
    let mut i: usize = 0;
    while i < n
        invariant
            0 <= start <= i <= n,
            n == s.len(),
            chars@ == s,
            spec_split(s, sep) == spec_split_from(s, sep, i as int, start as int, pieces),
            toks@.len() == pieces.len(),
            forall|j: int| 0 <= j < pieces.len() ==> (#[trigger] toks@[j])@ == spec_classify(
                pieces[j],
            ),
        decreases n - i,
    {
        if chars[i] == sep {
            let piece = subvec_chars(&chars, start, i);
            let tok = classify_piece(piece);
            toks.push(tok);
            proof {
                pieces = pieces.push(s.subrange(start as int, i as int));
            }
            start = i + 1;
        }
        i = i + 1;
    }
    let piece = subvec_chars(&chars, start, n);
    let tok = classify_piece(piece);
    toks.push(tok);
    proof {
        pieces = pieces.push(s.subrange(start as int, n as int));
        assert(spec_split(s, sep) == pieces);
        assert forall|j: int| 0 <= j < toks@.len() implies toks_view(toks@)[j] == spec_tokenize(
            s,
            sep,
        )[j] by {}
        assert(toks_view(toks@).len() == spec_tokenize(s, sep).len());
        assert(toks_view(toks@) =~= spec_tokenize(s, sep));
    }
    toks
}

/// Outcome of an insert walk over executable values.
enum InsOutcome {
    Inserted,
    Exists,
    Missing,
    TypeFail,
}

impl InsOutcome {
    spec fn view(self) -> SpecInsRes {
        match self {
            InsOutcome::Inserted => SpecInsRes::Inserted,
            InsOutcome::Exists => SpecInsRes::Exists,
            InsOutcome::Missing => SpecInsRes::Missing,
            InsOutcome::TypeFail => SpecInsRes::TypeFail,
        }
    }
}

/// Outcome of a set walk over executable values.
enum SetOutcome {
    Stored(Option<Value>),
    Missing,
    TypeFail,
}

impl SetOutcome {
    spec fn view(self) -> SpecSetRes {
        match self {
            SetOutcome::Stored(o) => SpecSetRes::Stored(
                match o {
                    Some(v) => Some(v@),
                    None => None,
                },
            ),
            SetOutcome::Missing => SpecSetRes::Missing,
            SetOutcome::TypeFail => SpecSetRes::TypeFail,
        }
    }
}

/// Outcome of a delete walk over executable values.
enum DelOutcome {
    Deleted(Option<Value>),
    Missing,
    TypeFail,
}

impl DelOutcome {
    spec fn view(self) -> SpecDelRes {
        match self {
            DelOutcome::Deleted(o) => SpecDelRes::Deleted(
                match o {
                    Some(v) => Some(v@),
                    None => None,
                },
            ),
            DelOutcome::Missing => SpecDelRes::Missing,
            DelOutcome::TypeFail => SpecDelRes::TypeFail,
        }
    }
}

/// Walks all of `toks` (from position `pos`) below `v` and borrows the value
/// found there.
#[verifier::loop_isolation(false)]
fn get_at<'a>(v: &'a Value, toks: &Vec<Token>, pos: usize) -> (r: Result<
    Option<&'a Value>,
    StoreError,
>)
    requires
        pos <= toks@.len(),
    ensures
        match spec_read_at(v@, toks_view(toks@).skip(pos as int)) {
            SpecReadRes::Found(sv) => r matches Ok(Some(rv)) && rv@ == sv,
            SpecReadRes::Missing => r matches Ok(o) && o is None,
            SpecReadRes::TypeFail => r matches Err(e) && e.spec_kind()
                == StoreErrorKind::HeaderPathTypeFailure,
        },
    decreases toks@.len() - pos,
{
    let ghost gtoks = toks_view(toks@).skip(pos as int);
    if pos == toks.len() {
        proof {
            assert(gtoks.len() == 0);
        }
        return Ok(Some(v));
    }
    proof {
        assert(gtoks[0] == toks@[pos as int]@);
        assert(gtoks.drop_first() =~= toks_view(toks@).skip(pos as int + 1));
    }
    match &toks[pos] {
        Token::Key(k) => match v {
            Value::Table(entries) => match table_find(entries, k) {
                Some(i) => {
                    proof {
                        lemma_table_find(crate::value::spec_table_view(entries@), k@);
                        lemma_table_view_index(entries@, i as int);
                    }
                    get_at(&entries[i].1, toks, pos + 1)
                },
                None => Ok(None),
            },
            _ => Err(StoreError::new(StoreErrorKind::HeaderPathTypeFailure, None)),
        },
        Token::Index(i) => match v {
            Value::Array(items) => {
                proof {
                    lemma_array_view_len(items@);
                }
                if *i < items.len() {
                    proof {
                        lemma_array_view_index(items@, *i as int);
                    }
                    get_at(&items[*i], toks, pos + 1)
                } else {
                    Ok(None)
                }
            },
            _ => Err(StoreError::new(StoreErrorKind::HeaderPathTypeFailure, None)),
        },
    }
}

/// Inserts `nv` at the path `toks` (from position `pos`) below `v`, never
/// overwriting.
#[verifier::loop_isolation(false)]
fn insert_at(v: Value, toks: &Vec<Token>, pos: usize, nv: Value) -> (res: (Value, InsOutcome))
    requires
        pos < toks@.len(),
    ensures
        ({
            let sr = spec_insert_at(v@, toks_view(toks@).skip(pos as int), nv@);
            res.0@ == sr.0 && res.1@ == sr.1
        }),
    decreases toks@.len() - pos,
{
    let ghost gtoks = toks_view(toks@).skip(pos as int);
    proof {
        assert(gtoks[0] == toks@[pos as int]@);
        assert(gtoks.drop_first() =~= toks_view(toks@).skip(pos as int + 1));
    }
    let last = pos == toks.len() - 1;
    match &toks[pos] {
        Token::Key(k) => match v {
            Value::Table(mut entries) => {
                let ghost m = crate::value::spec_table_view(entries@);
                proof {
                    lemma_table_view_len(entries@);
                }
                match table_find(&entries, k) {
                    Some(i) => {
                        proof {
                            lemma_table_find(m, k@);
                            lemma_table_view_index(entries@, i as int);
                        }
                        if last {
                            (Value::Table(entries), InsOutcome::Exists)
                        } else {
                            let ghost entries0 = entries@;
                            let (k0, child) = entries.remove(i);
                            let (child2, out) = insert_at(child, toks, pos + 1, nv);
                            entries.insert(i, (k0, child2));
                            proof {
                                lemma_seq_replace(entries0, i as int, (k0, child2));
                                lemma_table_view_update(entries0, i as int, (k0, child2));
                            }
                            (Value::Table(entries), out)
                        }
                    },
                    None => {
                        if last {
                            let ghost entries0 = entries@;
                            entries.push((k.clone(), nv));
                            proof {
                                lemma_table_view_push(entries0, entries@.last());
                            }
                            (Value::Table(entries), InsOutcome::Inserted)
                        } else {
                            (Value::Table(entries), InsOutcome::Missing)
                        }
                    },
                }
            },
            other => (other, InsOutcome::TypeFail),
        },
        Token::Index(i) => match v {
            Value::Array(mut items) => {
                proof {
                    lemma_array_view_len(items@);
                }
                if *i < items.len() {
                    proof {
                        lemma_array_view_index(items@, *i as int);
                    }
                    if last {
                        (Value::Array(items), InsOutcome::Exists)
                    } else {
                        let ghost items0 = items@;
                        let child = items.remove(*i);
                        let (child2, out) = insert_at(child, toks, pos + 1, nv);
                        items.insert(*i, child2);
                        proof {
                            lemma_seq_replace(items0, *i as int, child2);
                            lemma_array_view_update(items0, *i as int, child2);
                        }
                        (Value::Array(items), out)
                    }
                } else {
                    if last {
                        let ghost items0 = items@;
                        items.push(nv);
                        proof {
                            lemma_array_view_push(items0, items@.last());
                        }
                        (Value::Array(items), InsOutcome::Inserted)
                    } else {
                        (Value::Array(items), InsOutcome::Missing)
                    }
                }
            },
            other => (other, InsOutcome::TypeFail),
        },
    }
}

/// Stores `nv` at the path `toks` (from position `pos`) below `v`,
/// overwriting.
#[verifier::loop_isolation(false)]
fn set_at(v: Value, toks: &Vec<Token>, pos: usize, nv: Value) -> (res: (Value, SetOutcome))
    requires
        pos < toks@.len(),
    ensures
        ({
            let sr = spec_set_at(v@, toks_view(toks@).skip(pos as int), nv@);
            res.0@ == sr.0 && res.1@ == sr.1
        }),
    decreases toks@.len() - pos,
{
    let ghost gtoks = toks_view(toks@).skip(pos as int);
    proof {
        assert(gtoks[0] == toks@[pos as int]@);
        assert(gtoks.drop_first() =~= toks_view(toks@).skip(pos as int + 1));
    }
    let last = pos == toks.len() - 1;
    match &toks[pos] {
        Token::Key(k) => match v {
            Value::Table(mut entries) => {
                let ghost m = crate::value::spec_table_view(entries@);
                proof {
                    lemma_table_view_len(entries@);
                }
                match table_find(&entries, k) {
                    Some(i) => {
                        proof {
                            lemma_table_find(m, k@);
                            lemma_table_view_index(entries@, i as int);
                        }
                        let ghost entries0 = entries@;
                        let (k0, child) = entries.remove(i);
                        if last {
                            entries.insert(i, (k0, nv));
                            proof {
                                lemma_seq_replace(entries0, i as int, entries@[i as int]);
                                lemma_table_view_update(entries0, i as int, entries@[i as int]);
                            }
                            (Value::Table(entries), SetOutcome::Stored(Some(child)))
                        } else {
                            let (child2, out) = set_at(child, toks, pos + 1, nv);
                            entries.insert(i, (k0, child2));
                            proof {
                                lemma_seq_replace(entries0, i as int, entries@[i as int]);
                                lemma_table_view_update(entries0, i as int, entries@[i as int]);
                            }
                            (Value::Table(entries), out)
                        }
                    },
                    None => {
                        if last {
                            let ghost entries0 = entries@;
                            entries.push((k.clone(), nv));
                            proof {
                                lemma_table_view_push(entries0, entries@.last());
                            }
                            (Value::Table(entries), SetOutcome::Stored(None))
                        } else {
                            (Value::Table(entries), SetOutcome::Missing)
                        }
                    },
                }
            },
            other => (other, SetOutcome::TypeFail),
        },
        Token::Index(i) => match v {
            Value::Array(mut items) => {
                proof {
                    lemma_array_view_len(items@);
                }
                if *i < items.len() {
                    proof {
                        lemma_array_view_index(items@, *i as int);
                    }
                    let ghost items0 = items@;
                    let child = items.remove(*i);
                    if last {
                        items.insert(*i, nv);
                        proof {
                            lemma_seq_replace(items0, *i as int, items@[*i as int]);
                            lemma_array_view_update(items0, *i as int, items@[*i as int]);
                        }
                        (Value::Array(items), SetOutcome::Stored(Some(child)))
                    } else {
                        let (child2, out) = set_at(child, toks, pos + 1, nv);
                        items.insert(*i, child2);
                        proof {
                            lemma_seq_replace(items0, *i as int, items@[*i as int]);
                            lemma_array_view_update(items0, *i as int, items@[*i as int]);
                        }
                        (Value::Array(items), out)
                    }
                } else {
                    if last {
                        let ghost items0 = items@;
                        items.push(nv);
                        proof {
                            lemma_array_view_push(items0, items@.last());
                        }
                        (Value::Array(items), SetOutcome::Stored(None))
                    } else {
                        (Value::Array(items), SetOutcome::Missing)
                    }
                }
            },
            other => (other, SetOutcome::TypeFail),
        },
    }
}

/// Removes the value at the path `toks` (from position `pos`) below `v`.
#[verifier::loop_isolation(false)]
fn delete_at(v: Value, toks: &Vec<Token>, pos: usize) -> (res: (Value, DelOutcome))
    requires
        pos < toks@.len(),
    ensures
        ({
            let sr = spec_delete_at(v@, toks_view(toks@).skip(pos as int));
            res.0@ == sr.0 && res.1@ == sr.1
        }),
    decreases toks@.len() - pos,
{
    let ghost gtoks = toks_view(toks@).skip(pos as int);
    proof {
        assert(gtoks[0] == toks@[pos as int]@);
        assert(gtoks.drop_first() =~= toks_view(toks@).skip(pos as int + 1));
    }
    let last = pos == toks.len() - 1;
    match &toks[pos] {
        Token::Key(k) => match v {
            Value::Table(mut entries) => {
                let ghost m = crate::value::spec_table_view(entries@);
                proof {
                    lemma_table_view_len(entries@);
                }
                match table_find(&entries, k) {
                    Some(i) => {
                        proof {
                            lemma_table_find(m, k@);
                            lemma_table_view_index(entries@, i as int);
                        }
                        let ghost entries0 = entries@;
                        if last {
                            let (_k0, old) = entries.remove(i);
                            proof {
                                lemma_table_view_remove(entries0, i as int);
                            }
                            (Value::Table(entries), DelOutcome::Deleted(Some(old)))
                        } else {
                            let (k0, child) = entries.remove(i);
                            let (child2, out) = delete_at(child, toks, pos + 1);
                            entries.insert(i, (k0, child2));
                            proof {
                                lemma_seq_replace(entries0, i as int, entries@[i as int]);
                                lemma_table_view_update(entries0, i as int, entries@[i as int]);
                            }
                            (Value::Table(entries), out)
                        }
                    },
                    None => {
                        if last {
                            (Value::Table(entries), DelOutcome::Deleted(None))
                        } else {
                            (Value::Table(entries), DelOutcome::Missing)
                        }
                    },
                }
            },
            other => (other, DelOutcome::TypeFail),
        },
        Token::Index(i) => match v {
            Value::Array(mut items) => {
                proof {
                    lemma_array_view_len(items@);
                }
                if *i < items.len() {
                    proof {
                        lemma_array_view_index(items@, *i as int);
                    }
                    let ghost items0 = items@;
                    if last {
                        let old = items.remove(*i);
                        proof {
                            lemma_array_view_remove(items0, *i as int);
                        }
                        (Value::Array(items), DelOutcome::Deleted(Some(old)))
                    } else {
                        let child = items.remove(*i);
                        let (child2, out) = delete_at(child, toks, pos + 1);
                        items.insert(*i, child2);
                        proof {
                            lemma_seq_replace(items0, *i as int, items@[*i as int]);
                            lemma_array_view_update(items0, *i as int, items@[*i as int]);
                        }
                        (Value::Array(items), out)
                    }
                } else {
                    if last {
                        (Value::Array(items), DelOutcome::Deleted(None))
                    } else {
                        (Value::Array(items), DelOutcome::Missing)
                    }
                }
            },
            other => (other, DelOutcome::TypeFail),
        },
    }
}


/// An insert that did not insert leaves the tree unchanged.
pub proof fn lemma_insert_error_unchanged(v: SpecValue, toks: Seq<SpecToken>, nv: SpecValue)
    ensures
        !(spec_insert_at(v, toks, nv).1 is Inserted) ==> spec_insert_at(v, toks, nv).0 == v,
    decreases toks.len(),
{
    if toks.len() > 1 {
        match toks[0] {
            SpecToken::Key(k) => {
                match v {
                    SpecValue::Table(t) => {
                        lemma_table_find(t, k);
                        match spec_table_find(t, k) {
                            Some(i) => {
                                lemma_insert_error_unchanged(t[i].1, toks.drop_first(), nv);
                                let r = spec_insert_at(t[i].1, toks.drop_first(), nv);
                                if !(r.1 is Inserted) {
                                    assert(t.update(i, (k, r.0)) =~= t);
                                }
                            },
                            None => {},
                        }
                    },
                    _ => {},
                }
            },
            SpecToken::Index(i) => {
                match v {
                    SpecValue::Array(a) => {
                        if (i as int) < a.len() {
                            lemma_insert_error_unchanged(a[i as int], toks.drop_first(), nv);
                            let r = spec_insert_at(a[i as int], toks.drop_first(), nv);
                            if !(r.1 is Inserted) {
                                assert(a.update(i as int, r.0) =~= a);
                            }
                        }
                    },
                    _ => {},
                }
            },
        }
    }
}

/// A set that did not store leaves the tree unchanged.
pub proof fn lemma_set_error_unchanged(v: SpecValue, toks: Seq<SpecToken>, nv: SpecValue)
    ensures
        !(spec_set_at(v, toks, nv).1 is Stored) ==> spec_set_at(v, toks, nv).0 == v,
    decreases toks.len(),
{
    if toks.len() > 1 {
        match toks[0] {
            SpecToken::Key(k) => {
                match v {
                    SpecValue::Table(t) => {
                        lemma_table_find(t, k);
                        match spec_table_find(t, k) {
                            Some(i) => {
                                lemma_set_error_unchanged(t[i].1, toks.drop_first(), nv);
                                let r = spec_set_at(t[i].1, toks.drop_first(), nv);
                                if !(r.1 is Stored) {
                                    assert(t.update(i, (k, r.0)) =~= t);
                                }
                            },
                            None => {},
                        }
                    },
                    _ => {},
                }
            },
            SpecToken::Index(i) => {
                match v {
                    SpecValue::Array(a) => {
                        if (i as int) < a.len() {
                            lemma_set_error_unchanged(a[i as int], toks.drop_first(), nv);
                            let r = spec_set_at(a[i as int], toks.drop_first(), nv);
                            if !(r.1 is Stored) {
                                assert(a.update(i as int, r.0) =~= a);
                            }
                        }
                    },
                    _ => {},
                }
            },
        }
    }
}

/// A delete that found nothing to remove leaves the tree unchanged.
pub proof fn lemma_delete_error_unchanged(v: SpecValue, toks: Seq<SpecToken>)
    ensures
        !(spec_delete_at(v, toks).1 matches SpecDelRes::Deleted(Some(_)))
            ==> spec_delete_at(v, toks).0 == v,
    decreases toks.len(),
{
    if toks.len() > 1 {
        match toks[0] {
            SpecToken::Key(k) => {
                match v {
                    SpecValue::Table(t) => {
                        lemma_table_find(t, k);
                        match spec_table_find(t, k) {
                            Some(i) => {
                                lemma_delete_error_unchanged(t[i].1, toks.drop_first());
                                let r = spec_delete_at(t[i].1, toks.drop_first());
                                if !(r.1 matches SpecDelRes::Deleted(Some(_))) {
                                    assert(t.update(i, (k, r.0)) =~= t);
                                }
                            },
                            None => {},
                        }
                    },
                    _ => {},
                }
            },
            SpecToken::Index(i) => {
                match v {
                    SpecValue::Array(a) => {
                        if (i as int) < a.len() {
                            lemma_delete_error_unchanged(a[i as int], toks.drop_first());
                            let r = spec_delete_at(a[i as int], toks.drop_first());
                            if !(r.1 matches SpecDelRes::Deleted(Some(_))) {
                                assert(a.update(i as int, r.0) =~= a);
                            }
                        }
                    },
                    _ => {},
                }
            },
        }
    }
}

/// The version string this store writes into fresh headers.
pub open spec fn spec_store_version() -> Seq<char> {
    "0.0.3"@
}

/// The version string this store writes into fresh headers.
pub fn store_version() -> (r: &'static str)
    ensures
        r@ == spec_store_version(),
{
    "0.0.3"
}

/// The default header skeleton: a reserved `imag` table carrying the schema
/// version and an empty link list.
pub open spec fn spec_default_header() -> SpecValue {
    SpecValue::Table(
        seq![
            (
                "imag"@,
                SpecValue::Table(
                    seq![
                        ("version"@, SpecValue::Str(spec_store_version())),
                        ("links"@, SpecValue::Array(Seq::empty())),
                    ],
                ),
            ),
        ],
    )
}

/// Builds the default header skeleton.
pub fn build_default_header() -> (v: Value)
    ensures
        v@ == spec_default_header(),
{
    let mut imag: Table = Vec::new();
    imag.push((String::from_str("version"), Value::Str(String::from_str(store_version()))));
    imag.push((String::from_str("links"), Value::Array(Vec::new())));
    let ghost imag_view: Seq<(Seq<char>, SpecValue)> = seq![
        ("version"@, SpecValue::Str(spec_store_version())),
        ("links"@, SpecValue::Array(Seq::empty())),
    ];
    proof {
        assert(spec_array_view(Seq::<Value>::empty()) =~= Seq::<SpecValue>::empty());
        lemma_table_view_eq(imag@, imag_view);
    }
    let mut m: Table = Vec::new();
    m.push((String::from_str("imag"), Value::Table(imag)));
    proof {
        lemma_table_view_eq(m@, seq![("imag"@, SpecValue::Table(imag_view))]);
    }
    Value::Table(m)
}

/// A fresh default header passes the schema check, as long as the store's own
/// version string is a valid semantic version (which the `semver` crate
/// decides).
pub proof fn lemma_default_header_valid()
    ensures
        semver_ok(spec_store_version()) ==> spec_header_valid(spec_default_header()),
{
    let sec: Seq<(Seq<char>, SpecValue)> = seq![
        ("version"@, SpecValue::Str(spec_store_version())),
        ("links"@, SpecValue::Array(Seq::empty())),
    ];
    let t: Seq<(Seq<char>, SpecValue)> = seq![("imag"@, SpecValue::Table(sec))];
    assert(spec_table_find(t, "imag"@) == Some(0int));
    assert(spec_table_find(sec, "version"@) == Some(0int));
    assert(spec_has_main_section(t));
    assert(spec_has_only_tables(t));
}

/// A structured header: the schema-validated metadata tree of an entry.
///
/// The tree is mutated only through the path-accessor API.
#[derive(Debug)]
pub struct EntryHeader {
    header: Value,
}

impl View for EntryHeader {
    type V = SpecValue;

    closed spec fn view(&self) -> SpecValue {
        self.header@
    }
}

impl Clone for EntryHeader {
    /// The copy has the same mathematical value as the original.
    fn clone(&self) -> (r: EntryHeader)
        ensures
            r@ == self@,
    {
        EntryHeader { header: value_clone(&self.header) }
    }
}

impl EntryHeader {
    /// A fresh header holding the default skeleton.
    pub fn new() -> (r: EntryHeader)
        ensures
            r@ == spec_default_header(),
    {
        EntryHeader { header: build_default_header() }
    }

    /// The root value of this header.
    pub fn header(&self) -> (r: &Value)
        ensures
            r@ == self@,
    {
        &self.header
    }

    /// Wraps a table as a header.
    pub fn from_table(t: Table) -> (r: EntryHeader)
        ensures
            r@ == SpecValue::Table(spec_table_view(t@)),
    {
        EntryHeader { header: Value::Table(t) }
    }

    /// Splits a path into tokens.  Tokenization never fails on ordinary
    /// input; the result is always `Ok` and holds at least one token.
    pub fn tokenize(spec_path: &str, splitchr: char) -> (r: Result<Vec<Token>, StoreError>)
        ensures
            r matches Ok(toks) && toks_view(toks@) == spec_tokenize(spec_path@, splitchr)
                && toks@.len() >= 1,
    {
        Ok(tokenize(spec_path, splitchr))
    }

    /// Walks all of `tokens` below `v` and borrows the value found there.  A
    /// missing key or index is `HeaderKeyNotFound`; a wrongly-typed container
    /// on the way is `HeaderPathTypeFailure`.
    pub fn walk_header<'a>(v: &'a Value, tokens: Vec<Token>) -> (r: Result<&'a Value, StoreError>)
        ensures
            match spec_read_at(v@, toks_view(tokens@)) {
                SpecReadRes::Found(sv) => r matches Ok(rv) && rv@ == sv,
                SpecReadRes::Missing => r matches Err(e) && e.spec_kind()
                    == StoreErrorKind::HeaderKeyNotFound,
                SpecReadRes::TypeFail => r matches Err(e) && e.spec_kind()
                    == StoreErrorKind::HeaderPathTypeFailure,
            },
    {
        proof {
            assert(toks_view(tokens@).skip(0) =~= toks_view(tokens@));
        }
        match get_at(v, &tokens, 0) {
            Ok(Some(rv)) => Ok(rv),
            Ok(None) => Err(StoreError::new(StoreErrorKind::HeaderKeyNotFound, None)),
            Err(e) => Err(e),
        }
    }

    /// Reads the value at a dotted path: `Ok(None)` when a key or index on
    /// the way is absent, `HeaderPathTypeFailure` when a container on the way
    /// has the wrong kind, and a copy of the value otherwise.
    pub fn read(&self, spec_path: &str) -> (r: Result<Option<Value>, StoreError>)
        ensures
            match spec_read_at(self@, spec_tokenize(spec_path@, '.')) {
                SpecReadRes::Found(sv) => r matches Ok(Some(rv)) && rv@ == sv,
                SpecReadRes::Missing => r matches Ok(o) && o is None,
                SpecReadRes::TypeFail => r matches Err(e) && e.spec_kind()
                    == StoreErrorKind::HeaderPathTypeFailure,
            },
    {
        self.read_with_sep(spec_path, '.')
    }

    /// As [`EntryHeader::read`], splitting the path on `splitchr`.
    pub fn read_with_sep(&self, spec_path: &str, splitchr: char) -> (r: Result<
        Option<Value>,
        StoreError,
    >)
        ensures
            match spec_read_at(self@, spec_tokenize(spec_path@, splitchr)) {
                SpecReadRes::Found(sv) => r matches Ok(Some(rv)) && rv@ == sv,
                SpecReadRes::Missing => r matches Ok(o) && o is None,
                SpecReadRes::TypeFail => r matches Err(e) && e.spec_kind()
                    == StoreErrorKind::HeaderPathTypeFailure,
            },
    {
        let toks = tokenize(spec_path, splitchr);
        proof {
            assert(toks_view(toks@).skip(0) =~= toks_view(toks@));
        }
        match get_at(&self.header, &toks, 0) {
            Ok(Some(rv)) => Ok(Some(value_clone(rv))),
            Ok(None) => Ok(None),
            Err(e) => Err(e),
        }
    }

    /// Inserts `v` at a dotted path, never overwriting: `Ok(true)` when the
    /// value was inserted, `Ok(false)` when a value already sits there (the
    /// header is unchanged), `HeaderKeyNotFound` when the walk to the parent
    /// breaks on a missing key, `HeaderPathTypeFailure` when it breaks on a
    /// wrongly-typed container.
    pub fn insert(&mut self, spec_path: &str, v: Value) -> (r: Result<bool, StoreError>)
        ensures
            ({
                let sr = spec_insert_at(old(self)@, spec_tokenize(spec_path@, '.'), v@);
                final(self)@ == sr.0 && match sr.1 {
                    SpecInsRes::Inserted => r matches Ok(b) && b == true,
                    SpecInsRes::Exists => (r matches Ok(b) && b == false) && final(self)@ == old(
                        self,
                    )@,
                    SpecInsRes::Missing => (r matches Err(e) && e.spec_kind()
                        == StoreErrorKind::HeaderKeyNotFound) && final(self)@ == old(self)@,
                    SpecInsRes::TypeFail => (r matches Err(e) && e.spec_kind()
                        == StoreErrorKind::HeaderPathTypeFailure) && final(self)@ == old(self)@,
                }
            }),
    {
        self.insert_with_sep(spec_path, '.', v)
    }

    /// As [`EntryHeader::insert`], splitting the path on `sep`.
    pub fn insert_with_sep(&mut self, spec_path: &str, sep: char, v: Value) -> (r: Result<
        bool,
        StoreError,
    >)
        ensures
            ({
                let sr = spec_insert_at(old(self)@, spec_tokenize(spec_path@, sep), v@);
                final(self)@ == sr.0 && match sr.1 {
                    SpecInsRes::Inserted => r matches Ok(b) && b == true,
                    SpecInsRes::Exists => (r matches Ok(b) && b == false) && final(self)@ == old(
                        self,
                    )@,
                    SpecInsRes::Missing => (r matches Err(e) && e.spec_kind()
                        == StoreErrorKind::HeaderKeyNotFound) && final(self)@ == old(self)@,
                    SpecInsRes::TypeFail => (r matches Err(e) && e.spec_kind()
                        == StoreErrorKind::HeaderPathTypeFailure) && final(self)@ == old(self)@,
                }
            }),
    {
        let toks = tokenize(spec_path, sep);
        let mut root = Value::Bool(false);
        core::mem::swap(&mut self.header, &mut root);
        proof {
            assert(toks_view(toks@).skip(0) =~= toks_view(toks@));
            lemma_insert_error_unchanged(root@, toks_view(toks@), v@);
        }
        let (root2, out) = insert_at(root, &toks, 0, v);
        self.header = root2;
        match out {
            InsOutcome::Inserted => Ok(true),
            InsOutcome::Exists => Ok(false),
            InsOutcome::Missing => Err(StoreError::new(StoreErrorKind::HeaderKeyNotFound, None)),
            InsOutcome::TypeFail => Err(
                StoreError::new(StoreErrorKind::HeaderPathTypeFailure, None),
            ),
        }
    }

    /// Stores `v` at a dotted path, overwriting: returns the previous value
    /// at an occupied destination, `Ok(None)` when the destination was free
    /// (at an out-of-bounds array index the value is appended to the end),
    /// `HeaderKeyNotFound` when the walk to the parent breaks on a missing
    /// key, `HeaderPathTypeFailure` when it breaks on a wrongly-typed
    /// container.
    pub fn set(&mut self, spec_path: &str, v: Value) -> (r: Result<Option<Value>, StoreError>)
        ensures
            ({
                let sr = spec_set_at(old(self)@, spec_tokenize(spec_path@, '.'), v@);
                final(self)@ == sr.0 && match sr.1 {
                    SpecSetRes::Stored(o) => r matches Ok(rv) && (match (rv, o) {
                        (Some(x), Some(y)) => x@ == y,
                        (None, None) => true,
                        _ => false,
                    }),
                    SpecSetRes::Missing => (r matches Err(e) && e.spec_kind()
                        == StoreErrorKind::HeaderKeyNotFound) && final(self)@ == old(self)@,
                    SpecSetRes::TypeFail => (r matches Err(e) && e.spec_kind()
                        == StoreErrorKind::HeaderPathTypeFailure) && final(self)@ == old(self)@,
                }
            }),
    {
        self.set_with_sep(spec_path, '.', v)
    }

    /// As [`EntryHeader::set`], splitting the path on `sep`.
    pub fn set_with_sep(&mut self, spec_path: &str, sep: char, v: Value) -> (r: Result<
        Option<Value>,
        StoreError,
    >)
        ensures
            ({
                let sr = spec_set_at(old(self)@, spec_tokenize(spec_path@, sep), v@);
                final(self)@ == sr.0 && match sr.1 {
                    SpecSetRes::Stored(o) => r matches Ok(rv) && (match (rv, o) {
                        (Some(x), Some(y)) => x@ == y,
                        (None, None) => true,
                        _ => false,
                    }),
                    SpecSetRes::Missing => (r matches Err(e) && e.spec_kind()
                        == StoreErrorKind::HeaderKeyNotFound) && final(self)@ == old(self)@,
                    SpecSetRes::TypeFail => (r matches Err(e) && e.spec_kind()
                        == StoreErrorKind::HeaderPathTypeFailure) && final(self)@ == old(self)@,
                }
            }),
    {
        let toks = tokenize(spec_path, sep);
        let mut root = Value::Bool(false);
        core::mem::swap(&mut self.header, &mut root);
        proof {
            assert(toks_view(toks@).skip(0) =~= toks_view(toks@));
            lemma_set_error_unchanged(root@, toks_view(toks@), v@);
        }
        let (root2, out) = set_at(root, &toks, 0, v);
        self.header = root2;
        match out {
            SetOutcome::Stored(o) => Ok(o),
            SetOutcome::Missing => Err(StoreError::new(StoreErrorKind::HeaderKeyNotFound, None)),
            SetOutcome::TypeFail => Err(
                StoreError::new(StoreErrorKind::HeaderPathTypeFailure, None),
            ),
        }
    }

    /// Removes the value at a dotted path: returns the removed value, or
    /// `Ok(None)` when the destination was already absent (nothing is
    /// created or removed).  Removing an array element shifts the indices of
    /// later elements down by one.  `HeaderKeyNotFound` when the walk to the
    /// parent breaks on a missing key, `HeaderPathTypeFailure` when it breaks
    /// on a wrongly-typed container.
    pub fn delete(&mut self, spec_path: &str) -> (r: Result<Option<Value>, StoreError>)
        ensures
            ({
                let sr = spec_delete_at(old(self)@, spec_tokenize(spec_path@, '.'));
                final(self)@ == sr.0 && match sr.1 {
                    SpecDelRes::Deleted(o) => (r matches Ok(rv) && (match (rv, o) {
                        (Some(x), Some(y)) => x@ == y,
                        (None, None) => true,
                        _ => false,
                    })) && (o is None ==> final(self)@ == old(self)@),
                    SpecDelRes::Missing => (r matches Err(e) && e.spec_kind()
                        == StoreErrorKind::HeaderKeyNotFound) && final(self)@ == old(self)@,
                    SpecDelRes::TypeFail => (r matches Err(e) && e.spec_kind()
                        == StoreErrorKind::HeaderPathTypeFailure) && final(self)@ == old(self)@,
                }
            }),
    {
        let toks = tokenize(spec_path, '.');
        let mut root = Value::Bool(false);
        core::mem::swap(&mut self.header, &mut root);
        proof {
            assert(toks_view(toks@).skip(0) =~= toks_view(toks@));
            lemma_delete_error_unchanged(root@, toks_view(toks@));
        }
        let (root2, out) = delete_at(root, &toks, 0);
        self.header = root2;
        match out {
            DelOutcome::Deleted(o) => Ok(o),
            DelOutcome::Missing => Err(StoreError::new(StoreErrorKind::HeaderKeyNotFound, None)),
            DelOutcome::TypeFail => Err(
                StoreError::new(StoreErrorKind::HeaderPathTypeFailure, None),
            ),
        }
    }
}


/// Whether the top-level table has an `imag` key holding a table.
pub open spec fn spec_has_main_section(t: Seq<(Seq<char>, SpecValue)>) -> bool {
    match spec_table_get(t, "imag"@) {
        Some(SpecValue::Table(_)) => true,
        _ => false,
    }
}

/// Whether the `imag` main section carries a `version` key holding a
/// parseable semantic-version string.
pub open spec fn spec_has_imag_version(t: Seq<(Seq<char>, SpecValue)>) -> bool {
    match spec_table_get(t, "imag"@) {
        Some(SpecValue::Table(sec)) => match spec_table_get(sec, "version"@) {
            Some(SpecValue::Str(s)) => semver_ok(s),
            _ => false,
        },
        _ => false,
    }
}

/// Whether every top-level value is itself a table.
pub open spec fn spec_has_only_tables(t: Seq<(Seq<char>, SpecValue)>) -> bool {
    forall|i: int| 0 <= i < t.len() ==> (#[trigger] t[i]).1 is Table
}

/// The parser kind reported for a table that breaks the schema: a missing or
/// non-table `imag` section first, then a missing or unparseable version,
/// then a non-table top-level value.
pub open spec fn spec_schema_error_kind(t: Seq<(Seq<char>, SpecValue)>) -> ParserErrorKind {
    if !spec_has_main_section(t) {
        ParserErrorKind::MissingMainSection
    } else if !spec_has_imag_version(t) {
        ParserErrorKind::MissingVersionInfo
    } else {
        ParserErrorKind::NonTableInBaseTable
    }
}

/// The schema invariant of a header: the root is a table, `imag` is a table,
/// `imag.version` is a parseable semantic version, and every other top-level
/// key holds a table.
pub open spec fn spec_header_valid(h: SpecValue) -> bool {
    match h {
        SpecValue::Table(t) => spec_has_main_section(t) && spec_has_imag_version(t)
            && spec_has_only_tables(t),
        _ => false,
    }
}

/// Whether the table has an `imag` key holding a table.
pub fn has_main_section(t: &Table) -> (r: bool)
    ensures
        r == spec_has_main_section(spec_table_view(t@)),
{
    let key = String::from_str("imag");
    let ghost m = spec_table_view(t@);
    match table_find(t, &key) {
        Some(i) => {
            proof {
                lemma_table_view_index(t@, i as int);
            }
            match &t[i].1 {
                Value::Table(_) => true,
                _ => false,
            }
        },
        None => false,
    }
}

/// Whether the `imag` main section carries a parseable semantic version under
/// `version`.
pub fn has_imag_version_in_main_section(t: &Table) -> (r: bool)
    ensures
        r == spec_has_imag_version(spec_table_view(t@)),
{
    let key = String::from_str("imag");
    let ghost m = spec_table_view(t@);
    match table_find(t, &key) {
        Some(i) => {
            proof {
                lemma_table_view_index(t@, i as int);
            }
            match &t[i].1 {
                Value::Table(sec) => {
                    let vkey = String::from_str("version");
                    let ghost msec = spec_table_view(sec@);
                    match table_find(sec, &vkey) {
                        Some(j) => {
                            proof {
                                lemma_table_view_index(sec@, j as int);
                            }
                            match &sec[j].1 {
                                Value::Str(s) => is_valid_semver(s.as_str()),
                                _ => false,
                            }
                        },
                        None => false,
                    }
                },
                _ => false,
            }
        },
        None => false,
    }
}

/// Whether every top-level value of the table is itself a table.
#[verifier::loop_isolation(false)]
pub fn has_only_tables(t: &Table) -> (r: bool)
    ensures
        r == spec_has_only_tables(spec_table_view(t@)),
{
    let ghost m = spec_table_view(t@);
    proof {
        lemma_table_view_len(t@);
    }
    let mut i: usize = 0;
    while i < t.len()
        invariant
            0 <= i <= t@.len(),
            forall|j: int| 0 <= j < i ==> (#[trigger] m[j]).1 is Table,
        decreases t@.len() - i,
    {
        proof {
            lemma_table_view_index(t@, i as int);
        }
        match &t[i].1 {
            Value::Table(_) => {},
            _ => {
                return false;
            },
        }
        i = i + 1;
    }
    true
}

/// Checks the header schema on a top-level table: a missing or non-table
/// `imag` section, a missing or unparseable `imag.version`, and a non-table
/// top-level value are reported in that order, wrapped as a malformed-entry
/// error.
pub fn verify_header(t: &Table) -> (r: Result<(), StoreError>)
    ensures
        r is Ok <==> (spec_has_main_section(spec_table_view(t@)) && spec_has_imag_version(
            spec_table_view(t@),
        ) && spec_has_only_tables(spec_table_view(t@))),
        r matches Err(e) ==> (e.spec_kind() == StoreErrorKind::MalformedEntry
            && (e.spec_parser_cause() matches Some(p) && p.spec_kind() == spec_schema_error_kind(
            spec_table_view(t@),
        ))),
{
    if !has_main_section(t) {
        Err(
            StoreError::from_parser_error(
                ParserError::new(ParserErrorKind::MissingMainSection, None),
            ),
        )
    } else if !has_imag_version_in_main_section(t) {
        Err(
            StoreError::from_parser_error(
                ParserError::new(ParserErrorKind::MissingVersionInfo, None),
            ),
        )
    } else if !has_only_tables(t) {
        Err(
            StoreError::from_parser_error(
                ParserError::new(ParserErrorKind::NonTableInBaseTable, None),
            ),
        )
    } else {
        Ok(())
    }
}

/// Checks the header schema on a parsed table, handing the table back on
/// success and a header-inconsistency error otherwise.
pub fn verify_header_consistency(t: Table) -> (r: Result<Table, ParserError>)
    ensures
        r is Ok <==> (spec_has_main_section(spec_table_view(t@)) && spec_has_imag_version(
            spec_table_view(t@),
        ) && spec_has_only_tables(spec_table_view(t@))),
        r matches Ok(rt) ==> spec_table_view(rt@) == spec_table_view(t@),
        r matches Err(e) ==> e.spec_kind() == ParserErrorKind::HeaderInconsistency,
{
    match verify_header(&t) {
        Ok(_) => Ok(t),
        Err(_) => Err(ParserError::new(ParserErrorKind::HeaderInconsistency, None)),
    }
}

impl EntryHeader {
    /// Checks the schema invariant: succeeds exactly when the root is a
    /// table, `imag` is a table, `imag.version` is a parseable semantic
    /// version, and every other top-level key holds a table.
    pub fn verify(&self) -> (r: Result<(), StoreError>)
        ensures
            r is Ok <==> spec_header_valid(self@),
            r matches Err(e) ==> (match self@ {
                SpecValue::Table(t) => e.spec_kind() == StoreErrorKind::MalformedEntry && (
                e.spec_parser_cause() matches Some(p) && p.spec_kind() == spec_schema_error_kind(
                    t,
                )),
                _ => e.spec_kind() == StoreErrorKind::HeaderTypeFailure,
            }),
    {
        match &self.header {
            Value::Table(t) => verify_header(t),
            _ => Err(StoreError::new(StoreErrorKind::HeaderTypeFailure, None)),
        }
    }
}

} // verus!
