//! The on-disk textual form of an entry.
//!
//! An entry is written as a header block delimited by lines of three dashes,
//! followed by the raw content:
//!
//! ```text
//! ---
//! [section]
//! key = value
//! ---
//! content
//! ```
//!
//! Every top-level table becomes a `[section]`; values inside a section are
//! written inline (`key = value`), with nested tables in braces and arrays in
//! brackets.  [`spec_entry_text`] is the mathematical serialization; the
//! parser accepts a text only if the parsed tree serializes back to exactly
//! that text, so a successful parse always reserializes to its input.

use vstd::prelude::*;

use crate::error::{ParserError, ParserErrorKind};
use crate::header::{EntryHeader, verify_header_consistency};
use crate::strutil::{str_chars, string_from_chars};
use crate::value::{SpecValue, Table, Value, spec_table_view};

verus! {

/// The digit character of `d` (for `0 <= d <= 9`).
pub open spec fn spec_digit_char(d: int) -> char {
    if d == 0 {
        '0'
    } else if d == 1 {
        '1'
    } else if d == 2 {
        '2'
    } else if d == 3 {
        '3'
    } else if d == 4 {
        '4'
    } else if d == 5 {
        '5'
    } else if d == 6 {
        '6'
    } else if d == 7 {
        '7'
    } else if d == 8 {
        '8'
    } else {
        '9'
    }
}

/// The decimal digits of a nonnegative number.
pub open spec fn spec_dec_nat(n: nat) -> Seq<char>
    decreases n,
{
    if n < 10 {
        seq![spec_digit_char(n as int)]
    } else {
        spec_dec_nat(n / 10).push(spec_digit_char((n % 10) as int))
    }
}

/// The decimal form of an integer, with a leading minus for negatives.
pub open spec fn spec_dec_int(n: int) -> Seq<char> {
    if n < 0 {
        seq!['-'] + spec_dec_nat((-n) as nat)
    } else {
        spec_dec_nat(n as nat)
    }
}

/// The escaped form of one string character.
pub open spec fn spec_esc_char(c: char) -> Seq<char> {
    if c == '"' {
        seq!['\\', '"']
    } else if c == '\\' {
        seq!['\\', '\\']
    } else if c == '\n' {
        seq!['\\', 'n']
    } else if c == '\t' {
        seq!['\\', 't']
    } else if c == '\r' {
        seq!['\\', 'r']
    } else {
        seq![c]
    }
}

/// The escaped form of a string body.
pub open spec fn spec_escape(s: Seq<char>) -> Seq<char>
    decreases s.len(),
{
    if s.len() == 0 {
        Seq::empty()
    } else {
        spec_escape(s.drop_last()) + spec_esc_char(s.last())
    }
}

/// The inline text of a value: scalars verbatim, strings quoted and escaped,
/// arrays in brackets and tables in braces with `", "` between elements.
pub open spec fn spec_inline(v: SpecValue) -> Seq<char>
    decreases v,
{
    match v {
        SpecValue::Int(n) => spec_dec_int(n as int),
        SpecValue::Bool(b) => if b {
            "true"@
        } else {
            "false"@
        },
        SpecValue::Str(s) => seq!['"'] + spec_escape(s) + seq!['"'],
        SpecValue::Array(items) => seq!['['] + spec_inline_items(items) + seq![']'],
        SpecValue::Table(t) => seq!['{'] + spec_inline_pairs(t) + seq!['}'],
    }
}

/// The inline text of array elements, separated by `", "`.
pub open spec fn spec_inline_items(items: Seq<SpecValue>) -> Seq<char>
    decreases items,
{
    if items.len() == 0 {
        Seq::empty()
    } else if items.len() == 1 {
        spec_inline(items.last())
    } else {
        spec_inline_items(items.drop_last()) + ", "@ + spec_inline(items.last())
    }
}

/// The inline text of table entries, separated by `", "`.
pub open spec fn spec_inline_pairs(t: Seq<(Seq<char>, SpecValue)>) -> Seq<char>
    decreases t,
{
    if t.len() == 0 {
        Seq::empty()
    } else if t.len() == 1 {
        t.last().0 + " = "@ + spec_inline(t.last().1)
    } else {
        spec_inline_pairs(t.drop_last()) + ", "@ + t.last().0 + " = "@ + spec_inline(t.last().1)
    }
}

/// The lines of one section: one `key = value` line per entry.
pub open spec fn spec_section_lines(sec: Seq<(Seq<char>, SpecValue)>) -> Seq<char>
    decreases sec,
{
    if sec.len() == 0 {
        Seq::empty()
    } else {
        spec_section_lines(sec.drop_last()) + sec.last().0 + " = "@ + spec_inline(sec.last().1)
            + seq!['\n']
    }
}

/// The text of one top-level entry: a `[section]` block for a table, a plain
/// `key = value` line otherwise.
pub open spec fn spec_top_entry(k: Seq<char>, v: SpecValue) -> Seq<char> {
    match v {
        SpecValue::Table(sec) => seq!['['] + k + seq![']', '\n'] + spec_section_lines(sec),
        _ => k + " = "@ + spec_inline(v) + seq!['\n'],
    }
}

/// The body text of a header table.
pub open spec fn spec_body(t: Seq<(Seq<char>, SpecValue)>) -> Seq<char>
    decreases t,
{
    if t.len() == 0 {
        Seq::empty()
    } else {
        spec_body(t.drop_last()) + spec_top_entry(t.last().0, t.last().1)
    }
}

/// The full on-disk text of an entry with header table `t` and raw `content`.
pub open spec fn spec_entry_text(t: Seq<(Seq<char>, SpecValue)>, content: Seq<char>) -> Seq<char> {
    "---\n"@ + spec_body(t) + "---\n"@ + content
}

/// Appends the decimal digits of `n`.
fn push_dec_u64(out: &mut Vec<char>, n: u64)
    ensures
        final(out)@ == old(out)@ + spec_dec_nat(n as nat),
    decreases n,
{
    if n >= 10 {
        push_dec_u64(out, n / 10);
    }
    let d: u64 = n % 10;
    let c: char = match d {
        0 => '0',
        1 => '1',
        2 => '2',
        3 => '3',
        4 => '4',
        5 => '5',
        6 => '6',
        7 => '7',
        8 => '8',
        _ => '9',
    };
    out.push(c);
    proof {
        if n < 10 {
            assert(final(out)@ =~= old(out)@ + spec_dec_nat(n as nat));
        } else {
            assert(final(out)@ =~= old(out)@ + spec_dec_nat(n as nat));
        }
    }
}

/// Appends the decimal form of `n`, with a leading minus for negatives.
fn push_dec_i64(out: &mut Vec<char>, n: i64)
    ensures
        final(out)@ == old(out)@ + spec_dec_int(n as int),
{
    if n < 0 {
        out.push('-');
        let mag: u64 = (-(n as i128)) as u64;
        proof {
            assert(mag as nat == (-(n as int)) as nat);
        }
        push_dec_u64(out, mag);
        proof {
            assert(final(out)@ =~= old(out)@ + spec_dec_int(n as int));
        }
    } else {
        push_dec_u64(out, n as u64);
    }
}

/// Appends the decimal digits of `n`.
pub fn push_dec_u64_public(out: &mut Vec<char>, n: u64)
    ensures
        final(out)@ == old(out)@ + spec_dec_nat(n as nat),
{
    push_dec_u64(out, n);
}

/// Appends the escaped form of one string character.
fn push_esc_char(out: &mut Vec<char>, c: char)
    ensures
        final(out)@ == old(out)@ + spec_esc_char(c),
{
    if c == '"' {
        out.push('\\');
        out.push('"');
    } else if c == '\\' {
        out.push('\\');
        out.push('\\');
    } else if c == '\n' {
        out.push('\\');
        out.push('n');
    } else if c == '\t' {
        out.push('\\');
        out.push('t');
    } else if c == '\r' {
        out.push('\\');
        out.push('r');
    } else {
        out.push(c);
    }
    proof {
        assert(final(out)@ =~= old(out)@ + spec_esc_char(c));
    }
}

/// Appends the quoted, escaped form of a string.
#[verifier::loop_isolation(false)]
fn push_quoted(out: &mut Vec<char>, s: &String)
    ensures
        final(out)@ == old(out)@ + seq!['"'] + spec_escape(s@) + seq!['"'],
{
    out.push('"');
    let sc = str_chars(s.as_str());
    let mut i: usize = 0;
    while i < sc.len()
        invariant
            0 <= i <= sc@.len(),
            sc@ == s@,
            out@ == old(out)@ + seq!['"'] + spec_escape(s@.subrange(0, i as int)),
        decreases sc@.len() - i,
    {
        push_esc_char(out, sc[i]);
        proof {
            assert(s@.subrange(0, i as int + 1).drop_last() =~= s@.subrange(0, i as int));
            assert(out@ =~= old(out)@ + seq!['"'] + spec_escape(s@.subrange(0, i as int + 1)));
        }
        i = i + 1;
    }
    out.push('"');
    proof {
        assert(s@.subrange(0, s@.len() as int) =~= s@);
        assert(out@ =~= old(out)@ + seq!['"'] + spec_escape(s@) + seq!['"']);
    }
}

/// Appends the inline text of a value.
#[verifier::loop_isolation(false)]
pub fn push_inline(out: &mut Vec<char>, v: &Value)
    ensures
        final(out)@ == old(out)@ + spec_inline(v@),
    decreases v,
{
    match v {
        Value::Int(n) => {
            push_dec_i64(out, *n);
        },
        Value::Bool(b) => {
            if *b {
                crate::strutil::push_str_chars(out, "true");
            } else {
                crate::strutil::push_str_chars(out, "false");
            }
        },
        Value::Str(s) => {
            push_quoted(out, s);
            proof {
                assert(out@ =~= old(out)@ + spec_inline(v@));
            }
        },
        Value::Array(items) => {
            out.push('[');
            let mut i: usize = 0;
            while i < items.len()
                invariant
                    0 <= i <= items@.len(),
                    out@ == old(out)@ + seq!['['] + spec_inline_items(
                        crate::value::spec_array_view(items@.subrange(0, i as int)),
                    ),
                decreases items@.len() - i,
            {
                if i > 0 {
                    crate::strutil::push_str_chars(out, ", ");
                }
                push_inline(out, &items[i]);
                proof {
                    let pre = items@.subrange(0, i as int);
                    let post = items@.subrange(0, i as int + 1);
                    assert(post.drop_last() =~= pre);
                    crate::value::lemma_array_view_len(post);
                    crate::value::lemma_array_view_len(pre);
                    assert(crate::value::spec_array_view(post).drop_last() =~= crate::value::spec_array_view(pre)) by {
                        crate::value::lemma_array_view_len(post);
                        assert forall|j: int| 0 <= j < pre.len() implies crate::value::spec_array_view(post)[j] == crate::value::spec_array_view(pre)[j] by {
                            crate::value::lemma_array_view_index(post, j);
                            crate::value::lemma_array_view_index(pre, j);
                        }
                    }
                    crate::value::lemma_array_view_index(post, i as int);
                    assert(crate::value::spec_array_view(post).last() == items@[i as int]@);
                    assert(out@ =~= old(out)@ + seq!['['] + spec_inline_items(
                        crate::value::spec_array_view(post),
                    ));
                }
                i = i + 1;
            }
            out.push(']');
            proof {
                assert(items@.subrange(0, items@.len() as int) =~= items@);
                assert(out@ =~= old(out)@ + spec_inline(v@));
            }
        },
        Value::Table(t) => {
            out.push('{');
            let mut i: usize = 0;
            while i < t.len()
                invariant
                    0 <= i <= t@.len(),
                    out@ == old(out)@ + seq!['{'] + spec_inline_pairs(
                        spec_table_view(t@.subrange(0, i as int)),
                    ),
                decreases t@.len() - i,
            {
                if i > 0 {
                    crate::strutil::push_str_chars(out, ", ");
                }
                crate::strutil::push_str_chars(out, t[i].0.as_str());
                crate::strutil::push_str_chars(out, " = ");
                push_inline(out, &t[i].1);
                proof {
                    let pre = t@.subrange(0, i as int);
                    let post = t@.subrange(0, i as int + 1);
                    assert(post.drop_last() =~= pre);
                    assert(spec_table_view(post).drop_last() =~= spec_table_view(pre)) by {
                        crate::value::lemma_table_view_len(post);
                        crate::value::lemma_table_view_len(pre);
                        assert forall|j: int| 0 <= j < pre.len() implies spec_table_view(post)[j] == spec_table_view(pre)[j] by {
                            crate::value::lemma_table_view_index(post, j);
                            crate::value::lemma_table_view_index(pre, j);
                        }
                    }
                    crate::value::lemma_table_view_len(post);
                    crate::value::lemma_table_view_index(post, i as int);
                    assert(spec_table_view(post).last() == (t@[i as int].0@, t@[i as int].1@));
                    assert(out@ =~= old(out)@ + seq!['{'] + spec_inline_pairs(
                        spec_table_view(post),
                    ));
                }
                i = i + 1;
            }
            out.push('}');
            proof {
                assert(t@.subrange(0, t@.len() as int) =~= t@);
                assert(out@ =~= old(out)@ + spec_inline(v@));
            }
        },
    }
}

/// Appends the lines of one section.
#[verifier::loop_isolation(false)]
fn push_section_lines(out: &mut Vec<char>, sec: &Table)
    ensures
        final(out)@ == old(out)@ + spec_section_lines(spec_table_view(sec@)),
{
    let mut i: usize = 0;
    while i < sec.len()
        invariant
            0 <= i <= sec@.len(),
            out@ == old(out)@ + spec_section_lines(spec_table_view(sec@.subrange(0, i as int))),
        decreases sec@.len() - i,
    {
        crate::strutil::push_str_chars(out, sec[i].0.as_str());
        crate::strutil::push_str_chars(out, " = ");
        push_inline(out, &sec[i].1);
        out.push('\n');
        proof {
            let pre = sec@.subrange(0, i as int);
            let post = sec@.subrange(0, i as int + 1);
            assert(post.drop_last() =~= pre);
            assert(spec_table_view(post).drop_last() =~= spec_table_view(pre)) by {
                crate::value::lemma_table_view_len(post);
                crate::value::lemma_table_view_len(pre);
                assert forall|j: int| 0 <= j < pre.len() implies spec_table_view(post)[j]
                    == spec_table_view(pre)[j] by {
                    crate::value::lemma_table_view_index(post, j);
                    crate::value::lemma_table_view_index(pre, j);
                }
            }
            crate::value::lemma_table_view_len(post);
            crate::value::lemma_table_view_index(post, i as int);
            assert(out@ =~= old(out)@ + spec_section_lines(spec_table_view(post)));
        }
        i = i + 1;
    }
    proof {
        assert(sec@.subrange(0, sec@.len() as int) =~= sec@);
    }
}

/// Appends the body text of a header table.
#[verifier::loop_isolation(false)]
pub fn push_body(out: &mut Vec<char>, t: &Table)
    ensures
        final(out)@ == old(out)@ + spec_body(spec_table_view(t@)),
{
    let mut i: usize = 0;
    while i < t.len()
        invariant
            0 <= i <= t@.len(),
            out@ == old(out)@ + spec_body(spec_table_view(t@.subrange(0, i as int))),
        decreases t@.len() - i,
    {
        match &t[i].1 {
            Value::Table(sec) => {
                out.push('[');
                crate::strutil::push_str_chars(out, t[i].0.as_str());
                out.push(']');
                out.push('\n');
                push_section_lines(out, sec);
            },
            other => {
                crate::strutil::push_str_chars(out, t[i].0.as_str());
                crate::strutil::push_str_chars(out, " = ");
                push_inline(out, other);
                out.push('\n');
            },
        }
        proof {
            let pre = t@.subrange(0, i as int);
            let post = t@.subrange(0, i as int + 1);
            assert(post.drop_last() =~= pre);
            assert(spec_table_view(post).drop_last() =~= spec_table_view(pre)) by {
                crate::value::lemma_table_view_len(post);
                crate::value::lemma_table_view_len(pre);
                assert forall|j: int| 0 <= j < pre.len() implies spec_table_view(post)[j]
                    == spec_table_view(pre)[j] by {
                    crate::value::lemma_table_view_index(post, j);
                    crate::value::lemma_table_view_index(pre, j);
                }
            }
            crate::value::lemma_table_view_len(post);
            crate::value::lemma_table_view_index(post, i as int);
            assert(out@ =~= old(out)@ + spec_body(spec_table_view(post)));
        }
        i = i + 1;
    }
    proof {
        assert(t@.subrange(0, t@.len() as int) =~= t@);
    }
}


/// Whether `c` may appear in a bare key: ASCII letters, digits, `_`, `-` and
/// `.`.
pub open spec fn spec_is_bare_key_char(c: char) -> bool {
    ('a' <= c && c <= 'z') || ('A' <= c && c <= 'Z') || ('0' <= c && c <= '9') || c == '_' || c
        == '-' || c == '.'
}

/// Whether `c` may appear in a bare key.
fn is_bare_key_char(c: char) -> (r: bool)
    ensures
        r == spec_is_bare_key_char(c),
{
    ('a' <= c && c <= 'z') || ('A' <= c && c <= 'Z') || ('0' <= c && c <= '9') || c == '_' || c
        == '-' || c == '.'
}

/// Scans a bare key at `i`: the key's characters and the position after them;
/// nothing on an empty key.
pub open spec fn spec_parse_key(s: Seq<char>, i: int) -> Option<(Seq<char>, int)>
    decreases s.len() - i,
{
    if 0 <= i < s.len() && spec_is_bare_key_char(s[i]) {
        match spec_parse_key(s, i + 1) {
            Some((k, j)) => Some((seq![s[i]] + k, j)),
            None => Some((seq![s[i]], i + 1)),
        }
    } else {
        None
    }
}

/// Scans a bare key starting at `pos`; fails on an empty key.
fn parse_key_chars(chars: &Vec<char>, pos: usize) -> (r: Option<(Vec<char>, usize)>)
    requires
        pos <= chars@.len(),
    ensures
        match r {
            Some(p) => spec_parse_key(chars@, pos as int) == Some((p.0@, p.1 as int)) && pos < p.1
                <= chars@.len(),
            None => spec_parse_key(chars@, pos as int) is None,
        },
    decreases chars@.len() - pos,
{
    if pos < chars.len() && is_bare_key_char(chars[pos]) {
        match parse_key_chars(chars, pos + 1) {
            Some((mut k, j)) => {
                let ghost k0 = k@;
                k.insert(0, chars[pos]);
                proof {
                    assert(k@ =~= seq![chars@[pos as int]] + k0);
                }
                Some((k, j))
            },
            None => {
                let mut k: Vec<char> = Vec::new();
                k.push(chars[pos]);
                proof {
                    assert(k@ =~= seq![chars@[pos as int]]);
                }
                Some((k, pos + 1))
            },
        }
    } else {
        None
    }
}

/// Scans a bare key starting at `pos`; fails on an empty key.
fn parse_bare_key(chars: &Vec<char>, pos: usize) -> (r: Option<(String, usize)>)
    requires
        pos <= chars@.len(),
    ensures
        match r {
            Some(p) => spec_parse_key(chars@, pos as int) == Some((p.0@, p.1 as int)) && pos < p.1
                <= chars@.len(),
            None => spec_parse_key(chars@, pos as int) is None,
        },
{
    match parse_key_chars(chars, pos) {
        Some((k, j)) => Some((string_from_chars(&k), j)),
        None => None,
    }
}

/// Scans decimal digits at `i`, accumulating onto `acc`: the value and the
/// position after the digits; nothing when the value outgrows its bound.
pub open spec fn spec_parse_digits(s: Seq<char>, i: int, acc: int) -> Option<(int, int)>
    decreases s.len() - i,
{
    if 0 <= i < s.len() && crate::header::spec_is_digit(s[i]) {
        let a2 = acc * 10 + (s[i] as int - '0' as int);
        if a2 > 0x8000_0000_0000_0000 {
            None
        } else {
            spec_parse_digits(s, i + 1, a2)
        }
    } else {
        Some((acc, i))
    }
}

/// Parses a decimal integer (optionally signed) at `i`: the value and the
/// position after it; nothing without a digit or when the value does not fit
/// an `i64`.
pub open spec fn spec_parse_int(s: Seq<char>, i: int) -> Option<(i64, int)> {
    let neg = 0 <= i < s.len() && s[i] == '-';
    let d0 = if neg {
        i + 1
    } else {
        i
    };
    match spec_parse_digits(s, d0, 0) {
        None => None,
        Some((v, j)) => if j == d0 {
            None
        } else if neg {
            if -v < i64::MIN as int {
                None
            } else {
                Some(((-v) as i64, j))
            }
        } else {
            if v > i64::MAX as int {
                None
            } else {
                Some((v as i64, j))
            }
        },
    }
}

/// Scans decimal digits starting at `pos`, accumulating onto `acc`.
fn parse_digits(chars: &Vec<char>, pos: usize, acc: u128) -> (r: Option<(u128, usize)>)
    requires
        pos <= chars@.len(),
        acc <= 0x8000_0000_0000_0000u128,
    ensures
        match r {
            Some(p) => spec_parse_digits(chars@, pos as int, acc as int) == Some(
                (p.0 as int, p.1 as int),
            ) && pos <= p.1 <= chars@.len() && p.0 <= 0x8000_0000_0000_0000u128,
            None => spec_parse_digits(chars@, pos as int, acc as int) is None,
        },
    decreases chars@.len() - pos,
{
    if pos < chars.len() && '0' <= chars[pos] && chars[pos] <= '9' {
        let d: u128 = (chars[pos] as u32 - '0' as u32) as u128;
        let a2: u128 = acc * 10 + d;
        if a2 > 0x8000_0000_0000_0000u128 {
            None
        } else {
            parse_digits(chars, pos + 1, a2)
        }
    } else {
        Some((acc, pos))
    }
}

/// Parses a decimal integer (optionally signed) starting at `pos`.
fn parse_int(chars: &Vec<char>, pos: usize) -> (r: Option<(i64, usize)>)
    requires
        pos <= chars@.len(),
    ensures
        match r {
            Some(p) => spec_parse_int(chars@, pos as int) == Some((p.0, p.1 as int)) && pos < p.1
                <= chars@.len(),
            None => spec_parse_int(chars@, pos as int) is None,
        },
{
    let n = chars.len();
    let mut j = pos;
    let mut neg = false;
    if j < n && chars[j] == '-' {
        neg = true;
        j = j + 1;
    }
    let digits_start = j;
    let (acc, j) = match parse_digits(chars, digits_start, 0) {
        Some(p) => p,
        None => {
            return None;
        },
    };
    if j == digits_start {
        return None;
    }
    if neg {
        let v: i128 = -(acc as i128);
        if v < i64::MIN as i128 {
            return None;
        }
        Some((v as i64, j))
    } else {
        if acc > i64::MAX as u128 {
            return None;
        }
        Some((acc as i64, j))
    }
}

/// The character an escape letter stands for, if any.
pub open spec fn spec_unescape(c: char) -> Option<char> {
    if c == '"' {
        Some('"')
    } else if c == '\\' {
        Some('\\')
    } else if c == 'n' {
        Some('\n')
    } else if c == 't' {
        Some('\t')
    } else if c == 'r' {
        Some('\r')
    } else {
        None
    }
}

/// Parses a quoted, escaped string body at `i` (after the opening quote): the
/// unescaped characters and the position after the closing quote.
pub open spec fn spec_parse_quoted(s: Seq<char>, i: int) -> Option<(Seq<char>, int)>
    decreases s.len() - i,
{
    if i < 0 || i >= s.len() {
        None
    } else if s[i] == '"' {
        Some((Seq::empty(), i + 1))
    } else if s[i] == '\\' {
        if i + 1 >= s.len() {
            None
        } else {
            match spec_unescape(s[i + 1]) {
                None => None,
                Some(c) => match spec_parse_quoted(s, i + 2) {
                    None => None,
                    Some((b, j)) => Some((seq![c] + b, j)),
                },
            }
        }
    } else if s[i] == '\n' {
        None
    } else {
        match spec_parse_quoted(s, i + 1) {
            None => None,
            Some((b, j)) => Some((seq![s[i]] + b, j)),
        }
    }
}

/// Parses a quoted, escaped string body starting at the character after the
/// opening quote.
fn parse_quoted_chars(chars: &Vec<char>, pos: usize) -> (r: Option<(Vec<char>, usize)>)
    requires
        pos <= chars@.len(),
    ensures
        match r {
            Some(p) => spec_parse_quoted(chars@, pos as int) == Some((p.0@, p.1 as int)) && pos
                < p.1 <= chars@.len(),
            None => spec_parse_quoted(chars@, pos as int) is None,
        },
    decreases chars@.len() - pos,
{
    let n = chars.len();
    if pos >= n {
        return None;
    }
    let c = chars[pos];
    if c == '"' {
        Some((Vec::new(), pos + 1))
    } else if c == '\\' {
        if pos + 1 >= n {
            return None;
        }
        let e = chars[pos + 1];
        let u: char = if e == '"' {
            '"'
        } else if e == '\\' {
            '\\'
        } else if e == 'n' {
            '\n'
        } else if e == 't' {
            '\t'
        } else if e == 'r' {
            '\r'
        } else {
            return None;
        };
        match parse_quoted_chars(chars, pos + 2) {
            Some((mut b, j)) => {
                let ghost b0 = b@;
                b.insert(0, u);
                proof {
                    assert(b@ =~= seq![u] + b0);
                }
                Some((b, j))
            },
            None => None,
        }
    } else if c == '\n' {
        None
    } else {
        match parse_quoted_chars(chars, pos + 1) {
            Some((mut b, j)) => {
                let ghost b0 = b@;
                b.insert(0, c);
                proof {
                    assert(b@ =~= seq![c] + b0);
                }
                Some((b, j))
            },
            None => None,
        }
    }
}

/// Parses one inline value at `i`: the value and the position after it.  The
/// fuel bounds the recursion; any fuel above the remaining length gives the
/// same answer, since every step advances.
pub open spec fn spec_parse_value(s: Seq<char>, i: int, f: nat) -> Option<(SpecValue, int)>
    decreases f, 0int,
{
    if f == 0 || i < 0 || i >= s.len() {
        None
    } else {
        let c = s[i];
        if c == '"' {
            match spec_parse_quoted(s, i + 1) {
                Some((b, j)) => Some((SpecValue::Str(b), j)),
                None => None,
            }
        } else if c == '[' {
            if i + 1 < s.len() && s[i + 1] == ']' {
                Some((SpecValue::Array(Seq::empty()), i + 2))
            } else {
                match spec_parse_items(s, i + 1, (f - 1) as nat) {
                    Some((items, j)) => Some((SpecValue::Array(items), j)),
                    None => None,
                }
            }
        } else if c == '{' {
            if i + 1 < s.len() && s[i + 1] == '}' {
                Some((SpecValue::Table(Seq::empty()), i + 2))
            } else {
                match spec_parse_pairs(s, i + 1, (f - 1) as nat) {
                    Some((t, j)) => Some((SpecValue::Table(t), j)),
                    None => None,
                }
            }
        } else if c == 't' {
            if i + 1 < s.len() && s[i + 1] == 'r' && i + 2 < s.len() && s[i + 2] == 'u' && i + 3
                < s.len() && s[i + 3] == 'e' {
                Some((SpecValue::Bool(true), i + 4))
            } else {
                None
            }
        } else if c == 'f' {
            if i + 1 < s.len() && s[i + 1] == 'a' && i + 2 < s.len() && s[i + 2] == 'l' && i + 3
                < s.len() && s[i + 3] == 's' && i + 4 < s.len() && s[i + 4] == 'e' {
                Some((SpecValue::Bool(false), i + 5))
            } else {
                None
            }
        } else if c == '-' || crate::header::spec_is_digit(c) {
            match spec_parse_int(s, i) {
                Some((v, j)) => Some((SpecValue::Int(v), j)),
                None => None,
            }
        } else {
            None
        }
    }
}

/// Parses the elements of a nonempty array at `i`: `value (", " value)* "]"`.
pub open spec fn spec_parse_items(s: Seq<char>, i: int, f: nat) -> Option<(Seq<SpecValue>, int)>
    decreases f, 1int,
{
    if f == 0 {
        None
    } else {
        match spec_parse_value(s, i, f) {
            None => None,
            Some((v, j)) => if 0 <= j < s.len() && s[j] == ']' {
                Some((seq![v], j + 1))
            } else if 0 <= j < s.len() && s[j] == ',' && j + 1 < s.len() && s[j + 1] == ' ' {
                match spec_parse_items(s, j + 2, (f - 1) as nat) {
                    Some((rest, j2)) => Some((seq![v] + rest, j2)),
                    None => None,
                }
            } else {
                None
            },
        }
    }
}

/// Parses the pairs of a nonempty inline table at `i`:
/// `key " = " value (", " key " = " value)* "}"`.
pub open spec fn spec_parse_pairs(s: Seq<char>, i: int, f: nat) -> Option<
    (Seq<(Seq<char>, SpecValue)>, int),
>
    decreases f, 1int,
{
    if f == 0 {
        None
    } else {
        match spec_parse_key(s, i) {
            None => None,
            Some((k, j0)) => if 0 <= j0 < s.len() && s[j0] == ' ' && j0 + 1 < s.len() && s[j0 + 1]
                == '=' && j0 + 2 < s.len() && s[j0 + 2] == ' ' {
                match spec_parse_value(s, j0 + 3, f) {
                    None => None,
                    Some((v, j)) => if 0 <= j < s.len() && s[j] == '}' {
                        Some((seq![(k, v)], j + 1))
                    } else if 0 <= j < s.len() && s[j] == ',' && j + 1 < s.len() && s[j + 1]
                        == ' ' {
                        match spec_parse_pairs(s, j + 2, (f - 1) as nat) {
                            Some((rest, j2)) => Some((seq![(k, v)] + rest, j2)),
                            None => None,
                        }
                    } else {
                        None
                    },
                }
            } else {
                None
            },
        }
    }
}

/// Parses one inline value starting at `pos`.
fn parse_value(chars: &Vec<char>, pos: usize, fuel: Ghost<nat>) -> (r: Option<(Value, usize)>)
    requires
        pos <= chars@.len(),
        fuel@ >= chars@.len() - pos + 1,
    ensures
        match r {
            Some(p) => spec_parse_value(chars@, pos as int, fuel@) == Some((p.0@, p.1 as int))
                && pos < p.1 <= chars@.len(),
            None => spec_parse_value(chars@, pos as int, fuel@) is None,
        },
    decreases fuel@, 0int,
{
    let n = chars.len();
    if pos >= n {
        return None;
    }
    let c = chars[pos];
    if c == '"' {
        match parse_quoted_chars(chars, pos + 1) {
            Some((b, j)) => Some((Value::Str(string_from_chars(&b)), j)),
            None => None,
        }
    } else if c == '[' {
        if pos + 1 < n && chars[pos + 1] == ']' {
            let items: Vec<Value> = Vec::new();
            proof {
                assert(crate::value::spec_array_view(items@) =~= Seq::<SpecValue>::empty());
            }
            Some((Value::Array(items), pos + 2))
        } else {
            match parse_items(chars, pos + 1, Ghost((fuel@ - 1) as nat)) {
                Some((items, j)) => Some((Value::Array(items), j)),
                None => None,
            }
        }
    } else if c == '{' {
        if pos + 1 < n && chars[pos + 1] == '}' {
            let entries: Table = Vec::new();
            proof {
                assert(spec_table_view(entries@) =~= Seq::<(Seq<char>, SpecValue)>::empty());
            }
            Some((Value::Table(entries), pos + 2))
        } else {
            match parse_pairs(chars, pos + 1, Ghost((fuel@ - 1) as nat)) {
                Some((entries, j)) => Some((Value::Table(entries), j)),
                None => None,
            }
        }
    } else if c == 't' {
        if pos + 1 < n && chars[pos + 1] == 'r' && pos + 2 < n && chars[pos + 2] == 'u' && pos + 3
            < n && chars[pos + 3] == 'e' {
            Some((Value::Bool(true), pos + 4))
        } else {
            None
        }
    } else if c == 'f' {
        if pos + 1 < n && chars[pos + 1] == 'a' && pos + 2 < n && chars[pos + 2] == 'l' && pos + 3
            < n && chars[pos + 3] == 's' && pos + 4 < n && chars[pos + 4] == 'e' {
            Some((Value::Bool(false), pos + 5))
        } else {
            None
        }
    } else if c == '-' || ('0' <= c && c <= '9') {
        match parse_int(chars, pos) {
            Some((v, j)) => Some((Value::Int(v), j)),
            None => None,
        }
    } else {
        None
    }
}

/// Parses the elements of a nonempty array starting at `pos`.
fn parse_items(chars: &Vec<char>, pos: usize, fuel: Ghost<nat>) -> (r: Option<(Vec<Value>, usize)>)
    requires
        pos <= chars@.len(),
        fuel@ >= chars@.len() - pos + 1,
    ensures
        match r {
            Some(p) => spec_parse_items(chars@, pos as int, fuel@) == Some(
                (crate::value::spec_array_view(p.0@), p.1 as int),
            ) && pos < p.1 <= chars@.len(),
            None => spec_parse_items(chars@, pos as int, fuel@) is None,
        },
    decreases fuel@, 1int,
{
    let n = chars.len();
    let (v, j) = match parse_value(chars, pos, fuel) {
        Some(p) => p,
        None => {
            return None;
        },
    };
    if j < n && chars[j] == ']' {
        let mut items: Vec<Value> = Vec::new();
        items.push(v);
        proof {
            crate::value::lemma_array_view_cons(Seq::empty(), items@[0]);
            assert(items@ =~= Seq::<Value>::empty().insert(0, items@[0]));
            assert(crate::value::spec_array_view(items@) =~= seq![items@[0]@]);
        }
        Some((items, j + 1))
    } else if j < n && chars[j] == ',' && j + 1 < n && chars[j + 1] == ' ' {
        match parse_items(chars, j + 2, Ghost((fuel@ - 1) as nat)) {
            Some((mut items, j2)) => {
                let ghost items0 = items@;
                let ghost gv = v@;
                items.insert(0, v);
                proof {
                    crate::value::lemma_array_view_cons(items0, items@[0]);
                    assert(crate::value::spec_array_view(items@) =~= seq![gv]
                        + crate::value::spec_array_view(items0));
                }
                Some((items, j2))
            },
            None => None,
        }
    } else {
        None
    }
}

/// Parses the pairs of a nonempty inline table starting at `pos`.
fn parse_pairs(chars: &Vec<char>, pos: usize, fuel: Ghost<nat>) -> (r: Option<(Table, usize)>)
    requires
        pos <= chars@.len(),
        fuel@ >= chars@.len() - pos + 1,
    ensures
        match r {
            Some(p) => spec_parse_pairs(chars@, pos as int, fuel@) == Some(
                (spec_table_view(p.0@), p.1 as int),
            ) && pos < p.1 <= chars@.len(),
            None => spec_parse_pairs(chars@, pos as int, fuel@) is None,
        },
    decreases fuel@, 1int,
{
    let n = chars.len();
    let (k, j0) = match parse_bare_key(chars, pos) {
        Some(p) => p,
        None => {
            return None;
        },
    };
    if !(j0 < n && chars[j0] == ' ' && j0 + 1 < n && chars[j0 + 1] == '=' && j0 + 2 < n && chars[j0
        + 2] == ' ') {
        return None;
    }
    let (v, j) = match parse_value(chars, j0 + 3, fuel) {
        Some(p) => p,
        None => {
            return None;
        },
    };
    if j < n && chars[j] == '}' {
        let mut entries: Table = Vec::new();
        entries.push((k, v));
        proof {
            crate::value::lemma_table_view_cons(Seq::empty(), entries@[0]);
            assert(entries@ =~= Seq::<(String, Value)>::empty().insert(0, entries@[0]));
            assert(spec_table_view(entries@) =~= seq![(entries@[0].0@, entries@[0].1@)]);
        }
        Some((entries, j + 1))
    } else if j < n && chars[j] == ',' && j + 1 < n && chars[j + 1] == ' ' {
        match parse_pairs(chars, j + 2, Ghost((fuel@ - 1) as nat)) {
            Some((mut entries, j2)) => {
                let ghost entries0 = entries@;
                let ghost gp = (k@, v@);
                entries.insert(0, (k, v));
                proof {
                    crate::value::lemma_table_view_cons(entries0, entries@[0]);
                    assert(spec_table_view(entries@) =~= seq![gp] + spec_table_view(entries0));
                }
                Some((entries, j2))
            },
            None => None,
        }
    } else {
        None
    }
}

/// Parses one `key " = " value "\n"` line at `i`, whose separators and ending
/// newline must sit before `to`: the pair and the position after the newline.
pub open spec fn spec_parse_kv(s: Seq<char>, i: int, to: int, f: nat) -> Option<
    ((Seq<char>, SpecValue), int),
>
    decreases f, 2int,
{
    if f == 0 {
        None
    } else {
        match spec_parse_key(s, i) {
            None => None,
            Some((k, j0)) => if 0 <= j0 < to && s[j0] == ' ' && j0 + 1 < to && s[j0 + 1] == '='
                && j0 + 2 < to && s[j0 + 2] == ' ' {
                match spec_parse_value(s, j0 + 3, f) {
                    None => None,
                    Some((v, j)) => if 0 <= j < to && s[j] == '\n' {
                        Some(((k, v), j + 1))
                    } else {
                        None
                    },
                }
            } else {
                None
            },
        }
    }
}

/// Parses the `key = value` lines of one section at `i`, up to the next
/// section header or `to`: the section's pairs and the position after them.
pub open spec fn spec_parse_section_lines(s: Seq<char>, i: int, to: int, f: nat) -> Option<
    (Seq<(Seq<char>, SpecValue)>, int),
>
    decreases f, 3int,
{
    if f == 0 {
        None
    } else if i >= to || (0 <= i < s.len() && s[i] == '[') {
        Some((Seq::empty(), i))
    } else {
        match spec_parse_kv(s, i, to, f) {
            None => None,
            Some((p, i2)) => match spec_parse_section_lines(s, i2, to, (f - 1) as nat) {
                Some((rest, i3)) => Some((seq![p] + rest, i3)),
                None => None,
            },
        }
    }
}

/// Parses a header body between `i` and `to`: `[section]` blocks and plain
/// `key = value` lines, into a top-level table.
pub open spec fn spec_parse_body(s: Seq<char>, i: int, to: int, f: nat) -> Option<
    Seq<(Seq<char>, SpecValue)>,
>
    decreases f, 4int,
{
    if f == 0 {
        None
    } else if i >= to {
        Some(Seq::empty())
    } else if 0 <= i < s.len() && s[i] == '[' {
        match spec_parse_key(s, i + 1) {
            None => None,
            Some((k, j)) => if 0 <= j < to && s[j] == ']' && j + 1 < to && s[j + 1] == '\n' {
                match spec_parse_section_lines(s, j + 2, to, (f - 1) as nat) {
                    None => None,
                    Some((sec, i2)) => match spec_parse_body(s, i2, to, (f - 1) as nat) {
                        None => None,
                        Some(rest) => Some(seq![(k, SpecValue::Table(sec))] + rest),
                    },
                }
            } else {
                None
            },
        }
    } else {
        match spec_parse_kv(s, i, to, f) {
            None => None,
            Some((p, i2)) => match spec_parse_body(s, i2, to, (f - 1) as nat) {
                None => None,
                Some(rest) => Some(seq![p] + rest),
            },
        }
    }
}

/// Parses one `key = value` line whose separators and newline sit before
/// `to`.
fn parse_kv(chars: &Vec<char>, pos: usize, to: usize, fuel: Ghost<nat>) -> (r: Option<
    ((String, Value), usize),
>)
    requires
        pos <= to <= chars@.len(),
        fuel@ >= chars@.len() - pos + 1,
    ensures
        match r {
            Some(p) => spec_parse_kv(chars@, pos as int, to as int, fuel@) == Some(
                (((p.0).0@, (p.0).1@), p.1 as int),
            ) && pos < p.1 <= to,
            None => spec_parse_kv(chars@, pos as int, to as int, fuel@) is None,
        },
    decreases fuel@, 2int,
{
    let (k, j0) = match parse_bare_key(chars, pos) {
        Some(p) => p,
        None => {
            return None;
        },
    };
    if !(j0 < to && chars[j0] == ' ' && j0 + 1 < to && chars[j0 + 1] == '=' && j0 + 2 < to
        && chars[j0 + 2] == ' ') {
        return None;
    }
    let (v, j) = match parse_value(chars, j0 + 3, fuel) {
        Some(p) => p,
        None => {
            return None;
        },
    };
    if j < to && chars[j] == '\n' {
        Some(((k, v), j + 1))
    } else {
        None
    }
}

/// Parses the `key = value` lines of one section, up to the next section
/// header or `to`.
fn parse_section_lines(chars: &Vec<char>, pos: usize, to: usize, fuel: Ghost<nat>) -> (r: Option<
    (Table, usize),
>)
    requires
        pos <= to <= chars@.len(),
        fuel@ >= chars@.len() - pos + 1,
    ensures
        match r {
            Some(p) => spec_parse_section_lines(chars@, pos as int, to as int, fuel@) == Some(
                (spec_table_view(p.0@), p.1 as int),
            ) && pos <= p.1 <= to,
            None => spec_parse_section_lines(chars@, pos as int, to as int, fuel@) is None,
        },
    decreases fuel@, 3int,
{
    if pos >= to || chars[pos] == '[' {
        let sec: Table = Vec::new();
        proof {
            assert(spec_table_view(sec@) =~= Seq::<(Seq<char>, SpecValue)>::empty());
        }
        return Some((sec, pos));
    }
    let (p, i2) = match parse_kv(chars, pos, to, fuel) {
        Some(p) => p,
        None => {
            return None;
        },
    };
    match parse_section_lines(chars, i2, to, Ghost((fuel@ - 1) as nat)) {
        Some((mut sec, i3)) => {
            let ghost sec0 = sec@;
            let ghost gp = (p.0@, p.1@);
            sec.insert(0, p);
            proof {
                crate::value::lemma_table_view_cons(sec0, sec@[0]);
                assert(spec_table_view(sec@) =~= seq![gp] + spec_table_view(sec0));
            }
            Some((sec, i3))
        },
        None => None,
    }
}

/// Parses a header body (section headers and `key = value` lines) between
/// `from` and `to` into a top-level table.
pub(crate) fn parse_body(chars: &Vec<char>, from: usize, to: usize, fuel: Ghost<nat>) -> (r: Option<
    Table,
>)
    requires
        from <= to <= chars@.len(),
        fuel@ >= chars@.len() - from + 1,
    ensures
        match r {
            Some(t) => spec_parse_body(chars@, from as int, to as int, fuel@) == Some(
                spec_table_view(t@),
            ),
            None => spec_parse_body(chars@, from as int, to as int, fuel@) is None,
        },
    decreases fuel@, 4int,
{
    if from >= to {
        let t: Table = Vec::new();
        proof {
            assert(spec_table_view(t@) =~= Seq::<(Seq<char>, SpecValue)>::empty());
        }
        return Some(t);
    }
    if chars[from] == '[' {
        let (k, j) = match parse_bare_key(chars, from + 1) {
            Some(p) => p,
            None => {
                return None;
            },
        };
        if !(j < to && chars[j] == ']' && j + 1 < to && chars[j + 1] == '\n') {
            return None;
        }
        let (sec, i2) = match parse_section_lines(chars, j + 2, to, Ghost((fuel@ - 1) as nat)) {
            Some(p) => p,
            None => {
                return None;
            },
        };
        match parse_body(chars, i2, to, Ghost((fuel@ - 1) as nat)) {
            Some(mut rest) => {
                let ghost rest0 = rest@;
                let ghost gk = k@;
                let ghost gsec = spec_table_view(sec@);
                rest.insert(0, (k, Value::Table(sec)));
                proof {
                    crate::value::lemma_table_view_cons(rest0, rest@[0]);
                    assert(spec_table_view(rest@) =~= seq![(gk, SpecValue::Table(gsec))]
                        + spec_table_view(rest0));
                }
                Some(rest)
            },
            None => None,
        }
    } else {
        let (p, i2) = match parse_kv(chars, from, to, fuel) {
            Some(p) => p,
            None => {
                return None;
            },
        };
        match parse_body(chars, i2, to, Ghost((fuel@ - 1) as nat)) {
            Some(mut rest) => {
                let ghost rest0 = rest@;
                let ghost gp = (p.0@, p.1@);
                rest.insert(0, p);
                proof {
                    crate::value::lemma_table_view_cons(rest0, rest@[0]);
                    assert(spec_table_view(rest@) =~= seq![gp] + spec_table_view(rest0));
                }
                Some(rest)
            },
            None => None,
        }
    }
}

/// The position after the leading newlines of `s`, from `i` on.
pub open spec fn spec_newline_end(s: Seq<char>, i: int) -> int
    decreases s.len() - i,
{
    if 0 <= i < s.len() && s[i] == '\n' {
        spec_newline_end(s, i + 1)
    } else {
        i
    }
}

/// Whether the table satisfies the header schema (the same three checks as
/// `verify_header`).
pub open spec fn spec_schema_ok(t: Seq<(Seq<char>, SpecValue)>) -> bool {
    crate::header::spec_has_main_section(t) && crate::header::spec_has_imag_version(t)
        && crate::header::spec_has_only_tables(t)
}

/// What a header block is accepted as: after the leading blank lines, the
/// body must parse, the parsed table must satisfy the schema, and the body
/// must be exactly the serialization of the parsed table — so an accepted
/// block always reserializes to itself.
pub open spec fn spec_header_accepted(s: Seq<char>) -> Option<Seq<(Seq<char>, SpecValue)>> {
    let from = spec_newline_end(s, 0);
    match spec_parse_body(s, from, s.len() as int, (s.len() + 1) as nat) {
        None => None,
        Some(t) => if spec_schema_ok(t) && spec_body(t) == s.skip(from) {
            Some(t)
        } else {
            None
        },
    }
}

impl EntryHeader {
    /// Parses a header block (the text between the dashed delimiters, with
    /// any leading blank lines dropped) and checks the schema.  The result is
    /// pinned for every input: an unparsable or non-canonical block is a
    /// TOML-parser error, a parsable block that breaks the schema is a header
    /// inconsistency, and everything else is accepted, as exactly the parsed
    /// table.
    #[verifier::loop_isolation(false)]
    pub fn parse(s: &str) -> (r: Result<EntryHeader, ParserError>)
        ensures
            ({
                let from = spec_newline_end(s@, 0);
                match spec_parse_body(s@, from, s@.len() as int, (s@.len() + 1) as nat) {
                    None => r matches Err(e) && e.spec_kind() == ParserErrorKind::TOMLParserErrors,
                    Some(t) => if !spec_schema_ok(t) {
                        r matches Err(e) && e.spec_kind() == ParserErrorKind::HeaderInconsistency
                    } else if spec_body(t) != s@.skip(from) {
                        r matches Err(e) && e.spec_kind() == ParserErrorKind::TOMLParserErrors
                    } else {
                        r matches Ok(h) && h@ == SpecValue::Table(t)
                    },
                }
            }),
            r matches Ok(h) ==> crate::header::spec_header_valid(h@) && (
            h@ matches SpecValue::Table(t) && spec_header_accepted(s@) == Some(t)),
            r is Ok <==> spec_header_accepted(s@) is Some,
    {
        let chars = str_chars(s);
        let n = chars.len();
        proof {
            assert(spec_newline_end(s@, 0) == spec_newline_end(s@, 0));
        }
        let mut from: usize = 0;
        while from < n && chars[from] == '\n'
            invariant
                0 <= from <= n,
                n == chars@.len(),
                spec_newline_end(s@, 0) == spec_newline_end(s@, from as int),
            decreases n - from,
        {
            from = from + 1;
        }
        let t = match parse_body(&chars, from, n, Ghost((chars@.len() + 1) as nat)) {
            Some(t) => t,
            None => {
                return Err(ParserError::new(ParserErrorKind::TOMLParserErrors, None));
            },
        };
        let t = match verify_header_consistency(t) {
            Ok(t) => t,
            Err(e) => {
                return Err(e);
            },
        };
        let mut body: Vec<char> = Vec::new();
        push_body(&mut body, &t);
        let rest = crate::strutil::subvec_chars(&chars, from, n);
        if !chars_eq(&body, &rest) {
            return Err(ParserError::new(ParserErrorKind::TOMLParserErrors, None));
        }
        proof {
            assert(s@.skip(from as int) =~= s@.subrange(from as int, s@.len() as int));
        }
        Ok(EntryHeader::from_table(t))
    }
}


/// Whether position `p` starts a closing delimiter line: a line consisting of
/// three dashes.
pub open spec fn spec_delim_at(s: Seq<char>, p: int) -> bool {
    4 <= p && p + 4 <= s.len() && s[p - 1] == '\n' && s[p] == '-' && s[p + 1] == '-' && s[p + 2]
        == '-' && s[p + 3] == '\n'
}

/// The first closing-delimiter position at or after `i`, if any.
pub open spec fn spec_find_delim(s: Seq<char>, i: int) -> Option<int>
    decreases s.len() - i,
{
    if i < 4 || i >= s.len() {
        None
    } else if spec_delim_at(s, i) {
        Some(i)
    } else {
        spec_find_delim(s, i + 1)
    }
}

/// What an entry text is accepted as: an opening delimiter line, a header
/// body up to the first closing delimiter line, and the raw content after it.
/// The body must parse, satisfy the schema and be exactly the serialization
/// of the parsed table — so an accepted text always reserializes to itself.
pub open spec fn spec_entry_accepted(s: Seq<char>) -> Option<
    (Seq<(Seq<char>, SpecValue)>, Seq<char>),
> {
    if !(s.len() >= 4 && s[0] == '-' && s[1] == '-' && s[2] == '-' && s[3] == '\n') {
        None
    } else {
        match spec_find_delim(s, 4) {
            None => None,
            Some(p) => match spec_parse_body(s, 4, p, (s.len() + 1) as nat) {
                None => None,
                Some(t) => if spec_schema_ok(t) && spec_body(t) == s.subrange(4, p) {
                    Some((t, s.skip(p + 4)))
                } else {
                    None
                },
            },
        }
    }
}

/// Whether two character vectors hold the same characters.
#[verifier::loop_isolation(false)]
pub fn chars_eq(a: &Vec<char>, b: &Vec<char>) -> (r: bool)
    ensures
        r == (a@ == b@),
{
    if a.len() != b.len() {
        proof {
            assert(a@ != b@);
        }
        return false;
    }
    let mut i: usize = 0;
    while i < a.len()
        invariant
            0 <= i <= a@.len(),
            a@.len() == b@.len(),
            forall|j: int| 0 <= j < i ==> a@[j] == b@[j],
        decreases a@.len() - i,
    {
        if a[i] != b[i] {
            return false;
        }
        i = i + 1;
    }
    proof {
        assert(a@ =~= b@);
    }
    true
}

/// The digits of a nonnegative number are digits, and there is at least one.
pub proof fn lemma_dec_nat_shape(n: nat)
    ensures
        spec_dec_nat(n).len() >= 1,
        crate::header::spec_all_digits(spec_dec_nat(n)),
    decreases n,
{
    if n >= 10 {
        lemma_dec_nat_shape(n / 10);
        let p = spec_dec_nat(n / 10);
        let q = spec_dec_nat(n);
        assert forall|i: int| 0 <= i < q.len() implies crate::header::spec_is_digit(
            #[trigger] q[i],
        ) by {
            if i < p.len() {
                assert(q[i] == p[i]);
            }
        }
    }
}

/// The value of a digit string is nonnegative.
pub proof fn lemma_digits_val_nonneg(p: Seq<char>)
    requires
        crate::header::spec_all_digits(p),
    ensures
        crate::header::spec_digits_val(p) >= 0,
    decreases p.len(),
{
    if p.len() > 0 {
        assert(crate::header::spec_all_digits(p.drop_last()));
        lemma_digits_val_nonneg(p.drop_last());
    }
}

/// A digit string's prefixes have values no larger than the whole string's.
pub proof fn lemma_digits_val_prefix(p: Seq<char>, k: int)
    requires
        crate::header::spec_all_digits(p),
        0 <= k <= p.len(),
    ensures
        crate::header::spec_digits_val(p.take(k)) <= crate::header::spec_digits_val(p),
    decreases p.len() - k,
{
    if k < p.len() {
        lemma_digits_val_prefix(p, k + 1);
        let a = p.take(k);
        let b = p.take(k + 1);
        assert(b.drop_last() =~= a);
        assert(crate::header::spec_all_digits(a));
        lemma_digits_val_nonneg(a);
        assert(b.last() == p[k]);
        assert(crate::header::spec_is_digit(p[k]));
        assert(b.last() as int - '0' as int >= 0);
        assert(crate::header::spec_digits_val(b) == crate::header::spec_digits_val(a) * 10 + (
        b.last() as int - '0' as int));
        assert(crate::header::spec_digits_val(a) * 10 == crate::header::spec_digits_val(a) + 9
            * crate::header::spec_digits_val(a));
        assert(crate::header::spec_digits_val(a) <= crate::header::spec_digits_val(b));
    } else {
        assert(p.take(k) =~= p);
    }
}

/// Rendering a number and taking the digits' value gives the number back.
pub proof fn lemma_dec_nat_val(n: nat)
    ensures
        crate::header::spec_digits_val(spec_dec_nat(n)) == n,
    decreases n,
{
    if n < 10 {
        let q = spec_dec_nat(n);
        assert(q =~= seq![spec_digit_char(n as int)]);
        assert(q.drop_last() =~= Seq::<char>::empty());
        assert(q.last() == spec_digit_char(n as int));
        assert(spec_digit_char(n as int) as int - '0' as int == n);
        assert(crate::header::spec_digits_val(q) == crate::header::spec_digits_val(q.drop_last())
            * 10 + (q.last() as int - '0' as int));
        assert(crate::header::spec_digits_val(Seq::<char>::empty()) == 0);
    } else {
        lemma_dec_nat_val(n / 10);
        let q = spec_dec_nat(n);
        assert(q.drop_last() =~= spec_dec_nat(n / 10));
        assert(q.last() == spec_digit_char((n % 10) as int));
        assert(spec_digit_char((n % 10) as int) as int - '0' as int == n % 10);
    }
}

/// Scanning a run of digits accumulates exactly the run's value and stops at
/// its end, as long as that value stays within the cap.
pub proof fn lemma_scan_digits_complete(s: Seq<char>, i: int, m: int, j: int)
    requires
        0 <= i <= m <= j <= s.len(),
        forall|k: int| i <= k < j ==> crate::header::spec_is_digit(#[trigger] s[k]),
        j == s.len() || !crate::header::spec_is_digit(s[j]),
        crate::header::spec_digits_val(s.subrange(i, j)) <= 0x8000_0000_0000_0000,
    ensures
        spec_parse_digits(s, m, crate::header::spec_digits_val(s.subrange(i, m))) == Some(
            (crate::header::spec_digits_val(s.subrange(i, j)), j),
        ),
    decreases j - m,
{
    assert(crate::header::spec_all_digits(s.subrange(i, j)));
    if m < j {
        let a = s.subrange(i, m);
        let b = s.subrange(i, m + 1);
        assert(b.drop_last() =~= a);
        assert(b.last() == s[m]);
        assert(crate::header::spec_digits_val(b) == crate::header::spec_digits_val(a) * 10 + (
        s[m] as int - '0' as int));
        assert(b =~= s.subrange(i, j).take(m + 1 - i));
        lemma_digits_val_prefix(s.subrange(i, j), m + 1 - i);
        lemma_scan_digits_complete(s, i, m + 1, j);
    } else {
        assert(!(0 <= m < s.len() && crate::header::spec_is_digit(s[m])));
    }
}

/// An integer's decimal rendering parses back to it, up to the first
/// non-digit after the rendering.
pub proof fn lemma_parse_int_complete(s: Seq<char>, i: int, n: i64)
    requires
        0 <= i,
        i + spec_dec_int(n as int).len() <= s.len(),
        s.subrange(i, i + spec_dec_int(n as int).len()) == spec_dec_int(n as int),
        i + spec_dec_int(n as int).len() == s.len() || !crate::header::spec_is_digit(
            s[i + spec_dec_int(n as int).len()],
        ),
    ensures
        spec_parse_int(s, i) == Some((n, i + spec_dec_int(n as int).len())),
{
    let d = spec_dec_int(n as int);
    let l = d.len() as int;
    if n >= 0 {
        lemma_dec_nat_shape(n as nat);
        lemma_dec_nat_val(n as nat);
        assert(s.subrange(i, i + l) =~= d);
        assert(s[i] == d[0]);
        assert(crate::header::spec_is_digit(s[i]));
        assert(s[i] != '-');
        assert forall|k: int| i <= k < i + l implies crate::header::spec_is_digit(
            #[trigger] s[k],
        ) by {
            assert(s[k] == d[k - i]);
        }
        assert(s.subrange(i, i + l) =~= spec_dec_nat(n as nat));
        assert(s.subrange(i, i) =~= Seq::<char>::empty());
        lemma_scan_digits_complete(s, i, i, i + l);
        assert(spec_parse_digits(s, i, 0) == Some((n as int, i + l)));
    } else {
        let mag = spec_dec_nat((-(n as int)) as nat);
        lemma_dec_nat_shape((-(n as int)) as nat);
        lemma_dec_nat_val((-(n as int)) as nat);
        assert(d == seq!['-'] + mag);
        assert(s[i] == d[0]);
        assert(s[i] == '-');
        assert forall|k: int| i + 1 <= k < i + l implies crate::header::spec_is_digit(
            #[trigger] s[k],
        ) by {
            assert(s[k] == d[k - i]);
            assert(d[k - i] == mag[k - i - 1]);
        }
        assert forall|k: int| 0 <= k < mag.len() implies s[i + 1 + k] == mag[k] by {
            assert(s.subrange(i, i + l)[1 + k] == s[i + 1 + k]);
            assert(d[1 + k] == mag[k]);
        }
        assert(s.subrange(i + 1, i + l) =~= mag);
        assert(s.subrange(i + 1, i + 1) =~= Seq::<char>::empty());
        lemma_scan_digits_complete(s, i + 1, i + 1, i + l);
        assert(spec_parse_digits(s, i + 1, 0) == Some(((-(n as int)), i + l)));
        assert(l >= 2);
    }
}

/// A string body's escaped rendering, followed by the closing quote, parses
/// back to the body.
pub proof fn lemma_parse_quoted_complete(s: Seq<char>, i: int, b: Seq<char>)
    requires
        0 <= i,
        i + spec_escape(b).len() + 1 <= s.len(),
        s.subrange(i, i + spec_escape(b).len() + 1) == spec_escape(b) + seq!['"'],
    ensures
        spec_parse_quoted(s, i) == Some((b, i + spec_escape(b).len() + 1)),
    decreases b.len(),
{
    let e = spec_escape(b);
    let l = e.len() as int;
    if b.len() == 0 {
        assert(e =~= Seq::<char>::empty());
        assert(s[i] == (spec_escape(b) + seq!['"'])[0]);
        assert(s[i] == '"');
    } else {
        lemma_escape_front(b);
        let c = b[0];
        let ec = spec_esc_char(c);
        let rest = b.drop_first();
        assert(e == ec + spec_escape(rest));
        assert forall|k: int| 0 <= k < ec.len() implies s[i + k] == ec[k] by {
            assert(s[i + k] == (spec_escape(b) + seq!['"'])[k]);
            assert((ec + spec_escape(rest))[k] == ec[k]);
        }
        assert(s.subrange(
            i + ec.len(),
            i + ec.len() + spec_escape(rest).len() + 1,
        ) =~= spec_escape(rest) + seq!['"']) by {
            assert forall|k: int|
                0 <= k < spec_escape(rest).len() + 1 implies s[i + ec.len() + k] == (
            spec_escape(rest) + seq!['"'])[k] by {
                assert(s[i + ec.len() + k] == (spec_escape(b) + seq!['"'])[ec.len() + k]);
            }
        }
        lemma_parse_quoted_complete(s, i + ec.len(), rest);
        assert(s[i + 0] == ec[0]);
        if c == '"' || c == '\\' || c == '\n' || c == '\t' || c == '\r' {
            assert(ec.len() == 2);
            assert(s[i + 1] == ec[1]);
            assert(s[i] == '\\');
            assert(spec_unescape(s[i + 1]) == Some(c));
            assert(seq![c] + rest =~= b);
        } else {
            assert(ec =~= seq![c]);
            assert(s[i] == c);
            assert(s[i] != '"' && s[i] != '\\' && s[i] != '\n');
            assert(seq![c] + rest =~= b);
        }
    }
}

/// The escaped form of a string decomposes from the front.
pub proof fn lemma_escape_front(b: Seq<char>)
    requires
        b.len() > 0,
    ensures
        spec_escape(b) == spec_esc_char(b[0]) + spec_escape(b.drop_first()),
    decreases b.len(),
{
    if b.len() == 1 {
        assert(b.drop_last() =~= Seq::<char>::empty());
        assert(b.drop_first() =~= Seq::<char>::empty());
        assert(b.last() == b[0]);
        assert(spec_escape(b) =~= spec_esc_char(b[0]) + spec_escape(b.drop_first()));
    } else {
        let p = b.drop_last();
        lemma_escape_front(p);
        assert(p[0] == b[0]);
        assert(p.drop_first() =~= b.drop_first().drop_last());
        assert(b.drop_first().last() == b.last());
        assert(spec_escape(b) == spec_escape(p) + spec_esc_char(b.last()));
        assert(spec_escape(b.drop_first()) == spec_escape(b.drop_first().drop_last())
            + spec_esc_char(b.drop_first().last()));
        assert(spec_escape(b) =~= spec_esc_char(b[0]) + spec_escape(b.drop_first()));
    }
}

/// The first character of an inline rendering: a quote, bracket, brace,
/// boolean letter, minus or digit — never a separator or terminator.
pub proof fn lemma_inline_first(v: SpecValue)
    ensures
        spec_inline(v).len() >= 1,
        ({
            let c = spec_inline(v)[0];
            c == '"' || c == '[' || c == '{' || c == 't' || c == 'f' || c == '-'
                || crate::header::spec_is_digit(c)
        }),
{
    match v {
        SpecValue::Int(n) => {
            lemma_dec_nat_shape(
                if n < 0 {
                    (-(n as int)) as nat
                } else {
                    n as nat
                },
            );
        },
        SpecValue::Bool(b) => {
            if b {
                reveal_strlit("true");
            } else {
                reveal_strlit("false");
            }
        },
        SpecValue::Str(_) => {},
        SpecValue::Array(_) => {},
        SpecValue::Table(_) => {},
    }
}

/// A well-formed key: nonempty, all characters bare.
pub open spec fn spec_key_wf(k: Seq<char>) -> bool {
    k.len() > 0 && (forall|i: int| 0 <= i < k.len() ==> spec_is_bare_key_char(#[trigger] k[i]))
}

/// A well-formed value tree: every table key, at every depth, is a
/// well-formed bare key.
pub open spec fn spec_value_wf(v: SpecValue) -> bool
    decreases v,
{
    match v {
        SpecValue::Table(t) => spec_pairs_wf(t),
        SpecValue::Array(a) => spec_elems_wf(a),
        _ => true,
    }
}

/// Well-formed table pairs: every key a bare key, every value well-formed.
pub open spec fn spec_pairs_wf(t: Seq<(Seq<char>, SpecValue)>) -> bool
    decreases t,
{
    t.len() == 0 || (spec_key_wf(t[0].0) && spec_value_wf(t[0].1) && spec_pairs_wf(
        t.drop_first(),
    ))
}

/// Well-formed array elements.
pub open spec fn spec_elems_wf(a: Seq<SpecValue>) -> bool
    decreases a,
{
    a.len() == 0 || (spec_value_wf(a[0]) && spec_elems_wf(a.drop_first()))
}

/// A well-formed key parses back to itself, up to the first non-bare
/// character after it.
pub proof fn lemma_parse_key_complete(s: Seq<char>, i: int, k: Seq<char>)
    requires
        spec_key_wf(k),
        0 <= i,
        i + k.len() <= s.len(),
        s.subrange(i, i + k.len()) == k,
        i + k.len() == s.len() || !spec_is_bare_key_char(s[i + k.len()]),
    ensures
        spec_parse_key(s, i) == Some((k, i + k.len())),
    decreases k.len(),
{
    assert(s[i] == k[0]) by {
        assert(s.subrange(i, i + k.len())[0] == s[i]);
    }
    if k.len() == 1 {
        assert(spec_parse_key(s, i + 1) is None);
        assert(seq![s[i]] =~= k);
    } else {
        let rest = k.drop_first();
        assert forall|m: int| 0 <= m < rest.len() implies s[i + 1 + m] == rest[m] by {
            assert(s.subrange(i, i + k.len())[1 + m] == s[i + 1 + m]);
        }
        assert(s.subrange(i + 1, i + 1 + rest.len()) =~= rest);
        assert(spec_key_wf(rest)) by {
            assert forall|m: int| 0 <= m < rest.len() implies spec_is_bare_key_char(
                #[trigger] rest[m],
            ) by {
                assert(rest[m] == k[m + 1]);
            }
        }
        lemma_parse_key_complete(s, i + 1, rest);
        assert(seq![s[i]] + rest =~= k);
    }
}

/// The inline text of array elements decomposes from the front.
pub proof fn lemma_items_front(a: Seq<SpecValue>)
    requires
        a.len() >= 1,
    ensures
        a.len() == 1 ==> spec_inline_items(a) == spec_inline(a[0]),
        a.len() > 1 ==> spec_inline_items(a) == spec_inline(a[0]) + ", "@ + spec_inline_items(
            a.drop_first(),
        ),
    decreases a.len(),
{
    if a.len() == 1 {
        assert(a.last() == a[0]);
    } else if a.len() == 2 {
        let p = a.drop_last();
        assert(p =~= seq![a[0]]);
        assert(a.drop_first() =~= seq![a[1]]);
        assert(p.last() == a[0]);
        assert(spec_inline_items(p) == spec_inline(a[0]));
        assert(a.last() == a[1]);
        assert(spec_inline_items(a.drop_first()) == spec_inline(a[1]));
        assert(spec_inline_items(a) =~= spec_inline(a[0]) + ", "@ + spec_inline_items(
            a.drop_first(),
        ));
    } else {
        let p = a.drop_last();
        lemma_items_front(p);
        assert(p[0] == a[0]);
        assert(p.drop_first() =~= a.drop_first().drop_last());
        assert(a.drop_first().last() == a.last());
        assert(spec_inline_items(a.drop_first()) == spec_inline_items(a.drop_first().drop_last())
            + ", "@ + spec_inline(a.last()));
        assert(spec_inline_items(a) =~= spec_inline(a[0]) + ", "@ + spec_inline_items(
            a.drop_first(),
        ));
    }
}

/// The inline text of table pairs decomposes from the front.
pub proof fn lemma_pairs_front(t: Seq<(Seq<char>, SpecValue)>)
    requires
        t.len() >= 1,
    ensures
        t.len() == 1 ==> spec_inline_pairs(t) == t[0].0 + " = "@ + spec_inline(t[0].1),
        t.len() > 1 ==> spec_inline_pairs(t) == t[0].0 + " = "@ + spec_inline(t[0].1) + ", "@
            + spec_inline_pairs(t.drop_first()),
    decreases t.len(),
{
    if t.len() == 1 {
        assert(t.last() == t[0]);
    } else if t.len() == 2 {
        let p = t.drop_last();
        assert(p =~= seq![t[0]]);
        assert(t.drop_first() =~= seq![t[1]]);
        assert(p.last() == t[0]);
        assert(spec_inline_pairs(p) == t[0].0 + " = "@ + spec_inline(t[0].1));
        assert(t.last() == t[1]);
        assert(spec_inline_pairs(t.drop_first()) == t[1].0 + " = "@ + spec_inline(t[1].1));
        assert(spec_inline_pairs(t) =~= t[0].0 + " = "@ + spec_inline(t[0].1) + ", "@
            + spec_inline_pairs(t.drop_first()));
    } else {
        let p = t.drop_last();
        lemma_pairs_front(p);
        assert(p[0] == t[0]);
        assert(p.drop_first() =~= t.drop_first().drop_last());
        assert(t.drop_first().last() == t.last());
        assert(spec_inline_pairs(t.drop_first()) == spec_inline_pairs(t.drop_first().drop_last())
            + ", "@ + t.last().0 + " = "@ + spec_inline(t.last().1));
        assert(spec_inline_pairs(t) =~= t[0].0 + " = "@ + spec_inline(t[0].1) + ", "@
            + spec_inline_pairs(t.drop_first()));
    }
}

/// A well-formed value's inline rendering parses back to it, given any fuel
/// above the remaining length and no digit directly after the rendering.
pub proof fn lemma_parse_value_complete(s: Seq<char>, i: int, v: SpecValue, f: nat)
    requires
        spec_value_wf(v),
        0 <= i,
        i + spec_inline(v).len() <= s.len(),
        s.subrange(i, i + spec_inline(v).len()) == spec_inline(v),
        i + spec_inline(v).len() < s.len() ==> !crate::header::spec_is_digit(
            s[i + spec_inline(v).len()],
        ),
        f >= s.len() - i + 1,
    ensures
        spec_parse_value(s, i, f) == Some((v, i + spec_inline(v).len())),
    decreases v,
{
    let d = spec_inline(v);
    let l = d.len() as int;
    lemma_inline_first(v);
    assert(s[i] == d[0]) by {
        assert(s.subrange(i, i + l)[0] == s[i]);
    }
    assert forall|m: int| 0 <= m < l implies s[i + m] == d[m] by {
        assert(s.subrange(i, i + l)[m] == s[i + m]);
    }
    match v {
        SpecValue::Int(n) => {
            lemma_parse_int_complete(s, i, n);
            if n < 0 {
                assert(s[i] == '-');
            } else {
                lemma_dec_nat_shape(n as nat);
                assert(crate::header::spec_is_digit(s[i]));
            }
        },
        SpecValue::Bool(b) => {
            if b {
                reveal_strlit("true");
                assert(s.subrange(i, i + l)[1] == s[i + 1]);
                assert(s.subrange(i, i + l)[2] == s[i + 2]);
                assert(s.subrange(i, i + l)[3] == s[i + 3]);
                assert(s[i] == 't' && s[i + 1] == 'r' && s[i + 2] == 'u' && s[i + 3] == 'e');
            } else {
                reveal_strlit("false");
                assert(s.subrange(i, i + l)[1] == s[i + 1]);
                assert(s.subrange(i, i + l)[2] == s[i + 2]);
                assert(s.subrange(i, i + l)[3] == s[i + 3]);
                assert(s.subrange(i, i + l)[4] == s[i + 4]);
                assert(s[i] == 'f' && s[i + 1] == 'a' && s[i + 2] == 'l' && s[i + 3] == 's' && s[i
                    + 4] == 'e');
            }
        },
        SpecValue::Str(b) => {
            assert(s[i] == '"');
            let e = spec_escape(b);
            assert forall|m: int| 0 <= m < e.len() + 1 implies s[i + 1 + m] == (e + seq!['"'])[m]
            by {
                assert(d[1 + m] == (e + seq!['"'])[m]);
            }
            assert(s.subrange(i + 1, i + 1 + e.len() + 1) =~= e + seq!['"']);
            lemma_parse_quoted_complete(s, i + 1, b);
        },
        SpecValue::Array(a) => {
            assert(s[i] == '[');
            if a.len() == 0 {
                assert(a =~= Seq::<SpecValue>::empty());
                assert(spec_inline_items(a) =~= Seq::<char>::empty());
                assert(d =~= seq!['[', ']']);
                assert(s.subrange(i, i + l)[1] == s[i + 1]);
                assert(s[i + 1] == ']');
            } else {
                let li = spec_inline_items(a).len() as int;
                assert forall|m: int| 0 <= m < li implies s[i + 1 + m] == spec_inline_items(a)[m]
                by {
                    assert(d[1 + m] == spec_inline_items(a)[m]);
                }
                assert(s.subrange(i + 1, i + 1 + li) =~= spec_inline_items(a));
                assert(s[i + 1 + li] == ']') by {
                    assert(d[1 + li] == ']');
                }
                lemma_items_front(a);
                lemma_inline_first(a[0]);
                assert(s[i + 1] == spec_inline(a[0])[0]) by {
                    assert(spec_inline_items(a)[0] == spec_inline(a[0])[0]);
                }
                assert(s[i + 1] != ']');
                lemma_parse_items_complete(s, i + 1, a, (f - 1) as nat);
            }
        },
        SpecValue::Table(t) => {
            assert(s[i] == '{');
            if t.len() == 0 {
                assert(t =~= Seq::<(Seq<char>, SpecValue)>::empty());
                assert(spec_inline_pairs(t) =~= Seq::<char>::empty());
                assert(d =~= seq!['{', '}']);
                assert(s.subrange(i, i + l)[1] == s[i + 1]);
                assert(s[i + 1] == '}');
            } else {
                let lp = spec_inline_pairs(t).len() as int;
                assert forall|m: int| 0 <= m < lp implies s[i + 1 + m] == spec_inline_pairs(t)[m]
                by {
                    assert(d[1 + m] == spec_inline_pairs(t)[m]);
                }
                assert(s.subrange(i + 1, i + 1 + lp) =~= spec_inline_pairs(t));
                assert(s[i + 1 + lp] == '}') by {
                    assert(d[1 + lp] == '}');
                }
                lemma_pairs_front(t);
                assert(spec_key_wf(t[0].0));
                assert(s[i + 1] == t[0].0[0]) by {
                    assert(spec_inline_pairs(t)[0] == t[0].0[0]);
                }
                assert(spec_is_bare_key_char(s[i + 1]));
                assert(s[i + 1] != '}');
                lemma_parse_pairs_complete(s, i + 1, t, (f - 1) as nat);
            }
        },
    }
}

/// Well-formed array elements' rendering, up to the closing bracket, parses
/// back to them.
pub proof fn lemma_parse_items_complete(s: Seq<char>, i: int, a: Seq<SpecValue>, f: nat)
    requires
        a.len() >= 1,
        spec_elems_wf(a),
        0 <= i,
        i + spec_inline_items(a).len() < s.len(),
        s.subrange(i, i + spec_inline_items(a).len()) == spec_inline_items(a),
        s[i + spec_inline_items(a).len()] == ']',
        f >= s.len() - i + 1,
    ensures
        spec_parse_items(s, i, f) == Some((a, i + spec_inline_items(a).len() + 1)),
    decreases a,
{
    let d = spec_inline_items(a);
    let li = d.len() as int;
    lemma_items_front(a);
    let l0 = spec_inline(a[0]).len() as int;
    assert forall|m: int| 0 <= m < li implies s[i + m] == d[m] by {
        assert(s.subrange(i, i + li)[m] == s[i + m]);
    }
    if a.len() == 1 {
        assert(d == spec_inline(a[0]));
        assert(s.subrange(i, i + l0) =~= spec_inline(a[0]));
        lemma_parse_value_complete(s, i, a[0], f);
        assert(seq![a[0]] =~= a);
    } else {
        reveal_strlit(", ");
        assert(", "@.len() == 2);
        let rest = a.drop_first();
        let lr = spec_inline_items(rest).len() as int;
        assert(li == l0 + 2 + lr);
        assert(s.subrange(i, i + l0) =~= spec_inline(a[0])) by {
            assert forall|m: int| 0 <= m < l0 implies s[i + m] == spec_inline(a[0])[m] by {
                assert(d[m] == spec_inline(a[0])[m]);
            }
        }
        assert(s[i + l0] == ',') by {
            assert(d[l0] == ", "@[0]);
        }
        lemma_parse_value_complete(s, i, a[0], f);
        assert(s[i + l0 + 1] == ' ') by {
            assert(d[l0 + 1] == ", "@[1]);
        }
        assert(s.subrange(i + l0 + 2, i + l0 + 2 + lr) =~= spec_inline_items(rest)) by {
            assert forall|m: int| 0 <= m < lr implies s[i + l0 + 2 + m] == spec_inline_items(
                rest,
            )[m] by {
                assert(d[l0 + 2 + m] == spec_inline_items(rest)[m]);
            }
        }
        lemma_parse_items_complete(s, i + l0 + 2, rest, (f - 1) as nat);
        assert(seq![a[0]] + rest =~= a);
    }
}

/// Well-formed table pairs' rendering, up to the closing brace, parses back
/// to them.
pub proof fn lemma_parse_pairs_complete(s: Seq<char>, i: int, t: Seq<(Seq<char>, SpecValue)>, f: nat)
    requires
        t.len() >= 1,
        spec_pairs_wf(t),
        0 <= i,
        i + spec_inline_pairs(t).len() < s.len(),
        s.subrange(i, i + spec_inline_pairs(t).len()) == spec_inline_pairs(t),
        s[i + spec_inline_pairs(t).len()] == '}',
        f >= s.len() - i + 1,
    ensures
        spec_parse_pairs(s, i, f) == Some((t, i + spec_inline_pairs(t).len() + 1)),
    decreases t,
{
    let d = spec_inline_pairs(t);
    let lp = d.len() as int;
    lemma_pairs_front(t);
    reveal_strlit(" = ");
    assert(" = "@.len() == 3);
    let k = t[0].0;
    let lk = k.len() as int;
    let l0 = spec_inline(t[0].1).len() as int;
    assert forall|m: int| 0 <= m < lp implies s[i + m] == d[m] by {
        assert(s.subrange(i, i + lp)[m] == s[i + m]);
    }
    assert(s.subrange(i, i + lk) =~= k) by {
        assert forall|m: int| 0 <= m < lk implies s[i + m] == k[m] by {
            assert(d[m] == k[m]);
        }
    }
    assert(s[i + lk] == ' ') by {
        assert(d[lk] == " = "@[0]);
    }
    assert(s[i + lk + 1] == '=') by {
        assert(d[lk + 1] == " = "@[1]);
    }
    assert(s[i + lk + 2] == ' ') by {
        assert(d[lk + 2] == " = "@[2]);
    }
    assert(!spec_is_bare_key_char(' '));
    lemma_parse_key_complete(s, i, k);
    let vi = i + lk + 3;
    assert(s.subrange(vi, vi + l0) =~= spec_inline(t[0].1)) by {
        assert forall|m: int| 0 <= m < l0 implies s[vi + m] == spec_inline(t[0].1)[m] by {
            assert(d[lk + 3 + m] == spec_inline(t[0].1)[m]);
        }
    }
    if t.len() == 1 {
        assert(lp == lk + 3 + l0);
        lemma_parse_value_complete(s, vi, t[0].1, f);
        assert(seq![(k, t[0].1)] =~= t);
        assert((k, t[0].1) == t[0]);
    } else {
        reveal_strlit(", ");
        assert(", "@.len() == 2);
        let rest = t.drop_first();
        let lr = spec_inline_pairs(rest).len() as int;
        assert(lp == lk + 3 + l0 + 2 + lr);
        assert(s[vi + l0] == ',') by {
            assert(d[lk + 3 + l0] == ", "@[0]);
        }
        lemma_parse_value_complete(s, vi, t[0].1, f);
        assert(s[vi + l0 + 1] == ' ') by {
            assert(d[lk + 3 + l0 + 1] == ", "@[1]);
        }
        assert(s.subrange(vi + l0 + 2, vi + l0 + 2 + lr) =~= spec_inline_pairs(rest)) by {
            assert forall|m: int| 0 <= m < lr implies s[vi + l0 + 2 + m] == spec_inline_pairs(
                rest,
            )[m] by {
                assert(d[lk + 3 + l0 + 2 + m] == spec_inline_pairs(rest)[m]);
            }
        }
        lemma_parse_pairs_complete(s, vi + l0 + 2, rest, (f - 1) as nat);
        assert(seq![(k, t[0].1)] + rest =~= t);
        assert((k, t[0].1) == t[0]);
    }
}

/// The lines of a section decompose from the front.
pub proof fn lemma_section_lines_front(sec: Seq<(Seq<char>, SpecValue)>)
    requires
        sec.len() >= 1,
    ensures
        spec_section_lines(sec) == sec[0].0 + " = "@ + spec_inline(sec[0].1) + seq!['\n']
            + spec_section_lines(sec.drop_first()),
    decreases sec.len(),
{
    if sec.len() == 1 {
        assert(sec.drop_last() =~= Seq::<(Seq<char>, SpecValue)>::empty());
        assert(sec.drop_first() =~= Seq::<(Seq<char>, SpecValue)>::empty());
        assert(sec.last() == sec[0]);
        assert(spec_section_lines(sec) =~= sec[0].0 + " = "@ + spec_inline(sec[0].1) + seq!['\n']
            + spec_section_lines(sec.drop_first()));
    } else {
        let p = sec.drop_last();
        lemma_section_lines_front(p);
        assert(p[0] == sec[0]);
        assert(p.drop_first() =~= sec.drop_first().drop_last());
        assert(sec.drop_first().last() == sec.last());
        assert(spec_section_lines(sec.drop_first()) == spec_section_lines(
            sec.drop_first().drop_last(),
        ) + sec.last().0 + " = "@ + spec_inline(sec.last().1) + seq!['\n']);
        assert(spec_section_lines(sec) =~= sec[0].0 + " = "@ + spec_inline(sec[0].1) + seq!['\n']
            + spec_section_lines(sec.drop_first()));
    }
}

/// The body text decomposes from the front.
pub proof fn lemma_body_front(t: Seq<(Seq<char>, SpecValue)>)
    requires
        t.len() >= 1,
    ensures
        spec_body(t) == spec_top_entry(t[0].0, t[0].1) + spec_body(t.drop_first()),
    decreases t.len(),
{
    if t.len() == 1 {
        assert(t.drop_last() =~= Seq::<(Seq<char>, SpecValue)>::empty());
        assert(t.drop_first() =~= Seq::<(Seq<char>, SpecValue)>::empty());
        assert(t.last() == t[0]);
        assert(spec_body(t) =~= spec_top_entry(t[0].0, t[0].1) + spec_body(t.drop_first()));
    } else {
        let p = t.drop_last();
        lemma_body_front(p);
        assert(p[0] == t[0]);
        assert(p.drop_first() =~= t.drop_first().drop_last());
        assert(t.drop_first().last() == t.last());
        assert(spec_body(t.drop_first()) == spec_body(t.drop_first().drop_last()) + spec_top_entry(
            t.last().0,
            t.last().1,
        ));
        assert(spec_body(t) =~= spec_top_entry(t[0].0, t[0].1) + spec_body(t.drop_first()));
    }
}

/// A well-formed key/value line parses back to its pair.
pub proof fn lemma_parse_kv_complete(
    s: Seq<char>,
    i: int,
    to: int,
    k: Seq<char>,
    v: SpecValue,
    f: nat,
)
    requires
        spec_key_wf(k),
        spec_value_wf(v),
        0 <= i,
        i + k.len() + 4 + spec_inline(v).len() <= to <= s.len(),
        s.subrange(i, i + k.len() + 4 + spec_inline(v).len()) == k + " = "@ + spec_inline(v)
            + seq!['\n'],
        f >= s.len() - i + 1,
    ensures
        spec_parse_kv(s, i, to, f) == Some(
            ((k, v), i + k.len() + 4 + spec_inline(v).len()),
        ),
{
    reveal_strlit(" = ");
    assert(" = "@.len() == 3);
    let d = k + " = "@ + spec_inline(v) + seq!['\n'];
    let lk = k.len() as int;
    let l0 = spec_inline(v).len() as int;
    let lkv = lk + 4 + l0;
    assert forall|m: int| 0 <= m < lkv implies s[i + m] == d[m] by {
        assert(s.subrange(i, i + lkv)[m] == s[i + m]);
    }
    assert(s.subrange(i, i + lk) =~= k) by {
        assert forall|m: int| 0 <= m < lk implies s[i + m] == k[m] by {
            assert(d[m] == k[m]);
        }
    }
    assert(s[i + lk] == ' ') by {
        assert(d[lk] == " = "@[0]);
    }
    assert(s[i + lk + 1] == '=') by {
        assert(d[lk + 1] == " = "@[1]);
    }
    assert(s[i + lk + 2] == ' ') by {
        assert(d[lk + 2] == " = "@[2]);
    }
    assert(!spec_is_bare_key_char(' '));
    lemma_parse_key_complete(s, i, k);
    let vi = i + lk + 3;
    assert(s.subrange(vi, vi + l0) =~= spec_inline(v)) by {
        assert forall|m: int| 0 <= m < l0 implies s[vi + m] == spec_inline(v)[m] by {
            assert(d[lk + 3 + m] == spec_inline(v)[m]);
        }
    }
    assert(s[vi + l0] == '\n') by {
        assert(d[lk + 3 + l0] == '\n');
    }
    lemma_parse_value_complete(s, vi, v, f);
}

/// Well-formed section lines, up to the next section header or the end of
/// the body, parse back to their pairs.
pub proof fn lemma_parse_section_lines_complete(
    s: Seq<char>,
    i: int,
    to: int,
    sec: Seq<(Seq<char>, SpecValue)>,
    f: nat,
)
    requires
        spec_pairs_wf(sec),
        0 <= i,
        i + spec_section_lines(sec).len() <= to <= s.len(),
        s.subrange(i, i + spec_section_lines(sec).len()) == spec_section_lines(sec),
        i + spec_section_lines(sec).len() == to || s[i + spec_section_lines(sec).len()] == '[',
        f >= s.len() - i + 1,
    ensures
        spec_parse_section_lines(s, i, to, f) == Some(
            (sec, i + spec_section_lines(sec).len()),
        ),
    decreases sec,
{
    let d = spec_section_lines(sec);
    let ls = d.len() as int;
    if sec.len() == 0 {
        assert(d =~= Seq::<char>::empty());
        assert(sec =~= Seq::<(Seq<char>, SpecValue)>::empty());
        assert(i >= to || s[i] == '[');
    } else {
        lemma_section_lines_front(sec);
        reveal_strlit(" = ");
        let k = sec[0].0;
        let v = sec[0].1;
        let lkv = k.len() as int + 4 + spec_inline(v).len() as int;
        let rest = sec.drop_first();
        let lr = spec_section_lines(rest).len() as int;
        assert(ls == lkv + lr);
        assert forall|m: int| 0 <= m < ls implies s[i + m] == d[m] by {
            assert(s.subrange(i, i + ls)[m] == s[i + m]);
        }
        assert(s.subrange(i, i + lkv) =~= k + " = "@ + spec_inline(v) + seq!['\n']) by {
            assert forall|m: int| 0 <= m < lkv implies s[i + m] == (k + " = "@ + spec_inline(v)
                + seq!['\n'])[m] by {
                assert(d[m] == (k + " = "@ + spec_inline(v) + seq!['\n'])[m]);
            }
        }
        assert(spec_key_wf(k));
        assert(s[i] == k[0]) by {
            assert(s.subrange(i, i + lkv)[0] == s[i]);
        }
        assert(spec_is_bare_key_char(s[i]));
        assert(!(i >= to || s[i] == '['));
        lemma_parse_kv_complete(s, i, to, k, v, f);
        let i2 = i + lkv;
        assert(s.subrange(i2, i2 + lr) =~= spec_section_lines(rest)) by {
            assert forall|m: int| 0 <= m < lr implies s[i2 + m] == spec_section_lines(rest)[m] by {
                assert(d[lkv + m] == spec_section_lines(rest)[m]);
            }
        }
        lemma_parse_section_lines_complete(s, i2, to, rest, (f - 1) as nat);
        assert(seq![(k, v)] + rest =~= sec);
        assert((k, v) == sec[0]);
    }
}

/// A schema-shaped body text (every top-level value a table, every key at
/// every depth a bare key) parses back to its table.
pub proof fn lemma_parse_body_complete(
    s: Seq<char>,
    i: int,
    to: int,
    t: Seq<(Seq<char>, SpecValue)>,
    f: nat,
)
    requires
        spec_value_wf(SpecValue::Table(t)),
        crate::header::spec_has_only_tables(t),
        0 <= i,
        to == i + spec_body(t).len(),
        to <= s.len(),
        s.subrange(i, to) == spec_body(t),
        f >= s.len() - i + 1,
    ensures
        spec_parse_body(s, i, to, f) == Some(t),
    decreases t,
{
    let d = spec_body(t);
    let lb = d.len() as int;
    if t.len() == 0 {
        assert(d =~= Seq::<char>::empty());
        assert(t =~= Seq::<(Seq<char>, SpecValue)>::empty());
    } else {
        lemma_body_front(t);
        let k = t[0].0;
        assert(t[0].1 is Table);
        let sec = t[0].1->Table_0;
        let lk = k.len() as int;
        let ls = spec_section_lines(sec).len() as int;
        let le = lk + 3 + ls;
        assert(spec_top_entry(k, t[0].1) == seq!['['] + k + seq![']', '\n'] + spec_section_lines(
            sec,
        ));
        assert(spec_top_entry(k, t[0].1).len() == le);
        let rest = t.drop_first();
        let lr = spec_body(rest).len() as int;
        assert(lb == le + lr);
        assert forall|m: int| 0 <= m < lb implies s[i + m] == d[m] by {
            assert(s.subrange(i, to)[m] == s[i + m]);
        }
        assert forall|m: int| 0 <= m < le implies s[i + m] == (seq!['['] + k + seq![']', '\n']
            + spec_section_lines(sec))[m] by {
            assert(d[m] == (seq!['['] + k + seq![']', '\n'] + spec_section_lines(sec))[m]);
        }
        assert(s[i] == '[') by {
            assert(s[i + 0] == (seq!['['] + k + seq![']', '\n'] + spec_section_lines(sec))[0]);
        }
        assert(s.subrange(i + 1, i + 1 + lk) =~= k) by {
            assert forall|m: int| 0 <= m < lk implies s[i + 1 + m] == k[m] by {
                assert(s[i + (1 + m)] == (seq!['['] + k + seq![']', '\n'] + spec_section_lines(
                    sec,
                ))[1 + m]);
            }
        }
        assert(s[i + 1 + lk] == ']') by {
            assert(s[i + (1 + lk)] == (seq!['['] + k + seq![']', '\n'] + spec_section_lines(
                sec,
            ))[1 + lk]);
        }
        assert(s[i + 1 + lk + 1] == '\n') by {
            assert(s[i + (2 + lk)] == (seq!['['] + k + seq![']', '\n'] + spec_section_lines(
                sec,
            ))[2 + lk]);
        }
        assert(spec_pairs_wf(t));
        assert(spec_key_wf(k));
        assert(!spec_is_bare_key_char(']'));
        lemma_parse_key_complete(s, i + 1, k);
        let si = i + lk + 3;
        assert(s.subrange(si, si + ls) =~= spec_section_lines(sec)) by {
            assert forall|m: int| 0 <= m < ls implies s[si + m] == spec_section_lines(sec)[m] by {
                assert(s[si + m] == (seq!['['] + k + seq![']', '\n'] + spec_section_lines(
                    sec,
                ))[lk + 3 + m]);
            }
        }
        assert(spec_value_wf(t[0].1));
        assert(spec_pairs_wf(sec));
        let i2 = si + ls;
        if rest.len() == 0 {
            assert(spec_body(rest) =~= Seq::<char>::empty());
            assert(i2 == to);
        } else {
            lemma_body_front(rest);
            assert(rest[0] == t[1]);
            assert(rest[0].1 is Table);
            assert(spec_top_entry(rest[0].0, rest[0].1)[0] == '[');
            assert(s[i2] == d[le]);
            assert(d[le] == spec_body(rest)[0]);
            assert(spec_body(rest)[0] == spec_top_entry(rest[0].0, rest[0].1)[0]);
            assert(s[i2] == '[');
        }
        lemma_parse_section_lines_complete(s, si, to, sec, (f - 1) as nat);
        assert(s.subrange(i2, to) =~= spec_body(rest)) by {
            assert forall|m: int| 0 <= m < lr implies s[i2 + m] == spec_body(rest)[m] by {
                assert(d[le + m] == spec_body(rest)[m]);
            }
        }
        assert forall|m: int| 0 <= m < rest.len() implies (#[trigger] rest[m]).1 is Table by {
            assert(rest[m] == t[m + 1]);
        }
        lemma_parse_body_complete(s, i2, to, rest, (f - 1) as nat);
        assert(seq![(k, SpecValue::Table(sec))] + rest =~= t);
        assert((k, SpecValue::Table(sec)) == t[0]);
    }
}

/// Round trip of the on-disk form: the serialization of a schema-valid,
/// well-formed header table and any content is accepted by the parser, as
/// exactly that table and content — as long as the written closing delimiter
/// is the first delimiter line of the text (no body line spells one out).
pub proof fn lemma_entry_round_trip(t: Seq<(Seq<char>, SpecValue)>, c: Seq<char>)
    requires
        spec_schema_ok(t),
        spec_value_wf(SpecValue::Table(t)),
        spec_find_delim(spec_entry_text(t, c), 4) == Some(4 + spec_body(t).len() as int),
    ensures
        spec_entry_accepted(spec_entry_text(t, c)) == Some((t, c)),
{
    let s = spec_entry_text(t, c);
    let b = spec_body(t);
    let p = 4 + b.len() as int;
    reveal_strlit("---\n");
    assert("---\n"@.len() == 4);
    assert(s.len() == 8 + b.len() + c.len());
    assert(s[0] == '-' && s[1] == '-' && s[2] == '-' && s[3] == '\n') by {
        assert(s[0] == "---\n"@[0]);
        assert(s[1] == "---\n"@[1]);
        assert(s[2] == "---\n"@[2]);
        assert(s[3] == "---\n"@[3]);
    }
    assert(s.subrange(4, p) =~= b) by {
        assert forall|m: int| 0 <= m < b.len() implies s[4 + m] == b[m] by {
            assert(s[4 + m] == ("---\n"@ + b)[4 + m]);
        }
    }
    lemma_parse_body_complete(s, 4, p, t, (s.len() + 1) as nat);
    assert(s.skip(p + 4) =~= c);
}

/// A nonempty body text ends with a newline.
pub proof fn lemma_body_ends_newline(t: Seq<(Seq<char>, SpecValue)>)
    requires
        t.len() >= 1,
    ensures
        spec_body(t).len() >= 1,
        spec_body(t).last() == '\n',
    decreases t.len(),
{
    let e = spec_top_entry(t.last().0, t.last().1);
    assert(spec_body(t) == spec_body(t.drop_last()) + e);
    match t.last().1 {
        SpecValue::Table(sec) => {
            if sec.len() == 0 {
                assert(spec_section_lines(sec) =~= Seq::<char>::empty());
                assert(e =~= seq!['['] + t.last().0 + seq![']', '\n']);
                assert(e.last() == '\n');
            } else {
                assert(spec_section_lines(sec).last() == '\n');
                assert(spec_section_lines(sec).len() >= 1);
                assert(e.last() == '\n');
            }
        },
        _ => {
            assert(e.last() == '\n');
        },
    }
    assert(e.len() >= 1);
    assert(spec_body(t).last() == e.last());
}

/// Scanning for the first delimiter line passes over every position that is
/// not one and stops at the first that is.
pub proof fn lemma_find_delim_scan(s: Seq<char>, q: int, p: int)
    requires
        4 <= q <= p,
        spec_delim_at(s, p),
        forall|m: int| q <= m < p ==> !spec_delim_at(s, m),
    ensures
        spec_find_delim(s, q) == Some(p),
    decreases p - q,
{
    if q < p {
        lemma_find_delim_scan(s, q + 1, p);
    }
}

/// Round trip of the on-disk form for dash-free bodies: when no `-` occurs
/// in the serialized header body at all, the written closing delimiter is
/// necessarily the first delimiter line, and the text parses back to its
/// table and content.  The default header's body is such a body.
pub proof fn lemma_entry_round_trip_dash_free(t: Seq<(Seq<char>, SpecValue)>, c: Seq<char>)
    requires
        spec_schema_ok(t),
        spec_value_wf(SpecValue::Table(t)),
        forall|m: int| 0 <= m < spec_body(t).len() ==> spec_body(t)[m] != '-',
    ensures
        spec_entry_accepted(spec_entry_text(t, c)) == Some((t, c)),
{
    let s = spec_entry_text(t, c);
    let b = spec_body(t);
    let p = 4 + b.len() as int;
    reveal_strlit("---\n");
    assert("---\n"@.len() == 4);
    assert(s.len() == 8 + b.len() + c.len());
    assert(spec_delim_at(s, p)) by {
        if b.len() == 0 {
            assert(s[p - 1] == "---\n"@[3]);
        } else {
            lemma_body_ends_newline(t);
            assert(s[p - 1] == ("---\n"@ + b)[p - 1]);
            assert(("---\n"@ + b)[p - 1] == b.last());
        }
        assert(s[p + 0] == ("---\n"@ + b + "---\n"@)[p + 0]);
        assert(s[p + 1] == ("---\n"@ + b + "---\n"@)[p + 1]);
        assert(s[p + 2] == ("---\n"@ + b + "---\n"@)[p + 2]);
        assert(s[p + 3] == ("---\n"@ + b + "---\n"@)[p + 3]);
    }
    assert forall|m: int| 4 <= m < p implies !spec_delim_at(s, m) by {
        assert(s[m] == ("---\n"@ + b)[m]);
        assert(("---\n"@ + b)[m] == b[m - 4]);
        assert(b[m - 4] != '-');
    }
    lemma_find_delim_scan(s, 4, p);
    lemma_entry_round_trip(t, c);
}

} // verus!
