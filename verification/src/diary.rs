//! Diary records: a timestamped identifier scheme over the store.
//!
//! A diary entry is named by its diary's name and a timestamp with
//! year/month/day/hour/minute precision; the identifier renders as
//! `<name>/<year>/<month>-<day>-<hour>:<minute>`.

use vstd::prelude::*;

use crate::codec::{spec_dec_int, spec_dec_nat};
use crate::strutil::{str_chars, string_from_chars};
use crate::value::{SpecValue, Value, lemma_table_view_index, spec_table_get, spec_table_view, table_find};

verus! {

/// Granularity of a diary: how often a new entry is started.
#[derive(Clone, Copy, Debug, PartialEq, Eq, Structural)]
pub enum DiaryType {
    Monthly,
    Daily,
    Hourly,
    Minutely,
}

impl DiaryType {
    /// The granularity named by a configuration string; anything unknown is
    /// daily.
    pub fn from_name(s: &str) -> (r: DiaryType)
        ensures
            r == spec_diary_type(s@),
    {
        let owned = s.to_owned();
        proof {
            reveal_strlit("monthly");
            reveal_strlit("hourly");
            reveal_strlit("minutely");
            assert("monthly"@.len() == 7);
            assert("hourly"@.len() == 6);
            assert("minutely"@.len() == 8);
        }
        if owned == String::from_str("monthly") {
            DiaryType::Monthly
        } else if owned == String::from_str("hourly") {
            DiaryType::Hourly
        } else if owned == String::from_str("minutely") {
            DiaryType::Minutely
        } else {
            DiaryType::Daily
        }
    }
}

/// Kind of diary error.
#[derive(Clone, Copy, Debug, PartialEq, Eq, Structural)]
pub enum DiaryErrorKind {
    StoreWriteError,
    StoreReadError,
    CannotFindDiary,
    CannotCreateNote,
    DiaryEditError,
}

/// A short description of a diary error kind.
pub fn note_error_type_as_str(e: &DiaryErrorKind) -> (r: &'static str)
{
    match e {
        DiaryErrorKind::StoreWriteError => "Error writing store",
        DiaryErrorKind::StoreReadError => "Error reading store",
        DiaryErrorKind::CannotFindDiary => "Cannot find diary",
        DiaryErrorKind::CannotCreateNote => "Cannot create Note object for diary entry",
        DiaryErrorKind::DiaryEditError => "Cannot edit diary entry",
    }
}

/// Diary error type, optionally with a cause.
#[derive(Debug)]
pub struct DiaryError {
    err_type: DiaryErrorKind,
    cause: Option<Box<DiaryError>>,
}

impl DiaryError {
    /// Build a new `DiaryError` from a `DiaryErrorKind`, optionally with
    /// cause.
    pub fn new(errtype: DiaryErrorKind, cause: Option<Box<DiaryError>>) -> (r: DiaryError)
        ensures
            r.spec_kind() == errtype,
    {
        DiaryError { err_type: errtype, cause: cause }
    }

    /// The kind of this error.
    pub closed spec fn spec_kind(&self) -> DiaryErrorKind {
        self.err_type
    }

    /// Get the error kind of this `DiaryError`.
    pub fn err_type(&self) -> (r: DiaryErrorKind)
        ensures
            r == self.spec_kind(),
    {
        self.err_type
    }
}

/// The identifier of one diary entry: diary name and timestamp.
#[derive(Debug, Clone)]
pub struct DiaryId {
    name: String,
    year: i32,
    month: u32,
    day: u32,
    hour: u32,
    minute: u32,
}

/// The textual form of a diary identifier:
/// `<name>/<year>/<month>-<day>-<hour>:<minute>`.
pub open spec fn spec_diary_id_text(
    name: Seq<char>,
    year: int,
    month: int,
    day: int,
    hour: int,
    minute: int,
) -> Seq<char> {
    name + seq!['/'] + spec_dec_int(year) + seq!['/'] + spec_dec_nat(month as nat) + seq!['-']
        + spec_dec_nat(day as nat) + seq!['-'] + spec_dec_nat(hour as nat) + seq![':']
        + spec_dec_nat(minute as nat)
}

impl DiaryId {
    /// The diary name of this identifier.
    pub closed spec fn spec_name(&self) -> Seq<char> {
        self.name@
    }

    /// The timestamp fields: year, month, day, hour, minute.
    pub closed spec fn spec_fields(&self) -> (int, int, int, int, int) {
        (self.year as int, self.month as int, self.day as int, self.hour as int, self.minute
            as int)
    }

    /// The textual form of this identifier.
    pub open spec fn spec_text(&self) -> Seq<char> {
        spec_diary_id_text(
            self.spec_name(),
            self.spec_fields().0,
            self.spec_fields().1,
            self.spec_fields().2,
            self.spec_fields().3,
            self.spec_fields().4,
        )
    }

    /// Builds an identifier from its parts.
    pub fn new(name: String, y: i32, m: u32, d: u32, h: u32, min: u32) -> (r: DiaryId)
        ensures
            r.spec_name() == name@,
            r.spec_fields() == (y as int, m as int, d as int, h as int, min as int),
    {
        DiaryId { name: name, year: y, month: m, day: d, hour: h, minute: min }
    }

    /// The diary name.
    pub fn diary_name(&self) -> (r: &String)
        ensures
            r@ == self.spec_name(),
    {
        &self.name
    }

    /// The year.
    pub fn year(&self) -> (r: i32)
        ensures
            r as int == self.spec_fields().0,
    {
        self.year
    }

    /// The month.
    pub fn month(&self) -> (r: u32)
        ensures
            r as int == self.spec_fields().1,
    {
        self.month
    }

    /// The day.
    pub fn day(&self) -> (r: u32)
        ensures
            r as int == self.spec_fields().2,
    {
        self.day
    }

    /// The hour.
    pub fn hour(&self) -> (r: u32)
        ensures
            r as int == self.spec_fields().3,
    {
        self.hour
    }

    /// The minute.
    pub fn minute(&self) -> (r: u32)
        ensures
            r as int == self.spec_fields().4,
    {
        self.minute
    }

    /// Renders this identifier as
    /// `<name>/<year>/<month>-<day>-<hour>:<minute>`.
    pub fn to_text(&self) -> (r: String)
        ensures
            r@ == self.spec_text(),
    {
        let mut out = str_chars(self.name.as_str());
        out.push('/');
        push_dec_i32(&mut out, self.year);
        out.push('/');
        push_dec_u32(&mut out, self.month);
        out.push('-');
        push_dec_u32(&mut out, self.day);
        out.push('-');
        push_dec_u32(&mut out, self.hour);
        out.push(':');
        push_dec_u32(&mut out, self.minute);
        proof {
            assert(out@ =~= self.spec_text());
        }
        string_from_chars(&out)
    }

    /// Parses an identifier of the form
    /// `<name>/<year>/<month>-<day>-<hour>:<minute>`.  The result is pinned
    /// for every input: a buffer is accepted exactly when it parses and is
    /// the rendering of what it parses as, so an accepted buffer renders back
    /// to itself.
    #[verifier::loop_isolation(false)]
    pub fn parse(buffer: &str) -> (r: Option<DiaryId>)
        ensures
            ({
                match spec_diary_id_accepted(buffer@) {
                    Some(f) => r matches Some(d) && d.spec_name() == f.0 && d.spec_fields() == (
                        f.1 as int,
                        f.2 as int,
                        f.3 as int,
                        f.4 as int,
                        f.5 as int,
                    ),
                    None => r is None,
                }
            }),
            r matches Some(d) ==> d.spec_text() == buffer@,
    {
        let chars = str_chars(buffer);
        let n = chars.len();
        // the name runs to the first slash
        let mut i: usize = 0;
        while i < n && chars[i] != '/'
            invariant
                0 <= i <= n,
                n == chars@.len(),
                spec_find_char(buffer@, 0, '/') == spec_find_char(buffer@, i as int, '/'),
            decreases n - i,
        {
            i = i + 1;
        }
        if i >= n {
            return None;
        }
        let name_chars = crate::strutil::subvec_chars(&chars, 0, i);
        let name = string_from_chars(&name_chars);
        let (year, j1) = match parse_dec_i32(&chars, i + 1) {
            Some(p) => p,
            None => {
                return None;
            },
        };
        if !(j1 < n && chars[j1] == '/') {
            return None;
        }
        let (month, j2) = match parse_dec_u32(&chars, j1 + 1) {
            Some(p) => p,
            None => {
                return None;
            },
        };
        if !(j2 < n && chars[j2] == '-') {
            return None;
        }
        let (day, j3) = match parse_dec_u32(&chars, j2 + 1) {
            Some(p) => p,
            None => {
                return None;
            },
        };
        if !(j3 < n && chars[j3] == '-') {
            return None;
        }
        let (hour, j4) = match parse_dec_u32(&chars, j3 + 1) {
            Some(p) => p,
            None => {
                return None;
            },
        };
        if !(j4 < n && chars[j4] == ':') {
            return None;
        }
        let (minute, j5) = match parse_dec_u32(&chars, j4 + 1) {
            Some(p) => p,
            None => {
                return None;
            },
        };
        if j5 != n {
            return None;
        }
        let d = DiaryId {
            name: name,
            year: year,
            month: month,
            day: day,
            hour: hour,
            minute: minute,
        };
        // accept only what renders back to the input
        let rendered = d.to_text();
        let rc = str_chars(rendered.as_str());
        if crate::codec::chars_eq(&rc, &chars) {
            Some(d)
        } else {
            None
        }
    }
}

/// Appends the decimal form of a signed number.
fn push_dec_i32(out: &mut Vec<char>, n: i32)
    ensures
        final(out)@ == old(out)@ + spec_dec_int(n as int),
{
    if n < 0 {
        out.push('-');
        let mag: u64 = (-(n as i64)) as u64;
        crate::codec::push_dec_u64_public(out, mag);
        proof {
            assert(final(out)@ =~= old(out)@ + spec_dec_int(n as int));
        }
    } else {
        crate::codec::push_dec_u64_public(out, n as u64);
    }
}

/// Appends the decimal form of an unsigned number.
fn push_dec_u32(out: &mut Vec<char>, n: u32)
    ensures
        final(out)@ == old(out)@ + spec_dec_nat(n as nat),
{
    crate::codec::push_dec_u64_public(out, n as u64);
}


/// The granularity a configuration string names: `monthly`, `hourly` and
/// `minutely` by name, anything else daily.
pub open spec fn spec_diary_type(s: Seq<char>) -> DiaryType {
    if s == "monthly"@ {
        DiaryType::Monthly
    } else if s == "hourly"@ {
        DiaryType::Hourly
    } else if s == "minutely"@ {
        DiaryType::Minutely
    } else {
        DiaryType::Daily
    }
}

/// The diary name and type of one entry of the `diary.diaries` array: a table
/// carrying string `name` and `type` keys.
pub open spec fn spec_diary_pair(v: SpecValue) -> Option<(Seq<char>, DiaryType)> {
    match v {
        SpecValue::Table(t) => match spec_table_get(t, "name"@) {
            Some(SpecValue::Str(n)) => match spec_table_get(t, "type"@) {
                Some(SpecValue::Str(ty)) => Some((n, spec_diary_type(ty))),
                _ => None,
            },
            _ => None,
        },
        _ => None,
    }
}

/// The diary names and types of a `diary.diaries` array, in order; entries
/// without the expected shape are passed over.
pub open spec fn spec_diary_types(a: Seq<SpecValue>) -> Seq<(Seq<char>, DiaryType)>
    decreases a.len(),
{
    if a.len() == 0 {
        Seq::empty()
    } else {
        let rest = spec_diary_types(a.drop_last());
        match spec_diary_pair(a.last()) {
            Some(p) => rest.push(p),
            None => rest,
        }
    }
}

/// The configured type of the named diary: looked up under `diary.diaries`,
/// falling back to daily entries wherever the configuration does not answer.
pub open spec fn spec_diary_type_for(c: Option<SpecValue>, name: Seq<char>) -> DiaryType {
    match c {
        Some(SpecValue::Table(t)) => match spec_table_get(t, "diary"@) {
            Some(SpecValue::Table(dt)) => match spec_table_get(dt, "diaries"@) {
                Some(SpecValue::Array(a)) => {
                    let pairs = spec_diary_types(a);
                    match crate::store::spec_assoc_find(pairs, name) {
                        Some(i) => pairs[i].1,
                        None => DiaryType::Daily,
                    }
                },
                _ => DiaryType::Daily,
            },
            _ => DiaryType::Daily,
        },
        _ => DiaryType::Daily,
    }
}

/// The configured default diary name, under `diary.default`.
pub open spec fn spec_default_diary_name(c: Option<SpecValue>) -> Option<Seq<char>> {
    match c {
        Some(SpecValue::Table(t)) => match spec_table_get(t, "diary"@) {
            Some(SpecValue::Table(dt)) => match spec_table_get(dt, "default"@) {
                Some(SpecValue::Str(s)) => Some(s),
                _ => None,
            },
            _ => None,
        },
        _ => None,
    }
}

/// Reads the diary name and type out of one `diary.diaries` entry: a table
/// with string `name` and `type` keys.
pub fn get_diary_name_and_type_from_tab(v: &Value) -> (r: Option<(String, DiaryType)>)
    ensures
        match r {
            Some(p) => spec_diary_pair(v@) == Some((p.0@, p.1)),
            None => spec_diary_pair(v@) is None,
        },
{
    match v {
        Value::Table(t) => {
            let ghost m = spec_table_view(t@);
            match table_find(t, &String::from_str("name")) {
                Some(i) => {
                    proof {
                        lemma_table_view_index(t@, i as int);
                    }
                    match &t[i].1 {
                        Value::Str(name) => {
                            match table_find(t, &String::from_str("type")) {
                                Some(j) => {
                                    proof {
                                        lemma_table_view_index(t@, j as int);
                                    }
                                    match &t[j].1 {
                                        Value::Str(dtype) => Some(
                                            (name.clone(), DiaryType::from_name(dtype.as_str())),
                                        ),
                                        _ => None,
                                    }
                                },
                                None => None,
                            }
                        },
                        _ => None,
                    }
                },
                None => None,
            }
        },
        _ => None,
    }
}

/// Reads the `diary.diaries` array: the diary names and types, in order; any
/// entry without the expected shape is passed over.  A value that is not an
/// array yields nothing.
#[verifier::loop_isolation(false)]
pub fn get_diary_types(v: &Value) -> (r: Option<Vec<(String, DiaryType)>>)
    ensures
        match v@ {
            SpecValue::Array(a) => r matches Some(list) && ({
                let pairs = spec_diary_types(a);
                list@.len() == pairs.len() && (forall|k: int|
                    0 <= k < pairs.len() ==> ((#[trigger] list@[k]).0@, list@[k].1) == pairs[k])
            }),
            _ => r is None,
        },
{
    match v {
        Value::Array(items) => {
            proof {
                crate::value::lemma_array_view_len(items@);
            }
            let mut out: Vec<(String, DiaryType)> = Vec::new();
            let mut i: usize = 0;
            while i < items.len()
                invariant
                    0 <= i <= items@.len(),
                    ({
                        let pairs = spec_diary_types(
                            crate::value::spec_array_view(items@).subrange(0, i as int),
                        );
                        out@.len() == pairs.len() && (forall|k: int|
                            0 <= k < pairs.len() ==> ((#[trigger] out@[k]).0@, out@[k].1)
                                == pairs[k])
                    }),
                decreases items@.len() - i,
            {
                proof {
                    crate::value::lemma_array_view_index(items@, i as int);
                    let view = crate::value::spec_array_view(items@);
                    assert(view.subrange(0, i as int + 1).drop_last() =~= view.subrange(
                        0,
                        i as int,
                    ));
                    assert(view.subrange(0, i as int + 1).last() == view[i as int]);
                }
                match get_diary_name_and_type_from_tab(&items[i]) {
                    Some(p) => {
                        out.push(p);
                    },
                    None => {},
                }
                i = i + 1;
            }
            proof {
                let view = crate::value::spec_array_view(items@);
                assert(view.subrange(0, items@.len() as int) =~= view);
            }
            Some(out)
        },
        _ => None,
    }
}

/// The configured type of the named diary.  The configuration must carry a
/// `diary` table with a `diaries` array whose entries name diaries and their
/// types; wherever it does not answer, the fallback is daily entries.
#[verifier::loop_isolation(false)]
pub fn get_diary_type(config: Option<&Value>, diaryname: &String) -> (r: DiaryType)
    ensures
        r == spec_diary_type_for(
            match config {
                Some(v) => Some(v@),
                None => None,
            },
            diaryname@,
        ),
{
    let c = match config {
        Some(c) => c,
        None => {
            return DiaryType::Daily;
        },
    };
    let dt = match c {
        Value::Table(t) => {
            match table_find(t, &String::from_str("diary")) {
                Some(i) => {
                    proof {
                        lemma_table_view_index(t@, i as int);
                    }
                    &t[i].1
                },
                None => {
                    return DiaryType::Daily;
                },
            }
        },
        _ => {
            return DiaryType::Daily;
        },
    };
    let diaries = match dt {
        Value::Table(dtab) => {
            match table_find(dtab, &String::from_str("diaries")) {
                Some(j) => {
                    proof {
                        lemma_table_view_index(dtab@, j as int);
                    }
                    &dtab[j].1
                },
                None => {
                    return DiaryType::Daily;
                },
            }
        },
        _ => {
            return DiaryType::Daily;
        },
    };
    let list = match get_diary_types(diaries) {
        Some(list) => list,
        None => {
            return DiaryType::Daily;
        },
    };
    let ghost pairs = spec_diary_types(diaries@->Array_0);
    let mut k: usize = 0;
    while k < list.len()
        invariant
            0 <= k <= list@.len(),
            list@.len() == pairs.len(),
            forall|j: int| 0 <= j < pairs.len() ==> ((#[trigger] list@[j]).0@, list@[j].1)
                == pairs[j],
            forall|j: int| 0 <= j < k ==> (#[trigger] pairs[j]).0 != diaryname@,
        decreases list@.len() - k,
    {
        if list[k].0 == *diaryname {
            proof {
                crate::store::lemma_assoc_find(pairs, diaryname@);
            }
            return list[k].1;
        }
        k = k + 1;
    }
    proof {
        crate::store::lemma_assoc_find(pairs, diaryname@);
    }
    DiaryType::Daily
}

/// The configured default diary name, under `diary.default`.
pub fn get_default_diary_name(config: Option<&Value>) -> (r: Option<String>)
    ensures
        ({
            let c = match config {
                Some(v) => Some(v@),
                None => None,
            };
            match r {
                Some(s) => spec_default_diary_name(c) == Some(s@),
                None => spec_default_diary_name(c) is None,
            }
        }),
{
    let c = match config {
        Some(c) => c,
        None => {
            return None;
        },
    };
    match c {
        Value::Table(t) => {
            match table_find(t, &String::from_str("diary")) {
                Some(i) => {
                    proof {
                        lemma_table_view_index(t@, i as int);
                    }
                    match &t[i].1 {
                        Value::Table(dtab) => {
                            match table_find(dtab, &String::from_str("default")) {
                                Some(j) => {
                                    proof {
                                        lemma_table_view_index(dtab@, j as int);
                                    }
                                    match &dtab[j].1 {
                                        Value::Str(s) => Some(s.clone()),
                                        _ => None,
                                    }
                                },
                                None => None,
                            }
                        },
                        _ => None,
                    }
                },
                None => None,
            }
        },
        _ => None,
    }
}

/// The first position at or after `i` holding `c`, if any.
pub open spec fn spec_find_char(s: Seq<char>, i: int, c: char) -> Option<int>
    decreases s.len() - i,
{
    if i < 0 || i >= s.len() {
        None
    } else if s[i] == c {
        Some(i)
    } else {
        spec_find_char(s, i + 1, c)
    }
}

/// Scans decimal digits at `i`, accumulating onto `acc` and refusing any
/// value above `cap`: the value and the position after the digits.
pub open spec fn spec_scan_digits(s: Seq<char>, i: int, acc: int, cap: int) -> Option<(int, int)>
    decreases s.len() - i,
{
    if 0 <= i < s.len() && crate::header::spec_is_digit(s[i]) {
        let a2 = acc * 10 + (s[i] as int - '0' as int);
        if a2 > cap {
            None
        } else {
            spec_scan_digits(s, i + 1, a2, cap)
        }
    } else {
        Some((acc, i))
    }
}

/// Parses a decimal number that fits a `u32` at `i`: the value and the
/// position after it; nothing without a digit.
pub open spec fn spec_parse_u32(s: Seq<char>, i: int) -> Option<(u32, int)> {
    match spec_scan_digits(s, i, 0, u32::MAX as int) {
        None => None,
        Some((v, j)) => if j == i {
            None
        } else {
            Some((v as u32, j))
        },
    }
}

/// Parses an optionally signed decimal number that fits an `i32` at `i`.
pub open spec fn spec_parse_i32(s: Seq<char>, i: int) -> Option<(i32, int)> {
    let neg = 0 <= i < s.len() && s[i] == '-';
    let d0 = if neg {
        i + 1
    } else {
        i
    };
    match spec_scan_digits(s, d0, 0, 0x8000_0000) {
        None => None,
        Some((v, j)) => if j == d0 {
            None
        } else if neg {
            if -v < i32::MIN as int {
                None
            } else {
                Some(((-v) as i32, j))
            }
        } else {
            if v > i32::MAX as int {
                None
            } else {
                Some((v as i32, j))
            }
        },
    }
}

/// What a buffer is parsed as: a name up to the first slash, then
/// slash-, dash- and colon-separated timestamp fields filling the buffer.
pub open spec fn spec_diary_id_parsed(s: Seq<char>) -> Option<
    (Seq<char>, i32, u32, u32, u32, u32),
> {
    match spec_find_char(s, 0, '/') {
        None => None,
        Some(i) => {
            let name = s.subrange(0, i);
            match spec_parse_i32(s, i + 1) {
                None => None,
                Some((y, j1)) => if !(j1 < s.len() && s[j1] == '/') {
                    None
                } else {
                    match spec_parse_u32(s, j1 + 1) {
                        None => None,
                        Some((m, j2)) => if !(j2 < s.len() && s[j2] == '-') {
                            None
                        } else {
                            match spec_parse_u32(s, j2 + 1) {
                                None => None,
                                Some((d, j3)) => if !(j3 < s.len() && s[j3] == '-') {
                                    None
                                } else {
                                    match spec_parse_u32(s, j3 + 1) {
                                        None => None,
                                        Some((h, j4)) => if !(j4 < s.len() && s[j4] == ':') {
                                            None
                                        } else {
                                            match spec_parse_u32(s, j4 + 1) {
                                                None => None,
                                                Some((min, j5)) => if j5 != s.len() {
                                                    None
                                                } else {
                                                    Some((name, y, m, d, h, min))
                                                },
                                            }
                                        },
                                    }
                                },
                            }
                        },
                    }
                },
            }
        },
    }
}

/// What a buffer is accepted as: it must parse as a diary identifier and be
/// exactly that identifier's rendering — so an accepted buffer always renders
/// back to itself.
pub open spec fn spec_diary_id_accepted(s: Seq<char>) -> Option<
    (Seq<char>, i32, u32, u32, u32, u32),
> {
    match spec_diary_id_parsed(s) {
        None => None,
        Some(f) => if spec_diary_id_text(f.0, f.1 as int, f.2 as int, f.3 as int, f.4 as int, f.5 as int)
            == s {
            Some(f)
        } else {
            None
        },
    }
}

/// Scans decimal digits starting at `pos`, accumulating onto `acc` and
/// refusing any value above `cap`.
fn scan_digits(chars: &Vec<char>, pos: usize, acc: u64, cap: u64) -> (r: Option<(u64, usize)>)
    requires
        pos <= chars@.len(),
        acc <= cap,
        cap <= 0xFFFF_FFFFu64,
    ensures
        match r {
            Some(p) => spec_scan_digits(chars@, pos as int, acc as int, cap as int) == Some(
                (p.0 as int, p.1 as int),
            ) && pos <= p.1 <= chars@.len() && p.0 <= cap,
            None => spec_scan_digits(chars@, pos as int, acc as int, cap as int) is None,
        },
    decreases chars@.len() - pos,
{
    if pos < chars.len() && '0' <= chars[pos] && chars[pos] <= '9' {
        let d: u64 = (chars[pos] as u32 - '0' as u32) as u64;
        let a2: u64 = acc * 10 + d;
        if a2 > cap {
            None
        } else {
            scan_digits(chars, pos + 1, a2, cap)
        }
    } else {
        Some((acc, pos))
    }
}

/// Parses an optionally signed decimal number that fits an `i32`.
fn parse_dec_i32(chars: &Vec<char>, pos: usize) -> (r: Option<(i32, usize)>)
    requires
        pos <= chars@.len(),
    ensures
        match r {
            Some(p) => spec_parse_i32(chars@, pos as int) == Some((p.0, p.1 as int)) && pos < p.1
                <= chars@.len(),
            None => spec_parse_i32(chars@, pos as int) is None,
        },
{
    let n = chars.len();
    let mut j = pos;
    let mut neg = false;
    if j < n && chars[j] == '-' {
        neg = true;
        j = j + 1;
    }
    let digits_start = j;
    let (acc, j) = match scan_digits(chars, digits_start, 0, 0x8000_0000u64) {
        Some(p) => p,
        None => {
            return None;
        },
    };
    if j == digits_start {
        return None;
    }
    if neg {
        let v: i64 = -(acc as i64);
        if v < i32::MIN as i64 {
            return None;
        }
        Some((v as i32, j))
    } else {
        if acc > i32::MAX as u64 {
            return None;
        }
        Some((acc as i32, j))
    }
}

/// Parses a decimal number that fits a `u32`.
fn parse_dec_u32(chars: &Vec<char>, pos: usize) -> (r: Option<(u32, usize)>)
    requires
        pos <= chars@.len(),
    ensures
        match r {
            Some(p) => spec_parse_u32(chars@, pos as int) == Some((p.0, p.1 as int)) && pos < p.1
                <= chars@.len(),
            None => spec_parse_u32(chars@, pos as int) is None,
        },
{
    let (acc, j) = match scan_digits(chars, pos, 0, u32::MAX as u64) {
        Some(p) => p,
        None => {
            return None;
        },
    };
    if j == pos {
        return None;
    }
    Some((acc as u32, j))
}

} // verus!