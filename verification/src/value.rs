//! The structured value tree used for entry headers.
//!
//! A header is a tree of [`Value`]s: tables (ordered key/value lists), arrays,
//! strings, integers and booleans.  The tree is strictly owned
//! top-down; there are no cycles.  [`SpecValue`] is the mathematical model of
//! such a tree, used by every contract in this crate.

use vstd::prelude::*;

verus! {

/// Mathematical model of a structured value tree.
///
/// Tables are ordered sequences of key/value pairs; keys are character
/// sequences.
#[verifier::ext_equal]
pub enum SpecValue {
    Table(Seq<(Seq<char>, SpecValue)>),
    Array(Seq<SpecValue>),
    Str(Seq<char>),
    Int(i64),
    Bool(bool),
}

/// An ordered mapping from string keys to values, as used for tables.
pub type Table = Vec<(String, Value)>;

/// A structured header value: a table, an array, or a scalar.
#[derive(Debug, PartialEq)]
pub enum Value {
    Table(Table),
    Array(Vec<Value>),
    Str(String),
    Int(i64),
    Bool(bool),
}

/// The mathematical value of a table's entry sequence.
pub open spec fn spec_table_view(s: Seq<(String, Value)>) -> Seq<(Seq<char>, SpecValue)>
    decreases s,
{
    if s.len() == 0 {
        Seq::empty()
    } else {
        seq![(s[0].0@, s[0].1.view())] + spec_table_view(s.subrange(1, s.len() as int))
    }
}

/// The mathematical value of an array's element sequence.
pub open spec fn spec_array_view(s: Seq<Value>) -> Seq<SpecValue>
    decreases s,
{
    if s.len() == 0 {
        Seq::empty()
    } else {
        seq![s[0].view()] + spec_array_view(s.subrange(1, s.len() as int))
    }
}

impl Value {
    /// The mathematical value of this tree.
    pub open spec fn view(self) -> SpecValue
        decreases self,
    {
        match self {
            Value::Table(entries) => SpecValue::Table(spec_table_view(entries@)),
            Value::Array(items) => SpecValue::Array(spec_array_view(items@)),
            Value::Str(s) => SpecValue::Str(s@),
            Value::Int(n) => SpecValue::Int(n),
            Value::Bool(b) => SpecValue::Bool(b),
        }
    }
}

impl View for Value {
    type V = SpecValue;

    open spec fn view(&self) -> SpecValue {
        Value::view(*self)
    }
}

/// A table view has one entry per table entry.
pub broadcast proof fn lemma_table_view_len(s: Seq<(String, Value)>)
    ensures
        (#[trigger] spec_table_view(s)).len() == s.len(),
    decreases s,
{
    if s.len() > 0 {
        lemma_table_view_len(s.subrange(1, s.len() as int));
    }
}

/// Each entry of a table view is the view of the table entry at the same
/// position.
pub broadcast proof fn lemma_table_view_index(s: Seq<(String, Value)>, i: int)
    requires
        0 <= i < s.len(),
    ensures
        (#[trigger] spec_table_view(s)[i]) == (s[i].0@, s[i].1@),
    decreases s,
{
    lemma_table_view_len(s);
    if i > 0 {
        lemma_table_view_index(s.subrange(1, s.len() as int), i - 1);
    }
}

/// An array view has one element per array element.
pub broadcast proof fn lemma_array_view_len(s: Seq<Value>)
    ensures
        (#[trigger] spec_array_view(s)).len() == s.len(),
    decreases s,
{
    if s.len() > 0 {
        lemma_array_view_len(s.subrange(1, s.len() as int));
    }
}

/// Each element of an array view is the view of the array element at the same
/// position.
pub broadcast proof fn lemma_array_view_index(s: Seq<Value>, i: int)
    requires
        0 <= i < s.len(),
    ensures
        (#[trigger] spec_array_view(s)[i]) == s[i]@,
    decreases s,
{
    lemma_array_view_len(s);
    if i > 0 {
        lemma_array_view_index(s.subrange(1, s.len() as int), i - 1);
    }
}

/// A sequence that agrees pointwise with the view of a table's entries is
/// that view.
pub proof fn lemma_table_view_eq(a: Seq<(String, Value)>, b: Seq<(Seq<char>, SpecValue)>)
    requires
        b.len() == a.len(),
        forall|i: int| 0 <= i < a.len() ==> b[i] == ((#[trigger] a[i]).0@, a[i].1@),
    ensures
        spec_table_view(a) == b,
{
    lemma_table_view_len(a);
    assert forall|i: int| 0 <= i < a.len() implies spec_table_view(a)[i] == b[i] by {
        lemma_table_view_index(a, i);
    }
    assert(spec_table_view(a) =~= b);
}

/// A sequence that agrees pointwise with the view of an array's elements is
/// that view.
pub proof fn lemma_array_view_eq(a: Seq<Value>, b: Seq<SpecValue>)
    requires
        b.len() == a.len(),
        forall|i: int| 0 <= i < a.len() ==> b[i] == (#[trigger] a[i])@,
    ensures
        spec_array_view(a) == b,
{
    lemma_array_view_len(a);
    assert forall|i: int| 0 <= i < a.len() implies spec_array_view(a)[i] == b[i] by {
        lemma_array_view_index(a, i);
    }
    assert(spec_array_view(a) =~= b);
}

/// Removing an element and inserting another at the same position replaces
/// it.
pub proof fn lemma_seq_replace<T>(s: Seq<T>, i: int, x: T)
    requires
        0 <= i < s.len(),
    ensures
        s.remove(i).insert(i, x) == s.update(i, x),
{
    assert(s.remove(i).insert(i, x) =~= s.update(i, x));
}

/// Updating a table entry updates the same position of its view.
pub proof fn lemma_table_view_update(s: Seq<(String, Value)>, i: int, p: (String, Value))
    requires
        0 <= i < s.len(),
    ensures
        spec_table_view(s.update(i, p)) == spec_table_view(s).update(i, (p.0@, p.1@)),
{
    lemma_table_view_len(s);
    assert forall|j: int| 0 <= j < s.len() implies spec_table_view(s).update(i, (p.0@, p.1@))[j]
        == ((#[trigger] s.update(i, p)[j]).0@, s.update(i, p)[j].1@) by {
        if j != i {
            lemma_table_view_index(s, j);
        }
    }
    lemma_table_view_eq(s.update(i, p), spec_table_view(s).update(i, (p.0@, p.1@)));
}

/// Appending a table entry appends its view.
pub proof fn lemma_table_view_push(s: Seq<(String, Value)>, p: (String, Value))
    ensures
        spec_table_view(s.push(p)) == spec_table_view(s).push((p.0@, p.1@)),
{
    lemma_table_view_len(s);
    assert forall|j: int| 0 <= j < s.push(p).len() implies spec_table_view(s).push(
        (p.0@, p.1@),
    )[j] == ((#[trigger] s.push(p)[j]).0@, s.push(p)[j].1@) by {
        if j < s.len() {
            lemma_table_view_index(s, j);
        }
    }
    lemma_table_view_eq(s.push(p), spec_table_view(s).push((p.0@, p.1@)));
}

/// Removing a table entry removes the same position of its view.
pub proof fn lemma_table_view_remove(s: Seq<(String, Value)>, i: int)
    requires
        0 <= i < s.len(),
    ensures
        spec_table_view(s.remove(i)) == spec_table_view(s).remove(i),
{
    lemma_table_view_len(s);
    assert forall|j: int| 0 <= j < s.remove(i).len() implies spec_table_view(s).remove(i)[j]
        == ((#[trigger] s.remove(i)[j]).0@, s.remove(i)[j].1@) by {
        if j < i {
            lemma_table_view_index(s, j);
        } else {
            lemma_table_view_index(s, j + 1);
        }
    }
    lemma_table_view_eq(s.remove(i), spec_table_view(s).remove(i));
}

/// Prepending a table entry prepends its view.
pub proof fn lemma_table_view_cons(s: Seq<(String, Value)>, p: (String, Value))
    ensures
        spec_table_view(s.insert(0, p)) == seq![(p.0@, p.1@)] + spec_table_view(s),
{
    lemma_table_view_len(s);
    assert forall|j: int| 0 <= j < s.insert(0, p).len() implies (seq![(p.0@, p.1@)]
        + spec_table_view(s))[j] == ((#[trigger] s.insert(0, p)[j]).0@, s.insert(0, p)[j].1@) by {
        if j > 0 {
            lemma_table_view_index(s, j - 1);
        }
    }
    lemma_table_view_eq(s.insert(0, p), seq![(p.0@, p.1@)] + spec_table_view(s));
}

/// Prepending an array element prepends its view.
pub proof fn lemma_array_view_cons(s: Seq<Value>, x: Value)
    ensures
        spec_array_view(s.insert(0, x)) == seq![x@] + spec_array_view(s),
{
    lemma_array_view_len(s);
    assert forall|j: int| 0 <= j < s.insert(0, x).len() implies (seq![x@] + spec_array_view(s))[j]
        == (#[trigger] s.insert(0, x)[j])@ by {
        if j > 0 {
            lemma_array_view_index(s, j - 1);
        }
    }
    lemma_array_view_eq(s.insert(0, x), seq![x@] + spec_array_view(s));
}

/// Updating an array element updates the same position of its view.
pub proof fn lemma_array_view_update(s: Seq<Value>, i: int, x: Value)
    requires
        0 <= i < s.len(),
    ensures
        spec_array_view(s.update(i, x)) == spec_array_view(s).update(i, x@),
{
    lemma_array_view_len(s);
    assert forall|j: int| 0 <= j < s.len() implies spec_array_view(s).update(i, x@)[j]
        == (#[trigger] s.update(i, x)[j])@ by {
        if j != i {
            lemma_array_view_index(s, j);
        }
    }
    lemma_array_view_eq(s.update(i, x), spec_array_view(s).update(i, x@));
}

/// Appending an array element appends its view.
pub proof fn lemma_array_view_push(s: Seq<Value>, x: Value)
    ensures
        spec_array_view(s.push(x)) == spec_array_view(s).push(x@),
{
    lemma_array_view_len(s);
    assert forall|j: int| 0 <= j < s.push(x).len() implies spec_array_view(s).push(x@)[j]
        == (#[trigger] s.push(x)[j])@ by {
        if j < s.len() {
            lemma_array_view_index(s, j);
        }
    }
    lemma_array_view_eq(s.push(x), spec_array_view(s).push(x@));
}

/// Removing an array element removes the same position of its view.
pub proof fn lemma_array_view_remove(s: Seq<Value>, i: int)
    requires
        0 <= i < s.len(),
    ensures
        spec_array_view(s.remove(i)) == spec_array_view(s).remove(i),
{
    lemma_array_view_len(s);
    assert forall|j: int| 0 <= j < s.remove(i).len() implies spec_array_view(s).remove(i)[j]
        == (#[trigger] s.remove(i)[j])@ by {
        if j < i {
            lemma_array_view_index(s, j);
        } else {
            lemma_array_view_index(s, j + 1);
        }
    }
    lemma_array_view_eq(s.remove(i), spec_array_view(s).remove(i));
}

/// A deep copy of a value tree: the copy has the same mathematical value.
#[verifier::loop_isolation(false)]
pub fn value_clone(v: &Value) -> (r: Value)
    ensures
        r@ == v@,
    decreases v,
{
    match v {
        Value::Table(entries) => {
            let mut out: Table = Vec::new();
            let mut i: usize = 0;
            while i < entries.len()
                invariant
                    0 <= i <= entries.len(),
                    out@.len() == i,
                    forall|j: int| 0 <= j < i ==> (#[trigger] out@[j]).0@ == entries@[j].0@
                        && out@[j].1@ == entries@[j].1@,
                decreases entries.len() - i,
            {
                let k = entries[i].0.clone();
                let cv = value_clone(&entries[i].1);
                out.push((k, cv));
                i = i + 1;
            }
            proof {
                lemma_table_view_len(entries@);
                assert forall|j: int| 0 <= j < out@.len() implies spec_table_view(entries@)[j]
                    == ((#[trigger] out@[j]).0@, out@[j].1@) by {
                    lemma_table_view_index(entries@, j);
                }
                lemma_table_view_eq(out@, spec_table_view(entries@));
            }
            Value::Table(out)
        },
        Value::Array(items) => {
            let mut out: Vec<Value> = Vec::new();
            let mut i: usize = 0;
            while i < items.len()
                invariant
                    0 <= i <= items.len(),
                    out@.len() == i,
                    forall|j: int| 0 <= j < i ==> (#[trigger] out@[j])@ == items@[j]@,
                decreases items.len() - i,
            {
                let cv = value_clone(&items[i]);
                out.push(cv);
                i = i + 1;
            }
            proof {
                lemma_array_view_len(items@);
                assert forall|j: int| 0 <= j < out@.len() implies spec_array_view(items@)[j]
                    == (#[trigger] out@[j])@ by {
                    lemma_array_view_index(items@, j);
                }
                lemma_array_view_eq(out@, spec_array_view(items@));
            }
            Value::Array(out)
        },
        Value::Str(s) => Value::Str(s.clone()),
        Value::Int(n) => Value::Int(*n),
        Value::Bool(b) => Value::Bool(*b),
    }
}

impl Clone for Value {
    /// The copy has the same mathematical value as the original.
    fn clone(&self) -> (r: Value)
        ensures
            r@ == self@,
    {
        value_clone(self)
    }
}

/// The position of the first entry of `t` whose key is `key`, if any.
pub open spec fn spec_table_find(t: Seq<(Seq<char>, SpecValue)>, key: Seq<char>) -> Option<int>
    decreases t.len(),
{
    if t.len() == 0 {
        None
    } else if t[0].0 == key {
        Some(0)
    } else {
        match spec_table_find(t.drop_first(), key) {
            Some(i) => Some(i + 1),
            None => None,
        }
    }
}

/// The value bound to `key` in `t`, if any (first occurrence).
pub open spec fn spec_table_get(t: Seq<(Seq<char>, SpecValue)>, key: Seq<char>) -> Option<SpecValue> {
    match spec_table_find(t, key) {
        Some(i) => Some(t[i].1),
        None => None,
    }
}

/// A found position is in bounds and carries the key searched for, and no
/// earlier entry does.
pub proof fn lemma_table_find(t: Seq<(Seq<char>, SpecValue)>, key: Seq<char>)
    ensures
        match spec_table_find(t, key) {
            Some(i) => 0 <= i < t.len() && t[i].0 == key && forall|j: int|
                0 <= j < i ==> t[j].0 != key,
            None => forall|j: int| 0 <= j < t.len() ==> t[j].0 != key,
        },
    decreases t.len(),
{
    if t.len() > 0 && t[0].0 != key {
        let rest = t.drop_first();
        lemma_table_find(rest, key);
        assert forall|j: int| 0 <= j < rest.len() implies rest[j] == t[j + 1] by {}
        match spec_table_find(rest, key) {
            Some(i) => {
                assert(spec_table_find(t, key) == Some(i + 1));
                assert(t[i + 1].0 == key);
                assert forall|j: int| 0 <= j < i + 1 implies t[j].0 != key by {
                    if j > 0 {
                        assert(rest[j - 1].0 != key);
                    }
                }
            },
            None => {
                assert forall|j: int| 0 <= j < t.len() implies t[j].0 != key by {
                    if j > 0 {
                        assert(rest[j - 1].0 != key);
                    }
                }
            },
        }
    }
}

/// Looks up `key` in `entries`, returning the position of its first
/// occurrence.
pub fn table_find(entries: &Table, key: &String) -> (r: Option<usize>)
    ensures
        match r {
            Some(i) => spec_table_find(spec_table_view(entries@), key@) == Some(i as int)
                && i < entries@.len(),
            None => spec_table_find(spec_table_view(entries@), key@) == None::<int>,
        },
{
    let ghost m = spec_table_view(entries@);
    proof {
        lemma_table_view_len(entries@);
    }
    let mut i: usize = 0;
    while i < entries.len()
        invariant
            0 <= i <= entries.len(),
            m == spec_table_view(entries@),
            m.len() == entries@.len(),
            forall|j: int| 0 <= j < i ==> #[trigger] m[j].0 != key@,
        decreases entries.len() - i,
    {
        proof {
            lemma_table_view_index(entries@, i as int);
        }
        if entries[i].0 == *key {
            proof {
                lemma_table_find(m, key@);
                assert(m[i as int].0 == key@);
            }
            return Some(i);
        }
        i = i + 1;
    }
    proof {
        lemma_table_find(m, key@);
    }
    None
}

} // verus!
