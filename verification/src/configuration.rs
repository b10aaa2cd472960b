//! Validation of the optional store configuration value.
//!
//! The configuration, when present, must be a table.  Under the eight keys
//! `pre-create-aspects` … `post-delete-aspects` it may carry arrays of aspect
//! names (strings); a `hooks` table may carry per-hook settings.

use vstd::prelude::*;

use crate::value::{
    SpecValue, Table, Value, spec_table_get, spec_table_view, table_find, lemma_table_find,
    lemma_table_view_index, lemma_array_view_len, lemma_array_view_index,
};

verus! {

/// The configuration as a mathematical value, when present.
pub open spec fn spec_opt_value_view(c: Option<Value>) -> Option<SpecValue> {
    match c {
        Some(v) => Some(v@),
        None => None,
    }
}

/// Whether the value under `key`, if any, is an array of strings.
pub open spec fn spec_aspect_key_ok(t: Seq<(Seq<char>, SpecValue)>, key: Seq<char>) -> bool {
    match spec_table_get(t, key) {
        None => true,
        Some(SpecValue::Array(a)) => forall|i: int| 0 <= i < a.len() ==> (#[trigger] a[i]) is Str,
        Some(_) => false,
    }
}

/// The aspect names configured under `key`: the strings of its array, in
/// order; none when the key is absent.
pub open spec fn spec_config_names(c: Option<SpecValue>, key: Seq<char>) -> Seq<Seq<char>> {
    match c {
        Some(SpecValue::Table(t)) => match spec_table_get(t, key) {
            Some(SpecValue::Array(a)) => Seq::new(a.len(), |i: int| a[i]->Str_0),
            _ => Seq::empty(),
        },
        _ => Seq::empty(),
    }
}

/// Whether a configuration value is acceptable: absent, or a table whose
/// aspect-name keys (when present) hold arrays of strings.
pub open spec fn spec_config_valid(c: Option<SpecValue>) -> bool {
    match c {
        None => true,
        Some(SpecValue::Table(t)) => spec_aspect_key_ok(t, "pre-create-aspects"@)
            && spec_aspect_key_ok(t, "post-create-aspects"@) && spec_aspect_key_ok(
            t,
            "pre-retrieve-aspects"@,
        ) && spec_aspect_key_ok(t, "post-retrieve-aspects"@) && spec_aspect_key_ok(
            t,
            "pre-update-aspects"@,
        ) && spec_aspect_key_ok(t, "post-update-aspects"@) && spec_aspect_key_ok(
            t,
            "pre-delete-aspects"@,
        ) && spec_aspect_key_ok(t, "post-delete-aspects"@),
        Some(_) => false,
    }
}

/// Checks one aspect-name key of a configuration table.
#[verifier::loop_isolation(false)]
fn aspect_key_ok(t: &Table, key: &String) -> (r: bool)
    ensures
        r == spec_aspect_key_ok(spec_table_view(t@), key@),
{
    let ghost m = spec_table_view(t@);
    match table_find(t, key) {
        None => true,
        Some(i) => {
            proof {
                lemma_table_view_index(t@, i as int);
            }
            match &t[i].1 {
                Value::Array(items) => {
                    proof {
                        lemma_array_view_len(items@);
                    }
                    let mut j: usize = 0;
                    while j < items.len()
                        invariant
                            0 <= j <= items@.len(),
                            forall|k: int| 0 <= k < j ==> (#[trigger] crate::value::spec_array_view(
                                items@,
                            )[k]) is Str,
                        decreases items@.len() - j,
                    {
                        proof {
                            lemma_array_view_index(items@, j as int);
                        }
                        match &items[j] {
                            Value::Str(_) => {},
                            _ => {
                                return false;
                            },
                        }
                        j = j + 1;
                    }
                    true
                },
                _ => false,
            }
        },
    }
}

/// Checks a configuration value: absent is acceptable; a present value must
/// be a table whose aspect-name keys hold arrays of strings.
pub fn config_is_valid(config: &Option<Value>) -> (r: bool)
    ensures
        r == spec_config_valid(spec_opt_value_view(*config)),
{
    match config {
        None => true,
        Some(Value::Table(t)) => {
            aspect_key_ok(t, &String::from_str("pre-create-aspects")) && aspect_key_ok(
                t,
                &String::from_str("post-create-aspects"),
            ) && aspect_key_ok(t, &String::from_str("pre-retrieve-aspects")) && aspect_key_ok(
                t,
                &String::from_str("post-retrieve-aspects"),
            ) && aspect_key_ok(t, &String::from_str("pre-update-aspects")) && aspect_key_ok(
                t,
                &String::from_str("post-update-aspects"),
            ) && aspect_key_ok(t, &String::from_str("pre-delete-aspects")) && aspect_key_ok(
                t,
                &String::from_str("post-delete-aspects"),
            )
        },
        Some(_) => false,
    }
}

/// The aspect names configured under `key`, in order.
#[verifier::loop_isolation(false)]
pub fn aspect_names(config: &Option<Value>, key: &String) -> (r: Vec<String>)
    requires
        (match spec_opt_value_view(*config) {
            Some(SpecValue::Table(t)) => spec_aspect_key_ok(t, key@),
            _ => true,
        }),
    ensures
        ({
            let names = spec_config_names(spec_opt_value_view(*config), key@);
            r@.len() == names.len() && (forall|i: int|
                0 <= i < names.len() ==> (#[trigger] r@[i])@ == names[i])
        }),
{
    let mut out: Vec<String> = Vec::new();
    match config {
        None => out,
        Some(Value::Table(t)) => {
            let ghost m = spec_table_view(t@);
            match table_find(t, key) {
                None => out,
                Some(i) => {
                    proof {
                        lemma_table_view_index(t@, i as int);
                        lemma_table_find(m, key@);
                    }
                    match &t[i].1 {
                        Value::Array(items) => {
                            proof {
                                lemma_array_view_len(items@);
                            }
                            let ghost names = spec_config_names(
                                spec_opt_value_view(*config),
                                key@,
                            );
                            let mut j: usize = 0;
                            while j < items.len()
                                invariant
                                    0 <= j <= items@.len(),
                                    out@.len() == j,
                                    names.len() == items@.len(),
                                    forall|k: int| 0 <= k < j ==> (#[trigger] out@[k])@
                                        == names[k],
                                decreases items@.len() - j,
                            {
                                proof {
                                    lemma_array_view_index(items@, j as int);
                                }
                                match &items[j] {
                                    Value::Str(s) => {
                                        out.push(s.clone());
                                    },
                                    _ => {
                                        proof {
                                            assert(false);
                                        }
                                    },
                                }
                                j = j + 1;
                            }
                            out
                        },
                        _ => out,
                    }
                },
            }
        },
        Some(_) => out,
    }
}

} // verus!
