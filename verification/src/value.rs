//! The typed value of a YAML document.

use crate::text::str_eq;
use crate::float_key::{float_eq, same_float};
use vstd::prelude::*;

verus! {

/// A composed YAML value.
#[derive(Debug, PartialEq, Eq, Hash)]
pub enum Value {
    /// Null (`null`, `~`, or an empty node).
    Null,
    /// Boolean.
    Bool(bool),
    /// Integer that fits in 64 signed bits.
    Int(i64),
    /// Floating-point number, kept as its source spelling.
    Float(String),
    /// String.
    String(String),
    /// Sequence of values, in order.
    Sequence(Vec<Value>),
    /// Mapping as key/value pairs in insertion order; keys are distinct.
    Mapping(Vec<(Value, Value)>),
}

/// Whether `k` is a string key spelled `key`.
pub open spec fn is_str_key(k: Value, key: Seq<char>) -> bool {
    match k {
        Value::String(s) => s@ == key,
        _ => false,
    }
}

/// The value of the first entry whose key is the string `key`.
pub open spec fn lookup_str(entries: Seq<(Value, Value)>, key: Seq<char>) -> Option<Value>
    decreases entries.len(),
{
    if entries.len() == 0 {
        None
    } else if is_str_key(entries[0].0, key) {
        Some(entries[0].1)
    } else {
        lookup_str(entries.drop_first(), key)
    }
}

impl Value {
    /// For a mapping, the value stored under the string key `key` (the
    /// first entry whose key is that string); `None` when there is no such
    /// entry or this is not a mapping.
    pub fn get_str(&self, key: &str) -> (r: Option<&Value>)
        ensures
            self is Mapping ==> match r {
                Some(v) => lookup_str(self->Mapping_0@, key@) == Some(*v),
                None => lookup_str(self->Mapping_0@, key@) is None,
            },
            !(self is Mapping) ==> r is None,
    {
        match self {
            Value::Mapping(entries) => {
                let mut i: usize = 0;
                proof {
                    assert(entries@.subrange(0, entries@.len() as int) =~= entries@);
                }
                while i < entries.len()
                    invariant
                        self is Mapping,
                        self->Mapping_0@ == entries@,
                        i <= entries@.len(),
                        lookup_str(entries@, key@) == lookup_str(
                            entries@.subrange(i as int, entries@.len() as int),
                            key@,
                        ),
                    decreases entries@.len() - i,
                {
                    let found = match &entries[i].0 {
                        Value::String(s) => str_eq(s.as_str(), key),
                        _ => false,
                    };
                    proof {
                        let rest = entries@.subrange(i as int, entries@.len() as int);
                        assert(rest[0] == entries@[i as int]);
                        assert(rest.drop_first() =~= entries@.subrange(i + 1, entries@.len() as int));
                    }
                    if found {
                        return Some(&entries[i].1);
                    }
                    i = i + 1;
                }
                None
            },
            _ => None,
        }
    }
}

/// Two values are the same: same variant, same scalar text or number,
/// and the same items and entries in the same order.
pub open spec fn same_value(a: Value, b: Value) -> bool
    decreases a,
{
    match (a, b) {
        (Value::Null, Value::Null) => true,
        (Value::Bool(x), Value::Bool(y)) => x == y,
        (Value::Int(x), Value::Int(y)) => x == y,
        (Value::Float(x), Value::Float(y)) => same_float(x@, y@),
        (Value::String(x), Value::String(y)) => x@ == y@,
        (Value::Sequence(xs), Value::Sequence(ys)) => xs@.len() == ys@.len() && forall|i: int|
            0 <= i < xs@.len() ==> same_value(#[trigger] xs@[i], ys@[i]),
        (Value::Mapping(xs), Value::Mapping(ys)) => xs@.len() == ys@.len() && forall|i: int|
            0 <= i < xs@.len() ==> same_value((#[trigger] xs@[i]).0, ys@[i].0) && same_value(
                xs@[i].1,
                ys@[i].1,
            ),
        _ => false,
    }
}

/// Whether two values are the same (see [`same_value`]).
#[verifier::loop_isolation(false)]
pub fn value_eq(a: &Value, b: &Value) -> (r: bool)
    ensures
        r == same_value(*a, *b),
    decreases a,
{
    match a {
        Value::Null => matches!(b, Value::Null),
        Value::Bool(x) => match b {
            Value::Bool(y) => *x == *y,
            _ => false,
        },
        Value::Int(x) => match b {
            Value::Int(y) => *x == *y,
            _ => false,
        },
        Value::Float(x) => match b {
            Value::Float(y) => float_eq(x.as_str(), y.as_str()),
            _ => false,
        },
        Value::String(x) => match b {
            Value::String(y) => str_eq(x.as_str(), y.as_str()),
            _ => false,
        },
        Value::Sequence(xs) => match b {
            Value::Sequence(ys) => {
                if xs.len() != ys.len() {
                    return false;
                }
                let mut i: usize = 0;
                while i < xs.len()
                    invariant
                        i <= xs@.len() == ys@.len(),
                        forall|j: int| 0 <= j < i ==> same_value(#[trigger] xs@[j], ys@[j]),
                    decreases xs@.len() - i,
                {
                    proof {
                        assert(decreases_to!(*xs => xs@));
                        assert(decreases_to!(xs@ => xs@[i as int]));
                    }
                    if !value_eq(&xs[i], &ys[i]) {
                        return false;
                    }
                    i = i + 1;
                }
                true
            },
            _ => false,
        },
        Value::Mapping(xs) => match b {
            Value::Mapping(ys) => {
                if xs.len() != ys.len() {
                    return false;
                }
                let mut i: usize = 0;
                while i < xs.len()
                    invariant
                        i <= xs@.len() == ys@.len(),
                        forall|j: int| 0 <= j < i ==> same_value((#[trigger] xs@[j]).0, ys@[j].0) && same_value(
                            xs@[j].1,
                            ys@[j].1,
                        ),
                    decreases xs@.len() - i,
                {
                    proof {
                        assert(decreases_to!(*xs => xs@));
                        assert(decreases_to!(xs@ => xs@[i as int]));
                        assert(decreases_to!(xs@[i as int] => xs@[i as int].0));
                        assert(decreases_to!(xs@[i as int] => xs@[i as int].1));
                    }
                    if !value_eq(&xs[i].0, &ys[i].0) || !value_eq(&xs[i].1, &ys[i].1) {
                        return false;
                    }
                    i = i + 1;
                }
                true
            },
            _ => false,
        },
    }
}

/// A copy of a value.
#[verifier::loop_isolation(false)]
pub fn copy_value(v: &Value) -> (r: Value)
    ensures
        same_value(r, *v),
    decreases v,
{
    match v {
        Value::Null => Value::Null,
        Value::Bool(b) => Value::Bool(*b),
        Value::Int(n) => Value::Int(*n),
        Value::Float(s) => Value::Float(s.clone()),
        Value::String(s) => Value::String(s.clone()),
        Value::Sequence(xs) => {
            let mut out: Vec<Value> = Vec::new();
            let mut i: usize = 0;
            while i < xs.len()
                invariant
                    i <= xs@.len(),
                    out@.len() == i,
                    forall|j: int| 0 <= j < i ==> same_value(#[trigger] out@[j], xs@[j]),
                decreases xs@.len() - i,
            {
                proof {
                    assert(decreases_to!(*xs => xs@));
                    assert(decreases_to!(xs@ => xs@[i as int]));
                }
                let c = copy_value(&xs[i]);
                out.push(c);
                i = i + 1;
            }
            Value::Sequence(out)
        },
        Value::Mapping(xs) => {
            let mut out: Vec<(Value, Value)> = Vec::new();
            let mut i: usize = 0;
            while i < xs.len()
                invariant
                    i <= xs@.len(),
                    out@.len() == i,
                    forall|j: int| 0 <= j < i ==> same_value((#[trigger] out@[j]).0, xs@[j].0) && same_value(
                        out@[j].1,
                        xs@[j].1,
                    ),
                decreases xs@.len() - i,
            {
                proof {
                    assert(decreases_to!(*xs => xs@));
                    assert(decreases_to!(xs@ => xs@[i as int]));
                    assert(decreases_to!(xs@[i as int] => xs@[i as int].0));
                    assert(decreases_to!(xs@[i as int] => xs@[i as int].1));
                }
                let k = copy_value(&xs[i].0);
                let w = copy_value(&xs[i].1);
                out.push((k, w));
                i = i + 1;
            }
            Value::Mapping(out)
        },
    }
}

/// `same_value` is symmetric.
pub proof fn lemma_same_value_symmetric(a: Value, b: Value)
    requires
        same_value(a, b),
    ensures
        same_value(b, a),
    decreases a,
{
    match (a, b) {
        (Value::Sequence(xs), Value::Sequence(ys)) => {
            assert forall|i: int| 0 <= i < ys@.len() implies same_value(#[trigger] ys@[i], xs@[i]) by {
                assert(same_value(xs@[i], ys@[i]));
                lemma_same_value_symmetric(xs@[i], ys@[i]);
            }
        },
        (Value::Mapping(xs), Value::Mapping(ys)) => {
            assert forall|i: int| 0 <= i < ys@.len() implies same_value((#[trigger] ys@[i]).0, xs@[i].0)
                && same_value(ys@[i].1, xs@[i].1) by {
                assert(same_value(xs@[i].0, ys@[i].0) && same_value(xs@[i].1, ys@[i].1));
                lemma_same_value_symmetric(xs@[i].0, ys@[i].0);
                lemma_same_value_symmetric(xs@[i].1, ys@[i].1);
            }
        },
        _ => {},
    }
}

/// `same_value` is transitive.
pub proof fn lemma_same_value_transitive(a: Value, b: Value, c: Value)
    requires
        same_value(a, b),
        same_value(b, c),
    ensures
        same_value(a, c),
    decreases a,
{
    match (a, b, c) {
        (Value::Sequence(xs), Value::Sequence(ys), Value::Sequence(zs)) => {
            assert forall|i: int| 0 <= i < xs@.len() implies same_value(#[trigger] xs@[i], zs@[i]) by {
                assert(same_value(xs@[i], ys@[i]));
                assert(same_value(ys@[i], zs@[i]));
                lemma_same_value_transitive(xs@[i], ys@[i], zs@[i]);
            }
        },
        (Value::Mapping(xs), Value::Mapping(ys), Value::Mapping(zs)) => {
            assert forall|i: int| 0 <= i < xs@.len() implies same_value((#[trigger] xs@[i]).0, zs@[i].0)
                && same_value(xs@[i].1, zs@[i].1) by {
                assert(same_value(xs@[i].0, ys@[i].0) && same_value(xs@[i].1, ys@[i].1));
                assert(same_value(ys@[i].0, zs@[i].0) && same_value(ys@[i].1, zs@[i].1));
                lemma_same_value_transitive(xs@[i].0, ys@[i].0, zs@[i].0);
                lemma_same_value_transitive(xs@[i].1, ys@[i].1, zs@[i].1);
            }
        },
        _ => {},
    }
}

/// No two entries of a mapping have keys that are the same value.
pub open spec fn distinct_keys(es: Seq<(Value, Value)>) -> bool {
    forall|i: int, j: int| 0 <= i < j < es.len() ==> !same_value(#[trigger] es[i].0, #[trigger] es[j].0)
}

/// Every mapping inside the value, at any depth, has distinct keys.
pub open spec fn well_keyed(v: Value) -> bool
    decreases v,
{
    match v {
        Value::Sequence(xs) => forall|i: int| 0 <= i < xs@.len() ==> well_keyed(#[trigger] xs@[i]),
        Value::Mapping(es) => distinct_keys(es@) && forall|i: int|
            0 <= i < es@.len() ==> well_keyed((#[trigger] es@[i]).0) && well_keyed(es@[i].1),
        _ => true,
    }
}

/// A value that is the same as a well-keyed value is well keyed.
pub proof fn lemma_same_value_well_keyed(a: Value, b: Value)
    requires
        same_value(a, b),
        well_keyed(b),
    ensures
        well_keyed(a),
    decreases a,
{
    match (a, b) {
        (Value::Sequence(xs), Value::Sequence(ys)) => {
            assert forall|i: int| 0 <= i < xs@.len() implies well_keyed(#[trigger] xs@[i]) by {
                assert(same_value(xs@[i], ys@[i]));
                assert(well_keyed(ys@[i]));
                lemma_same_value_well_keyed(xs@[i], ys@[i]);
            }
        },
        (Value::Mapping(xs), Value::Mapping(ys)) => {
            assert forall|i: int| 0 <= i < xs@.len() implies well_keyed((#[trigger] xs@[i]).0) && well_keyed(
                xs@[i].1,
            ) by {
                assert(same_value(xs@[i].0, ys@[i].0) && same_value(xs@[i].1, ys@[i].1));
                assert(well_keyed(ys@[i].0) && well_keyed(ys@[i].1));
                lemma_same_value_well_keyed(xs@[i].0, ys@[i].0);
                lemma_same_value_well_keyed(xs@[i].1, ys@[i].1);
            }
            assert forall|i: int, j: int| 0 <= i < j < xs@.len() implies !same_value(
                #[trigger] xs@[i].0,
                #[trigger] xs@[j].0,
            ) by {
                if same_value(xs@[i].0, xs@[j].0) {
                    assert(same_value(xs@[i].0, ys@[i].0));
                    assert(same_value(xs@[j].0, ys@[j].0));
                    lemma_same_value_symmetric(xs@[i].0, ys@[i].0);
                    lemma_same_value_transitive(ys@[i].0, xs@[i].0, xs@[j].0);
                    lemma_same_value_transitive(ys@[i].0, xs@[j].0, ys@[j].0);
                    assert(!same_value(ys@[i].0, ys@[j].0));
                }
            }
        },
        _ => {},
    }
}

} // verus!
