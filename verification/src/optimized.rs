//! A value type whose strings and collections are shared through
//! reference counting, so copies are cheap, with conversions to and from
//! [`Value`](crate::value::Value).

use crate::text::{push_str, str_eq};
use crate::float_key::{float_eq, same_float};
use crate::value::Value;
use std::rc::Rc;
use vstd::prelude::*;

verus! {

/// A value whose strings and collections are shared on copy.
///
/// A float is held as its decimal spelling. A mapping keeps its entries
/// in insertion order with distinct keys.
#[derive(Debug, Clone, PartialEq, Eq, Hash)]
pub enum OptimizedValue {
    /// Null.
    Null,
    /// Boolean.
    Bool(bool),
    /// Integer.
    Int(i64),
    /// Float, as its decimal spelling.
    Float(String),
    /// Shared string.
    String(Rc<String>),
    /// Shared sequence.
    Sequence(Rc<Vec<OptimizedValue>>),
    /// Shared mapping: key/value pairs in insertion order.
    Mapping(Rc<Vec<(OptimizedValue, OptimizedValue)>>),
}

/// Two values are the same: same variant, same scalar (floats by
/// spelling), same items and entries in the same order.
pub open spec fn same_opt(a: OptimizedValue, b: OptimizedValue) -> bool
    decreases a,
{
    match (a, b) {
        (OptimizedValue::Null, OptimizedValue::Null) => true,
        (OptimizedValue::Bool(x), OptimizedValue::Bool(y)) => x == y,
        (OptimizedValue::Int(x), OptimizedValue::Int(y)) => x == y,
        (OptimizedValue::Float(x), OptimizedValue::Float(y)) => same_float(x@, y@),
        (OptimizedValue::String(x), OptimizedValue::String(y)) => (*x)@ == (*y)@,
        (OptimizedValue::Sequence(xs), OptimizedValue::Sequence(ys)) => (*xs)@.len() == (*ys)@.len()
            && forall|i: int| 0 <= i < (*xs)@.len() ==> same_opt(#[trigger] (*xs)@[i], (*ys)@[i]),
        (OptimizedValue::Mapping(xs), OptimizedValue::Mapping(ys)) => (*xs)@.len() == (*ys)@.len()
            && forall|i: int|
            0 <= i < (*xs)@.len() ==> same_opt((#[trigger] (*xs)@[i]).0, (*ys)@[i].0) && same_opt(
                (*xs)@[i].1,
                (*ys)@[i].1,
            ),
        _ => false,
    }
}

/// `o` holds the same data as `v`.
pub open spec fn converted_from(v: Value, o: OptimizedValue) -> bool
    decreases v,
{
    match (v, o) {
        (Value::Null, OptimizedValue::Null) => true,
        (Value::Bool(x), OptimizedValue::Bool(y)) => x == y,
        (Value::Int(x), OptimizedValue::Int(y)) => x == y,
        (Value::Float(t), OptimizedValue::Float(b)) => b@ == t@,
        (Value::String(t), OptimizedValue::String(s)) => (*s)@ == t@,
        (Value::Sequence(xs), OptimizedValue::Sequence(ys)) => xs@.len() == (*ys)@.len() && forall|i: int|
            0 <= i < xs@.len() ==> converted_from(#[trigger] xs@[i], (*ys)@[i]),
        (Value::Mapping(xs), OptimizedValue::Mapping(ys)) => xs@.len() == (*ys)@.len() && forall|i: int|
            0 <= i < xs@.len() ==> converted_from((#[trigger] xs@[i]).0, (*ys)@[i].0) && converted_from(
                xs@[i].1,
                (*ys)@[i].1,
            ),
        _ => false,
    }
}

/// `v` holds the same data as `o`.
pub open spec fn converted_to(o: OptimizedValue, v: Value) -> bool
    decreases o,
{
    match (o, v) {
        (OptimizedValue::Null, Value::Null) => true,
        (OptimizedValue::Bool(x), Value::Bool(y)) => x == y,
        (OptimizedValue::Int(x), Value::Int(y)) => x == y,
        (OptimizedValue::Float(b), Value::Float(t)) => t@ == b@,
        (OptimizedValue::String(s), Value::String(t)) => (*s)@ == t@,
        (OptimizedValue::Sequence(xs), Value::Sequence(ys)) => (*xs)@.len() == ys@.len() && forall|i: int|
            0 <= i < (*xs)@.len() ==> converted_to(#[trigger] (*xs)@[i], ys@[i]),
        (OptimizedValue::Mapping(xs), Value::Mapping(ys)) => (*xs)@.len() == ys@.len() && forall|i: int|
            0 <= i < (*xs)@.len() ==> converted_to((#[trigger] (*xs)@[i]).0, ys@[i].0) && converted_to(
                (*xs)@[i].1,
                ys@[i].1,
            ),
        _ => false,
    }
}

/// Converting a value to the shared form and back gives the same value.
pub proof fn lemma_value_roundtrip(v: Value, o: OptimizedValue, w: Value)
    requires
        converted_from(v, o),
        converted_to(o, w),
    ensures
        crate::value::same_value(v, w),
    decreases v,
{
    match (v, o, w) {
        (Value::Sequence(xs), OptimizedValue::Sequence(ys), Value::Sequence(zs)) => {
            assert forall|i: int| 0 <= i < xs@.len() implies crate::value::same_value(
                #[trigger] xs@[i],
                zs@[i],
            ) by {
                assert(converted_from(xs@[i], (*ys)@[i]));
                assert(converted_to((*ys)@[i], zs@[i]));
                lemma_value_roundtrip(xs@[i], (*ys)@[i], zs@[i]);
            }
        },
        (Value::Mapping(xs), OptimizedValue::Mapping(ys), Value::Mapping(zs)) => {
            assert forall|i: int| 0 <= i < xs@.len() implies crate::value::same_value((#[trigger] xs@[i]).0, zs@[i].0)
                && crate::value::same_value(xs@[i].1, zs@[i].1) by {
                assert(converted_from(xs@[i].0, (*ys)@[i].0) && converted_from(xs@[i].1, (*ys)@[i].1));
                assert(converted_to((*ys)@[i].0, zs@[i].0) && converted_to((*ys)@[i].1, zs@[i].1));
                lemma_value_roundtrip(xs@[i].0, (*ys)@[i].0, zs@[i].0);
                lemma_value_roundtrip(xs@[i].1, (*ys)@[i].1, zs@[i].1);
            }
        },
        _ => {},
    }
}

/// Converting a shared value to the plain form and back gives the same
/// shared value.
pub proof fn lemma_optimized_roundtrip(o: OptimizedValue, v: Value, p: OptimizedValue)
    requires
        converted_to(o, v),
        converted_from(v, p),
    ensures
        same_opt(o, p),
    decreases o,
{
    match (o, v, p) {
        (OptimizedValue::Sequence(xs), Value::Sequence(ys), OptimizedValue::Sequence(zs)) => {
            assert forall|i: int| 0 <= i < (*xs)@.len() implies same_opt(#[trigger] (*xs)@[i], (*zs)@[i]) by {
                assert(converted_to((*xs)@[i], ys@[i]));
                assert(converted_from(ys@[i], (*zs)@[i]));
                lemma_optimized_roundtrip((*xs)@[i], ys@[i], (*zs)@[i]);
            }
        },
        (OptimizedValue::Mapping(xs), Value::Mapping(ys), OptimizedValue::Mapping(zs)) => {
            assert forall|i: int| 0 <= i < (*xs)@.len() implies same_opt((#[trigger] (*xs)@[i]).0, (*zs)@[i].0)
                && same_opt((*xs)@[i].1, (*zs)@[i].1) by {
                assert(converted_to((*xs)@[i].0, ys@[i].0) && converted_to((*xs)@[i].1, ys@[i].1));
                assert(converted_from(ys@[i].0, (*zs)@[i].0) && converted_from(ys@[i].1, (*zs)@[i].1));
                lemma_optimized_roundtrip((*xs)@[i].0, ys@[i].0, (*zs)@[i].0);
                lemma_optimized_roundtrip((*xs)@[i].1, ys@[i].1, (*zs)@[i].1);
            }
        },
        _ => {},
    }
}

/// Entry `i` is the first whose key is the same value as `k`.
pub open spec fn is_first_opt_key(es: Seq<(OptimizedValue, OptimizedValue)>, k: OptimizedValue, i: int) -> bool {
    &&& 0 <= i < es.len()
    &&& same_opt(es[i].0, k)
    &&& forall|j: int| 0 <= j < i ==> !same_opt(#[trigger] es[j].0, k)
}

/// No entry has a key that is the same value as `k`.
pub open spec fn lacks_opt_key(es: Seq<(OptimizedValue, OptimizedValue)>, k: OptimizedValue) -> bool {
    forall|j: int| 0 <= j < es.len() ==> !same_opt(#[trigger] es[j].0, k)
}

/// The entries after inserting each pair in turn: a key already present
/// keeps its place and takes the new value; a new key goes at the end.
pub open spec fn insert_all(
    es: Seq<(OptimizedValue, OptimizedValue)>,
    pairs: Seq<(OptimizedValue, OptimizedValue)>,
) -> Seq<(OptimizedValue, OptimizedValue)>
    decreases pairs.len(),
{
    if pairs.len() == 0 {
        es
    } else {
        let prev = insert_all(es, pairs.drop_last());
        let (k, v) = pairs.last();
        if exists|i: int| is_first_opt_key(prev, k, i) {
            let i = choose|i: int| is_first_opt_key(prev, k, i);
            prev.update(i, (prev[i].0, v))
        } else {
            prev.push((k, v))
        }
    }
}

/// Whether two values are the same (see [`same_opt`]).
#[verifier::loop_isolation(false)]
pub fn opt_eq(a: &OptimizedValue, b: &OptimizedValue) -> (r: bool)
    ensures
        r == same_opt(*a, *b),
    decreases a,
{
    match a {
        OptimizedValue::Null => matches!(b, OptimizedValue::Null),
        OptimizedValue::Bool(x) => match b {
            OptimizedValue::Bool(y) => *x == *y,
            _ => false,
        },
        OptimizedValue::Int(x) => match b {
            OptimizedValue::Int(y) => *x == *y,
            _ => false,
        },
        OptimizedValue::Float(x) => match b {
            OptimizedValue::Float(y) => float_eq(x.as_str(), y.as_str()),
            _ => false,
        },
        OptimizedValue::String(x) => match b {
            OptimizedValue::String(y) => str_eq((**x).as_str(), (**y).as_str()),
            _ => false,
        },
        OptimizedValue::Sequence(xs) => match b {
            OptimizedValue::Sequence(ys) => {
                let xv: &Vec<OptimizedValue> = &**xs;
                let yv: &Vec<OptimizedValue> = &**ys;
                if xv.len() != yv.len() {
                    return false;
                }
                let mut i: usize = 0;
                while i < xv.len()
                    invariant
                        i <= xv@.len() == yv@.len(),
                        forall|j: int| 0 <= j < i ==> same_opt(#[trigger] xv@[j], yv@[j]),
                    decreases xv@.len() - i,
                {
                    proof {
                        assert(decreases_to!(*xv => xv@));
                        assert(decreases_to!(xv@ => xv@[i as int]));
                    }
                    if !opt_eq(&xv[i], &yv[i]) {
                        return false;
                    }
                    i = i + 1;
                }
                true
            },
            _ => false,
        },
        OptimizedValue::Mapping(xs) => match b {
            OptimizedValue::Mapping(ys) => {
                let xv: &Vec<(OptimizedValue, OptimizedValue)> = &**xs;
                let yv: &Vec<(OptimizedValue, OptimizedValue)> = &**ys;
                if xv.len() != yv.len() {
                    return false;
                }
                let mut i: usize = 0;
                while i < xv.len()
                    invariant
                        i <= xv@.len() == yv@.len(),
                        forall|j: int| 0 <= j < i ==> same_opt((#[trigger] xv@[j]).0, yv@[j].0) && same_opt(
                            xv@[j].1,
                            yv@[j].1,
                        ),
                    decreases xv@.len() - i,
                {
                    proof {
                        assert(decreases_to!(*xv => xv@));
                        assert(decreases_to!(xv@ => xv@[i as int]));
                        assert(decreases_to!(xv@[i as int] => xv@[i as int].0));
                        assert(decreases_to!(xv@[i as int] => xv@[i as int].1));
                    }
                    if !opt_eq(&xv[i].0, &yv[i].0) || !opt_eq(&xv[i].1, &yv[i].1) {
                        return false;
                    }
                    i = i + 1;
                }
                true
            },
            _ => false,
        },
    }
}

/// Insert a pair into mapping entries: a key already present keeps its
/// place and takes the new value; a new key goes at the end.
pub(crate) fn insert_pair(es: &mut Vec<(OptimizedValue, OptimizedValue)>, k: OptimizedValue, v: OptimizedValue)
    ensures
        final(es)@ == insert_all(old(es)@, seq![(k, v)]),
        lacks_opt_key(old(es)@, k) ==> final(es)@ == old(es)@.push((k, v)),
        !lacks_opt_key(old(es)@, k) ==> {
            &&& final(es)@.len() == old(es)@.len()
            &&& forall|j: int|
                0 <= j < old(es)@.len() ==> (#[trigger] final(es)@[j]).0 == old(es)@[j].0 && (final(es)@[j].1
                    == old(es)@[j].1 || final(es)@[j].1 == v)
        },
{
    let ghost before = es@;
    proof {
        assert(seq![(k, v)].drop_last() =~= Seq::<(OptimizedValue, OptimizedValue)>::empty());
        assert(insert_all(before, Seq::<(OptimizedValue, OptimizedValue)>::empty()) == before);
    }
    let mut i: usize = 0;
    while i < es.len()
        invariant
            es@ == before,
            before == old(es)@,
            i <= es@.len(),
            forall|j: int| 0 <= j < i ==> !same_opt(#[trigger] es@[j].0, k),
        decreases es@.len() - i,
    {
        if opt_eq(&es[i].0, &k) {
            proof {
                assert(is_first_opt_key(before, k, i as int));
                assert forall|j: int| is_first_opt_key(before, k, j) implies j == i by {
                    if j < i {
                        assert(!same_opt(before[j].0, k));
                    }
                    if j > i {
                        assert(!same_opt(before[i as int].0, k));
                    }
                }
            }
            let mut slot: Vec<(OptimizedValue, OptimizedValue)> = Vec::new();
            std::mem::swap(&mut slot, es);
            let (old_key, _) = slot.remove(i);
            slot.insert(i, (old_key, v));
            proof {
                assert(slot@ =~= before.update(i as int, (before[i as int].0, v)));
                assert(seq![(k, v)].drop_last() =~= Seq::<(OptimizedValue, OptimizedValue)>::empty());
                assert(insert_all(before, Seq::<(OptimizedValue, OptimizedValue)>::empty()) == before);
                assert(seq![(k, v)].last() == (k, v));
                let c = choose|j: int| is_first_opt_key(before, k, j);
                assert(c == i);
            }
            std::mem::swap(&mut slot, es);
            proof {
                assert(!lacks_opt_key(before, k)) by {
                    assert(same_opt(before[i as int].0, k));
                }
            }
            return;
        }
        i = i + 1;
    }
    es.push((k, v));
}

/// Another handle on the same shared allocation.
///
/// Calls `Rc::clone`, which makes a new pointer to the same allocation;
/// the contract claims only that the pointee is the same value.
#[verifier::external_body]
fn rc_share<T>(r: &Rc<T>) -> (c: Rc<T>)
    ensures
        c == *r,
{
    Rc::clone(r)
}

/// A copy of `v` that shares its strings and collections with it.
pub fn share(v: &OptimizedValue) -> (r: OptimizedValue)
    ensures
        r == *v,
{
    match v {
        OptimizedValue::Null => OptimizedValue::Null,
        OptimizedValue::Bool(b) => OptimizedValue::Bool(*b),
        OptimizedValue::Int(i) => OptimizedValue::Int(*i),
        OptimizedValue::Float(t) => OptimizedValue::Float(t.clone()),
        OptimizedValue::String(s) => OptimizedValue::String(rc_share(s)),
        OptimizedValue::Sequence(xs) => OptimizedValue::Sequence(rc_share(xs)),
        OptimizedValue::Mapping(es) => OptimizedValue::Mapping(rc_share(es)),
    }
}

impl OptimizedValue {
    /// Null.
    pub fn null() -> (v: Self)
        ensures
            v == OptimizedValue::Null,
    {
        OptimizedValue::Null
    }

    /// A boolean.
    pub fn bool(b: bool) -> (v: Self)
        ensures
            v == OptimizedValue::Bool(b),
    {
        OptimizedValue::Bool(b)
    }

    /// An integer.
    pub fn integer(i: i64) -> (v: Self)
        ensures
            v == OptimizedValue::Int(i),
    {
        OptimizedValue::Int(i)
    }

    /// A float, given by its decimal spelling.
    pub fn float(text: String) -> (v: Self)
        ensures
            v == OptimizedValue::Float(text),
    {
        OptimizedValue::Float(text)
    }

    /// A string.
    pub fn string(s: String) -> (v: Self)
        ensures
            v matches OptimizedValue::String(r) && (*r)@ == s@,
    {
        OptimizedValue::String(Rc::new(s))
    }

    /// An empty sequence.
    pub fn sequence() -> (v: Self)
        ensures
            v matches OptimizedValue::Sequence(r) && (*r)@.len() == 0,
    {
        OptimizedValue::Sequence(Rc::new(Vec::new()))
    }

    /// A sequence of `values`.
    pub fn sequence_with(values: Vec<Self>) -> (v: Self)
        ensures
            v matches OptimizedValue::Sequence(r) && (*r)@ == values@,
    {
        OptimizedValue::Sequence(Rc::new(values))
    }

    /// An empty mapping.
    pub fn mapping() -> (v: Self)
        ensures
            v matches OptimizedValue::Mapping(r) && (*r)@.len() == 0,
    {
        OptimizedValue::Mapping(Rc::new(Vec::new()))
    }

    /// A mapping of `pairs`, inserted in turn: a repeated key keeps its
    /// first place and takes its last value.
    pub fn mapping_with(pairs: Vec<(Self, Self)>) -> (v: Self)
        ensures
            v matches OptimizedValue::Mapping(r) && (*r)@ == insert_all(Seq::empty(), pairs@),
    {
        let ghost ps = pairs@;
        let mut entries: Vec<(Self, Self)> = Vec::new();
        let mut rest = pairs;
        let mut rev: Vec<(Self, Self)> = Vec::new();
        while rest.len() > 0
            invariant
                rev@.len() + rest@.len() == ps.len(),
                rest@ == ps.subrange(0, rest@.len() as int),
                forall|j: int| 0 <= j < rev@.len() ==> #[trigger] rev@[j] == ps[ps.len() - 1 - j],
            decreases rest@.len(),
        {
            let p = rest.pop().unwrap();
            proof {
                assert(rest@ =~= ps.subrange(0, rest@.len() as int));
            }
            rev.push(p);
        }
        let n = rev.len();
        proof {
            assert(ps.subrange(0, 0) =~= Seq::<(Self, Self)>::empty());
        }
        while rev.len() > 0
            invariant
                n == ps.len(),
                rev@.len() <= n,
                forall|j: int| 0 <= j < rev@.len() ==> #[trigger] rev@[j] == ps[ps.len() - 1 - j],
                entries@ == insert_all(Seq::empty(), ps.subrange(0, n - rev@.len())),
            decreases rev@.len(),
        {
            let (k, val) = rev.pop().unwrap();
            let ghost done = n - rev@.len() - 1;
            proof {
                assert(ps.subrange(0, done + 1).drop_last() =~= ps.subrange(0, done));
                assert(ps.subrange(0, done + 1).last() == (k, val));
            }
            insert_pair(&mut entries, k, val);
            proof {
                let prev = insert_all(Seq::empty(), ps.subrange(0, done));
                assert(seq![(k, val)].drop_last() =~= Seq::<(Self, Self)>::empty());
                assert(insert_all(prev, Seq::<(Self, Self)>::empty()) == prev);
            }
        }
        proof {
            assert(ps.subrange(0, n as int) =~= ps);
        }
        OptimizedValue::Mapping(Rc::new(entries))
    }

    /// The text, if this is a string.
    pub fn as_str(&self) -> (r: Option<&str>)
        ensures
            self matches OptimizedValue::String(s) ==> r matches Some(t) && t@ == (*s)@,
            !(self is String) ==> r is None,
    {
        match self {
            OptimizedValue::String(s) => Some((**s).as_str()),
            _ => None,
        }
    }

    /// The items, if this is a sequence.
    pub fn as_sequence(&self) -> (r: Option<&[OptimizedValue]>)
        ensures
            self matches OptimizedValue::Sequence(s) ==> r matches Some(t) && t@ == (*s)@,
            !(self is Sequence) ==> r is None,
    {
        match self {
            OptimizedValue::Sequence(s) => Some((**s).as_slice()),
            _ => None,
        }
    }

    /// The entries, if this is a mapping.
    pub fn as_mapping(&self) -> (r: Option<&[(OptimizedValue, OptimizedValue)]>)
        ensures
            self matches OptimizedValue::Mapping(m) ==> r matches Some(t) && t@ == (*m)@,
            !(self is Mapping) ==> r is None,
    {
        match self {
            OptimizedValue::Mapping(m) => Some((**m).as_slice()),
            _ => None,
        }
    }

    /// The same data as a shared value.
    #[verifier::loop_isolation(false)]
    pub fn from_value(value: &Value) -> (o: Self)
        ensures
            converted_from(*value, o),
        decreases value,
    {
        match value {
            Value::Null => OptimizedValue::Null,
            Value::Bool(b) => OptimizedValue::Bool(*b),
            Value::Int(i) => OptimizedValue::Int(*i),
            Value::Float(t) => OptimizedValue::Float(t.clone()),
            Value::String(s) => OptimizedValue::String(Rc::new(s.clone())),
            Value::Sequence(items) => {
                let mut out: Vec<OptimizedValue> = Vec::new();
                let mut i: usize = 0;
                while i < items.len()
                    invariant
                        i <= items@.len(),
                        out@.len() == i,
                        forall|j: int| 0 <= j < i ==> converted_from(#[trigger] items@[j], out@[j]),
                    decreases items@.len() - i,
                {
                    proof {
                        assert(decreases_to!(*items => items@));
                        assert(decreases_to!(items@ => items@[i as int]));
                    }
                    let o = Self::from_value(&items[i]);
                    out.push(o);
                    i = i + 1;
                }
                OptimizedValue::Sequence(Rc::new(out))
            },
            Value::Mapping(entries) => {
                let mut out: Vec<(OptimizedValue, OptimizedValue)> = Vec::new();
                let mut i: usize = 0;
                while i < entries.len()
                    invariant
                        i <= entries@.len(),
                        out@.len() == i,
                        forall|j: int|
                            0 <= j < i ==> converted_from((#[trigger] entries@[j]).0, out@[j].0) && converted_from(
                                entries@[j].1,
                                out@[j].1,
                            ),
                    decreases entries@.len() - i,
                {
                    proof {
                        assert(decreases_to!(*entries => entries@));
                        assert(decreases_to!(entries@ => entries@[i as int]));
                        assert(decreases_to!(entries@[i as int] => entries@[i as int].0));
                        assert(decreases_to!(entries@[i as int] => entries@[i as int].1));
                    }
                    let k = Self::from_value(&entries[i].0);
                    let v = Self::from_value(&entries[i].1);
                    out.push((k, v));
                    i = i + 1;
                }
                OptimizedValue::Mapping(Rc::new(out))
            },
        }
    }

    /// The same data as a plain value.
    #[verifier::loop_isolation(false)]
    pub fn to_value(&self) -> (v: Value)
        ensures
            converted_to(*self, v),
        decreases self,
    {
        match self {
            OptimizedValue::Null => Value::Null,
            OptimizedValue::Bool(b) => Value::Bool(*b),
            OptimizedValue::Int(i) => Value::Int(*i),
            OptimizedValue::Float(t) => Value::Float(t.clone()),
            OptimizedValue::String(s) => Value::String((**s).clone()),
            OptimizedValue::Sequence(items) => {
                let xs: &Vec<OptimizedValue> = &**items;
                let mut out: Vec<Value> = Vec::new();
                let mut i: usize = 0;
                while i < xs.len()
                    invariant
                        i <= xs@.len(),
                        out@.len() == i,
                        forall|j: int| 0 <= j < i ==> converted_to(#[trigger] xs@[j], out@[j]),
                    decreases xs@.len() - i,
                {
                    proof {
                        assert(decreases_to!(*xs => xs@));
                        assert(decreases_to!(xs@ => xs@[i as int]));
                    }
                    let v = xs[i].to_value();
                    out.push(v);
                    i = i + 1;
                }
                Value::Sequence(out)
            },
            OptimizedValue::Mapping(entries) => {
                let xs: &Vec<(OptimizedValue, OptimizedValue)> = &**entries;
                let mut out: Vec<(Value, Value)> = Vec::new();
                let mut i: usize = 0;
                while i < xs.len()
                    invariant
                        i <= xs@.len(),
                        out@.len() == i,
                        forall|j: int| 0 <= j < i ==> converted_to((#[trigger] xs@[j]).0, out@[j].0) && converted_to(
                            xs@[j].1,
                            out@[j].1,
                        ),
                    decreases xs@.len() - i,
                {
                    proof {
                        assert(decreases_to!(*xs => xs@));
                        assert(decreases_to!(xs@ => xs@[i as int]));
                        assert(decreases_to!(xs@[i as int] => xs@[i as int].0));
                        assert(decreases_to!(xs@[i as int] => xs@[i as int].1));
                    }
                    let k = xs[i].0.to_value();
                    let v = xs[i].1.to_value();
                    out.push((k, v));
                    i = i + 1;
                }
                Value::Mapping(out)
            },
        }
    }
}

/// How a value prints: scalars as text, sequences as `[a, b]`, mappings
/// as `{k: v, ...}`.
pub open spec fn opt_display(o: OptimizedValue) -> Seq<char>
    decreases o, 1int,
{
    match o {
        OptimizedValue::Null => "null"@,
        OptimizedValue::Bool(b) => if b {
            "true"@
        } else {
            "false"@
        },
        OptimizedValue::Int(i) => crate::text::spec_signed_decimal(i as int),
        OptimizedValue::Float(t) => t@,
        OptimizedValue::String(s) => (*s)@,
        OptimizedValue::Sequence(xs) => "["@ + items_display((*xs)@) + "]"@,
        OptimizedValue::Mapping(xs) => "{"@ + entries_display((*xs)@) + "}"@,
    }
}

/// Items printed and separated by `, `.
pub open spec fn items_display(xs: Seq<OptimizedValue>) -> Seq<char>
    decreases xs, 0int,
{
    if xs.len() == 0 {
        Seq::empty()
    } else if xs.len() == 1 {
        opt_display(xs[0])
    } else {
        items_display(xs.drop_last()) + ", "@ + opt_display(xs.last())
    }
}

/// Entries printed as `k: v` and separated by `, `.
pub open spec fn entries_display(xs: Seq<(OptimizedValue, OptimizedValue)>) -> Seq<char>
    decreases xs, 0int,
{
    if xs.len() == 0 {
        Seq::empty()
    } else if xs.len() == 1 {
        opt_display(xs[0].0) + ": "@ + opt_display(xs[0].1)
    } else {
        entries_display(xs.drop_last()) + ", "@ + opt_display(xs.last().0) + ": "@ + opt_display(
            xs.last().1,
        )
    }
}

impl OptimizedValue {
    /// The value printed: scalars as text, sequences as `[a, b]`,
    /// mappings as `{k: v, ...}`.
    #[verifier::loop_isolation(false)]
    #[verifier::rlimit(40)]
    pub fn to_string(&self) -> (s: String)
        ensures
            s@ == opt_display(*self),
        decreases self,
    {
        let mut out = String::new();
        match self {
            OptimizedValue::Null => push_str(&mut out, "null"),
            OptimizedValue::Bool(b) => {
                if *b {
                    push_str(&mut out, "true");
                } else {
                    push_str(&mut out, "false");
                }
            },
            OptimizedValue::Int(i) => {
                let d = crate::text::i64_to_decimal(*i);
                push_str(&mut out, d.as_str());
            },
            OptimizedValue::Float(t) => push_str(&mut out, t.as_str()),
            OptimizedValue::String(s) => push_str(&mut out, (**s).as_str()),
            OptimizedValue::Sequence(items) => {
                let xs: &Vec<OptimizedValue> = &**items;
                push_str(&mut out, "[");
                let mut i: usize = 0;
                proof {
                    assert(xs@.subrange(0, 0) =~= Seq::<OptimizedValue>::empty());
                }
                while i < xs.len()
                    invariant
                        i <= xs@.len(),
                        out@ == "["@ + items_display(xs@.subrange(0, i as int)),
                    decreases xs@.len() - i,
                {
                    proof {
                        assert(decreases_to!(*xs => xs@));
                        assert(decreases_to!(xs@ => xs@[i as int]));
                        let pre = xs@.subrange(0, i + 1);
                        assert(pre.drop_last() =~= xs@.subrange(0, i as int));
                        assert(pre.last() == xs@[i as int]);
                        if i == 0 {
                            assert(pre[0] == xs@[0]);
                        }
                    }
                    if i > 0 {
                        push_str(&mut out, ", ");
                    }
                    let item = xs[i].to_string();
                    push_str(&mut out, item.as_str());
                    i = i + 1;
                }
                push_str(&mut out, "]");
                proof {
                    assert(xs@.subrange(0, xs@.len() as int) =~= xs@);
                }
            },
            OptimizedValue::Mapping(entries) => {
                let xs: &Vec<(OptimizedValue, OptimizedValue)> = &**entries;
                push_str(&mut out, "{");
                let mut i: usize = 0;
                proof {
                    assert(xs@.subrange(0, 0) =~= Seq::<(OptimizedValue, OptimizedValue)>::empty());
                }
                while i < xs.len()
                    invariant
                        i <= xs@.len(),
                        out@ == "{"@ + entries_display(xs@.subrange(0, i as int)),
                    decreases xs@.len() - i,
                {
                    proof {
                        assert(decreases_to!(*xs => xs@));
                        assert(decreases_to!(xs@ => xs@[i as int]));
                        assert(decreases_to!(xs@[i as int] => xs@[i as int].0));
                        assert(decreases_to!(xs@[i as int] => xs@[i as int].1));
                        let pre = xs@.subrange(0, i + 1);
                        assert(pre.drop_last() =~= xs@.subrange(0, i as int));
                        assert(pre.last() == xs@[i as int]);
                        if i == 0 {
                            assert(pre[0] == xs@[0]);
                        }
                    }
                    if i > 0 {
                        push_str(&mut out, ", ");
                    }
                    let k = xs[i].0.to_string();
                    push_str(&mut out, k.as_str());
                    push_str(&mut out, ": ");
                    let v = xs[i].1.to_string();
                    push_str(&mut out, v.as_str());
                    i = i + 1;
                }
                push_str(&mut out, "}");
                proof {
                    assert(xs@.subrange(0, xs@.len() as int) =~= xs@);
                }
            },
        }
        out
    }
}

} // verus!
