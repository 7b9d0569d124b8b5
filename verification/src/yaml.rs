//! Loads the config file's YAML the way Ruby's Psych does, so config files
//! written for the Ruby lintus mean the same thing here.
//!
//! yaml-rust2 does the parsing, but its values follow YAML 1.2. Psych follows
//! YAML 1.1 instead: `yes`, `no`, `on` and `off` are booleans, integers may
//! contain `_` and `,` and have `0x`, `0b` and leading-`0` octal forms, a
//! leading `:` makes a symbol, `<<` merges mappings, and a repeated key keeps
//! the last value instead of being an error. This module builds values from
//! the parser's events with Psych's rules.
//!
//! The library does no floating point: a float is kept as the literal a float
//! parser reads it from (see [`FloatLit`]), and what Ruby prints for it, and
//! which literals are equal as keys, come from a [`FloatFacts`] table that the
//! caller fills in. Under an empty table no two floats are equal, so a first
//! load gives every float literal of a document for the caller to look at.

use vstd::prelude::*;

use yaml_rust2::parser::{Event, Parser};
use yaml_rust2::scanner::TScalarStyle;

use crate::scalar::{parse_int, parse_int_spec, resolve_plain, resolve_plain_spec};
use crate::text::{append, chars_of, extend, int_text, nat_text, push_int, push_nat, str_eq, string_of};

verus! {

/// A float, as the text that Rust's `f64` parser reads as the value Ruby would
/// give it: the literal without its `_` and `,` separators, `inf`, `-inf` or
/// `NaN` for the special values, and the decimal digits of an integer that a
/// `!!float` tag turned into a float.
#[derive(Debug, Clone, PartialEq, Eq)]
pub struct FloatLit {
    pub text: String,
}

#[derive(Debug)]
pub enum Value {
    Null,
    Bool(bool),
    Int(i64),
    Float(FloatLit),
    Str(String),
    Array(Vec<Value>),
    Hash(Mapping),
}

/// A mapping that keeps insertion order. Setting a key that is already
/// present replaces its value in place, as a Ruby Hash does; build one with
/// [`Mapping::insert`] and no key occurs twice.
#[derive(Debug)]
pub struct Mapping(pub Vec<(Value, Value)>);

/// What a value is, with its strings as character sequences.
pub enum ValueV {
    Null,
    Bool(bool),
    Int(int),
    Float(Seq<char>),
    Str(Seq<char>),
    Array(Seq<ValueV>),
    Hash(Seq<(ValueV, ValueV)>),
}

pub open spec fn value_view(v: Value) -> ValueV
    decreases v,
{
    match v {
        Value::Null => ValueV::Null,
        Value::Bool(b) => ValueV::Bool(b),
        Value::Int(i) => ValueV::Int(i as int),
        Value::Float(f) => ValueV::Float(f.text@),
        Value::Str(s) => ValueV::Str(s@),
        Value::Array(items) => ValueV::Array(values_view(items@)),
        Value::Hash(m) => ValueV::Hash(pairs_view(m.0@)),
    }
}

pub open spec fn values_view(s: Seq<Value>) -> Seq<ValueV>
    decreases s,
{
    if s.len() == 0 {
        Seq::empty()
    } else {
        values_view(s.subrange(0, s.len() - 1)).push(value_view(s[s.len() - 1]))
    }
}

pub open spec fn pairs_view(s: Seq<(Value, Value)>) -> Seq<(ValueV, ValueV)>
    decreases s,
{
    if s.len() == 0 {
        Seq::empty()
    } else {
        pairs_view(s.subrange(0, s.len() - 1)).push(
            (value_view(s[s.len() - 1].0), value_view(s[s.len() - 1].1)),
        )
    }
}

impl View for Value {
    type V = ValueV;

    open spec fn view(&self) -> ValueV {
        value_view(*self)
    }
}

impl View for Mapping {
    type V = Seq<(ValueV, ValueV)>;

    open spec fn view(&self) -> Seq<(ValueV, ValueV)> {
        pairs_view(self.0@)
    }
}

pub proof fn lemma_values_view(s: Seq<Value>)
    ensures
        values_view(s).len() == s.len(),
        forall|i: int| 0 <= i < s.len() ==> #[trigger] values_view(s)[i] == value_view(s[i]),
    decreases s.len(),
{
    if s.len() > 0 {
        lemma_values_view(s.subrange(0, s.len() - 1));
    }
}

pub proof fn lemma_pairs_view(s: Seq<(Value, Value)>)
    ensures
        pairs_view(s).len() == s.len(),
        forall|i: int|
            0 <= i < s.len() ==> #[trigger] pairs_view(s)[i] == (value_view(s[i].0), value_view(s[i].1)),
    decreases s.len(),
{
    if s.len() > 0 {
        lemma_pairs_view(s.subrange(0, s.len() - 1));
    }
}

pub proof fn lemma_values_view_push(s: Seq<Value>, v: Value)
    ensures
        values_view(s.push(v)) == values_view(s).push(value_view(v)),
{
    assert(s.push(v).subrange(0, s.len() as int) == s);
}

pub proof fn lemma_pairs_view_push(s: Seq<(Value, Value)>, k: Value, v: Value)
    ensures
        pairs_view(s.push((k, v))) == pairs_view(s).push((value_view(k), value_view(v))),
{
    assert(s.push((k, v)).subrange(0, s.len() as int) == s);
}

pub proof fn lemma_pairs_view_update(s: Seq<(Value, Value)>, i: int, k: Value, v: Value)
    requires
        0 <= i < s.len(),
    ensures
        pairs_view(s.update(i, (k, v))) == pairs_view(s).update(i, (value_view(k), value_view(v))),
{
    lemma_pairs_view(s);
    lemma_pairs_view(s.update(i, (k, v)));
    assert(pairs_view(s.update(i, (k, v))) =~= pairs_view(s).update(i, (value_view(k), value_view(v))));
}

/// A copy of a value.
pub fn copy_value(v: &Value) -> (r: Value)
    ensures
        r@ == v@,
    decreases v,
{
    match v {
        Value::Null => Value::Null,
        Value::Bool(b) => Value::Bool(*b),
        Value::Int(i) => Value::Int(*i),
        Value::Float(f) => Value::Float(FloatLit { text: f.text.clone() }),
        Value::Str(s) => Value::Str(s.clone()),
        Value::Array(items) => {
            let mut out: Vec<Value> = Vec::new();
            let mut i: usize = 0;
            while i < items.len()
                invariant
                    *v == Value::Array(*items),
                    i <= items.len(),
                    values_view(out@) == values_view(items@.subrange(0, i as int)),
                decreases items.len() - i,
            {
                assert(decreases_to!(*v => (*v)->Array_0));
                assert(decreases_to!(*items => items@));
                assert(decreases_to!(items@ => items@[i as int]));
                let x = copy_value(&items[i]);
                proof {
                    lemma_values_view_push(out@, x);
                    lemma_values_view_push(items@.subrange(0, i as int), items@[i as int]);
                    assert(items@.subrange(0, i as int).push(items@[i as int]) == items@.subrange(0, i + 1));
                }
                out.push(x);
                i += 1;
            }
            assert(items@.subrange(0, items@.len() as int) == items@);
            Value::Array(out)
        },
        Value::Hash(m) => Value::Hash(copy_map(m)),
    }
}

/// A copy of a mapping.
pub fn copy_map(m: &Mapping) -> (r: Mapping)
    ensures
        r@ == m@,
    decreases m,
{
    let mut out: Vec<(Value, Value)> = Vec::new();
    let mut i: usize = 0;
    while i < m.0.len()
        invariant
            i <= m.0.len(),
            pairs_view(out@) == pairs_view(m.0@.subrange(0, i as int)),
        decreases m.0.len() - i,
    {
        assert(decreases_to!(m => m.0));
        assert(decreases_to!(m.0 => m.0@));
        assert(decreases_to!(m.0@ => m.0@[i as int]));
        assert(decreases_to!(m.0@[i as int] => m.0@[i as int].0));
        assert(decreases_to!(m.0@[i as int] => m.0@[i as int].1));
        let k = copy_value(&m.0[i].0);
        let x = copy_value(&m.0[i].1);
        proof {
            lemma_pairs_view_push(out@, k, x);
            lemma_pairs_view_push(m.0@.subrange(0, i as int), m.0@[i as int].0, m.0@[i as int].1);
            assert(m.0@.subrange(0, i as int).push(m.0@[i as int]) == m.0@.subrange(0, i + 1));
        }
        out.push((k, x));
        i += 1;
    }
    assert(m.0@.subrange(0, m.0@.len() as int) == m.0@);
    Mapping(out)
}

/// Whether two strings hold the same characters.
pub fn same_string(a: &String, b: &String) -> (r: bool)
    ensures
        r == (a@ == b@),
{
    a.eq(b)
}

/// Whether two values are equal, as `==` on the values a config holds: floats
/// by their value, so that `1.0` and `1.00` are equal and NaN equals nothing,
/// and collections item by item.
pub open spec fn value_eq(f: Seq<FloatFact>, a: ValueV, b: ValueV) -> bool
    decreases a,
{
    match (a, b) {
        (ValueV::Null, ValueV::Null) => true,
        (ValueV::Bool(x), ValueV::Bool(y)) => x == y,
        (ValueV::Int(x), ValueV::Int(y)) => x == y,
        (ValueV::Float(x), ValueV::Float(y)) => float_id(f, x) is Some && float_id(f, x) == float_id(f, y),
        (ValueV::Str(x), ValueV::Str(y)) => x == y,
        (ValueV::Array(xs), ValueV::Array(ys)) => values_eq(f, xs, ys),
        (ValueV::Hash(xs), ValueV::Hash(ys)) => pairs_eq(f, xs, ys),
        _ => false,
    }
}

/// Two lists of values of the same length, equal item by item.
pub open spec fn values_eq(f: Seq<FloatFact>, xs: Seq<ValueV>, ys: Seq<ValueV>) -> bool
    decreases xs,
{
    if xs.len() != ys.len() {
        false
    } else if xs.len() == 0 {
        true
    } else {
        values_eq(f, xs.subrange(0, xs.len() - 1), ys.subrange(0, ys.len() - 1))
            && value_eq(f, xs[xs.len() - 1], ys[ys.len() - 1])
    }
}

/// Two lists of pairs of the same length, equal pair by pair.
pub open spec fn pairs_eq(f: Seq<FloatFact>, xs: Seq<(ValueV, ValueV)>, ys: Seq<(ValueV, ValueV)>) -> bool
    decreases xs,
{
    if xs.len() != ys.len() {
        false
    } else if xs.len() == 0 {
        true
    } else {
        pairs_eq(f, xs.subrange(0, xs.len() - 1), ys.subrange(0, ys.len() - 1))
            && value_eq(f, xs[xs.len() - 1].0, ys[ys.len() - 1].0)
            && value_eq(f, xs[xs.len() - 1].1, ys[ys.len() - 1].1)
    }
}

pub proof fn lemma_values_eq(f: Seq<FloatFact>, xs: Seq<ValueV>, ys: Seq<ValueV>)
    ensures
        values_eq(f, xs, ys) == (xs.len() == ys.len() && forall|i: int|
            0 <= i < xs.len() ==> value_eq(f, #[trigger] xs[i], ys[i])),
    decreases xs.len(),
{
    if xs.len() == ys.len() && xs.len() > 0 {
        let n = xs.len() - 1;
        let (a, b) = (xs.subrange(0, n), ys.subrange(0, n));
        lemma_values_eq(f, a, b);
        if values_eq(f, xs, ys) {
            assert forall|i: int| 0 <= i < xs.len() implies value_eq(f, #[trigger] xs[i], ys[i]) by {
                if i < n {
                    assert(a[i] == xs[i] && b[i] == ys[i]);
                }
            }
        }
        if forall|i: int| 0 <= i < xs.len() ==> value_eq(f, #[trigger] xs[i], ys[i]) {
            assert forall|i: int| 0 <= i < a.len() implies value_eq(f, #[trigger] a[i], b[i]) by {
                assert(a[i] == xs[i] && b[i] == ys[i]);
            }
        }
    }
}

pub proof fn lemma_pairs_eq(f: Seq<FloatFact>, xs: Seq<(ValueV, ValueV)>, ys: Seq<(ValueV, ValueV)>)
    ensures
        pairs_eq(f, xs, ys) == (xs.len() == ys.len() && forall|i: int|
            0 <= i < xs.len() ==> value_eq(f, (#[trigger] xs[i]).0, ys[i].0) && value_eq(f, xs[i].1, ys[i].1)),
    decreases xs.len(),
{
    if xs.len() == ys.len() && xs.len() > 0 {
        let n = xs.len() - 1;
        let (a, b) = (xs.subrange(0, n), ys.subrange(0, n));
        lemma_pairs_eq(f, a, b);
        if pairs_eq(f, xs, ys) {
            assert forall|i: int| 0 <= i < xs.len() implies value_eq(f, (#[trigger] xs[i]).0, ys[i].0) && value_eq(
                f,
                xs[i].1,
                ys[i].1,
            ) by {
                if i < n {
                    assert(a[i] == xs[i] && b[i] == ys[i]);
                }
            }
        }
        if forall|i: int| 0 <= i < xs.len() ==> value_eq(f, (#[trigger] xs[i]).0, ys[i].0) && value_eq(f, xs[i].1, ys[i].1) {
            assert forall|i: int| 0 <= i < a.len() implies value_eq(f, (#[trigger] a[i]).0, b[i].0) && value_eq(
                f,
                a[i].1,
                b[i].1,
            ) by {
                assert(a[i] == xs[i] && b[i] == ys[i]);
            }
        }
    }
}

/// Equality of values does not depend on the order of the two.
pub proof fn lemma_eq_symmetric(f: Seq<FloatFact>, a: ValueV, b: ValueV)
    ensures
        value_eq(f, a, b) == value_eq(f, b, a),
    decreases a,
{
    match (a, b) {
        (ValueV::Array(xs), ValueV::Array(ys)) => {
            lemma_values_eq(f, xs, ys);
            lemma_values_eq(f, ys, xs);
            if xs.len() == ys.len() {
                assert forall|i: int| 0 <= i < xs.len() implies value_eq(f, #[trigger] xs[i], ys[i]) == value_eq(
                    f,
                    ys[i],
                    xs[i],
                ) by {
                    assert(decreases_to!(a => xs));
                    assert(decreases_to!(xs => xs[i]));
                    lemma_eq_symmetric(f, xs[i], ys[i]);
                }
            }
        },
        (ValueV::Hash(xs), ValueV::Hash(ys)) => {
            lemma_pairs_eq(f, xs, ys);
            lemma_pairs_eq(f, ys, xs);
            if xs.len() == ys.len() {
                assert forall|i: int| 0 <= i < xs.len() implies (value_eq(f, (#[trigger] xs[i]).0, ys[i].0) && value_eq(
                    f,
                    xs[i].1,
                    ys[i].1,
                )) == (value_eq(f, ys[i].0, xs[i].0) && value_eq(f, ys[i].1, xs[i].1)) by {
                    assert(decreases_to!(a => xs));
                    assert(decreases_to!(xs => xs[i]));
                    assert(decreases_to!(xs[i] => xs[i].0));
                    assert(decreases_to!(xs[i] => xs[i].1));
                    lemma_eq_symmetric(f, xs[i].0, ys[i].0);
                    lemma_eq_symmetric(f, xs[i].1, ys[i].1);
                }
            }
        },
        _ => {},
    }
}

/// Values equal to a third are equal to each other.
pub proof fn lemma_eq_transitive(f: Seq<FloatFact>, a: ValueV, b: ValueV, c: ValueV)
    requires
        value_eq(f, a, b),
        value_eq(f, b, c),
    ensures
        value_eq(f, a, c),
    decreases a,
{
    match (a, b, c) {
        (ValueV::Array(xs), ValueV::Array(ys), ValueV::Array(zs)) => {
            lemma_values_eq(f, xs, ys);
            lemma_values_eq(f, ys, zs);
            lemma_values_eq(f, xs, zs);
            assert forall|i: int| 0 <= i < xs.len() implies value_eq(f, #[trigger] xs[i], zs[i]) by {
                assert(value_eq(f, xs[i], ys[i]));
                assert(value_eq(f, ys[i], zs[i]));
                assert(decreases_to!(a => xs));
                assert(decreases_to!(xs => xs[i]));
                lemma_eq_transitive(f, xs[i], ys[i], zs[i]);
            }
        },
        (ValueV::Hash(xs), ValueV::Hash(ys), ValueV::Hash(zs)) => {
            lemma_pairs_eq(f, xs, ys);
            lemma_pairs_eq(f, ys, zs);
            lemma_pairs_eq(f, xs, zs);
            assert forall|i: int| 0 <= i < xs.len() implies value_eq(f, (#[trigger] xs[i]).0, zs[i].0) && value_eq(
                f,
                xs[i].1,
                zs[i].1,
            ) by {
                assert(value_eq(f, xs[i].0, ys[i].0) && value_eq(f, xs[i].1, ys[i].1));
                assert(value_eq(f, ys[i].0, zs[i].0) && value_eq(f, ys[i].1, zs[i].1));
                assert(decreases_to!(a => xs));
                assert(decreases_to!(xs => xs[i]));
                assert(decreases_to!(xs[i] => xs[i].0));
                assert(decreases_to!(xs[i] => xs[i].1));
                lemma_eq_transitive(f, xs[i].0, ys[i].0, zs[i].0);
                lemma_eq_transitive(f, xs[i].1, ys[i].1, zs[i].1);
            }
        },
        _ => {},
    }
}

/// Whether two values are equal, as [`value_eq`] says.
pub fn same_value(a: &Value, b: &Value, floats: &FloatFacts) -> (r: bool)
    ensures
        r == value_eq(floats.facts@, a@, b@),
    decreases a,
{
    let ghost f = floats.facts@;
    match (a, b) {
        (Value::Null, Value::Null) => true,
        (Value::Bool(x), Value::Bool(y)) => *x == *y,
        (Value::Int(x), Value::Int(y)) => *x == *y,
        (Value::Float(x), Value::Float(y)) => match (floats.id(&x.text), floats.id(&y.text)) {
            (Some(p), Some(q)) => p == q,
            _ => false,
        },
        (Value::Str(x), Value::Str(y)) => same_string(x, y),
        (Value::Array(xs), Value::Array(ys)) => {
            proof {
                lemma_values_view(xs@);
                lemma_values_view(ys@);
                lemma_values_eq(f, values_view(xs@), values_view(ys@));
            }
            if xs.len() != ys.len() {
                return false;
            }
            let mut i: usize = 0;
            while i < xs.len()
                invariant
                    *a == Value::Array(*xs),
                    *b == Value::Array(*ys),
                    f == floats.facts@,
                    i <= xs.len() == ys.len(),
                    values_view(xs@).len() == xs@.len(),
                    values_view(ys@).len() == ys@.len(),
                    forall|j: int| 0 <= j < xs@.len() ==> #[trigger] values_view(xs@)[j] == value_view(xs@[j]),
                    forall|j: int| 0 <= j < ys@.len() ==> #[trigger] values_view(ys@)[j] == value_view(ys@[j]),
                    forall|j: int| 0 <= j < i ==> value_eq(f, #[trigger] values_view(xs@)[j], values_view(ys@)[j]),
                decreases xs.len() - i,
            {
                assert(decreases_to!(*a => (*a)->Array_0));
                assert(decreases_to!(*xs => xs@));
                assert(decreases_to!(xs@ => xs@[i as int]));
                if !same_value(&xs[i], &ys[i], floats) {
                    assert(!value_eq(f, values_view(xs@)[i as int], values_view(ys@)[i as int]));
                    proof { lemma_values_eq(f, values_view(xs@), values_view(ys@)); }
                    assert(a@ == ValueV::Array(values_view(xs@)) && b@ == ValueV::Array(values_view(ys@)));
                    return false;
                }
                i += 1;
            }
            true
        },
        (Value::Hash(xs), Value::Hash(ys)) => {
            proof {
                lemma_pairs_view(xs.0@);
                lemma_pairs_view(ys.0@);
                lemma_pairs_eq(f, pairs_view(xs.0@), pairs_view(ys.0@));
            }
            if xs.0.len() != ys.0.len() {
                return false;
            }
            let mut i: usize = 0;
            while i < xs.0.len()
                invariant
                    *a == Value::Hash(*xs),
                    *b == Value::Hash(*ys),
                    f == floats.facts@,
                    i <= xs.0.len() == ys.0.len(),
                    pairs_view(xs.0@).len() == xs.0@.len(),
                    pairs_view(ys.0@).len() == ys.0@.len(),
                    forall|j: int|
                        0 <= j < xs.0@.len() ==> #[trigger] pairs_view(xs.0@)[j] == (
                            value_view(xs.0@[j].0),
                            value_view(xs.0@[j].1),
                        ),
                    forall|j: int|
                        0 <= j < ys.0@.len() ==> #[trigger] pairs_view(ys.0@)[j] == (
                            value_view(ys.0@[j].0),
                            value_view(ys.0@[j].1),
                        ),
                    forall|j: int|
                        0 <= j < i ==> value_eq(f, (#[trigger] pairs_view(xs.0@)[j]).0, pairs_view(ys.0@)[j].0)
                            && value_eq(f, pairs_view(xs.0@)[j].1, pairs_view(ys.0@)[j].1),
                decreases xs.0.len() - i,
            {
                assert(decreases_to!(*a => (*a)->Hash_0));
                assert(decreases_to!(*xs => xs.0));
                assert(decreases_to!(xs.0 => xs.0@));
                assert(decreases_to!(xs.0@ => xs.0@[i as int]));
                assert(decreases_to!(xs.0@[i as int] => xs.0@[i as int].0));
                assert(decreases_to!(xs.0@[i as int] => xs.0@[i as int].1));
                if !same_value(&xs.0[i].0, &ys.0[i].0, floats) || !same_value(&xs.0[i].1, &ys.0[i].1, floats) {
                    assert(!(value_eq(f, pairs_view(xs.0@)[i as int].0, pairs_view(ys.0@)[i as int].0)
                        && value_eq(f, pairs_view(xs.0@)[i as int].1, pairs_view(ys.0@)[i as int].1)));
                    proof { lemma_pairs_eq(f, pairs_view(xs.0@), pairs_view(ys.0@)); }
                    assert(a@ == ValueV::Hash(pairs_view(xs.0@)) && b@ == ValueV::Hash(pairs_view(ys.0@)));
                    return false;
                }
                i += 1;
            }
            true
        },
        _ => false,
    }
}


// ---------------------------------------------------------------------------
// Mappings.
// ---------------------------------------------------------------------------

/// The position of the first entry at or after `i` whose key equals `k`.
pub open spec fn find_key(f: Seq<FloatFact>, s: Seq<(ValueV, ValueV)>, k: ValueV, i: int) -> Option<int>
    decreases s.len() - i,
{
    if i < 0 || i >= s.len() {
        None
    } else if value_eq(f, s[i].0, k) {
        Some(i)
    } else {
        find_key(f, s, k, i + 1)
    }
}

/// `Hash#[]=`: an existing key keeps its place and takes the new value; a new
/// key goes at the end.
pub open spec fn map_insert(f: Seq<FloatFact>, s: Seq<(ValueV, ValueV)>, k: ValueV, v: ValueV) -> Seq<(ValueV, ValueV)> {
    match find_key(f, s, k, 0) {
        Some(i) => s.update(i, (s[i].0, v)),
        None => s.push((k, v)),
    }
}

/// The value stored under a key equal to `k`, if any.
pub open spec fn map_get(f: Seq<FloatFact>, s: Seq<(ValueV, ValueV)>, k: ValueV) -> Option<ValueV> {
    match find_key(f, s, k, 0) {
        Some(i) => Some(s[i].1),
        None => None,
    }
}

/// No two keys are equal.
pub open spec fn keys_distinct(f: Seq<FloatFact>, s: Seq<(ValueV, ValueV)>) -> bool {
    forall|i: int, j: int| 0 <= i < j < s.len() ==> !value_eq(f, s[i].0, s[j].0)
}

pub proof fn lemma_find_key(f: Seq<FloatFact>, s: Seq<(ValueV, ValueV)>, k: ValueV, i: int)
    requires
        0 <= i,
    ensures
        match find_key(f, s, k, i) {
            Some(j) => i <= j < s.len() && value_eq(f, s[j].0, k) && forall|m: int|
                i <= m < j ==> !value_eq(f, #[trigger] s[m].0, k),
            None => forall|m: int| i <= m < s.len() ==> !value_eq(f, #[trigger] s[m].0, k),
        },
    decreases s.len() - i,
{
    if i < s.len() && !value_eq(f, s[i].0, k) {
        lemma_find_key(f, s, k, i + 1);
    }
}

/// Where a key is found depends on the keys alone.
proof fn lemma_find_key_same_keys(f: Seq<FloatFact>, s: Seq<(ValueV, ValueV)>, t: Seq<(ValueV, ValueV)>, k: ValueV, i: int)
    requires
        0 <= i,
        s.len() == t.len(),
        forall|m: int| 0 <= m < s.len() ==> (#[trigger] s[m]).0 == t[m].0,
    ensures
        find_key(f, s, k, i) == find_key(f, t, k, i),
    decreases s.len() - i,
{
    if i < s.len() {
        assert(s[i].0 == t[i].0);
        lemma_find_key_same_keys(f, s, t, k, i + 1);
    }
}

impl Mapping {
    /// An empty mapping.
    pub fn new() -> (m: Mapping)
        ensures
            m@ == Seq::<(ValueV, ValueV)>::empty(),
    {
        Mapping(Vec::new())
    }

    /// Sets `key` to `value`, keys compared as [`value_eq`] says.
    pub fn insert(&mut self, key: Value, value: Value, floats: &FloatFacts)
        ensures
            final(self)@ == map_insert(floats.facts@, old(self)@, key@, value@),
    {
        let ghost f = floats.facts@;
        proof {
            lemma_pairs_view(self.0@);
            lemma_find_key(f, self@, key@, 0);
        }
        let mut i: usize = 0;
        while i < self.0.len()
            invariant
                f == floats.facts@,
                self@ == pairs_view(self.0@),
                pairs_view(self.0@).len() == self.0@.len(),
                forall|j: int|
                    0 <= j < self.0@.len() ==> #[trigger] pairs_view(self.0@)[j] == (
                        value_view(self.0@[j].0),
                        value_view(self.0@[j].1),
                    ),
                i <= self.0.len(),
                forall|j: int| 0 <= j < i ==> !value_eq(f, #[trigger] self@[j].0, key@),
                self@ == old(self)@,
                match find_key(f, self@, key@, 0) {
                    Some(j) => 0 <= j < self@.len() && value_eq(f, self@[j].0, key@) && forall|m: int|
                        0 <= m < j ==> !value_eq(f, #[trigger] self@[m].0, key@),
                    None => forall|m: int| 0 <= m < self@.len() ==> !value_eq(f, #[trigger] self@[m].0, key@),
                },
            decreases self.0.len() - i,
        {
            if same_value(&self.0[i].0, &key, floats) {
                assert(self@[i as int].0 == value_view(self.0@[i as int].0));
                assert(value_eq(f, self@[i as int].0, key@));
                assert(find_key(f, self@, key@, 0) == Some(i as int));
                let kept = copy_value(&self.0[i].0);
                proof {
                    lemma_pairs_view_update(self.0@, i as int, kept, value);
                }
                self.0.set(i, (kept, value));
                return;
            }
            i += 1;
        }
        assert(find_key(f, self@, key@, 0).is_none());
        proof {
            lemma_pairs_view_push(self.0@, key, value);
        }
        self.0.push((key, value));
    }

    /// The entries, in insertion order.
    pub fn iter(&self) -> (r: &[(Value, Value)])
        ensures
            pairs_view(r@) == self@,
    {
        self.0.as_slice()
    }

    pub fn len(&self) -> (n: usize)
        ensures
            n == self@.len(),
    {
        proof {
            lemma_pairs_view(self.0@);
        }
        self.0.len()
    }

    pub fn is_empty(&self) -> (b: bool)
        ensures
            b == (self@.len() == 0),
    {
        proof {
            lemma_pairs_view(self.0@);
        }
        self.0.len() == 0
    }
}

/// Inserting keeps the keys distinct; every key equal to the one inserted
/// then reads back the value just set, and every other key reads what it
/// read before.
pub proof fn law_insert_keeps_keys_distinct(f: Seq<FloatFact>, s: Seq<(ValueV, ValueV)>, k: ValueV, v: ValueV)
    requires
        keys_distinct(f, s),
    ensures
        keys_distinct(f, map_insert(f, s, k, v)),
        forall|other: ValueV| value_eq(f, k, other) ==> map_get(f, map_insert(f, s, k, v), other) == Some(v),
        forall|other: ValueV| !value_eq(f, k, other) ==> map_get(f, map_insert(f, s, k, v), other) == map_get(f, s, other),
{
    let r = map_insert(f, s, k, v);
    lemma_find_key(f, s, k, 0);
    match find_key(f, s, k, 0) {
        Some(i) => {
            assert forall|m: int| 0 <= m < s.len() implies (#[trigger] s[m]).0 == r[m].0 by {}
        },
        None => {},
    }
    assert(keys_distinct(f, r));
    assert forall|other: ValueV| #[trigger] map_get(f, r, other) == (if value_eq(f, k, other) {
        Some(v)
    } else {
        map_get(f, s, other)
    }) by {
        lemma_find_key(f, s, other, 0);
        lemma_find_key(f, r, other, 0);
        lemma_eq_symmetric(f, k, other);
        match find_key(f, s, k, 0) {
            Some(i) => {
                lemma_find_key_same_keys(f, s, r, other, 0);
                // The kept key equals `k`, so it equals `other` exactly when `k` does.
                if value_eq(f, k, other) {
                    lemma_eq_transitive(f, s[i].0, k, other);
                    if let Some(j) = find_key(f, s, other, 0) {
                        if j < i {
                            lemma_eq_symmetric(f, s[j].0, other);
                            lemma_eq_transitive(f, s[j].0, other, k);
                        }
                    }
                    assert(find_key(f, s, other, 0) == Some(i));
                } else {
                    if find_key(f, s, other, 0) == Some(i) {
                        lemma_eq_symmetric(f, s[i].0, k);
                        lemma_eq_transitive(f, k, s[i].0, other);
                    }
                }
            },
            None => {
                if value_eq(f, k, other) {
                    if let Some(j) = find_key(f, s, other, 0) {
                        lemma_eq_symmetric(f, s[j].0, other);
                        lemma_eq_transitive(f, s[j].0, other, k);
                    }
                    assert(!value_eq(f, r[s.len() as int].0, other) ==> false);
                    assert forall|m: int| 0 <= m < s.len() implies !value_eq(f, #[trigger] r[m].0, other) by {
                        assert(r[m] == s[m]);
                    }
                    assert(find_key(f, r, other, 0) == Some(s.len() as int));
                } else {
                    match find_key(f, s, other, 0) {
                        Some(j) => {
                            assert(r[j] == s[j]);
                            assert forall|m: int| 0 <= m < j implies !value_eq(f, #[trigger] r[m].0, other) by {
                                assert(r[m] == s[m]);
                            }
                            assert(find_key(f, r, other, 0) == Some(j));
                            assert(r[j].1 == s[j].1);
                        },
                        None => {
                            assert forall|m: int| 0 <= m < r.len() implies !value_eq(f, #[trigger] r[m].0, other) by {
                                if m < s.len() {
                                    assert(r[m] == s[m]);
                                }
                            }
                        },
                    }
                }
            },
        }
    }
}


// ---------------------------------------------------------------------------
// Floats, as far as the library needs them.
// ---------------------------------------------------------------------------

/// What Ruby makes of one float literal: `display` is its `Float#to_s`,
/// `in_unit` whether it lies between 0 and 1 inclusive, and `id` what tells
/// its value from the others: literals of equal value share one (`0.0` and
/// `-0.0` too), and NaN, which equals nothing, has none.
#[derive(Debug, Clone, PartialEq, Eq)]
pub struct FloatFact {
    pub text: String,
    pub display: String,
    pub in_unit: bool,
    pub id: Option<u64>,
}

/// The facts about the float literals of a document, filled in by the caller,
/// which does the floating point. A literal missing from the table prints as
/// itself, does not lie between 0 and 1, and equals nothing.
#[derive(Debug, Clone, PartialEq, Eq)]
pub struct FloatFacts {
    pub facts: Vec<FloatFact>,
}

/// The first fact about the literal `t`, at or after `i`.
pub open spec fn fact_for(f: Seq<FloatFact>, t: Seq<char>, i: int) -> Option<FloatFact>
    decreases f.len() - i,
{
    if i < 0 || i >= f.len() {
        None
    } else if f[i].text@ == t {
        Some(f[i])
    } else {
        fact_for(f, t, i + 1)
    }
}

pub open spec fn float_display(f: Seq<FloatFact>, t: Seq<char>) -> Seq<char> {
    match fact_for(f, t, 0) {
        Some(x) => x.display@,
        None => t,
    }
}

pub open spec fn float_id(f: Seq<FloatFact>, t: Seq<char>) -> Option<u64> {
    match fact_for(f, t, 0) {
        Some(x) => x.id,
        None => None,
    }
}

pub open spec fn float_in_unit(f: Seq<FloatFact>, t: Seq<char>) -> bool {
    match fact_for(f, t, 0) {
        Some(x) => x.in_unit,
        None => false,
    }
}

impl FloatFacts {
    /// Where the fact about a literal is, as [`fact_for`] finds it.
    pub fn find(&self, text: &String) -> (r: Option<usize>)
        ensures
            match r {
                Some(i) => i < self.facts@.len() && fact_for(self.facts@, text@, 0) == Some(self.facts@[i as int]),
                None => fact_for(self.facts@, text@, 0).is_none(),
            },
    {
        let mut i: usize = 0;
        while i < self.facts.len()
            invariant
                i <= self.facts.len(),
                fact_for(self.facts@, text@, i as int) == fact_for(self.facts@, text@, 0),
            decreases self.facts.len() - i,
        {
            if same_string(&self.facts[i].text, text) {
                return Some(i);
            }
            i += 1;
        }
        None
    }

    /// Ruby's `Float#to_s` of the literal.
    pub fn display(&self, text: &String) -> (r: String)
        ensures
            r@ == float_display(self.facts@, text@),
    {
        match self.find(text) {
            Some(i) => self.facts[i].display.clone(),
            None => text.clone(),
        }
    }

    /// What tells the literal's value from the others, if it equals anything.
    pub fn id(&self, text: &String) -> (r: Option<u64>)
        ensures
            r == float_id(self.facts@, text@),
    {
        match self.find(text) {
            Some(i) => self.facts[i].id,
            None => None,
        }
    }

    /// Whether the literal's value lies between 0 and 1 inclusive.
    pub fn in_unit(&self, text: &String) -> (r: bool)
        ensures
            r == float_in_unit(self.facts@, text@),
    {
        match self.find(text) {
            Some(i) => self.facts[i].in_unit,
            None => false,
        }
    }
}

// ---------------------------------------------------------------------------
// Ruby's `to_s`, `inspect` and class names.
// ---------------------------------------------------------------------------

/// Unicode's control characters, general category Cc.
pub open spec fn is_control(c: char) -> bool {
    (c as int) <= 0x1f || (0x7f <= (c as int) && (c as int) <= 0x9f)
}

pub open spec fn hex_char(d: int) -> char {
    if d < 10 { (d + 48) as char } else { (d + 55) as char }
}

/// How `inspect` writes one character of a string.
pub open spec fn escape_char(c: char) -> Seq<char> {
    let n = c as int;
    if c == '"' {
        seq!['\\', '"']
    } else if c == '\\' {
        seq!['\\', '\\']
    } else if c == '\n' {
        seq!['\\', 'n']
    } else if c == '\t' {
        seq!['\\', 't']
    } else if c == '\r' {
        seq!['\\', 'r']
    } else if is_control(c) {
        seq!['\\', 'u', hex_char(n / 4096 % 16), hex_char(n / 256 % 16), hex_char(n / 16 % 16), hex_char(n % 16)]
    } else {
        seq![c]
    }
}

pub open spec fn escape_str(s: Seq<char>) -> Seq<char>
    decreases s.len(),
{
    if s.len() == 0 {
        Seq::empty()
    } else {
        escape_str(s.drop_last()) + escape_char(s.last())
    }
}

/// Ruby's `String#inspect`.
pub open spec fn inspect_str_spec(s: Seq<char>) -> Seq<char> {
    seq!['"'] + escape_str(s) + seq!['"']
}

/// `to_s` of a value that holds no other values.
pub open spec fn scalar_text(v: ValueV, f: Seq<FloatFact>) -> Seq<char> {
    match v {
        ValueV::Bool(b) => if b { seq!['t', 'r', 'u', 'e'] } else { seq!['f', 'a', 'l', 's', 'e'] },
        ValueV::Int(i) => int_text(i),
        ValueV::Float(t) => float_display(f, t),
        ValueV::Str(s) => s,
        _ => Seq::empty(),
    }
}

/// Ruby's `inspect`, as printed in error messages.
pub open spec fn inspect_spec(v: ValueV, f: Seq<FloatFact>) -> Seq<char>
    decreases v,
{
    match v {
        ValueV::Null => seq!['n', 'i', 'l'],
        ValueV::Str(s) => inspect_str_spec(s),
        ValueV::Array(items) => seq!['['] + join_values(items, f) + seq![']'],
        ValueV::Hash(pairs) => if pairs.len() == 0 {
            seq!['{', '}']
        } else {
            seq!['{'] + join_pairs(pairs, f) + seq!['}']
        },
        _ => scalar_text(v, f),
    }
}

/// The items' `inspect`, separated by `, `.
pub open spec fn join_values(items: Seq<ValueV>, f: Seq<FloatFact>) -> Seq<char>
    decreases items,
{
    if items.len() == 0 {
        Seq::empty()
    } else {
        let init = items.subrange(0, items.len() - 1);
        (if init.len() == 0 { Seq::empty() } else { join_values(init, f) + seq![',', ' '] })
            + inspect_spec(items[items.len() - 1], f)
    }
}

/// The pairs as `key => value`, separated by `, `.
pub open spec fn join_pairs(pairs: Seq<(ValueV, ValueV)>, f: Seq<FloatFact>) -> Seq<char>
    decreases pairs,
{
    if pairs.len() == 0 {
        Seq::empty()
    } else {
        let init = pairs.subrange(0, pairs.len() - 1);
        let last = pairs[pairs.len() - 1];
        (if init.len() == 0 { Seq::empty() } else { join_pairs(init, f) + seq![',', ' '] })
            + inspect_spec(last.0, f) + seq![' ', '=', '>', ' '] + inspect_spec(last.1, f)
    }
}

/// Ruby's `to_s`.
pub open spec fn to_s_spec(v: ValueV, f: Seq<FloatFact>) -> Seq<char> {
    match v {
        ValueV::Array(_) => inspect_spec(v, f),
        ValueV::Hash(_) => inspect_spec(v, f),
        _ => scalar_text(v, f),
    }
}

pub open spec fn class_name_spec(v: ValueV) -> Seq<char> {
    match v {
        ValueV::Null => "NilClass"@,
        ValueV::Bool(b) => if b { "TrueClass"@ } else { "FalseClass"@ },
        ValueV::Int(_) => "Integer"@,
        ValueV::Float(_) => "Float"@,
        ValueV::Str(_) => "String"@,
        ValueV::Array(_) => "Array"@,
        ValueV::Hash(_) => "Hash"@,
    }
}

fn hex(d: u32) -> (c: char)
    requires
        d < 16,
    ensures
        c == hex_char(d as int),
{
    if d < 10 {
        let b: u8 = (d as u8) + 48;
        b as char
    } else {
        let b: u8 = (d as u8) + 55;
        b as char
    }
}

fn push_escaped(out: &mut Vec<char>, c: char)
    ensures
        final(out)@ == old(out)@ + escape_char(c),
{
    let ghost start = out@;
    if c == '"' {
        out.push('\\');
        out.push('"');
    } else if c == '\\' {
        out.push('\\');
        out.push('\\');
    } else if c == '\n' {
        out.push('\\');
        out.push('n');
    } else if c == '\t' {
        out.push('\\');
        out.push('t');
    } else if c == '\r' {
        out.push('\\');
        out.push('r');
    } else {
        let n = c as u32;
        if n <= 0x1f || (0x7f <= n && n <= 0x9f) {
            out.push('\\');
            out.push('u');
            out.push(hex(n / 4096 % 16));
            out.push(hex(n / 256 % 16));
            out.push(hex(n / 16 % 16));
            out.push(hex(n % 16));
        } else {
            out.push(c);
        }
    }
    assert(out@ =~= start + escape_char(c));
}

/// Appends Ruby's `inspect` of a string.
pub fn push_inspect_str(out: &mut Vec<char>, s: &String)
    ensures
        final(out)@ == old(out)@ + inspect_str_spec(s@),
{
    let ghost start = out@;
    out.push('"');
    let chars = chars_of(s.as_str());
    let mut i: usize = 0;
    while i < chars.len()
        invariant
            i <= chars.len(),
            chars@ == s@,
            out@ == start + seq!['"'] + escape_str(chars@.subrange(0, i as int)),
        decreases chars.len() - i,
    {
        push_escaped(out, chars[i]);
        assert(chars@.subrange(0, i + 1).drop_last() == chars@.subrange(0, i as int));
        i += 1;
    }
    assert(chars@.subrange(0, chars@.len() as int) == chars@);
    out.push('"');
    assert(out@ =~= start + inspect_str_spec(s@));
}

fn push_scalar(v: &Value, floats: &FloatFacts, out: &mut Vec<char>)
    requires
        !(v is Array),
        !(v is Hash),
    ensures
        final(out)@ == old(out)@ + scalar_text(v@, floats.facts@),
{
    let ghost start = out@;
    match v {
        Value::Bool(b) => {
            if *b {
                append(out, "true");
                proof { reveal_strlit("true"); }
            } else {
                append(out, "false");
                proof { reveal_strlit("false"); }
            }
        },
        Value::Int(i) => push_int(out, *i),
        Value::Float(f) => {
            let d = floats.display(&f.text);
            append(out, d.as_str());
        },
        Value::Str(s) => append(out, s.as_str()),
        _ => {},
    }
    assert(out@ =~= start + scalar_text(v@, floats.facts@));
}

/// Appends Ruby's `inspect` of a value.
pub fn push_inspect(v: &Value, floats: &FloatFacts, out: &mut Vec<char>)
    ensures
        final(out)@ == old(out)@ + inspect_spec(v@, floats.facts@),
    decreases v,
{
    let ghost start = out@;
    let ghost f = floats.facts@;
    match v {
        Value::Null => {
            out.push('n');
            out.push('i');
            out.push('l');
            assert(out@ =~= start + inspect_spec(v@, f));
        },
        Value::Str(s) => push_inspect_str(out, s),
        Value::Array(items) => {
            proof { lemma_values_view(items@); }
            out.push('[');
            let mut i: usize = 0;
            while i < items.len()
                invariant
                    *v == Value::Array(*items),
                    f == floats.facts@,
                    i <= items.len(),
                    values_view(items@).len() == items@.len(),
                    forall|j: int| 0 <= j < items@.len() ==> #[trigger] values_view(items@)[j] == value_view(items@[j]),
                    out@ == start + seq!['['] + join_values(values_view(items@).subrange(0, i as int), f),
                decreases items.len() - i,
            {
                assert(decreases_to!(*v => (*v)->Array_0));
                assert(decreases_to!(*items => items@));
                assert(decreases_to!(items@ => items@[i as int]));
                if i > 0 {
                    out.push(',');
                    out.push(' ');
                }
                push_inspect(&items[i], floats, out);
                proof {
                    let w = values_view(items@);
                    assert(w.subrange(0, i + 1).subrange(0, i as int) == w.subrange(0, i as int));
                    assert(w.subrange(0, i + 1)[i as int] == items@[i as int]@);
                }
                i += 1;
            }
            assert(values_view(items@).subrange(0, items@.len() as int) == values_view(items@));
            out.push(']');
            assert(out@ =~= start + inspect_spec(v@, f));
        },
        Value::Hash(m) => {
            proof { lemma_pairs_view(m.0@); }
            if m.0.len() == 0 {
                out.push('{');
                out.push('}');
                assert(out@ =~= start + inspect_spec(v@, f));
                return;
            }
            out.push('{');
            let mut i: usize = 0;
            while i < m.0.len()
                invariant
                    *v == Value::Hash(*m),
                    f == floats.facts@,
                    i <= m.0.len(),
                    pairs_view(m.0@).len() == m.0@.len(),
                    forall|j: int|
                        0 <= j < m.0@.len() ==> #[trigger] pairs_view(m.0@)[j] == (
                            value_view(m.0@[j].0),
                            value_view(m.0@[j].1),
                        ),
                    out@ == start + seq!['{'] + join_pairs(pairs_view(m.0@).subrange(0, i as int), f),
                decreases m.0.len() - i,
            {
                assert(decreases_to!(*v => (*v)->Hash_0));
                assert(decreases_to!(*m => m.0));
                assert(decreases_to!(m.0 => m.0@));
                assert(decreases_to!(m.0@ => m.0@[i as int]));
                assert(decreases_to!(m.0@[i as int] => m.0@[i as int].0));
                assert(decreases_to!(m.0@[i as int] => m.0@[i as int].1));
                if i > 0 {
                    out.push(',');
                    out.push(' ');
                }
                push_inspect(&m.0[i].0, floats, out);
                out.push(' ');
                out.push('=');
                out.push('>');
                out.push(' ');
                push_inspect(&m.0[i].1, floats, out);
                proof {
                    let w = pairs_view(m.0@);
                    assert(w.subrange(0, i + 1).subrange(0, i as int) == w.subrange(0, i as int));
                    assert(w.subrange(0, i + 1)[i as int] == (m.0@[i as int].0@, m.0@[i as int].1@));
                }
                i += 1;
                assert(out@ =~= start + seq!['{'] + join_pairs(pairs_view(m.0@).subrange(0, i as int), f));
            }
            assert(pairs_view(m.0@).subrange(0, m.0@.len() as int) == pairs_view(m.0@));
            out.push('}');
            assert(out@ =~= start + inspect_spec(v@, f));
        },
        _ => push_scalar(v, floats, out),
    }
}

/// Appends Ruby's `to_s` of a value.
pub fn push_to_s(v: &Value, floats: &FloatFacts, out: &mut Vec<char>)
    ensures
        final(out)@ == old(out)@ + to_s_spec(v@, floats.facts@),
{
    match v {
        Value::Array(_) => push_inspect(v, floats, out),
        Value::Hash(_) => push_inspect(v, floats, out),
        _ => push_scalar(v, floats, out),
    }
}

impl Value {
    /// Ruby's `to_s`.
    pub fn to_s(&self, floats: &FloatFacts) -> (r: String)
        ensures
            r@ == to_s_spec(self@, floats.facts@),
    {
        let mut out: Vec<char> = Vec::new();
        push_to_s(self, floats, &mut out);
        string_of(out.as_slice())
    }

    /// Ruby's `inspect`, as printed in error messages.
    pub fn inspect(&self, floats: &FloatFacts) -> (r: String)
        ensures
            r@ == inspect_spec(self@, floats.facts@),
    {
        let mut out: Vec<char> = Vec::new();
        push_inspect(self, floats, &mut out);
        string_of(out.as_slice())
    }

    /// The name of the Ruby class this value would have.
    pub fn class_name(&self) -> (r: &'static str)
        ensures
            r@ == class_name_spec(self@),
    {
        match self {
            Value::Null => "NilClass",
            Value::Bool(true) => "TrueClass",
            Value::Bool(false) => "FalseClass",
            Value::Int(_) => "Integer",
            Value::Float(_) => "Float",
            Value::Str(_) => "String",
            Value::Array(_) => "Array",
            Value::Hash(_) => "Hash",
        }
    }
}


// ---------------------------------------------------------------------------
// Scalars.
// ---------------------------------------------------------------------------

/// The tag handle of YAML's own types, as `!!` expands.
pub open spec fn core_handle() -> Seq<char> {
    "tag:yaml.org,2002:"@
}

/// The value of a scalar: a core tag decides its type, else a quoted or block
/// scalar is a string, and a plain one is typed by [`resolve_plain_spec`].
pub open spec fn scalar_spec(value: Seq<char>, plain: bool, tag: Option<(Seq<char>, Seq<char>)>) -> ValueV {
    let (handle, suffix) = match tag {
        Some(t) => t,
        None => (Seq::empty(), Seq::empty()),
    };
    if tag is Some && handle == core_handle() {
        if suffix == "str"@ {
            ValueV::Str(value)
        } else if suffix == "null"@ {
            ValueV::Null
        } else if suffix == "bool"@ {
            resolve_plain_spec(value)
        } else if suffix == "int"@ {
            match parse_int_spec(value) {
                Some(i) => ValueV::Int(i),
                None => ValueV::Str(value),
            }
        } else if suffix == "float"@ {
            match resolve_plain_spec(value) {
                ValueV::Int(i) => ValueV::Float(int_text(i)),
                other => other,
            }
        } else {
            ValueV::Str(value)
        }
    } else if !plain {
        ValueV::Str(value)
    } else {
        resolve_plain_spec(value)
    }
}

/// The value of a scalar event.
pub fn scalar(value: String, plain: bool, tag: Option<(String, String)>) -> (v: Value)
    ensures
        v@ == scalar_spec(value@, plain, match tag {
            Some((h, s)) => Some((h@, s@)),
            None => None,
        }),
{
    match tag {
        Some((handle, suffix)) => {
            if str_eq(handle.as_str(), "tag:yaml.org,2002:") {
                if str_eq(suffix.as_str(), "str") {
                    return Value::Str(value);
                } else if str_eq(suffix.as_str(), "null") {
                    return Value::Null;
                } else if str_eq(suffix.as_str(), "bool") {
                    return resolve_plain(value.as_str());
                } else if str_eq(suffix.as_str(), "int") {
                    let chars = chars_of(value.as_str());
                    return match parse_int(chars.as_slice()) {
                        Some(i) => Value::Int(i),
                        None => Value::Str(value),
                    };
                } else if str_eq(suffix.as_str(), "float") {
                    return match resolve_plain(value.as_str()) {
                        Value::Int(i) => {
                            let mut text: Vec<char> = Vec::new();
                            push_int(&mut text, i);
                            Value::Float(FloatLit { text: string_of(text.as_slice()) })
                        },
                        other => other,
                    };
                } else {
                    return Value::Str(value);
                }
            }
        },
        None => {},
    }
    if !plain {
        return Value::Str(value);
    }
    resolve_plain(value.as_str())
}

// ---------------------------------------------------------------------------
// Merge keys.
// ---------------------------------------------------------------------------

/// Inserts every pair, in order.
pub open spec fn insert_all(f: Seq<FloatFact>, m: Seq<(ValueV, ValueV)>, ps: Seq<(ValueV, ValueV)>) -> Seq<(ValueV, ValueV)>
    decreases ps.len(),
{
    if ps.len() == 0 {
        m
    } else {
        map_insert(f, insert_all(f, m, ps.drop_last()), ps.last().0, ps.last().1)
    }
}

pub open spec fn hash_pairs(v: ValueV) -> Seq<(ValueV, ValueV)> {
    match v {
        ValueV::Hash(ps) => ps,
        _ => Seq::empty(),
    }
}

/// The mappings of a `<<: [a, b, ...]` list merged into one, the earlier ones
/// winning: they are inserted last.
pub open spec fn merge_list(f: Seq<FloatFact>, items: Seq<ValueV>) -> Seq<(ValueV, ValueV)>
    decreases items.len(),
{
    if items.len() == 0 {
        Seq::empty()
    } else {
        insert_all(f, merge_list(f, items.subrange(1, items.len() as int)), hash_pairs(items[0]))
    }
}

pub open spec fn merge_key() -> ValueV {
    ValueV::Str(seq!['<', '<'])
}

/// One pair of a mapping being built, with Psych's merge keys.
pub open spec fn revive_step(f: Seq<FloatFact>, m: Seq<(ValueV, ValueV)>, key: ValueV, value: ValueV) -> Seq<(ValueV, ValueV)> {
    if key != merge_key() {
        map_insert(f, m, key, value)
    } else {
        match value {
            ValueV::Hash(merged) => insert_all(f, m, merged),
            ValueV::Array(items) => if forall|i: int| 0 <= i < items.len() ==> #[trigger] items[i] is Hash {
                insert_all(f, m, merge_list(f, items))
            } else {
                map_insert(f, m, key, value)
            },
            _ => map_insert(f, m, key, value),
        }
    }
}

/// Builds a mapping from its pairs in order, applying `<<` merge keys the way
/// Psych does: a merged mapping overrides the keys before it, and the keys
/// after it override it.
pub open spec fn revive_spec(f: Seq<FloatFact>, pairs: Seq<(ValueV, ValueV)>) -> Seq<(ValueV, ValueV)>
    decreases pairs.len(),
{
    if pairs.len() == 0 {
        Seq::empty()
    } else {
        revive_step(f, revive_spec(f, pairs.drop_last()), pairs.last().0, pairs.last().1)
    }
}

fn insert_all_from(m: &mut Mapping, ps: &Mapping, floats: &FloatFacts)
    ensures
        final(m)@ == insert_all(floats.facts@, old(m)@, ps@),
{
    proof { lemma_pairs_view(ps.0@); }
    let ghost start = m@;
    let mut i: usize = 0;
    while i < ps.0.len()
        invariant
            i <= ps.0.len(),
            pairs_view(ps.0@).len() == ps.0@.len(),
            forall|j: int|
                0 <= j < ps.0@.len() ==> #[trigger] pairs_view(ps.0@)[j] == (
                    value_view(ps.0@[j].0),
                    value_view(ps.0@[j].1),
                ),
            m@ == insert_all(floats.facts@, start, pairs_view(ps.0@).subrange(0, i as int)),
        decreases ps.0.len() - i,
    {
        let k = copy_value(&ps.0[i].0);
        let v = copy_value(&ps.0[i].1);
        m.insert(k, v, floats);
        proof {
            let w = pairs_view(ps.0@);
            assert(w.subrange(0, i + 1).drop_last() == w.subrange(0, i as int));
        }
        i += 1;
    }
    assert(pairs_view(ps.0@).subrange(0, ps.0@.len() as int) == pairs_view(ps.0@));
}

proof fn lemma_merge_list_step(f: Seq<FloatFact>, items: Seq<ValueV>, i: int)
    requires
        0 <= i < items.len(),
    ensures
        merge_list(f, items.subrange(i, items.len() as int)) == insert_all(
            f,
            merge_list(f, items.subrange(i + 1, items.len() as int)),
            hash_pairs(items[i]),
        ),
{
    let s = items.subrange(i, items.len() as int);
    assert(s.subrange(1, s.len() as int) == items.subrange(i + 1, items.len() as int));
}

/// The value of the last pair whose key equals `k`, if any.
pub open spec fn last_get(f: Seq<FloatFact>, ps: Seq<(ValueV, ValueV)>, k: ValueV) -> Option<ValueV>
    decreases ps.len(),
{
    if ps.len() == 0 {
        None
    } else if value_eq(f, ps.last().0, k) {
        Some(ps.last().1)
    } else {
        last_get(f, ps.drop_last(), k)
    }
}

/// Inserting pairs in turn keeps keys distinct; each key then reads the value
/// of the last pair with an equal key, or what it read before.
proof fn lemma_insert_all(f: Seq<FloatFact>, m: Seq<(ValueV, ValueV)>, ps: Seq<(ValueV, ValueV)>)
    requires
        keys_distinct(f, m),
    ensures
        keys_distinct(f, insert_all(f, m, ps)),
        forall|k: ValueV| #[trigger] map_get(f, insert_all(f, m, ps), k) == match last_get(f, ps, k) {
            Some(v) => Some(v),
            None => map_get(f, m, k),
        },
    decreases ps.len(),
{
    if ps.len() > 0 {
        let prev = insert_all(f, m, ps.drop_last());
        let (pk, pv) = ps.last();
        lemma_insert_all(f, m, ps.drop_last());
        law_insert_keeps_keys_distinct(f, prev, pk, pv);
        assert forall|k: ValueV| #[trigger] map_get(f, insert_all(f, m, ps), k) == match last_get(f, ps, k) {
            Some(v) => Some(v),
            None => map_get(f, m, k),
        } by {
            if !value_eq(f, pk, k) {
                assert(map_get(f, insert_all(f, m, ps), k) == map_get(f, prev, k));
                assert(last_get(f, ps, k) == last_get(f, ps.drop_last(), k));
            }
        }
    }
}

/// In a mapping with distinct keys, the last pair with a key equal to `k` is
/// its only one.
proof fn lemma_last_get_distinct(f: Seq<FloatFact>, ps: Seq<(ValueV, ValueV)>, k: ValueV)
    requires
        keys_distinct(f, ps),
    ensures
        last_get(f, ps, k) == map_get(f, ps, k),
    decreases ps.len(),
{
    lemma_find_key(f, ps, k, 0);
    if ps.len() > 0 {
        let init = ps.drop_last();
        let n = ps.len() - 1;
        assert(keys_distinct(f, init)) by {
            assert forall|i: int, j: int| 0 <= i < j < init.len() implies !value_eq(f, init[i].0, init[j].0) by {
                assert(init[i] == ps[i] && init[j] == ps[j]);
            }
        }
        lemma_last_get_distinct(f, init, k);
        lemma_find_key(f, init, k, 0);
        if value_eq(f, ps.last().0, k) {
            assert(find_key(f, ps, k, 0) == Some(n)) by {
                if let Some(j) = find_key(f, ps, k, 0) {
                    if j < n {
                        lemma_eq_symmetric(f, ps[n].0, k);
                        lemma_eq_transitive(f, ps[j].0, k, ps[n].0);
                    }
                }
            }
        } else {
            match find_key(f, ps, k, 0) {
                Some(j) => {
                    assert(j < n);
                    assert(init[j] == ps[j]);
                    assert(find_key(f, init, k, 0) == Some(j)) by {
                        if let Some(j2) = find_key(f, init, k, 0) {
                            assert(init[j2] == ps[j2]);
                        }
                        assert forall|m: int| 0 <= m < j implies !value_eq(f, #[trigger] init[m].0, k) by {
                            assert(init[m] == ps[m]);
                        }
                    }
                },
                None => {
                    assert(find_key(f, init, k, 0).is_none()) by {
                        if let Some(j2) = find_key(f, init, k, 0) {
                            assert(init[j2] == ps[j2]);
                        }
                    }
                },
            }
        }
    }
}

/// A mapping built with merge keys has no two equal keys.
proof fn lemma_revive_distinct(f: Seq<FloatFact>, pairs: Seq<(ValueV, ValueV)>)
    ensures
        keys_distinct(f, revive_spec(f, pairs)),
    decreases pairs.len(),
{
    if pairs.len() > 0 {
        lemma_revive_distinct(f, pairs.drop_last());
        let m = revive_spec(f, pairs.drop_last());
        let (key, value) = pairs.last();
        law_insert_keeps_keys_distinct(f, m, key, value);
        match value {
            ValueV::Hash(merged) => lemma_insert_all(f, m, merged),
            ValueV::Array(items) => lemma_insert_all(f, m, merge_list(f, items)),
            _ => {},
        }
    }
}

/// `<<` merges a mapping into the one being built: each of its keys
/// overrides the value set before the merge, the other keys keep theirs,
/// and a key set after the merge overrides the merged value. (A key that is
/// not equal to itself, such as NaN, can never be read back.)
pub proof fn law_merge_keys(
    f: Seq<FloatFact>,
    pairs: Seq<(ValueV, ValueV)>,
    merged: Seq<(ValueV, ValueV)>,
    k: ValueV,
    v: ValueV,
)
    requires
        keys_distinct(f, merged),
        k != merge_key(),
        value_eq(f, k, k),
    ensures
        map_get(f, revive_spec(f, pairs.push((merge_key(), ValueV::Hash(merged)))), k) == match map_get(f, merged, k) {
            Some(x) => Some(x),
            None => map_get(f, revive_spec(f, pairs), k),
        },
        map_get(f, revive_spec(f, pairs.push((merge_key(), ValueV::Hash(merged))).push((k, v))), k) == Some(v),
{
    let with_merge = pairs.push((merge_key(), ValueV::Hash(merged)));
    assert(with_merge.drop_last() == pairs);
    lemma_revive_distinct(f, pairs);
    lemma_insert_all(f, revive_spec(f, pairs), merged);
    lemma_last_get_distinct(f, merged, k);
    assert(map_get(f, insert_all(f, revive_spec(f, pairs), merged), k) == match last_get(f, merged, k) {
        Some(x) => Some(x),
        None => map_get(f, revive_spec(f, pairs), k),
    });
    let after = with_merge.push((k, v));
    assert(after.drop_last() == with_merge);
    lemma_revive_distinct(f, with_merge);
    law_insert_keeps_keys_distinct(f, revive_spec(f, with_merge), k, v);
}

/// Builds a mapping from its pairs, as [`revive_spec`] says.
pub fn revive_map(pairs: Vec<(Value, Value)>, floats: &FloatFacts) -> (m: Mapping)
    ensures
        m@ == revive_spec(floats.facts@, pairs_view(pairs@)),
{
    proof { lemma_pairs_view(pairs@); }
    let mut map = Mapping::new();
    let mut i: usize = 0;
    while i < pairs.len()
        invariant
            i <= pairs.len(),
            pairs_view(pairs@).len() == pairs@.len(),
            forall|j: int|
                0 <= j < pairs@.len() ==> #[trigger] pairs_view(pairs@)[j] == (
                    value_view(pairs@[j].0),
                    value_view(pairs@[j].1),
                ),
            map@ == revive_spec(floats.facts@, pairs_view(pairs@).subrange(0, i as int)),
        decreases pairs.len() - i,
    {
        proof {
            let w = pairs_view(pairs@);
            assert(w.subrange(0, i + 1).drop_last() == w.subrange(0, i as int));
            assert(w.subrange(0, i + 1).last() == (pairs@[i as int].0@, pairs@[i as int].1@));
        }
        let key = &pairs[i].0;
        let value = &pairs[i].1;
        let ghost prev = map@;
        assert(prev == revive_spec(floats.facts@, pairs_view(pairs@).subrange(0, i as int)));
        let is_merge = match key {
            Value::Str(k) => str_eq(k.as_str(), "<<"),
            _ => false,
        };
        proof {
            reveal_strlit("<<");
            assert("<<"@ =~= seq!['<', '<']);
            if key@ == merge_key() {
                assert(key is Str);
            }
        }
        assert(is_merge == (key@ == merge_key()));
        if !is_merge {
            map.insert(copy_value(key), copy_value(value), floats);
            assert(map@ == revive_step(floats.facts@, prev, key@, value@));
        } else {
            match value {
                Value::Hash(merged) => {
                    insert_all_from(&mut map, merged, floats);
                    assert(value@ == ValueV::Hash(merged@));
                    assert(map@ == revive_step(floats.facts@, prev, key@, value@));
                },
                Value::Array(items) => {
                    proof { lemma_values_view(items@); }
                    let mut all_maps = true;
                    let mut j: usize = 0;
                    while j < items.len()
                        invariant
                            j <= items.len(),
                            values_view(items@).len() == items@.len(),
                            forall|x: int| 0 <= x < items@.len() ==> #[trigger] values_view(items@)[x] == value_view(items@[x]),
                            all_maps == forall|x: int| 0 <= x < j ==> #[trigger] values_view(items@)[x] is Hash,
                        decreases items.len() - j,
                    {
                        match &items[j] {
                            Value::Hash(_) => {
                                assert(values_view(items@)[j as int] is Hash);
                            },
                            _ => {
                                assert(!(values_view(items@)[j as int] is Hash));
                                all_maps = false;
                            },
                        }
                        j += 1;
                    }
                    assert(value@ == ValueV::Array(values_view(items@)));
                    if all_maps {
                        let mut merged = Mapping::new();
                        let mut j: usize = items.len();
                        while j > 0
                            invariant
                                j <= items.len(),
                                values_view(items@).len() == items@.len(),
                                forall|x: int| 0 <= x < items@.len() ==> #[trigger] values_view(items@)[x] == value_view(items@[x]),
                                merged@ == merge_list(floats.facts@, values_view(items@).subrange(j as int, items@.len() as int)),
                            decreases j,
                        {
                            j -= 1;
                            proof { lemma_merge_list_step(floats.facts@, values_view(items@), j as int); }
                            match &items[j] {
                                Value::Hash(m) => insert_all_from(&mut merged, m, floats),
                                _ => {},
                            }
                        }
                        assert(values_view(items@).subrange(0, items@.len() as int) == values_view(items@));
                        insert_all_from(&mut map, &merged, floats);
                        assert(map@ == revive_step(floats.facts@, prev, key@, value@));
                    } else {
                        map.insert(copy_value(key), copy_value(value), floats);
                        assert(map@ == revive_step(floats.facts@, prev, key@, value@));
                    }
                },
                _ => {
                    map.insert(copy_value(key), copy_value(value), floats);
                    assert(map@ == revive_step(floats.facts@, prev, key@, value@));
                },
            }
        }
        i += 1;
    }
    assert(pairs_view(pairs@).subrange(0, pairs@.len() as int) == pairs_view(pairs@));
    map
}


// ---------------------------------------------------------------------------
// The parser's events, and building values from them.
// ---------------------------------------------------------------------------

/// One event of yaml-rust2's parser, as the builder reads it.
#[derive(Debug)]
pub enum YamlEvent {
    StreamEnd,
    DocumentEnd,
    /// The anchor id an alias refers to.
    Alias(usize),
    /// The text, whether it was written plain, its anchor id (0 for none),
    /// and its tag as (handle, suffix).
    Scalar(String, bool, usize, Option<(String, String)>),
    /// The anchor id of the sequence.
    SequenceStart(usize),
    SequenceEnd,
    /// The anchor id of the mapping.
    MappingStart(usize),
    MappingEnd,
    /// The start of the stream or of a document.
    Other,
}

/// A collection being built: a sequence's items, or a mapping's pairs and the
/// key waiting for its value; each with its anchor id.
pub enum FrameV {
    List(Seq<ValueV>, usize),
    Pairs(Seq<(ValueV, ValueV)>, Option<ValueV>, usize),
}

/// The state of a build: the open collections, the anchored values (a later
/// one shadows an earlier one with the same id), the document's value once
/// complete, and the first error.
pub struct BuildV {
    pub stack: Seq<FrameV>,
    pub anchors: Seq<(usize, ValueV)>,
    pub root: Option<ValueV>,
    pub error: Option<Seq<char>>,
}

pub open spec fn build_start() -> BuildV {
    BuildV { stack: Seq::empty(), anchors: Seq::empty(), root: None, error: None }
}

pub open spec fn tag_view(tag: Option<(String, String)>) -> Option<(Seq<char>, Seq<char>)> {
    match tag {
        Some((h, s)) => Some((h@, s@)),
        None => None,
    }
}

/// The value last anchored under `id`.
pub open spec fn anchor_get(a: Seq<(usize, ValueV)>, id: usize) -> Option<ValueV>
    decreases a.len(),
{
    if a.len() == 0 {
        None
    } else if a.last().0 == id {
        Some(a.last().1)
    } else {
        anchor_get(a.drop_last(), id)
    }
}

/// A complete value, placed where the build is: as the document's value (the
/// first one stays), as the next item of a sequence, or as a key or a value
/// of a mapping.
pub open spec fn place(b: BuildV, v: ValueV, anchor: usize) -> BuildV {
    let anchors = if anchor > 0 { b.anchors.push((anchor, v)) } else { b.anchors };
    if b.stack.len() == 0 {
        BuildV { anchors, root: if b.root is Some { b.root } else { Some(v) }, ..b }
    } else {
        let top = match b.stack.last() {
            FrameV::List(items, a) => FrameV::List(items.push(v), a),
            FrameV::Pairs(ps, key, a) => match key {
                None => FrameV::Pairs(ps, Some(v), a),
                Some(k) => FrameV::Pairs(ps.push((k, v)), None, a),
            },
        };
        BuildV { anchors, stack: b.stack.drop_last().push(top), ..b }
    }
}

pub open spec fn alias_error(id: usize) -> Seq<char> {
    "unknown alias "@ + nat_text(id as nat)
}

/// What one event does to a build.
pub open spec fn build_step(f: Seq<FloatFact>, b: BuildV, e: YamlEvent) -> BuildV {
    match e {
        YamlEvent::Scalar(value, plain, anchor, tag) => place(b, scalar_spec(value@, plain, tag_view(tag)), anchor),
        YamlEvent::Alias(id) => match anchor_get(b.anchors, id) {
            Some(v) => place(b, v, 0),
            None => if b.error is Some { b } else { BuildV { error: Some(alias_error(id)), ..b } },
        },
        YamlEvent::SequenceStart(anchor) => BuildV { stack: b.stack.push(FrameV::List(Seq::empty(), anchor)), ..b },
        YamlEvent::MappingStart(anchor) => BuildV {
            stack: b.stack.push(FrameV::Pairs(Seq::empty(), None, anchor)),
            ..b
        },
        YamlEvent::SequenceEnd => if b.stack.len() == 0 {
            b
        } else {
            let popped = BuildV { stack: b.stack.drop_last(), ..b };
            match b.stack.last() {
                FrameV::List(items, anchor) => place(popped, ValueV::Array(items), anchor),
                _ => popped,
            }
        },
        YamlEvent::MappingEnd => if b.stack.len() == 0 {
            b
        } else {
            let popped = BuildV { stack: b.stack.drop_last(), ..b };
            match b.stack.last() {
                FrameV::Pairs(ps, _, anchor) => place(popped, ValueV::Hash(revive_spec(f, ps)), anchor),
                _ => popped,
            }
        },
        _ => b,
    }
}

/// The document's value once the build is over: `Null` for an empty document.
pub open spec fn finish_spec(b: BuildV) -> Result<ValueV, Seq<char>> {
    match b.error {
        Some(e) => Err(e),
        None => Ok(
            match b.root {
                Some(v) => v,
                None => ValueV::Null,
            },
        ),
    }
}

/// Feeds the events from `i` on to the build, up to the end of the first
/// document, the end of the stream or the first error.
pub open spec fn run_events(f: Seq<FloatFact>, events: Seq<Result<YamlEvent, String>>, i: int, b: BuildV) -> Result<ValueV, Seq<char>>
    decreases events.len() - i,
{
    if i < 0 || i >= events.len() {
        finish_spec(b)
    } else {
        match events[i] {
            Err(m) => Err(m@),
            Ok(e) => if e is StreamEnd || e is DocumentEnd {
                finish_spec(b)
            } else {
                run_events(f, events, i + 1, build_step(f, b, e))
            },
        }
    }
}

enum Frame {
    List { items: Vec<Value>, anchor: usize },
    Pairs { pairs: Vec<(Value, Value)>, key: Option<Value>, anchor: usize },
}

spec fn frame_view(f: Frame) -> FrameV {
    match f {
        Frame::List { items, anchor } => FrameV::List(values_view(items@), anchor),
        Frame::Pairs { pairs, key, anchor } => FrameV::Pairs(
            pairs_view(pairs@),
            match key {
                Some(k) => Some(k@),
                None => None,
            },
            anchor,
        ),
    }
}

/// Builds the value of a document from the parser's events.
pub struct Builder {
    stack: Vec<Frame>,
    anchors: Vec<(usize, Value)>,
    root: Option<Value>,
    error: Option<String>,
}

impl View for Builder {
    type V = BuildV;

    closed spec fn view(&self) -> BuildV {
        BuildV {
            stack: self.stack@.map_values(|f: Frame| frame_view(f)),
            anchors: self.anchors@.map_values(|p: (usize, Value)| (p.0, p.1@)),
            root: match self.root {
                Some(v) => Some(v@),
                None => None,
            },
            error: match self.error {
                Some(e) => Some(e@),
                None => None,
            },
        }
    }
}

impl Builder {
    pub fn new() -> (b: Builder)
        ensures
            b@ == build_start(),
    {
        let b = Builder { stack: Vec::new(), anchors: Vec::new(), root: None, error: None };
        assert(b@.stack =~= Seq::<FrameV>::empty());
        assert(b@.anchors =~= Seq::<(usize, ValueV)>::empty());
        b
    }

    fn place(&mut self, v: Value, anchor: usize)
        ensures
            final(self)@ == place(old(self)@, v@, anchor),
    {
        let ghost b = self@;
        if anchor > 0 {
            let copy = copy_value(&v);
            self.anchors.push((anchor, copy));
            assert(self@.anchors =~= b.anchors.push((anchor, v@)));
        }
        match self.stack.pop() {
            None => {
                if self.root.is_none() {
                    self.root = Some(v);
                }
                assert(self@ == place(b, v@, anchor));
            },
            Some(Frame::List { mut items, anchor: a }) => {
                proof { lemma_values_view_push(items@, v); }
                items.push(v);
                self.stack.push(Frame::List { items, anchor: a });
                assert(self@.stack =~= place(b, v@, anchor).stack);
            },
            Some(Frame::Pairs { mut pairs, key, anchor: a }) => {
                match key {
                    None => {
                        self.stack.push(Frame::Pairs { pairs, key: Some(v), anchor: a });
                    },
                    Some(k) => {
                        proof { lemma_pairs_view_push(pairs@, k, v); }
                        pairs.push((k, v));
                        self.stack.push(Frame::Pairs { pairs, key: None, anchor: a });
                    },
                }
                assert(self@.stack =~= place(b, v@, anchor).stack);
            },
        }
    }

    /// Takes in one event of the parser.
    pub fn on_event(&mut self, event: YamlEvent, floats: &FloatFacts)
        ensures
            final(self)@ == build_step(floats.facts@, old(self)@, event),
    {
        let ghost b = self@;
        let ghost e = event;
        match event {
            YamlEvent::Scalar(value, plain, anchor, tag) => {
                let v = scalar(value, plain, tag);
                self.place(v, anchor);
            },
            YamlEvent::Alias(id) => {
                let mut j: usize = self.anchors.len();
                let mut found: Option<usize> = None;
                assert(b.anchors.subrange(0, j as int) =~= b.anchors);
                while j > 0
                    invariant_except_break
                        found.is_none(),
                        anchor_get(b.anchors, id) == anchor_get(b.anchors.subrange(0, j as int), id),
                    invariant
                        j <= self.anchors.len(),
                        self@ == b,
                    ensures
                        match found {
                            Some(k) => k < self.anchors.len() && anchor_get(b.anchors, id) == Some(
                                self.anchors@[k as int].1@,
                            ),
                            None => anchor_get(b.anchors, id).is_none(),
                        },
                    decreases j,
                {
                    let ghost pre = b.anchors.subrange(0, j as int);
                    assert(pre.drop_last() == b.anchors.subrange(0, j - 1));
                    assert(pre.last() == (self.anchors@[j - 1].0, self.anchors@[j - 1].1@));
                    if self.anchors[j - 1].0 == id {
                        found = Some(j - 1);
                        break;
                    }
                    j -= 1;
                    if j == 0 {
                        assert(b.anchors.subrange(0, 0) =~= Seq::<(usize, ValueV)>::empty());
                    }
                }
                match found {
                    Some(k) => {
                        let v = copy_value(&self.anchors[k].1);
                        self.place(v, 0);
                    },
                    None => {
                        if self.error.is_none() {
                            let mut message = chars_of("unknown alias ");
                            push_nat(&mut message, id as u64);
                            self.error = Some(string_of(message.as_slice()));
                        }
                    },
                }
            },
            YamlEvent::SequenceStart(anchor) => {
                self.stack.push(Frame::List { items: Vec::new(), anchor });
                assert(self@.stack =~= build_step(floats.facts@, b, e).stack);
            },
            YamlEvent::MappingStart(anchor) => {
                self.stack.push(Frame::Pairs { pairs: Vec::new(), key: None, anchor });
                assert(self@.stack =~= build_step(floats.facts@, b, e).stack);
            },
            YamlEvent::SequenceEnd => {
                let top = self.stack.pop();
                proof {
                    if b.stack.len() > 0 {
                        assert(self@.stack =~= b.stack.drop_last());
                    }
                }
                match top {
                    Some(Frame::List { items, anchor }) => {
                        assert(self@ == BuildV { stack: b.stack.drop_last(), ..b });
                        self.place(Value::Array(items), anchor);
                    },
                    Some(Frame::Pairs { .. }) => {
                        assert(self@ == BuildV { stack: b.stack.drop_last(), ..b });
                    },
                    None => {},
                }
            },
            YamlEvent::MappingEnd => {
                let top = self.stack.pop();
                proof {
                    if b.stack.len() > 0 {
                        assert(self@.stack =~= b.stack.drop_last());
                    }
                }
                match top {
                    Some(Frame::Pairs { pairs, anchor, .. }) => {
                        assert(self@ == BuildV { stack: b.stack.drop_last(), ..b });
                        let m = revive_map(pairs, floats);
                        self.place(Value::Hash(m), anchor);
                    },
                    Some(Frame::List { .. }) => {
                        assert(self@ == BuildV { stack: b.stack.drop_last(), ..b });
                    },
                    None => {},
                }
            },
            _ => {},
        }
    }

    /// The document's value: `Null` for an empty document.
    pub fn finish(self) -> (r: Result<Value, String>)
        ensures
            match r {
                Ok(v) => finish_spec(self@) == Ok::<ValueV, Seq<char>>(v@),
                Err(m) => finish_spec(self@) == Err::<ValueV, Seq<char>>(m@),
            },
    {
        match self.error {
            Some(e) => Err(e),
            None => match self.root {
                Some(v) => Ok(v),
                None => Ok(Value::Null),
            },
        }
    }
}


// ---------------------------------------------------------------------------
// yaml-rust2's parser.
// ---------------------------------------------------------------------------

#[verifier::external_type_specification]
#[verifier::external_body]
#[verifier::reject_recursive_types(T)]
pub struct ExParser<T>(Parser<T>);

/// The events yaml-rust2's parser delivers for `source`, each converted to a
/// [`YamlEvent`] (a scan error to its message), up to and including the
/// first end of the stream or error.
pub uninterp spec fn yaml_events(source: Seq<char>) -> Seq<Result<YamlEvent, String>>;

/// The events a parser has still to deliver, up to and including the first
/// end of the stream or error.
pub uninterp spec fn pending_events(parser: Parser<std::vec::IntoIter<char>>) -> Seq<Result<YamlEvent, String>>;

/// The end of the stream, or an error: the parser has nothing more to say.
pub open spec fn is_terminal(e: Result<YamlEvent, String>) -> bool {
    match e {
        Err(_) => true,
        Ok(YamlEvent::StreamEnd) => true,
        _ => false,
    }
}

/// `Parser::new` over the characters of `source`. Its contract says that the
/// parser will deliver the events of `source`, and that it reaches the end of
/// the stream or an error after finitely many of them: the scanner consumes
/// its finite input and the parser ends in its `End` state or on an error.
#[verifier::external_body]
fn new_parser(source: &str) -> (p: Parser<std::vec::IntoIter<char>>)
    ensures
        pending_events(p) == yaml_events(source@),
        pending_events(p).len() > 0,
        is_terminal(pending_events(p).last()),
        forall|i: int| 0 <= i < pending_events(p).len() - 1 ==> !is_terminal(#[trigger] pending_events(p)[i]),
{
    Parser::new(source.chars().collect::<Vec<char>>().into_iter())
}

/// `Parser::next_token`: the next event, its position dropped. Only the
/// sequence and mapping tags are not kept, which the builder never reads.
#[verifier::external_body]
fn next_event(p: &mut Parser<std::vec::IntoIter<char>>) -> (r: Result<YamlEvent, String>)
    requires
        pending_events(*old(p)).len() > 0,
    ensures
        r == pending_events(*old(p))[0],
        pending_events(*final(p)) == pending_events(*old(p)).drop_first(),
{
    let (ev, _) = match p.next_token() { Ok(t) => t, Err(e) => return Err(e.to_string()) };
    Ok(match ev {
        Event::Scalar(v, s, a, t) => YamlEvent::Scalar(v, matches!(s, TScalarStyle::Plain), a, t.map(|t| (t.handle, t.suffix))),
        Event::Alias(a) => YamlEvent::Alias(a),
        Event::SequenceStart(a, _) => YamlEvent::SequenceStart(a),
        Event::SequenceEnd => YamlEvent::SequenceEnd,
        Event::MappingStart(a, _) => YamlEvent::MappingStart(a),
        Event::MappingEnd => YamlEvent::MappingEnd,
        Event::DocumentEnd => YamlEvent::DocumentEnd,
        Event::StreamEnd => YamlEvent::StreamEnd,
        _ => YamlEvent::Other,
    })
}

/// What loading `source` gives: the value of its first document, built from
/// the parser's events.
pub open spec fn load_spec(f: Seq<FloatFact>, source: Seq<char>) -> Result<ValueV, Seq<char>> {
    run_events(f, yaml_events(source), 0, build_start())
}

/// Parses the first document of `source`. An empty document is `Null`.
/// Float keys are compared through `floats`, as [`value_eq`] says.
pub fn load(source: &str, floats: &FloatFacts) -> (r: Result<Value, String>)
    ensures
        match r {
            Ok(v) => load_spec(floats.facts@, source@) == Ok::<ValueV, Seq<char>>(v@),
            Err(m) => load_spec(floats.facts@, source@) == Err::<ValueV, Seq<char>>(m@),
        },
{
    let mut parser = new_parser(source);
    let ghost events = yaml_events(source@);
    let mut builder = Builder::new();
    let ghost mut i: int = 0;
    assert(events.subrange(0, events.len() as int) == events);
    loop
        invariant
            0 <= i < events.len(),
            events == yaml_events(source@),
            pending_events(parser) == events.subrange(i, events.len() as int),
            is_terminal(events.last()),
            forall|j: int| 0 <= j < events.len() - 1 ==> !is_terminal(#[trigger] events[j]),
            run_events(floats.facts@, events, i, builder@) == load_spec(floats.facts@, source@),
        decreases events.len() - i,
    {
        let e = next_event(&mut parser);
        assert(e == events[i]);
        match e {
            Err(m) => {
                return Err(m);
            },
            Ok(YamlEvent::StreamEnd) => {
                return builder.finish();
            },
            Ok(YamlEvent::DocumentEnd) => {
                return builder.finish();
            },
            Ok(ev) => {
                assert(!is_terminal(events[i]));
                assert(i < events.len() - 1);
                let ghost before = builder@;
                builder.on_event(ev, floats);
                proof {
                    assert(events.subrange(i, events.len() as int).drop_first() == events.subrange(i + 1, events.len() as int));
                    i = i + 1;
                }
            },
        }
    }
}


// ---------------------------------------------------------------------------
// The float literals of a document, for the caller to fill in their facts.
// ---------------------------------------------------------------------------

pub open spec fn floats_in(v: ValueV) -> Seq<Seq<char>>
    decreases v,
{
    match v {
        ValueV::Float(t) => seq![t],
        ValueV::Array(items) => floats_in_values(items),
        ValueV::Hash(pairs) => floats_in_pairs(pairs),
        _ => Seq::empty(),
    }
}

pub open spec fn floats_in_values(items: Seq<ValueV>) -> Seq<Seq<char>>
    decreases items,
{
    if items.len() == 0 {
        Seq::empty()
    } else {
        floats_in_values(items.subrange(0, items.len() - 1)) + floats_in(items[items.len() - 1])
    }
}

pub open spec fn floats_in_pairs(pairs: Seq<(ValueV, ValueV)>) -> Seq<Seq<char>>
    decreases pairs,
{
    if pairs.len() == 0 {
        Seq::empty()
    } else {
        let last = pairs[pairs.len() - 1];
        floats_in_pairs(pairs.subrange(0, pairs.len() - 1)) + floats_in(last.0) + floats_in(last.1)
    }
}

/// Appends the float literals of a value, in document order.
pub fn push_float_literals(v: &Value, out: &mut Vec<String>)
    ensures
        final(out)@.map_values(|s: String| s@) == old(out)@.map_values(|s: String| s@) + floats_in(v@),
    decreases v,
{
    let ghost start = out@.map_values(|s: String| s@);
    match v {
        Value::Float(f) => {
            out.push(f.text.clone());
            assert(out@.map_values(|s: String| s@) =~= start + floats_in(v@));
        },
        Value::Array(items) => {
            proof { lemma_values_view(items@); }
            let mut i: usize = 0;
            while i < items.len()
                invariant
                    *v == Value::Array(*items),
                    i <= items.len(),
                    values_view(items@).len() == items@.len(),
                    forall|j: int| 0 <= j < items@.len() ==> #[trigger] values_view(items@)[j] == value_view(items@[j]),
                    out@.map_values(|s: String| s@) == start + floats_in_values(values_view(items@).subrange(0, i as int)),
                decreases items.len() - i,
            {
                assert(decreases_to!(*v => (*v)->Array_0));
                assert(decreases_to!(*items => items@));
                assert(decreases_to!(items@ => items@[i as int]));
                push_float_literals(&items[i], out);
                proof {
                    let w = values_view(items@);
                    assert(w.subrange(0, i + 1).subrange(0, i as int) == w.subrange(0, i as int));
                    assert(w.subrange(0, i + 1)[i as int] == items@[i as int]@);
                }
                i += 1;
            }
            assert(values_view(items@).subrange(0, items@.len() as int) == values_view(items@));
        },
        Value::Hash(m) => {
            proof { lemma_pairs_view(m.0@); }
            let mut i: usize = 0;
            while i < m.0.len()
                invariant
                    *v == Value::Hash(*m),
                    i <= m.0.len(),
                    pairs_view(m.0@).len() == m.0@.len(),
                    forall|j: int|
                        0 <= j < m.0@.len() ==> #[trigger] pairs_view(m.0@)[j] == (
                            value_view(m.0@[j].0),
                            value_view(m.0@[j].1),
                        ),
                    out@.map_values(|s: String| s@) == start + floats_in_pairs(pairs_view(m.0@).subrange(0, i as int)),
                decreases m.0.len() - i,
            {
                assert(decreases_to!(*v => (*v)->Hash_0));
                assert(decreases_to!(*m => m.0));
                assert(decreases_to!(m.0 => m.0@));
                assert(decreases_to!(m.0@ => m.0@[i as int]));
                assert(decreases_to!(m.0@[i as int] => m.0@[i as int].0));
                assert(decreases_to!(m.0@[i as int] => m.0@[i as int].1));
                push_float_literals(&m.0[i].0, out);
                push_float_literals(&m.0[i].1, out);
                proof {
                    let w = pairs_view(m.0@);
                    assert(w.subrange(0, i + 1).subrange(0, i as int) == w.subrange(0, i as int));
                    assert(w.subrange(0, i + 1)[i as int] == (m.0@[i as int].0@, m.0@[i as int].1@));
                }
                i += 1;
            }
            assert(pairs_view(m.0@).subrange(0, m.0@.len() as int) == pairs_view(m.0@));
        },
        _ => {
            assert(out@.map_values(|s: String| s@) =~= start + floats_in(v@));
        },
    }
}

impl Value {
    /// The float literals the value holds, in document order: the texts the
    /// caller gives the facts of.
    pub fn float_literals(&self) -> (r: Vec<String>)
        ensures
            r@.map_values(|s: String| s@) == floats_in(self@),
    {
        let mut out: Vec<String> = Vec::new();
        assert(out@.map_values(|s: String| s@) =~= Seq::<Seq<char>>::empty());
        push_float_literals(self, &mut out);
        out
    }
}

} // verus!
