use vstd::prelude::*;

verus! {

/// A structured value tree: what decoding a byte buffer produces and what
/// encoding consumes.
///
/// Integers decoded from unsigned layout kinds are `UInt`; integers decoded
/// from signed kinds are `Int`. Floating-point values are carried as their
/// IEEE 754 bit patterns (`F32Bits`, `F64Bits`); rendering those bits as
/// decimal text is up to the caller. Mappings are kept as ordered key/value
/// pairs; encoding looks keys up by name, so pair order never changes the
/// produced bytes.
#[derive(Debug)]
pub enum Value {
    Null,
    Bool(bool),
    UInt(u64),
    Int(i64),
    F32Bits(u32),
    F64Bits(u64),
    Str(String),
    Arr(Vec<Value>),
    Obj(Vec<(String, Value)>),
}

/// The mathematical model of a [`Value`]: the same tree over `Seq` and
/// `Seq<char>` instead of `Vec` and `String`.
pub enum ValueModel {
    Null,
    Bool(bool),
    UInt(u64),
    Int(i64),
    F32Bits(u32),
    F64Bits(u64),
    Str(Seq<char>),
    Arr(Seq<ValueModel>),
    Obj(Seq<(Seq<char>, ValueModel)>),
}

/// The models of a sequence of values, elementwise.
pub open spec fn models_of(items: Seq<Value>) -> Seq<ValueModel>
    decreases items,
{
    Seq::new(
        items.len(),
        |i: int|
            if 0 <= i < items.len() {
                items[i].model()
            } else {
                ValueModel::Null
            },
    )
}

/// The models of a sequence of named values, elementwise.
pub open spec fn pairs_of(pairs: Seq<(String, Value)>) -> Seq<(Seq<char>, ValueModel)>
    decreases pairs,
{
    Seq::new(
        pairs.len(),
        |i: int|
            if 0 <= i < pairs.len() {
                (pairs[i].0@, pairs[i].1.model())
            } else {
                (Seq::empty(), ValueModel::Null)
            },
    )
}

impl Value {
    /// The model of this value tree.
    pub open spec fn model(self) -> ValueModel
        decreases self,
    {
        match self {
            Value::Null => ValueModel::Null,
            Value::Bool(b) => ValueModel::Bool(b),
            Value::UInt(n) => ValueModel::UInt(n),
            Value::Int(i) => ValueModel::Int(i),
            Value::F32Bits(b) => ValueModel::F32Bits(b),
            Value::F64Bits(b) => ValueModel::F64Bits(b),
            Value::Str(s) => ValueModel::Str(s@),
            Value::Arr(items) => ValueModel::Arr(models_of(items@)),
            Value::Obj(pairs) => ValueModel::Obj(pairs_of(pairs@)),
        }
    }
}

/// Structural equality of two value trees: same variants, same contents,
/// pairs compared in order.
pub open spec fn values_equal(a: Value, b: Value) -> bool
    decreases a,
{
    match (a, b) {
        (Value::Null, Value::Null) => true,
        (Value::Bool(x), Value::Bool(y)) => x == y,
        (Value::UInt(x), Value::UInt(y)) => x == y,
        (Value::Int(x), Value::Int(y)) => x == y,
        (Value::F32Bits(x), Value::F32Bits(y)) => x == y,
        (Value::F64Bits(x), Value::F64Bits(y)) => x == y,
        (Value::Str(x), Value::Str(y)) => x@ == y@,
        (Value::Arr(x), Value::Arr(y)) => {
            &&& x@.len() == y@.len()
            &&& (forall|i: int| 0 <= i < x@.len() ==> values_equal(#[trigger] x@[i], y@[i]))
        },
        (Value::Obj(x), Value::Obj(y)) => {
            &&& x@.len() == y@.len()
            &&& (forall|i: int|
                0 <= i < x@.len() ==> (#[trigger] x@[i]).0@ == y@[i].0@ && values_equal(
                    x@[i].1,
                    y@[i].1,
                ))
        },
        _ => false,
    }
}

/// Decides [`values_equal`] on two value trees.
pub fn value_eq(a: &Value, b: &Value) -> (r: bool)
    ensures
        r == values_equal(*a, *b),
    decreases *a,
{
    match (a, b) {
        (Value::Null, Value::Null) => true,
        (Value::Bool(x), Value::Bool(y)) => *x == *y,
        (Value::UInt(x), Value::UInt(y)) => *x == *y,
        (Value::Int(x), Value::Int(y)) => *x == *y,
        (Value::F32Bits(x), Value::F32Bits(y)) => *x == *y,
        (Value::F64Bits(x), Value::F64Bits(y)) => *x == *y,
        (Value::Str(x), Value::Str(y)) => *x == *y,
        (Value::Arr(x), Value::Arr(y)) => {
            if x.len() != y.len() {
                return false;
            }
            for i in 0..x.len()
                invariant
                    x@.len() == y@.len(),
                    *a == Value::Arr(*x),
                    *b == Value::Arr(*y),
                    forall|j: int| 0 <= j < i ==> values_equal(#[trigger] x@[j], y@[j]),
            {
                proof {
                    assert(decreases_to!(*a => a->Arr_0));
                    assert(decreases_to!(a->Arr_0 => a->Arr_0@));
                    assert(decreases_to!(a->Arr_0@ => a->Arr_0@[i as int]));
                    assert(a->Arr_0@[i as int] == x@[i as int]);
                }
                if !value_eq(&x[i], &y[i]) {
                    return false;
                }
            }
            true
        },
        (Value::Obj(x), Value::Obj(y)) => {
            if x.len() != y.len() {
                return false;
            }
            for i in 0..x.len()
                invariant
                    x@.len() == y@.len(),
                    *a == Value::Obj(*x),
                    *b == Value::Obj(*y),
                    forall|j: int|
                        0 <= j < i ==> (#[trigger] x@[j]).0@ == y@[j].0@ && values_equal(
                            x@[j].1,
                            y@[j].1,
                        ),
            {
                proof {
                    assert(decreases_to!(*a => a->Obj_0));
                    assert(decreases_to!(a->Obj_0 => a->Obj_0@));
                    assert(decreases_to!(a->Obj_0@ => a->Obj_0@[i as int]));
                    assert(decreases_to!(a->Obj_0@[i as int] => a->Obj_0@[i as int].1));
                    assert(a->Obj_0@[i as int] == x@[i as int]);
                }
                if x[i].0 != y[i].0 {
                    return false;
                }
                if !value_eq(&x[i].1, &y[i].1) {
                    return false;
                }
            }
            true
        },
        _ => false,
    }
}

impl PartialEq for Value {
    fn eq(&self, other: &Value) -> (r: bool) {
        value_eq(self, other)
    }
}

impl vstd::std_specs::cmp::PartialEqSpecImpl for Value {
    open spec fn obeys_eq_spec() -> bool {
        true
    }

    open spec fn eq_spec(&self, other: &Value) -> bool {
        values_equal(*self, *other)
    }
}

/// The value bound to `key` in an ordered pair list: the first pair whose
/// name matches, if any.
pub open spec fn lookup(pairs: Seq<(Seq<char>, ValueModel)>, key: Seq<char>) -> Option<ValueModel>
    decreases pairs.len(),
{
    if pairs.len() == 0 {
        None
    } else if pairs[0].0 == key {
        Some(pairs[0].1)
    } else {
        lookup(pairs.drop_first(), key)
    }
}

/// [`lookup`] restarted at index `i`: what is bound to `key` among the pairs
/// from `i` on.
pub open spec fn lookup_from(
    pairs: Seq<(Seq<char>, ValueModel)>,
    key: Seq<char>,
    i: int,
) -> Option<ValueModel>
    decreases pairs.len() - i,
{
    if i < 0 || i >= pairs.len() {
        None
    } else if pairs[i].0 == key {
        Some(pairs[i].1)
    } else {
        lookup_from(pairs, key, i + 1)
    }
}

/// [`lookup`] on the pairs from `i` on equals [`lookup_from`] at `i`.
proof fn lemma_lookup_lookup_from(pairs: Seq<(Seq<char>, ValueModel)>, key: Seq<char>, i: int)
    requires
        0 <= i <= pairs.len(),
    ensures
        lookup(pairs.skip(i), key) == lookup_from(pairs, key, i),
    decreases pairs.len() - i,
{
    if i < pairs.len() {
        assert(pairs.skip(i)[0] == pairs[i]);
        if pairs[i].0 != key {
            lemma_lookup_lookup_from(pairs, key, i + 1);
            assert(pairs.skip(i).drop_first() =~= pairs.skip(i + 1));
        }
    }
}

/// When no pair before index `i` is named `key`, the lookup over the whole
/// list agrees with the lookup restarted at `i`.
pub proof fn lemma_lookup_from(pairs: Seq<(Seq<char>, ValueModel)>, key: Seq<char>, i: int)
    requires
        0 <= i <= pairs.len(),
        forall|j: int| 0 <= j < i ==> (#[trigger] pairs[j]).0 != key,
    ensures
        lookup(pairs, key) == lookup_from(pairs, key, i),
    decreases i,
{
    if i == 0 {
        lemma_lookup_lookup_from(pairs, key, 0);
        assert(pairs.skip(0) =~= pairs);
    } else {
        lemma_lookup_from(pairs, key, i - 1);
        assert(lookup_from(pairs, key, i - 1) == lookup_from(pairs, key, i));
    }
}

/// Finds the first pair named `key` and returns a reference to its value.
pub fn obj_get<'a>(pairs: &'a Vec<(String, Value)>, key: &String) -> (r: Option<&'a Value>)
    ensures
        match r {
            Some(v) => lookup(pairs_of(pairs@), key@) == Some(v.model()),
            None => lookup(pairs_of(pairs@), key@) is None,
        },
{
    let ghost model_pairs = pairs_of(pairs@);
    for i in 0..pairs.len()
        invariant
            model_pairs == pairs_of(pairs@),
            forall|j: int| 0 <= j < i ==> (#[trigger] model_pairs[j]).0 != key@,
    {
        if pairs[i].0 == *key {
            proof {
                lemma_lookup_from(model_pairs, key@, i as int);
            }
            return Some(&pairs[i].1);
        }
        assert(model_pairs[i as int].0 == pairs@[i as int].0@);
    }
    proof {
        lemma_lookup_from(model_pairs, key@, pairs@.len() as int);
    }
    None
}

} // verus!
