//! Equality of values: two values are the same where their models are.

use crate::value::{
    entry_models, field_value_models, value_field_names, value_models, Value, ValueModel,
};
use vstd::prelude::*;

verus! {

impl Value {
    /// Whether `self` and `other` are one value. Sets and maps are one
    /// where they hold the same items in the same order.
    pub fn same(&self, other: &Value) -> (r: bool)
        ensures
            r == (self@ == other@),
        decreases self,
    {
        match (self, other) {
            (Value::Prim(a), Value::Prim(b)) => *a == *b,
            (Value::Text(a), Value::Text(b)) => *a == *b,
            (Value::Optional(None), Value::Optional(None)) => true,
            (Value::Optional(Some(a)), Value::Optional(Some(b))) => a.same(b),
            (Value::Tuple(a), Value::Tuple(b)) => same_all(a, b),
            (Value::Sequence(a), Value::Sequence(b)) => same_all(a, b),
            (Value::SetOf(a), Value::SetOf(b)) => same_all(a, b),
            (Value::MapOf(a), Value::MapOf(b)) => same_entries(a, b),
            (Value::Aggregate(a), Value::Aggregate(b)) => same_fields(a, b),
            _ => false,
        }
    }
}

/// Whether `a` and `b` hold the same values in the same order.
pub fn same_all(a: &Vec<Value>, b: &Vec<Value>) -> (r: bool)
    ensures
        r == (value_models(a@) == value_models(b@)),
    decreases a,
{
    if a.len() != b.len() {
        assert(value_models(a@).len() != value_models(b@).len());
        return false;
    }
    let mut i: usize = 0;
    while i < a.len()
        invariant
            i <= a.len() == b.len(),
            forall|j: int| 0 <= j < i ==> a@[j].model() == b@[j].model(),
        decreases a.len() - i,
    {
        if !a[i].same(&b[i]) {
            assert(value_models(a@)[i as int] != value_models(b@)[i as int]);
            return false;
        }
        i += 1;
    }
    assert(value_models(a@) =~= value_models(b@));
    true
}

/// Whether `a` and `b` hold the same entries in the same order.
pub fn same_entries(a: &Vec<(Value, Value)>, b: &Vec<(Value, Value)>) -> (r: bool)
    ensures
        r == (entry_models(a@) == entry_models(b@)),
    decreases a,
{
    if a.len() != b.len() {
        assert(entry_models(a@).len() != entry_models(b@).len());
        return false;
    }
    let mut i: usize = 0;
    while i < a.len()
        invariant
            i <= a.len() == b.len(),
            forall|j: int|
                0 <= j < i ==> a@[j].0.model() == b@[j].0.model() && a@[j].1.model()
                    == b@[j].1.model(),
        decreases a.len() - i,
    {
        if !a[i].0.same(&b[i].0) || !a[i].1.same(&b[i].1) {
            assert(entry_models(a@)[i as int] != entry_models(b@)[i as int]);
            return false;
        }
        i += 1;
    }
    assert(entry_models(a@) =~= entry_models(b@));
    true
}

/// Whether `a` and `b` hold the same fields in the same order.
pub fn same_fields(a: &Vec<(String, Value)>, b: &Vec<(String, Value)>) -> (r: bool)
    ensures
        r == (value_field_names(a@) == value_field_names(b@) && field_value_models(a@)
            == field_value_models(b@)),
    decreases a,
{
    if a.len() != b.len() {
        assert(field_value_models(a@).len() != field_value_models(b@).len());
        return false;
    }
    let mut i: usize = 0;
    while i < a.len()
        invariant
            i <= a.len() == b.len(),
            forall|j: int| 0 <= j < i ==> a@[j].0@ == b@[j].0@ && a@[j].1.model() == b@[j].1.model(),
        decreases a.len() - i,
    {
        if a[i].0 != b[i].0 {
            assert(value_field_names(a@)[i as int] != value_field_names(b@)[i as int]);
            return false;
        }
        if !a[i].1.same(&b[i].1) {
            assert(field_value_models(a@)[i as int] != field_value_models(b@)[i as int]);
            return false;
        }
        i += 1;
    }
    assert(value_field_names(a@) =~= value_field_names(b@));
    assert(field_value_models(a@) =~= field_value_models(b@));
    true
}

} // verus!
