//! The values that the format carries, their types, and the mathematical
//! model of both.

use crate::primitive::{PrimKind, Primitive};
use vstd::prelude::*;

verus! {

/// The type of a value: what a decoder has to know to read one.
#[derive(Debug, PartialEq, Eq)]
pub enum Kind {
    /// A value of fixed width.
    Prim(PrimKind),
    /// A string.
    Text,
    /// A value that may be absent.
    Optional(Box<Kind>),
    /// A fixed number of values, each of its own type.
    Tuple(Vec<Kind>),
    /// Any number of values of one type, in order.
    Sequence(Box<Kind>),
    /// Any number of values of one type, none of them twice.
    SetOf(Box<Kind>),
    /// Any number of keys of one type, none of them twice, each with a
    /// value of one type.
    MapOf(Box<Kind>, Box<Kind>),
    /// Named fields in the order of their declaration.
    Aggregate(Vec<(String, Kind)>),
}

/// A value. Sets and maps keep their items in the order of insertion.
#[derive(Debug, PartialEq, Eq)]
pub enum Value {
    Prim(Primitive),
    Text(String),
    Optional(Option<Box<Value>>),
    Tuple(Vec<Value>),
    Sequence(Vec<Value>),
    SetOf(Vec<Value>),
    MapOf(Vec<(Value, Value)>),
    Aggregate(Vec<(String, Value)>),
}

/// The model of a `Kind`. An aggregate is its field names and, beside
/// them, its field types.
pub ghost enum KindModel {
    Prim(PrimKind),
    Text,
    Optional(Box<KindModel>),
    Tuple(Seq<KindModel>),
    Sequence(Box<KindModel>),
    SetOf(Box<KindModel>),
    MapOf(Box<KindModel>, Box<KindModel>),
    Aggregate(Seq<Seq<char>>, Seq<KindModel>),
}

/// The model of a `Value`. An aggregate is its field names and, beside
/// them, its field values.
pub ghost enum ValueModel {
    Prim(Primitive),
    Text(Seq<char>),
    Optional(Option<Box<ValueModel>>),
    Tuple(Seq<ValueModel>),
    Sequence(Seq<ValueModel>),
    SetOf(Seq<ValueModel>),
    MapOf(Seq<(ValueModel, ValueModel)>),
    Aggregate(Seq<Seq<char>>, Seq<ValueModel>),
}

/// The models of the kinds in `kinds`.
pub open spec fn kind_models(kinds: Seq<Kind>) -> Seq<KindModel>
    decreases kinds,
{
    Seq::new(
        kinds.len(),
        |i: int|
            if 0 <= i < kinds.len() {
                kinds[i].model()
            } else {
                arbitrary()
            },
    )
}

/// The models of the field types in `fields`.
pub open spec fn field_kind_models(fields: Seq<(String, Kind)>) -> Seq<KindModel>
    decreases fields,
{
    Seq::new(
        fields.len(),
        |i: int|
            if 0 <= i < fields.len() {
                fields[i].1.model()
            } else {
                arbitrary()
            },
    )
}

/// The names of the fields in `fields`.
pub open spec fn kind_field_names(fields: Seq<(String, Kind)>) -> Seq<Seq<char>> {
    Seq::new(fields.len(), |i: int| fields[i].0@)
}

impl Kind {
    /// This type as a mathematical value.
    pub open spec fn model(&self) -> KindModel
        decreases self,
    {
        match self {
            Kind::Prim(p) => KindModel::Prim(*p),
            Kind::Text => KindModel::Text,
            Kind::Optional(inner) => KindModel::Optional(Box::new(inner.model())),
            Kind::Tuple(kinds) => KindModel::Tuple(kind_models(kinds@)),
            Kind::Sequence(elem) => KindModel::Sequence(Box::new(elem.model())),
            Kind::SetOf(elem) => KindModel::SetOf(Box::new(elem.model())),
            Kind::MapOf(key, value) => KindModel::MapOf(
                Box::new(key.model()),
                Box::new(value.model()),
            ),
            Kind::Aggregate(fields) => KindModel::Aggregate(
                kind_field_names(fields@),
                field_kind_models(fields@),
            ),
        }
    }
}

impl View for Kind {
    type V = KindModel;

    open spec fn view(&self) -> KindModel {
        self.model()
    }
}

/// The models of the values in `items`.
pub open spec fn value_models(items: Seq<Value>) -> Seq<ValueModel>
    decreases items,
{
    Seq::new(
        items.len(),
        |i: int|
            if 0 <= i < items.len() {
                items[i].model()
            } else {
                arbitrary()
            },
    )
}

/// The models of the entries in `entries`.
pub open spec fn entry_models(entries: Seq<(Value, Value)>) -> Seq<(ValueModel, ValueModel)>
    decreases entries,
{
    Seq::new(
        entries.len(),
        |i: int|
            if 0 <= i < entries.len() {
                (entries[i].0.model(), entries[i].1.model())
            } else {
                arbitrary()
            },
    )
}

/// The models of the field values in `fields`.
pub open spec fn field_value_models(fields: Seq<(String, Value)>) -> Seq<ValueModel>
    decreases fields,
{
    Seq::new(
        fields.len(),
        |i: int|
            if 0 <= i < fields.len() {
                fields[i].1.model()
            } else {
                arbitrary()
            },
    )
}

/// The names of the fields in `fields`.
pub open spec fn value_field_names(fields: Seq<(String, Value)>) -> Seq<Seq<char>> {
    Seq::new(fields.len(), |i: int| fields[i].0@)
}

impl Value {
    /// This value as a mathematical value.
    pub open spec fn model(&self) -> ValueModel
        decreases self,
    {
        match self {
            Value::Prim(p) => ValueModel::Prim(*p),
            Value::Text(s) => ValueModel::Text(s@),
            Value::Optional(None) => ValueModel::Optional(None),
            Value::Optional(Some(inner)) => ValueModel::Optional(Some(Box::new(inner.model()))),
            Value::Tuple(items) => ValueModel::Tuple(value_models(items@)),
            Value::Sequence(items) => ValueModel::Sequence(value_models(items@)),
            Value::SetOf(items) => ValueModel::SetOf(value_models(items@)),
            Value::MapOf(entries) => ValueModel::MapOf(entry_models(entries@)),
            Value::Aggregate(fields) => ValueModel::Aggregate(
                value_field_names(fields@),
                field_value_models(fields@),
            ),
        }
    }
}

impl View for Value {
    type V = ValueModel;

    open spec fn view(&self) -> ValueModel {
        self.model()
    }
}

/// The keys of `entries`, in order.
pub open spec fn keys_of(entries: Seq<(ValueModel, ValueModel)>) -> Seq<ValueModel> {
    Seq::new(entries.len(), |i: int| entries[i].0)
}

impl ValueModel {
    /// Whether no set in this value holds an item twice and no map a key
    /// twice.
    pub open spec fn wf(self) -> bool
        decreases self,
    {
        match self {
            ValueModel::Prim(_) => true,
            ValueModel::Text(_) => true,
            ValueModel::Optional(None) => true,
            ValueModel::Optional(Some(inner)) => inner.wf(),
            ValueModel::Tuple(items) => forall|i: int|
                0 <= i < items.len() ==> (#[trigger] items[i]).wf(),
            ValueModel::Sequence(items) => forall|i: int|
                0 <= i < items.len() ==> (#[trigger] items[i]).wf(),
            ValueModel::SetOf(items) => {
                &&& items.no_duplicates()
                &&& forall|i: int| 0 <= i < items.len() ==> (#[trigger] items[i]).wf()
            },
            ValueModel::MapOf(entries) => {
                &&& keys_of(entries).no_duplicates()
                &&& forall|i: int|
                    0 <= i < entries.len() ==> (#[trigger] entries[i]).0.wf() && entries[i].1.wf()
            },
            ValueModel::Aggregate(_, values) => forall|i: int|
                0 <= i < values.len() ==> (#[trigger] values[i]).wf(),
        }
    }

    /// Whether this value is of type `kind`.
    pub open spec fn has_kind(self, kind: KindModel) -> bool
        decreases self,
    {
        match (self, kind) {
            (ValueModel::Prim(p), KindModel::Prim(k)) => p.kind() == k,
            (ValueModel::Text(_), KindModel::Text) => true,
            (ValueModel::Optional(None), KindModel::Optional(_)) => true,
            (ValueModel::Optional(Some(inner)), KindModel::Optional(k)) => inner.has_kind(*k),
            (ValueModel::Tuple(items), KindModel::Tuple(kinds)) => {
                &&& items.len() == kinds.len()
                &&& forall|i: int|
                    0 <= i < items.len() ==> (#[trigger] items[i]).has_kind(kinds[i])
            },
            (ValueModel::Sequence(items), KindModel::Sequence(elem)) => forall|i: int|
                0 <= i < items.len() ==> (#[trigger] items[i]).has_kind(*elem),
            (ValueModel::SetOf(items), KindModel::SetOf(elem)) => forall|i: int|
                0 <= i < items.len() ==> (#[trigger] items[i]).has_kind(*elem),
            (ValueModel::MapOf(entries), KindModel::MapOf(key, value)) => forall|i: int|
                0 <= i < entries.len() ==> (#[trigger] entries[i]).0.has_kind(*key)
                    && entries[i].1.has_kind(*value),
            (ValueModel::Aggregate(names, values), KindModel::Aggregate(kind_names, kinds)) => {
                &&& names == kind_names
                &&& values.len() == kinds.len()
                &&& forall|i: int|
                    0 <= i < values.len() ==> (#[trigger] values[i]).has_kind(kinds[i])
            },
            _ => false,
        }
    }
}

} // verus!
