//! The format-agnostic tree representation of a record: the common
//! intermediate form that every entity is converted to before field
//! projection and encoding.

use vstd::prelude::*;

verus! {

/// One `key: value` entry of a structured object. Entries are kept in
/// insertion order; that order becomes the default CSV column order.
pub struct Entry {
    pub key: String,
    pub value: StructuredValue,
}

/// A structured value: the tagged union every record is converted to
/// before filtering and encoding.
pub enum StructuredValue {
    Null,
    Bool(bool),
    Number(i64),
    Text(String),
    Array(Vec<StructuredValue>),
    Object(Vec<Entry>),
}

/// The mathematical model of a structured value: the same tree over
/// `Seq<char>` and `int`, which contracts and proofs speak of.
#[verifier::ext_equal]
pub enum ValModel {
    Null,
    Bool(bool),
    Number(int),
    Text(Seq<char>),
    Array(Seq<ValModel>),
    Object(Seq<(Seq<char>, ValModel)>),
}

/// The model of a structured value.
pub open spec fn model(v: StructuredValue) -> ValModel
    decreases v,
{
    match v {
        StructuredValue::Null => ValModel::Null,
        StructuredValue::Bool(b) => ValModel::Bool(b),
        StructuredValue::Number(n) => ValModel::Number(n as int),
        StructuredValue::Text(s) => ValModel::Text(s@),
        StructuredValue::Array(elems) => ValModel::Array(models_of(elems@)),
        StructuredValue::Object(entries) => ValModel::Object(entry_models_of(entries@)),
    }
}

/// The models of a sequence of structured values, in order.
pub open spec fn models_of(s: Seq<StructuredValue>) -> Seq<ValModel>
    decreases s,
{
    if s.len() == 0 {
        Seq::empty()
    } else {
        seq![model(s[0])] + models_of(s.subrange(1, s.len() as int))
    }
}

/// The models of a sequence of object entries, in order.
pub open spec fn entry_models_of(s: Seq<Entry>) -> Seq<(Seq<char>, ValModel)>
    decreases s,
{
    if s.len() == 0 {
        Seq::empty()
    } else {
        seq![(s[0].key@, model(s[0].value))] + entry_models_of(s.subrange(1, s.len() as int))
    }
}

/// `models_of` maps the sequence elementwise.
pub proof fn lemma_models_of(s: Seq<StructuredValue>)
    ensures
        models_of(s).len() == s.len(),
        forall|i: int| 0 <= i < s.len() ==> models_of(s)[i] == model(s[i]),
    decreases s.len(),
{
    if s.len() > 0 {
        lemma_models_of(s.subrange(1, s.len() as int));
    }
}

/// `entry_models_of` maps the sequence elementwise.
pub proof fn lemma_entry_models_of(s: Seq<Entry>)
    ensures
        entry_models_of(s).len() == s.len(),
        forall|i: int| 0 <= i < s.len() ==> entry_models_of(s)[i] == (s[i].key@, model(
            s[i].value,
        )),
    decreases s.len(),
{
    if s.len() > 0 {
        lemma_entry_models_of(s.subrange(1, s.len() as int));
    }
}

} // verus!
