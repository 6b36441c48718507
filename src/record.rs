//! The record description the library works on, and what it produces.
use vstd::prelude::*;

verus! {

/// One named field of a record. Two fields have the same type exactly when
/// their `type_key`s are equal.
#[derive(Clone, Debug, PartialEq, Eq)]
pub struct Field {
    pub name: String,
    pub type_key: u64,
}

/// A record: its name and its fields in declaration order.
#[derive(Clone, Debug, PartialEq, Eq)]
pub struct RecordDescriptor {
    pub name: String,
    pub fields: Vec<Field>,
}

/// How to build a record from one tuple shape: tuple position `i` has type
/// `tuple_types[i]` and its value goes to the field named `field_bindings[i]`.
#[derive(Clone, Debug, PartialEq, Eq)]
pub struct ConversionSpec {
    pub tuple_types: Vec<u64>,
    pub field_bindings: Vec<String>,
}

/// A field whose type already occurred at an earlier position.
#[derive(Clone, Debug, PartialEq, Eq)]
pub struct DuplicateFieldType {
    pub index: usize,
    pub name: String,
}

impl View for ConversionSpec {
    type V = (Seq<u64>, Seq<Seq<char>>);

    open spec fn view(&self) -> (Seq<u64>, Seq<Seq<char>>) {
        (self.tuple_types@, self.field_bindings@.map_values(|s: String| s@))
    }
}

impl View for DuplicateFieldType {
    type V = (usize, Seq<char>);

    open spec fn view(&self) -> (usize, Seq<char>) {
        (self.index, self.name@)
    }
}

/// The type keys of `fields`, in order.
pub open spec fn type_keys(fields: Seq<Field>) -> Seq<u64> {
    fields.map_values(|f: Field| f.type_key)
}

/// No two fields share a type.
pub open spec fn types_unique(fields: Seq<Field>) -> bool {
    forall|i: int, j: int| 0 <= i < j < fields.len() ==> fields[i].type_key != fields[j].type_key
}

/// The conversion for the fields taken in the order `order` (indices into
/// `fields`): the types and the names of those fields, position by position.
pub open spec fn conversion_of(fields: Seq<Field>, order: Seq<usize>) -> (Seq<u64>, Seq<Seq<char>>) {
    (
        order.map_values(|k: usize| fields[k as int].type_key),
        order.map_values(|k: usize| fields[k as int].name@),
    )
}

} // verus!
