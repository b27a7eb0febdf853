//! Type-erased attribute payloads.
//!
//! Attribute values are discovered only at runtime, so the engine carries them
//! in a closed, transport-ready form. `EncodedValue` is that form; its
//! mathematical shape is `ValueView`.

use vstd::prelude::*;

verus! {

/// Mathematical shape of an encoded attribute payload.
pub enum ValueView {
    Null,
    Bool(bool),
    Int(i64),
    Text(Seq<char>),
}

/// The runtime kind of a payload, as recorded in the schema catalog.
///
/// `Unit` marks zero-sized attributes: they carry no payload, only presence.
#[derive(Clone, Copy, Debug, PartialEq, Eq, Structural)]
pub enum ValueKind {
    Unit,
    Bool,
    Int,
    Text,
}

/// A transport-ready, type-erased attribute payload.
#[derive(Debug, PartialEq, Eq)]
pub enum EncodedValue {
    Null,
    Bool(bool),
    Int(i64),
    Text(String),
}

impl View for EncodedValue {
    type V = ValueView;

    open spec fn view(&self) -> ValueView {
        match self {
            EncodedValue::Null => ValueView::Null,
            EncodedValue::Bool(b) => ValueView::Bool(*b),
            EncodedValue::Int(i) => ValueView::Int(*i),
            EncodedValue::Text(s) => ValueView::Text(s@),
        }
    }
}

/// The kind a payload shape belongs to.
pub open spec fn kind_of(v: ValueView) -> ValueKind {
    match v {
        ValueView::Null => ValueKind::Unit,
        ValueView::Bool(_) => ValueKind::Bool,
        ValueView::Int(_) => ValueKind::Int,
        ValueView::Text(_) => ValueKind::Text,
    }
}

impl EncodedValue {
    /// The kind of this payload.
    pub fn kind(&self) -> (k: ValueKind)
        ensures
            k == kind_of(self@),
    {
        match self {
            EncodedValue::Null => ValueKind::Unit,
            EncodedValue::Bool(_) => ValueKind::Bool,
            EncodedValue::Int(_) => ValueKind::Int,
            EncodedValue::Text(_) => ValueKind::Text,
        }
    }

    /// Structural equality of two payloads.
    pub fn deep_eq(&self, other: &EncodedValue) -> (r: bool)
        ensures
            r == (self@ == other@),
    {
        match (self, other) {
            (EncodedValue::Null, EncodedValue::Null) => true,
            (EncodedValue::Bool(a), EncodedValue::Bool(b)) => *a == *b,
            (EncodedValue::Int(a), EncodedValue::Int(b)) => *a == *b,
            (EncodedValue::Text(a), EncodedValue::Text(b)) => a.eq(b),
            _ => false,
        }
    }

    /// A structurally equal copy of this payload.
    pub fn duplicate(&self) -> (r: EncodedValue)
        ensures
            r@ == self@,
    {
        match self {
            EncodedValue::Null => EncodedValue::Null,
            EncodedValue::Bool(b) => EncodedValue::Bool(*b),
            EncodedValue::Int(i) => EncodedValue::Int(*i),
            EncodedValue::Text(s) => EncodedValue::Text(s.clone()),
        }
    }
}

} // verus!
