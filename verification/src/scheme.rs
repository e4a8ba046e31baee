use vstd::prelude::*;

use crate::ast::UnknownValue;
use crate::span::Span;

verus! {

/// Resolves syntax-level names and unknown atoms without owning compiler
/// state; the application provides it.
pub trait SchemeResolver: Send + Sync {
    fn resolve_type(&self, name: &str) -> Result<TypeReference, SchemeError>;

    fn resolve_unknown(&self, expected_type: Option<&TypeReference>, value: &UnknownValue) -> Result<
        TypedAtom,
        SchemeError,
    >;
}

/// One question put to a scheme during resolution, with the scheme's answer.
#[derive(Debug)]
pub enum SchemeCall {
    /// `resolve_type` was asked for the type `name`.
    Type { name: String, answer: Result<TypeReference, SchemeError> },
    /// `resolve_unknown` was asked for `value` under the `expected` type.
    Unknown {
        expected: Option<TypeReference>,
        value: UnknownValue,
        answer: Result<TypedAtom, SchemeError>,
    },
}

/// A resolved type name, with the span of the annotation that named it.
#[derive(Debug, Clone, PartialEq, Eq)]
pub struct TypeReference {
    pub name: String,
    pub span: Option<Span>,
}

/// An unknown atom that a scheme gave a type.
#[derive(Debug, Clone, PartialEq, Eq)]
pub struct TypedAtom {
    pub type_label: String,
    pub raw: String,
    pub span: Span,
}

/// Why a scheme could not resolve a name or an atom.
#[derive(Debug, Clone, PartialEq, Eq)]
pub struct SchemeError {
    pub message: String,
}

} // verus!
