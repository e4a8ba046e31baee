use vstd::prelude::*;

use crate::span::Span;

pub use crate::scheme::TypedAtom;

verus! {

/// A semantically resolved document independent of Fer compiler state.
#[derive(Debug)]
pub struct TypedDocument {
    pub root: TypedRoot,
}

#[derive(Debug)]
pub enum TypedRoot {
    Object(Vec<TypedMember>),
    Array(Vec<TypedValue>),
}

#[derive(Debug)]
pub struct TypedMember {
    pub key: String,
    pub value: TypedValue,
    pub span: Span,
}

#[derive(Debug)]
pub enum TypedValue {
    Boolean { value: bool, span: Span },
    Number { raw: String, span: Span },
    String { raw: String, span: Span },
    Regex { pattern: String, flags: Option<String>, span: Span },
    EnumPath { path: String, span: Span },
    Array(Vec<TypedValue>),
    Object(Vec<TypedMember>),
    Schema { name: String, span: Span },
    Atom(TypedAtom),
    Error { message: String, span: Span },
}

} // verus!
