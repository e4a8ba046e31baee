use vstd::prelude::*;

use crate::span::Span;

use super::{AnnotationId, Key, TypeId, ValueId};

verus! {

/// A struct or enum schema.
#[derive(Debug, Clone)]
pub struct Schema {
    pub kind: SchemaKind,
    pub fields: Vec<StructField>,
    pub variants: Vec<EnumVariant>,
    pub span: Span,
}

#[derive(Debug, Clone, Copy, PartialEq, Eq, Structural)]
pub enum SchemaKind {
    Struct,
    Enum,
}

#[derive(Debug, Clone)]
pub struct StructField {
    pub annotations: Vec<AnnotationId>,
    pub key: Key,
    pub type_annotation: Option<TypeId>,
    pub default_value: Option<ValueId>,
    pub span: Span,
}

#[derive(Debug, Clone)]
pub struct EnumVariant {
    pub annotations: Vec<AnnotationId>,
    pub name: Key,
    pub payload: Option<TypeId>,
    pub span: Span,
}

} // verus!
