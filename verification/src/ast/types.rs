use vstd::prelude::*;

use crate::span::Span;

use super::{ErrorNode, SchemaId, TypeId};

verus! {

/// A type expression of the syntax AST.
#[derive(Debug, Clone)]
pub enum TypeExpr {
    Builtin { name: String, span: Span },
    Named { path: String, span: Span },
    Generic { constructor: String, arguments: Vec<TypeId>, span: Span },
    Schema { schema: SchemaId, span: Span },
    Error(ErrorNode),
}

pub open spec fn type_kind_of(t: TypeExpr) -> TypeKind {
    match t {
        TypeExpr::Builtin { .. } => TypeKind::Builtin,
        TypeExpr::Named { .. } => TypeKind::Named,
        TypeExpr::Generic { .. } => TypeKind::Generic,
        TypeExpr::Schema { .. } => TypeKind::Schema,
        TypeExpr::Error(_) => TypeKind::Error,
    }
}

pub open spec fn type_span_of(t: TypeExpr) -> Span {
    match t {
        TypeExpr::Builtin { span, .. } => span,
        TypeExpr::Named { span, .. } => span,
        TypeExpr::Generic { span, .. } => span,
        TypeExpr::Schema { span, .. } => span,
        TypeExpr::Error(e) => e.span,
    }
}

impl TypeExpr {
    pub fn kind(&self) -> (kind: TypeKind)
        ensures
            kind == type_kind_of(*self),
    {
        match self {
            Self::Builtin { .. } => TypeKind::Builtin,
            Self::Named { .. } => TypeKind::Named,
            Self::Generic { .. } => TypeKind::Generic,
            Self::Schema { .. } => TypeKind::Schema,
            Self::Error(_) => TypeKind::Error,
        }
    }

    /// The source span of this type expression.
    pub fn span(&self) -> (span: Span)
        ensures
            span == type_span_of(*self),
    {
        match self {
            Self::Builtin { span, .. } => *span,
            Self::Named { span, .. } => *span,
            Self::Generic { span, .. } => *span,
            Self::Schema { span, .. } => *span,
            Self::Error(e) => e.span,
        }
    }
}

#[derive(Debug, Clone, Copy, PartialEq, Eq, Structural)]
pub enum TypeKind {
    Builtin,
    Named,
    Generic,
    Schema,
    Error,
}

} // verus!
