use vstd::prelude::*;

use crate::span::Span;

use super::{Key, ValueId};

verus! {

#[derive(Debug, Clone)]
pub struct Annotation {
    pub name: String,
    pub arguments: Vec<AnnotationArgument>,
    pub span: Span,
}

#[derive(Debug, Clone)]
pub struct AnnotationArgument {
    pub key: Option<Key>,
    pub value: Option<ValueId>,
    pub span: Span,
}

} // verus!
