use vstd::prelude::*;
use vstd::string::StringSliceAdditionalSpecFns;

use crate::span::Span;
use crate::text::{boundary, slice_str, text_of};

use super::{ErrorNode, MemberId, SchemaId, SchemaKind, ValueId};

verus! {

/// A value slot of the syntax AST.
#[derive(Debug, Clone)]
pub enum Value {
    Boolean { value: bool, span: Span },
    Number { raw: String, span: Span },
    String(StringValue),
    Regex(RegexValue),
    EnumPath(EnumValue),
    Array(ArrayValue),
    Object(ObjectValue),
    Schema(SchemaValue),
    Unknown(UnknownValue),
    Expression(ExpressionValue),
    Error(ErrorNode),
}

pub type AstValue = Value;

/// The kind of a value.
pub open spec fn value_kind_of(v: Value) -> ValueKind {
    match v {
        Value::Boolean { .. } => ValueKind::Boolean,
        Value::Number { .. } => ValueKind::Number,
        Value::String(_) => ValueKind::String,
        Value::Regex(_) => ValueKind::Regex,
        Value::EnumPath(_) => ValueKind::EnumPath,
        Value::Array(_) => ValueKind::Array,
        Value::Object(_) => ValueKind::Object,
        Value::Schema(_) => ValueKind::Schema,
        Value::Unknown(_) => ValueKind::Unknown,
        Value::Expression(_) => ValueKind::Expression,
        Value::Error(_) => ValueKind::Error,
    }
}

/// The source span of a value.
pub open spec fn value_span_of(v: Value) -> Span {
    match v {
        Value::Boolean { span, .. } => span,
        Value::Number { span, .. } => span,
        Value::String(x) => x.span,
        Value::Regex(x) => x.span,
        Value::EnumPath(x) => x.span,
        Value::Array(x) => x.span,
        Value::Object(x) => x.span,
        Value::Schema(x) => x.span,
        Value::Unknown(x) => x.span,
        Value::Expression(x) => expression_span_of(x),
        Value::Error(x) => x.span,
    }
}

impl Value {
    pub fn kind(&self) -> (kind: ValueKind)
        ensures
            kind == value_kind_of(*self),
    {
        match self {
            Self::Boolean { .. } => ValueKind::Boolean,
            Self::Number { .. } => ValueKind::Number,
            Self::String(_) => ValueKind::String,
            Self::Regex(_) => ValueKind::Regex,
            Self::EnumPath(_) => ValueKind::EnumPath,
            Self::Array(_) => ValueKind::Array,
            Self::Object(_) => ValueKind::Object,
            Self::Schema(_) => ValueKind::Schema,
            Self::Unknown(_) => ValueKind::Unknown,
            Self::Expression(_) => ValueKind::Expression,
            Self::Error(_) => ValueKind::Error,
        }
    }

    /// The source span of this value.
    pub fn span(&self) -> (span: Span)
        ensures
            span == value_span_of(*self),
    {
        match self {
            Self::Boolean { span, .. } => *span,
            Self::Number { span, .. } => *span,
            Self::String(x) => x.span,
            Self::Regex(x) => x.span,
            Self::EnumPath(x) => x.span,
            Self::Array(x) => x.span,
            Self::Object(x) => x.span,
            Self::Schema(x) => x.span,
            Self::Unknown(x) => x.span,
            Self::Expression(x) => x.span(),
            Self::Error(x) => x.span,
        }
    }
}

#[derive(Debug, Clone, Copy, PartialEq, Eq, Structural)]
pub enum ValueKind {
    Boolean,
    Number,
    String,
    Regex,
    EnumPath,
    Array,
    Object,
    Schema,
    Unknown,
    Expression,
    Error,
}

/// A parsed Fer expression retained inside a value slot.
#[derive(Debug, Clone)]
pub enum ExpressionValue {
    Unary { operator: UnaryOperator, operand: ValueId, span: Span },
    Comparison { left: ValueId, operator: ComparisonOperator, right: ValueId, span: Span },
    Group { expression: ValueId, span: Span },
    Quantifier { kind: QuantifierKind, conditions: Vec<ValueId>, span: Span },
}

pub open spec fn expression_span_of(e: ExpressionValue) -> Span {
    match e {
        ExpressionValue::Unary { span, .. } => span,
        ExpressionValue::Comparison { span, .. } => span,
        ExpressionValue::Group { span, .. } => span,
        ExpressionValue::Quantifier { span, .. } => span,
    }
}

impl ExpressionValue {
    pub fn span(&self) -> (span: Span)
        ensures
            span == expression_span_of(*self),
    {
        match self {
            Self::Unary { span, .. } => *span,
            Self::Comparison { span, .. } => *span,
            Self::Group { span, .. } => *span,
            Self::Quantifier { span, .. } => *span,
        }
    }
}

/// A unary condition operator defined by Fer expressions.
#[derive(Debug, Clone, Copy, PartialEq, Eq, Structural)]
pub enum UnaryOperator {
    Not,
}

/// A comparison operator defined by Fer condition expressions.
#[derive(Debug, Clone, Copy, PartialEq, Eq, Structural)]
pub enum ComparisonOperator {
    Less,
    LessEqual,
    Greater,
    GreaterEqual,
    Equals,
    Contains,
    In,
    Matches,
    Starts,
    Ends,
}

/// A logical quantifier that combines condition expressions.
#[derive(Debug, Clone, Copy, PartialEq, Eq, Structural)]
pub enum QuantifierKind {
    All,
    Any,
    One,
    NoneOf,
}

#[derive(Debug, Clone)]
pub struct StringValue {
    pub raw: String,
    pub parts: Vec<StringPart>,
    pub span: Span,
}

#[derive(Debug, Clone, Copy, PartialEq, Eq, Structural)]
pub struct StringPart {
    pub span: Span,
    pub kind: StringPartKind,
}

impl StringPart {
    pub fn is_text(&self) -> (r: bool)
        ensures
            r == (self.kind == StringPartKind::Text),
    {
        matches!(self.kind, StringPartKind::Text)
    }

    pub fn is_interpolation(&self) -> (r: bool)
        ensures
            r == (self.kind == StringPartKind::Interpolation),
    {
        matches!(self.kind, StringPartKind::Interpolation)
    }

    /// The source text of a text part: `None` for an interpolation, or when the
    /// span is not a range of `source` between character boundaries.
    pub fn text<'source>(&self, source: &'source str) -> (r: Option<&'source str>)
        ensures
            r is Some <==> {
                &&& self.kind == StringPartKind::Text
                &&& self.span.start <= self.span.end <= source.spec_bytes().len()
                &&& boundary(source.spec_bytes(), self.span.start as int)
                &&& boundary(source.spec_bytes(), self.span.end as int)
            },
            r matches Some(t) ==> t@ == text_of(
                source.spec_bytes(),
                self.span.start as int,
                self.span.end as int,
            ),
    {
        if !self.is_text() {
            return None;
        }
        slice_str(source, self.span.start as usize, self.span.end as usize)
    }
}

#[derive(Debug, Clone, Copy, PartialEq, Eq, Structural)]
pub enum StringPartKind {
    Text,
    Interpolation,
}

#[derive(Debug, Clone)]
pub struct RegexValue {
    pub pattern: String,
    pub flags: Option<String>,
    pub span: Span,
}

#[derive(Debug, Clone)]
pub struct EnumValue {
    pub kind: EnumValueKind,
    pub path: String,
    pub span: Span,
}

#[derive(Debug, Clone, Copy, PartialEq, Eq, Structural)]
pub enum EnumValueKind {
    Shorthand,
    Qualified,
}

#[derive(Debug, Clone)]
pub struct ArrayValue {
    pub items: Vec<ValueId>,
    pub span: Span,
}

#[derive(Debug, Clone)]
pub struct ObjectValue {
    pub members: Vec<MemberId>,
    pub span: Span,
}

#[derive(Debug, Clone)]
pub struct SchemaValue {
    pub kind: SchemaKind,
    pub schema: SchemaId,
    pub span: Span,
}

#[derive(Debug, Clone)]
pub struct UnknownValue {
    pub raw: String,
    pub shape: UnknownShape,
    pub span: Span,
}

#[derive(Debug, Clone, Copy, PartialEq, Eq, Structural)]
pub enum UnknownShape {
    BareAtom,
    PackageLike,
    PathLike,
    VersionLike,
    ColorLike,
    Other,
}

} // verus!
