use vstd::prelude::*;

use crate::span::Span;

verus! {

/// Every terminal symbol produced by the FON lexer.
#[derive(Debug, Clone, Copy, PartialEq, Eq, Structural, Hash)]
pub enum TokenKind {
    Identifier,
    Integer,
    Decimal,
    UnknownAtom,
    String,
    Regex,
    True,
    False,
    Struct,
    Enum,
    AnnotationStart,
    Equals,
    Colon,
    Comma,
    Dot,
    At,
    Caret,
    Hash,
    Plus,
    Minus,
    Slash,
    Bang,
    LBrace,
    RBrace,
    LBracket,
    RBracket,
    LParen,
    RParen,
    LessThan,
    GreaterThan,
    Newline,
    LineComment,
    BlockComment,
    Eof,
    Error,
}

/// A source token with its exact byte span.
#[derive(Debug, Clone, Copy, PartialEq, Eq, Structural)]
pub struct Token {
    pub kind: TokenKind,
    pub span: Span,
}

/// Trivia that is not part of the semantic syntax tree.
#[derive(Debug, Clone, Copy, PartialEq, Eq, Structural)]
pub struct Trivia {
    pub kind: TriviaKind,
    pub span: Span,
}

#[derive(Debug, Clone, Copy, PartialEq, Eq, Structural)]
pub enum TriviaKind {
    LineComment,
    BlockComment,
    Whitespace,
}

} // verus!
