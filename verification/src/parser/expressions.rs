use vstd::prelude::*;

use crate::ast::{
    span_within, lemma_valid_below, ComparisonOperator, CstNodeKind, ExpressionValue, QuantifierKind,
    UnaryOperator, Value, ValueId,
};
use crate::parser::values::{simple_value, simple_value_len, value_begun};
use crate::parser::Parser;
use crate::span::Span;
use crate::token::{Token, TokenKind};

verus! {

broadcast use crate::parser::lemma_grows_trans;

/// The spelling of a comparison keyword.
pub open spec fn comparison_word(w: Seq<u8>) -> Option<ComparisonOperator> {
    if w == seq![0x6cu8, 0x65, 0x73, 0x73] {
        Some(ComparisonOperator::Less)
    } else if w == seq![0x6du8, 0x6f, 0x72, 0x65] {
        Some(ComparisonOperator::Greater)
    } else if w == seq![0x6cu8, 0x65, 0x61, 0x73, 0x74] {
        Some(ComparisonOperator::GreaterEqual)
    } else if w == seq![0x6du8, 0x6f, 0x73, 0x74] {
        Some(ComparisonOperator::LessEqual)
    } else if w == seq![0x65u8, 0x71, 0x75, 0x61, 0x6c, 0x73] {
        Some(ComparisonOperator::Equals)
    } else if w == seq![0x63u8, 0x6f, 0x6e, 0x74, 0x61, 0x69, 0x6e, 0x73] {
        Some(ComparisonOperator::Contains)
    } else if w == seq![0x69u8, 0x6e] {
        Some(ComparisonOperator::In)
    } else if w == seq![0x6du8, 0x61, 0x74, 0x63, 0x68, 0x65, 0x73] {
        Some(ComparisonOperator::Matches)
    } else if w == seq![0x73u8, 0x74, 0x61, 0x72, 0x74, 0x73] {
        Some(ComparisonOperator::Starts)
    } else if w == seq![0x65u8, 0x6e, 0x64, 0x73] {
        Some(ComparisonOperator::Ends)
    } else {
        None
    }
}

/// The comparison operator that the parser reads from a token of kind `k0`
/// with the bytes `word`, followed by one of kind `k1`, with the number of
/// tokens it spans: `<`, `<=`, `>`, `>=`, or a comparison keyword.
pub open spec fn comparison_read(k0: TokenKind, k1: TokenKind, word: Seq<u8>) -> Option<(ComparisonOperator, int)> {
    if k0 == TokenKind::LessThan {
        if k1 == TokenKind::Equals {
            Some((ComparisonOperator::LessEqual, 2))
        } else {
            Some((ComparisonOperator::Less, 1))
        }
    } else if k0 == TokenKind::GreaterThan {
        if k1 == TokenKind::Equals {
            Some((ComparisonOperator::GreaterEqual, 2))
        } else {
            Some((ComparisonOperator::Greater, 1))
        }
    } else if k0 == TokenKind::Identifier {
        match comparison_word(word) {
            Some(op) => Some((op, 1)),
            None => None,
        }
    } else {
        None
    }
}

/// The spelling of a quantifier keyword.
pub open spec fn quantifier_word(w: Seq<u8>) -> Option<QuantifierKind> {
    if w == seq![0x61u8, 0x6c, 0x6c] {
        Some(QuantifierKind::All)
    } else if w == seq![0x61u8, 0x6e, 0x79] {
        Some(QuantifierKind::Any)
    } else if w == seq![0x6fu8, 0x6e, 0x65] {
        Some(QuantifierKind::One)
    } else if w == seq![0x6eu8, 0x6f, 0x6e, 0x65] {
        Some(QuantifierKind::NoneOf)
    } else {
        None
    }
}

pub open spec fn word_not() -> Seq<u8> {
    seq![0x6eu8, 0x6f, 0x74]
}

/// A token that ends a condition: a separator, a closing brace or the end
/// of input.
pub open spec fn ends_condition(k: TokenKind) -> bool {
    k == TokenKind::Newline || k == TokenKind::Comma || k == TokenKind::RBrace || k == TokenKind::Eof
}

/// `v` is the condition that parsing from token `cur`, followed by a token
/// of kind `next`, gives: a quantifier of the word's kind where a
/// quantifier word is followed by `(`; a negation after `!` or after a
/// `not` that does not end the condition; a group after `(`; and otherwise
/// the value that the token starts, or a comparison whose left side it
/// starts.
pub open spec fn condition_begun(src: Seq<u8>, cur: Token, next: TokenKind, v: Value) -> bool {
    let word = src.subrange(cur.span.start as int, cur.span.end as int);
    if cur.kind == TokenKind::Identifier && next == TokenKind::LParen && quantifier_word(word) is Some {
        v matches Value::Expression(ExpressionValue::Quantifier { kind, span, .. }) && kind
            == quantifier_word(word)->0 && span.start == cur.span.start
    } else if cur.kind == TokenKind::Bang || (cur.kind == TokenKind::Identifier && word == word_not()
        && !(next == TokenKind::Comma || next == TokenKind::Newline || next == TokenKind::RParen
        || next == TokenKind::RBrace || next == TokenKind::Eof)) {
        v matches Value::Expression(ExpressionValue::Unary { span, .. }) && span.start == cur.span.start
    } else if cur.kind == TokenKind::LParen {
        v matches Value::Expression(ExpressionValue::Group { span, .. }) && span.start == cur.span.start
    } else {
        value_begun(src, cur, v) || v matches Value::Expression(ExpressionValue::Comparison { .. })
    }
}

impl<'source> Parser<'source> {
    /// The bytes of the current token.
    pub(crate) open spec fn cur_word(&self) -> Seq<u8> {
        self.src().subrange(self.cur().span.start as int, self.cur().span.end as int)
    }

    /// The comparison operator at the current position, with the number of
    /// tokens it spans.
    pub(crate) open spec fn comparison_at(&self) -> Option<(ComparisonOperator, int)> {
        comparison_read(self.cur_kind(), self.kind_at(1), self.cur_word())
    }

    /// Parse a value slot as either a regular FON value or a condition
    /// expression.
    pub(crate) fn parse_condition_expression(&mut self) -> (id: ValueId)
        requires
            old(self).inv(),
        ensures
            final(self).ok_after(*old(self)),
            final(self).valid_value(id),
            final(self).ast.values@.len() + 2 < u32::MAX && final(self).ast.schemas@.len() + 2 < u32::MAX
                ==> condition_begun(
                old(self).src(),
                old(self).cur(),
                old(self).kind_at(1),
                final(self).ast.values@[id.0 as int],
            ),
            ({
                let n = simple_value_len(old(self).tokens@, old(self).position as int);
                n > 0 && ends_condition(old(self).kind_at(n)) && final(self).ast.values@.len() + 2
                    < u32::MAX && final(self).ast.schemas@.len() + 2 < u32::MAX
            }) ==> {
                &&& final(self).position == old(self).position + simple_value_len(
                    old(self).tokens@,
                    old(self).position as int,
                )
                &&& final(self).diagnostics@ == old(self).diagnostics@
                &&& simple_value(
                    old(self).src(),
                    old(self).tokens@,
                    old(self).position as int,
                    final(self).ast.values@[id.0 as int],
                )
            },
        decreases old(self).remaining(), 6int,
    {
        let ghost entry = *self;
        if let Some(kind) = self.current_quantifier() {
            return self.parse_quantifier(kind);
        }
        if self.is_unary_not_start() {
            return self.parse_unary();
        }
        if self.at(TokenKind::LParen) {
            return self.parse_group();
        }
        let left = self.parse_value();
        let operator = match self.parse_comparison_operator() {
            Some(operator) => operator,
            None => return left,
        };
        let right = self.parse_value();
        let start = self.value_span(left).start;
        let end = self.value_end(right);
        let span = Span::new(start, end);
        self.push_expression(ExpressionValue::Comparison { left, operator, right, span })
    }

    /// Parse `not` or `!` and the condition it negates.
    fn parse_unary(&mut self) -> (id: ValueId)
        requires
            old(self).inv(),
            old(self).cur_kind() != TokenKind::Eof,
        ensures
            final(self).ok_after(*old(self)),
            final(self).valid_value(id),
            final(self).ast.values@.len() + 2 < u32::MAX ==> (final(self).ast.values@[id.0 as int]
                matches Value::Expression(ExpressionValue::Unary { span, .. }) && span.start
                == old(self).cur().span.start),
        decreases old(self).remaining(), 1int,
    {
        let start = self.advance().span.start;
        let operand = self.parse_condition_expression();
        let span = Span::new(start, self.value_end(operand));
        self.push_expression(ExpressionValue::Unary { operator: UnaryOperator::Not, operand, span })
    }

    /// Parse a parenthesized condition.
    fn parse_group(&mut self) -> (id: ValueId)
        requires
            old(self).inv(),
            old(self).cur_kind() == TokenKind::LParen,
        ensures
            final(self).ok_after(*old(self)),
            final(self).valid_value(id),
            final(self).ast.values@.len() + 2 < u32::MAX ==> (final(self).ast.values@[id.0 as int]
                matches Value::Expression(ExpressionValue::Group { span, .. }) && span.start
                == old(self).cur().span.start),
        decreases old(self).remaining(), 1int,
    {
        let ghost entry = *self;
        let open = self.advance();
        let nested = self.enter_nested(open.span);
        self.skip_separators();
        let expression = if nested {
            self.parse_condition_expression()
        } else {
            self.parse_error_value("maximum nesting depth exceeded")
        };
        self.skip_separators();
        if self.eat(TokenKind::RParen).is_none() {
            let span = self.current_span();
            self.report("E0501", "expected ')' after expression", span);
        }
        if nested {
            self.leave_nested();
        }
        let end = self.value_end(expression);
        self.push_expression(ExpressionValue::Group { expression, span: Span::new(open.span.start, end) })
    }

    /// Parse a quantifier and its list of conditions.
    fn parse_quantifier(&mut self, kind: QuantifierKind) -> (id: ValueId)
        requires
            old(self).inv(),
            old(self).cur_kind() != TokenKind::Eof,
        ensures
            final(self).ok_after(*old(self)),
            final(self).valid_value(id),
            final(self).ast.values@.len() + 2 < u32::MAX ==> {
                let v = final(self).ast.values@[id.0 as int];
                &&& v is Expression
                &&& v->Expression_0 is Quantifier
                &&& v->Expression_0->Quantifier_kind == kind
                &&& v->Expression_0->Quantifier_span.start == old(self).cur().span.start
                &&& forall|k: int|
                    0 <= k < v->Expression_0->Quantifier_conditions@.len() ==> (
                    #[trigger] v->Expression_0->Quantifier_conditions@[k]).0 < id.0
            },
        decreases old(self).remaining(), 1int,
    {
        let ghost entry = *self;
        let start = self.advance().span.start;
        let open = match self.eat(TokenKind::LParen) {
            Some(token) => token,
            None => {
                let span = self.current_span();
                self.report("E0502", "expected '(' after quantifier", span);
                Token { kind: TokenKind::LParen, span }
            },
        };
        let nested = self.enter_nested(open.span);
        let mut conditions: Vec<ValueId> = Vec::new();
        self.skip_separators();
        if nested {
            while !(self.current_kind() == TokenKind::RParen || self.current_kind() == TokenKind::Eof)
                invariant
                    self.ok_after(entry),
                    entry == *old(self),
                    self.position > entry.position,
                    self.valid_values(conditions@),
                decreases self.tokens@.len() - self.position,
            {
                let condition = self.parse_condition_expression();
                conditions.push(condition);
                if self.at(TokenKind::RParen) || self.at(TokenKind::Eof) {
                    break ;
                }
                if !self.skip_separators() {
                    let span = self.current_span();
                    self.report(
                        "E0503",
                        "expected ',' or newline between quantifier conditions",
                        span,
                    );
                    self.recover_to_parenthesis();
                    break ;
                }
            }
        } else {
            self.recover_to_parenthesis();
        }
        let close = match self.eat(TokenKind::RParen) {
            Some(token) => token,
            None => {
                let span = self.current_span();
                self.report("E0504", "expected ')' after quantifier", span);
                Token { kind: TokenKind::RParen, span }
            },
        };
        if nested {
            self.leave_nested();
        }
        proof {
            lemma_valid_below(self.ast);
        }
        let ghost before = *self;
        let id = self.push_expression(
            ExpressionValue::Quantifier { kind, conditions, span: Span::new(start, close.span.end) },
        );
        proof {
            assert(self.ast.values@.len() >= before.ast.values@.len());
            if self.ast.values@.len() + 2 < u32::MAX {
                assert(id.0 == before.ast.values@.len());
                assert(forall|k: int| 0 <= k < conditions@.len() ==> (#[trigger] conditions@[k]).0 < before.ast.values@.len());
            }
        }
        id
    }

    /// The quantifier that starts here: `all`, `any`, `one` or `none`
    /// followed by `(`.
    fn current_quantifier(&self) -> (r: Option<QuantifierKind>)
        requires
            self.inv(),
        ensures
            r == if self.cur_kind() == TokenKind::Identifier && self.kind_at(1) == TokenKind::LParen {
                quantifier_word(self.cur_word())
            } else {
                None
            },
    {
        if self.current_kind() != TokenKind::Identifier || self.peek_kind(1) != TokenKind::LParen {
            return None;
        }
        let token = self.current();
        proof {
            assert(self.tokens@.contains(token)) by {
                assert(self.tokens@[self.position as int] == token);
            }
        }
        if self.token_is(token, &[0x61u8, 0x6c, 0x6c]) {
            Some(QuantifierKind::All)
        } else if self.token_is(token, &[0x61u8, 0x6e, 0x79]) {
            Some(QuantifierKind::Any)
        } else if self.token_is(token, &[0x6fu8, 0x6e, 0x65]) {
            Some(QuantifierKind::One)
        } else if self.token_is(token, &[0x6eu8, 0x6f, 0x6e, 0x65]) {
            Some(QuantifierKind::NoneOf)
        } else {
            None
        }
    }

    /// Whether a negation starts here: `!`, or `not` not followed by a
    /// separator, a closing delimiter or the end of input.
    fn is_unary_not_start(&self) -> (r: bool)
        requires
            self.inv(),
        ensures
            r == (self.cur_kind() == TokenKind::Bang || (self.cur_kind() == TokenKind::Identifier
                && self.cur_word() == word_not() && !(self.kind_at(1) == TokenKind::Comma
                || self.kind_at(1) == TokenKind::Newline || self.kind_at(1) == TokenKind::RParen
                || self.kind_at(1) == TokenKind::RBrace || self.kind_at(1) == TokenKind::Eof))),
    {
        if self.current_kind() == TokenKind::Bang {
            return true;
        }
        let token = self.current();
        proof {
            assert(self.tokens@[self.position as int] == token);
        }
        if self.current_kind() != TokenKind::Identifier || !self.token_is(token, &[0x6eu8, 0x6f, 0x74]) {
            return false;
        }
        let next = self.peek_kind(1);
        !(next == TokenKind::Comma || next == TokenKind::Newline || next == TokenKind::RParen
            || next == TokenKind::RBrace || next == TokenKind::Eof)
    }

    /// Consume a supported comparison operator without accepting arbitrary
    /// identifiers.
    fn parse_comparison_operator(&mut self) -> (r: Option<ComparisonOperator>)
        requires
            old(self).inv(),
        ensures
            final(self).inv(),
            final(self).moved_only(*old(self)),
            final(self).grows_from(*old(self)),
            r == (match old(self).comparison_at() {
                Some(pair) => Some(pair.0),
                None => None::<ComparisonOperator>,
            }),
            match old(self).comparison_at() {
                Some(pair) => final(self).position == old(self).position + pair.1,
                None => final(self).position == old(self).position,
            },
    {
        let kind = self.current_kind();
        let token = self.current();
        proof {
            assert(self.tokens@[self.position as int] == token);
            crate::parser::lemma_grows_refl(*self);
        }
        if kind == TokenKind::LessThan {
            self.advance();
            if self.eat(TokenKind::Equals).is_some() {
                return Some(ComparisonOperator::LessEqual);
            }
            return Some(ComparisonOperator::Less);
        }
        if kind == TokenKind::GreaterThan {
            self.advance();
            if self.eat(TokenKind::Equals).is_some() {
                return Some(ComparisonOperator::GreaterEqual);
            }
            return Some(ComparisonOperator::Greater);
        }
        if kind != TokenKind::Identifier {
            return None;
        }
        let operator = if self.token_is(token, &[0x6cu8, 0x65, 0x73, 0x73]) {
            ComparisonOperator::Less
        } else if self.token_is(token, &[0x6du8, 0x6f, 0x72, 0x65]) {
            ComparisonOperator::Greater
        } else if self.token_is(token, &[0x6cu8, 0x65, 0x61, 0x73, 0x74]) {
            ComparisonOperator::GreaterEqual
        } else if self.token_is(token, &[0x6du8, 0x6f, 0x73, 0x74]) {
            ComparisonOperator::LessEqual
        } else if self.token_is(token, &[0x65u8, 0x71, 0x75, 0x61, 0x6c, 0x73]) {
            ComparisonOperator::Equals
        } else if self.token_is(token, &[0x63u8, 0x6f, 0x6e, 0x74, 0x61, 0x69, 0x6e, 0x73]) {
            ComparisonOperator::Contains
        } else if self.token_is(token, &[0x69u8, 0x6e]) {
            ComparisonOperator::In
        } else if self.token_is(token, &[0x6du8, 0x61, 0x74, 0x63, 0x68, 0x65, 0x73]) {
            ComparisonOperator::Matches
        } else if self.token_is(token, &[0x73u8, 0x74, 0x61, 0x72, 0x74, 0x73]) {
            ComparisonOperator::Starts
        } else if self.token_is(token, &[0x65u8, 0x6e, 0x64, 0x73]) {
            ComparisonOperator::Ends
        } else {
            return None;
        };
        self.advance();
        Some(operator)
    }

    /// Store an expression and its CST node.
    fn push_expression(&mut self, expression: ExpressionValue) -> (id: ValueId)
        requires
            old(self).inv(),
            old(self).ast.value_refs_below(Value::Expression(expression), old(self).ast.next_rank()),
            span_within(old(self).src(), crate::ast::value::expression_span_of(expression)),
        ensures
            final(self).ok_after(*old(self)),
            final(self).position == old(self).position,
            final(self).valid_value(id),
            old(self).ast.values@.len() + 2 < u32::MAX ==> id.0 == old(self).ast.values@.len()
                && final(self).ast.values@[id.0 as int] == Value::Expression(expression),
    {
        let span = expression.span();
        let value_id = self.add_value(Value::Expression(expression));
        self.push_cst(CstNodeKind::Expression, span, Vec::new());
        value_id
    }

    /// Skip to the nearest `)`, `}` or the end of input.
    fn recover_to_parenthesis(&mut self)
        requires
            old(self).inv(),
        ensures
            final(self).inv(),
            final(self).moved_only(*old(self)),
            final(self).grows_from(*old(self)),
    {
        let mut nested: u32 = 0;
        proof {
            crate::parser::lemma_grows_refl(*self);
        }
        while !(self.current_kind() == TokenKind::Eof || self.current_kind() == TokenKind::RParen
            || self.current_kind() == TokenKind::RBrace)
            invariant
                self.inv(),
                self.moved_only(*old(self)),
                self.grows_from(*old(self)),
            decreases self.tokens@.len() - self.position,
        {
            if self.current_kind() == TokenKind::LParen {
                nested = nested.saturating_add(1);
            } else if self.current_kind() == TokenKind::RParen && nested > 0 {
                nested = nested - 1;
            }
            self.advance();
        }
    }
}

} // verus!
