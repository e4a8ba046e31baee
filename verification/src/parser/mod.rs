use vstd::prelude::*;
use vstd::string::StringSliceAdditionalSpecFns;

use crate::ast::{
    annotation_backed, key_backed, lemma_extends_refl, lemma_extends_trans, lemma_valid_below,
    member_backed, schema_backed, span_within, type_backed, value_backed, Annotation, AnnotationId, Ast,
    CstNode, CstNodeKind, Document, Member, MemberId, NodeId, Root, Schema, SchemaId, SyntaxTree, TypeExpr,
    TypeId, Value, ValueId,
};
use crate::diagnostic::{diags_view, Diagnostic};
use crate::lexer::{token_shaped, tokens_wf, DiagV, LexResult};
use crate::span::Span;
use crate::text::{bytes_match, slice_text, text_of};
use crate::token::{Token, TokenKind, Trivia};
use crate::ParseOptions;

pub mod document;
pub mod expressions;
pub mod types;
pub mod values;

verus! {

/// Stateful parser for one in-memory FON source.
pub(crate) struct Parser<'source> {
    pub(crate) source: &'source str,
    pub(crate) bytes: &'source [u8],
    pub(crate) tokens: Vec<Token>,
    pub(crate) trivia: Vec<Trivia>,
    pub(crate) position: usize,
    pub(crate) ast: Ast,
    pub(crate) cst: SyntaxTree,
    pub(crate) diagnostics: Vec<Diagnostic>,
    pub(crate) max_depth: u32,
    pub(crate) depth: u32,
}

/// The diagnostics of `old` followed by those added since.
pub open spec fn diags_extend(new: Seq<Diagnostic>, old: Seq<Diagnostic>) -> bool {
    old.len() <= new.len() && new.subrange(0, old.len() as int) == old
}

/// Every sequence of diagnostics continues itself.
pub(crate) proof fn lemma_diags_refl(a: Seq<Diagnostic>)
    ensures
        diags_extend(a, a),
{
    assert(a.subrange(0, a.len() as int) =~= a);
}

/// Appending diagnostics is transitive.
pub(crate) proof fn lemma_diags_trans(a: Seq<Diagnostic>, b: Seq<Diagnostic>, c: Seq<Diagnostic>)
    requires
        diags_extend(b, a),
        diags_extend(c, b),
    ensures
        diags_extend(c, a),
        forall|i: int| 0 <= i < b.len() ==> #[trigger] c[i] == b[i],
{
    assert forall|i: int| 0 <= i < b.len() implies #[trigger] c[i] == b[i] by {
        assert(c.subrange(0, b.len() as int)[i] == c[i]);
    }
    assert(c.subrange(0, a.len() as int) =~= a);
}

/// A parser state continues itself.
pub(crate) proof fn lemma_grows_refl<'a>(p: Parser<'a>)
    ensures
        p.grows_from(p),
{
    lemma_extends_refl(p.ast);
    assert(p.diagnostics@.subrange(0, p.diagnostics@.len() as int) =~= p.diagnostics@);
}

/// A state that only moved forward continues the earlier one.
pub(crate) proof fn lemma_moved_grows<'a>(old: Parser<'a>, new: Parser<'a>)
    requires
        new.moved_only(old),
        new.position >= old.position,
    ensures
        new.grows_from(old),
{
    lemma_grows_refl(old);
}

/// Continuation is transitive.
pub(crate) broadcast proof fn lemma_grows_trans<'a>(a: Parser<'a>, b: Parser<'a>, c: Parser<'a>)
    requires
        b.grows_from(a),
        c.grows_from(b),
    ensures
        #![trigger b.grows_from(a), c.grows_from(b)]
        c.grows_from(a),
{
    lemma_extends_trans(a.ast, b.ast, c.ast);
    assert(c.diagnostics@.subrange(0, a.diagnostics@.len() as int) =~= c.diagnostics@.subrange(
        0,
        b.diagnostics@.len() as int,
    ).subrange(0, a.diagnostics@.len() as int));
}

/// The index of the first token at or after `i` that is not a separator
/// (a line break or a comma).
pub open spec fn first_significant(tokens: Seq<Token>, i: int) -> int
    decreases tokens.len() - i,
{
    if 0 <= i < tokens.len() && (tokens[i].kind == TokenKind::Newline || tokens[i].kind
        == TokenKind::Comma) {
        first_significant(tokens, i + 1)
    } else {
        i
    }
}

/// Every error node of the CST has a diagnostic at its span.
pub open spec fn errors_reported(nodes: Seq<CstNode>, diagnostics: Seq<Diagnostic>) -> bool {
    forall|i: int|
        0 <= i < nodes.len() && (#[trigger] nodes[i]).kind == CstNodeKind::Error ==> exists|j: int|
            0 <= j < diagnostics.len() && (#[trigger] diagnostics[j]).span == nodes[i].span
}

/// What is reported stays reported as diagnostics are appended.
proof fn lemma_errors_reported_mono(nodes: Seq<CstNode>, d1: Seq<Diagnostic>, d2: Seq<Diagnostic>)
    requires
        errors_reported(nodes, d1),
        diags_extend(d2, d1),
    ensures
        errors_reported(nodes, d2),
{
    assert forall|i: int| 0 <= i < nodes.len() && (#[trigger] nodes[i]).kind == CstNodeKind::Error implies exists|j: int|
        0 <= j < d2.len() && (#[trigger] d2[j]).span == nodes[i].span by {
        let j = choose|j: int| 0 <= j < d1.len() && (#[trigger] d1[j]).span == nodes[i].span;
        assert(d2[j] == d2.subrange(0, d1.len() as int)[j]);
    }
}

impl<'source> Parser<'source> {
    pub(crate) open spec fn src(&self) -> Seq<u8> {
        self.bytes@
    }

    pub(crate) open spec fn cur(&self) -> Token {
        self.tokens@[self.position as int]
    }

    pub(crate) open spec fn cur_kind(&self) -> TokenKind {
        self.tokens@[self.position as int].kind
    }

    /// The token `k` places after the current one, or the end-of-input token.
    pub(crate) open spec fn kind_at(&self, k: int) -> TokenKind {
        if self.position + k < self.tokens@.len() {
            self.tokens@[self.position + k].kind
        } else {
            TokenKind::Eof
        }
    }

    pub(crate) open spec fn remaining(&self) -> int {
        self.tokens@.len() - self.position
    }

    /// The parser's invariant.
    pub(crate) open spec fn inv(&self) -> bool {
        &&& self.bytes@ == self.source.spec_bytes()
        &&& self.bytes@.len() <= u32::MAX
        &&& vstd::utf8::valid_utf8(self.bytes@)
        &&& tokens_wf(self.bytes@, self.tokens@)
        &&& self.position < self.tokens@.len()
        &&& self.ast.well_formed()
        &&& self.ast.backed(self.src())
        &&& forall|i: int| 0 <= i < self.tokens@.len() ==> token_shaped(self.src(), #[trigger] self.tokens@[i])
        &&& forall|i: int| 0 <= i < self.diagnostics@.len() ==> span_within(self.src(), (#[trigger] self.diagnostics@[i]).span)
        &&& self.cst.wf()
        &&& self.depth <= self.max_depth
        &&& errors_reported(self.cst.nodes@, self.diagnostics@)
    }

    /// `self` continues `old`: same source and tokens, a position not behind,
    /// an AST and a CST that only gained nodes, and diagnostics only appended.
    pub(crate) open spec fn grows_from(&self, old: Parser<'source>) -> bool {
        &&& self.source == old.source
        &&& self.bytes == old.bytes
        &&& self.tokens@ == old.tokens@
        &&& self.trivia@ == old.trivia@
        &&& self.max_depth == old.max_depth
        &&& self.position >= old.position
        &&& self.ast.extends(old.ast)
        &&& self.ast.root == old.ast.root
        &&& self.ast.root_annotations@ == old.ast.root_annotations@
        &&& old.cst.nodes@.len() <= self.cst.nodes@.len()
        &&& diags_extend(self.diagnostics@, old.diagnostics@)
    }

    /// Only the position moved, by at most one token.
    pub(crate) open spec fn moved_only(&self, old: Parser<'source>) -> bool {
        &&& self.source == old.source
        &&& self.bytes == old.bytes
        &&& self.tokens@ == old.tokens@
        &&& self.trivia@ == old.trivia@
        &&& self.max_depth == old.max_depth
        &&& self.depth == old.depth
        &&& self.ast == old.ast
        &&& self.cst == old.cst
        &&& self.diagnostics@ == old.diagnostics@
    }

    /// The AST's arenas and the CST have room for more nodes.
    pub(crate) open spec fn roomy(&self) -> bool {
        &&& self.ast.values@.len() + 2 < u32::MAX
        &&& self.ast.schemas@.len() + 2 < u32::MAX
        &&& self.ast.members@.len() + 2 < u32::MAX
        &&& self.ast.types@.len() + 2 < u32::MAX
        &&& self.cst.nodes@.len() + 1 < u32::MAX
    }

    /// The parser continued from `old` and still holds its invariant.
    pub(crate) open spec fn ok_after(&self, old: Parser<'source>) -> bool {
        self.inv() && self.grows_from(old)
    }

    pub(crate) open spec fn valid_value(&self, id: ValueId) -> bool {
        id.0 < self.ast.values@.len()
    }

    pub(crate) open spec fn valid_member(&self, id: MemberId) -> bool {
        id.0 < self.ast.members@.len()
    }

    pub(crate) open spec fn valid_type(&self, id: TypeId) -> bool {
        id.0 < self.ast.types@.len()
    }

    pub(crate) open spec fn valid_schema(&self, id: SchemaId) -> bool {
        id.0 < self.ast.schemas@.len()
    }

    pub(crate) open spec fn valid_annotation(&self, id: AnnotationId) -> bool {
        id.0 < self.ast.annotations@.len()
    }

    pub(crate) open spec fn valid_values(&self, ids: Seq<ValueId>) -> bool {
        forall|k: int| 0 <= k < ids.len() ==> self.valid_value(#[trigger] ids[k])
    }

    pub(crate) open spec fn valid_members(&self, ids: Seq<MemberId>) -> bool {
        forall|k: int| 0 <= k < ids.len() ==> self.valid_member(#[trigger] ids[k])
    }

    pub(crate) open spec fn valid_types(&self, ids: Seq<TypeId>) -> bool {
        forall|k: int| 0 <= k < ids.len() ==> self.valid_type(#[trigger] ids[k])
    }

    pub(crate) open spec fn valid_annotations(&self, ids: Seq<AnnotationId>) -> bool {
        forall|k: int| 0 <= k < ids.len() ==> self.valid_annotation(#[trigger] ids[k])
    }

    pub(crate) open spec fn valid_nodes(&self, ids: Seq<NodeId>) -> bool {
        forall|k: int| 0 <= k < ids.len() ==> (#[trigger] ids[k]).0 < self.cst.nodes@.len()
    }

    /// Add a value; at the arena's limit the value is not added, the first
    /// value stands in for it, and a diagnostic says so.
    pub(crate) fn add_value(&mut self, value: Value) -> (id: ValueId)
        requires
            old(self).inv(),
            old(self).ast.value_refs_below(value, old(self).ast.next_rank()),
            value_backed(old(self).src(), value),
        ensures
            final(self).ok_after(*old(self)),
            final(self).position == old(self).position,
            final(self).depth == old(self).depth,
            final(self).cst == old(self).cst,
            final(self).valid_value(id),
            old(self).ast.values@.len() + 2 < u32::MAX ==> {
                &&& id.0 == old(self).ast.values@.len()
                &&& final(self).ast.values@ == old(self).ast.values@.push(value)
                &&& final(self).diagnostics@ == old(self).diagnostics@
            },
    {
        proof {
            lemma_extends_refl(self.ast);
        }
        if self.ast.values.len() < 0xffff_fffd {
            let id = self.ast.push_value(value);
            proof {
                assert(self.diagnostics@.subrange(0, old(self).diagnostics@.len() as int) =~= old(self).diagnostics@);
            }
            id
        } else {
            let span = value.span();
            self.report("E0005", "maximum node count exceeded", span);
            ValueId(0)
        }
    }

    pub(crate) fn add_member(&mut self, member: Member) -> (id: MemberId)
        requires
            old(self).inv(),
            old(self).ast.member_refs_below(member, old(self).ast.next_rank()),
            member_backed(old(self).src(), member),
        ensures
            final(self).ok_after(*old(self)),
            final(self).position == old(self).position,
            final(self).depth == old(self).depth,
            final(self).cst == old(self).cst,
            final(self).valid_member(id),
            old(self).ast.members@.len() + 2 < u32::MAX ==> {
                &&& id.0 == old(self).ast.members@.len()
                &&& final(self).ast.members@ == old(self).ast.members@.push(member)
                &&& final(self).diagnostics@ == old(self).diagnostics@
            },
    {
        proof {
            lemma_extends_refl(self.ast);
        }
        if self.ast.members.len() < 0xffff_fffd {
            let id = self.ast.push_member(member);
            proof {
                assert(self.diagnostics@.subrange(0, old(self).diagnostics@.len() as int) =~= old(self).diagnostics@);
            }
            id
        } else {
            let span = self.current_span();
            self.report("E0005", "maximum node count exceeded", span);
            MemberId(0)
        }
    }

    pub(crate) fn add_type(&mut self, type_expr: TypeExpr) -> (id: TypeId)
        requires
            old(self).inv(),
            old(self).ast.type_refs_below(type_expr, old(self).ast.next_rank()),
            type_backed(old(self).src(), type_expr),
        ensures
            final(self).ok_after(*old(self)),
            final(self).position == old(self).position,
            final(self).depth == old(self).depth,
            final(self).cst == old(self).cst,
            final(self).valid_type(id),
            old(self).ast.types@.len() + 2 < u32::MAX ==> {
                &&& id.0 == old(self).ast.types@.len()
                &&& final(self).ast.types@ == old(self).ast.types@.push(type_expr)
                &&& final(self).diagnostics@ == old(self).diagnostics@
            },
    {
        proof {
            lemma_extends_refl(self.ast);
        }
        if self.ast.types.len() < 0xffff_fffd {
            let id = self.ast.push_type(type_expr);
            proof {
                assert(self.diagnostics@.subrange(0, old(self).diagnostics@.len() as int) =~= old(self).diagnostics@);
            }
            id
        } else {
            let span = self.current_span();
            self.report("E0005", "maximum node count exceeded", span);
            TypeId(0)
        }
    }

    pub(crate) fn add_schema(&mut self, schema: Schema) -> (id: SchemaId)
        requires
            old(self).inv(),
            old(self).ast.schema_refs_below(schema, old(self).ast.next_rank()),
            schema_backed(old(self).src(), schema),
        ensures
            final(self).ok_after(*old(self)),
            final(self).position == old(self).position,
            final(self).depth == old(self).depth,
            final(self).cst == old(self).cst,
            final(self).valid_schema(id),
            old(self).ast.schemas@.len() + 2 < u32::MAX ==> {
                &&& id.0 == old(self).ast.schemas@.len()
                &&& final(self).ast.schemas@ == old(self).ast.schemas@.push(schema)
                &&& final(self).diagnostics@ == old(self).diagnostics@
            },
    {
        proof {
            lemma_extends_refl(self.ast);
        }
        if self.ast.schemas.len() < 0xffff_fffd {
            let id = self.ast.push_schema(schema);
            proof {
                assert(self.diagnostics@.subrange(0, old(self).diagnostics@.len() as int) =~= old(self).diagnostics@);
            }
            id
        } else {
            let span = self.current_span();
            self.report("E0005", "maximum node count exceeded", span);
            SchemaId(0)
        }
    }

    pub(crate) fn add_annotation(&mut self, annotation: Annotation) -> (id: AnnotationId)
        requires
            old(self).inv(),
            old(self).ast.annotation_refs_below(annotation, old(self).ast.next_rank()),
            annotation_backed(old(self).src(), annotation),
        ensures
            final(self).ok_after(*old(self)),
            final(self).position == old(self).position,
            final(self).depth == old(self).depth,
            final(self).cst == old(self).cst,
            final(self).valid_annotation(id),
            old(self).ast.annotations@.len() + 2 < u32::MAX ==> {
                &&& id.0 == old(self).ast.annotations@.len()
                &&& final(self).ast.annotations@ == old(self).ast.annotations@.push(annotation)
                &&& final(self).diagnostics@ == old(self).diagnostics@
            },
    {
        proof {
            lemma_extends_refl(self.ast);
        }
        if self.ast.annotations.len() < 0xffff_fffd {
            let id = self.ast.push_annotation(annotation);
            proof {
                assert(self.diagnostics@.subrange(0, old(self).diagnostics@.len() as int) =~= old(self).diagnostics@);
            }
            id
        } else {
            let span = self.current_span();
            self.report("E0005", "maximum node count exceeded", span);
            AnnotationId(0)
        }
    }

    pub(crate) fn new(source: &'source str, lex_result: LexResult, options: ParseOptions) -> (parser:
        Self)
        requires
            source.spec_bytes().len() <= u32::MAX,
            tokens_wf(source.spec_bytes(), lex_result.tokens@),
            forall|i: int|
                0 <= i < lex_result.tokens@.len() ==> token_shaped(
                    source.spec_bytes(),
                    #[trigger] lex_result.tokens@[i],
                ),
            forall|i: int|
                0 <= i < lex_result.diagnostics@.len() ==> span_within(
                    source.spec_bytes(),
                    (#[trigger] lex_result.diagnostics@[i]).span,
                ),
        ensures
            parser.inv(),
            parser.source == source,
            parser.position == 0,
            parser.depth == 0,
            parser.max_depth == options.max_depth,
            parser.tokens@ == lex_result.tokens@,
            parser.trivia@ == lex_result.trivia@,
            parser.diagnostics@ == lex_result.diagnostics@,
            parser.cst.nodes@.len() == 0,
            parser.ast.root matches Root::ImplicitObject { members } && members@.len() == 0,
            parser.ast.values@.len() == 0,
            parser.ast.members@.len() == 0,
            parser.ast.root_annotations@.len() == 0,
    {
        proof {
            vstd::utf8::encode_utf8_valid_utf8(source@);
        }
        let root = Root::ImplicitObject { members: Vec::new() };
        Self {
            source,
            bytes: source.as_bytes(),
            tokens: lex_result.tokens,
            trivia: lex_result.trivia,
            position: 0,
            ast: Ast::new(root),
            cst: SyntaxTree { nodes: Vec::new(), tokens: Vec::new(), trivia: Vec::new() },
            diagnostics: lex_result.diagnostics,
            max_depth: options.max_depth,
            depth: 0,
        }
    }

    pub(crate) fn current(&self) -> (t: Token)
        requires
            self.inv(),
        ensures
            t == self.cur(),
    {
        self.tokens[self.position]
    }

    pub(crate) fn current_kind(&self) -> (k: TokenKind)
        requires
            self.inv(),
        ensures
            k == self.cur_kind(),
    {
        self.current().kind
    }

    pub(crate) fn current_span(&self) -> (s: Span)
        requires
            self.inv(),
        ensures
            s == self.cur().span,
            s.start <= s.end <= self.src().len(),
    {
        self.current().span
    }

    /// The kind of the token `offset` places ahead, or `Eof` past the end.
    pub(crate) fn peek_kind(&self, offset: usize) -> (k: TokenKind)
        requires
            self.inv(),
            offset <= 2,
        ensures
            k == self.kind_at(offset as int),
    {
        if offset < self.tokens.len() - self.position {
            self.tokens[self.position + offset].kind
        } else {
            TokenKind::Eof
        }
    }

    /// The text of a token of the source.
    pub(crate) fn token_text(&self, token: Token) -> (text: String)
        requires
            self.inv(),
            self.tokens@.contains(token),
        ensures
            text@ == text_of(self.src(), token.span.start as int, token.span.end as int),
            vstd::utf8::encode_utf8(text@) == self.src().subrange(
                token.span.start as int,
                token.span.end as int,
            ),
    {
        slice_text(self.source, token.span.start as usize, token.span.end as usize)
    }

    /// Whether the text of a token equals `word`.
    pub(crate) fn token_is(&self, token: Token, word: &[u8]) -> (r: bool)
        requires
            self.inv(),
            self.tokens@.contains(token),
        ensures
            r == (self.src().subrange(token.span.start as int, token.span.end as int) == word@),
    {
        bytes_match(self.bytes, token.span.start as usize, token.span.end as usize, word)
    }

    pub(crate) fn advance(&mut self) -> (token: Token)
        requires
            old(self).inv(),
        ensures
            final(self).grows_from(*old(self)),
            final(self).inv(),
            final(self).moved_only(*old(self)),
            token == old(self).cur(),
            old(self).cur_kind() != TokenKind::Eof ==> final(self).position == old(self).position
                + 1,
            old(self).cur_kind() == TokenKind::Eof ==> final(self).position == old(self).position,
    {
        let token = self.current();
        if self.position < self.tokens.len() - 1 {
            self.position = self.position + 1;
        }
        proof {
            lemma_moved_grows(*old(self), *self);
        }
        token
    }

    pub(crate) fn at(&self, kind: TokenKind) -> (r: bool)
        requires
            self.inv(),
        ensures
            r == (self.cur_kind() == kind),
    {
        self.current_kind() == kind
    }

    pub(crate) fn eat(&mut self, kind: TokenKind) -> (r: Option<Token>)
        requires
            old(self).inv(),
        ensures
            final(self).grows_from(*old(self)),
            final(self).inv(),
            final(self).moved_only(*old(self)),
            r is Some <==> old(self).cur_kind() == kind,
            r matches Some(t) ==> t == old(self).cur() && t.span.start <= t.span.end <= old(self).src().len(),
            r is Some && kind != TokenKind::Eof ==> final(self).position == old(self).position + 1,
            r is None ==> final(self).position == old(self).position,
    {
        if self.at(kind) {
            Some(self.advance())
        } else {
            proof {
                lemma_moved_grows(*old(self), *self);
            }
            None
        }
    }

    /// Skip line breaks, leaving commas in place.
    pub(crate) fn skip_newlines(&mut self)
        requires
            old(self).inv(),
        ensures
            final(self).grows_from(*old(self)),
            final(self).inv(),
            final(self).moved_only(*old(self)),
            final(self).position >= old(self).position,
            final(self).cur_kind() != TokenKind::Newline,
            old(self).cur_kind() != TokenKind::Newline ==> final(self).position == old(self).position,
    {
        let start = self.position;
        while self.current_kind() == TokenKind::Newline
            invariant
                self.inv(),
                self.moved_only(*old(self)),
                self.position >= start,
                start == old(self).position,
                old(self).cur_kind() != TokenKind::Newline ==> self.position == start,
            decreases self.tokens@.len() - self.position,
        {
            self.advance();
        }
        proof {
            lemma_moved_grows(*old(self), *self);
        }
    }

    pub(crate) fn skip_separators(&mut self) -> (skipped: bool)
        requires
            old(self).inv(),
        ensures
            final(self).grows_from(*old(self)),
            final(self).inv(),
            final(self).moved_only(*old(self)),
            final(self).position >= old(self).position,
            skipped <==> final(self).position > old(self).position,
            final(self).cur_kind() != TokenKind::Newline,
            final(self).cur_kind() != TokenKind::Comma,
            final(self).position == first_significant(old(self).tokens@, old(self).position as int),
    {
        let start = self.position;
        while self.current_kind() == TokenKind::Newline || self.current_kind() == TokenKind::Comma
            invariant
                self.inv(),
                self.moved_only(*old(self)),
                self.position >= start,
                start == old(self).position,
                first_significant(self.tokens@, self.position as int) == first_significant(
                    self.tokens@,
                    start as int,
                ),
            decreases self.tokens@.len() - self.position,
        {
            self.advance();
        }
        proof {
            lemma_moved_grows(*old(self), *self);
        }
        self.position > start
    }

    /// Record a diagnostic.
    pub(crate) fn report(&mut self, code: &str, message: &str, span: Span)
        requires
            old(self).inv(),
            span_within(old(self).src(), span),
        ensures
            final(self).inv(),
            final(self).position == old(self).position,
            final(self).depth == old(self).depth,
            final(self).ast == old(self).ast,
            final(self).cst == old(self).cst,
            final(self).grows_from(*old(self)),
            final(self).diagnostics@.len() == old(self).diagnostics@.len() + 1,
            final(self).diagnostics@.last().code@ == code@,
            final(self).diagnostics@.last().message@ == message@,
            final(self).diagnostics@.last().span == span,
    {
        proof {
            lemma_extends_refl(self.ast);
        }
        self.diagnostics.push(Diagnostic::new(code, message, span));
        proof {
            assert(self.diagnostics@.subrange(0, old(self).diagnostics@.len() as int) =~= old(self).diagnostics@);
            lemma_errors_reported_mono(self.cst.nodes@, old(self).diagnostics@, self.diagnostics@);
        }
    }

    /// Consume a token of `kind`, or report its absence and stand in for it
    /// with an empty token at the current position.
    pub(crate) fn expect(&mut self, kind: TokenKind, code: &str, message: &str) -> (token: Token)
        requires
            old(self).inv(),
        ensures
            final(self).inv(),
            final(self).grows_from(*old(self)),
            final(self).depth == old(self).depth,
            final(self).ast == old(self).ast,
            final(self).cst == old(self).cst,
            old(self).cur_kind() == kind ==> token == old(self).cur() && final(self).diagnostics@
                == old(self).diagnostics@,
            old(self).cur_kind() == kind && kind != TokenKind::Eof ==> final(self).position == old(self).position + 1,
            old(self).cur_kind() != kind ==> {
                &&& final(self).position == old(self).position
                &&& final(self).diagnostics@.len() == old(self).diagnostics@.len() + 1
                &&& final(self).diagnostics@.last().code@ == code@
                &&& token.kind == kind
            },
            token.span.start <= token.span.end <= final(self).src().len(),
    {
        proof {
            lemma_extends_refl(self.ast);
        }
        if self.at(kind) {
            let t = self.advance();
            proof {
                assert(self.diagnostics@.subrange(0, old(self).diagnostics@.len() as int) =~= old(self).diagnostics@);
            }
            return t;
        }
        let span = self.current_span();
        self.report(code, message, span);
        Token { kind, span: Span::new(span.start, span.start) }
    }

    /// Add a CST node; at the arena's limit the node is not added, the first
    /// node stands in for it, and a diagnostic says so.
    pub(crate) fn push_cst(&mut self, kind: CstNodeKind, span: Span, children: Vec<NodeId>) -> (id:
        NodeId)
        requires
            old(self).inv(),
            span_within(old(self).src(), span),
            forall|k: int|
                0 <= k < children@.len() ==> (#[trigger] children@[k]).0 < old(self).cst.nodes@.len(),
            kind == CstNodeKind::Error ==> exists|j: int|
                0 <= j < old(self).diagnostics@.len() && (#[trigger] old(self).diagnostics@[j]).span == span,
        ensures
            final(self).inv(),
            final(self).grows_from(*old(self)),
            final(self).position == old(self).position,
            final(self).depth == old(self).depth,
            final(self).ast == old(self).ast,
            id.0 < final(self).cst.nodes@.len(),
            old(self).cst.nodes@.len() + 1 < u32::MAX ==> {
                &&& id.0 == old(self).cst.nodes@.len()
                &&& final(self).cst.nodes@.last().kind == kind
                &&& final(self).cst.nodes@.last().span == span
                &&& final(self).cst.nodes@.last().children@ == children@
                &&& final(self).cst.nodes@.len() == old(self).cst.nodes@.len() + 1
                &&& final(self).diagnostics@ == old(self).diagnostics@
            },
    {
        proof {
            lemma_extends_refl(self.ast);
        }
        if self.cst.nodes.len() < 0xffff_fffe {
            let id = self.cst.push(kind, span, children);
            proof {
                assert(self.diagnostics@.subrange(0, old(self).diagnostics@.len() as int) =~= old(self).diagnostics@);
            }
            id
        } else {
            self.report("E0005", "maximum node count exceeded", span);
            NodeId(0)
        }
    }

    pub(crate) fn enter_nested(&mut self, span: Span) -> (entered: bool)
        requires
            old(self).inv(),
            span_within(old(self).src(), span),
        ensures
            final(self).inv(),
            final(self).grows_from(*old(self)),
            final(self).position == old(self).position,
            final(self).ast == old(self).ast,
            final(self).cst == old(self).cst,
            entered <==> old(self).depth < old(self).max_depth || old(self).depth == u32::MAX,
            entered ==> final(self).diagnostics@ == old(self).diagnostics@,
            !entered ==> {
                &&& final(self).depth == old(self).depth
                &&& final(self).diagnostics@.len() == old(self).diagnostics@.len() + 1
                &&& final(self).diagnostics@.last().code@ == "E0001"@
            },
    {
        proof {
            lemma_extends_refl(self.ast);
        }
        self.depth = self.depth.saturating_add(1);
        if self.depth > self.max_depth {
            self.depth = self.depth.saturating_sub(1);
            self.report("E0001", "maximum nesting depth exceeded", span);
            return false;
        }
        proof {
            assert(self.diagnostics@.subrange(0, old(self).diagnostics@.len() as int) =~= old(self).diagnostics@);
        }
        true
    }

    pub(crate) fn leave_nested(&mut self)
        requires
            old(self).inv(),
        ensures
            final(self).inv(),
            final(self).position == old(self).position,
            final(self).ast == old(self).ast,
            final(self).cst == old(self).cst,
            final(self).diagnostics@ == old(self).diagnostics@,
            final(self).grows_from(*old(self)),
    {
        proof {
            lemma_extends_refl(self.ast);
        }
        self.depth = self.depth.saturating_sub(1);
        proof {
            assert(self.diagnostics@.subrange(0, old(self).diagnostics@.len() as int) =~= old(self).diagnostics@);
        }
    }

    /// Skip to the next newline, comma, closing brace or the end of input.
    pub(crate) fn recover_to_member_boundary(&mut self)
        requires
            old(self).inv(),
        ensures
            final(self).grows_from(*old(self)),
            final(self).inv(),
            final(self).moved_only(*old(self)),
            final(self).position >= old(self).position,
            final(self).cur_kind() == TokenKind::Newline || final(self).cur_kind()
                == TokenKind::Comma || final(self).cur_kind() == TokenKind::RBrace || final(self).cur_kind() == TokenKind::Eof,
    {
        while !(self.current_kind() == TokenKind::Newline || self.current_kind() == TokenKind::Comma
            || self.current_kind() == TokenKind::RBrace || self.current_kind() == TokenKind::Eof)
            invariant
                self.inv(),
                self.moved_only(*old(self)),
                self.position >= old(self).position,
            decreases self.tokens@.len() - self.position,
        {
            self.advance();
        }
        proof {
            lemma_moved_grows(*old(self), *self);
        }
    }

    pub(crate) fn finish(self) -> (r: (Document, Vec<Diagnostic>))
        requires
            self.inv(),
        ensures
            r.0.source@ == self.source@,
            r.0.cst.nodes@ == self.cst.nodes@,
            r.0.cst.tokens@ == self.tokens@,
            r.0.cst.trivia@ == self.trivia@,
            r.0.ast == self.ast,
            r.1@ == self.diagnostics@,
    {
        let document = Document {
            source: self.source.to_owned(),
            cst: SyntaxTree { nodes: self.cst.nodes, tokens: self.tokens, trivia: self.trivia },
            ast: self.ast,
        };
        (document, self.diagnostics)
    }
}

} // verus!
