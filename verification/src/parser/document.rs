use vstd::prelude::*;

use crate::ast::{
    span_within, key_backed, lemma_valid_below, lemma_wf_reveal, Annotation, Ast, SchemaKind, AnnotationArgument, AnnotationId, Binding, CstNodeKind,
    ErrorNode, Key, Member, MemberId, NodeId, ObjectValue, ParseResult, Root, TypeDeclaration,
    Value, ValueId, Document,
};
use crate::parser::expressions::{condition_begun, ends_condition};
use crate::parser::values::{simple_value, simple_value_len, value_begun};
use crate::parser::types::{lemma_simple_type_mono, lemma_simple_type_same, simple_type, simple_type_len, type_parsed};
use crate::parser::{errors_reported, first_significant, lemma_diags_refl, lemma_diags_trans, Parser};
use crate::resolve::member_span_of;
use crate::span::Span;
use crate::text::text_of;
use crate::token::{Token, TokenKind};

verus! {

broadcast use crate::parser::lemma_grows_trans;

/// `m` is the member that parsing from token `cur`, followed by a token of
/// kind `next`, then the token `third` and one of kind `fourth`, gives under
/// `annotations`: for a key followed by `:` and a schema keyword, a type
/// declaration of that name and a schema of that kind; for a key followed
/// by `:`, a binding whose type annotation is the type that `third` begins;
/// for another key, a binding without one, whose value, after `=`, is the
/// condition that `third` begins; and an error member where no key starts.
pub open spec fn member_parsed(
    src: Seq<u8>,
    cur: Token,
    next: TokenKind,
    third: Token,
    fourth: TokenKind,
    annotations: Seq<AnnotationId>,
    ast: Ast,
    m: Member,
) -> bool {
    let text = text_of(src, cur.span.start as int, cur.span.end as int);
    let after = third.kind;
    if !(cur.kind == TokenKind::Identifier || cur.kind == TokenKind::UnknownAtom) {
        m is Error && m->Error_0.message@ == "expected a key"@ && m->Error_0.span == cur.span
    } else if next == TokenKind::Colon && (after == TokenKind::Struct || after == TokenKind::Enum) {
        &&& m is TypeDeclaration
        &&& m->TypeDeclaration_0.name.raw@ == text
        &&& m->TypeDeclaration_0.name.span == cur.span
        &&& m->TypeDeclaration_0.annotations@ == annotations
        &&& m->TypeDeclaration_0.definition.0 < ast.schemas_view().len()
        &&& ast.schemas_view().len() + 2 < u32::MAX ==> ast.schemas_view()[m->TypeDeclaration_0.definition.0 as int].kind
            == if after == TokenKind::Struct {
            SchemaKind::Struct
        } else {
            SchemaKind::Enum
        }
    } else {
        &&& m is Binding
        &&& m->Binding_0.key.raw@ == text
        &&& m->Binding_0.key.span == cur.span
        &&& m->Binding_0.annotations@ == annotations
        &&& m->Binding_0.value.0 < ast.values_view().len()
        &&& if next == TokenKind::Colon {
            &&& m->Binding_0.type_annotation matches Some(t) && t.0 < ast.types_view().len()
            &&& ast.types_view().len() + 2 < u32::MAX && ast.schemas_view().len() + 2 < u32::MAX
                ==> type_parsed(
                src,
                third,
                fourth,
                ast,
                ast.types_view()[(m->Binding_0.type_annotation->0).0 as int],
            )
        } else {
            m->Binding_0.type_annotation is None
        }
        &&& next == TokenKind::Equals && ast.values_view().len() + 2 < u32::MAX
            && ast.schemas_view().len() + 2 < u32::MAX ==> condition_begun(
            src,
            third,
            fourth,
            ast.values_view()[m->Binding_0.value.0 as int],
        )
    }
}

/// The kind of token `i`, or the end of input past the last token.
pub open spec fn kind_of(tokens: Seq<Token>, i: int) -> TokenKind {
    if 0 <= i < tokens.len() {
        tokens[i].kind
    } else {
        TokenKind::Eof
    }
}

/// The key at token `k` is followed by `:`, a simple type and `=`.
pub open spec fn typed_at(t: Seq<Token>, k: int) -> bool {
    &&& 0 <= k
    &&& k + 1 < t.len()
    &&& t[k + 1].kind == TokenKind::Colon
    &&& simple_type_len(t, k + 2) > 0
    &&& k + 2 + simple_type_len(t, k + 2) < t.len()
    &&& t[k + 2 + simple_type_len(t, k + 2)].kind == TokenKind::Equals
}

/// The index of the first token of the value of the member at token `k`.
pub open spec fn value_at(t: Seq<Token>, k: int) -> int {
    if typed_at(t, k) {
        k + 3 + simple_type_len(t, k + 2)
    } else {
        k + 2
    }
}

/// Token `k` starts a member `key = value` or `key: type = value`, its
/// type a name or a name with names as generic arguments, its value a
/// literal, a bare identifier or `.` and an identifier, that a separator, a
/// closing brace or the end of input closes.
pub open spec fn simple_member_at(t: Seq<Token>, k: int) -> bool {
    &&& 0 <= k
    &&& key_kind(t[k].kind)
    &&& k + 1 < t.len()
    &&& (t[k + 1].kind == TokenKind::Equals || typed_at(t, k))
    &&& simple_value_len(t, value_at(t, k)) > 0
    &&& member_len(t, k) < t.len() - k
    &&& ends_condition(t[k + member_len(t, k)].kind)
}

/// The number of tokens of the member at token `k`.
pub open spec fn member_len(t: Seq<Token>, k: int) -> int {
    value_at(t, k) - k + simple_value_len(t, value_at(t, k))
}

/// The key tokens of a list of simple `key = value` members from token `i` on,
/// up to a token of kind `close`, each member closed by a separator or by
/// that token, with separators anywhere between them; none where the tokens
/// from `i` are not such a list.
pub open spec fn flat_positions(t: Seq<Token>, i: int, close: TokenKind) -> Option<Seq<int>>
    decreases t.len() - i,
{
    let k = first_significant(t, i);
    if !(0 <= i <= k < t.len()) {
        None
    } else if t[k].kind == close {
        Some(Seq::empty())
    } else if simple_member_at(t, k) {
        match flat_positions(t, k + member_len(t, k), close) {
            Some(rest) => Some(seq![k] + rest),
            None => None,
        }
    } else {
        None
    }
}

/// The index of the token of kind `close` that ends the list of
/// `flat_positions`.
pub open spec fn flat_end(t: Seq<Token>, i: int, close: TokenKind) -> int
    decreases t.len() - i,
{
    let k = first_significant(t, i);
    if !(0 <= i <= k < t.len()) || t[k].kind == close || !simple_member_at(t, k) {
        k
    } else {
        flat_end(t, k + member_len(t, k), close)
    }
}

/// The document's AST arenas and CST have room for more nodes.
pub open spec fn document_roomy(d: Document) -> bool {
    &&& d.ast.values_view().len() + 2 < u32::MAX
    &&& d.ast.schemas_view().len() + 2 < u32::MAX
    &&& d.ast.members_view().len() + 2 < u32::MAX
    &&& d.ast.types_view().len() + 2 < u32::MAX
    &&& d.cst.nodes@.len() + 1 < u32::MAX
}

/// `m` is the simple member whose key is token `k`: a binding with that
/// key's text and span, no annotation, the simple type after `:` where
/// there is one, and the simple value after `=`.
#[verifier::opaque]
pub open spec fn member_simple(src: Seq<u8>, t: Seq<Token>, k: int, ast: Ast, m: Member) -> bool {
    &&& m is Binding
    &&& m->Binding_0.key.raw@ == text_of(src, t[k].span.start as int, t[k].span.end as int)
    &&& m->Binding_0.key.span == t[k].span
    &&& m->Binding_0.annotations@.len() == 0
    &&& if typed_at(t, k) {
        &&& m->Binding_0.type_annotation matches Some(ti) && ti.0 < ast.types_view().len()
        &&& simple_type(
            src,
            t,
            k + 2,
            ast,
            ast.types_view()[(m->Binding_0.type_annotation->0).0 as int],
        )
    } else {
        m->Binding_0.type_annotation is None
    }
    &&& m->Binding_0.value.0 < ast.values_view().len()
    &&& simple_value(src, t, value_at(t, k), ast.values_view()[m->Binding_0.value.0 as int])
}

proof fn lemma_first_significant_ge(t: Seq<Token>, i: int)
    ensures
        first_significant(t, i) >= i,
    decreases t.len() - i,
{
    if 0 <= i < t.len() && (t[i].kind == TokenKind::Newline || t[i].kind == TokenKind::Comma) {
        lemma_first_significant_ge(t, i + 1);
    }
}

/// A simple member reads only the AST's values and types.
proof fn lemma_member_simple_same(src: Seq<u8>, t: Seq<Token>, k: int, a1: Ast, a2: Ast, m: Member)
    requires
        member_simple(src, t, k, a1, m),
        a1.values@ == a2.values@,
        a1.types@ == a2.types@,
        a1.schemas@ == a2.schemas@,
    ensures
        member_simple(src, t, k, a2, m),
{
    reveal(member_simple);
    lemma_wf_reveal(a1);
    lemma_wf_reveal(a2);
    assert(a1.values_view() == a2.values_view());
    assert(a1.types_view() == a2.types_view());
    assert(a1.schemas_view() == a2.schemas_view());
    if typed_at(t, k) {
        let ty = a1.types_view()[(m->Binding_0.type_annotation->0).0 as int];
        lemma_simple_type_same(src, t, k + 2, a1, a2, ty);
    }
}

proof fn lemma_member_simple_mono(src: Seq<u8>, t: Seq<Token>, k: int, a1: Ast, a2: Ast, id: MemberId)
    requires
        a2.extends(a1),
        id.0 < a1.members@.len(),
        member_simple(src, t, k, a1, a1.members@[id.0 as int]),
    ensures
        member_simple(src, t, k, a2, a2.members@[id.0 as int]),
{
    reveal(member_simple);
    lemma_wf_reveal(a1);
    lemma_wf_reveal(a2);
    assert(a2.members@[id.0 as int] == a2.members@.subrange(0, a1.members@.len() as int)[id.0 as int]);
    let v = a1.members@[id.0 as int]->Binding_0.value.0 as int;
    assert(a2.values@[v] == a2.values@.subrange(0, a1.values@.len() as int)[v]);
    if typed_at(t, k) {
        let ti = (a1.members@[id.0 as int]->Binding_0.type_annotation->0).0 as int;
        assert(a2.types@[ti] == a2.types@.subrange(0, a1.types@.len() as int)[ti]);
        lemma_simple_type_mono(src, t, k + 2, a1, a2, a1.types@[ti]);
    }
}

/// A token that can start a member: an identifier or an unknown atom.
pub open spec fn key_kind(k: TokenKind) -> bool {
    k == TokenKind::Identifier || k == TokenKind::UnknownAtom
}

/// A member parsed into one AST stays so parsed as the AST grows.
proof fn lemma_member_parsed_mono(
    src: Seq<u8>,
    cur: Token,
    next: TokenKind,
    third: Token,
    fourth: TokenKind,
    annotations: Seq<AnnotationId>,
    a1: Ast,
    a2: Ast,
    id: MemberId,
)
    requires
        a2.extends(a1),
        id.0 < a1.members@.len(),
        a1.members@.len() + 2 < u32::MAX ==> member_parsed(src, cur, next, third, fourth, annotations, a1, a1.members@[id.0 as int]),
    ensures
        a2.members@.len() + 2 < u32::MAX ==> member_parsed(src, cur, next, third, fourth, annotations, a2, a2.members@[id.0 as int]),
{
    lemma_wf_reveal(a1);
    lemma_wf_reveal(a2);
    assert(a2.members@[id.0 as int] == a2.members@.subrange(0, a1.members@.len() as int)[id.0 as int]);
    let m = a1.members@[id.0 as int];
    if a2.members@.len() + 2 < u32::MAX && m is TypeDeclaration {
        let d = m->TypeDeclaration_0.definition.0 as int;
        if d < a1.schemas@.len() {
            assert(a2.schemas@[d] == a2.schemas@.subrange(0, a1.schemas@.len() as int)[d]);
        }
    }
    if a2.members@.len() + 2 < u32::MAX && m is Binding {
        let v = m->Binding_0.value.0 as int;
        if v < a1.values@.len() {
            assert(a2.values@[v] == a2.values@.subrange(0, a1.values@.len() as int)[v]);
        }
        if m->Binding_0.type_annotation is Some {
            let t = (m->Binding_0.type_annotation->0).0 as int;
            if t < a1.types@.len() {
                assert(a2.types@[t] == a2.types@.subrange(0, a1.types@.len() as int)[t]);
                let te = a1.types@[t];
                if te is Schema && te->Schema_schema.0 < a1.schemas@.len() {
                    let d = te->Schema_schema.0 as int;
                    assert(a2.schemas@[d] == a2.schemas@.subrange(0, a1.schemas@.len() as int)[d]);
                }
            }
        }
    }
}

impl<'source> Parser<'source> {
    /// Parse the whole document: root annotations, then an explicit object, an
    /// array, or an implicit object.
    #[verifier::rlimit(100)]
    pub(crate) fn parse_document(self) -> (result: ParseResult)
        requires
            self.inv(),
            self.position == 0,
            self.cst.nodes@.len() == 0,
            self.ast.values@.len() == 0,
            self.ast.members@.len() == 0,
            self.ast.root_annotations@.len() == 0,
        ensures
            result.document.source@ == self.source@,
            result.document.cst.tokens@ == self.tokens@,
            result.document.cst.trivia@ == self.trivia@,
            result.document.cst.wf(),
            errors_reported(result.document.cst.nodes@, result.diagnostics@),
            result.document.ast.well_formed(),
            result.document.ast.backed(self.src()),
            forall|i: int|
                0 <= i < result.diagnostics@.len() ==> span_within(self.src(), (#[trigger] result.diagnostics@[i]).span),
            crate::parser::diags_extend(result.diagnostics@, self.diagnostics@),
            result.document.ast.root_annotations@.len() > 0 && !(result.document.ast.root is ExplicitObject)
                ==> exists|i: int|
                0 <= i < result.diagnostics@.len() && (#[trigger] result.diagnostics@[i]).code@
                    == "E0101"@,
            self.tokens@.len() == 1 ==> {
                &&& result.document.ast.root matches Root::ImplicitObject { members }
                    && members@.len() == 0
                &&& result.document.ast.root_annotations@.len() == 0
                &&& result.diagnostics@ == self.diagnostics@
            },
            ({
                let first = self.tokens@[first_significant(self.tokens@, 0)].kind;
                &&& first == TokenKind::LBrace ==> result.document.ast.root is ExplicitObject
                    && result.document.ast.root_annotations@.len() == 0
                &&& first == TokenKind::LBracket ==> result.document.ast.root is Array
                    && result.document.ast.root_annotations@.len() == 0
                &&& first != TokenKind::LBrace && first != TokenKind::LBracket && first
                    != TokenKind::AnnotationStart ==> result.document.ast.root is ImplicitObject
                    && result.document.ast.root_annotations@.len() == 0
            }),
            ({
                let t = self.tokens@;
                let k = first_significant(t, 0);
                let p = if t[k].kind == TokenKind::LBrace {
                    first_significant(t, k + 1)
                } else {
                    k
                };
                let ast = result.document.ast;
                (t[k].kind == TokenKind::LBrace || key_kind(t[k].kind)) && key_kind(kind_of(t, p))
                    ==> {
                    &&& ast.root_members().len() > 0
                    &&& ast.members_view().len() + 2 < u32::MAX ==> member_parsed(
                        self.src(),
                        t[p],
                        kind_of(t, p + 1),
                        t[p + 2],
                        kind_of(t, p + 3),
                        Seq::empty(),
                        ast,
                        ast.members_view()[ast.root_members()[0].0 as int],
                    )
                }
            }),
            ({
                let t = self.tokens@;
                let k = first_significant(t, 0);
                t[k].kind == TokenKind::LBrace && flat_positions(t, k + 1, TokenKind::RBrace) is Some
                    && document_roomy(result.document)
            }) ==> {
                let t = self.tokens@;
                let k = first_significant(t, 0);
                let ps = flat_positions(t, k + 1, TokenKind::RBrace)->0;
                let after = t[first_significant(t, flat_end(t, k + 1, TokenKind::RBrace) + 1)];
                let ast = result.document.ast;
                &&& ast.root is ExplicitObject
                &&& ast.root_annotations@.len() == 0
                &&& ast.root_members().len() == ps.len()
                &&& forall|j: int|
                    0 <= j < ps.len() ==> member_simple(
                        self.src(),
                        t,
                        ps[j],
                        ast,
                        ast.members_view()[(#[trigger] ast.root_members()[j]).0 as int],
                    )
                &&& if after.kind == TokenKind::Eof {
                    result.diagnostics@ == self.diagnostics@
                } else {
                    &&& result.diagnostics@.len() == self.diagnostics@.len() + 1
                    &&& result.diagnostics@.subrange(0, self.diagnostics@.len() as int) == self.diagnostics@
                    &&& result.diagnostics@.last().code@ == "E0108"@
                    &&& result.diagnostics@.last().message@ == "unexpected tokens after the root"@
                    &&& result.diagnostics@.last().span == after.span
                }
            },
            flat_positions(self.tokens@, 0, TokenKind::Eof) is Some && document_roomy(result.document) ==> {
                let ps = flat_positions(self.tokens@, 0, TokenKind::Eof)->0;
                let ast = result.document.ast;
                &&& result.diagnostics@ == self.diagnostics@
                &&& ast.root is ImplicitObject
                &&& ast.root_annotations@.len() == 0
                &&& ast.root_members().len() == ps.len()
                &&& forall|j: int|
                    0 <= j < ps.len() ==> member_simple(
                        self.src(),
                        self.tokens@,
                        ps[j],
                        ast,
                        ast.members_view()[(#[trigger] ast.root_members()[j]).0 as int],
                    )
            },
    {
        let mut parser = self;
        let ghost entry = parser;
        proof {
            crate::parser::lemma_grows_refl(parser);
            assert(entry.tokens@.len() == 1 ==> entry.cur_kind() == TokenKind::Eof);
        }
        parser.skip_separators();
        let mut root_annotations: Vec<AnnotationId> = Vec::new();
        while parser.at(TokenKind::AnnotationStart)
            invariant
                parser.ok_after(entry),
                parser.valid_annotations(root_annotations@),
                entry.tokens@.len() == 1 ==> {
                    &&& root_annotations@.len() == 0
                    &&& parser.position == 0
                    &&& parser.diagnostics@ == entry.diagnostics@
                    &&& parser.cst == entry.cst
                },
                entry.tokens@[first_significant(entry.tokens@, 0)].kind != TokenKind::AnnotationStart
                    ==> root_annotations@.len() == 0 && parser.diagnostics@ == entry.diagnostics@
                    && parser.position == first_significant(entry.tokens@, 0),
            decreases parser.tokens@.len() - parser.position,
        {
            if let Some(annotation_id) = parser.parse_annotation() {
                root_annotations.push(annotation_id);
            }
            parser.skip_separators();
        }
        let ghost before_root = parser;
        let ghost mut flagged: int = -1;
        let closed = parser.at(TokenKind::LBrace) || parser.at(TokenKind::LBracket);
        let ghost mut root_ast = parser.ast;
        let ghost mut root_members: Seq<MemberId> = Seq::empty();
        let ghost mut pre_members = parser;
        let ghost mut post_members = parser;
        if parser.at(TokenKind::LBrace) {
            proof {
                pre_members = parser;
            }
            let (members, children, span) = parser.parse_object_members();
            proof {
                lemma_valid_below(parser.ast);
                root_ast = parser.ast;
                root_members = members@;
                post_members = parser;
            }
            parser.ast.set_root(Root::ExplicitObject { members });
            let ghost mid = parser.diagnostics@;
            parser.push_cst(CstNodeKind::Object, span, children);
            proof {
                lemma_diags_trans(before_root.diagnostics@, mid, parser.diagnostics@);
            }
        } else if parser.at(TokenKind::LBracket) {
            if root_annotations.len() > 0 {
                let span = parser.current_span();
                parser.report("E0101", "root annotations require an explicit object root", span);
                proof {
                    flagged = parser.diagnostics@.len() - 1;
                }
            }
            let ghost mid = parser.diagnostics@;
            proof {
                crate::parser::lemma_grows_refl(before_root);
                crate::parser::lemma_grows_refl(parser);
                lemma_diags_trans(before_root.diagnostics@, mid, mid);
            }
            let items = parser.parse_array_items();
            proof {
                lemma_valid_below(parser.ast);
                lemma_diags_trans(before_root.diagnostics@, mid, parser.diagnostics@);
                if root_annotations@.len() > 0 {
                    assert(parser.diagnostics@[flagged] == mid[flagged]);
                    assert(0 <= flagged < parser.diagnostics@.len() && parser.diagnostics@[flagged].code@ == "E0101"@);
                }
            }
            parser.ast.set_root(Root::Array { items });
        } else {
            if root_annotations.len() > 0 {
                let span = parser.current_span();
                parser.report("E0101", "root annotations require an explicit object root", span);
                proof {
                    flagged = parser.diagnostics@.len() - 1;
                }
            }
            let ghost mid = parser.diagnostics@;
            proof {
                crate::parser::lemma_grows_refl(before_root);
                crate::parser::lemma_grows_refl(parser);
                lemma_diags_trans(before_root.diagnostics@, mid, mid);
            }
            proof {
                pre_members = parser;
            }
            let (members, children, span) = parser.parse_object_members();
            proof {
                lemma_valid_below(parser.ast);
                lemma_diags_trans(before_root.diagnostics@, mid, parser.diagnostics@);
                root_ast = parser.ast;
                root_members = members@;
                post_members = parser;
            }
            parser.ast.set_root(Root::ImplicitObject { members });
            let ghost mid2 = parser.diagnostics@;
            parser.push_cst(CstNodeKind::Object, span, children);
            proof {
                lemma_diags_trans(before_root.diagnostics@, mid2, parser.diagnostics@);
                if root_annotations@.len() > 0 {
                    assert(mid2[flagged] == mid[flagged]);
                    assert(parser.diagnostics@[flagged] == mid2[flagged]);
                    assert(0 <= flagged < parser.diagnostics@.len() && parser.diagnostics@[flagged].code@ == "E0101"@);
                }
            }
        }
        let ghost after_root = parser;
        if closed {
            parser.report_trailing_tokens();
        } else {
            proof {
                lemma_diags_refl(parser.diagnostics@);
            }
        }
        proof {
            lemma_valid_below(parser.ast);
            lemma_diags_trans(entry.diagnostics@, before_root.diagnostics@, after_root.diagnostics@);
            lemma_diags_trans(entry.diagnostics@, after_root.diagnostics@, parser.diagnostics@);
            if root_annotations@.len() > 0 && !(parser.ast.root is ExplicitObject) {
                assert(parser.diagnostics@[flagged] == after_root.diagnostics@[flagged]);
                assert(0 <= flagged < parser.diagnostics@.len() && parser.diagnostics@[flagged].code@ == "E0101"@);
            }
        }
        let ghost annotated = root_annotations@.len() > 0;
        parser.ast.set_root_annotations(root_annotations);
        let (document, diagnostics) = parser.finish();
        proof {
            if annotated && !(document.ast.root is ExplicitObject) {
                assert(diagnostics@[flagged].code@ == "E0101"@);
            }
            let first = entry.tokens@[first_significant(entry.tokens@, 0)].kind;
            if first != TokenKind::AnnotationStart {
                assert(before_root.position == first_significant(entry.tokens@, 0));
                assert(!annotated);
            }
        }
        let ghost witness = flagged;
        let result = ParseResult { document, diagnostics };
        proof {
            let t = entry.tokens@;
            let k = first_significant(t, 0);
            if t[k].kind == TokenKind::LBrace && flat_positions(t, k + 1, TokenKind::RBrace) is Some
                && document_roomy(result.document) {
                lemma_wf_reveal(result.document.ast);
                assert(before_root.position == k);
                assert(pre_members.position == k);
                assert(post_members.roomy());
                assert(result.document.ast.root_members() == root_members);
                assert(post_members.diagnostics@ == pre_members.diagnostics@);
                assert(pre_members.diagnostics@ == entry.diagnostics@);
                assert(after_root.diagnostics@ == post_members.diagnostics@);
                assert(after_root.position == flat_end(t, k + 1, TokenKind::RBrace) + 1);
                assert(result.document.ast.members@ == post_members.ast.members@);
                assert(result.document.ast.values@ == post_members.ast.values@);
                assert(result.document.ast.types@ == post_members.ast.types@);
                let ps = flat_positions(t, k + 1, TokenKind::RBrace)->0;
                assert forall|j: int| 0 <= j < ps.len() implies member_simple(
                    entry.src(),
                    t,
                    ps[j],
                    result.document.ast,
                    result.document.ast.members_view()[(#[trigger] result.document.ast.root_members()[j]).0 as int],
                ) by {
                    let m = post_members.ast.members@[root_members[j].0 as int];
                    assert(result.document.ast.schemas@ == post_members.ast.schemas@);
                    lemma_member_simple_same(entry.src(), t, ps[j], post_members.ast, result.document.ast, m);
                }
                assert(entry.diagnostics@ =~= entry.diagnostics@.subrange(0, entry.diagnostics@.len() as int));
            }
            if flat_positions(t, 0, TokenKind::Eof) is Some && document_roomy(result.document) {
                lemma_wf_reveal(result.document.ast);
                let k = first_significant(t, 0);
                assert(first_significant(t, k) == k);
                assert(flat_positions(t, k, TokenKind::Eof) == flat_positions(t, 0, TokenKind::Eof));
                assert(before_root.position == k);
                assert(pre_members.position == k);
                assert(post_members.roomy());
                assert(result.document.ast.root_members() == root_members);
                assert(parser.diagnostics@ == post_members.diagnostics@);
                assert(post_members.diagnostics@ == pre_members.diagnostics@);
                assert(pre_members.diagnostics@ == entry.diagnostics@);
                assert(result.document.ast.members@ == post_members.ast.members@);
                assert(result.document.ast.values@ == post_members.ast.values@);
                assert(result.document.ast.types@ == post_members.ast.types@);
                let ps = flat_positions(t, 0, TokenKind::Eof)->0;
                assert forall|j: int| 0 <= j < ps.len() implies member_simple(
                    entry.src(),
                    t,
                    ps[j],
                    result.document.ast,
                    result.document.ast.members_view()[(#[trigger] result.document.ast.root_members()[j]).0 as int],
                ) by {
                    let m = post_members.ast.members@[root_members[j].0 as int];
                    assert(result.document.ast.schemas@ == post_members.ast.schemas@);
                    lemma_member_simple_same(entry.src(), t, ps[j], post_members.ast, result.document.ast, m);
                }
            }
        }
        proof {
            lemma_wf_reveal(result.document.ast);
            lemma_wf_reveal(root_ast);
            let t = entry.tokens@;
            let k = first_significant(t, 0);
            if key_kind(t[k].kind) {
                assert(before_root.position == k);
                assert(first_significant(t, k) == k);
            }
            if (t[k].kind == TokenKind::LBrace || key_kind(t[k].kind)) {
                assert(result.document.ast.root_members() == root_members);
                assert(result.document.ast.members@ == root_ast.members@);
                assert(result.document.ast.schemas@ == root_ast.schemas@);
                assert(result.document.ast.values@ == root_ast.values@);
                assert(result.document.ast.types@ == root_ast.types@);
            }
            if result.document.ast.root_annotations@.len() > 0 && !(result.document.ast.root is ExplicitObject) {
                assert(result.diagnostics@[witness].code@ == "E0101"@);
            }
        }
        result
    }

    /// After an explicit object or an array root only separators may
    /// remain: report the first other token left before the end of input.
    fn report_trailing_tokens(&mut self)
        requires
            old(self).inv(),
        ensures
            final(self).ok_after(*old(self)),
            final(self).ast == old(self).ast,
            final(self).cst == old(self).cst,
            ({
                let t = old(self).tokens@[first_significant(old(self).tokens@, old(self).position as int)];
                if t.kind == TokenKind::Eof {
                    final(self).diagnostics@ == old(self).diagnostics@
                } else {
                    &&& final(self).diagnostics@.len() == old(self).diagnostics@.len() + 1
                    &&& final(self).diagnostics@.last().code@ == "E0108"@
                    &&& final(self).diagnostics@.last().message@ == "unexpected tokens after the root"@
                    &&& final(self).diagnostics@.last().span == t.span
                }
            }),
    {
        let ghost entry = *self;
        self.skip_separators();
        if !self.at(TokenKind::Eof) {
            let span = self.current_span();
            self.report("E0108", "unexpected tokens after the root", span);
        }
        proof {
            crate::parser::lemma_grows_refl(*self);
        }
    }

    pub(crate) fn parse_object_value(&mut self) -> (id: ValueId)
        requires
            old(self).inv(),
            old(self).cur_kind() == TokenKind::LBrace,
        ensures
            final(self).ok_after(*old(self)),
            final(self).valid_value(id),
            final(self).ast.values@.len() + 2 < u32::MAX ==> (final(self).ast.values@[id.0 as int]
                matches Value::Object(o) && o.span.start == old(self).cur().span.start),
        decreases old(self).remaining(), 4int,
    {
        let ghost entry = *self;
        let start = self.current_span().start;
        let open_span = self.current_span();
        let nested = self.enter_nested(open_span);
        let (members, children, end) = if nested {
            let result = self.parse_object_members();
            self.leave_nested();
            result
        } else {
            while !(self.current_kind() == TokenKind::RBrace || self.current_kind() == TokenKind::Eof)
                invariant
                    self.ok_after(entry),
                    entry == *old(self),
                decreases self.tokens@.len() - self.position,
            {
                self.advance();
            }
            let end = match self.eat(TokenKind::RBrace) {
                Some(token) => token.span,
                None => self.current_span(),
            };
            (Vec::new(), Vec::new(), end)
        };
        let span = Span::new(start, end.end);
        proof {
            lemma_valid_below(self.ast);
        }
        let value_id = self.add_value(Value::Object(ObjectValue { members, span }));
        self.push_cst(CstNodeKind::Object, span, children);
        value_id
    }

    /// Parse the members of an object: after its `{` up to its `}` for an
    /// explicit object, or up to the end of input for an implicit one.
    #[verifier::rlimit(80)]
    pub(crate) fn parse_object_members(&mut self) -> (r: (Vec<MemberId>, Vec<NodeId>, Span))
        requires
            old(self).inv(),
        ensures
            final(self).ok_after(*old(self)),
            final(self).valid_members(r.0@),
            final(self).valid_nodes(r.1@),
            span_within(final(self).src(), r.2),
            ({
                let p = first_significant(
                    old(self).tokens@,
                    if old(self).cur_kind() == TokenKind::LBrace {
                        old(self).position + 1
                    } else {
                        old(self).position as int
                    },
                );
                key_kind(kind_of(old(self).tokens@, p)) ==> {
                    &&& r.0@.len() > 0
                    &&& final(self).ast.members@.len() + 2 < u32::MAX ==> member_parsed(
                        old(self).src(),
                        old(self).tokens@[p],
                        kind_of(old(self).tokens@, p + 1),
                        old(self).tokens@[p + 2],
                        kind_of(old(self).tokens@, p + 3),
                        Seq::empty(),
                        final(self).ast,
                        final(self).ast.members@[r.0@[0].0 as int],
                    )
                }
            }),
            old(self).cur_kind() == TokenKind::Eof ==> {
                &&& r.0@.len() == 0
                &&& r.1@.len() == 0
                &&& final(self).diagnostics@ == old(self).diagnostics@
                &&& final(self).position == old(self).position
                &&& final(self).cst == old(self).cst
            },
            ({
                let explicit = old(self).cur_kind() == TokenKind::LBrace;
                let from = if explicit {
                    old(self).position + 1
                } else {
                    old(self).position as int
                };
                let close = if explicit {
                    TokenKind::RBrace
                } else {
                    TokenKind::Eof
                };
                flat_positions(old(self).tokens@, from, close) is Some && final(self).roomy()
                    ==> explicit ==> final(self).position == flat_end(old(self).tokens@, from, close) + 1
            }),
            ({
                let explicit = old(self).cur_kind() == TokenKind::LBrace;
                let from = if explicit {
                    old(self).position + 1
                } else {
                    old(self).position as int
                };
                let close = if explicit {
                    TokenKind::RBrace
                } else {
                    TokenKind::Eof
                };
                flat_positions(old(self).tokens@, from, close) is Some && final(self).roomy()
            }) ==> {
                let explicit = old(self).cur_kind() == TokenKind::LBrace;
                let from = if explicit {
                    old(self).position + 1
                } else {
                    old(self).position as int
                };
                let close = if explicit {
                    TokenKind::RBrace
                } else {
                    TokenKind::Eof
                };
                let ps = flat_positions(old(self).tokens@, from, close)->0;
                &&& r.0@.len() == ps.len()
                &&& final(self).diagnostics@ == old(self).diagnostics@
                &&& forall|j: int|
                    0 <= j < ps.len() ==> member_simple(
                        old(self).src(),
                        old(self).tokens@,
                        ps[j],
                        final(self).ast,
                        final(self).ast.members@[(#[trigger] r.0@[j]).0 as int],
                    )
            },
        decreases old(self).remaining(), 3int,
    {
        let ghost entry = *self;
        let start = self.current_span().start;
        let explicit = self.eat(TokenKind::LBrace).is_some();
        let mut members: Vec<MemberId> = Vec::new();
        let mut children: Vec<NodeId> = Vec::new();
        self.skip_separators();
        let ghost p = self.position as int;
        let ghost from: int = if explicit {
            entry.position + 1
        } else {
            entry.position as int
        };
        let ghost close = if explicit {
            TokenKind::RBrace
        } else {
            TokenKind::Eof
        };
        let ghost flat0 = flat_positions(entry.tokens@, from, close) is Some;
        let ghost ps0 = flat_positions(entry.tokens@, from, close)->0;
        let ghost mut q: int = from;
        proof {
            if flat0 {
                assert(ps0.subrange(0, ps0.len() as int) =~= ps0);
            }
            assert(p == first_significant(
                entry.tokens@,
                if entry.cur_kind() == TokenKind::LBrace {
                    entry.position + 1
                } else {
                    entry.position as int
                },
            ));
        }
        while !self.at(TokenKind::Eof) && (!explicit || !self.at(TokenKind::RBrace))
            invariant
                self.ok_after(entry),
                entry == *old(self),
                self.valid_members(members@),
                self.valid_nodes(children@),
                0 <= p < self.tokens@.len(),
                members@.len() == 0 ==> self.position == p,
                key_kind(kind_of(entry.tokens@, p)) && members@.len() > 0 && self.ast.members@.len() + 2
                    < u32::MAX ==> member_parsed(
                    entry.src(),
                    entry.tokens@[p],
                    kind_of(entry.tokens@, p + 1),
                    entry.tokens@[p + 2],
                    kind_of(entry.tokens@, p + 3),
                    Seq::empty(),
                    self.ast,
                    self.ast.members@[members@[0].0 as int],
                ),
                entry.cur_kind() == TokenKind::Eof ==> self.position == entry.position
                    && self.diagnostics@ == entry.diagnostics@ && members@.len() == 0
                    && children@.len() == 0 && self.cst == entry.cst,
                explicit == (entry.cur_kind() == TokenKind::LBrace),
                from == if explicit {
                    entry.position + 1
                } else {
                    entry.position as int
                },
                close == if explicit {
                    TokenKind::RBrace
                } else {
                    TokenKind::Eof
                },
                flat0 ==> ps0 == flat_positions(entry.tokens@, from, close)->0,
                flat0 && self.roomy() ==> {
                    &&& flat_positions(entry.tokens@, q, close) is Some
                    &&& flat_end(entry.tokens@, q, close) == flat_end(entry.tokens@, from, close)
                    &&& members@.len() <= ps0.len()
                    &&& flat_positions(entry.tokens@, q, close)->0 == ps0.subrange(
                        members@.len() as int,
                        ps0.len() as int,
                    )
                    &&& self.position == first_significant(entry.tokens@, q)
                    &&& self.diagnostics@ == entry.diagnostics@
                    &&& forall|j: int|
                        0 <= j < members@.len() ==> member_simple(
                            entry.src(),
                            entry.tokens@,
                            ps0[j],
                            self.ast,
                            self.ast.members@[(#[trigger] members@[j]).0 as int],
                        )
                },
            ensures
                key_kind(kind_of(entry.tokens@, p)) ==> members@.len() > 0,
                flat0 && self.roomy() ==> members@.len() == ps0.len(),
                flat0 && self.roomy() ==> self.position == flat_end(entry.tokens@, from, close),
            decreases self.tokens@.len() - self.position,
        {
            if self.at(TokenKind::RBrace) {
                break ;
            }
            let position = self.position;
            let ghost before = *self;
            let annotations = self.parse_leading_annotations();
            let ghost at_member = *self;
            let (member_id, cst_id) = match self.parse_member(annotations) {
                Ok(pair) => pair,
                Err(pair) => pair,
            };
            proof {
                if members@.len() > 0 && key_kind(kind_of(entry.tokens@, p)) {
                    lemma_member_parsed_mono(
                        entry.src(),
                        entry.tokens@[p],
                        kind_of(entry.tokens@, p + 1),
                        entry.tokens@[p + 2],
                        kind_of(entry.tokens@, p + 3),
                        Seq::empty(),
                        before.ast,
                        self.ast,
                        members@[0],
                    );
                } else if key_kind(kind_of(entry.tokens@, p)) {
                    assert(at_member.position == p);
                    assert(annotations@ == Seq::<AnnotationId>::empty());
                    assert(at_member.kind_at(1) == kind_of(entry.tokens@, p + 1));
                    assert(at_member.kind_at(3) == kind_of(entry.tokens@, p + 3));
                }
            }
            let ghost after_member = *self;
            let ghost done = members@;
            members.push(member_id);
            children.push(cst_id);
            self.skip_separators();
            proof {
                if flat0 && self.roomy() {
                    let t = entry.tokens@;
                    let k = before.position as int;
                    assert(before.roomy());
                    assert(after_member.roomy());
                    let rest = flat_positions(t, q, close)->0;
                    assert(simple_member_at(t, k));
                    let m = member_len(t, k);
                    assert(rest == seq![k] + flat_positions(t, k + m, close)->0);
                    assert(flat_end(t, q, close) == flat_end(t, k + m, close));
                    assert(at_member.position == k);
                    assert(annotations@ =~= Seq::<AnnotationId>::empty());
                    assert(ps0[done.len() as int] == rest[0]);
                    lemma_wf_reveal(self.ast);
                    assert(member_simple(
                        entry.src(),
                        t,
                        k,
                        self.ast,
                        self.ast.members@[member_id.0 as int],
                    ));
                    assert forall|j: int| 0 <= j < members@.len() implies member_simple(
                        entry.src(),
                        entry.tokens@,
                        ps0[j],
                        self.ast,
                        self.ast.members@[(#[trigger] members@[j]).0 as int],
                    ) by {
                        if j < done.len() {
                            assert(members@[j] == done[j]);
                            lemma_member_simple_mono(entry.src(), t, ps0[j], before.ast, self.ast, done[j]);
                        }
                    }
                    assert(members@.len() == done.len() + 1);
                    assert(rest.drop_first() =~= flat_positions(t, k + m, close)->0);
                    assert(ps0.subrange(done.len() + 1int, ps0.len() as int) =~= rest.drop_first());
                    assert(flat_positions(t, k + m, close)->0 =~= ps0.subrange(
                        members@.len() as int,
                        ps0.len() as int,
                    ));
                    lemma_first_significant_ge(t, k + m);
                    q = k + m;
                }
            }
            if self.position == position {
                break ;
            }
        }
        let end = if explicit {
            match self.eat(TokenKind::RBrace) {
                Some(token) => token.span,
                None => {
                    let span = self.current_span();
                    self.report("E0103", "expected closing brace", span);
                    span
                },
            }
        } else if members.len() == 0 {
            self.current_span()
        } else {
            match self.ast_member_end(members[members.len() - 1]) {
                Some(span) => span,
                None => self.current_span(),
            }
        };
        (members, children, Span::new(start, end.end))
    }

    /// Parse one member: a binding `key = value` or `key: type = value`, or a
    /// type declaration `key: struct {..}`; an error member when no key starts
    /// here.
    #[verifier::rlimit(100)]
    fn parse_member(&mut self, annotations: Vec<AnnotationId>) -> (r: Result<
        (MemberId, NodeId),
        (MemberId, NodeId),
    >)
        requires
            old(self).inv(),
            old(self).valid_annotations(annotations@),
        ensures
            final(self).ok_after(*old(self)),
            ({
                let (m, n) = match r {
                    Ok(pair) => pair,
                    Err(pair) => pair,
                };
                final(self).valid_member(m) && n.0 < final(self).cst.nodes@.len()
            }),
            r is Err ==> {
                &&& final(self).diagnostics@.len() > old(self).diagnostics@.len()
                &&& final(self).diagnostics@[old(self).diagnostics@.len() as int].code@
                    == "E0102"@
            },
            r is Err <==> !(old(self).cur_kind() == TokenKind::Identifier || old(self).cur_kind()
                == TokenKind::UnknownAtom),
            final(self).ast.members@.len() + 2 < u32::MAX ==> member_parsed(
                old(self).src(),
                old(self).cur(),
                old(self).kind_at(1),
                old(self).tokens@[old(self).position + 2],
                old(self).kind_at(3),
                annotations@,
                final(self).ast,
                final(self).ast.members@[(match r {
                    Ok(pair) => pair,
                    Err(pair) => pair,
                }).0.0 as int],
            ),
            simple_member_at(old(self).tokens@, old(self).position as int) && final(self).roomy() ==> {
                &&& r is Ok
                &&& final(self).position == old(self).position + member_len(
                    old(self).tokens@,
                    old(self).position as int,
                )
                &&& final(self).diagnostics@ == old(self).diagnostics@
                &&& annotations@.len() == 0 ==> member_simple(
                    old(self).src(),
                    old(self).tokens@,
                    old(self).position as int,
                    final(self).ast,
                    final(self).ast.members@[r->Ok_0.0.0 as int],
                )
            },
        decreases old(self).remaining(), 1int,
    {
        let ghost entry = *self;
        let key = match self.parse_key() {
            Some(key) => key,
            None => {
                let span = self.current_span();
                self.report("E0102", "expected a key", span);
                let ghost after_report = *self;
                self.recover_to_member_boundary();
                let error = Member::Error(ErrorNode { message: "expected a key".to_owned(), span });
                proof {
                    lemma_valid_below(self.ast);
                }
                let member_id = self.add_member(error);
                let cst_id = self.push_cst(CstNodeKind::Error, span, Vec::new());
                proof {
                    assert(self.diagnostics@.subrange(0, after_report.diagnostics@.len() as int)
                        == after_report.diagnostics@);
                    assert(self.diagnostics@[entry.diagnostics@.len() as int]
                        == self.diagnostics@.subrange(
                        0,
                        after_report.diagnostics@.len() as int,
                    )[entry.diagnostics@.len() as int]);
                }
                proof {
                    lemma_wf_reveal(self.ast);
                }
                return Err((member_id, cst_id));
            },
        };
        if self.eat(TokenKind::Colon).is_some() {
            if self.at(TokenKind::Struct) || self.at(TokenKind::Enum) {
                let schema_id = self.parse_schema();
                let span = Span::new(key.span.start, self.schema_end(schema_id));
                let declaration = Member::TypeDeclaration(
                    TypeDeclaration { annotations, name: key, definition: schema_id, span },
                );
                proof {
                    lemma_valid_below(self.ast);
                }
                let member_id = self.add_member(declaration);
                let cst_id = self.push_cst(CstNodeKind::TypeDeclaration, span, Vec::new());
                proof {
                    lemma_wf_reveal(self.ast);
                }
                return Ok((member_id, cst_id));
            }
            let ghost at_type = *self;
            let type_annotation = self.parse_type();
            let ghost after_type = *self;
            self.expect(TokenKind::Equals, "E0104", "expected '=' after type annotation");
            let ghost at_value = *self;
            let value = self.parse_condition_expression();
            let ghost after_value = *self;
            let span = Span::new(key.span.start, self.value_end(value));
            let binding = Member::Binding(
                Binding { annotations, key, type_annotation: Some(type_annotation), value, span },
            );
            proof {
                lemma_valid_below(self.ast);
            }
            let member_id = self.add_member(binding);
            let cst_id = self.push_cst(CstNodeKind::Binding, span, Vec::new());
            proof {
                reveal(member_simple);
                lemma_wf_reveal(self.ast);
                let t = entry.tokens@;
                let k = entry.position as int;
                if simple_member_at(t, k) && self.roomy() {
                    assert(typed_at(t, k));
                    assert(after_value.roomy());
                    assert(after_type.roomy());
                    assert(at_type.position == k + 2);
                    assert(after_type.position == value_at(t, k) - 1);
                    assert(at_value.position == value_at(t, k));
                    assert(at_value.kind_at(simple_value_len(t, value_at(t, k))) == t[k + member_len(t, k)].kind);
                    lemma_wf_reveal(after_type.ast);
                    lemma_simple_type_mono(
                        entry.src(),
                        t,
                        k + 2,
                        after_type.ast,
                        self.ast,
                        after_type.ast.types@[type_annotation.0 as int],
                    );
                    assert(self.ast.types@[type_annotation.0 as int] == after_type.ast.types@[type_annotation.0 as int]) by {
                        assert(self.ast.types@[type_annotation.0 as int] == self.ast.types@.subrange(0, after_type.ast.types@.len() as int)[type_annotation.0 as int]);
                    }
                    assert(self.ast.values@[value.0 as int] == after_value.ast.values@[value.0 as int]);
                }
            }
            return Ok((member_id, cst_id));
        }
        self.expect(TokenKind::Equals, "E0105", "expected '=' after key");
        let value = self.parse_condition_expression();
        let span = Span::new(key.span.start, self.value_end(value));
        proof {
            lemma_valid_below(self.ast);
        }
        let member_id = self.add_member(
            Member::Binding(Binding { annotations, key, type_annotation: None, value, span }),
        );
        let cst_id = self.push_cst(CstNodeKind::Binding, span, Vec::new());
        proof {
            reveal(member_simple);
            lemma_wf_reveal(self.ast);
        }
        Ok((member_id, cst_id))
    }

    /// Parse a key: an identifier or an unknown atom.
    pub(crate) fn parse_key(&mut self) -> (key: Option<Key>)
        requires
            old(self).inv(),
        ensures
            final(self).ok_after(*old(self)),
            final(self).moved_only(*old(self)),
            key is Some <==> (old(self).cur_kind() == TokenKind::Identifier || old(self).cur_kind()
                == TokenKind::UnknownAtom),
            key is Some ==> final(self).position == old(self).position + 1,
            key is None ==> final(self).position == old(self).position,
            key matches Some(k) ==> k.span == old(self).cur().span && k.raw@ == text_of(
                old(self).src(),
                k.span.start as int,
                k.span.end as int,
            ),
    {
        if !(self.at(TokenKind::Identifier) || self.at(TokenKind::UnknownAtom)) {
            proof {
                crate::parser::lemma_grows_refl(*self);
            }
            return None;
        }
        let token = self.advance();
        Some(Key { raw: self.token_text(token), span: token.span })
    }

    /// Parse the annotations that precede a member, field or variant.
    pub(crate) fn parse_leading_annotations(&mut self) -> (annotations: Vec<AnnotationId>)
        requires
            old(self).inv(),
        ensures
            final(self).ok_after(*old(self)),
            final(self).valid_annotations(annotations@),
            old(self).cur_kind() != TokenKind::AnnotationStart ==> annotations@.len() == 0
                && final(self).position == old(self).position && final(self).diagnostics@ == old(
                self,
            ).diagnostics@,
        decreases old(self).remaining(), 2int,
    {
        let ghost entry = *self;
        let mut annotations: Vec<AnnotationId> = Vec::new();
        proof {
            crate::parser::lemma_grows_refl(*self);
        }
        while self.at(TokenKind::AnnotationStart)
            invariant
                self.ok_after(entry),
                entry == *old(self),
                self.valid_annotations(annotations@),
                entry.cur_kind() != TokenKind::AnnotationStart ==> annotations@.len() == 0
                    && self.position == entry.position && self.diagnostics@ == entry.diagnostics@,
            decreases self.tokens@.len() - self.position,
        {
            if let Some(annotation_id) = self.parse_annotation() {
                annotations.push(annotation_id);
            }
            self.skip_separators();
        }
        annotations
    }

    /// Parse an annotation `#[name]`, `#[name = value]` or
    /// `#[name = value, key = value, value]`.
    #[verifier::rlimit(40)]
    pub(crate) fn parse_annotation(&mut self) -> (id: Option<AnnotationId>)
        requires
            old(self).inv(),
            old(self).cur_kind() == TokenKind::AnnotationStart,
        ensures
            final(self).ok_after(*old(self)),
            final(self).position > old(self).position,
            id matches Some(a) ==> final(self).valid_annotation(a),
            id is Some <==> old(self).kind_at(1) == TokenKind::Identifier,
            id is Some && final(self).ast.annotations@.len() + 2 < u32::MAX ==> {
                let a = final(self).ast.annotations@[id->Some_0.0 as int];
                let name = old(self).tokens@[old(self).position + 1];
                &&& a.name@ == text_of(old(self).src(), name.span.start as int, name.span.end as int)
                &&& a.span.start == old(self).cur().span.start
                &&& forall|k: int|
                    0 <= k < a.arguments@.len() ==> ((#[trigger] a.arguments@[k]).value matches Some(v)
                        ==> v.0 < final(self).ast.values@.len())
            },
        decreases old(self).remaining(), 1int,
    {
        let ghost entry = *self;
        let start = self.advance().span.start;
        let name_token = match self.eat(TokenKind::Identifier) {
            Some(token) => token,
            None => return None,
        };
        let name = self.token_text(name_token);
        let mut arguments: Vec<AnnotationArgument> = Vec::new();
        if self.eat(TokenKind::Equals).is_some() {
            let argument_start = name_token.span.end;
            let value = self.parse_value();
            let argument_end = self.value_end(value);
            arguments.push(
                AnnotationArgument {
                    key: None,
                    value: Some(value),
                    span: Span::new(argument_start, argument_end),
                },
            );
        }
        while !self.at(TokenKind::RBracket) && !self.at(TokenKind::Eof)
            invariant
                self.ok_after(entry),
                entry == *old(self),
                self.position > entry.position,
                forall|k: int|
                    0 <= k < arguments@.len() && (#[trigger] arguments@[k]).value is Some
                        ==> self.valid_value(arguments@[k].value->0),
                forall|k: int|
                    0 <= k < arguments@.len() ==> ((#[trigger] arguments@[k]).key matches Some(key)
                        ==> key_backed(entry.src(), key)) && span_within(entry.src(), arguments@[k].span),
            decreases self.tokens@.len() - self.position,
        {
            let position = self.position;
            self.skip_separators();
            if self.at(TokenKind::RBracket) || self.at(TokenKind::Eof) {
                break ;
            }
            let argument_start = self.current_span().start;
            let key = if (self.at(TokenKind::Identifier) || self.at(TokenKind::UnknownAtom))
                && self.peek_kind(1) == TokenKind::Equals {
                self.parse_key()
            } else {
                None
            };
            let value = if key.is_some() {
                self.expect(TokenKind::Equals, "E0110", "expected '=' in annotation argument");
                self.parse_value()
            } else {
                self.parse_value()
            };
            let argument_end = self.value_end(value);
            arguments.push(
                AnnotationArgument {
                    key,
                    value: Some(value),
                    span: Span::new(argument_start, argument_end),
                },
            );
            self.skip_separators();
            if self.position == position {
                break ;
            }
        }
        let end = match self.eat(TokenKind::RBracket) {
            Some(token) => token.span.end,
            None => {
                let span = self.current_span();
                self.report("E0112", "expected closing ']'", span);
                span.end
            },
        };
        let span = Span::new(start, end);
        proof {
            lemma_valid_below(self.ast);
        }
        let ghost before_add = *self;
        let annotation_id = self.add_annotation(Annotation { name, arguments, span });
        self.push_cst(CstNodeKind::Annotation, span, Vec::new());
        proof {
            assert(self.ast.annotations@.len() >= before_add.ast.annotations@.len());
        }
        Some(annotation_id)
    }

    fn ast_member_end(&self, member_id: MemberId) -> (r: Option<Span>)
        requires
            self.inv(),
        ensures
            r is Some <==> self.valid_member(member_id),
            r matches Some(span) ==> span == member_span_of(self.ast.members@[member_id.0 as int])
                && span_within(self.src(), span),
    {
        let index = member_id.0 as usize;
        if index < self.ast.members.len() {
            match &self.ast.members[index] {
                Member::Binding(binding) => Some(binding.span),
                Member::TypeDeclaration(declaration) => Some(declaration.span),
                Member::Error(error) => Some(error.span),
            }
        } else {
            None
        }
    }

    fn schema_end(&self, schema_id: crate::ast::SchemaId) -> (end: u32)
        requires
            self.inv(),
        ensures
            end == if self.valid_schema(schema_id) {
                self.ast.schemas@[schema_id.0 as int].span.end
            } else {
                self.cur().span.end
            },
            end <= self.src().len(),
    {
        let index = schema_id.0 as usize;
        if index < self.ast.schemas.len() {
            self.ast.schemas[index].span.end
        } else {
            self.current_span().end
        }
    }
}

} // verus!
