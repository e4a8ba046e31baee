use vstd::prelude::*;
use vstd::string::StringSliceAdditionalSpecFns;

use crate::ast::{
    span_within, key_backed, lemma_valid_below, lemma_wf_reveal, Ast, AnnotationId, CstNodeKind, EnumVariant, ErrorNode, Key, Schema, SchemaId,
    SchemaKind, StructField, TypeExpr, TypeId,
};
use crate::parser::Parser;
use crate::span::Span;
use crate::text::{bytes_match, text_of};
use crate::token::{Token, TokenKind};

verus! {

broadcast use crate::parser::lemma_grows_trans;

/// The spellings of the built-in type names.
pub open spec fn builtin_type_names() -> Seq<Seq<u8>> {
    seq![
        seq![0x62u8, 0x6f, 0x6f, 0x6c],
        seq![0x73u8, 0x74, 0x72, 0x69, 0x6e, 0x67],
        seq![0x62u8, 0x79, 0x74, 0x65, 0x73],
        seq![0x63u8, 0x68, 0x61, 0x72],
        seq![0x62u8, 0x79, 0x74, 0x65],
        seq![0x69u8, 0x6e, 0x74],
        seq![0x66u8, 0x6c, 0x6f, 0x61, 0x74],
        seq![0x76u8, 0x6f, 0x69, 0x64],
        seq![0x6eu8, 0x65, 0x76, 0x65, 0x72],
        seq![0x69u8, 0x38],
        seq![0x69u8, 0x31, 0x36],
        seq![0x69u8, 0x33, 0x32],
        seq![0x69u8, 0x36, 0x34],
        seq![0x69u8, 0x31, 0x32, 0x38],
        seq![0x75u8, 0x38],
        seq![0x75u8, 0x31, 0x36],
        seq![0x75u8, 0x33, 0x32],
        seq![0x75u8, 0x36, 0x34],
        seq![0x75u8, 0x31, 0x32, 0x38],
        seq![0x66u8, 0x33, 0x32],
        seq![0x66u8, 0x36, 0x34],
    ]
}

/// Whether a type name is one of the built-in type names.
pub fn is_builtin_type(name: &str) -> (r: bool)
    ensures
        r == builtin_type_names().contains(name.spec_bytes()),
{
    let bytes = name.as_bytes();
    let n = bytes.len();
    if bytes_match(bytes, 0, n, &[0x62u8, 0x6f, 0x6f, 0x6c]) {
        proof {
            assert(bytes@.subrange(0, n as int) =~= bytes@);
            assert(builtin_type_names()[0] == seq![0x62u8, 0x6f, 0x6f, 0x6c]);
        }
        return true;
    }
    if bytes_match(bytes, 0, n, &[0x73u8, 0x74, 0x72, 0x69, 0x6e, 0x67]) {
        proof {
            assert(bytes@.subrange(0, n as int) =~= bytes@);
            assert(builtin_type_names()[1] == seq![0x73u8, 0x74, 0x72, 0x69, 0x6e, 0x67]);
        }
        return true;
    }
    if bytes_match(bytes, 0, n, &[0x62u8, 0x79, 0x74, 0x65, 0x73]) {
        proof {
            assert(bytes@.subrange(0, n as int) =~= bytes@);
            assert(builtin_type_names()[2] == seq![0x62u8, 0x79, 0x74, 0x65, 0x73]);
        }
        return true;
    }
    if bytes_match(bytes, 0, n, &[0x63u8, 0x68, 0x61, 0x72]) {
        proof {
            assert(bytes@.subrange(0, n as int) =~= bytes@);
            assert(builtin_type_names()[3] == seq![0x63u8, 0x68, 0x61, 0x72]);
        }
        return true;
    }
    if bytes_match(bytes, 0, n, &[0x62u8, 0x79, 0x74, 0x65]) {
        proof {
            assert(bytes@.subrange(0, n as int) =~= bytes@);
            assert(builtin_type_names()[4] == seq![0x62u8, 0x79, 0x74, 0x65]);
        }
        return true;
    }
    if bytes_match(bytes, 0, n, &[0x69u8, 0x6e, 0x74]) {
        proof {
            assert(bytes@.subrange(0, n as int) =~= bytes@);
            assert(builtin_type_names()[5] == seq![0x69u8, 0x6e, 0x74]);
        }
        return true;
    }
    if bytes_match(bytes, 0, n, &[0x66u8, 0x6c, 0x6f, 0x61, 0x74]) {
        proof {
            assert(bytes@.subrange(0, n as int) =~= bytes@);
            assert(builtin_type_names()[6] == seq![0x66u8, 0x6c, 0x6f, 0x61, 0x74]);
        }
        return true;
    }
    if bytes_match(bytes, 0, n, &[0x76u8, 0x6f, 0x69, 0x64]) {
        proof {
            assert(bytes@.subrange(0, n as int) =~= bytes@);
            assert(builtin_type_names()[7] == seq![0x76u8, 0x6f, 0x69, 0x64]);
        }
        return true;
    }
    if bytes_match(bytes, 0, n, &[0x6eu8, 0x65, 0x76, 0x65, 0x72]) {
        proof {
            assert(bytes@.subrange(0, n as int) =~= bytes@);
            assert(builtin_type_names()[8] == seq![0x6eu8, 0x65, 0x76, 0x65, 0x72]);
        }
        return true;
    }
    if bytes_match(bytes, 0, n, &[0x69u8, 0x38]) {
        proof {
            assert(bytes@.subrange(0, n as int) =~= bytes@);
            assert(builtin_type_names()[9] == seq![0x69u8, 0x38]);
        }
        return true;
    }
    if bytes_match(bytes, 0, n, &[0x69u8, 0x31, 0x36]) {
        proof {
            assert(bytes@.subrange(0, n as int) =~= bytes@);
            assert(builtin_type_names()[10] == seq![0x69u8, 0x31, 0x36]);
        }
        return true;
    }
    if bytes_match(bytes, 0, n, &[0x69u8, 0x33, 0x32]) {
        proof {
            assert(bytes@.subrange(0, n as int) =~= bytes@);
            assert(builtin_type_names()[11] == seq![0x69u8, 0x33, 0x32]);
        }
        return true;
    }
    if bytes_match(bytes, 0, n, &[0x69u8, 0x36, 0x34]) {
        proof {
            assert(bytes@.subrange(0, n as int) =~= bytes@);
            assert(builtin_type_names()[12] == seq![0x69u8, 0x36, 0x34]);
        }
        return true;
    }
    if bytes_match(bytes, 0, n, &[0x69u8, 0x31, 0x32, 0x38]) {
        proof {
            assert(bytes@.subrange(0, n as int) =~= bytes@);
            assert(builtin_type_names()[13] == seq![0x69u8, 0x31, 0x32, 0x38]);
        }
        return true;
    }
    if bytes_match(bytes, 0, n, &[0x75u8, 0x38]) {
        proof {
            assert(bytes@.subrange(0, n as int) =~= bytes@);
            assert(builtin_type_names()[14] == seq![0x75u8, 0x38]);
        }
        return true;
    }
    if bytes_match(bytes, 0, n, &[0x75u8, 0x31, 0x36]) {
        proof {
            assert(bytes@.subrange(0, n as int) =~= bytes@);
            assert(builtin_type_names()[15] == seq![0x75u8, 0x31, 0x36]);
        }
        return true;
    }
    if bytes_match(bytes, 0, n, &[0x75u8, 0x33, 0x32]) {
        proof {
            assert(bytes@.subrange(0, n as int) =~= bytes@);
            assert(builtin_type_names()[16] == seq![0x75u8, 0x33, 0x32]);
        }
        return true;
    }
    if bytes_match(bytes, 0, n, &[0x75u8, 0x36, 0x34]) {
        proof {
            assert(bytes@.subrange(0, n as int) =~= bytes@);
            assert(builtin_type_names()[17] == seq![0x75u8, 0x36, 0x34]);
        }
        return true;
    }
    if bytes_match(bytes, 0, n, &[0x75u8, 0x31, 0x32, 0x38]) {
        proof {
            assert(bytes@.subrange(0, n as int) =~= bytes@);
            assert(builtin_type_names()[18] == seq![0x75u8, 0x31, 0x32, 0x38]);
        }
        return true;
    }
    if bytes_match(bytes, 0, n, &[0x66u8, 0x33, 0x32]) {
        proof {
            assert(bytes@.subrange(0, n as int) =~= bytes@);
            assert(builtin_type_names()[19] == seq![0x66u8, 0x33, 0x32]);
        }
        return true;
    }
    if bytes_match(bytes, 0, n, &[0x66u8, 0x36, 0x34]) {
        proof {
            assert(bytes@.subrange(0, n as int) =~= bytes@);
            assert(builtin_type_names()[20] == seq![0x66u8, 0x36, 0x34]);
        }
        return true;
    }
    proof {
        assert(bytes@.subrange(0, n as int) =~= bytes@);
        assert(!builtin_type_names().contains(bytes@)) by {
            if builtin_type_names().contains(bytes@) {
                let k = choose|k: int| 0 <= k < builtin_type_names().len() && builtin_type_names()[k] == bytes@;
                assert(builtin_type_names()[k] == bytes@);
            }
        }
    }
    false
}

/// A token at which a type starts: a schema keyword or a type name.
pub open spec fn type_starts(k: TokenKind) -> bool {
    k == TokenKind::Struct || k == TokenKind::Enum || k == TokenKind::Identifier || k
        == TokenKind::UnknownAtom
}

/// `t` is the type that parsing from token `cur`, followed by a token of
/// kind `next`, gives: an inline schema of the keyword's kind; a generic
/// type named by the token with its arguments; a builtin or named type
/// spelled as the token; or an error node.
pub open spec fn type_parsed(src: Seq<u8>, cur: Token, next: TokenKind, ast: Ast, t: TypeExpr) -> bool {
    let name = text_of(src, cur.span.start as int, cur.span.end as int);
    if cur.kind == TokenKind::Struct || cur.kind == TokenKind::Enum {
        &&& t is Schema
        &&& t->Schema_schema.0 < ast.schemas_view().len()
        &&& ast.schemas_view()[t->Schema_schema.0 as int].kind == if cur.kind == TokenKind::Struct {
            SchemaKind::Struct
        } else {
            SchemaKind::Enum
        }
    } else if cur.kind == TokenKind::Identifier || cur.kind == TokenKind::UnknownAtom {
        if next == TokenKind::LessThan {
            &&& t is Generic
            &&& t->Generic_constructor@ == name
            &&& t->Generic_span.start == cur.span.start
            &&& forall|k: int|
                0 <= k < t->Generic_arguments@.len() ==> (#[trigger] t->Generic_arguments@[k]).0
                    < ast.types_view().len()
        } else if builtin_type_names().contains(src.subrange(cur.span.start as int, cur.span.end as int)) {
            t == TypeExpr::Builtin { name: t->Builtin_name, span: cur.span } && t->Builtin_name@ == name
        } else {
            t == TypeExpr::Named { path: t->Named_path, span: cur.span } && t->Named_path@ == name
        }
    } else {
        t is Error && t->Error_0.message@ == "expected a type"@ && t->Error_0.span == cur.span
    }
}

/// The number of tokens, the closing `>` included, of a list of names
/// separated by single commas from token `j` on; 0 where none is there.
pub open spec fn name_args_len(t: Seq<Token>, j: int) -> int
    decreases t.len() - j,
{
    if !(0 <= j && j + 1 < t.len()) || !(t[j].kind == TokenKind::Identifier || t[j].kind
        == TokenKind::UnknownAtom) {
        0
    } else if t[j + 1].kind == TokenKind::GreaterThan {
        2
    } else if t[j + 1].kind == TokenKind::Comma && name_args_len(t, j + 2) > 0 {
        2 + name_args_len(t, j + 2)
    } else {
        0
    }
}

pub(crate) proof fn lemma_type_parsed_mono(src: Seq<u8>, cur: Token, next: TokenKind, a1: Ast, a2: Ast, ty: TypeExpr)
    requires
        type_parsed(src, cur, next, a1, ty),
        a2.extends(a1),
    ensures
        type_parsed(src, cur, next, a2, ty),
{
    lemma_wf_reveal(a1);
    lemma_wf_reveal(a2);
    if ty is Schema {
        let d = ty->Schema_schema.0 as int;
        if d < a1.schemas@.len() {
            assert(a2.schemas@[d] == a2.schemas@.subrange(0, a1.schemas@.len() as int)[d]);
        }
    }
}

/// A simple type stays so as the AST grows.
pub(crate) proof fn lemma_simple_type_mono(src: Seq<u8>, t: Seq<Token>, i: int, a1: Ast, a2: Ast, ty: TypeExpr)
    requires
        simple_type(src, t, i, a1, ty),
        a2.extends(a1),
    ensures
        simple_type(src, t, i, a2, ty),
{
    lemma_wf_reveal(a1);
    lemma_wf_reveal(a2);
    let n = simple_type_len(t, i);
    if n == 1 {
        lemma_type_parsed_mono(src, t[i], t[i + 1].kind, a1, a2, ty);
    } else {
        assert forall|a: int| 0 <= a < ty->Generic_arguments@.len() implies {
            let arg = (#[trigger] ty->Generic_arguments@[a]).0 as int;
            &&& arg < a2.types_view().len()
            &&& type_parsed(src, t[i + 2 + 2 * a], t[i + 3 + 2 * a].kind, a2, a2.types_view()[arg])
        } by {
            let arg = ty->Generic_arguments@[a].0 as int;
            assert(a2.types@[arg] == a2.types@.subrange(0, a1.types@.len() as int)[arg]);
            lemma_type_parsed_mono(src, t[i + 2 + 2 * a], t[i + 3 + 2 * a].kind, a1, a2, a1.types@[arg]);
        }
    }
}

/// A simple type reads only the AST's types and schemas.
pub(crate) proof fn lemma_simple_type_same(src: Seq<u8>, t: Seq<Token>, i: int, a1: Ast, a2: Ast, ty: TypeExpr)
    requires
        simple_type(src, t, i, a1, ty),
        a1.types_view() == a2.types_view(),
        a1.schemas_view() == a2.schemas_view(),
    ensures
        simple_type(src, t, i, a2, ty),
{
}

proof fn lemma_name_args_close(t: Seq<Token>, j: int)
    requires
        name_args_len(t, j) > 0,
    ensures
        t[j + name_args_len(t, j) - 1].kind == TokenKind::GreaterThan,
        name_args_len(t, j) % 2 == 0,
        name_args_len(t, j) >= 2,
    decreases t.len() - j,
{
    if t[j + 1].kind != TokenKind::GreaterThan {
        lemma_name_args_close(t, j + 2);
    }
}

/// The number of tokens of the simple type at token `i`: a name, or a name
/// with `<`, names separated by commas, and `>`; 0 otherwise.
pub open spec fn simple_type_len(t: Seq<Token>, i: int) -> int {
    if !(0 <= i && i + 1 < t.len()) || !(t[i].kind == TokenKind::Identifier || t[i].kind
        == TokenKind::UnknownAtom) {
        0
    } else if t[i + 1].kind != TokenKind::LessThan {
        1
    } else if name_args_len(t, i + 2) > 0 {
        2 + name_args_len(t, i + 2)
    } else {
        0
    }
}

/// `ty` is the simple type at token `i`: a name as `type_parsed` gives it,
/// or a generic type named by the token, over the span up to its `>`,
/// whose arguments are the names between the brackets, in order.
pub open spec fn simple_type(src: Seq<u8>, t: Seq<Token>, i: int, ast: Ast, ty: TypeExpr) -> bool {
    let n = simple_type_len(t, i);
    if n == 1 {
        type_parsed(src, t[i], t[i + 1].kind, ast, ty)
    } else {
        &&& ty is Generic
        &&& ty->Generic_constructor@ == text_of(src, t[i].span.start as int, t[i].span.end as int)
        &&& ty->Generic_span == Span { start: t[i].span.start, end: t[i + n - 1].span.end }
        &&& ty->Generic_arguments@.len() == (n - 2) / 2
        &&& forall|a: int|
            0 <= a < ty->Generic_arguments@.len() ==> {
                let arg = (#[trigger] ty->Generic_arguments@[a]).0 as int;
                &&& arg < ast.types_view().len()
                &&& type_parsed(src, t[i + 2 + 2 * a], t[i + 3 + 2 * a].kind, ast, ast.types_view()[arg])
            }
    }
}

impl<'source> Parser<'source> {
    /// Parse a type: a schema, a name with optional generic arguments, or an
    /// error node when none starts here.
    #[verifier::rlimit(80)]
    pub(crate) fn parse_type(&mut self) -> (id: TypeId)
        requires
            old(self).inv(),
        ensures
            final(self).ok_after(*old(self)),
            final(self).valid_type(id),
            final(self).ast.types@.len() + 2 < u32::MAX && final(self).ast.schemas@.len() + 2 < u32::MAX
                ==> type_parsed(
                old(self).src(),
                old(self).cur(),
                old(self).kind_at(1),
                final(self).ast,
                final(self).ast.types@[id.0 as int],
            ),
            !type_starts(old(self).cur_kind()) ==> {
                &&& final(self).diagnostics@.len() > old(self).diagnostics@.len()
                &&& final(self).diagnostics@[old(self).diagnostics@.len() as int].code@ == "E0402"@
                &&& final(self).diagnostics@[old(self).diagnostics@.len() as int].span == old(self).cur().span
            },
            simple_type_len(old(self).tokens@, old(self).position as int) > 0 && final(self).roomy()
                ==> {
                &&& final(self).position == old(self).position + simple_type_len(
                    old(self).tokens@,
                    old(self).position as int,
                )
                &&& final(self).diagnostics@ == old(self).diagnostics@
                &&& simple_type(
                    old(self).src(),
                    old(self).tokens@,
                    old(self).position as int,
                    final(self).ast,
                    final(self).ast.types@[id.0 as int],
                )
            },
        decreases old(self).remaining(), 2int,
    {
        let ghost entry = *self;
        let start = self.current_span().start;
        let kind = self.current_kind();
        let type_id = if kind == TokenKind::Struct || kind == TokenKind::Enum {
            let schema_id = self.parse_schema();
            let span = self.ast.schemas[schema_id.0 as usize].span;
            proof {
                lemma_valid_below(self.ast);
            }
            self.add_type(TypeExpr::Schema { schema: schema_id, span })
        } else if kind == TokenKind::Identifier || kind == TokenKind::UnknownAtom {
            let constructor_token = self.advance();
            let constructor = self.token_text(constructor_token);
            if self.eat(TokenKind::LessThan).is_some() {
                let mut arguments: Vec<TypeId> = Vec::new();
                self.skip_separators();
                let ghost t = entry.tokens@;
                let ghost p0 = entry.position as int;
                let ghost n = simple_type_len(t, p0);
                let ghost count = (n - 2) / 2;
                proof {
                    if n > 1 {
                        assert(self.position == p0 + 2);
                        lemma_name_args_close(t, p0 + 2);
                    }
                }
                while !(self.current_kind() == TokenKind::GreaterThan || self.current_kind()
                    == TokenKind::Eof)
                    invariant
                        self.ok_after(entry),
                        entry == *old(self),
                        self.position > entry.position,
                        self.valid_types(arguments@),
                        t == entry.tokens@,
                        p0 == entry.position,
                        n == simple_type_len(t, p0),
                        count == (n - 2) / 2,
                        n > 1 ==> t[p0 + n - 1].kind == TokenKind::GreaterThan && count >= 1 && n == 2
                            + 2 * count,
                        n > 1 && self.roomy() ==> {
                            &&& arguments@.len() <= count
                            &&& arguments@.len() < count ==> self.position == p0 + 2 + 2
                                * arguments@.len() && name_args_len(t, self.position as int) == n - 2 - 2
                                * arguments@.len()
                            &&& arguments@.len() == count ==> self.position == p0 + n - 1
                            &&& self.diagnostics@ == entry.diagnostics@
                            &&& forall|a: int|
                                0 <= a < arguments@.len() ==> type_parsed(
                                    entry.src(),
                                    t[p0 + 2 + 2 * a],
                                    t[p0 + 3 + 2 * a].kind,
                                    self.ast,
                                    self.ast.types@[(#[trigger] arguments@[a]).0 as int],
                                )
                        },
                    ensures
                        n > 1 && self.roomy() ==> arguments@.len() == count,
                    decreases self.tokens@.len() - self.position,
                {
                    let ghost before = *self;
                    let position = self.position;
                    let argument = self.parse_type();
                    let ghost done = arguments@;
                    let ghost after_argument = *self;
                    arguments.push(argument);
                    self.skip_newlines();
                    if self.eat(TokenKind::Comma).is_none() && !self.at(TokenKind::GreaterThan)
                        && !self.at(TokenKind::Eof) {
                        let span = self.current_span();
                        self.report("E0401", "expected ',' or '>' in generic type", span);
                        break ;
                    }
                    self.skip_separators();
                    proof {
                        if n > 1 && self.roomy() {
                            assert(before.roomy());
                            assert(after_argument.roomy());
                            let i = done.len() as int;
                            let j = p0 + 2 + 2 * i;
                            assert(i < count);
                            assert(before.position == j);
                            assert(simple_type_len(t, j) == 1);
                            assert forall|a: int|
                                0 <= a < arguments@.len() implies type_parsed(
                                entry.src(),
                                t[p0 + 2 + 2 * a],
                                t[p0 + 3 + 2 * a].kind,
                                self.ast,
                                self.ast.types@[(#[trigger] arguments@[a]).0 as int],
                            ) by {
                                if a < i {
                                    assert(arguments@[a] == done[a]);
                                    let x = done[a].0 as int;
                                    assert(self.ast.types@[x] == self.ast.types@.subrange(
                                        0,
                                        before.ast.types@.len() as int,
                                    )[x]);
                                    lemma_type_parsed_mono(
                                        entry.src(),
                                        t[p0 + 2 + 2 * a],
                                        t[p0 + 3 + 2 * a].kind,
                                        before.ast,
                                        self.ast,
                                        before.ast.types@[x],
                                    );
                                }
                            }
                            if t[j + 1].kind == TokenKind::Comma {
                                assert(name_args_len(t, j + 2) == n - 2 - 2 * (i + 1));
                            }
                        }
                    }
                    if self.position == position {
                        break ;
                    }
                }
                let end = match self.eat(TokenKind::GreaterThan) {
                    Some(token) => token.span.end,
                    None => self.current_span().end,
                };
                proof {
                    lemma_valid_below(self.ast);
                }
                let ghost before_add = *self;
                let ghost args = arguments@;
                let id = self.add_type(
                    TypeExpr::Generic { constructor, arguments, span: Span::new(start, end) },
                );
                proof {
                    if n > 1 && self.roomy() {
                        assert(before_add.roomy());
                        assert forall|a: int| 0 <= a < args.len() implies type_parsed(
                            entry.src(),
                            t[p0 + 2 + 2 * a],
                            t[p0 + 3 + 2 * a].kind,
                            self.ast,
                            self.ast.types@[(#[trigger] args[a]).0 as int],
                        ) by {
                            let x = args[a].0 as int;
                            assert(self.ast.types@[x] == self.ast.types@.subrange(
                                0,
                                before_add.ast.types@.len() as int,
                            )[x]);
                            lemma_type_parsed_mono(
                                entry.src(),
                                t[p0 + 2 + 2 * a],
                                t[p0 + 3 + 2 * a].kind,
                                before_add.ast,
                                self.ast,
                                before_add.ast.types@[x],
                            );
                        }
                    }
                }
                id
            } else if is_builtin_type(constructor.as_str()) {
                proof {
                    lemma_valid_below(self.ast);
                }
                self.add_type(TypeExpr::Builtin { name: constructor, span: constructor_token.span })
            } else {
                proof {
                    lemma_valid_below(self.ast);
                }
                self.add_type(TypeExpr::Named { path: constructor, span: constructor_token.span })
            }
        } else {
            let span = self.current_span();
            self.report("E0402", "expected a type", span);
            proof {
                lemma_valid_below(self.ast);
            }
            self.add_type(TypeExpr::Error(ErrorNode { message: "expected a type".to_owned(), span }))
        };
        let end = self.type_end(type_id);
        let ghost before_cst = *self;
        self.push_cst(CstNodeKind::Value, Span::new(start, end), Vec::new());
        proof {
            lemma_wf_reveal(self.ast);
            if simple_type_len(entry.tokens@, entry.position as int) > 0 && self.roomy() {
                assert(before_cst.roomy());
            }
        }
        type_id
    }

    /// Parse a `struct` or `enum` schema from its keyword to its closing brace.
    #[verifier::rlimit(40)]
    pub(crate) fn parse_schema(&mut self) -> (id: SchemaId)
        requires
            old(self).inv(),
            old(self).cur_kind() == TokenKind::Struct || old(self).cur_kind() == TokenKind::Enum,
        ensures
            final(self).ok_after(*old(self)),
            final(self).valid_schema(id),
            final(self).position > old(self).position,
            final(self).ast.schemas@.len() + 2 < u32::MAX ==> {
                let sc = final(self).ast.schemas@[id.0 as int];
                &&& sc.kind == if old(self).cur_kind() == TokenKind::Struct {
                    SchemaKind::Struct
                } else {
                    SchemaKind::Enum
                }
                &&& sc.span.start == old(self).cur().span.start
                &&& sc.kind == SchemaKind::Struct ==> sc.variants@.len() == 0
                &&& sc.kind == SchemaKind::Enum ==> sc.fields@.len() == 0
                &&& old(self).kind_at(1) != TokenKind::LBrace ==> sc.fields@.len() == 0
                    && sc.variants@.len() == 0
            },
            old(self).kind_at(1) != TokenKind::LBrace ==> {
                &&& final(self).diagnostics@.len() > old(self).diagnostics@.len()
                &&& final(self).diagnostics@[old(self).diagnostics@.len() as int].code@ == "E0403"@
            },
        decreases old(self).remaining(), 1int,
    {
        let ghost entry = *self;
        let start = self.current_span().start;
        let schema_kind = if self.advance().kind == TokenKind::Struct {
            SchemaKind::Struct
        } else {
            SchemaKind::Enum
        };
        let open_span = self.current_span();
        if self.eat(TokenKind::LBrace).is_none() {
            let span = self.current_span();
            self.report("E0403", "expected '{' after schema keyword", span);
            let ghost reported = self.diagnostics@;
            proof {
                reveal_strlit("E0403");
                assert(reported[entry.diagnostics@.len() as int].code@ == "E0403"@);
            }
            while !(self.current_kind() == TokenKind::RBrace || self.current_kind() == TokenKind::Eof)
                invariant
                    self.ok_after(entry),
                    entry == *old(self),
                    self.position > entry.position,
                    self.diagnostics@ == reported,
                decreases self.tokens@.len() - self.position,
            {
                self.advance();
            }
            let end = match self.eat(TokenKind::RBrace) {
                Some(token) => token.span.end,
                None => self.current_span().end,
            };
            proof {
                lemma_valid_below(self.ast);
            }
            let ghost before_add = *self;
            let id = self.add_schema(
                Schema {
                    kind: schema_kind,
                    fields: Vec::new(),
                    variants: Vec::new(),
                    span: Span::new(start, end),
                },
            );
            proof {
                let k = entry.diagnostics@.len() as int;
                assert(before_add.diagnostics@ == reported);
                assert(self.diagnostics@.subrange(0, reported.len() as int) == reported);
                assert(self.diagnostics@[k] == self.diagnostics@.subrange(0, reported.len() as int)[k]);
                assert(self.ast.schemas@.len() >= before_add.ast.schemas@.len());
            }
            return id;
        }
        let nested = self.enter_nested(open_span);
        let mut fields: Vec<StructField> = Vec::new();
        let mut variants: Vec<EnumVariant> = Vec::new();
        self.skip_separators();
        if nested {
            while !(self.current_kind() == TokenKind::RBrace || self.current_kind() == TokenKind::Eof)
                invariant
                    self.ok_after(entry),
                    entry == *old(self),
                    self.position > entry.position,
                    forall|k: int| 0 <= k < fields@.len() ==> self.field_ok(#[trigger] fields@[k]),
                    forall|k: int|
                        0 <= k < variants@.len() ==> self.variant_ok(#[trigger] variants@[k]),
                    schema_kind == SchemaKind::Struct ==> variants@.len() == 0,
                    schema_kind == SchemaKind::Enum ==> fields@.len() == 0,
                decreases self.tokens@.len() - self.position,
            {
                let ghost before = *self;
                let position = self.position;
                let annotations = self.parse_leading_annotations();
                match schema_kind {
                    SchemaKind::Struct => {
                        let field = self.parse_struct_field(annotations);
                        fields.push(field);
                    },
                    SchemaKind::Enum => {
                        let variant = self.parse_enum_variant(annotations);
                        variants.push(variant);
                    },
                }
                self.skip_separators();
                if self.position == position {
                    break ;
                }
            }
        }
        let end = match self.eat(TokenKind::RBrace) {
            Some(token) => token.span.end,
            None => {
                let span = self.current_span();
                self.report("E0404", "expected closing brace for schema", span);
                span.end
            },
        };
        if nested {
            self.leave_nested();
        }
        proof {
            lemma_valid_below(self.ast);
        }
        let ghost before_add = *self;
        let id = self.add_schema(Schema { kind: schema_kind, fields, variants, span: Span::new(start, end) });
        proof {
            assert(self.ast.schemas@.len() >= before_add.ast.schemas@.len());
        }
        id
    }

    pub(crate) open spec fn field_ok(&self, f: StructField) -> bool {
        &&& key_backed(self.src(), f.key)
        &&& span_within(self.src(), f.span)
        &&& self.valid_annotations(f.annotations@)
        &&& (f.type_annotation matches Some(t) ==> self.valid_type(t))
        &&& (f.default_value matches Some(v) ==> self.valid_value(v))
    }

    pub(crate) open spec fn variant_ok(&self, v: EnumVariant) -> bool {
        &&& key_backed(self.src(), v.name)
        &&& span_within(self.src(), v.span)
        &&& self.valid_annotations(v.annotations@)
        &&& (v.payload matches Some(t) ==> self.valid_type(t))
    }

    fn parse_struct_field(&mut self, annotations: Vec<AnnotationId>) -> (field: StructField)
        requires
            old(self).inv(),
            old(self).valid_annotations(annotations@),
        ensures
            final(self).ok_after(*old(self)),
            final(self).field_ok(field),
            field.annotations@ == annotations@,
        decreases old(self).remaining(), 1int,
    {
        let ghost entry = *self;
        let start = self.current_span().start;
        let key = match self.parse_key() {
            Some(key) => key,
            None => {
                let span = self.current_span();
                self.report("E0405", "expected a struct field name", span);
                Key { raw: String::new(), span }
            },
        };
        let type_annotation = if self.eat(TokenKind::Colon).is_some() {
            Some(self.parse_type())
        } else {
            None
        };
        let default_value = if self.eat(TokenKind::Equals).is_some() {
            Some(self.parse_value())
        } else {
            None
        };
        let end = match default_value {
            Some(value_id) => self.value_end(value_id),
            None => match type_annotation {
                Some(type_id) => self.type_end(type_id),
                None => key.span.end,
            },
        };
        StructField { annotations, key, type_annotation, default_value, span: Span::new(start, end) }
    }

    fn parse_enum_variant(&mut self, annotations: Vec<AnnotationId>) -> (variant: EnumVariant)
        requires
            old(self).inv(),
            old(self).valid_annotations(annotations@),
        ensures
            final(self).ok_after(*old(self)),
            final(self).variant_ok(variant),
            variant.annotations@ == annotations@,
        decreases old(self).remaining(), 1int,
    {
        let ghost entry = *self;
        let start = self.current_span().start;
        let name = match self.parse_key() {
            Some(key) => key,
            None => {
                let span = self.current_span();
                self.report("E0406", "expected an enum variant name", span);
                Key { raw: String::new(), span }
            },
        };
        let payload = if self.eat(TokenKind::Colon).is_some() {
            Some(self.parse_type())
        } else {
            None
        };
        let end = match payload {
            Some(type_id) => self.type_end(type_id),
            None => name.span.end,
        };
        EnumVariant { annotations, name, payload, span: Span::new(start, end) }
    }

    /// The end of a type's span, or of the current token for a missing type.
    pub(crate) fn type_end(&self, type_id: TypeId) -> (end: u32)
        requires
            self.inv(),
        ensures
            end == if self.valid_type(type_id) {
                crate::ast::types::type_span_of(self.ast.types@[type_id.0 as int]).end
            } else {
                self.cur().span.end
            },
            end <= self.src().len(),
    {
        let index = type_id.0 as usize;
        if index < self.ast.types.len() {
            self.ast.types[index].span().end
        } else {
            self.current_span().end
        }
    }
}

} // verus!
