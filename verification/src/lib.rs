//! FON (Fer Object Notation) parsing: a lossless token stream, an indexed
//! concrete syntax tree and a source-backed syntax AST.

mod diagnostic;
mod lexer;
mod parser;
mod resolve;
mod span;
mod text;
mod token;

pub mod ast;
pub mod cst;
pub mod format;
pub mod hir;
pub mod json;
pub mod scheme;

pub use ast::{
    Annotation, AnnotationArgument, ArrayValue, Ast, AstValue, Binding, ComparisonOperator,
    CstNode, CstNodeKind, Document, EnumValue, EnumValueKind, EnumVariant, ErrorNode,
    ExpressionValue, Key, Member, MemberId, NodeId, ObjectValue, ParseResult, QuantifierKind,
    RegexValue, Root, RootKind, Schema, SchemaId, SchemaKind, SchemaValue, StringPart,
    StringPartKind, StringValue, SyntaxTree, TypeDeclaration, TypeExpr, TypeId, TypeKind,
    UnaryOperator, UnknownShape, UnknownValue, Value, ValueId, ValueKind,
};
pub use diagnostic::Diagnostic;
pub use format::{format_canonical, reprint_lossless};
pub use json::{
    parse_to_json_value, to_json_string, JsonConversionError, JsonValue, SchemaDescriptor,
    SchemaFieldDescriptor, SchemaVariantDescriptor,
};
pub use hir::{TypedDocument, TypedMember, TypedRoot, TypedValue};
pub use resolve::{resolve, unknown_outcome, ResolveResult};
pub use scheme::{SchemeCall, SchemeError, SchemeResolver, TypeReference, TypedAtom};
pub use span::Span;
pub use token::{Token, TokenKind, Trivia, TriviaKind};

use vstd::prelude::*;
use vstd::string::StringSliceAdditionalSpecFns;

use crate::ast::{lemma_source_reveal, lemma_wf_reveal};
use crate::diagnostic::diags_view;
use crate::lexer::{lex_spec, Lexer};
use crate::parser::document::{
    document_roomy, flat_end, flat_positions, key_kind, kind_of, member_parsed, member_simple,
};
use crate::parser::{errors_reported, first_significant, Parser};
use crate::resolve::{member_span_of, reported, resolved_root, resolved_value};
use crate::text::str_from_utf8;

verus! {

/// Parser limits that prevent unbounded input growth.
#[derive(Debug, Clone, Copy, PartialEq, Eq, Structural)]
pub struct ParseOptions {
    pub max_depth: u32,
    pub max_tokens: u32,
    pub max_token_length: u32,
}

/// The default limits: nesting depth 256, one million tokens, and tokens of
/// at most 1 MiB.
pub open spec fn default_options() -> ParseOptions {
    ParseOptions { max_depth: 256, max_tokens: 1_000_000, max_token_length: 1_048_576 }
}

impl Default for ParseOptions {
    fn default() -> (options: Self)
        ensures
            options == default_options(),
    {
        Self { max_depth: 256, max_tokens: 1_000_000, max_token_length: 1_048_576 }
    }
}

/// What parsing the UTF-8 bytes `s` under `options` yields.
///
/// The document keeps the source text; its token stream and trivia are the
/// lexical analysis of `s`; the lexer's diagnostics come first, the
/// parser's follow; the CST and the AST are well formed, and the AST's keys,
/// numbers, strings, unknown atoms and type names are the source text of
/// their spans, which lie in the source (a missing name is empty), a string
/// value's text starting with a backtick and an unknown atom's not; every
/// node's and every diagnostic's span lies in the source; every error node
/// of the CST has a diagnostic at its span; a source that the
/// token limit cut short is reported (`E0002`); root annotations
/// over anything but an explicit object are reported (`E0101`); a source
/// with no token parses to an empty implicit object with no further
/// diagnostic; and the root's form and its first member follow from the
/// first tokens, as `root_outcome` states; a source whose tokens are a list
/// of `key = value` members with simple values (`flat_positions`), bare or
/// in braces, gives exactly those members, in order, and no diagnostic
/// beyond the lexer's but an `E0108` for tokens after a closing brace.
pub open spec fn parse_outcome(
    s: Seq<u8>,
    options: ParseOptions,
    document: Document,
    diagnostics: Seq<Diagnostic>,
) -> bool {
    let lexed = lex_spec(s, options.max_tokens, options.max_token_length);
    let diags = diags_view(diagnostics);
    let ast = document.ast;
    &&& vstd::utf8::encode_utf8(document.source@) == s
    &&& document.cst.tokens@ == lexed.0
    &&& document.cst.trivia@ == lexed.1
    &&& lexed.2.len() <= diags.len()
    &&& diags.subrange(0, lexed.2.len() as int) == lexed.2
    &&& document.cst.wf()
    &&& errors_reported(document.cst.nodes@, diagnostics)
    &&& ast.wf()
    &&& ast.source_backed(s)
    &&& forall|i: int| 0 <= i < diagnostics.len() ==> crate::ast::span_within(s, (#[trigger] diagnostics[i]).span)
    &&& (document.cst.tokens@.last().span.start < s.len() ==> exists|i: int|
        0 <= i < diags.len() && (#[trigger] diags[i]).0 == "E0002"@)
    &&& (ast.root_annotations_view().len() > 0 && !(ast.root_view() is ExplicitObject) ==> exists|i: int|
        0 <= i < diags.len() && (#[trigger] diags[i]).0 == "E0101"@)
    &&& (lexed.0.len() == 1 ==> {
        &&& ast.root_view() matches Root::ImplicitObject { members } && members@.len() == 0
        &&& ast.root_annotations_view().len() == 0
        &&& diags == lexed.2
    })
    &&& root_outcome(s, lexed.0, ast)
    &&& explicit_outcome(s, lexed.0, lexed.2, document, diags)
    &&& (flat_positions(lexed.0, 0, TokenKind::Eof) is Some && document_roomy(document) ==> {
        let ps = flat_positions(lexed.0, 0, TokenKind::Eof)->0;
        &&& diags == lexed.2
        &&& ast.root_view() is ImplicitObject
        &&& ast.root_annotations_view().len() == 0
        &&& ast.root_members().len() == ps.len()
        &&& forall|j: int|
            0 <= j < ps.len() ==> member_simple(
                s,
                lexed.0,
                ps[j],
                ast,
                ast.members_view()[(#[trigger] ast.root_members()[j]).0 as int],
            )
    })
}

/// Where the tokens `t` of source `s` are an explicit object of
/// `key = value` members with simple values, the document's root is that object with exactly
/// those members, in order; the parser adds no diagnostic to the lexer's
/// `lexed` but, where a token other than a separator follows the closing
/// brace, one `E0108` at that token.
pub open spec fn explicit_outcome(
    s: Seq<u8>,
    t: Seq<Token>,
    lexed: Seq<(Seq<char>, Seq<char>, Span)>,
    document: Document,
    diags: Seq<(Seq<char>, Seq<char>, Span)>,
) -> bool {
    let k = first_significant(t, 0);
    let ast = document.ast;
    t[k].kind == TokenKind::LBrace && flat_positions(t, k + 1, TokenKind::RBrace) is Some
        && document_roomy(document) ==> {
        let ps = flat_positions(t, k + 1, TokenKind::RBrace)->0;
        let after = t[first_significant(t, flat_end(t, k + 1, TokenKind::RBrace) + 1)];
        &&& ast.root_view() is ExplicitObject
        &&& ast.root_annotations_view().len() == 0
        &&& ast.root_members().len() == ps.len()
        &&& forall|j: int|
            0 <= j < ps.len() ==> member_simple(
                s,
                t,
                ps[j],
                ast,
                ast.members_view()[(#[trigger] ast.root_members()[j]).0 as int],
            )
        &&& if after.kind == TokenKind::Eof {
            diags == lexed
        } else {
            diags == lexed.push(("E0108"@, "unexpected tokens after the root"@, after.span))
        }
    }
}

/// The root that parsing the tokens `t` of source `s` gives in `ast`: an
/// explicit object where the first token other than a separator is `{`, an
/// array where it is `[`, and otherwise, unless it opens an annotation, an
/// implicit object, each without root annotations; and where the root's
/// first member starts with a key, that member is the one `member_parsed`
/// describes for the key's token and the two tokens after it.
pub open spec fn root_outcome(s: Seq<u8>, t: Seq<Token>, ast: Ast) -> bool {
    let k = first_significant(t, 0);
    let first = t[k].kind;
    let p = if first == TokenKind::LBrace {
        first_significant(t, k + 1)
    } else {
        k
    };
    &&& first == TokenKind::LBrace ==> ast.root_view() is ExplicitObject
        && ast.root_annotations_view().len() == 0
    &&& first == TokenKind::LBracket ==> ast.root_view() is Array && ast.root_annotations_view().len()
        == 0
    &&& first != TokenKind::LBrace && first != TokenKind::LBracket && first != TokenKind::AnnotationStart
        ==> ast.root_view() is ImplicitObject && ast.root_annotations_view().len() == 0
    &&& (first == TokenKind::LBrace || key_kind(first)) && key_kind(kind_of(t, p)) ==> {
        &&& ast.root_members().len() > 0
        &&& ast.members_view().len() + 2 < u32::MAX ==> member_parsed(
            s,
            t[p],
            kind_of(t, p + 1),
            t[p + 2],
            kind_of(t, p + 3),
            Seq::empty(),
            ast,
            ast.members_view()[ast.root_members()[0].0 as int],
        )
    }
}

/// Parse a UTF-8 FON document using explicit safety limits.
#[verifier::rlimit(60)]
pub fn parse_with_options(source: &str, options: ParseOptions) -> (result: ParseResult)
    requires
        source.spec_bytes().len() <= u32::MAX,
    ensures
        parse_outcome(source.spec_bytes(), options, result.document, result.diagnostics@),
        result.document.source@ == source@,
{
    let lexer = Lexer::new(source, options.max_tokens, options.max_token_length);
    let lex_result = lexer.tokenize();
    let ghost lexed_diags = lex_result.diagnostics@;
    proof {
        crate::lexer::lemma_lex_spec_diag_spans(source.spec_bytes(), options.max_tokens, options.max_token_length);
        assert forall|i: int| 0 <= i < lexed_diags.len() implies crate::ast::span_within(
            source.spec_bytes(),
            (#[trigger] lexed_diags[i]).span,
        ) by {
            assert(diags_view(lexed_diags)[i].2 == lexed_diags[i].span);
        }
    }
    let parser = Parser::new(source, lex_result, options);
    let ghost tokens = parser.tokens@;
    let result = parser.parse_document();
    proof {
        lemma_wf_reveal(result.document.ast);
        crate::ast::lemma_backed_reveal(result.document.ast, source.spec_bytes());
        lemma_source_reveal(result.document);
        vstd::utf8::encode_utf8_decode_utf8(source@);
        let d = result.diagnostics@;
        assert(d.subrange(0, lexed_diags.len() as int) == lexed_diags);
        assert(diags_view(d).subrange(0, lexed_diags.len() as int) =~= diags_view(lexed_diags));
        if tokens.len() == 1 {
            assert(d =~= lexed_diags);
        }
        let k = first_significant(tokens, 0);
        if tokens[k].kind == TokenKind::LBrace && flat_positions(tokens, k + 1, TokenKind::RBrace) is Some
            && document_roomy(result.document) {
            let after = tokens[first_significant(tokens, flat_end(tokens, k + 1, TokenKind::RBrace) + 1)];
            if after.kind == TokenKind::Eof {
                assert(d =~= lexed_diags);
            } else {
                assert(d.subrange(0, lexed_diags.len() as int) == lexed_diags);
                assert(diags_view(d) =~= diags_view(lexed_diags).push(
                    ("E0108"@, "unexpected tokens after the root"@, after.span),
                ));
            }
        }
        if tokens.last().span.start < source.spec_bytes().len() {
            let i = choose|i: int| 0 <= i < lexed_diags.len() && (#[trigger] lexed_diags[i]).code@ == "E0002"@;
            assert(d[i] == lexed_diags[i]);
            assert(diags_view(d)[i].0 == "E0002"@);
        }
        let ast = result.document.ast;
        if ast.root_annotations_view().len() > 0 && !(ast.root_view() is ExplicitObject) {
            let i = choose|i: int| 0 <= i < d.len() && (#[trigger] d[i]).code@ == "E0101"@;
            assert(diags_view(d)[i].0 == "E0101"@);
        }
    }
    result
}

/// Parse a UTF-8 FON document using the default safety limits.
pub fn parse(source: &str) -> (result: ParseResult)
    requires
        source.spec_bytes().len() <= u32::MAX,
    ensures
        parse_outcome(source.spec_bytes(), default_options(), result.document, result.diagnostics@),
        result.document.source@ == source@,
{
    parse_with_options(source, ParseOptions::default())
}

/// Parse a byte slice without performing any external I/O or evaluation.
///
/// Bytes that are not valid UTF-8 give the empty document and the single
/// diagnostic `E0003`, spanning from the end of the longest valid prefix to
/// the end of the input.
pub fn parse_bytes(source: &[u8]) -> (result: ParseResult)
    requires
        source@.len() <= u32::MAX,
    ensures
        vstd::utf8::valid_utf8(source@) ==> parse_outcome(
            source@,
            default_options(),
            result.document,
            result.diagnostics@,
        ),
        !vstd::utf8::valid_utf8(source@) ==> {
            let d = result.diagnostics@;
            let start = d[0].span.start as int;
            &&& parse_outcome(Seq::empty(), default_options(), result.document, Seq::empty())
            &&& d.len() == 1
            &&& d[0].code@ == "E0003"@
            &&& d[0].message@ == "source is not valid UTF-8"@
            &&& d[0].span.end == source@.len()
            &&& start <= source@.len()
            &&& vstd::utf8::valid_utf8(source@.subrange(0, start))
            &&& forall|m: int| start < m <= source@.len() ==> !vstd::utf8::valid_utf8(#[trigger] source@.subrange(0, m))
        },
{
    match str_from_utf8(source) {
        Ok(text) => parse(text),
        Err(valid_up_to) => {
            let span = Span::new(valid_up_to as u32, source.len() as u32);
            proof {
                reveal_strlit("");
                assert(vstd::utf8::encode_utf8(""@) =~= Seq::<u8>::empty());
            }
            let document = parse("").document;
            let mut diagnostics: Vec<Diagnostic> = Vec::new();
            diagnostics.push(Diagnostic::new("E0003", "source is not valid UTF-8", span));
            proof {
                assert(diags_view(Seq::<Diagnostic>::empty()) =~= Seq::empty());
            }
            ParseResult { document, diagnostics }
        },
    }
}

/// The lexer records at most one token past the limit, where it stops and
/// reports the limit, and closes the stream with the end-of-input token.
pub proof fn token_count_is_bounded(s: Seq<u8>, options: ParseOptions)
    ensures
        lex_spec(s, options.max_tokens, options.max_token_length).0.len() <= options.max_tokens + 2,
{
    crate::lexer::lemma_lex_spec_bounded(s, options.max_tokens, options.max_token_length);
}

/// The token limit is reported (`E0002`) exactly when it is exceeded: when
/// the lexer records one token past the limit, and never otherwise.
pub proof fn token_limit_is_reported_when_exceeded(s: Seq<u8>, options: ParseOptions)
    ensures
        crate::lexer::has_code(lex_spec(s, options.max_tokens, options.max_token_length).2, "E0002"@)
            <==> lex_spec(s, options.max_tokens, options.max_token_length).0.len() == options.max_tokens
            + 2,
{
    crate::lexer::lemma_lex_spec_limit(s, options.max_tokens, options.max_token_length);
}

/// A source that lexes cleanly and whose tokens are a list of `key = value`
/// or `key: type = value` members, each type a name or a name with names as
/// generic arguments and each value a literal, a bare identifier or a
/// `.variant`, separated by line breaks or commas, parses without any
/// diagnostic.
pub proof fn simple_member_lists_parse_without_errors(
    s: Seq<u8>,
    options: ParseOptions,
    document: Document,
    diagnostics: Seq<Diagnostic>,
)
    requires
        parse_outcome(s, options, document, diagnostics),
        lex_spec(s, options.max_tokens, options.max_token_length).2.len() == 0,
        flat_positions(lex_spec(s, options.max_tokens, options.max_token_length).0, 0, TokenKind::Eof) is Some,
        document_roomy(document),
    ensures
        diagnostics.len() == 0,
{
    assert(diags_view(diagnostics).len() == diagnostics.len());
}

/// The parts of a backtick string tile its content: they run from the byte
/// after the opening backtick to the one before the closing backtick, in
/// order, each text run or interpolation non-empty and starting where the
/// part before it ended; no two text runs are adjacent, and each
/// interpolation starts with `{` and holds no `}` but as its last byte.
/// The string values of a parsed document hold exactly these parts
/// (`value_backed`).
pub proof fn string_parts_tile_the_content(s: Seq<u8>, span: Span)
    requires
        span.start < span.end <= s.len() <= u32::MAX,
    ensures
        crate::parser::values::parts_tile(
            crate::parser::values::string_parts_spec(s, span),
            span.start + 1,
            span.end - 1,
        ),
        crate::parser::values::parts_shaped(s, crate::parser::values::string_parts_spec(s, span)),
{
    crate::parser::values::lemma_string_parts_tile(s, span);
}

/// Lexing is lossless: the tokens of a parsed document, but for the closing
/// end-of-input token, and its trivia lie over the source bytes up to where
/// lexing stopped, in order, each byte in exactly one of them.
pub proof fn tokens_and_trivia_tile_the_source(
    s: Seq<u8>,
    options: ParseOptions,
    document: Document,
    diagnostics: Seq<Diagnostic>,
)
    requires
        parse_outcome(s, options, document, diagnostics),
        s.len() <= u32::MAX,
    ensures
        crate::lexer::tiles(
            document.cst.tokens@.drop_last(),
            document.cst.trivia@,
            document.cst.tokens@.last().span.start as int,
        ),
        document.cst.tokens@.last().span.start <= s.len(),
{
    crate::lexer::lemma_lex_spec_tiles(s, options.max_tokens, options.max_token_length);
}

/// The limit on token length is enforced: every token longer than it is
/// reported (`E0004`) with the token's span.
pub proof fn long_tokens_are_reported(
    s: Seq<u8>,
    options: ParseOptions,
    document: Document,
    diagnostics: Seq<Diagnostic>,
)
    requires
        parse_outcome(s, options, document, diagnostics),
        s.len() <= u32::MAX,
    ensures
        forall|i: int|
            0 <= i < document.cst.tokens@.len() && (#[trigger] document.cst.tokens@[i]).span.end
                - document.cst.tokens@[i].span.start > options.max_token_length ==> exists|j: int|
                0 <= j < diagnostics.len() && (#[trigger] diagnostics[j]).code@ == "E0004"@
                    && diagnostics[j].span == document.cst.tokens@[i].span,
{
    let lexed = lex_spec(s, options.max_tokens, options.max_token_length);
    crate::lexer::lemma_lex_spec_long_reported(s, options.max_tokens, options.max_token_length);
    let tokens = document.cst.tokens@;
    assert forall|i: int|
        0 <= i < tokens.len() && (#[trigger] tokens[i]).span.end - tokens[i].span.start
            > options.max_token_length implies exists|j: int|
        0 <= j < diagnostics.len() && (#[trigger] diagnostics[j]).code@ == "E0004"@ && diagnostics[j].span
            == tokens[i].span by {
        let j = choose|j: int|
            0 <= j < lexed.2.len() && #[trigger] lexed.2[j] == (
                "E0004"@,
                "maximum token length exceeded"@,
                lexed.0[i].span,
            );
        assert(diags_view(diagnostics).subrange(0, lexed.2.len() as int)[j] == lexed.2[j]);
        assert(diags_view(diagnostics)[j] == (diagnostics[j].code@, diagnostics[j].message@, diagnostics[j].span));
    }
}

/// Reprinting a parsed document gives back exactly the bytes it was parsed
/// from.
pub proof fn reprint_returns_the_source(
    s: Seq<u8>,
    options: ParseOptions,
    document: Document,
    diagnostics: Seq<Diagnostic>,
    reprinted: Seq<char>,
)
    requires
        parse_outcome(s, options, document, diagnostics),
        reprinted == document.source@,
    ensures
        vstd::utf8::encode_utf8(reprinted) == s,
{
}

/// Resolution evaluates nothing: a syntax error or an expression always
/// resolves to an error value.
pub proof fn errors_and_expressions_stay_errors(
    ast: Ast,
    id: ValueId,
    resolved: TypedValue,
    diagnostics: Seq<Diagnostic>,
)
    requires
        resolved_value(ast, id, resolved, diagnostics),
        id.0 < ast.values_view().len(),
        ast.values_view()[id.0 as int] is Error || ast.values_view()[id.0 as int] is Expression,
    ensures
        resolved is Error,
{
}

/// Two members of the root object with the same key make resolution report
/// the later one as a duplicate (`E1001`), so the result has errors.
pub proof fn duplicate_root_keys_are_reported(
    ast: Ast,
    root: TypedRoot,
    diagnostics: Seq<Diagnostic>,
    i: int,
    j: int,
)
    requires
        resolved_root(ast, root, diagnostics),
        !(ast.root_view() is Array),
        0 <= i < j < ast.root_members().len(),
        ast::member_key_of(ast.members_view()[ast.root_members()[i].0 as int]) is Some,
        ast::member_key_of(ast.members_view()[ast.root_members()[i].0 as int])
            == ast::member_key_of(ast.members_view()[ast.root_members()[j].0 as int]),
    ensures
        reported(
            diagnostics,
            "E1001"@,
            member_span_of(ast.members_view()[ast.root_members()[j].0 as int]),
        ),
        diagnostics.len() > 0,
{
    let ids = ast.root_members();
    assert(ast::member_key_of(ast.members_view()[ids[i].0 as int]) == ast::member_key_of(
        ast.members_view()[ids[j].0 as int],
    ));
}

/// The type a schema field gets from its default names the default's JSON
/// kind: `null`, `bool`, `number`, `string`, `array` or `object`; values of
/// different kinds get different names.
pub proof fn inferred_types_name_the_json_kind(v: JsonValue, w: JsonValue)
    ensures
        v is Null ==> json::json_type_name(v) == "null"@,
        v is Bool ==> json::json_type_name(v) == "bool"@,
        v is Number ==> json::json_type_name(v) == "number"@,
        v is String ==> json::json_type_name(v) == "string"@,
        v is Array ==> json::json_type_name(v) == "array"@,
        v is Object ==> json::json_type_name(v) == "object"@,
        json::json_type_name(v) == json::json_type_name(w) ==> {
            &&& v is Null <==> w is Null
            &&& v is Bool <==> w is Bool
            &&& v is Number <==> w is Number
            &&& v is String <==> w is String
            &&& v is Array <==> w is Array
            &&& v is Object <==> w is Object
        },
{
    reveal_strlit("null");
    reveal_strlit("bool");
    reveal_strlit("number");
    reveal_strlit("string");
    reveal_strlit("array");
    reveal_strlit("object");
    assert("null"@.len() == 4 && "null"@[0] == 'n');
    assert("bool"@.len() == 4 && "bool"@[0] == 'b');
    assert("number"@.len() == 6 && "number"@[0] == 'n');
    assert("string"@.len() == 6 && "string"@[0] == 's');
    assert("array"@.len() == 5 && "array"@[0] == 'a');
    assert("object"@.len() == 6 && "object"@[0] == 'o');
}

/// A space, a tab and a carriage return are whitespace: no token of a parsed
/// document but the closing end-of-input token starts at such a byte, so
/// line breaks written as CR LF give the same tokens as bare LF.
pub proof fn carriage_returns_start_no_token(
    s: Seq<u8>,
    options: ParseOptions,
    document: Document,
    diagnostics: Seq<Diagnostic>,
)
    requires
        parse_outcome(s, options, document, diagnostics),
        s.len() <= u32::MAX,
    ensures
        forall|i: int|
            0 <= i < document.cst.tokens@.len() - 1 ==> {
                &&& ((#[trigger] document.cst.tokens@[i]).span.start as int) < s.len()
                &&& s[document.cst.tokens@[i].span.start as int] != 0x0du8
                &&& s[document.cst.tokens@[i].span.start as int] != 0x20u8
                &&& s[document.cst.tokens@[i].span.start as int] != 0x09u8
            },
{
    crate::lexer::lemma_lex_spec_tiles(s, options.max_tokens, options.max_token_length);
    crate::lexer::lemma_lex_spec_cr(s, options.max_tokens, options.max_token_length);
    let t = document.cst.tokens@;
    assert forall|i: int| 0 <= i < t.len() - 1 implies {
        &&& ((#[trigger] t[i]).span.start as int) < s.len()
        &&& s[t[i].span.start as int] != 0x0du8
        &&& s[t[i].span.start as int] != 0x20u8
        &&& s[t[i].span.start as int] != 0x09u8
    } by {
        assert(t.drop_last()[i] == t[i]);
    }
}

/// The ASCII bytes of a text written in ASCII characters.
pub open spec fn ascii_bytes(w: Seq<char>) -> Seq<u8> {
    w.map_values(|c: char| c as u8)
}

/// What the lexer and the parser read back from the canonical spelling of a
/// comparison operator, followed by a token of kind `next`: the lexer reads
/// the spelling `<`, `<=`, `>` or `>=` as one or two punctuation tokens, and
/// a keyword as one identifier; the parser reads those tokens as an operator
/// spanning them.
pub open spec fn spelling_reads_as(w: Seq<char>, next: TokenKind) -> Option<(ComparisonOperator, int)> {
    if w.len() > 0 && crate::lexer::punct_kind(w[0]) is Some {
        if w.len() == 1 {
            crate::parser::expressions::comparison_read(crate::lexer::punct_kind(w[0])->0, next, Seq::empty())
        } else if w.len() == 2 && crate::lexer::punct_kind(w[1]) is Some {
            crate::parser::expressions::comparison_read(
                crate::lexer::punct_kind(w[0])->0,
                crate::lexer::punct_kind(w[1])->0,
                Seq::empty(),
            )
        } else {
            None
        }
    } else if crate::lexer::word_kind(ascii_bytes(w)) == TokenKind::Identifier {
        crate::parser::expressions::comparison_read(TokenKind::Identifier, next, ascii_bytes(w))
    } else {
        None
    }
}

/// Canonical formatting keeps every comparison: the spelling it writes for
/// an operator, followed by a space and a value (never `=`), is read back by
/// the lexer and the parser as that same operator, over all its tokens.
pub proof fn canonical_comparisons_read_back(op: ComparisonOperator, next: TokenKind)
    requires
        next != TokenKind::Equals,
    ensures
        spelling_reads_as(format::comparison_word(op), next) matches Some(r) && r.0 == op && r.1
            == if format::comparison_word(op).len() == 2 && op != ComparisonOperator::In {
            2int
        } else {
            1int
        },
{
    let w = format::comparison_word(op);
    match op {
        ComparisonOperator::Less => {
            reveal_strlit("<");
            assert(w =~= seq!['<']);
        },
        ComparisonOperator::LessEqual => {
            reveal_strlit("<=");
            assert(w =~= seq!['<', '=']);
        },
        ComparisonOperator::Greater => {
            reveal_strlit(">");
            assert(w =~= seq!['>']);
        },
        ComparisonOperator::GreaterEqual => {
            reveal_strlit(">=");
            assert(w =~= seq!['>', '=']);
        },
        ComparisonOperator::Equals => {
            reveal_strlit("equals");
            assert(ascii_bytes(w) =~= seq![0x65u8, 0x71, 0x75, 0x61, 0x6c, 0x73]);
        },
        ComparisonOperator::Contains => {
            reveal_strlit("contains");
            assert(ascii_bytes(w) =~= seq![0x63u8, 0x6f, 0x6e, 0x74, 0x61, 0x69, 0x6e, 0x73]);
        },
        ComparisonOperator::In => {
            reveal_strlit("in");
            assert(ascii_bytes(w) =~= seq![0x69u8, 0x6e]);
        },
        ComparisonOperator::Matches => {
            reveal_strlit("matches");
            assert(ascii_bytes(w) =~= seq![0x6du8, 0x61, 0x74, 0x63, 0x68, 0x65, 0x73]);
        },
        ComparisonOperator::Starts => {
            reveal_strlit("starts");
            assert(ascii_bytes(w) =~= seq![0x73u8, 0x74, 0x61, 0x72, 0x74, 0x73]);
        },
        ComparisonOperator::Ends => {
            reveal_strlit("ends");
            assert(ascii_bytes(w) =~= seq![0x65u8, 0x6e, 0x64, 0x73]);
        },
    }
}

/// Resolution reports a duplicate key (`E1001`) only for a real duplicate:
/// each such diagnostic stands at a member of some object whose key equals
/// that of an earlier member of the same object; so where every object's
/// keys are pairwise distinct, no duplicate is reported.
pub proof fn duplicate_reports_name_repeated_keys(document: Document, diagnostics: Seq<Diagnostic>)
    requires
        resolve::duplicates_justified(document.ast, diagnostics),
    ensures
        forall|k: int|
            0 <= k < diagnostics.len() && (#[trigger] diagnostics[k]).code@ == "E1001"@ ==> exists|ids: Seq<MemberId>|
                resolve::object_list(document.ast, ids) && #[trigger] resolve::repeats_key(
                    document.ast,
                    ids,
                    diagnostics[k].span,
                ),
        (forall|ids: Seq<MemberId>, i: int, j: int|
            #![trigger resolve::object_list(document.ast, ids), ids[i], ids[j]]
            resolve::object_list(document.ast, ids) && 0 <= i < j < ids.len() && ast::member_key_of(
                document.ast.members_view()[ids[i].0 as int],
            ) is Some ==> ast::member_key_of(document.ast.members_view()[ids[i].0 as int])
                != ast::member_key_of(document.ast.members_view()[ids[j].0 as int])) ==> forall|k: int|
            0 <= k < diagnostics.len() ==> (#[trigger] diagnostics[k]).code@ != "E1001"@,
{
    let ast = document.ast;
    if forall|ids: Seq<MemberId>, i: int, j: int|
        #![trigger resolve::object_list(ast, ids), ids[i], ids[j]]
        resolve::object_list(ast, ids) && 0 <= i < j < ids.len() && ast::member_key_of(
            ast.members_view()[ids[i].0 as int],
        ) is Some ==> ast::member_key_of(ast.members_view()[ids[i].0 as int]) != ast::member_key_of(
            ast.members_view()[ids[j].0 as int],
        ) {
        assert forall|k: int| 0 <= k < diagnostics.len() implies (#[trigger] diagnostics[k]).code@
            != "E1001"@ by {
            if diagnostics[k].code@ == "E1001"@ {
                let ids = choose|ids: Seq<MemberId>|
                    resolve::object_list(ast, ids) && #[trigger] resolve::repeats_key(ast, ids, diagnostics[k].span);
                let (i, j) = choose|i: int, j: int|
                    #![trigger ast::member_key_of(ast.members_view()[ids[i].0 as int]), member_span_of(ast.members_view()[ids[j].0 as int])]
                    0 <= i < j < ids.len() && ast::member_key_of(ast.members_view()[ids[i].0 as int]) is Some
                        && ast::member_key_of(ast.members_view()[ids[i].0 as int]) == ast::member_key_of(
                        ast.members_view()[ids[j].0 as int],
                    ) && member_span_of(ast.members_view()[ids[j].0 as int]) == diagnostics[k].span;
                assert(ids[i] == ids[i] && ids[j] == ids[j]);
            }
        }
    }
}

/// The compact JSON text of a value reads back as that value: `null` for
/// null, the literal of the same truth value for a boolean, the string
/// itself for a string, read through JSON's quoting and escapes, and the
/// canonical number text for a number; an array's text is bracketed and an
/// object's braced.
pub proof fn json_text_reads_back(v: JsonValue)
    ensures
        v is Null ==> json::json_text(v) == "null"@,
        v is Bool ==> json::json_bool_read(json::json_text(v)) == Some(v->Bool_0),
        v is String ==> json::json_string_read(json::json_text(v)) == Some(v->String_0@),
        v is Number ==> json::json_text(v) == v->Number_0@,
        v is Array ==> json::json_text(v).len() >= 2 && json::json_text(v)[0] == '[' && json::json_text(
            v,
        ).last() == ']',
        v is Object ==> json::json_text(v).len() >= 2 && json::json_text(v)[0] == '{' && json::json_text(
            v,
        ).last() == '}',
{
    reveal_strlit("true");
    reveal_strlit("false");
    assert("true"@.len() != "false"@.len());
    match v {
        JsonValue::String(x) => json::lemma_string_read_back(x@),
        JsonValue::Array(items) => {
            let t = json::json_text(v);
            assert(t == seq!['['] + json::items_json_text(items@) + seq![']']);
        },
        JsonValue::Object(members) => {
            let t = json::json_text(v);
            assert(t == seq!['{'] + json::members_json_text(members@) + seq!['}']);
        },
        _ => {},
    }
}

/// Canonical formatting keeps every quantifier: the word it writes for a
/// quantifier kind is lexed as one identifier that the parser reads as that
/// same kind.
pub proof fn canonical_quantifiers_read_back(kind: QuantifierKind)
    ensures
        crate::lexer::word_kind(ascii_bytes(format::quantifier_word(kind))) == TokenKind::Identifier,
        crate::parser::expressions::quantifier_word(ascii_bytes(format::quantifier_word(kind))) == Some(
            kind,
        ),
{
    let w = format::quantifier_word(kind);
    match kind {
        QuantifierKind::All => {
            reveal_strlit("all");
            assert(ascii_bytes(w) =~= seq![0x61u8, 0x6c, 0x6c]);
        },
        QuantifierKind::Any => {
            reveal_strlit("any");
            assert(ascii_bytes(w) =~= seq![0x61u8, 0x6e, 0x79]);
        },
        QuantifierKind::One => {
            reveal_strlit("one");
            assert(ascii_bytes(w) =~= seq![0x6fu8, 0x6e, 0x65]);
        },
        QuantifierKind::NoneOf => {
            reveal_strlit("none");
            assert(ascii_bytes(w) =~= seq![0x6eu8, 0x6f, 0x6e, 0x65]);
        },
    }
}

} // verus!
