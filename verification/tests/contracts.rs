use fon_parser::{
    format_canonical, parse, parse_bytes, parse_with_options, reprint_lossless, resolve,
    ParseOptions, RootKind, SchemeError, SchemeResolver, Span, TokenKind, TriviaKind,
    TypeReference, TypedAtom, TypedRoot, TypedValue, UnknownValue, unknown_outcome, AstValue,
    CstNodeKind, TypeKind,
};

struct RefusingScheme;

impl SchemeResolver for RefusingScheme {
    fn resolve_type(&self, _name: &str) -> Result<TypeReference, SchemeError> {
        Err(SchemeError { message: "unknown type".into() })
    }

    fn resolve_unknown(
        &self,
        _expected_type: Option<&TypeReference>,
        _value: &UnknownValue,
    ) -> Result<TypedAtom, SchemeError> {
        Err(SchemeError { message: "unknown atom".into() })
    }
}

struct EchoScheme;

impl SchemeResolver for EchoScheme {
    fn resolve_type(&self, name: &str) -> Result<TypeReference, SchemeError> {
        Ok(TypeReference { name: name.into(), span: None })
    }

    fn resolve_unknown(
        &self,
        expected_type: Option<&TypeReference>,
        value: &UnknownValue,
    ) -> Result<TypedAtom, SchemeError> {
        Ok(TypedAtom {
            type_label: expected_type.map(|t| t.name.clone()).unwrap_or_else(|| "Unknown".into()),
            raw: value.raw.clone(),
            span: value.span,
        })
    }
}

fn codes(diagnostics: &[fon_parser::Diagnostic]) -> Vec<String> {
    diagnostics.iter().map(|d| d.code.clone()).collect()
}

#[test]
fn reprint_gives_back_every_source_byte() {
    for source in [
        "",
        "  \n",
        "// only a comment",
        "name = `Fuyeor` /* trailing */\n",
        "{ a = [1, 2,\n 3] }",
        "broken = {",
        "é = `ü`\n",
    ] {
        let result = parse(source);
        assert_eq!(reprint_lossless(&result.document), source);
        assert_eq!(result.document.source(), source);
    }
}

#[test]
fn empty_source_is_an_empty_implicit_object() {
    let result = parse("");
    assert!(!result.has_errors());
    assert_eq!(result.document.ast.root_kind(), RootKind::ImplicitObject);
    assert_eq!(result.document.ast.object_members().unwrap().len(), 0);
    assert_eq!(result.document.ast.root_annotations().len(), 0);
    assert_eq!(result.document.cst.tokens.len(), 1);
    assert_eq!(result.document.cst.tokens[0].kind, TokenKind::Eof);
    assert_eq!(format_canonical(&result.document), "");
}

#[test]
fn trivia_only_source_has_no_diagnostics() {
    let result = parse("  /* block */ // line");
    assert!(!result.has_errors());
    assert_eq!(result.document.cst.tokens.len(), 1);
    let kinds: Vec<TriviaKind> = result.document.cst.trivia.iter().map(|t| t.kind).collect();
    assert_eq!(
        kinds,
        vec![TriviaKind::Whitespace, TriviaKind::BlockComment, TriviaKind::Whitespace, TriviaKind::LineComment]
    );
}

#[test]
fn end_of_input_token_sits_at_the_end() {
    let source = "a = 1\n";
    let result = parse(source);
    let eof = result.document.cst.tokens.last().unwrap();
    assert_eq!(eof.kind, TokenKind::Eof);
    assert_eq!(eof.span, Span::new(6, 6));
}

#[test]
fn token_limit_stops_lexing_and_is_reported() {
    let options = ParseOptions { max_depth: 256, max_tokens: 3, max_token_length: 1024 };
    let result = parse_with_options("a = 1\nb = 2\n", options);
    // the limit, one token past it, then the end-of-input token
    assert_eq!(result.document.cst.tokens.len(), 5);
    assert!(codes(&result.diagnostics).contains(&"E0002".to_string()));
    let eof = result.document.cst.tokens.last().unwrap();
    assert!((eof.span.start as usize) < "a = 1\nb = 2\n".len());
}

#[test]
fn zero_token_limit_still_admits_one_token() {
    let options = ParseOptions { max_depth: 256, max_tokens: 0, max_token_length: 1024 };
    let result = parse_with_options("a = 1", options);
    assert_eq!(result.document.cst.tokens.len(), 2);
    assert!(codes(&result.diagnostics).contains(&"E0002".to_string()));
}

#[test]
fn token_length_limit_is_reported() {
    let options = ParseOptions { max_depth: 256, max_tokens: 1000, max_token_length: 3 };
    let result = parse_with_options("name = 1", options);
    assert!(codes(&result.diagnostics).contains(&"E0004".to_string()));
}

#[test]
fn unterminated_constructs_are_reported() {
    assert!(codes(&parse("a = `open").diagnostics).contains(&"E0202".to_string()));
    assert!(codes(&parse("a = /open").diagnostics).contains(&"E0203".to_string()));
    assert!(codes(&parse("a = 1 /* open").diagnostics).contains(&"E0201".to_string()));
}

#[test]
fn invalid_utf8_spans_from_the_valid_prefix_to_the_end() {
    let result = parse_bytes(b"name = `Fuyeor`\xff");
    assert_eq!(result.diagnostics.len(), 1);
    assert_eq!(result.diagnostics[0].code, "E0003");
    assert_eq!(result.diagnostics[0].message, "source is not valid UTF-8");
    assert_eq!(result.diagnostics[0].span, Span::new(15, 16));
    assert_eq!(result.document.source(), "");
    assert_eq!(result.document.ast.object_members().unwrap().len(), 0);

    let truncated = parse_bytes(b"a\xe2\x82");
    assert_eq!(truncated.diagnostics[0].span, Span::new(1, 3));
}

#[test]
fn valid_bytes_parse_like_text() {
    let source = "name = `Fuyeor`\nversion = 1.0.0\n";
    let from_bytes = parse_bytes(source.as_bytes());
    let from_text = parse(source);
    assert_eq!(from_bytes.diagnostics, from_text.diagnostics);
    assert_eq!(from_bytes.document.cst.tokens, from_text.document.cst.tokens);
    assert_eq!(format_canonical(&from_bytes.document), format_canonical(&from_text.document));
}

#[test]
fn non_ascii_letters_start_identifiers() {
    let result = parse("größe = 1\n");
    assert!(!result.has_errors(), "{:?}", result.diagnostics);
    assert_eq!(result.document.cst.tokens[0].kind, TokenKind::Identifier);
    assert_eq!(result.document.cst.tokens[0].span, Span::new(0, 7));
}

#[test]
fn non_ascii_whitespace_ends_an_atom() {
    let result = parse("a = @x\u{3000}\n");
    let atom = result.document.cst.tokens.iter().find(|t| t.kind == TokenKind::UnknownAtom).unwrap();
    assert_eq!(atom.span, Span::new(4, 6));
}

#[test]
fn root_annotations_on_an_array_are_reported() {
    let result = parse("#[kind = list]\n[1, 2]");
    assert!(codes(&result.diagnostics).contains(&"E0101".to_string()));
    assert_eq!(result.document.ast.root_kind(), RootKind::Array);
}

#[test]
fn nesting_beyond_the_limit_is_reported_once_per_level() {
    let options = ParseOptions { max_depth: 1, max_tokens: 1000, max_token_length: 1024 };
    let result = parse_with_options("a = { b = { c = 1 } }", options);
    assert!(codes(&result.diagnostics).contains(&"E0001".to_string()));
    let within = parse_with_options("a = { b = 1 }", options);
    assert!(!within.has_errors(), "{:?}", within.diagnostics);
}

#[test]
fn canonical_text_of_schemas_and_types() {
    let result = parse(
        "User: struct { #[key] id: Uuid4, tags: Map<Array<string>> = [], }\nMode: enum { on, off: u8 }\n",
    );
    assert!(!result.has_errors(), "{:?}", result.diagnostics);
    assert_eq!(
        format_canonical(&result.document),
        "User: struct {\n  #[key]\n  id: Uuid4\n  tags: Map<Array<string>> = []\n}\nMode: enum {\n  on\n  off: u8\n}\n"
    );
}

#[test]
fn generic_arguments_are_separated_by_commas() {
    let result = parse("tags: Map<string, u8> = []\n");
    assert!(!result.has_errors(), "{:?}", result.diagnostics);
    assert_eq!(format_canonical(&result.document), "tags: Map<string, u8> = []\n");
}

#[test]
fn canonical_text_of_comparisons_and_quantifiers() {
    let result = parse(
        "a = none (x <= 1, y least 2, z in [1], w starts `q`)\nb = not (x)\nc = one ()\n",
    );
    assert!(!result.has_errors(), "{:?}", result.diagnostics);
    assert_eq!(
        format_canonical(&result.document),
        "a = none (\n  x <= 1\n  y >= 2\n  z in [1]\n  w starts `q`\n)\nb = not (x)\nc = one ()\n"
    );
}

#[test]
fn canonical_text_of_literals_and_errors() {
    let result = parse("[true, -1.5, /a+/gi, .dark, AppMode.light, #fff, {}]");
    assert!(!result.has_errors(), "{:?}", result.diagnostics);
    assert_eq!(
        format_canonical(&result.document),
        "[true, -1.5, /a+/gi, .dark, AppMode.light, #fff, {}]\n"
    );
    let broken = parse("{ a = }");
    assert!(broken.has_errors());
    assert!(format_canonical(&broken.document).contains("/* "));
}

#[test]
fn canonical_text_of_annotation_arguments() {
    let result = parse("#[doc = `x`, level = 2] { a = 1 }");
    assert!(!result.has_errors(), "{:?}", result.diagnostics);
    assert_eq!(
        format_canonical(&result.document),
        "#[doc = `x`, level = 2]\n{\n  a = 1\n}\n"
    );
    let positional = parse("#[doc = `x`, strict] { a = 1 }");
    assert!(!positional.has_errors(), "{:?}", positional.diagnostics);
    assert_eq!(
        format_canonical(&positional.document),
        "#[doc = `x`, strict]\n{\n  a = 1\n}\n"
    );
    let keyed_first = parse("#[tag level = 2] { a = 1 }");
    assert!(!keyed_first.has_errors(), "{:?}", keyed_first.diagnostics);
    let text = format_canonical(&keyed_first.document);
    assert_eq!(text, "#[tag, level = 2]\n{\n  a = 1\n}\n");
    assert_eq!(format_canonical(&parse(&text).document), text);
}

#[test]
fn tokens_after_a_closed_root_are_reported() {
    let object = parse("{ a = 1 } b = 2");
    let reported: Vec<&Span> = object
        .diagnostics
        .iter()
        .filter(|d| d.code == "E0108")
        .map(|d| &d.span)
        .collect();
    assert_eq!(reported, vec![&Span::new(10, 11)]);
    let array = parse("[1, 2] 3");
    assert!(codes(&array.diagnostics).contains(&"E0108".to_string()));
    let separated = parse("[1, 2]\n,\n");
    assert!(separated.diagnostics.is_empty(), "{:?}", separated.diagnostics);
    let closed = parse("{ a = 1 }\n");
    assert!(closed.diagnostics.is_empty(), "{:?}", closed.diagnostics);
}

#[test]
fn the_scheme_answer_for_an_unknown_atom_is_kept_or_reported() {
    let atom = TypedAtom { type_label: "Hex".into(), raw: "#fff".into(), span: Span::new(4, 8) };
    let (value, diagnostic) = unknown_outcome(Ok(atom.clone()), Span::new(4, 8));
    assert!(matches!(&value, TypedValue::Atom(a) if *a == atom));
    assert!(diagnostic.is_none());
    let (value, diagnostic) =
        unknown_outcome(Err(SchemeError { message: "no such colour".into() }), Span::new(4, 8));
    assert!(matches!(
        &value,
        TypedValue::Error { message, span }
            if message == "scheme could not resolve unknown value" && *span == Span::new(4, 8)
    ));
    let diagnostic = diagnostic.unwrap();
    assert_eq!(diagnostic.code, "E1002");
    assert_eq!(diagnostic.message, "no such colour");
    assert_eq!(diagnostic.span, Span::new(4, 8));
}

#[test]
fn expressions_resolve_to_errors_and_are_not_evaluated() {
    let result = parse("check = all (x > 1)\nflag = true\n");
    assert!(!result.has_errors(), "{:?}", result.diagnostics);
    let resolved = resolve(&result.document, &EchoScheme);
    let TypedRoot::Object(members) = &resolved.document.root else {
        panic!("object root");
    };
    assert_eq!(members.len(), 2);
    assert_eq!(members[0].key, "check");
    assert!(matches!(
        &members[0].value,
        TypedValue::Error { message, .. } if message == "unresolved quantifier expression"
    ));
    assert!(matches!(&members[1].value, TypedValue::Boolean { value: true, .. }));
}

#[test]
fn refused_atoms_and_types_are_reported() {
    let result = parse("color: Hex = #fff\nplain = bare\n");
    assert!(!result.has_errors(), "{:?}", result.diagnostics);
    let resolved = resolve(&result.document, &RefusingScheme);
    let found = codes(&resolved.diagnostics);
    assert_eq!(found.iter().filter(|c| c.as_str() == "E1002").count(), 3);
    let TypedRoot::Object(members) = &resolved.document.root else {
        panic!("object root");
    };
    assert!(matches!(
        &members[1].value,
        TypedValue::Error { message, .. } if message == "scheme could not resolve unknown value"
    ));
}

#[test]
fn malformed_type_annotations_are_reported_on_resolution() {
    let result = parse("x: = 1\n");
    assert!(codes(&result.diagnostics).contains(&"E0402".to_string()));
    let resolved = resolve(&result.document, &EchoScheme);
    assert!(resolved
        .diagnostics
        .iter()
        .any(|d| d.code == "E1003" && d.message == "expected a type"));
}

#[test]
fn duplicate_keys_in_nested_objects_are_reported() {
    let result = parse("outer = { a = 1, a = 2 }\n");
    assert!(!result.has_errors(), "{:?}", result.diagnostics);
    let resolved = resolve(&result.document, &EchoScheme);
    assert_eq!(codes(&resolved.diagnostics), vec!["E1001".to_string()]);
    assert_eq!(resolved.diagnostics[0].message, "duplicate key in object");
}

#[test]
fn schemas_resolve_to_their_kind_or_declared_name() {
    let result = parse("Mode: enum { a }\ninline = struct { x: u8 }\nitems = [1, `two`]\n");
    assert!(!result.has_errors(), "{:?}", result.diagnostics);
    let resolved = resolve(&result.document, &EchoScheme);
    assert!(!resolved.has_errors());
    let TypedRoot::Object(members) = &resolved.document.root else {
        panic!("object root");
    };
    assert!(matches!(&members[0].value, TypedValue::Schema { name, .. } if name == "Mode"));
    assert!(matches!(&members[1].value, TypedValue::Schema { name, .. } if name == "struct"));
    assert!(matches!(&members[2].value, TypedValue::Array(items) if items.len() == 2));
}

#[test]
fn array_roots_resolve_item_by_item() {
    let result = parse("[1, x]");
    let resolved = resolve(&result.document, &EchoScheme);
    let TypedRoot::Array(items) = &resolved.document.root else {
        panic!("array root");
    };
    assert!(matches!(&items[0], TypedValue::Number { raw, .. } if raw == "1"));
    assert!(matches!(&items[1], TypedValue::Atom(atom) if atom.type_label == "Unknown" && atom.raw == "x"));
}

#[test]
fn tokens_and_trivia_cover_every_source_byte_once() {
    let source = "// header\nname = `Fuyeor` /* note */\nlist = [1, 2]\n";
    let result = parse(source);
    let tokens = &result.document.cst.tokens;
    let end = tokens.last().expect("end of input").span.start as usize;
    assert_eq!(end, source.len());
    let mut spans: Vec<Span> = tokens[..tokens.len() - 1]
        .iter()
        .map(|token| token.span)
        .chain(result.document.cst.trivia.iter().map(|trivia| trivia.span))
        .collect();
    spans.sort_by_key(|span| span.start);
    let mut position = 0u32;
    for span in spans {
        assert_eq!(span.start, position);
        assert!(span.end > span.start);
        position = span.end;
    }
    assert_eq!(position as usize, end);
}

#[test]
fn raw_texts_are_the_source_text_of_their_spans() {
    let source = "name = `Fuyeor`\nversion = 1.0.0\nsize: u8 = 14\nMode: enum { dark, light }\n";
    let result = parse(source);
    assert!(!result.has_errors(), "{:?}", result.diagnostics);
    let ast = &result.document.ast;
    let slice = |span: Span| &source[span.start as usize..span.end as usize];
    let members = ast.object_members().expect("object root");
    assert_eq!(members.len(), 4);
    for member_id in members {
        let member = ast.member(*member_id).expect("member");
        if let Some(binding) = member.binding() {
            assert_eq!(binding.key.raw, slice(binding.key.span));
            match ast.value(binding.value).expect("value") {
                fon_parser::Value::Number { raw, span } => assert_eq!(raw, slice(*span)),
                fon_parser::Value::String(string) => assert_eq!(string.raw, slice(string.span)),
                fon_parser::Value::Unknown(unknown) => assert_eq!(unknown.raw, slice(unknown.span)),
                other => panic!("unexpected value {other:?}"),
            }
        }
        if let Some(declaration) = member.type_declaration() {
            assert_eq!(declaration.name.raw, slice(declaration.name.span));
            let schema = ast.schema(declaration.definition).expect("schema");
            for variant in &schema.variants {
                assert_eq!(variant.name.raw, slice(variant.name.span));
            }
        }
    }
}

#[test]
fn diagnostics_of_a_broken_source_point_into_it() {
    let source = "a = [1, 2\nb: struct { x: Map<u8, y }\n#[tag c = `open";
    let result = parse(source);
    assert!(result.has_errors());
    for diagnostic in &result.diagnostics {
        assert!(diagnostic.span.start as usize <= source.len(), "{diagnostic:?}");
        assert!(diagnostic.span.end as usize <= source.len(), "{diagnostic:?}");
    }
}

#[test]
fn only_backtick_literals_become_strings() {
    let result = parse("a = `text`\nb = text\nc = @scope/pkg\n");
    assert!(!result.has_errors(), "{:?}", result.diagnostics);
    let ast = &result.document.ast;
    let members = ast.object_members().expect("object root");
    let value = |index: usize| {
        let binding = ast.member(members[index]).expect("member").binding().expect("binding");
        ast.value(binding.value).expect("value").clone()
    };
    match value(0) {
        fon_parser::Value::String(string) => assert!(string.raw.starts_with('`')),
        other => panic!("unexpected value {other:?}"),
    }
    for index in 1..3 {
        match value(index) {
            fon_parser::Value::Unknown(unknown) => assert!(!unknown.raw.starts_with('`')),
            other => panic!("unexpected value {other:?}"),
        }
    }
}

#[test]
fn tokens_over_the_length_limit_are_reported() {
    let options = ParseOptions {
        max_depth: 16,
        max_tokens: 100,
        max_token_length: 3,
    };
    let result = parse_with_options("name = `abcdef`\nx = 1\n", options);
    let long: Vec<Span> = result
        .document
        .cst
        .tokens
        .iter()
        .filter(|token| token.span.end - token.span.start > 3)
        .map(|token| token.span)
        .collect();
    assert_eq!(long, vec![Span { start: 0, end: 4 }, Span { start: 7, end: 15 }]);
    for span in long {
        assert!(result
            .diagnostics
            .iter()
            .any(|d| d.code == "E0004" && d.span == span));
    }
}

#[test]
fn a_source_within_the_token_limit_is_not_reported() {
    let options = ParseOptions { max_depth: 256, max_tokens: 1, max_token_length: 1024 };
    let single = parse_with_options("{", options);
    assert!(!codes(&single.diagnostics).contains(&"E0002".to_string()));
    let within = parse_with_options("a", options);
    assert!(!codes(&within.diagnostics).contains(&"E0002".to_string()));
    let over = parse_with_options("a b", options);
    assert!(codes(&over.diagnostics).contains(&"E0002".to_string()));
}

#[test]
fn an_unterminated_regex_stops_before_the_newline() {
    let result = parse("a = /abc\nb = 1\n");
    let tokens = &result.document.cst.tokens;
    assert_eq!(tokens[2].kind, TokenKind::Error);
    assert_eq!(tokens[2].span, Span { start: 4, end: 8 });
    assert_eq!(tokens[3].kind, TokenKind::Newline);
    let unterminated: Vec<_> = result.diagnostics.iter().filter(|d| d.code == "E0203").collect();
    assert_eq!(unterminated.len(), 1);
    assert_eq!(unterminated[0].span, Span { start: 4, end: 8 });
}

#[test]
fn an_inline_schema_is_indented_at_its_member_level() {
    let result = parse("config = {\n  mode: Option<struct { on: bool }> = {}\n}\n");
    assert!(!result.has_errors(), "{:?}", result.diagnostics);
    assert_eq!(
        format_canonical(&result.document),
        "config = {\n  mode: Option<struct {\n    on: bool\n  }> = {}\n}\n"
    );
}

#[test]
fn every_error_node_has_a_diagnostic_at_its_span() {
    let result = parse("{ a = , = 2 }\nb = \n");
    let errors: Vec<Span> = result
        .document
        .cst
        .nodes
        .iter()
        .filter(|node| node.kind == CstNodeKind::Error)
        .map(|node| node.span)
        .collect();
    assert!(!errors.is_empty());
    for span in errors {
        assert!(result.diagnostics.iter().any(|d| d.span == span), "{:?}", span);
    }
}

#[test]
fn the_first_member_follows_the_first_tokens() {
    let result = parse("\n, name: string = `Fuyeor`\nnext = true\n");
    assert_eq!(result.document.ast.root_kind(), RootKind::ImplicitObject);
    let members = result.document.ast.object_members().unwrap();
    let binding = result.document.ast.member(members[0]).unwrap().binding().unwrap();
    assert_eq!(binding.key.raw, "name");
    assert!(binding.type_annotation.is_some());
    assert!(matches!(result.document.ast.value(binding.value), Some(AstValue::String(_))));
    let explicit = parse("{\n  flag = true\n}\n");
    assert_eq!(explicit.document.ast.root_kind(), RootKind::ExplicitObject);
    let array = parse("\n[1]\n");
    assert_eq!(array.document.ast.root_kind(), RootKind::Array);
}

#[test]
fn a_list_of_simple_members_parses_without_errors() {
    let result = parse("name = `Fuyeor`\nversion = 1.5, debug = true\n\nmode = @dark\ntheme = .light, flavor = plain\n");
    assert!(result.diagnostics.is_empty(), "{:?}", result.diagnostics);
    let members = result.document.ast.object_members().unwrap();
    let keys: Vec<String> = members
        .iter()
        .map(|id| result.document.ast.member(*id).unwrap().binding().unwrap().key.raw.clone())
        .collect();
    assert_eq!(keys, vec!["name", "version", "debug", "mode", "theme", "flavor"]);
    let typed = parse("name: string = `Fuyeor`\nmode: Option<AppMode> = .dark\n");
    assert!(typed.diagnostics.is_empty(), "{:?}", typed.diagnostics);
    let typed_members = typed.document.ast.object_members().unwrap();
    let mode = typed.document.ast.member(typed_members[1]).unwrap().binding().unwrap();
    assert_eq!(typed.document.ast.type_kind(mode.type_annotation.unwrap()), TypeKind::Generic);
    let explicit = parse("{\n  a = 1,\n  b = `x` }\n");
    assert!(explicit.diagnostics.is_empty(), "{:?}", explicit.diagnostics);
    assert_eq!(explicit.document.ast.root_kind(), RootKind::ExplicitObject);
    assert_eq!(explicit.document.ast.object_members().unwrap().len(), 2);
}
