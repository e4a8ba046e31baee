use fon_parser::{
    JsonConversionError, JsonValue, SchemaDescriptor, SchemaFieldDescriptor,
    SchemaVariantDescriptor, parse_to_json_value, to_json_string,
};

fn text(value: &str) -> JsonValue {
    JsonValue::String(value.into())
}

fn number(value: &str) -> JsonValue {
    JsonValue::Number(value.into())
}

fn entry(key: &str, value: JsonValue) -> (String, JsonValue) {
    (key.into(), value)
}

fn field(
    name: &str,
    type_label: Option<&str>,
    default: Option<JsonValue>,
    required: bool,
) -> SchemaFieldDescriptor {
    SchemaFieldDescriptor {
        name: name.into(),
        type_label: type_label.map(String::from),
        default,
        required,
    }
}

#[test]
fn materializes_package_manifest_as_clean_json() {
    let source = "name = @fer/std\nversion = 0.1.0\nlicense = .mit\nauthors = [`Fuyeor`, `AI`]\ndescription = `The standard library`\ndependencies = {\n  @fer/common = ^0.1.0\n}\n";

    let actual = parse_to_json_value(source).expect("manifest should materialize");
    let expected = JsonValue::Object(vec![
        entry(
            "authors",
            JsonValue::Array(vec![text("Fuyeor"), text("AI")]),
        ),
        entry(
            "dependencies",
            JsonValue::Object(vec![entry("@fer/common", text("^0.1.0"))]),
        ),
        entry("description", text("The standard library")),
        entry("license", text("mit")),
        entry("name", text("@fer/std")),
        entry("version", text("0.1.0")),
    ]);

    assert_eq!(actual, expected);
    assert_eq!(
        to_json_string(source).expect("manifest should serialize"),
        r#"{"authors":["Fuyeor","AI"],"dependencies":{"@fer/common":"^0.1.0"},"description":"The standard library","license":"mit","name":"@fer/std","version":"0.1.0"}"#
    );
}

#[test]
fn materializes_json_scalars_and_root_arrays() {
    let actual = parse_to_json_value("[14, -2.5, true, false, `text`, .mit, @fer/std]")
        .expect("array should materialize");

    assert_eq!(
        actual,
        JsonValue::Array(vec![
            number("14"),
            number("-2.5"),
            JsonValue::Bool(true),
            JsonValue::Bool(false),
            text("text"),
            text("mit"),
            text("@fer/std"),
        ])
    );
}

#[test]
fn exports_schema_and_infers_default_type() {
    let source = "AppAppearance: struct {\n  mode: AppMode\n  primary-color: Hex = #AEA4E4\n  secondary-color: Hex = #ffe710\n  font-size: u8 = 14\n  enable-animations = true\n}\n";
    let parsed = fon_parser::parse(source);
    assert!(
        !parsed.has_errors(),
        "unexpected diagnostics: {:?}",
        parsed.diagnostics
    );

    let descriptor = parsed
        .document
        .schema_descriptor("AppAppearance")
        .expect("schema should export");
    let expected = SchemaDescriptor {
        name: "AppAppearance".into(),
        kind: "struct".into(),
        fields: vec![
            field("mode", Some("AppMode"), None, true),
            field("primary-color", Some("Hex"), Some(text("#AEA4E4")), false),
            field("secondary-color", Some("Hex"), Some(text("#ffe710")), false),
            field("font-size", Some("u8"), Some(number("14")), false),
            field(
                "enable-animations",
                Some("bool"),
                Some(JsonValue::Bool(true)),
                false,
            ),
        ],
        variants: vec![],
    };

    assert_eq!(descriptor, expected);
}

#[test]
fn strict_defaults_reject_required_fields_and_partial_defaults_omit_them() {
    let source = "AppAppearance: struct {\n  mode: AppMode\n  primary-color: Hex = #AEA4E4\n  font-size: u8 = 14\n  enable-animations = true\n}\n";
    let document = fon_parser::parse(source).document;

    assert_eq!(
        document.instantiate_defaults("AppAppearance"),
        Err(JsonConversionError::MissingRequiredField {
            schema: "AppAppearance".into(),
            field: "mode".into(),
        })
    );
    assert_eq!(
        document
            .materialize_partial_defaults("AppAppearance")
            .expect("partial defaults should materialize"),
        JsonValue::Object(vec![
            entry("enable-animations", JsonValue::Bool(true)),
            entry("font-size", number("14")),
            entry("primary-color", text("#AEA4E4")),
        ])
    );
}

#[test]
fn materialization_rejects_diagnostics_duplicate_keys_and_interpolation() {
    assert!(matches!(
        parse_to_json_value("broken"),
        Err(JsonConversionError::ParseDiagnostics { .. })
    ));
    assert_eq!(
        parse_to_json_value("name = `first`\nname = `second`"),
        Err(JsonConversionError::DuplicateKey { key: "name".into() })
    );
    assert!(matches!(
        parse_to_json_value("value = `hello {name}`"),
        Err(JsonConversionError::UnsupportedInterpolation { .. })
    ));
}

#[test]
fn strict_defaults_of_a_fully_defaulted_struct_sort_their_keys() {
    let source = "Theme: struct {\n  zoom: u8 = 2\n  accent = `blue`\n  dark = false\n}\n";
    let document = fon_parser::parse(source).document;

    assert_eq!(
        document.instantiate_defaults("Theme"),
        Ok(JsonValue::Object(vec![
            entry("accent", text("blue")),
            entry("dark", JsonValue::Bool(false)),
            entry("zoom", number("2")),
        ]))
    );
}

#[test]
fn unknown_and_enum_schemas_are_refused_for_defaults() {
    let source = "Mode: enum {\n  light\n  dark\n}\n";
    let document = fon_parser::parse(source).document;

    assert_eq!(
        document.instantiate_defaults("Missing"),
        Err(JsonConversionError::SchemaNotFound {
            name: "Missing".into()
        })
    );
    assert_eq!(
        document.materialize_partial_defaults("Mode"),
        Err(JsonConversionError::SchemaIsNotStruct {
            name: "Mode".into()
        })
    );
    assert_eq!(
        document.schema_descriptor("Missing"),
        Err(JsonConversionError::SchemaNotFound {
            name: "Missing".into()
        })
    );
}

#[test]
fn enum_descriptor_lists_variants_and_payload_labels() {
    let source = "Shape: enum {\n  empty\n  circle: u8\n  group: List<Map<Hex>>\n}\n";
    let parsed = fon_parser::parse(source);
    assert!(!parsed.has_errors(), "{:?}", parsed.diagnostics);

    let descriptor = parsed
        .document
        .schema_descriptor("Shape")
        .expect("enum should export");
    assert_eq!(descriptor.name, "Shape");
    assert_eq!(descriptor.kind, "enum");
    assert!(descriptor.fields.is_empty());
    assert_eq!(
        descriptor.variants,
        vec![
            SchemaVariantDescriptor {
                name: "empty".into(),
                type_label: None,
            },
            SchemaVariantDescriptor {
                name: "circle".into(),
                type_label: Some("u8".into()),
            },
            SchemaVariantDescriptor {
                name: "group".into(),
                type_label: Some("List<Map<Hex>>".into()),
            },
        ]
    );
}

#[test]
fn array_roots_declare_no_schema() {
    let document = fon_parser::parse("[1, 2]").document;
    assert_eq!(
        document.schema_descriptor("Anything"),
        Err(JsonConversionError::SchemaNotFound {
            name: "Anything".into()
        })
    );
}

#[test]
fn json_text_escapes_quotes_and_control_characters() {
    let source = "note = `say \"hi\"\\\\ \t done`";
    let parsed = fon_parser::parse(source);
    let text = parsed.to_json_string();
    assert!(text.is_ok(), "{:?}", parsed.diagnostics);
    let text = text.unwrap();
    assert!(text.starts_with(r#"{"note":"say \"hi\""#), "{text}");
    assert!(text.contains(r"\t"), "{text}");
}

#[test]
fn parse_result_with_diagnostics_reports_them_all() {
    let parsed = fon_parser::parse("broken");
    assert!(parsed.has_errors());
    match parsed.to_json_value() {
        Err(JsonConversionError::ParseDiagnostics { diagnostics }) => {
            assert_eq!(diagnostics, parsed.diagnostics);
        }
        other => panic!("unexpected result: {other:?}"),
    }
}

#[test]
fn numbers_are_written_in_their_json_form() {
    assert_eq!(
        parse_to_json_value("[0.50, 10]"),
        Ok(JsonValue::Array(vec![number("0.5"), number("10")]))
    );
    assert_eq!(
        to_json_string("[0.50, 10]").expect("numbers should serialize"),
        "[0.5,10]"
    );
    assert_eq!(
        parse_to_json_value("[007]"),
        Err(JsonConversionError::InvalidNumber { raw: "007".into() })
    );
}

#[test]
fn unknown_atoms_and_enum_paths_become_strings() {
    assert_eq!(
        parse_to_json_value("mode = .dark
size = 1e3"),
        Ok(JsonValue::Object(vec![
            entry("mode", text("dark")),
            entry("size", text("1e3")),
        ]))
    );
}

#[test]
fn conversion_errors_read_as_messages() {
    assert_eq!(
        JsonConversionError::DuplicateKey { key: "name".into() }.message(),
        "duplicate object key: name"
    );
    assert_eq!(
        JsonConversionError::UnsupportedValue {
            kind: fon_parser::ValueKind::Regex
        }
        .message(),
        "FON value kind Regex is not supported as business JSON"
    );
    assert_eq!(
        JsonConversionError::InvalidReference {
            kind: "member",
            id: 120
        }
        .message(),
        "invalid member reference: 120"
    );
    assert_eq!(
        JsonConversionError::UnsupportedInterpolation {
            span: fon_parser::Span { start: 8, end: 14 }
        }
        .message(),
        "string interpolation cannot be materialized at bytes 8..14"
    );
    assert_eq!(
        JsonConversionError::MissingRequiredField {
            schema: "AppAppearance".into(),
            field: "mode".into(),
        }
        .message(),
        "required field mode in schema AppAppearance has no default value"
    );
    let parsed = fon_parser::parse("broken");
    let count = parsed.diagnostics.len();
    match parsed.to_json_value() {
        Err(error) => assert_eq!(
            error.message(),
            format!("FON source contains {count} diagnostic(s)")
        ),
        Ok(value) => panic!("unexpected value: {value:?}"),
    }
}
