use vstd::prelude::*;
use vstd::string::StringSliceAdditionalSpecFns;

use crate::ast::{
    lemma_wf_reveal, member_key_of, value_kind_of, Ast, Document, EnumVariant, Member, MemberId,
    ParseResult, Root, Schema, SchemaId, SchemaKind, StringPart, StringPartKind, StringValue, StructField,
    TypeExpr, TypeId, Value, ValueId, ValueKind,
};
use crate::diagnostic::{copy_diagnostics, diags_view, Diagnostic};
use crate::span::Span;
use crate::{default_options, parse_outcome};
use crate::text::{boundary, char_at, char_width, decode_char, lemma_text_step, push_char, push_str, text_of};

verus! {

// ---------------------------------------------------------------------------
// Business JSON values
// ---------------------------------------------------------------------------

/// A JSON value. Object members are kept sorted by the bytes of their keys,
/// each key once; a number holds its canonical JSON text.
#[derive(Debug, PartialEq, Eq)]
pub enum JsonValue {
    Null,
    Bool(bool),
    Number(String),
    String(String),
    Array(Vec<JsonValue>),
    Object(Vec<(String, JsonValue)>),
}

/// Errors raised while converting parsed FON data into business JSON.
#[derive(Debug, Clone, PartialEq, Eq)]
pub enum JsonConversionError {
    /// The source parsed with diagnostics and cannot be materialized strictly.
    ParseDiagnostics { diagnostics: Vec<Diagnostic> },
    /// A numeric literal is not representable as a JSON number.
    InvalidNumber { raw: String },
    /// A string contains interpolation that standalone FON cannot evaluate.
    UnsupportedInterpolation { span: Span },
    /// A value has no lossless business-JSON representation under this policy.
    UnsupportedValue { kind: ValueKind },
    /// A member kind cannot be represented as a data-object property.
    UnsupportedMember { kind: &'static str },
    /// A referenced AST node does not exist.
    InvalidReference { kind: &'static str, id: u32 },
    /// A business object contains duplicate keys.
    DuplicateKey { key: String },
    /// The requested named schema does not exist in the document root.
    SchemaNotFound { name: String },
    /// The requested schema is not a struct and cannot produce object defaults.
    SchemaIsNotStruct { name: String },
    /// A required struct field has no default value.
    MissingRequiredField { schema: String, field: String },
    /// JSON string serialization failed unexpectedly.
    Serialization(String),
}

/// A business-facing description of a parsed FON schema.
#[derive(Debug, PartialEq)]
pub struct SchemaDescriptor {
    /// The declaration name from the FON document.
    pub name: String,
    /// A stable lower-case schema kind such as `struct` or `enum`.
    pub kind: String,
    /// Struct fields in source order.
    pub fields: Vec<SchemaFieldDescriptor>,
    /// Enum variants in source order.
    pub variants: Vec<SchemaVariantDescriptor>,
}

/// A business-facing description of one struct field.
#[derive(Debug, PartialEq)]
pub struct SchemaFieldDescriptor {
    /// The original FON field key, including punctuation such as `primary-color`.
    pub name: String,
    /// The rendered type expression, if declared or inferred from a default value.
    pub type_label: Option<String>,
    /// The materialized default, if the field declares one.
    pub default: Option<JsonValue>,
    /// Whether the field has no default and therefore requires an input value.
    pub required: bool,
}

/// A business-facing description of one enum variant.
#[derive(Debug, Clone, PartialEq, Eq)]
pub struct SchemaVariantDescriptor {
    /// The original FON variant name.
    pub name: String,
    /// The payload type, if the variant declares one.
    pub type_label: Option<String>,
}

// ---------------------------------------------------------------------------
// JSON text
// ---------------------------------------------------------------------------

/// The lower-case hexadecimal digit for `d < 16`.
pub open spec fn hex_digit(d: u32) -> char {
    seq!['0', '1', '2', '3', '4', '5', '6', '7', '8', '9', 'a', 'b', 'c', 'd', 'e', 'f'][d as int]
}

/// How a JSON string writes one character: quote, reverse solidus and the
/// control characters escaped, every other character as itself.
pub open spec fn escape_char(c: char) -> Seq<char> {
    if c == '"' {
        seq!['\\', '"']
    } else if c == '\\' {
        seq!['\\', '\\']
    } else if c == '\u{8}' {
        seq!['\\', 'b']
    } else if c == '\t' {
        seq!['\\', 't']
    } else if c == '\n' {
        seq!['\\', 'n']
    } else if c == '\u{c}' {
        seq!['\\', 'f']
    } else if c == '\r' {
        seq!['\\', 'r']
    } else if (c as u32) < 0x20 {
        seq!['\\', 'u', '0', '0', hex_digit((c as u32) / 16), hex_digit((c as u32) % 16)]
    } else {
        seq![c]
    }
}

/// The escaped characters of a JSON string.
pub open spec fn escaped(s: Seq<char>) -> Seq<char>
    decreases s.len(),
{
    if s.len() == 0 {
        Seq::empty()
    } else {
        escaped(s.drop_last()) + escape_char(s.last())
    }
}

/// A JSON string literal.
pub open spec fn quoted(s: Seq<char>) -> Seq<char> {
    seq!['"'] + escaped(s) + seq!['"']
}

/// The compact JSON text of a value.
pub open spec fn json_text(v: JsonValue) -> Seq<char>
    decreases v,
{
    match v {
        JsonValue::Null => "null"@,
        JsonValue::Bool(b) => if b {
            "true"@
        } else {
            "false"@
        },
        JsonValue::Number(n) => n@,
        JsonValue::String(s) => quoted(s@),
        JsonValue::Array(items) => seq!['['] + items_json_text(items@) + seq![']'],
        JsonValue::Object(members) => seq!['{'] + members_json_text(members@) + seq!['}'],
    }
}

/// Items separated by commas.
pub open spec fn items_json_text(items: Seq<JsonValue>) -> Seq<char>
    decreases items,
{
    if items.len() == 0 {
        Seq::empty()
    } else {
        items_json_text(items.drop_last()) + (if items.len() > 1 {
            seq![',']
        } else {
            Seq::empty()
        }) + json_text(items.last())
    }
}

/// Members as `"key":value`, separated by commas.
pub open spec fn members_json_text(members: Seq<(String, JsonValue)>) -> Seq<char>
    decreases members,
{
    if members.len() == 0 {
        Seq::empty()
    } else {
        members_json_text(members.drop_last()) + (if members.len() > 1 {
            seq![',']
        } else {
            Seq::empty()
        }) + quoted(members.last().0@) + seq![':'] + json_text(members.last().1)
    }
}

// ---------------------------------------------------------------------------
// Reading JSON text back
// ---------------------------------------------------------------------------

/// The value of a hexadecimal digit of a JSON `\u` escape.
pub open spec fn hex_value(c: char) -> Option<int> {
    let x = c as u32;
    if 0x30 <= x <= 0x39 {
        Some(x - 0x30)
    } else if 0x61 <= x <= 0x66 {
        Some(x - 0x61 + 10)
    } else if 0x41 <= x <= 0x46 {
        Some(x - 0x41 + 10)
    } else {
        None
    }
}

/// The character that a two-character JSON escape `\e` stands for.
pub open spec fn short_escape(e: char) -> Option<char> {
    if e == '"' {
        Some('"')
    } else if e == '\\' {
        Some('\\')
    } else if e == '/' {
        Some('/')
    } else if e == 'b' {
        Some('\u{8}')
    } else if e == 'f' {
        Some('\u{c}')
    } else if e == 'n' {
        Some('\n')
    } else if e == 'r' {
        Some('\r')
    } else if e == 't' {
        Some('\t')
    } else {
        None
    }
}

/// `c` in front of what reading the rest gave, if it gave anything.
pub open spec fn prepend(c: char, rest: Option<Seq<char>>) -> Option<Seq<char>> {
    match rest {
        Some(r) => Some(seq![c] + r),
        None => None,
    }
}

/// The characters that the body of a JSON string literal, read from the
/// front, stands for: escapes decoded, an unescaped quote or control
/// character refused.
pub open spec fn json_unescape(t: Seq<char>) -> Option<Seq<char>>
    decreases t.len(),
{
    if t.len() == 0 {
        Some(Seq::empty())
    } else if t[0] == '\\' {
        if t.len() < 2 {
            None
        } else if t[1] == 'u' {
            if t.len() < 6 {
                None
            } else {
                match (hex_value(t[2]), hex_value(t[3]), hex_value(t[4]), hex_value(t[5])) {
                    (Some(a), Some(b), Some(c), Some(d)) => {
                        let v = ((a * 16 + b) * 16 + c) * 16 + d;
                        if 0xD800 <= v <= 0xDFFF {
                            None
                        } else {
                            prepend((v as u32) as char, json_unescape(t.subrange(6, t.len() as int)))
                        }
                    },
                    _ => None,
                }
            }
        } else {
            match short_escape(t[1]) {
                Some(c) => prepend(c, json_unescape(t.subrange(2, t.len() as int))),
                None => None,
            }
        }
    } else if t[0] == '"' || (t[0] as u32) < 0x20 {
        None
    } else {
        prepend(t[0], json_unescape(t.subrange(1, t.len() as int)))
    }
}

/// The characters of a JSON string literal: its body between the quotes,
/// read back.
pub open spec fn json_string_read(t: Seq<char>) -> Option<Seq<char>> {
    if t.len() >= 2 && t[0] == '"' && t.last() == '"' {
        json_unescape(t.subrange(1, t.len() - 1))
    } else {
        None
    }
}

/// The truth value that a JSON literal stands for.
pub open spec fn json_bool_read(t: Seq<char>) -> Option<bool> {
    if t == "true"@ {
        Some(true)
    } else if t == "false"@ {
        Some(false)
    } else {
        None
    }
}

proof fn lemma_hex_round_trip(d: u32)
    requires
        d < 16,
    ensures
        hex_value(hex_digit(d)) == Some(d as int),
{
    let digits = seq!['0', '1', '2', '3', '4', '5', '6', '7', '8', '9', 'a', 'b', 'c', 'd', 'e', 'f'];
    assert(hex_digit(d) == digits[d as int]);
    if d == 0 {
    } else if d == 1 {
    } else if d == 2 {
    } else if d == 3 {
    } else if d == 4 {
    } else if d == 5 {
    } else if d == 6 {
    } else if d == 7 {
    } else if d == 8 {
    } else if d == 9 {
    } else if d == 10 {
    } else if d == 11 {
    } else if d == 12 {
    } else if d == 13 {
    } else if d == 14 {
    } else {
    }
}

proof fn lemma_escaped_concat(a: Seq<char>, b: Seq<char>)
    ensures
        escaped(a + b) == escaped(a) + escaped(b),
    decreases b.len(),
{
    if b.len() == 0 {
        assert(a + b =~= a);
        assert(escaped(a) + escaped(b) =~= escaped(a));
    } else {
        assert((a + b).drop_last() =~= a + b.drop_last());
        assert((a + b).last() == b.last());
        lemma_escaped_concat(a, b.drop_last());
        assert(escaped(a) + escaped(b.drop_last()) + escape_char(b.last()) =~= escaped(a) + (escaped(
            b.drop_last(),
        ) + escape_char(b.last())));
    }
}

proof fn lemma_unescape_char(c: char, u: Seq<char>)
    ensures
        json_unescape(escape_char(c) + u) == prepend(c, json_unescape(u)),
{
    let t = escape_char(c) + u;
    if c == '"' || c == '\\' || c == '\u{8}' || c == '\t' || c == '\n' || c == '\u{c}' || c == '\r' {
        assert(t.subrange(2, t.len() as int) =~= u);
    } else if (c as u32) < 0x20 {
        let x = c as u32;
        lemma_hex_round_trip(x / 16);
        lemma_hex_round_trip(x % 16);
        assert(hex_value('0') == Some(0int));
        assert(t.subrange(6, t.len() as int) =~= u);
        let v = ((0int * 16 + 0) * 16 + (x / 16) as int) * 16 + (x % 16) as int;
        assert(v == x as int);
        vstd::utf8::char_u32_cast(c, x);
        assert((v as u32) as char == c);
    } else {
        assert(t.subrange(1, t.len() as int) =~= u);
    }
}

proof fn lemma_unescape_escaped(s: Seq<char>)
    ensures
        json_unescape(escaped(s)) == Some(s),
    decreases s.len(),
{
    if s.len() > 0 {
        lemma_escaped_concat(seq![s[0]], s.drop_first());
        assert(seq![s[0]] + s.drop_first() =~= s);
        let one = seq![s[0]];
        assert(one.drop_last() =~= Seq::<char>::empty());
        assert(escaped(one.drop_last()) == Seq::<char>::empty());
        assert(escaped(one) == escaped(one.drop_last()) + escape_char(one.last()));
        assert(escaped(one) =~= escape_char(s[0]));
        lemma_unescape_char(s[0], escaped(s.drop_first()));
        lemma_unescape_escaped(s.drop_first());
        assert(seq![s[0]] + s.drop_first() =~= s);
    }
}

/// The JSON text of a string reads back as that string.
pub proof fn lemma_string_read_back(s: Seq<char>)
    ensures
        json_string_read(quoted(s)) == Some(s),
{
    let q = quoted(s);
    assert(q.subrange(1, q.len() - 1) =~= escaped(s));
    lemma_unescape_escaped(s);
}

// ---------------------------------------------------------------------------
// Materialization
// ---------------------------------------------------------------------------

/// Names the canonical JSON text of the number that serde_json reads from
/// `raw`, or nothing when it reads none.
pub uninterp spec fn json_number_of(raw: Seq<char>) -> Option<Seq<char>>;

/// `serde_json::Number::from_str`: the number serde_json reads from `raw`,
/// converted to its canonical JSON text by the number's `Display`; nothing
/// when serde_json reads no number. Both are named, not stated.
#[verifier::external_body]
fn json_number(raw: &str) -> (r: Option<String>)
    ensures
        match r {
            Some(t) => json_number_of(raw@) == Some(t@),
            None => json_number_of(raw@) is None,
        },
{
    match raw.parse::<serde_json::Number>() {
        Ok(number) => Some(number.to_string()),
        Err(_) => None,
    }
}

/// An enum path without its leading `.`.
pub open spec fn enum_text(path: Seq<char>) -> Seq<char> {
    if path.len() > 0 && path[0] == '.' {
        path.subrange(1, path.len() as int)
    } else {
        path
    }
}

/// A string part that materializes: a text part whose span is a range of
/// the source between character boundaries.
pub open spec fn part_ok(src: Seq<u8>, part: StringPart) -> bool {
    &&& part.kind == StringPartKind::Text
    &&& part.span.start <= part.span.end <= src.len()
    &&& boundary(src, part.span.start as int)
    &&& boundary(src, part.span.end as int)
}

pub open spec fn parts_ok(src: Seq<u8>, parts: Seq<StringPart>) -> bool {
    forall|k: int| 0 <= k < parts.len() ==> part_ok(src, #[trigger] parts[k])
}

/// The texts of the parts, in order.
pub open spec fn parts_text(src: Seq<u8>, parts: Seq<StringPart>) -> Seq<char>
    decreases parts.len(),
{
    if parts.len() == 0 {
        Seq::empty()
    } else {
        parts_text(src, parts.drop_last()) + text_of(
            src,
            parts.last().span.start as int,
            parts.last().span.end as int,
        )
    }
}

/// The first part that does not materialize.
pub open spec fn first_bad_part(src: Seq<u8>, parts: Seq<StringPart>) -> int {
    choose|k: int|
        0 <= k < parts.len() && !part_ok(src, #[trigger] parts[k]) && forall|j: int|
            0 <= j < k ==> part_ok(src, #[trigger] parts[j])
}

/// The error for a part that does not materialize: an interpolation, or a
/// span that is no range of the source.
pub open spec fn part_error(part: StringPart, e: JsonConversionError) -> bool {
    if part.kind == StringPartKind::Interpolation {
        e == JsonConversionError::UnsupportedInterpolation { span: part.span }
    } else {
        e matches JsonConversionError::InvalidReference { kind, id } && kind@ == "string span"@
            && id == part.span.start
    }
}

/// The key of a member appears on an earlier member of `ids` too.
pub open spec fn key_repeated(ast: Ast, ids: Seq<MemberId>, k: int) -> bool {
    exists|i: int|
        0 <= i < k && #[trigger] member_key_of(ast.members_view()[ids[i].0 as int]) == member_key_of(
            ast.members_view()[ids[k].0 as int],
        )
}

/// Whether value `id` materializes as JSON within `fuel` levels of nesting.
pub open spec fn value_ok(ast: Ast, src: Seq<u8>, id: ValueId, fuel: nat) -> bool
    decreases fuel,
{
    if fuel == 0 || id.0 >= ast.values_view().len() {
        false
    } else {
        match ast.values_view()[id.0 as int] {
            Value::Boolean { .. } => true,
            Value::Number { raw, .. } => json_number_of(raw@) is Some,
            Value::String(v) => parts_ok(src, v.parts@),
            Value::EnumPath(_) => true,
            Value::Unknown(_) => true,
            Value::Array(a) => forall|k: int|
                0 <= k < a.items@.len() ==> value_ok(ast, src, #[trigger] a.items@[k], (fuel - 1) as nat),
            Value::Object(o) => forall|k: int|
                #![trigger o.members@[k]]
                0 <= k < o.members@.len() ==> {
                    &&& o.members@[k].0 < ast.members_view().len()
                    &&& ast.members_view()[o.members@[k].0 as int] is Binding
                    &&& value_ok(
                        ast,
                        src,
                        ast.members_view()[o.members@[k].0 as int]->Binding_0.value,
                        (fuel - 1) as nat,
                    )
                    &&& !key_repeated(ast, o.members@, k)
                },
            _ => false,
        }
    }
}

/// A member that materializes: a binding whose value does.
pub open spec fn member_ok(ast: Ast, src: Seq<u8>, id: MemberId, fuel: nat) -> bool {
    &&& id.0 < ast.members_view().len()
    &&& ast.members_view()[id.0 as int] is Binding
    &&& value_ok(ast, src, ast.members_view()[id.0 as int]->Binding_0.value, fuel)
}

/// Member `k` of `ids` is where materializing the object stops: it does not
/// materialize, or an earlier member has its key.
pub open spec fn fails_at(ast: Ast, src: Seq<u8>, ids: Seq<MemberId>, k: int, fuel: nat) -> bool {
    !member_ok(ast, src, ids[k], fuel) || key_repeated(ast, ids, k)
}

/// Every member materializes and no two share a key.
pub open spec fn members_ok(ast: Ast, src: Seq<u8>, ids: Seq<MemberId>, fuel: nat) -> bool {
    forall|k: int| 0 <= k < ids.len() ==> !#[trigger] fails_at(ast, src, ids, k, fuel)
}

/// The first member where materializing the object stops.
pub open spec fn first_failure(ast: Ast, src: Seq<u8>, ids: Seq<MemberId>, fuel: nat) -> int {
    choose|k: int|
        0 <= k < ids.len() && fails_at(ast, src, ids, k, fuel) && forall|j: int|
            0 <= j < k ==> !#[trigger] fails_at(ast, src, ids, j, fuel)
}

/// The first item that does not materialize.
pub open spec fn first_bad_item(ast: Ast, src: Seq<u8>, items: Seq<ValueId>, fuel: nat) -> int {
    choose|k: int|
        0 <= k < items.len() && !value_ok(ast, src, #[trigger] items[k], fuel) && forall|j: int|
            0 <= j < k ==> value_ok(ast, src, #[trigger] items[j], fuel)
}

/// The position of the entry with `key`.
pub open spec fn key_index(entries: Seq<(String, JsonValue)>, key: Option<Seq<char>>) -> int {
    choose|e: int| 0 <= e < entries.len() && Some((#[trigger] entries[e]).0@) == key
}

/// Every member of `ids` has the entry with its key, and that entry holds
/// what materializing its value yields with `fuel`.
pub open spec fn entries_hold(
    ast: Ast,
    src: Seq<u8>,
    ids: Seq<MemberId>,
    n: int,
    entries: Seq<(String, JsonValue)>,
    fuel: nat,
) -> bool {
    forall|k: int|
        #![trigger ids[k]]
        0 <= k < n ==> {
            let key = member_key_of(ast.members_view()[ids[k].0 as int]);
            let e = key_index(entries, key);
            &&& 0 <= e < entries.len()
            &&& Some(entries[e].0@) == key
            &&& value_json(ast, src, ast.members_view()[ids[k].0 as int]->Binding_0.value, Ok(entries[e].1), fuel)
        }
}

/// The keys of `entries` rise strictly in the order of their bytes.
pub open spec fn keys_sorted(entries: Seq<(String, JsonValue)>) -> bool {
    forall|i: int, j: int|
        0 <= i < j < entries.len() ==> bytes_less(
            vstd::utf8::encode_utf8((#[trigger] entries[i]).0@),
            vstd::utf8::encode_utf8((#[trigger] entries[j]).0@),
        )
}

/// Lexicographic order of byte strings.
pub open spec fn bytes_less(a: Seq<u8>, b: Seq<u8>) -> bool
    decreases a.len(),
{
    if a.len() == 0 {
        b.len() > 0
    } else if b.len() == 0 {
        false
    } else if a[0] != b[0] {
        a[0] < b[0]
    } else {
        bytes_less(a.drop_first(), b.drop_first())
    }
}

/// The error of member `id`, where materializing its object stops; its value
/// materializes with `fuel`.
pub open spec fn member_error(
    ast: Ast,
    src: Seq<u8>,
    id: MemberId,
    e: JsonConversionError,
    fuel: nat,
) -> bool {
    if id.0 >= ast.members_view().len() {
        e matches JsonConversionError::InvalidReference { kind, id: i } && kind@ == "member"@ && i
            == id.0
    } else {
        match ast.members_view()[id.0 as int] {
            Member::TypeDeclaration(_) => e matches JsonConversionError::UnsupportedMember { kind }
                && kind@ == "type declaration"@,
            Member::Error(_) => e matches JsonConversionError::UnsupportedMember { kind } && kind@
                == "error"@,
            Member::Binding(b) => !value_ok(ast, src, b.value, fuel) || (e matches JsonConversionError::DuplicateKey {
                key,
            } && key@ == b.key.raw@),
        }
    }
}

/// `r` is what materializing value `id` of `ast`, whose source bytes are
/// `src`, yields: literals and atoms as JSON scalars and strings, arrays item
/// by item, objects with their keys sorted; the first failure otherwise.
pub open spec fn value_json(
    ast: Ast,
    src: Seq<u8>,
    id: ValueId,
    r: Result<JsonValue, JsonConversionError>,
    fuel: nat,
) -> bool
    decreases fuel,
{
    if fuel == 0 {
        false
    } else if id.0 >= ast.values_view().len() {
        r matches Err(JsonConversionError::InvalidReference { kind, id: i }) && kind@ == "value"@ && i
            == id.0
    } else {
        let v = ast.values_view()[id.0 as int];
        let inner = (fuel - 1) as nat;
        match v {
            Value::Boolean { value, .. } => r == Ok::<JsonValue, JsonConversionError>(
                JsonValue::Bool(value),
            ),
            Value::Number { raw, .. } => match json_number_of(raw@) {
                Some(t) => r matches Ok(JsonValue::Number(n)) && n@ == t,
                None => r matches Err(JsonConversionError::InvalidNumber { raw: x }) && x@ == raw@,
            },
            Value::String(sv) => if parts_ok(src, sv.parts@) {
                r matches Ok(JsonValue::String(x)) && x@ == parts_text(src, sv.parts@)
            } else {
                r matches Err(e) && part_error(sv.parts@[first_bad_part(src, sv.parts@)], e)
            },
            Value::EnumPath(ev) => r matches Ok(JsonValue::String(x)) && x@ == enum_text(ev.path@),
            Value::Unknown(u) => r matches Ok(JsonValue::String(x)) && x@ == u.raw@,
            Value::Array(a) => if forall|k: int|
                0 <= k < a.items@.len() ==> value_ok(ast, src, #[trigger] a.items@[k], inner) {
                match r {
                    Ok(JsonValue::Array(vs)) => {
                        &&& vs@.len() == a.items@.len()
                        &&& forall|k: int|
                            0 <= k < vs@.len() ==> value_json(ast, src, a.items@[k], Ok(#[trigger] vs@[k]), inner)
                    },
                    _ => false,
                }
            } else {
                r matches Err(e) && value_json(
                    ast,
                    src,
                    a.items@[first_bad_item(ast, src, a.items@, inner)],
                    Err(e),
                    inner,
                )
            },
            Value::Object(o) => {
                let ids = o.members@;
                if members_ok(ast, src, ids, inner) {
                    match r {
                        Ok(JsonValue::Object(entries)) => {
                            &&& entries@.len() == ids.len()
                            &&& keys_sorted(entries@)
                            &&& forall|k: int|
                                #![trigger ids[k]]
                                0 <= k < ids.len() ==> {
                                    let key = member_key_of(ast.members_view()[ids[k].0 as int]);
                                    let e = key_index(entries@, key);
                                    &&& 0 <= e < entries@.len()
                                    &&& Some(entries@[e].0@) == key
                                    &&& value_json(
                                        ast,
                                        src,
                                        ast.members_view()[ids[k].0 as int]->Binding_0.value,
                                        Ok(entries@[e].1),
                                        inner,
                                    )
                                }
                        },
                        _ => false,
                    }
                } else {
                    let b = first_failure(ast, src, ids, inner);
                    let mid = ids[b];
                    &&& r matches Err(e)
                    &&& member_error(ast, src, mid, r->Err_0, inner)
                    &&& (mid.0 < ast.members_view().len() && ast.members_view()[mid.0 as int] is Binding
                        && !value_ok(ast, src, ast.members_view()[mid.0 as int]->Binding_0.value, inner))
                        ==> value_json(
                        ast,
                        src,
                        ast.members_view()[mid.0 as int]->Binding_0.value,
                        r,
                        inner,
                    )
                }
            },
            _ => r == Err::<JsonValue, JsonConversionError>(
                JsonConversionError::UnsupportedValue { kind: value_kind_of(v) },
            ),
        }
    }
}

/// `r` is what materializing the values `items` as one array yields, each
/// with `fuel`.
pub open spec fn array_json(
    ast: Ast,
    src: Seq<u8>,
    items: Seq<ValueId>,
    r: Result<JsonValue, JsonConversionError>,
    fuel: nat,
) -> bool {
    if forall|k: int| 0 <= k < items.len() ==> value_ok(ast, src, #[trigger] items[k], fuel) {
        match r {
            Ok(JsonValue::Array(vs)) => {
                &&& vs@.len() == items.len()
                &&& forall|k: int|
                    0 <= k < vs@.len() ==> value_json(ast, src, items[k], Ok(#[trigger] vs@[k]), fuel)
            },
            _ => false,
        }
    } else {
        r matches Err(e) && value_json(ast, src, items[first_bad_item(ast, src, items, fuel)], Err(e), fuel)
    }
}

/// `r` is what materializing the members `ids` as one object yields, their
/// values each with `fuel`.
pub open spec fn object_json(
    ast: Ast,
    src: Seq<u8>,
    ids: Seq<MemberId>,
    r: Result<JsonValue, JsonConversionError>,
    fuel: nat,
) -> bool {
    if members_ok(ast, src, ids, fuel) {
        match r {
            Ok(JsonValue::Object(entries)) => {
                &&& entries@.len() == ids.len()
                &&& keys_sorted(entries@)
                &&& entries_hold(ast, src, ids, ids.len() as int, entries@, fuel)
            },
            _ => false,
        }
    } else {
        let b = first_failure(ast, src, ids, fuel);
        let mid = ids[b];
        &&& r matches Err(e)
        &&& member_error(ast, src, mid, r->Err_0, fuel)
        &&& (mid.0 < ast.members_view().len() && ast.members_view()[mid.0 as int] is Binding && !value_ok(
            ast,
            src,
            ast.members_view()[mid.0 as int]->Binding_0.value,
            fuel,
        )) ==> value_json(ast, src, ast.members_view()[mid.0 as int]->Binding_0.value, r, fuel)
    }
}

/// `r` is what materializing the root of `ast` yields: its members as one
/// object, or its items as one array.
pub open spec fn root_json(ast: Ast, src: Seq<u8>, r: Result<JsonValue, JsonConversionError>) -> bool {
    match ast.root_view() {
        Root::Array { items } => array_json(ast, src, items@, r, ast.node_bound()),
        _ => object_json(ast, src, ast.root_members(), r, ast.node_bound()),
    }
}

// ---------------------------------------------------------------------------
// Facts about the order of keys
// ---------------------------------------------------------------------------

proof fn lemma_bytes_less_irreflexive(a: Seq<u8>)
    ensures
        !bytes_less(a, a),
    decreases a.len(),
{
    if a.len() > 0 {
        lemma_bytes_less_irreflexive(a.drop_first());
    }
}

proof fn lemma_bytes_less_total(a: Seq<u8>, b: Seq<u8>)
    requires
        a != b,
    ensures
        bytes_less(a, b) || bytes_less(b, a),
        !(bytes_less(a, b) && bytes_less(b, a)),
    decreases a.len(),
{
    if a.len() == 0 {
        assert(b.len() > 0) by {
            if b.len() == 0 {
                assert(a =~= b);
            }
        }
    } else if b.len() == 0 {
    } else if a[0] == b[0] {
        assert(a.drop_first() != b.drop_first()) by {
            if a.drop_first() == b.drop_first() {
                assert(a =~= seq![a[0]] + a.drop_first());
                assert(b =~= seq![b[0]] + b.drop_first());
            }
        }
        lemma_bytes_less_total(a.drop_first(), b.drop_first());
    }
}

proof fn lemma_bytes_less_trans(a: Seq<u8>, b: Seq<u8>, c: Seq<u8>)
    requires
        bytes_less(a, b),
        bytes_less(b, c),
    ensures
        bytes_less(a, c),
    decreases a.len(),
{
    if a.len() > 0 && b.len() > 0 && c.len() > 0 && a[0] == b[0] && b[0] == c[0] {
        lemma_bytes_less_trans(a.drop_first(), b.drop_first(), c.drop_first());
    }
}

/// Comparing from a common prefix on gives the same order.
proof fn lemma_bytes_less_skip(a: Seq<u8>, b: Seq<u8>, i: int)
    requires
        0 <= i <= a.len(),
        i <= b.len(),
        forall|j: int| 0 <= j < i ==> a[j] == b[j],
    ensures
        bytes_less(a, b) == bytes_less(
            a.subrange(i, a.len() as int),
            b.subrange(i, b.len() as int),
        ),
    decreases i,
{
    if i > 0 {
        lemma_bytes_less_skip(a.drop_first(), b.drop_first(), i - 1);
        assert(a.drop_first().subrange(i - 1, a.len() - 1) =~= a.subrange(i, a.len() as int));
        assert(b.drop_first().subrange(i - 1, b.len() - 1) =~= b.subrange(i, b.len() as int));
    } else {
        assert(a.subrange(0, a.len() as int) =~= a);
        assert(b.subrange(0, b.len() as int) =~= b);
    }
}

/// Whether the bytes of `a` come before those of `b`.
fn key_less(a: &str, b: &str) -> (r: bool)
    ensures
        r == bytes_less(a.spec_bytes(), b.spec_bytes()),
{
    let x = a.as_bytes();
    let y = b.as_bytes();
    let mut i: usize = 0;
    while i < x.len() && i < y.len() && x[i] == y[i]
        invariant
            i <= x@.len(),
            i <= y@.len(),
            forall|j: int| 0 <= j < i ==> x@[j] == y@[j],
        decreases x@.len() - i,
    {
        i = i + 1;
    }
    proof {
        lemma_bytes_less_skip(x@, y@, i as int);
        let p = x@.subrange(i as int, x@.len() as int);
        let q = y@.subrange(i as int, y@.len() as int);
        if i < x@.len() && i < y@.len() {
            assert(p[0] == x@[i as int]);
            assert(q[0] == y@[i as int]);
        }
    }
    if i == x.len() {
        i < y.len()
    } else if i == y.len() {
        false
    } else {
        x[i] < y[i]
    }
}

/// Two texts are equal exactly when their encodings are.
proof fn lemma_encode_injective(a: Seq<char>, b: Seq<char>)
    ensures
        (vstd::utf8::encode_utf8(a) == vstd::utf8::encode_utf8(b)) == (a == b),
{
    vstd::utf8::encode_utf8_decode_utf8(a);
    vstd::utf8::encode_utf8_decode_utf8(b);
}

/// Add a member to an object whose keys are sorted, keeping them sorted; a
/// key that is already there is a duplicate.
fn insert_unique(object: &mut Vec<(String, JsonValue)>, key: String, value: JsonValue) -> (r: Result<
    (),
    JsonConversionError,
>)
    requires
        keys_sorted(old(object)@),
    ensures
        r is Ok <==> forall|e: int| 0 <= e < old(object)@.len() ==> (#[trigger] old(object)@[e]).0@ != key@,
        r is Err ==> final(object)@ == old(object)@,
        r is Err ==> (r matches Err(JsonConversionError::DuplicateKey { key: k }) && k@ == key@),
        r is Ok ==> {
            &&& keys_sorted(final(object)@)
            &&& exists|p: int| 0 <= p <= old(object)@.len() && final(object)@ == old(object)@.insert(p, (key, value))
        },
{
    let ghost old_entries = object@;
    let mut p: usize = 0;
    while p < object.len() && key_less(object[p].0.as_str(), key.as_str())
        invariant
            object@ == old_entries,
            keys_sorted(old_entries),
            p <= object@.len(),
            forall|e: int|
                0 <= e < p ==> bytes_less(
                    vstd::utf8::encode_utf8((#[trigger] object@[e]).0@),
                    vstd::utf8::encode_utf8(key@),
                ),
        decreases object@.len() - p,
    {
        p = p + 1;
    }
    let ghost kb = vstd::utf8::encode_utf8(key@);
    proof {
        assert forall|e: int| 0 <= e < p implies (#[trigger] object@[e]).0@ != key@ by {
            lemma_bytes_less_irreflexive(kb);
        }
    }
    if p < object.len() && object[p].0 == key {
        return Err(JsonConversionError::DuplicateKey { key });
    }
    proof {
        if p < object@.len() {
            let pb = vstd::utf8::encode_utf8(object@[p as int].0@);
            lemma_encode_injective(object@[p as int].0@, key@);
            lemma_bytes_less_total(pb, kb);
            assert forall|e: int| p <= e < object@.len() implies bytes_less(
                kb,
                vstd::utf8::encode_utf8((#[trigger] object@[e]).0@),
            ) by {
                if e > p {
                    lemma_bytes_less_trans(kb, pb, vstd::utf8::encode_utf8(object@[e].0@));
                }
            }
            assert forall|e: int| p <= e < object@.len() implies (#[trigger] object@[e]).0@ != key@ by {
                lemma_bytes_less_irreflexive(kb);
            }
        }
    }
    let ghost entry = (key, value);
    object.insert(p, (key, value));
    proof {
        let n = object@;
        assert(n == old_entries.insert(p as int, entry));
        assert forall|i: int, j: int| 0 <= i < j < n.len() implies bytes_less(
            vstd::utf8::encode_utf8((#[trigger] n[i]).0@),
            vstd::utf8::encode_utf8((#[trigger] n[j]).0@),
        ) by {
            if j < p {
                assert(n[i] == old_entries[i] && n[j] == old_entries[j]);
            } else if j == p {
                assert(n[i] == old_entries[i]);
            } else if i == p {
                assert(n[j] == old_entries[j - 1]);
            } else if i < p {
                assert(n[i] == old_entries[i] && n[j] == old_entries[j - 1]);
            } else {
                assert(n[i] == old_entries[i - 1] && n[j] == old_entries[j - 1]);
            }
        }
    }
    Ok(())
}

/// A materialization succeeds exactly when its value materializes.
proof fn lemma_value_json_ok(
    ast: Ast,
    src: Seq<u8>,
    id: ValueId,
    r: Result<JsonValue, JsonConversionError>,
    fuel: nat,
)
    requires
        value_json(ast, src, id, r, fuel),
    ensures
        r is Ok <==> value_ok(ast, src, id, fuel),
{
    if fuel > 0 && id.0 < ast.values_view().len() {
        if let Value::Object(o) = ast.values_view()[id.0 as int] {
            lemma_members_ok_inline(ast, src, o.members@, (fuel - 1) as nat);
        }
    }
}

/// The members of an object value materialize exactly when `members_ok` says so.
proof fn lemma_members_ok_inline(ast: Ast, src: Seq<u8>, ids: Seq<MemberId>, fuel: nat)
    ensures
        members_ok(ast, src, ids, fuel) == forall|k: int|
            #![trigger ids[k]]
            0 <= k < ids.len() ==> {
                &&& ids[k].0 < ast.members_view().len()
                &&& ast.members_view()[ids[k].0 as int] is Binding
                &&& value_ok(ast, src, ast.members_view()[ids[k].0 as int]->Binding_0.value, fuel)
                &&& !key_repeated(ast, ids, k)
            },
{
    if members_ok(ast, src, ids, fuel) {
        assert forall|k: int| #![trigger ids[k]] 0 <= k < ids.len() implies {
            &&& ids[k].0 < ast.members_view().len()
            &&& ast.members_view()[ids[k].0 as int] is Binding
            &&& value_ok(ast, src, ast.members_view()[ids[k].0 as int]->Binding_0.value, fuel)
            &&& !key_repeated(ast, ids, k)
        } by {
            assert(!fails_at(ast, src, ids, k, fuel));
        }
    }
}

/// The first text of a path and the rest of it.
proof fn lemma_first_char(bytes: Seq<u8>)
    requires
        vstd::utf8::valid_utf8(bytes),
        bytes.len() > 0,
    ensures
        boundary(bytes, char_width(bytes, 0)),
        vstd::utf8::decode_utf8(bytes) == seq![char_at(bytes, 0)] + text_of(
            bytes,
            char_width(bytes, 0),
            bytes.len() as int,
        ),
        bytes[0] < 0x80 ==> char_width(bytes, 0) == 1 && char_at(bytes, 0) as u32 == bytes[0] as u32,
        bytes[0] >= 0x80 ==> char_at(bytes, 0) as u32 >= 0x80,
{
    vstd::utf8::is_char_boundary_start_end_of_seq(bytes);
    crate::text::lemma_next_boundary(bytes, 0);
    lemma_text_step(bytes, 0);
    assert(text_of(bytes, 0, 0) =~= Seq::<char>::empty()) by {
        assert(bytes.subrange(0, 0) =~= Seq::<u8>::empty());
    }
    let w = char_width(bytes, 0);
    vstd::utf8::decode_utf8_split(bytes, w);
    assert(bytes.subrange(0, bytes.len() as int) =~= bytes);
}

/// An enum path without its leading `.`.
fn strip_dot(path: &str) -> (r: String)
    ensures
        r@ == enum_text(path@),
{
    let bytes = path.as_bytes();
    proof {
        vstd::utf8::encode_utf8_valid_utf8(path@);
        vstd::utf8::encode_utf8_decode_utf8(path@);
    }
    if bytes.len() > 0 {
        proof {
            lemma_first_char(bytes@);
        }
        if bytes[0] == 0x2eu8 {
            proof {
                vstd::utf8::is_char_boundary_start_end_of_seq(bytes@);
            }
            match crate::text::slice_str(path, 1, bytes.len()) {
                Some(rest) => {
                    proof {
                        assert(path@ == seq!['.'] + rest@);
                        assert(path@.subrange(1, path@.len() as int) =~= rest@);
                    }
                    return rest.to_owned();
                },
                None => {},
            }
        }
    }
    path.to_owned()
}

/// The entries hold the materialized members `0..k` of `ids`, and nothing else.
spec fn entries_cover(
    ast: Ast,
    src: Seq<u8>,
    ids: Seq<MemberId>,
    k: int,
    entries: Seq<(String, JsonValue)>,
    fuel: nat,
) -> bool {
    entries_hold(ast, src, ids, k, entries, fuel) && entries_from_members(ast, ids, k, entries)
}

/// Each entry has the key of one of the members `0..k` of `ids`.
spec fn entries_from_members(ast: Ast, ids: Seq<MemberId>, k: int, entries: Seq<(String, JsonValue)>) -> bool {
    forall|e: int|
        0 <= e < entries.len() ==> exists|j: int|
            0 <= j < k && Some((#[trigger] entries[e]).0@) == #[trigger] member_key_of(
                ast.members_view()[ids[j].0 as int],
            )
}

/// Member `k` is where materializing the object stops when it fails and no
/// earlier member does.
proof fn lemma_first_failure_is(ast: Ast, src: Seq<u8>, ids: Seq<MemberId>, k: int, fuel: nat)
    requires
        0 <= k < ids.len(),
        fails_at(ast, src, ids, k, fuel),
        forall|j: int| 0 <= j < k ==> !fails_at(ast, src, ids, j, fuel),
    ensures
        !members_ok(ast, src, ids, fuel),
        first_failure(ast, src, ids, fuel) == k,
{
    assert(members_ok(ast, src, ids, fuel) ==> !fails_at(ast, src, ids, k, fuel));
    let b = first_failure(ast, src, ids, fuel);
    assert(b == k) by {
        if b < k {
        } else if b > k {
        }
    }
}

/// A key that the entries of members `0..k` already hold makes member `k`
/// fail.
proof fn lemma_duplicate_fails(
    ast: Ast,
    src: Seq<u8>,
    ids: Seq<MemberId>,
    k: int,
    entries: Seq<(String, JsonValue)>,
    fuel: nat,
)
    requires
        0 <= k < ids.len(),
        entries_cover(ast, src, ids, k, entries, fuel),
        ast.members_view()[ids[k].0 as int] is Binding,
        exists|e: int|
            0 <= e < entries.len() && (#[trigger] entries[e]).0@ == ast.members_view()[ids[k].0 as int]->Binding_0.key.raw@,
    ensures
        fails_at(ast, src, ids, k, fuel),
{
    let e = choose|e: int|
        0 <= e < entries.len() && (#[trigger] entries[e]).0@ == ast.members_view()[ids[k].0 as int]->Binding_0.key.raw@;
    let j = choose|j: int|
        0 <= j < k && Some((#[trigger] entries[e]).0@) == #[trigger] member_key_of(
            ast.members_view()[ids[j].0 as int],
        );
    assert(member_key_of(ast.members_view()[ids[j].0 as int]) == member_key_of(
        ast.members_view()[ids[k].0 as int],
    ));
}

/// A member whose key no entry holds does not fail when it materializes.
proof fn lemma_fresh_key_ok(
    ast: Ast,
    src: Seq<u8>,
    ids: Seq<MemberId>,
    k: int,
    before: Seq<(String, JsonValue)>,
    key: Seq<char>,
    fuel: nat,
)
    requires
        0 <= k < ids.len(),
        entries_cover(ast, src, ids, k, before, fuel),
        ids[k].0 < ast.members_view().len(),
        ast.members_view()[ids[k].0 as int] is Binding,
        key == ast.members_view()[ids[k].0 as int]->Binding_0.key.raw@,
        value_ok(ast, src, ast.members_view()[ids[k].0 as int]->Binding_0.value, fuel),
        forall|e: int| 0 <= e < before.len() ==> (#[trigger] before[e]).0@ != key,
    ensures
        !fails_at(ast, src, ids, k, fuel),
{
    let mk = ast.members_view()[ids[k].0 as int];
    assert(member_ok(ast, src, ids[k], fuel));
    if key_repeated(ast, ids, k) {
        let i = choose|i: int|
            0 <= i < k && #[trigger] member_key_of(ast.members_view()[ids[i].0 as int]) == member_key_of(mk);
        assert(0 <= i < k);
        let e = key_index(before, member_key_of(ast.members_view()[ids[i].0 as int]));
        assert(before[e].0@ == key);
    }
}

/// Keys that rise strictly are distinct.
proof fn lemma_keys_unique(entries: Seq<(String, JsonValue)>, e1: int, e2: int)
    requires
        keys_sorted(entries),
        0 <= e1 < entries.len(),
        0 <= e2 < entries.len(),
        entries[e1].0@ == entries[e2].0@,
    ensures
        e1 == e2,
{
    if e1 < e2 {
        lemma_bytes_less_irreflexive(vstd::utf8::encode_utf8(entries[e1].0@));
    } else if e2 < e1 {
        lemma_bytes_less_irreflexive(vstd::utf8::encode_utf8(entries[e1].0@));
    }
}

/// Adding member `k` to the entries of members `0..k`: every member up to
/// `k` has its entry.
proof fn lemma_object_step(
    ast: Ast,
    src: Seq<u8>,
    ids: Seq<MemberId>,
    k: int,
    before: Seq<(String, JsonValue)>,
    after: Seq<(String, JsonValue)>,
    key: String,
    value: JsonValue,
    fuel: nat,
)
    requires
        0 <= k < ids.len(),
        entries_cover(ast, src, ids, k, before, fuel),
        keys_sorted(after),
        ids[k].0 < ast.members_view().len(),
        ast.members_view()[ids[k].0 as int] is Binding,
        key@ == ast.members_view()[ids[k].0 as int]->Binding_0.key.raw@,
        value_json(ast, src, ast.members_view()[ids[k].0 as int]->Binding_0.value, Ok(value), fuel),
        exists|p: int| 0 <= p <= before.len() && after == before.insert(p, (key, value)),
    ensures
        entries_cover(ast, src, ids, k + 1, after, fuel),
{
    let p = choose|p: int| 0 <= p <= before.len() && after == before.insert(p, (key, value));
    lemma_object_step_members(ast, src, ids, k, before, after, p, key, value, fuel);
    lemma_object_step_entries(ast, src, ids, k, before, after, p, key, value, fuel);
}

proof fn lemma_object_step_members(
    ast: Ast,
    src: Seq<u8>,
    ids: Seq<MemberId>,
    k: int,
    before: Seq<(String, JsonValue)>,
    after: Seq<(String, JsonValue)>,
    p: int,
    key: String,
    value: JsonValue,
    fuel: nat,
)
    requires
        0 <= k < ids.len(),
        entries_cover(ast, src, ids, k, before, fuel),
        keys_sorted(after),
        ids[k].0 < ast.members_view().len(),
        ast.members_view()[ids[k].0 as int] is Binding,
        key@ == ast.members_view()[ids[k].0 as int]->Binding_0.key.raw@,
        value_json(ast, src, ast.members_view()[ids[k].0 as int]->Binding_0.value, Ok(value), fuel),
        0 <= p <= before.len(),
        after == before.insert(p, (key, value)),
    ensures
        entries_hold(ast, src, ids, k + 1, after, fuel),
{
    before.insert_ensures(p, (key, value));
    assert forall|j: int| #![trigger ids[j]] 0 <= j < k + 1 implies {
        let kj = member_key_of(ast.members_view()[ids[j].0 as int]);
        let e = key_index(after, kj);
        &&& 0 <= e < after.len()
        &&& Some(after[e].0@) == kj
        &&& value_json(ast, src, ast.members_view()[ids[j].0 as int]->Binding_0.value, Ok(after[e].1), fuel)
    } by {
        let kj = member_key_of(ast.members_view()[ids[j].0 as int]);
        let at = if j == k {
            p
        } else {
            let e0 = key_index(before, kj);
            if e0 < p {
                e0
            } else {
                e0 + 1
            }
        };
        if j == k {
            assert(after[p] == (key, value));
        } else {
            let e0 = key_index(before, kj);
            assert(0 <= e0 < before.len() && Some(before[e0].0@) == kj);
            assert(after[at] == before[e0]);
        }
        assert(Some(after[at].0@) == kj);
        let e = key_index(after, kj);
        lemma_keys_unique(after, e, at);
    }
}

proof fn lemma_object_step_entries(
    ast: Ast,
    src: Seq<u8>,
    ids: Seq<MemberId>,
    k: int,
    before: Seq<(String, JsonValue)>,
    after: Seq<(String, JsonValue)>,
    p: int,
    key: String,
    value: JsonValue,
    fuel: nat,
)
    requires
        0 <= k < ids.len(),
        entries_cover(ast, src, ids, k, before, fuel),
        ids[k].0 < ast.members_view().len(),
        ast.members_view()[ids[k].0 as int] is Binding,
        key@ == ast.members_view()[ids[k].0 as int]->Binding_0.key.raw@,
        0 <= p <= before.len(),
        after == before.insert(p, (key, value)),
    ensures
        entries_from_members(ast, ids, k + 1, after),
{
    assert forall|e: int| 0 <= e < after.len() implies exists|j: int|
        0 <= j < k + 1 && Some((#[trigger] after[e]).0@) == #[trigger] member_key_of(
            ast.members_view()[ids[j].0 as int],
        ) by {
        before.insert_ensures(p, (key, value));
        if e == p {
            assert(Some(after[e].0@) == member_key_of(ast.members_view()[ids[k].0 as int]));
        } else if e < p {
            assert(after[e] == before[e]);
            let j = choose|j: int|
                0 <= j < k && Some((#[trigger] before[e]).0@) == #[trigger] member_key_of(
                    ast.members_view()[ids[j].0 as int],
                );
        } else {
            assert(after[e] == before[e - 1]);
            let j = choose|j: int|
                0 <= j < k && Some((#[trigger] before[e - 1]).0@) == #[trigger] member_key_of(
                    ast.members_view()[ids[j].0 as int],
                );
        }
    }
}

/// Once every member was added, the object is what materializing yields.
proof fn lemma_object_done(
    ast: Ast,
    src: Seq<u8>,
    ids: Seq<MemberId>,
    entries: Vec<(String, JsonValue)>,
    fuel: nat,
)
    requires
        entries@.len() == ids.len(),
        keys_sorted(entries@),
        forall|j: int| 0 <= j < ids.len() ==> !fails_at(ast, src, ids, j, fuel),
        entries_cover(ast, src, ids, ids.len() as int, entries@, fuel),
    ensures
        object_json(ast, src, ids, Ok(JsonValue::Object(entries)), fuel),
{
    assert(members_ok(ast, src, ids, fuel));
}

/// An array or object value materializes as its items or members do.
proof fn lemma_container_value(
    ast: Ast,
    src: Seq<u8>,
    id: ValueId,
    r: Result<JsonValue, JsonConversionError>,
    fuel: nat,
)
    requires
        fuel >= 1,
        id.0 < ast.values_view().len(),
        ast.values_view()[id.0 as int] matches Value::Array(a) ==> array_json(
            ast,
            src,
            a.items@,
            r,
            (fuel - 1) as nat,
        ),
        ast.values_view()[id.0 as int] matches Value::Object(o) ==> object_json(
            ast,
            src,
            o.members@,
            r,
            (fuel - 1) as nat,
        ),
        ast.values_view()[id.0 as int] is Array || ast.values_view()[id.0 as int] is Object,
    ensures
        value_json(ast, src, id, r, fuel),
{
    let inner = (fuel - 1) as nat;
    match ast.values_view()[id.0 as int] {
        Value::Array(a) => {
            if forall|k: int| 0 <= k < a.items@.len() ==> value_ok(ast, src, #[trigger] a.items@[k], inner) {
                let vs = r->Ok_0->Array_0;
                assert(vs@.len() == a.items@.len());
                assert(forall|k: int|
                    0 <= k < vs@.len() ==> value_json(ast, src, a.items@[k], Ok(#[trigger] vs@[k]), inner));
                assert(value_json(ast, src, id, r, fuel));
            } else {
                assert(value_json(ast, src, id, r, fuel));
            }
        },
        Value::Object(o) => {
            assert(value_json(ast, src, id, r, fuel));
        },
        _ => {},
    }
}

/// Materializing items stops at the first one that fails, after the ones
/// that materialized as `values`.
proof fn lemma_items_error(
    ast: Ast,
    src: Seq<u8>,
    items: Seq<ValueId>,
    values: Seq<JsonValue>,
    k: int,
    e: JsonConversionError,
    fuel: nat,
)
    requires
        0 <= k < items.len(),
        values.len() == k,
        forall|j: int| 0 <= j < k ==> value_json(ast, src, items[j], Ok(#[trigger] values[j]), fuel),
        value_json(ast, src, items[k], Err(e), fuel),
    ensures
        array_json(ast, src, items, Err(e), fuel),
{
    lemma_value_json_ok(ast, src, items[k], Err(e), fuel);
    assert forall|j: int| 0 <= j < k implies value_ok(ast, src, #[trigger] items[j], fuel) by {
        lemma_value_json_ok(ast, src, items[j], Ok(values[j]), fuel);
    }
    lemma_array_error(ast, src, items, k, e, fuel);
}

/// Materializing an array stops at its first item that fails.
proof fn lemma_array_error(
    ast: Ast,
    src: Seq<u8>,
    items: Seq<ValueId>,
    k: int,
    e: JsonConversionError,
    fuel: nat,
)
    requires
        0 <= k < items.len(),
        forall|j: int| 0 <= j < k ==> value_ok(ast, src, #[trigger] items[j], fuel),
        !value_ok(ast, src, items[k], fuel),
        value_json(ast, src, items[k], Err(e), fuel),
    ensures
        array_json(ast, src, items, Err(e), fuel),
{
    let b = first_bad_item(ast, src, items, fuel);
    assert(b == k) by {
        if b > k {
        }
    }
}

struct Materializer<'document> {
    document: &'document Document,
    active_values: Vec<ValueId>,
}

impl<'document> Materializer<'document> {
    spec fn ast(&self) -> Ast {
        self.document.ast
    }

    spec fn src(&self) -> Seq<u8> {
        vstd::utf8::encode_utf8(self.document.source@)
    }

    /// Every value being materialized is a node that outranks `bound`.
    spec fn active_above(&self, bound: nat) -> bool {
        forall|i: int|
            0 <= i < self.active_values@.len() ==> {
                &&& (#[trigger] self.active_values@[i]).0 < self.ast().values@.len()
                &&& self.ast().value_rank(self.active_values@[i]) > bound
            }
    }

    fn new(document: &'document Document) -> (m: Self)
        ensures
            m.document == document,
            m.active_values@.len() == 0,
    {
        Self { document, active_values: Vec::new() }
    }

    fn value(&mut self, value_id: ValueId, Ghost(fuel): Ghost<nat>) -> (r: Result<JsonValue, JsonConversionError>)
        requires
            old(self).ast().well_formed(),
            fuel >= 1,
            value_id.0 < old(self).ast().values@.len() ==> old(self).ast().value_rank(value_id) < fuel
                && old(self).active_above(old(self).ast().value_rank(value_id)),
            value_id.0 >= old(self).ast().values@.len() ==> old(self).active_above(0),
        ensures
            final(self).document == old(self).document,
            r is Ok ==> final(self).active_values@ == old(self).active_values@,
            value_json(old(self).ast(), old(self).src(), value_id, r, fuel),
        decreases fuel, 1nat,
    {
        let ghost ast = self.ast();
        let ghost src = self.src();
        proof {
            lemma_wf_reveal(ast);
        }
        let mut found = false;
        let mut i: usize = 0;
        while i < self.active_values.len()
            invariant
                i <= self.active_values@.len(),
                found <==> exists|j: int| 0 <= j < i && self.active_values@[j] == value_id,
            decreases self.active_values@.len() - i,
        {
            if self.active_values[i] == value_id {
                found = true;
            }
            i = i + 1;
        }
        proof {
            if found {
                let j = choose|j: int| 0 <= j < i && self.active_values@[j] == value_id;
                assert(self.active_values@[j].0 < ast.values@.len());
            }
        }
        if found {
            return Err(JsonConversionError::InvalidReference { kind: "cyclic value", id: value_id.0 });
        }
        let document = self.document;
        let value = match document.ast.value(value_id) {
            Some(value) => value,
            None => {
                return Err(JsonConversionError::InvalidReference { kind: "value", id: value_id.0 });
            },
        };
        let ghost rank = ast.value_rank(value_id);
        proof {
            assert(ast.value_refs_below(*value, rank));
        }
        self.active_values.push(value_id);
        proof {
            assert forall|b: nat| b < rank implies #[trigger] self.active_above(b) by {
                assert forall|i: int| 0 <= i < self.active_values@.len() implies {
                    &&& (#[trigger] self.active_values@[i]).0 < self.ast().values@.len()
                    &&& self.ast().value_rank(self.active_values@[i]) > b
                } by {
                    if i < old(self).active_values@.len() {
                        assert(self.active_values@[i] == old(self).active_values@[i]);
                    }
                }
            }
        }
        let result = match value {
            Value::Boolean { value, .. } => Ok(JsonValue::Bool(*value)),
            Value::Number { raw, .. } => match json_number(raw.as_str()) {
                Some(text) => Ok(JsonValue::Number(text)),
                None => Err(JsonConversionError::InvalidNumber { raw: raw.clone() }),
            },
            Value::String(string) => self.string_value(string),
            Value::EnumPath(enum_value) => Ok(JsonValue::String(strip_dot(enum_value.path.as_str()))),
            Value::Array(array) => {
                let ghost inner: nat = (fuel - 1) as nat;
                let mut values: Vec<JsonValue> = Vec::new();
                let mut k: usize = 0;
                while k < array.items.len()
                    invariant
                        self.document == document,
                        ast == document.ast,
                        src == vstd::utf8::encode_utf8(document.source@),
                        ast.well_formed(),
                        inner == fuel - 1,
                        ast.values_below(array.items@, rank),
                        rank < fuel,
                        forall|b: nat| b < rank ==> #[trigger] self.active_above(b),
                        old(self).document == document,
                        self.active_values@.len() > 0,
                        self.active_values@.last() == value_id,
                        self.active_values@.drop_last() == old(self).active_values@,
                        value_id.0 < ast.values_view().len(),
                        ast.values_view()[value_id.0 as int] == *value,
                        *value == Value::Array(*array),
                        fuel >= 1,
                        old(self).ast() == ast,
                        old(self).src() == src,
                        k <= array.items@.len(),
                        values@.len() == k,
                        forall|j: int|
                            0 <= j < k ==> value_json(ast, src, array.items@[j], Ok(#[trigger] values@[j]), inner),
                    decreases array.items@.len() - k,
                {
                    let item_id = array.items[k];
                    proof {
                        assert(ast.value_below(array.items@[k as int], rank));
                    }
                    let ghost saved = *self;
                    let item = match self.value(item_id, Ghost(inner)) {
                        Ok(item) => {
                            proof {
                                assert forall|b: nat| b < rank implies #[trigger] self.active_above(b) by {
                                    assert(saved.active_above(b));
                                }
                            }
                            item
                        },
                        Err(error) => {
                            proof {
                                lemma_value_json_ok(ast, src, item_id, Err(error), inner);
                                assert forall|j: int| 0 <= j < k implies value_ok(ast, src, #[trigger] array.items@[j], inner) by {
                                    lemma_value_json_ok(ast, src, array.items@[j], Ok(values@[j]), inner);
                                }
                                lemma_array_error(ast, src, array.items@, k as int, error, inner);
                                lemma_container_value(ast, src, value_id, Err(error), fuel);
                            }
                            return Err(error);
                        },
                    };
                    proof {
                        lemma_value_json_ok(ast, src, item_id, Ok(item), inner);
                    }
                    values.push(item);
                    k = k + 1;
                }
                proof {
                    assert forall|j: int| 0 <= j < array.items@.len() implies value_ok(ast, src, #[trigger] array.items@[j], inner) by {
                        lemma_value_json_ok(ast, src, array.items@[j], Ok(values@[j]), inner);
                    }
                    assert(array_json(ast, src, array.items@, Ok(JsonValue::Array(values)), inner));
                    lemma_container_value(ast, src, value_id, Ok(JsonValue::Array(values)), fuel);
                }
                Ok(JsonValue::Array(values))
            },
            Value::Object(object) => {
                let members = self.object_members(object.members.as_slice(), Ghost((fuel - 1) as nat));
                proof {
                    lemma_container_value(ast, src, value_id, members, fuel);
                }
                members
            },
            Value::Unknown(unknown) => Ok(JsonValue::String(unknown.raw.clone())),
            _ => Err(JsonConversionError::UnsupportedValue { kind: value.kind() }),
        };
        self.active_values.pop();
        proof {
            if result is Ok {
                assert(self.active_values@ =~= old(self).active_values@);
            }
        }
        result
    }

    fn root(self) -> (r: Result<JsonValue, JsonConversionError>)
        requires
            self.ast().well_formed(),
            self.active_values@.len() == 0,
        ensures
            root_json(self.ast(), self.src(), r),
    {
        let mut materializer = self;
        let ghost bound = materializer.ast().ranks@.5;
        proof {
            lemma_wf_reveal(materializer.ast());
        }
        let document = materializer.document;
        match &document.ast.root {
            Root::Array { items } => materializer.array_items(items.as_slice(), Ghost(bound)),
            Root::ImplicitObject { members } => materializer.object_members(members.as_slice(), Ghost(bound)),
            Root::ExplicitObject { members } => materializer.object_members(members.as_slice(), Ghost(bound)),
        }
    }

    fn array_items(&mut self, items: &[ValueId], Ghost(fuel): Ghost<nat>) -> (r: Result<
        JsonValue,
        JsonConversionError,
    >)
        requires
            old(self).ast().well_formed(),
            old(self).ast().values_below(items@, fuel),
            old(self).active_values@.len() == 0,
        ensures
            final(self).document == old(self).document,
            array_json(old(self).ast(), old(self).src(), items@, r, fuel),
    {
        let ghost ast = self.ast();
        let ghost src = self.src();
        let document = self.document;
        let mut values: Vec<JsonValue> = Vec::new();
        let mut k: usize = 0;
        while k < items.len()
            invariant
                self.document == document,
                old(self).document == document,
                ast == document.ast,
                src == vstd::utf8::encode_utf8(document.source@),
                ast.well_formed(),
                ast.values_below(items@, fuel),
                self.active_values@.len() == 0,
                k <= items@.len(),
                values@.len() == k,
                forall|j: int|
                    0 <= j < k ==> value_json(ast, src, items@[j], Ok(#[trigger] values@[j]), fuel),
            decreases items@.len() - k,
        {
            proof {
                assert(ast.value_below(items@[k as int], fuel));
            }
            let item = match self.value(items[k], Ghost(fuel)) {
                Ok(item) => item,
                Err(error) => {
                    proof {
                        lemma_items_error(ast, src, items@, values@, k as int, error, fuel);
                    }
                    return Err(error);
                },
            };
            proof {
                lemma_value_json_ok(ast, src, items@[k as int], Ok(item), fuel);
            }
            values.push(item);
            k = k + 1;
        }
        proof {
            assert forall|j: int| 0 <= j < items@.len() implies value_ok(ast, src, #[trigger] items@[j], fuel) by {
                lemma_value_json_ok(ast, src, items@[j], Ok(values@[j]), fuel);
            }
        }
        Ok(JsonValue::Array(values))
    }

    fn object_members(&mut self, members: &[MemberId], Ghost(fuel): Ghost<nat>) -> (r: Result<
        JsonValue,
        JsonConversionError,
    >)
        requires
            old(self).ast().well_formed(),
            forall|k: int|
                0 <= k < members@.len() ==> old(self).ast().member_below(#[trigger] members@[k], fuel),
            forall|k: int|
                0 <= k < members@.len() ==> old(self).active_above(
                    old(self).ast().member_rank(#[trigger] members@[k]),
                ),
        ensures
            final(self).document == old(self).document,
            r is Ok ==> final(self).active_values@ == old(self).active_values@,
            object_json(old(self).ast(), old(self).src(), members@, r, fuel),
        decreases fuel, 2nat,
    {
        let ghost ast = self.ast();
        let ghost src = self.src();
        proof {
            lemma_wf_reveal(ast);
        }
        let document = self.document;
        let mut object: Vec<(String, JsonValue)> = Vec::new();
        let mut k: usize = 0;
        while k < members.len()
            invariant
                self.document == document,
                old(self).document == document,
                ast == document.ast,
                src == vstd::utf8::encode_utf8(document.source@),
                ast.well_formed(),
                ast.members_view() == ast.members@,
                forall|j: int| 0 <= j < members@.len() ==> ast.member_below(#[trigger] members@[j], fuel),
                forall|j: int|
                    0 <= j < members@.len() ==> self.active_above(ast.member_rank(#[trigger] members@[j])),
                self.active_values@ == old(self).active_values@,
                k <= members@.len(),
                object@.len() == k,
                keys_sorted(object@),
                forall|j: int| 0 <= j < k ==> !fails_at(ast, src, members@, j, fuel),
                entries_cover(ast, src, members@, k as int, object@, fuel),
            decreases members@.len() - k,
        {
            let member_id = members[k];
            proof {
                assert(ast.member_below(members@[k as int], fuel));
            }
            let member = match document.ast.member(member_id) {
                Some(member) => member,
                None => {
                    return Err(JsonConversionError::InvalidReference { kind: "member", id: member_id.0 });
                },
            };
            let ghost rank = ast.member_rank(member_id);
            proof {
                assert(ast.member_refs_below(*member, rank));
                assert(self.active_above(rank));
            }
            let binding = match member {
                Member::Binding(binding) => binding,
                Member::TypeDeclaration(_) => {
                    proof {
                        lemma_first_failure_is(ast, src, members@, k as int, fuel);
                    }
                    return Err(JsonConversionError::UnsupportedMember { kind: "type declaration" });
                },
                Member::Error(_) => {
                    proof {
                        lemma_first_failure_is(ast, src, members@, k as int, fuel);
                    }
                    return Err(JsonConversionError::UnsupportedMember { kind: "error" });
                },
            };
            let value = match self.value(binding.value, Ghost(fuel)) {
                Ok(value) => value,
                Err(error) => {
                    proof {
                        lemma_value_json_ok(ast, src, binding.value, Err(error), fuel);
                        lemma_first_failure_is(ast, src, members@, k as int, fuel);
                    }
                    return Err(error);
                },
            };
            proof {
                lemma_value_json_ok(ast, src, binding.value, Ok(value), fuel);
            }
            let ghost before = object@;
            let key = binding.key.raw.clone();
            match insert_unique(&mut object, key, value) {
                Ok(()) => {},
                Err(error) => {
                    proof {
                        lemma_duplicate_fails(ast, src, members@, k as int, before, fuel);
                        lemma_first_failure_is(ast, src, members@, k as int, fuel);
                    }
                    return Err(error);
                },
            }
            proof {
                lemma_fresh_key_ok(ast, src, members@, k as int, before, binding.key.raw@, fuel);
                lemma_object_step(ast, src, members@, k as int, before, object@, key, value, fuel);
            }
            k = k + 1;
        }
        proof {
            lemma_object_done(ast, src, members@, object, fuel);
        }
        Ok(JsonValue::Object(object))
    }

    fn string_value(&self, string: &StringValue) -> (r: Result<JsonValue, JsonConversionError>)
        ensures
            parts_ok(self.src(), string.parts@) ==> (r matches Ok(JsonValue::String(x)) && x@
                == parts_text(self.src(), string.parts@)),
            !parts_ok(self.src(), string.parts@) ==> (r matches Err(e) && part_error(
                string.parts@[first_bad_part(self.src(), string.parts@)],
                e,
            )),
    {
        let source = self.document.source();
        let ghost src = self.src();
        let mut output = String::new();
        let mut k: usize = 0;
        while k < string.parts.len()
            invariant
                source@ == self.document.source@,
                src == source.spec_bytes(),
                k <= string.parts@.len(),
                forall|j: int| 0 <= j < k ==> part_ok(src, #[trigger] string.parts@[j]),
                output@ == parts_text(src, string.parts@.subrange(0, k as int)),
            decreases string.parts@.len() - k,
        {
            let part = &string.parts[k];
            match part.kind {
                StringPartKind::Text => {
                    let text = match crate::text::slice_str(source, part.span.start as usize, part.span.end as usize) {
                        Some(text) => text,
                        None => {
                            proof {
                                let b = first_bad_part(src, string.parts@);
                                assert(!part_ok(src, string.parts@[k as int]));
                                assert(b == k);
                            }
                            return Err(JsonConversionError::InvalidReference {
                                kind: "string span",
                                id: part.span.start,
                            });
                        },
                    };
                    push_str(&mut output, text);
                    proof {
                        let next = string.parts@.subrange(0, k + 1);
                        assert(next.drop_last() =~= string.parts@.subrange(0, k as int));
                    }
                },
                StringPartKind::Interpolation => {
                    proof {
                        let b = first_bad_part(src, string.parts@);
                        assert(!part_ok(src, string.parts@[k as int]));
                        assert(b == k);
                    }
                    return Err(JsonConversionError::UnsupportedInterpolation { span: part.span });
                },
            }
            k = k + 1;
        }
        proof {
            assert(string.parts@.subrange(0, string.parts@.len() as int) =~= string.parts@);
        }
        Ok(JsonValue::String(output))
    }
}

// ---------------------------------------------------------------------------
// Writing JSON text
// ---------------------------------------------------------------------------

fn hex_digit_char(d: u32) -> (c: char)
    requires
        d < 16,
    ensures
        c == hex_digit(d),
{
    match d {
        0 => '0',
        1 => '1',
        2 => '2',
        3 => '3',
        4 => '4',
        5 => '5',
        6 => '6',
        7 => '7',
        8 => '8',
        9 => '9',
        10 => 'a',
        11 => 'b',
        12 => 'c',
        13 => 'd',
        14 => 'e',
        _ => 'f',
    }
}

fn write_escaped_char(output: &mut String, c: char)
    ensures
        final(output)@ == old(output)@ + escape_char(c),
{
    if c == '"' {
        push_char(output, '\\');
        push_char(output, '"');
    } else if c == '\\' {
        push_char(output, '\\');
        push_char(output, '\\');
    } else if c == '\u{8}' {
        push_char(output, '\\');
        push_char(output, 'b');
    } else if c == '\t' {
        push_char(output, '\\');
        push_char(output, 't');
    } else if c == '\n' {
        push_char(output, '\\');
        push_char(output, 'n');
    } else if c == '\u{c}' {
        push_char(output, '\\');
        push_char(output, 'f');
    } else if c == '\r' {
        push_char(output, '\\');
        push_char(output, 'r');
    } else if (c as u32) < 0x20 {
        push_char(output, '\\');
        push_char(output, 'u');
        push_char(output, '0');
        push_char(output, '0');
        push_char(output, hex_digit_char((c as u32) / 16));
        push_char(output, hex_digit_char((c as u32) % 16));
    } else {
        push_char(output, c);
    }
    proof {
        assert(output@ =~= old(output)@ + escape_char(c));
    }
}

/// Write `text` as a JSON string literal.
fn write_quoted(output: &mut String, text: &str)
    ensures
        final(output)@ == old(output)@ + quoted(text@),
{
    let bytes = text.as_bytes();
    proof {
        vstd::utf8::encode_utf8_valid_utf8(text@);
        vstd::utf8::is_char_boundary_start_end_of_seq(bytes@);
        assert(text_of(bytes@, 0, 0) =~= Seq::<char>::empty()) by {
            assert(bytes@.subrange(0, 0) =~= Seq::<u8>::empty());
        }
    }
    push_char(output, '"');
    let ghost start = output@;
    let mut p: usize = 0;
    while p < bytes.len()
        invariant
            bytes@ == text.spec_bytes(),
            boundary(bytes@, p as int),
            p <= bytes@.len(),
            output@ == start + escaped(text_of(bytes@, 0, p as int)),
        decreases bytes@.len() - p,
    {
        let (c, width) = decode_char(bytes, p);
        proof {
            lemma_text_step(bytes@, p as int);
        }
        write_escaped_char(output, c);
        proof {
            let next = text_of(bytes@, 0, p + width);
            assert(next.drop_last() =~= text_of(bytes@, 0, p as int));
            assert(output@ =~= start + escaped(next));
        }
        p = p + width;
    }
    push_char(output, '"');
    proof {
        assert(bytes@.subrange(0, bytes@.len() as int) =~= bytes@);
        vstd::utf8::encode_utf8_decode_utf8(text@);
        assert(output@ =~= old(output)@ + quoted(text@));
    }
}

/// Write the compact JSON text of `value`.
fn write_json(output: &mut String, value: &JsonValue)
    ensures
        final(output)@ == old(output)@ + json_text(*value),
    decreases value,
{
    match value {
        JsonValue::Null => push_str(output, "null"),
        JsonValue::Bool(b) => push_str(
            output,
            if *b {
                "true"
            } else {
                "false"
            },
        ),
        JsonValue::Number(n) => push_str(output, n.as_str()),
        JsonValue::String(s) => write_quoted(output, s.as_str()),
        JsonValue::Array(items) => {
            push_char(output, '[');
            let ghost start = output@;
            let mut k: usize = 0;
            while k < items.len()
                invariant
                    *value == JsonValue::Array(*items),
                    k <= items@.len(),
                    output@ == start + items_json_text(items@.subrange(0, k as int)),
                decreases items@.len() - k,
            {
                if k > 0 {
                    push_char(output, ',');
                }
                proof {
                    assert(decreases_to!(*value => (*value)->Array_0));
                    assert(decreases_to!((*value)->Array_0 => (*value)->Array_0@));
                    assert(decreases_to!(items@ => items@[k as int]));
                    assert(decreases_to!(*value => items@[k as int]));
                }
                write_json(output, &items[k]);
                proof {
                    let next = items@.subrange(0, k + 1);
                    assert(next.drop_last() =~= items@.subrange(0, k as int));
                    assert(output@ =~= start + items_json_text(next));
                }
                k = k + 1;
            }
            push_char(output, ']');
            proof {
                assert(items@.subrange(0, items@.len() as int) =~= items@);
            }
        },
        JsonValue::Object(members) => {
            push_char(output, '{');
            let ghost start = output@;
            let mut k: usize = 0;
            while k < members.len()
                invariant
                    *value == JsonValue::Object(*members),
                    k <= members@.len(),
                    output@ == start + members_json_text(members@.subrange(0, k as int)),
                decreases members@.len() - k,
            {
                if k > 0 {
                    push_char(output, ',');
                }
                write_quoted(output, members[k].0.as_str());
                push_char(output, ':');
                proof {
                    assert(decreases_to!(*value => (*value)->Object_0));
                    assert(decreases_to!((*value)->Object_0 => (*value)->Object_0@));
                    assert(decreases_to!(members@ => members@[k as int]));
                    assert(decreases_to!(members@[k as int] => members@[k as int].1));
                    assert(decreases_to!(*value => members@[k as int].1));
                }
                write_json(output, &members[k].1);
                proof {
                    let next = members@.subrange(0, k + 1);
                    assert(next.drop_last() =~= members@.subrange(0, k as int));
                    assert(output@ =~= start + members_json_text(next));
                }
                k = k + 1;
            }
            push_char(output, '}');
            proof {
                assert(members@.subrange(0, members@.len() as int) =~= members@);
            }
        },
    }
    proof {
        assert(output@ =~= old(output)@ + json_text(*value));
    }
}

// ---------------------------------------------------------------------------
// Named schemas
// ---------------------------------------------------------------------------

/// Member `id` declares a type named `name`.
pub open spec fn declares(ast: Ast, id: MemberId, name: Seq<char>) -> bool {
    &&& id.0 < ast.members_view().len()
    &&& ast.members_view()[id.0 as int] is TypeDeclaration
    &&& ast.members_view()[id.0 as int]->TypeDeclaration_0.name.raw@ == name
}

/// Whether a member of the document root declares a type named `name`.
pub open spec fn has_declaration(ast: Ast, name: Seq<char>) -> bool {
    exists|k: int| 0 <= k < ast.root_members().len() && #[trigger] declares(ast, ast.root_members()[k], name)
}

/// The first root member that declares a type named `name`.
pub open spec fn declaration_index(ast: Ast, name: Seq<char>) -> int {
    choose|k: int|
        0 <= k < ast.root_members().len() && #[trigger] declares(ast, ast.root_members()[k], name)
            && forall|j: int| 0 <= j < k ==> !#[trigger] declares(ast, ast.root_members()[j], name)
}

/// The schema that the first root declaration of a type named `name` defines.
pub open spec fn declared_schema_id(ast: Ast, name: Seq<char>) -> SchemaId {
    ast.members_view()[ast.root_members()[declaration_index(ast, name)].0 as int]->TypeDeclaration_0.definition
}

/// The schema of the first root declaration of a type named `name`.
pub open spec fn declared_schema(ast: Ast, name: Seq<char>) -> Schema {
    ast.schemas_view()[declared_schema_id(ast, name).0 as int]
}

/// The schema that the first root member declaring `name` defines.
fn find_schema<'document>(document: &'document Document, name: &str) -> (r: Result<
    &'document Schema,
    JsonConversionError,
>)
    requires
        document.ast.wf(),
    ensures
        has_declaration(document.ast, name@) ==> (r matches Ok(s) && *s == declared_schema(
            document.ast,
            name@,
        ) && declared_schema_id(document.ast, name@).0 < document.ast.schemas_view().len()),
        !has_declaration(document.ast, name@) ==> (r matches Err(
            JsonConversionError::SchemaNotFound { name: n },
        ) && n@ == name@),
{
    let ghost ast = document.ast;
    proof {
        lemma_wf_reveal(ast);
    }
    let members = match document.ast.object_members() {
        Some(members) => members,
        None => {
            return Err(JsonConversionError::SchemaNotFound { name: name.to_owned() });
        },
    };
    let target = name.to_owned();
    let mut k: usize = 0;
    while k < members.len()
        invariant
            ast == document.ast,
            ast.well_formed(),
            ast.members_view() == ast.members@,
            ast.schemas_view() == ast.schemas@,
            members@ == ast.root_members(),
            ast.members_below(members@, ast.node_bound()),
            target@ == name@,
            k <= members@.len(),
            forall|j: int| 0 <= j < k ==> !#[trigger] declares(ast, members@[j], name@),
        decreases members@.len() - k,
    {
        let member_id = members[k];
        proof {
            assert(ast.member_below(members@[k as int], ast.node_bound()));
        }
        let member = match document.ast.member(member_id) {
            Some(member) => member,
            None => {
                return Err(JsonConversionError::InvalidReference { kind: "member", id: member_id.0 });
            },
        };
        if let Member::TypeDeclaration(declaration) = member {
            if declaration.name.raw == target {
                proof {
                    assert(ast.member_refs_below(*member, ast.member_rank(member_id)));
                    assert(declares(ast, members@[k as int], name@));
                    let b = declaration_index(ast, name@);
                    assert(b == k) by {
                        if b < k {
                        } else if b > k {
                        }
                    }
                }
                return match document.ast.schema(declaration.definition) {
                    Some(schema) => Ok(schema),
                    None => Err(
                        JsonConversionError::InvalidReference { kind: "schema", id: declaration.definition.0 },
                    ),
                };
            }
        }
        k = k + 1;
    }
    Err(JsonConversionError::SchemaNotFound { name: target })
}

// ---------------------------------------------------------------------------
// Labels of types, schema kinds and JSON values
// ---------------------------------------------------------------------------

/// The decimal digit `d < 10`.
pub open spec fn digit(d: nat) -> char {
    seq!['0', '1', '2', '3', '4', '5', '6', '7', '8', '9'][d as int]
}

/// The decimal numeral of `n`.
pub open spec fn decimal(n: nat) -> Seq<char>
    decreases n,
{
    if n < 10 {
        seq![digit(n)]
    } else {
        decimal(n / 10) + seq![digit(n % 10)]
    }
}

/// Texts separated by `, `.
pub open spec fn joined(parts: Seq<Seq<char>>) -> Seq<char>
    decreases parts.len(),
{
    if parts.len() == 0 {
        Seq::empty()
    } else if parts.len() == 1 {
        parts[0]
    } else {
        joined(parts.drop_last()) + ", "@ + parts.last()
    }
}

/// The label of type `id`: a builtin's name, a named type's path, a generic
/// type with the labels of its arguments, `schema#` and the number of an
/// inline schema, or `error`; none for a type that the AST does not hold.
pub open spec fn type_label_of(ast: Ast, id: TypeId, fuel: nat) -> Option<Seq<char>>
    decreases fuel, 1nat, 0nat,
{
    if fuel == 0 || id.0 >= ast.types_view().len() {
        None
    } else {
        match ast.types_view()[id.0 as int] {
            TypeExpr::Builtin { name, .. } => Some(name@),
            TypeExpr::Named { path, .. } => Some(path@),
            TypeExpr::Generic { constructor, arguments, .. } => Some(
                constructor@ + "<"@ + joined(type_labels(ast, arguments@, fuel)) + ">"@,
            ),
            TypeExpr::Schema { schema, .. } => Some("schema#"@ + decimal(schema.0 as nat)),
            TypeExpr::Error(_) => Some("error"@),
        }
    }
}

/// The labels of the types `ids` that have one, in order.
pub open spec fn type_labels(ast: Ast, ids: Seq<TypeId>, fuel: nat) -> Seq<Seq<char>>
    decreases fuel, 0nat, ids.len(),
{
    if fuel == 0 || ids.len() == 0 {
        Seq::empty()
    } else {
        let before = type_labels(ast, ids.drop_last(), fuel);
        match type_label_of(ast, ids.last(), (fuel - 1) as nat) {
            Some(t) => before.push(t),
            None => before,
        }
    }
}

/// The lower-case name of a schema kind.
pub open spec fn kind_name(kind: SchemaKind) -> Seq<char> {
    match kind {
        SchemaKind::Struct => "struct"@,
        SchemaKind::Enum => "enum"@,
    }
}

/// The name of the JSON type of a value.
pub open spec fn json_type_name(value: JsonValue) -> Seq<char> {
    match value {
        JsonValue::Null => "null"@,
        JsonValue::Bool(_) => "bool"@,
        JsonValue::Number(_) => "number"@,
        JsonValue::String(_) => "string"@,
        JsonValue::Array(_) => "array"@,
        JsonValue::Object(_) => "object"@,
    }
}

fn digit_char(d: u64) -> (c: char)
    requires
        d < 10,
    ensures
        c == digit(d as nat),
{
    match d {
        0 => '0',
        1 => '1',
        2 => '2',
        3 => '3',
        4 => '4',
        5 => '5',
        6 => '6',
        7 => '7',
        8 => '8',
        _ => '9',
    }
}

fn write_decimal(output: &mut String, n: u64)
    ensures
        final(output)@ == old(output)@ + decimal(n as nat),
    decreases n,
{
    if n >= 10 {
        write_decimal(output, n / 10);
    }
    push_char(output, digit_char(n % 10));
    proof {
        assert(output@ =~= old(output)@ + decimal(n as nat));
    }
}

fn type_label(ast: &Ast, type_id: TypeId, Ghost(fuel): Ghost<nat>) -> (r: Option<String>)
    requires
        ast.well_formed(),
        fuel >= 1,
        type_id.0 < ast.types@.len() ==> ast.type_rank(type_id) < fuel,
    ensures
        match r {
            Some(label) => type_label_of(*ast, type_id, fuel) == Some(label@),
            None => type_label_of(*ast, type_id, fuel) is None,
        },
    decreases fuel, 1nat, 0nat,
{
    proof {
        lemma_wf_reveal(*ast);
    }
    let type_expr = match ast.type_expr(type_id) {
        Some(type_expr) => type_expr,
        None => return None,
    };
    let ghost rank = ast.type_rank(type_id);
    proof {
        assert(ast.type_refs_below(*type_expr, rank));
    }
    let mut label = String::new();
    match type_expr {
        TypeExpr::Builtin { name, .. } => push_str(&mut label, name.as_str()),
        TypeExpr::Named { path, .. } => push_str(&mut label, path.as_str()),
        TypeExpr::Generic { constructor, arguments, .. } => {
            push_str(&mut label, constructor.as_str());
            push_str(&mut label, "<");
            let ghost start = label@;
            let mut first = true;
            let mut index: usize = 0;
            while index < arguments.len()
                invariant
                    ast.well_formed(),
                    fuel >= 1,
                    ast.types_below(arguments@, (fuel - 1) as nat),
                    index <= arguments@.len(),
                    label@ == start + joined(type_labels(*ast, arguments@.subrange(0, index as int), fuel)),
                    first == (type_labels(*ast, arguments@.subrange(0, index as int), fuel).len() == 0),
                decreases arguments@.len() - index,
            {
                let ghost prev = type_labels(*ast, arguments@.subrange(0, index as int), fuel);
                proof {
                    assert(ast.type_below(arguments@[index as int], (fuel - 1) as nat));
                    let next = arguments@.subrange(0, index + 1);
                    assert(next.drop_last() =~= arguments@.subrange(0, index as int));
                    assert(next.last() == arguments@[index as int]);
                }
                match type_label(ast, arguments[index], Ghost((fuel - 1) as nat)) {
                    Some(argument) => {
                        if !first {
                            push_str(&mut label, ", ");
                        }
                        push_str(&mut label, argument.as_str());
                        first = false;
                        proof {
                            assert(prev.push(argument@).drop_last() =~= prev);
                            assert(label@ =~= start + joined(prev.push(argument@)));
                        }
                    },
                    None => {},
                }
                index = index + 1;
            }
            proof {
                assert(arguments@.subrange(0, arguments@.len() as int) =~= arguments@);
            }
            push_str(&mut label, ">");
        },
        TypeExpr::Schema { schema, .. } => {
            push_str(&mut label, "schema#");
            write_decimal(&mut label, schema.0 as u64);
        },
        TypeExpr::Error(_) => push_str(&mut label, "error"),
    }
    proof {
        reveal_strlit("<");
        reveal_strlit(">");
        reveal_strlit("schema#");
        reveal_strlit("error");
        reveal_strlit(", ");
        assert(Some(label@) == type_label_of(*ast, type_id, fuel));
    }
    Some(label)
}

fn schema_kind_name(kind: SchemaKind) -> (r: &'static str)
    ensures
        r@ == kind_name(kind),
{
    proof {
        reveal_strlit("struct");
        reveal_strlit("enum");
    }
    match kind {
        SchemaKind::Struct => "struct",
        SchemaKind::Enum => "enum",
    }
}

fn infer_json_type(value: &JsonValue) -> (r: String)
    ensures
        r@ == json_type_name(*value),
{
    proof {
        reveal_strlit("null");
        reveal_strlit("bool");
        reveal_strlit("number");
        reveal_strlit("string");
        reveal_strlit("array");
        reveal_strlit("object");
    }
    let name = match value {
        JsonValue::Null => "null",
        JsonValue::Bool(_) => "bool",
        JsonValue::Number(_) => "number",
        JsonValue::String(_) => "string",
        JsonValue::Array(_) => "array",
        JsonValue::Object(_) => "object",
    };
    name.to_owned()
}

// ---------------------------------------------------------------------------
// Schema descriptors
// ---------------------------------------------------------------------------

/// The label that the declared type `t` of a field or variant gives.
pub open spec fn declared_label(ast: Ast, t: Option<TypeId>, fuel: nat) -> Option<Seq<char>> {
    match t {
        Some(id) => type_label_of(ast, id, fuel),
        None => None,
    }
}

/// A field whose default, where it has one, materializes with `fuel`.
pub open spec fn field_ok(ast: Ast, src: Seq<u8>, f: StructField, fuel: nat) -> bool {
    match f.default_value {
        Some(v) => value_ok(ast, src, v, fuel),
        None => true,
    }
}

/// The first field whose default does not materialize.
pub open spec fn first_bad_field(ast: Ast, src: Seq<u8>, fields: Seq<StructField>, fuel: nat) -> int {
    choose|k: int|
        0 <= k < fields.len() && !field_ok(ast, src, #[trigger] fields[k], fuel) && forall|j: int|
            0 <= j < k ==> field_ok(ast, src, #[trigger] fields[j], fuel)
}

/// `d` describes struct field `f`: its key; whether it is required, having
/// no default; its default materialized with `fuel`; and the label of its
/// declared type or, where that gives none, the JSON type of its default.
pub open spec fn field_described(
    ast: Ast,
    src: Seq<u8>,
    f: StructField,
    d: SchemaFieldDescriptor,
    fuel: nat,
) -> bool {
    &&& d.name@ == f.key.raw@
    &&& d.required == (f.default_value is None)
    &&& match f.default_value {
        Some(v) => d.default matches Some(x) && value_json(ast, src, v, Ok(x), fuel),
        None => d.default is None,
    }
    &&& match declared_label(ast, f.type_annotation, fuel) {
        Some(t) => d.type_label matches Some(l) && l@ == t,
        None => match d.default {
            Some(x) => d.type_label matches Some(l) && l@ == json_type_name(x),
            None => d.type_label is None,
        },
    }
}

/// `d` describes enum variant `v`: its name and the label of its payload.
pub open spec fn variant_described(ast: Ast, v: EnumVariant, d: SchemaVariantDescriptor, fuel: nat) -> bool {
    &&& d.name@ == v.name.raw@
    &&& match declared_label(ast, v.payload, fuel) {
        Some(t) => d.type_label matches Some(l) && l@ == t,
        None => d.type_label is None,
    }
}

/// `r` is what describing `schema` under `name` yields: its kind, its fields
/// and its variants in order; or the error of the first field whose default
/// does not materialize.
pub open spec fn export_json(
    ast: Ast,
    src: Seq<u8>,
    name: Seq<char>,
    schema: Schema,
    r: Result<SchemaDescriptor, JsonConversionError>,
    fuel: nat,
) -> bool {
    let fields = schema.fields@;
    let variants = schema.variants@;
    if forall|k: int| 0 <= k < fields.len() ==> field_ok(ast, src, #[trigger] fields[k], fuel) {
        &&& r is Ok
        &&& r->Ok_0.name@ == name
        &&& r->Ok_0.kind@ == kind_name(schema.kind)
        &&& r->Ok_0.fields@.len() == fields.len()
        &&& forall|k: int|
            0 <= k < fields.len() ==> field_described(ast, src, fields[k], #[trigger] r->Ok_0.fields@[k], fuel)
        &&& r->Ok_0.variants@.len() == variants.len()
        &&& forall|k: int|
            0 <= k < variants.len() ==> variant_described(ast, variants[k], #[trigger] r->Ok_0.variants@[k], fuel)
    } else {
        &&& r is Err
        &&& value_json(ast, src, fields[first_bad_field(ast, src, fields, fuel)].default_value->Some_0, Err(r->Err_0), fuel)
    }
}

struct SchemaExporter<'document> {
    document: &'document Document,
}

impl<'document> SchemaExporter<'document> {
    spec fn ast(&self) -> Ast {
        self.document.ast
    }

    spec fn src(&self) -> Seq<u8> {
        vstd::utf8::encode_utf8(self.document.source@)
    }

    fn new(document: &'document Document) -> (e: Self)
        ensures
            e.document == document,
    {
        Self { document }
    }

    fn export(&self, name: &str, schema: &Schema, Ghost(rank): Ghost<nat>) -> (r: Result<
        SchemaDescriptor,
        JsonConversionError,
    >)
        requires
            self.ast().well_formed(),
            self.ast().schema_refs_below(*schema, rank),
            rank <= self.ast().node_bound(),
        ensures
            export_json(self.ast(), self.src(), name@, *schema, r, self.ast().node_bound()),
    {
        let ghost ast = self.ast();
        let ghost src = self.src();
        let ghost fuel = ast.node_bound();
        proof {
            lemma_wf_reveal(ast);
        }
        let mut fields: Vec<SchemaFieldDescriptor> = Vec::new();
        let mut k: usize = 0;
        while k < schema.fields.len()
            invariant
                ast == self.ast(),
                src == self.src(),
                fuel == ast.node_bound(),
                ast.well_formed(),
                ast.schema_refs_below(*schema, rank),
                rank <= fuel,
                k <= schema.fields@.len(),
                fields@.len() == k,
                forall|j: int| 0 <= j < k ==> field_ok(ast, src, #[trigger] schema.fields@[j], fuel),
                forall|j: int|
                    0 <= j < k ==> field_described(ast, src, schema.fields@[j], #[trigger] fields@[j], fuel),
            decreases schema.fields@.len() - k,
        {
            proof {
                assert(ast.field_refs_below(schema.fields@[k as int], rank));
            }
            let descriptor = match self.field_descriptor(&schema.fields[k], Ghost(rank)) {
                Ok(descriptor) => descriptor,
                Err(error) => {
                    proof {
                        let b = first_bad_field(ast, src, schema.fields@, fuel);
                        assert(!field_ok(ast, src, schema.fields@[k as int], fuel));
                        assert(b == k) by {
                            if b < k {
                            } else if b > k {
                            }
                        }
                    }
                    return Err(error);
                },
            };
            fields.push(descriptor);
            k = k + 1;
        }
        let mut variants: Vec<SchemaVariantDescriptor> = Vec::new();
        let mut k: usize = 0;
        while k < schema.variants.len()
            invariant
                ast == self.ast(),
                fuel == ast.node_bound(),
                ast.well_formed(),
                ast.schema_refs_below(*schema, rank),
                rank <= fuel,
                k <= schema.variants@.len(),
                variants@.len() == k,
                forall|j: int|
                    0 <= j < k ==> variant_described(ast, schema.variants@[j], #[trigger] variants@[j], fuel),
            decreases schema.variants@.len() - k,
        {
            let variant = &schema.variants[k];
            proof {
                assert(ast.variant_refs_below(*variant, rank));
            }
            let type_label = match variant.payload {
                Some(payload) => type_label(&self.document.ast, payload, Ghost(fuel)),
                None => None,
            };
            variants.push(SchemaVariantDescriptor { name: variant.name.raw.clone(), type_label });
            k = k + 1;
        }
        Ok(SchemaDescriptor {
            name: name.to_owned(),
            kind: schema_kind_name(schema.kind).to_owned(),
            fields,
            variants,
        })
    }

    fn field_descriptor(&self, field: &StructField, Ghost(rank): Ghost<nat>) -> (r: Result<
        SchemaFieldDescriptor,
        JsonConversionError,
    >)
        requires
            self.ast().well_formed(),
            self.ast().field_refs_below(*field, rank),
            rank <= self.ast().node_bound(),
        ensures
            match r {
                Ok(d) => field_ok(self.ast(), self.src(), *field, self.ast().node_bound())
                    && field_described(self.ast(), self.src(), *field, d, self.ast().node_bound()),
                Err(e) => !field_ok(self.ast(), self.src(), *field, self.ast().node_bound())
                    && value_json(
                    self.ast(),
                    self.src(),
                    field.default_value->Some_0,
                    Err(e),
                    self.ast().node_bound(),
                ),
            },
    {
        let ghost ast = self.ast();
        let ghost src = self.src();
        let ghost fuel = ast.node_bound();
        proof {
            lemma_wf_reveal(ast);
        }
        let default = match field.default_value {
            Some(value_id) => {
                let mut materializer = Materializer::new(self.document);
                match materializer.value(value_id, Ghost(fuel)) {
                    Ok(value) => {
                        proof {
                            lemma_value_json_ok(ast, src, value_id, Ok(value), fuel);
                        }
                        Some(value)
                    },
                    Err(error) => {
                        proof {
                            lemma_value_json_ok(ast, src, value_id, Err(error), fuel);
                        }
                        return Err(error);
                    },
                }
            },
            None => None,
        };
        let declared = match field.type_annotation {
            Some(type_id) => type_label(&self.document.ast, type_id, Ghost(fuel)),
            None => None,
        };
        let type_label = match declared {
            Some(label) => Some(label),
            None => match &default {
                Some(value) => Some(infer_json_type(value)),
                None => None,
            },
        };
        Ok(SchemaFieldDescriptor {
            name: field.key.raw.clone(),
            type_label,
            default,
            required: field.default_value.is_none(),
        })
    }
}

// ---------------------------------------------------------------------------
// Defaults of a struct schema
// ---------------------------------------------------------------------------

/// The number of `fields` that have a default.
pub open spec fn default_count(fields: Seq<StructField>) -> nat
    decreases fields.len(),
{
    if fields.len() == 0 {
        0
    } else {
        default_count(fields.drop_last()) + if fields.last().default_value is Some {
            1nat
        } else {
            0nat
        }
    }
}

/// An earlier field with a default has the key of field `k`.
pub open spec fn default_key_repeated(fields: Seq<StructField>, k: int) -> bool {
    exists|i: int|
        0 <= i < k && (#[trigger] fields[i]).default_value is Some && fields[i].key.raw@ == fields[k].key.raw@
}

/// Field `k` is where collecting the defaults of `fields` stops: a field
/// without a default when every field must have one, a default that does
/// not materialize, or a key that an earlier default has.
pub open spec fn default_fails_at(
    ast: Ast,
    src: Seq<u8>,
    fields: Seq<StructField>,
    k: int,
    strict: bool,
    fuel: nat,
) -> bool {
    match fields[k].default_value {
        Some(v) => !value_ok(ast, src, v, fuel) || default_key_repeated(fields, k),
        None => strict,
    }
}

/// The first field where collecting the defaults stops.
pub open spec fn first_default_failure(
    ast: Ast,
    src: Seq<u8>,
    fields: Seq<StructField>,
    strict: bool,
    fuel: nat,
) -> int {
    choose|k: int|
        0 <= k < fields.len() && default_fails_at(ast, src, fields, k, strict, fuel) && forall|j: int|
            0 <= j < k ==> !#[trigger] default_fails_at(ast, src, fields, j, strict, fuel)
}

/// Each of the fields `0..n` that has a default has the entry with its key,
/// holding the materialized default.
pub open spec fn defaults_hold(
    ast: Ast,
    src: Seq<u8>,
    fields: Seq<StructField>,
    n: int,
    entries: Seq<(String, JsonValue)>,
    fuel: nat,
) -> bool {
    forall|k: int|
        #![trigger fields[k]]
        0 <= k < n && fields[k].default_value is Some ==> {
            let e = key_index(entries, Some(fields[k].key.raw@));
            &&& 0 <= e < entries.len()
            &&& entries[e].0@ == fields[k].key.raw@
            &&& value_json(ast, src, fields[k].default_value->Some_0, Ok(entries[e].1), fuel)
        }
}

/// `r` is what collecting the defaults of the struct `name` with `fields`
/// yields: one object with an entry for each field that has a default, its
/// keys sorted; or, at the first field where that stops, the missing field,
/// the error of its default, or its repeated key.
pub open spec fn defaults_json(
    ast: Ast,
    src: Seq<u8>,
    name: Seq<char>,
    fields: Seq<StructField>,
    strict: bool,
    r: Result<JsonValue, JsonConversionError>,
    fuel: nat,
) -> bool {
    if forall|k: int| 0 <= k < fields.len() ==> !#[trigger] default_fails_at(ast, src, fields, k, strict, fuel) {
        match r {
            Ok(JsonValue::Object(entries)) => {
                &&& entries@.len() == default_count(fields)
                &&& keys_sorted(entries@)
                &&& defaults_hold(ast, src, fields, fields.len() as int, entries@, fuel)
            },
            _ => false,
        }
    } else {
        let f = fields[first_default_failure(ast, src, fields, strict, fuel)];
        &&& r is Err
        &&& match f.default_value {
            Some(v) => if !value_ok(ast, src, v, fuel) {
                value_json(ast, src, v, Err(r->Err_0), fuel)
            } else {
                r->Err_0 matches JsonConversionError::DuplicateKey { key } && key@ == f.key.raw@
            },
            None => r->Err_0 matches JsonConversionError::MissingRequiredField { schema, field } && schema@
                == name && field@ == f.key.raw@,
        }
    }
}

/// One of the fields `0..n` with a default has `key`.
spec fn default_has_key(fields: Seq<StructField>, n: int, key: Seq<char>) -> bool {
    exists|j: int| 0 <= j < n && (#[trigger] fields[j]).default_value is Some && fields[j].key.raw@ == key
}

/// Each entry has the key of one of the fields `0..n` with a default.
spec fn entries_from_defaults(fields: Seq<StructField>, n: int, entries: Seq<(String, JsonValue)>) -> bool {
    forall|e: int| 0 <= e < entries.len() ==> default_has_key(fields, n, (#[trigger] entries[e]).0@)
}

/// Field `k` is where collecting stops when it fails and no earlier one does.
proof fn lemma_first_default_failure_is(
    ast: Ast,
    src: Seq<u8>,
    fields: Seq<StructField>,
    k: int,
    strict: bool,
    fuel: nat,
)
    requires
        0 <= k < fields.len(),
        default_fails_at(ast, src, fields, k, strict, fuel),
        forall|j: int| 0 <= j < k ==> !default_fails_at(ast, src, fields, j, strict, fuel),
    ensures
        first_default_failure(ast, src, fields, strict, fuel) == k,
        !forall|j: int| 0 <= j < fields.len() ==> !#[trigger] default_fails_at(ast, src, fields, j, strict, fuel),
{
    let b = first_default_failure(ast, src, fields, strict, fuel);
    assert(b == k) by {
        if b < k {
        } else if b > k {
        }
    }
}

/// The entries of the defaults of fields `0..k` are among those of `0..k + 1`.
proof fn lemma_from_defaults_grow(fields: Seq<StructField>, k: int, entries: Seq<(String, JsonValue)>)
    requires
        entries_from_defaults(fields, k, entries),
    ensures
        entries_from_defaults(fields, k + 1, entries),
{
    assert forall|e: int| 0 <= e < entries.len() implies default_has_key(fields, k + 1, (#[trigger] entries[e]).0@) by {
        let j = choose|j: int|
            0 <= j < k && (#[trigger] fields[j]).default_value is Some && fields[j].key.raw@ == entries[e].0@;
        assert(0 <= j < k + 1 && fields[j].default_value is Some);
    }
}

/// A key that the collected entries already hold is a repeated default key.
proof fn lemma_default_duplicate(fields: Seq<StructField>, k: int, entries: Seq<(String, JsonValue)>, e: int)
    requires
        0 <= k < fields.len(),
        entries_from_defaults(fields, k, entries),
        0 <= e < entries.len(),
        entries[e].0@ == fields[k].key.raw@,
    ensures
        default_key_repeated(fields, k),
{
    assert(default_has_key(fields, k, entries[e].0@));
    let j = choose|j: int| 0 <= j < k && (#[trigger] fields[j]).default_value is Some && fields[j].key.raw@ == entries[e].0@;
    assert(fields[j].default_value is Some);
}

/// A key that no collected entry holds is not a repeated default key.
proof fn lemma_default_fresh(
    ast: Ast,
    src: Seq<u8>,
    fields: Seq<StructField>,
    k: int,
    entries: Seq<(String, JsonValue)>,
    fuel: nat,
)
    requires
        0 <= k < fields.len(),
        defaults_hold(ast, src, fields, k, entries, fuel),
        forall|e: int| 0 <= e < entries.len() ==> (#[trigger] entries[e]).0@ != fields[k].key.raw@,
    ensures
        !default_key_repeated(fields, k),
{
    if default_key_repeated(fields, k) {
        let i = choose|i: int|
            0 <= i < k && (#[trigger] fields[i]).default_value is Some && fields[i].key.raw@ == fields[k].key.raw@;
        let e = key_index(entries, Some(fields[i].key.raw@));
        assert(entries[e].0@ == fields[k].key.raw@);
    }
}

/// Adding the default of field `k` keeps every collected default in place.
proof fn lemma_default_step(
    ast: Ast,
    src: Seq<u8>,
    fields: Seq<StructField>,
    k: int,
    before: Seq<(String, JsonValue)>,
    after: Seq<(String, JsonValue)>,
    p: int,
    key: String,
    value: JsonValue,
    fuel: nat,
)
    requires
        0 <= k < fields.len(),
        defaults_hold(ast, src, fields, k, before, fuel),
        entries_from_defaults(fields, k, before),
        keys_sorted(after),
        fields[k].default_value is Some,
        key@ == fields[k].key.raw@,
        value_json(ast, src, fields[k].default_value->Some_0, Ok(value), fuel),
        0 <= p <= before.len(),
        after == before.insert(p, (key, value)),
    ensures
        defaults_hold(ast, src, fields, k + 1, after, fuel),
        entries_from_defaults(fields, k + 1, after),
{
    before.insert_ensures(p, (key, value));
    assert forall|j: int| #![trigger fields[j]] 0 <= j < k + 1 && fields[j].default_value is Some implies {
        let e = key_index(after, Some(fields[j].key.raw@));
        &&& 0 <= e < after.len()
        &&& after[e].0@ == fields[j].key.raw@
        &&& value_json(ast, src, fields[j].default_value->Some_0, Ok(after[e].1), fuel)
    } by {
        let kj = Some(fields[j].key.raw@);
        let at = if j == k {
            p
        } else {
            let e0 = key_index(before, kj);
            if e0 < p {
                e0
            } else {
                e0 + 1
            }
        };
        if j == k {
            assert(after[p] == (key, value));
        } else {
            let e0 = key_index(before, kj);
            assert(0 <= e0 < before.len() && before[e0].0@ == fields[j].key.raw@);
            assert(after[at] == before[e0]);
        }
        assert(Some(after[at].0@) == kj);
        let e = key_index(after, kj);
        lemma_keys_unique(after, e, at);
    }
    assert forall|e: int| 0 <= e < after.len() implies default_has_key(fields, k + 1, (#[trigger] after[e]).0@) by {
        if e == p {
            assert(fields[k].default_value is Some && fields[k].key.raw@ == after[e].0@);
        } else {
            let e0 = if e < p {
                e
            } else {
                e - 1
            };
            assert(after[e] == before[e0]);
            assert(default_has_key(fields, k, before[e0].0@));
            let j = choose|j: int|
                0 <= j < k && (#[trigger] fields[j]).default_value is Some && fields[j].key.raw@ == before[e0].0@;
            assert(fields[j].default_value is Some);
        }
    }
}

/// Collect the defaults of a struct schema into one object, stopping at a
/// field without a default when `strict` and skipping it otherwise.
fn collect_defaults(document: &Document, name: &str, schema: &Schema, strict: bool, Ghost(rank): Ghost<nat>) -> (r: Result<
    JsonValue,
    JsonConversionError,
>)
    requires
        document.ast.well_formed(),
        document.ast.schema_refs_below(*schema, rank),
        rank <= document.ast.node_bound(),
    ensures
        defaults_json(
            document.ast,
            vstd::utf8::encode_utf8(document.source@),
            name@,
            schema.fields@,
            strict,
            r,
            document.ast.node_bound(),
        ),
{
    let ghost ast = document.ast;
    let ghost src = vstd::utf8::encode_utf8(document.source@);
    let ghost fuel = ast.node_bound();
    let ghost fields = schema.fields@;
    proof {
        lemma_wf_reveal(ast);
    }
    let mut object: Vec<(String, JsonValue)> = Vec::new();
    let mut k: usize = 0;
    while k < schema.fields.len()
        invariant
            ast == document.ast,
            src == vstd::utf8::encode_utf8(document.source@),
            fuel == ast.node_bound(),
            fields == schema.fields@,
            ast.well_formed(),
            ast.schema_refs_below(*schema, rank),
            rank <= fuel,
            k <= fields.len(),
            object@.len() == default_count(fields.subrange(0, k as int)),
            keys_sorted(object@),
            forall|j: int| 0 <= j < k ==> !#[trigger] default_fails_at(ast, src, fields, j, strict, fuel),
            defaults_hold(ast, src, fields, k as int, object@, fuel),
            entries_from_defaults(fields, k as int, object@),
        decreases fields.len() - k,
    {
        let field = &schema.fields[k];
        proof {
            assert(ast.field_refs_below(*field, rank));
            let next = fields.subrange(0, k + 1);
            assert(next.drop_last() =~= fields.subrange(0, k as int));
            assert(next.last() == fields[k as int]);
        }
        let value_id = match field.default_value {
            Some(value_id) => value_id,
            None => {
                if strict {
                    proof {
                        lemma_first_default_failure_is(ast, src, fields, k as int, strict, fuel);
                    }
                    return Err(JsonConversionError::MissingRequiredField {
                        schema: name.to_owned(),
                        field: field.key.raw.clone(),
                    });
                }
                proof {
                    lemma_from_defaults_grow(fields, k as int, object@);
                }
                k = k + 1;
                continue;
            },
        };
        let mut materializer = Materializer::new(document);
        let value = match materializer.value(value_id, Ghost(fuel)) {
            Ok(value) => value,
            Err(error) => {
                proof {
                    lemma_value_json_ok(ast, src, value_id, Err(error), fuel);
                    lemma_first_default_failure_is(ast, src, fields, k as int, strict, fuel);
                }
                return Err(error);
            },
        };
        proof {
            lemma_value_json_ok(ast, src, value_id, Ok(value), fuel);
        }
        let ghost before = object@;
        let key = field.key.raw.clone();
        match insert_unique(&mut object, key, value) {
            Ok(()) => {},
            Err(error) => {
                proof {
                    let e = choose|e: int| 0 <= e < before.len() && (#[trigger] before[e]).0@ == key@;
                    lemma_default_duplicate(fields, k as int, before, e);
                    lemma_first_default_failure_is(ast, src, fields, k as int, strict, fuel);
                }
                return Err(error);
            },
        }
        proof {
            lemma_default_fresh(ast, src, fields, k as int, before, fuel);
            let p = choose|p: int| 0 <= p <= before.len() && object@ == before.insert(p, (key, value));
            lemma_default_step(ast, src, fields, k as int, before, object@, p, key, value, fuel);
        }
        k = k + 1;
    }
    proof {
        assert(fields.subrange(0, fields.len() as int) =~= fields);
    }
    Ok(JsonValue::Object(object))
}

// ---------------------------------------------------------------------------
// Documents and parse results as JSON
// ---------------------------------------------------------------------------

/// `r` is the JSON text of what materializing gave, or its error.
pub open spec fn text_of_json(m: Result<JsonValue, JsonConversionError>, r: Result<String, JsonConversionError>) -> bool {
    match m {
        Ok(v) => r matches Ok(text) && text@ == json_text(v),
        Err(e) => r == Err::<String, JsonConversionError>(e),
    }
}

/// `r` is what materializing a parse outcome yields: its diagnostics when
/// there are any, and its materialized root otherwise.
pub open spec fn parsed_json(
    document: Document,
    diagnostics: Seq<Diagnostic>,
    r: Result<JsonValue, JsonConversionError>,
) -> bool {
    if diagnostics.len() > 0 {
        r matches Err(JsonConversionError::ParseDiagnostics { diagnostics: ds }) && diags_view(ds@)
            == diags_view(diagnostics)
    } else {
        root_json(document.ast, vstd::utf8::encode_utf8(document.source@), r)
    }
}

impl Document {
    /// Materialize the document root as clean business JSON.
    pub fn to_json_value(&self) -> (r: Result<JsonValue, JsonConversionError>)
        requires
            self.ast.wf(),
        ensures
            root_json(self.ast, vstd::utf8::encode_utf8(self.source@), r),
    {
        proof {
            lemma_wf_reveal(self.ast);
        }
        Materializer::new(self).root()
    }

    /// Materialize the document root as compact JSON text.
    pub fn to_json_string(&self) -> (r: Result<String, JsonConversionError>)
        requires
            self.ast.wf(),
        ensures
            exists|m: Result<JsonValue, JsonConversionError>|
                root_json(self.ast, vstd::utf8::encode_utf8(self.source@), m) && text_of_json(m, r),
    {
        let m = self.to_json_value();
        match m {
            Ok(value) => {
                let mut text = String::new();
                write_json(&mut text, &value);
                proof {
                    assert(text_of_json(m, Ok(text)));
                }
                Ok(text)
            },
            Err(error) => {
                proof {
                    assert(text_of_json(m, Err(error)));
                }
                Err(error)
            },
        }
    }

    /// Export one named root schema as a business-facing descriptor.
    pub fn schema_descriptor(&self, name: &str) -> (r: Result<SchemaDescriptor, JsonConversionError>)
        requires
            self.ast.wf(),
        ensures
            !has_declaration(self.ast, name@) ==> (r matches Err(
                JsonConversionError::SchemaNotFound { name: n },
            ) && n@ == name@),
            has_declaration(self.ast, name@) ==> export_json(
                self.ast,
                vstd::utf8::encode_utf8(self.source@),
                name@,
                declared_schema(self.ast, name@),
                r,
                self.ast.node_bound(),
            ),
    {
        let schema = match find_schema(self, name) {
            Ok(schema) => schema,
            Err(error) => return Err(error),
        };
        proof {
            self.lemma_declared_schema_below(name@);
        }
        SchemaExporter::new(self).export(name, schema, Ghost(self.schema_rank_of(name@)))
    }

    /// The rank of the schema that the root declares as `name`, which bounds
    /// the nodes it refers to.
    spec fn schema_rank_of(&self, name: Seq<char>) -> nat {
        self.ast.schema_rank(declared_schema_id(self.ast, name))
    }

    proof fn lemma_declared_schema_below(&self, name: Seq<char>)
        requires
            self.ast.wf(),
            has_declaration(self.ast, name),
            declared_schema_id(self.ast, name).0 < self.ast.schemas_view().len(),
        ensures
            self.ast.well_formed(),
            self.ast.schema_refs_below(declared_schema(self.ast, name), self.schema_rank_of(name)),
            self.schema_rank_of(name) <= self.ast.node_bound(),
    {
        lemma_wf_reveal(self.ast);
        let i = declared_schema_id(self.ast, name).0 as int;
        assert(self.ast.schema_refs_below(self.ast.schemas@[i], self.ast.ranks@.3[i]));
        assert(self.ast.ranks@.3[i] < self.ast.ranks@.5);
    }

    /// Instantiate every defaulted field of a named struct, failing on required fields.
    pub fn instantiate_defaults(&self, name: &str) -> (r: Result<JsonValue, JsonConversionError>)
        requires
            self.ast.wf(),
        ensures
            !has_declaration(self.ast, name@) ==> (r matches Err(
                JsonConversionError::SchemaNotFound { name: n },
            ) && n@ == name@),
            has_declaration(self.ast, name@) && declared_schema(self.ast, name@).kind != SchemaKind::Struct
                ==> (r matches Err(JsonConversionError::SchemaIsNotStruct { name: n }) && n@ == name@),
            has_declaration(self.ast, name@) && declared_schema(self.ast, name@).kind == SchemaKind::Struct
                ==> defaults_json(
                self.ast,
                vstd::utf8::encode_utf8(self.source@),
                name@,
                declared_schema(self.ast, name@).fields@,
                true,
                r,
                self.ast.node_bound(),
            ),
    {
        self.schema_defaults(name, true)
    }

    /// Materialize only fields that declare defaults, omitting required fields.
    pub fn materialize_partial_defaults(&self, name: &str) -> (r: Result<JsonValue, JsonConversionError>)
        requires
            self.ast.wf(),
        ensures
            !has_declaration(self.ast, name@) ==> (r matches Err(
                JsonConversionError::SchemaNotFound { name: n },
            ) && n@ == name@),
            has_declaration(self.ast, name@) && declared_schema(self.ast, name@).kind != SchemaKind::Struct
                ==> (r matches Err(JsonConversionError::SchemaIsNotStruct { name: n }) && n@ == name@),
            has_declaration(self.ast, name@) && declared_schema(self.ast, name@).kind == SchemaKind::Struct
                ==> defaults_json(
                self.ast,
                vstd::utf8::encode_utf8(self.source@),
                name@,
                declared_schema(self.ast, name@).fields@,
                false,
                r,
                self.ast.node_bound(),
            ),
    {
        self.schema_defaults(name, false)
    }

    fn schema_defaults(&self, name: &str, strict: bool) -> (r: Result<JsonValue, JsonConversionError>)
        requires
            self.ast.wf(),
        ensures
            !has_declaration(self.ast, name@) ==> (r matches Err(
                JsonConversionError::SchemaNotFound { name: n },
            ) && n@ == name@),
            has_declaration(self.ast, name@) && declared_schema(self.ast, name@).kind != SchemaKind::Struct
                ==> (r matches Err(JsonConversionError::SchemaIsNotStruct { name: n }) && n@ == name@),
            has_declaration(self.ast, name@) && declared_schema(self.ast, name@).kind == SchemaKind::Struct
                ==> defaults_json(
                self.ast,
                vstd::utf8::encode_utf8(self.source@),
                name@,
                declared_schema(self.ast, name@).fields@,
                strict,
                r,
                self.ast.node_bound(),
            ),
    {
        let schema = match find_schema(self, name) {
            Ok(schema) => schema,
            Err(error) => return Err(error),
        };
        match schema.kind {
            SchemaKind::Struct => {},
            SchemaKind::Enum => {
                return Err(JsonConversionError::SchemaIsNotStruct { name: name.to_owned() });
            },
        }
        proof {
            self.lemma_declared_schema_below(name@);
        }
        collect_defaults(self, name, schema, strict, Ghost(self.schema_rank_of(name@)))
    }
}

impl ParseResult {
    /// Materialize a successfully parsed result as clean business JSON.
    pub fn to_json_value(&self) -> (r: Result<JsonValue, JsonConversionError>)
        requires
            self.document.ast.wf(),
        ensures
            parsed_json(self.document, self.diagnostics@, r),
    {
        match ensure_no_diagnostics(self) {
            Ok(()) => self.document.to_json_value(),
            Err(error) => Err(error),
        }
    }

    /// Materialize a successfully parsed result as compact JSON text.
    pub fn to_json_string(&self) -> (r: Result<String, JsonConversionError>)
        requires
            self.document.ast.wf(),
        ensures
            exists|m: Result<JsonValue, JsonConversionError>|
                parsed_json(self.document, self.diagnostics@, m) && text_of_json(m, r),
    {
        match ensure_no_diagnostics(self) {
            Ok(()) => {
                let r = self.document.to_json_string();
                proof {
                    let m = choose|m: Result<JsonValue, JsonConversionError>|
                        root_json(self.document.ast, vstd::utf8::encode_utf8(self.document.source@), m)
                            && text_of_json(m, r);
                    assert(parsed_json(self.document, self.diagnostics@, m));
                }
                r
            },
            Err(error) => {
                proof {
                    assert(parsed_json(self.document, self.diagnostics@, Err(error)));
                    assert(text_of_json(Err(error), Err(error)));
                }
                Err(error)
            },
        }
    }
}

/// Parse FON and materialize its root as compact business JSON.
pub fn to_json_string(source: &str) -> (r: Result<String, JsonConversionError>)
    requires
        source.spec_bytes().len() <= u32::MAX,
    ensures
        exists|parsed: ParseResult, m: Result<JsonValue, JsonConversionError>|
            parse_outcome(source.spec_bytes(), default_options(), parsed.document, parsed.diagnostics@)
                && parsed_json(parsed.document, parsed.diagnostics@, m) && text_of_json(m, r),
{
    let parsed = crate::parse(source);
    let r = parsed.to_json_string();
    proof {
        let m = choose|m: Result<JsonValue, JsonConversionError>|
            parsed_json(parsed.document, parsed.diagnostics@, m) && text_of_json(m, r);
        assert(parse_outcome(source.spec_bytes(), default_options(), parsed.document, parsed.diagnostics@)
            && parsed_json(parsed.document, parsed.diagnostics@, m) && text_of_json(m, r));
    }
    r
}

/// Parse FON and materialize its root as a business JSON value.
pub fn parse_to_json_value(source: &str) -> (r: Result<JsonValue, JsonConversionError>)
    requires
        source.spec_bytes().len() <= u32::MAX,
    ensures
        exists|parsed: ParseResult|
            parse_outcome(source.spec_bytes(), default_options(), parsed.document, parsed.diagnostics@)
                && parsed_json(parsed.document, parsed.diagnostics@, r),
{
    let parsed = crate::parse(source);
    let r = parsed.to_json_value();
    proof {
        assert(parse_outcome(source.spec_bytes(), default_options(), parsed.document, parsed.diagnostics@)
            && parsed_json(parsed.document, parsed.diagnostics@, r));
    }
    r
}

fn ensure_no_diagnostics(result: &ParseResult) -> (r: Result<(), JsonConversionError>)
    ensures
        r is Ok <==> result.diagnostics@.len() == 0,
        r is Err ==> (r matches Err(JsonConversionError::ParseDiagnostics { diagnostics: ds })
            && diags_view(ds@) == diags_view(result.diagnostics@)),
{
    if result.diagnostics.len() == 0 {
        return Ok(());
    }
    Err(JsonConversionError::ParseDiagnostics { diagnostics: copy_diagnostics(&result.diagnostics) })
}

// ---------------------------------------------------------------------------
// Error messages
// ---------------------------------------------------------------------------

/// The name of a value kind as its variant is written.
pub open spec fn value_kind_name(kind: ValueKind) -> Seq<char> {
    match kind {
        ValueKind::Boolean => "Boolean"@,
        ValueKind::Number => "Number"@,
        ValueKind::String => "String"@,
        ValueKind::Regex => "Regex"@,
        ValueKind::EnumPath => "EnumPath"@,
        ValueKind::Array => "Array"@,
        ValueKind::Object => "Object"@,
        ValueKind::Schema => "Schema"@,
        ValueKind::Unknown => "Unknown"@,
        ValueKind::Expression => "Expression"@,
        ValueKind::Error => "Error"@,
    }
}

/// The human-readable message of a conversion error.
pub open spec fn error_message(e: JsonConversionError) -> Seq<char> {
    match e {
        JsonConversionError::ParseDiagnostics { diagnostics } => "FON source contains "@ + decimal(
            diagnostics@.len(),
        ) + " diagnostic(s)"@,
        JsonConversionError::InvalidNumber { raw } => "invalid JSON number: "@ + raw@,
        JsonConversionError::UnsupportedInterpolation { span } =>
            "string interpolation cannot be materialized at bytes "@ + decimal(span.start as nat) + ".."@
            + decimal(span.end as nat),
        JsonConversionError::UnsupportedValue { kind } => "FON value kind "@ + value_kind_name(kind)
            + " is not supported as business JSON"@,
        JsonConversionError::UnsupportedMember { kind } => "FON member kind "@ + kind@
            + " is not a data property"@,
        JsonConversionError::InvalidReference { kind, id } => "invalid "@ + kind@ + " reference: "@
            + decimal(id as nat),
        JsonConversionError::DuplicateKey { key } => "duplicate object key: "@ + key@,
        JsonConversionError::SchemaNotFound { name } => "schema not found: "@ + name@,
        JsonConversionError::SchemaIsNotStruct { name } => "schema is not a struct: "@ + name@,
        JsonConversionError::MissingRequiredField { schema, field } => "required field "@ + field@
            + " in schema "@ + schema@ + " has no default value"@,
        JsonConversionError::Serialization(message) => "JSON serialization failed: "@ + message@,
    }
}

fn value_kind_text(kind: ValueKind) -> (r: &'static str)
    ensures
        r@ == value_kind_name(kind),
{
    proof {
        reveal_strlit("Boolean");
        reveal_strlit("Number");
        reveal_strlit("String");
        reveal_strlit("Regex");
        reveal_strlit("EnumPath");
        reveal_strlit("Array");
        reveal_strlit("Object");
        reveal_strlit("Schema");
        reveal_strlit("Unknown");
        reveal_strlit("Expression");
        reveal_strlit("Error");
    }
    match kind {
        ValueKind::Boolean => "Boolean",
        ValueKind::Number => "Number",
        ValueKind::String => "String",
        ValueKind::Regex => "Regex",
        ValueKind::EnumPath => "EnumPath",
        ValueKind::Array => "Array",
        ValueKind::Object => "Object",
        ValueKind::Schema => "Schema",
        ValueKind::Unknown => "Unknown",
        ValueKind::Expression => "Expression",
        ValueKind::Error => "Error",
    }
}

impl JsonConversionError {
    /// The human-readable message of this error.
    pub fn message(&self) -> (r: String)
        ensures
            r@ == error_message(*self),
    {
        let mut text = String::new();
        match self {
            JsonConversionError::ParseDiagnostics { diagnostics } => {
                push_str(&mut text, "FON source contains ");
                write_decimal(&mut text, diagnostics.len() as u64);
                push_str(&mut text, " diagnostic(s)");
            },
            JsonConversionError::InvalidNumber { raw } => {
                push_str(&mut text, "invalid JSON number: ");
                push_str(&mut text, raw.as_str());
            },
            JsonConversionError::UnsupportedInterpolation { span } => {
                push_str(&mut text, "string interpolation cannot be materialized at bytes ");
                write_decimal(&mut text, span.start as u64);
                push_str(&mut text, "..");
                write_decimal(&mut text, span.end as u64);
            },
            JsonConversionError::UnsupportedValue { kind } => {
                push_str(&mut text, "FON value kind ");
                push_str(&mut text, value_kind_text(*kind));
                push_str(&mut text, " is not supported as business JSON");
            },
            JsonConversionError::UnsupportedMember { kind } => {
                push_str(&mut text, "FON member kind ");
                push_str(&mut text, kind);
                push_str(&mut text, " is not a data property");
            },
            JsonConversionError::InvalidReference { kind, id } => {
                push_str(&mut text, "invalid ");
                push_str(&mut text, kind);
                push_str(&mut text, " reference: ");
                write_decimal(&mut text, *id as u64);
            },
            JsonConversionError::DuplicateKey { key } => {
                push_str(&mut text, "duplicate object key: ");
                push_str(&mut text, key.as_str());
            },
            JsonConversionError::SchemaNotFound { name } => {
                push_str(&mut text, "schema not found: ");
                push_str(&mut text, name.as_str());
            },
            JsonConversionError::SchemaIsNotStruct { name } => {
                push_str(&mut text, "schema is not a struct: ");
                push_str(&mut text, name.as_str());
            },
            JsonConversionError::MissingRequiredField { schema, field } => {
                push_str(&mut text, "required field ");
                push_str(&mut text, field.as_str());
                push_str(&mut text, " in schema ");
                push_str(&mut text, schema.as_str());
                push_str(&mut text, " has no default value");
            },
            JsonConversionError::Serialization(message) => {
                push_str(&mut text, "JSON serialization failed: ");
                push_str(&mut text, message.as_str());
            },
        }
        proof {
            reveal_strlit("FON source contains ");
            reveal_strlit(" diagnostic(s)");
            reveal_strlit("invalid JSON number: ");
            reveal_strlit("string interpolation cannot be materialized at bytes ");
            reveal_strlit("..");
            reveal_strlit("FON value kind ");
            reveal_strlit(" is not supported as business JSON");
            reveal_strlit("FON member kind ");
            reveal_strlit(" is not a data property");
            reveal_strlit("invalid ");
            reveal_strlit(" reference: ");
            reveal_strlit("duplicate object key: ");
            reveal_strlit("schema not found: ");
            reveal_strlit("schema is not a struct: ");
            reveal_strlit("required field ");
            reveal_strlit(" in schema ");
            reveal_strlit(" has no default value");
            reveal_strlit("JSON serialization failed: ");
            assert(text@ =~= error_message(*self));
        }
        text
    }
}

} // verus!
