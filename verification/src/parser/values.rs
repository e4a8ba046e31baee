use vstd::prelude::*;
use vstd::string::StringSliceAdditionalSpecFns;

use crate::ast::{
    span_within, lemma_valid_below, spans_text, value_kind_of, ArrayValue, CstNodeKind, EnumValue, EnumValueKind,
    ErrorNode, RegexValue, SchemaKind, SchemaValue, StringPart, StringPartKind, StringValue, UnknownShape,
    UnknownValue, Value, ValueId, ValueKind,
};
use crate::lexer::{char_ascii_digit, token_shaped};
use crate::parser::{lemma_grows_refl, lemma_grows_trans, Parser};
use crate::span::Span;
use crate::text::{
    boundary, char_at, alphanumeric_char, char_width, decode_char, is_alphanumeric,
    lemma_next_boundary, push_char, push_str, slice_text, text_of,
};
use crate::token::{Token, TokenKind};

verus! {

broadcast use crate::parser::lemma_grows_trans;

// ---------------------------------------------------------------------------
// Backtick string parts
// ---------------------------------------------------------------------------

/// The position after the `}` that closes an interpolation scanned from `q`,
/// or `end` when none does.
pub open spec fn interpolation_end(s: Seq<u8>, q: int, end: int) -> int
    decreases end - q,
{
    if q >= end || q < 0 || q >= s.len() {
        q
    } else if s[q] == 0x7d {
        q + 1
    } else {
        interpolation_end(s, q + 1, end)
    }
}

pub open spec fn text_part(start: int, end: int) -> StringPart {
    StringPart { span: Span { start: start as u32, end: end as u32 }, kind: StringPartKind::Text }
}

pub open spec fn interpolation_part(start: int, end: int) -> StringPart {
    StringPart {
        span: Span { start: start as u32, end: end as u32 },
        kind: StringPartKind::Interpolation,
    }
}

/// The parts of the string content from `cursor` to `end`, the current text
/// segment having started at `segment`: text runs, and `{...}` interpolations.
pub open spec fn parts_scan(s: Seq<u8>, segment: int, cursor: int, end: int) -> Seq<StringPart>
    decreases end - cursor,
{
    if cursor >= end || cursor < 0 || cursor >= s.len() {
        if segment < end {
            seq![text_part(segment, end)]
        } else {
            seq![]
        }
    } else if s[cursor] != 0x7b {
        parts_scan(s, segment, cursor + 1, end)
    } else {
        let e = interpolation_end(s, cursor + 1, end);
        let before = if segment < cursor {
            seq![text_part(segment, cursor)]
        } else {
            seq![]
        };
        if e <= cursor || e > end {
            before
        } else {
            before + seq![interpolation_part(cursor, e)] + parts_scan(s, e, e, end)
        }
    }
}

/// The parts of a backtick string token: its content without the backticks,
/// split into text runs and interpolations.
pub open spec fn string_parts_spec(s: Seq<u8>, span: Span) -> Seq<StringPart> {
    let start = if span.start == u32::MAX { span.start as int } else { span.start + 1 };
    let end = if span.end == 0 { 0int } else { span.end - 1 };
    if start >= end {
        seq![]
    } else {
        let parts = parts_scan(s, start, start, end);
        if parts.len() == 0 {
            seq![text_part(start, end)]
        } else {
            parts
        }
    }
}

/// The parts lie over the bytes from `from` to `to`, in order, each part
/// non-empty and starting where the one before it ended; there are none
/// exactly when the range is empty.
pub open spec fn parts_tile(parts: Seq<StringPart>, from: int, to: int) -> bool {
    &&& (parts.len() > 0 <==> from < to)
    &&& parts.len() > 0 ==> parts[0].span.start == from && parts.last().span.end == to
    &&& forall|k: int| 0 <= k < parts.len() ==> (#[trigger] parts[k]).span.start < parts[k].span.end
    &&& forall|k: int|
        0 <= k < parts.len() - 1 ==> (#[trigger] parts[k]).span.end == (#[trigger] parts[k
            + 1]).span.start
}

/// No two text runs are adjacent, and each interpolation starts with `{`
/// and holds no `}` but, where it is closed, as its last byte.
pub open spec fn parts_shaped(s: Seq<u8>, parts: Seq<StringPart>) -> bool {
    &&& forall|k: int|
        0 <= k < parts.len() - 1 && (#[trigger] parts[k]).kind == StringPartKind::Text ==> (
        #[trigger] parts[k + 1]).kind == StringPartKind::Interpolation
    &&& forall|k: int|
        0 <= k < parts.len() && (#[trigger] parts[k]).kind == StringPartKind::Interpolation ==> {
            &&& s[parts[k].span.start as int] == 0x7bu8
            &&& forall|q: int| parts[k].span.start < q < parts[k].span.end - 1 ==> s[q] != 0x7du8
        }
}

proof fn lemma_shaped_concat(s: Seq<u8>, a: Seq<StringPart>, b: Seq<StringPart>)
    requires
        parts_shaped(s, a),
        parts_shaped(s, b),
        a.len() > 0 && b.len() > 0 && a.last().kind == StringPartKind::Text ==> b[0].kind
            == StringPartKind::Interpolation,
    ensures
        parts_shaped(s, a + b),
{
    let c = a + b;
    assert forall|k: int|
        0 <= k < c.len() - 1 && (#[trigger] c[k]).kind == StringPartKind::Text implies (#[trigger] c[k
        + 1]).kind == StringPartKind::Interpolation by {
        if k + 1 < a.len() {
            assert(c[k] == a[k] && c[k + 1] == a[k + 1]);
        } else if k + 1 == a.len() {
            assert(c[k] == a.last() && c[k + 1] == b[0]);
        } else {
            assert(c[k] == b[k - a.len()] && c[k + 1] == b[k - a.len() + 1]);
        }
    }
    assert forall|k: int| 0 <= k < c.len() && (#[trigger] c[k]).kind == StringPartKind::Interpolation implies {
        &&& s[c[k].span.start as int] == 0x7bu8
        &&& forall|q: int| c[k].span.start < q < c[k].span.end - 1 ==> s[q] != 0x7du8
    } by {
        if k < a.len() {
            assert(c[k] == a[k]);
        } else {
            assert(c[k] == b[k - a.len()]);
        }
    }
}

proof fn lemma_interpolation_end_clear(s: Seq<u8>, q: int, end: int)
    requires
        0 <= q < end <= s.len(),
    ensures
        forall|x: int| q <= x < interpolation_end(s, q, end) - 1 ==> s[x] != 0x7du8,
    decreases end - q,
{
    if s[q] != 0x7d && q + 1 < end {
        lemma_interpolation_end_clear(s, q + 1, end);
    } else if s[q] != 0x7d {
        assert(interpolation_end(s, q + 1, end) == q + 1);
    }
}

proof fn lemma_tile_concat(a: Seq<StringPart>, b: Seq<StringPart>, x: int, y: int, z: int)
    requires
        x <= y <= z,
        parts_tile(a, x, y),
        parts_tile(b, y, z),
    ensures
        parts_tile(a + b, x, z),
{
    let c = a + b;
    assert forall|k: int| 0 <= k < c.len() implies (#[trigger] c[k]).span.start < c[k].span.end by {
        if k >= a.len() {
            assert(c[k] == b[k - a.len()]);
        }
    }
    assert forall|k: int| 0 <= k < c.len() - 1 implies (#[trigger] c[k]).span.end == (#[trigger] c[k
        + 1]).span.start by {
        if k + 1 < a.len() {
            assert(c[k] == a[k] && c[k + 1] == a[k + 1]);
        } else if k + 1 == a.len() {
            assert(c[k] == a.last() && c[k + 1] == b[0]);
        } else {
            assert(c[k] == b[k - a.len()] && c[k + 1] == b[k - a.len() + 1]);
        }
    }
    if c.len() > 0 {
        if a.len() > 0 {
            assert(c[0] == a[0]);
        }
        if b.len() > 0 {
            assert(c.last() == b.last());
        } else {
            assert(c =~= a);
        }
        if a.len() == 0 {
            assert(c =~= b);
        }
    }
}

proof fn lemma_interpolation_end_bounds(s: Seq<u8>, q: int, end: int)
    requires
        0 <= q < end <= s.len(),
    ensures
        q < interpolation_end(s, q, end) <= end,
    decreases end - q,
{
    if s[q] != 0x7d {
        if q + 1 < end {
            lemma_interpolation_end_bounds(s, q + 1, end);
        } else {
            assert(interpolation_end(s, q + 1, end) == q + 1);
        }
    }
}

proof fn lemma_parts_scan_tile(s: Seq<u8>, segment: int, cursor: int, end: int)
    requires
        0 <= segment <= cursor <= end <= s.len(),
        s.len() <= u32::MAX,
    ensures
        parts_tile(parts_scan(s, segment, cursor, end), segment, end),
        parts_shaped(s, parts_scan(s, segment, cursor, end)),
        segment < cursor && parts_scan(s, segment, cursor, end).len() > 0 ==> parts_scan(
            s,
            segment,
            cursor,
            end,
        )[0].kind == StringPartKind::Text,
        segment == cursor && cursor < end && s[cursor] != 0x7b ==> parts_scan(s, segment, cursor, end)[0].kind
            == StringPartKind::Text,
    decreases end - cursor,
{
    if cursor >= end {
    } else if s[cursor] != 0x7b {
        lemma_parts_scan_tile(s, segment, cursor + 1, end);
    } else {
        let e = interpolation_end(s, cursor + 1, end);
        if cursor + 1 < end {
            lemma_interpolation_end_bounds(s, cursor + 1, end);
        }
        assert(cursor < e <= end);
        let before: Seq<StringPart> = if segment < cursor {
            seq![text_part(segment, cursor)]
        } else {
            seq![]
        };
        let middle = seq![interpolation_part(cursor, e)];
        lemma_parts_scan_tile(s, e, e, end);
        lemma_tile_concat(before, middle, segment, cursor, e);
        lemma_tile_concat(before + middle, parts_scan(s, e, e, end), segment, e, end);
        if cursor + 1 < end {
            lemma_interpolation_end_clear(s, cursor + 1, end);
        }
        assert(parts_shaped(s, middle));
        lemma_shaped_concat(s, before, middle);
        lemma_shaped_concat(s, before + middle, parts_scan(s, e, e, end));
        assert((before + middle + parts_scan(s, e, e, end))[0] == (before + middle)[0]);
    }
}

/// The parts of a string token tile its content, the bytes between the
/// backticks.
pub(crate) proof fn lemma_string_parts_tile(s: Seq<u8>, span: Span)
    requires
        span.start < span.end <= s.len() <= u32::MAX,
    ensures
        parts_tile(string_parts_spec(s, span), span.start + 1, span.end - 1),
        parts_shaped(s, string_parts_spec(s, span)),
{
    let start = span.start + 1;
    let end = span.end - 1;
    if start < end {
        lemma_parts_scan_tile(s, start, start, end);
    }
}

// ---------------------------------------------------------------------------
// Unknown atoms
// ---------------------------------------------------------------------------

/// Every character from `q` on is alphanumeric, `-` or `_`.
pub open spec fn bare_chars(s: Seq<u8>, q: int) -> bool
    decreases s.len() - q,
{
    if q < 0 || q >= s.len() || q + char_width(s, q) > s.len() {
        true
    } else {
        let c = char_at(s, q);
        (alphanumeric_char(c) || c == '-' || c == '_') && bare_chars(s, q + char_width(s, q))
    }
}

/// The number of `.` bytes from `q` on.
pub open spec fn dot_count(s: Seq<u8>, q: int) -> nat
    decreases s.len() - q,
{
    if q < 0 || q >= s.len() {
        0
    } else {
        (if s[q] == 0x2e { 1nat } else { 0nat }) + dot_count(s, q + 1)
    }
}

/// The lexical shape of an unknown atom, from its UTF-8 bytes.
pub open spec fn classify_spec(s: Seq<u8>) -> UnknownShape {
    let b = |i: int| if 0 <= i < s.len() { s[i] as int } else { -1 };
    if (b(0) == 0x2e && b(1) == 0x2f) || (b(0) == 0x2e && b(1) == 0x2e && b(2) == 0x2f) || b(0)
        == 0x2f {
        UnknownShape::PathLike
    } else if b(0) == 0x23 {
        UnknownShape::ColorLike
    } else if b(0) == 0x40 {
        UnknownShape::PackageLike
    } else if b(0) == 0x5e || dot_count(s, 0) >= 2 {
        UnknownShape::VersionLike
    } else if bare_chars(s, 0) {
        UnknownShape::BareAtom
    } else {
        UnknownShape::Other
    }
}

/// The regular expression token `span` has a closing `/` after its first
/// byte, and its pattern lies between character boundaries.
pub open spec fn regex_closes(src: Seq<u8>, span: Span) -> bool {
    let q = last_slash(src, span.start + 1, span.end as int);
    q is Some && boundary(src, span.start + 1) && boundary(src, q->Some_0)
}

/// `v` is the regular expression of token `span`: the text up to its last
/// `/` is the pattern, and the text after it, if any, the flags.
pub open spec fn regex_parsed(src: Seq<u8>, span: Span, v: Value) -> bool {
    let q = last_slash(src, span.start + 1, span.end as int)->Some_0;
    &&& v is Regex
    &&& v->Regex_0.span == span
    &&& v->Regex_0.pattern@ == text_of(src, span.start + 1, q)
    &&& if q + 1 < span.end && boundary(src, q + 1) && boundary(src, span.end as int) {
        v->Regex_0.flags is Some && v->Regex_0.flags->Some_0@ == text_of(src, q + 1, span.end as int)
    } else {
        v->Regex_0.flags is None
    }
}

/// The last `/` in `lo..hi`, if there is one.
pub open spec fn last_slash(s: Seq<u8>, lo: int, hi: int) -> Option<int>
    decreases hi - lo,
{
    if hi <= lo || hi > s.len() || lo < 0 {
        None
    } else if s[hi - 1] == 0x2f {
        Some(hi - 1)
    } else {
        last_slash(s, lo, hi - 1)
    }
}

/// The last `/` found lies in the range searched.
proof fn lemma_last_slash_in_range(s: Seq<u8>, lo: int, hi: int)
    ensures
        last_slash(s, lo, hi) matches Some(x) ==> lo <= x < hi,
    decreases hi - lo,
{
    if !(hi <= lo || hi > s.len() || lo < 0) && s[hi - 1] != 0x2f {
        lemma_last_slash_in_range(s, lo, hi - 1);
    }
}

fn byte_or_none(s: &[u8], i: usize) -> (r: i32)
    ensures
        r == if i < s@.len() { s@[i as int] as int } else { -1 },
{
    if i < s.len() {
        s[i] as i32
    } else {
        -1
    }
}

/// Classify an unknown atom by its spelling.
pub fn classify_unknown(raw: &str) -> (shape: UnknownShape)
    ensures
        shape == classify_spec(raw.spec_bytes()),
{
    let s = raw.as_bytes();
    let b0 = byte_or_none(s, 0);
    let b1 = byte_or_none(s, 1);
    let b2 = byte_or_none(s, 2);
    if (b0 == 0x2e && b1 == 0x2f) || (b0 == 0x2e && b1 == 0x2e && b2 == 0x2f) || b0 == 0x2f {
        return UnknownShape::PathLike;
    }
    if b0 == 0x23 {
        return UnknownShape::ColorLike;
    }
    if b0 == 0x40 {
        return UnknownShape::PackageLike;
    }
    if b0 == 0x5e || count_dots(s) >= 2 {
        return UnknownShape::VersionLike;
    }
    proof {
        vstd::utf8::encode_utf8_valid_utf8(raw@);
        vstd::utf8::is_char_boundary_start_end_of_seq(s@);
    }
    if all_bare_chars(s) {
        return UnknownShape::BareAtom;
    }
    UnknownShape::Other
}

fn count_dots(s: &[u8]) -> (n: usize)
    ensures
        n == dot_count(s@, 0),
{
    let mut n: usize = 0;
    let mut i: usize = s.len();
    while i > 0
        invariant
            i <= s@.len(),
            n <= s@.len() - i,
            n == dot_count(s@, i as int),
        decreases i,
    {
        i = i - 1;
        if s[i] == 0x2e {
            n = n + 1;
        }
    }
    n
}

fn all_bare_chars(s: &[u8]) -> (r: bool)
    requires
        boundary(s@, 0),
    ensures
        r == bare_chars(s@, 0),
{
    let mut q: usize = 0;
    while q < s.len()
        invariant
            q <= s@.len(),
            boundary(s@, q as int),
            bare_chars(s@, 0) == bare_chars(s@, q as int),
        decreases s@.len() - q,
    {
        let (c, w) = decode_char(s, q);
        if !(is_alphanumeric(c) || c == '-' || c == '_') {
            return false;
        }
        q = q + w;
    }
    true
}

/// A token that is a whole value by itself and needs no scheme or
/// nesting: a boolean, a number, a backtick string or an unknown atom.
pub open spec fn literal_kind(k: TokenKind) -> bool {
    k == TokenKind::True || k == TokenKind::False || k == TokenKind::Integer || k
        == TokenKind::Decimal || k == TokenKind::String || k == TokenKind::UnknownAtom
}

/// The number of tokens of the value that starts at token `i` where it is
/// a literal, a bare identifier, or `.` and an identifier; 0 otherwise.
pub open spec fn simple_value_len(t: Seq<Token>, i: int) -> int {
    if !(0 <= i && i + 1 < t.len()) {
        0
    } else if literal_kind(t[i].kind) {
        1
    } else if t[i].kind == TokenKind::Identifier && t[i + 1].kind != TokenKind::Dot {
        1
    } else if t[i].kind == TokenKind::Dot && t[i + 1].kind == TokenKind::Identifier {
        2
    } else {
        0
    }
}

/// `v` is the value of the simple value at token `i`: a literal as
/// `value_begun` gives it, a bare identifier as an unknown atom of its text,
/// and `.` and an identifier as a shorthand enum path of their text.
pub open spec fn simple_value(src: Seq<u8>, t: Seq<Token>, i: int, v: Value) -> bool {
    if literal_kind(t[i].kind) {
        value_begun(src, t[i], v)
    } else if t[i].kind == TokenKind::Identifier {
        v matches Value::Unknown(u) && u.span == t[i].span && u.shape == UnknownShape::BareAtom && u.raw@
            == text_of(src, t[i].span.start as int, t[i].span.end as int)
    } else {
        v matches Value::EnumPath(e) && e.kind == EnumValueKind::Shorthand && e.span == Span {
            start: t[i].span.start,
            end: t[i + 1].span.end,
        } && e.path@ == text_of(src, t[i].span.start as int, t[i + 1].span.end as int)
    }
}

/// `v` is the value that parsing from token `cur` starts: a literal of
/// that token's text and span; for a regular expression that closes, the
/// parsed pattern and flags; an enum path, unknown atom or error after a
/// dot or an identifier; an object or array opened by the bracket; a schema
/// of the keyword's kind; and otherwise the error "expected a value" at the
/// token.
pub open spec fn value_begun(src: Seq<u8>, cur: Token, v: Value) -> bool {
    let text = text_of(src, cur.span.start as int, cur.span.end as int);
    match cur.kind {
        TokenKind::True => v == (Value::Boolean { value: true, span: cur.span }),
        TokenKind::False => v == (Value::Boolean { value: false, span: cur.span }),
        TokenKind::Integer | TokenKind::Decimal => v matches Value::Number { raw, span } && span
            == cur.span && raw@ == text,
        TokenKind::String => v matches Value::String(sv) && sv.span == cur.span && sv.raw@ == text
            && sv.parts@ == string_parts_spec(src, cur.span),
        TokenKind::Regex => regex_closes(src, cur.span) ==> regex_parsed(src, cur.span, v),
        TokenKind::UnknownAtom => v matches Value::Unknown(u) && u.span == cur.span && u.raw@ == text
            && u.shape == classify_spec(src.subrange(cur.span.start as int, cur.span.end as int)),
        TokenKind::Dot | TokenKind::Identifier => v is EnumPath || v is Unknown || v is Error,
        TokenKind::LBrace => v matches Value::Object(o) && o.span.start == cur.span.start,
        TokenKind::LBracket => v matches Value::Array(a) && a.span.start == cur.span.start,
        TokenKind::Struct => v matches Value::Schema(sv) && sv.kind == SchemaKind::Struct,
        TokenKind::Enum => v matches Value::Schema(sv) && sv.kind == SchemaKind::Enum,
        _ => v matches Value::Error(e) && e.message@ == "expected a value"@ && e.span == cur.span,
    }
}

impl<'source> Parser<'source> {
    /// The span of a value, or the current token's span for a missing value.
    pub(crate) fn value_span(&self, value_id: ValueId) -> (span: Span)
        requires
            self.inv(),
        ensures
            self.valid_value(value_id) ==> span == crate::ast::value::value_span_of(
                self.ast.values@[value_id.0 as int],
            ),
            !self.valid_value(value_id) ==> span == self.cur().span,
            span_within(self.src(), span),
    {
        let index = value_id.0 as usize;
        if index < self.ast.values.len() {
            self.ast.values[index].span()
        } else {
            self.current_span()
        }
    }

    pub(crate) fn value_end(&self, value_id: ValueId) -> (end: u32)
        requires
            self.inv(),
        ensures
            end == if self.valid_value(value_id) {
                crate::ast::value::value_span_of(self.ast.values@[value_id.0 as int]).end
            } else {
                self.cur().span.end
            },
            end <= self.src().len(),
    {
        self.value_span(value_id).end
    }

    /// Parse a value: a literal, an enum path, an unknown atom, an array, an
    /// object or a schema, or an error node when none starts here.
    pub(crate) fn parse_value(&mut self) -> (id: ValueId)
        requires
            old(self).inv(),
        ensures
            final(self).ok_after(*old(self)),
            final(self).valid_value(id),
            final(self).ast.values@.len() + 2 < u32::MAX && final(self).ast.schemas@.len() + 2 < u32::MAX
                ==> value_begun(
                old(self).src(),
                old(self).cur(),
                final(self).ast.values@[id.0 as int],
            ),
            simple_value_len(old(self).tokens@, old(self).position as int) > 0
                && final(self).ast.values@.len() + 2 < u32::MAX ==> {
                &&& final(self).position == old(self).position + simple_value_len(
                    old(self).tokens@,
                    old(self).position as int,
                )
                &&& final(self).diagnostics@ == old(self).diagnostics@
                &&& simple_value(
                    old(self).src(),
                    old(self).tokens@,
                    old(self).position as int,
                    final(self).ast.values@[id.0 as int],
                )
            },
        decreases old(self).remaining(), 5int,
    {
        match self.current_kind() {
            TokenKind::True => self.parse_boolean(true),
            TokenKind::False => self.parse_boolean(false),
            TokenKind::Integer | TokenKind::Decimal => self.parse_number(),
            TokenKind::String => self.parse_string(),
            TokenKind::Regex => self.parse_regex(),
            TokenKind::Dot | TokenKind::Identifier => self.parse_enum_or_unknown(),
            TokenKind::UnknownAtom => self.parse_unknown_atom(),
            TokenKind::LBrace => self.parse_object_value(),
            TokenKind::LBracket => self.parse_array_value(),
            TokenKind::Struct | TokenKind::Enum => self.parse_schema_value(),
            _ => self.parse_error_value("expected a value"),
        }
    }

    fn parse_boolean(&mut self, value: bool) -> (id: ValueId)
        requires
            old(self).inv(),
        ensures
            final(self).ok_after(*old(self)),
            final(self).valid_value(id),
            old(self).ast.values@.len() + 2 < u32::MAX ==> final(self).ast.values@[id.0 as int]
                == (Value::Boolean { value, span: old(self).cur().span }),
            old(self).cur_kind() != TokenKind::Eof ==> final(self).position == old(self).position + 1,
            final(self).ast.values@.len() + 2 < u32::MAX ==> final(self).diagnostics@ == old(self).diagnostics@,
    {
        let span = self.advance().span;
        self.add_value(Value::Boolean { value, span })
    }

    fn parse_number(&mut self) -> (id: ValueId)
        requires
            old(self).inv(),
        ensures
            final(self).ok_after(*old(self)),
            final(self).valid_value(id),
            old(self).ast.values@.len() + 2 < u32::MAX ==> (final(self).ast.values@[id.0 as int]
                matches Value::Number { raw, span } && span == old(self).cur().span && raw@
                == text_of(old(self).src(), span.start as int, span.end as int)),
            old(self).cur_kind() != TokenKind::Eof ==> final(self).position == old(self).position + 1,
            final(self).ast.values@.len() + 2 < u32::MAX ==> final(self).diagnostics@ == old(self).diagnostics@,
    {
        let token = self.advance();
        let span = token.span;
        let raw = self.token_text(token);
        self.add_value(Value::Number { raw, span })
    }

    fn parse_string(&mut self) -> (id: ValueId)
        requires
            old(self).inv(),
            old(self).cur_kind() == TokenKind::String,
        ensures
            final(self).ok_after(*old(self)),
            final(self).valid_value(id),
            old(self).ast.values@.len() + 2 < u32::MAX ==> (final(self).ast.values@[id.0 as int]
                matches Value::String(v) && v.span == old(self).cur().span && v.raw@ == text_of(
                old(self).src(),
                v.span.start as int,
                v.span.end as int,
            ) && v.parts@ == string_parts_spec(old(self).src(), v.span)),
            old(self).cur_kind() != TokenKind::Eof ==> final(self).position == old(self).position + 1,
            final(self).ast.values@.len() + 2 < u32::MAX ==> final(self).diagnostics@ == old(self).diagnostics@,
    {
        let token = self.advance();
        let span = token.span;
        let raw = self.token_text(token);
        let parts = self.parse_string_parts(span);
        self.add_value(Value::String(StringValue { raw, parts, span }))
    }

    /// Split the content of a backtick string into text runs and `{...}`
    /// interpolations, by their byte spans.
    fn parse_string_parts(&self, span: Span) -> (parts: Vec<StringPart>)
        requires
            self.inv(),
            span.end <= self.src().len(),
        ensures
            parts@ == string_parts_spec(self.src(), span),
    {
        let content_start = span.start.saturating_add(1) as usize;
        let content_end = span.end.saturating_sub(1) as usize;
        if content_start >= content_end {
            return Vec::new();
        }
        let ghost s = self.src();
        let mut parts: Vec<StringPart> = Vec::new();
        let mut segment_start = content_start;
        let mut cursor = content_start;
        while cursor < content_end
            invariant
                s == self.src(),
                self.inv(),
                content_start <= segment_start <= cursor,
                cursor <= content_end <= s.len(),
                content_end <= u32::MAX,
                parts@ + parts_scan(s, segment_start as int, cursor as int, content_end as int)
                    == parts_scan(s, content_start as int, content_start as int, content_end as int),
            decreases content_end - cursor,
        {
            if self.bytes[cursor] != 0x7b {
                cursor = cursor + 1;
                continue ;
            }
            let ghost before = parts@;
            let ghost old_segment = segment_start as int;
            let ghost old_cursor = cursor as int;
            if segment_start < cursor {
                parts.push(StringPart { span: Span::new(segment_start as u32, cursor as u32), kind: StringPartKind::Text });
            }
            let expression_start = cursor;
            cursor = cursor + 1;
            let ghost scan_from = cursor as int;
            while cursor < content_end
                invariant_except_break
                    s == self.src(),
                    self.inv(),
                    expression_start < cursor <= content_end <= s.len(),
                    interpolation_end(s, scan_from, content_end as int) == interpolation_end(
                        s,
                        cursor as int,
                        content_end as int,
                    ),
                ensures
                    expression_start < cursor <= content_end,
                    interpolation_end(s, scan_from, content_end as int) == cursor,
                decreases content_end - cursor,
            {
                let expression_char = self.bytes[cursor];
                cursor = cursor + 1;
                if expression_char == 0x7d {
                    break ;
                }
            }
            parts.push(StringPart { span: Span::new(expression_start as u32, cursor as u32), kind: StringPartKind::Interpolation });
            segment_start = cursor;
            proof {
                let pre = if old_segment < old_cursor {
                    seq![text_part(old_segment, old_cursor)]
                } else {
                    seq![]
                };
                assert(parts@ =~= before + pre + seq![interpolation_part(old_cursor, cursor as int)]);
                assert(parts_scan(s, old_segment, old_cursor, content_end as int) == pre + seq![
                    interpolation_part(old_cursor, cursor as int),
                ] + parts_scan(s, cursor as int, cursor as int, content_end as int));
                assert(parts@ + parts_scan(s, cursor as int, cursor as int, content_end as int)
                    =~= before + parts_scan(s, old_segment, old_cursor, content_end as int));
            }
        }
        if segment_start < content_end {
            parts.push(StringPart { span: Span::new(segment_start as u32, content_end as u32), kind: StringPartKind::Text });
        }
        if parts.len() == 0 {
            parts.push(StringPart { span: Span::new(content_start as u32, content_end as u32), kind: StringPartKind::Text });
        }
        parts
    }

    fn parse_regex(&mut self) -> (id: ValueId)
        requires
            old(self).inv(),
            old(self).cur_kind() == TokenKind::Regex,
        ensures
            final(self).ok_after(*old(self)),
            final(self).valid_value(id),
            final(self).position == old(self).position + 1,
            regex_closes(old(self).src(), old(self).cur().span) && old(self).ast.values@.len() + 2
                < u32::MAX ==> regex_parsed(
                old(self).src(),
                old(self).cur().span,
                final(self).ast.values@[id.0 as int],
            ),
            !regex_closes(old(self).src(), old(self).cur().span) ==> final(self).diagnostics@.len()
                > old(self).diagnostics@.len(),
            !regex_closes(old(self).src(), old(self).cur().span) ==> final(self).diagnostics@[old(
                self,
            ).diagnostics@.len() as int].code@ == "E0106"@,
            !regex_closes(old(self).src(), old(self).cur().span) ==> final(self).diagnostics@[old(
                self,
            ).diagnostics@.len() as int].message@ == "invalid regular expression"@,
    {
        let token = self.advance();
        let span = token.span;
        let start = span.start as usize;
        let end = span.end as usize;
        let closing = self.last_slash_in(start, end);
        match closing {
            None => {
                let id = self.parse_error_value("invalid regular expression");
                proof {
                    reveal_strlit("invalid regular expression");
                }
                id
            },
            Some(q) => {
                let pattern = crate::text::slice_str(self.source, start + 1, q);
                let flags = if q + 1 < end {
                    match crate::text::slice_str(self.source, q + 1, end) {
                        Some(f) => Some(f.to_owned()),
                        None => None,
                    }
                } else {
                    None
                };
                match pattern {
                    Some(p) => {
                        let pattern = p.to_owned();
                        proof {
                            lemma_valid_below(self.ast);
                            lemma_last_slash_in_range(self.src(), start + 1, end as int);
                        }
                        self.add_value(Value::Regex(RegexValue { pattern, flags, span }))
                    },
                    None => {
                        let id = self.parse_error_value("invalid regular expression");
                        proof {
                            reveal_strlit("invalid regular expression");
                        }
                        id
                    },
                }
            },
        }
    }

    /// The last `/` after the first byte of `start..end`.
    fn last_slash_in(&self, start: usize, end: usize) -> (r: Option<usize>)
        requires
            self.inv(),
            start <= end <= self.src().len(),
        ensures
            r == (match last_slash(self.src(), start + 1, end as int) {
                Some(q) => Some(q as usize),
                None => None::<usize>,
            }),
            r matches Some(q) ==> start + 1 <= q < end,
    {
        if end - start < 2 {
            return None;
        }
        let mut hi = end;
        while hi - start > 1
            invariant
                self.inv(),
                start + 1 <= hi <= end <= self.src().len(),
                last_slash(self.src(), start + 1, end as int) == last_slash(
                    self.src(),
                    start + 1,
                    hi as int,
                ),
            decreases hi,
        {
            if self.bytes[hi - 1] == 0x2f {
                return Some(hi - 1);
            }
            hi = hi - 1;
        }
        None
    }

    fn parse_enum_or_unknown(&mut self) -> (id: ValueId)
        requires
            old(self).inv(),
            old(self).cur_kind() == TokenKind::Dot || old(self).cur_kind() == TokenKind::Identifier,
        ensures
            final(self).ok_after(*old(self)),
            final(self).valid_value(id),
            final(self).depth == old(self).depth,
            final(self).ast.values@.len() + 2 < u32::MAX ==> {
                let v = final(self).ast.values@[id.0 as int];
                v is EnumPath || v is Unknown || v is Error
            },
            simple_value_len(old(self).tokens@, old(self).position as int) > 0
                && final(self).ast.values@.len() + 2 < u32::MAX ==> {
                &&& final(self).position == old(self).position + simple_value_len(
                    old(self).tokens@,
                    old(self).position as int,
                )
                &&& final(self).diagnostics@ == old(self).diagnostics@
                &&& simple_value(
                    old(self).src(),
                    old(self).tokens@,
                    old(self).position as int,
                    final(self).ast.values@[id.0 as int],
                )
            },
    {
        let ghost entry = *self;
        proof {
            lemma_grows_refl(*self);
        }
        if self.at(TokenKind::Dot) {
            let dot = self.advance();
            let start = dot.span.start;
            let token = match self.eat(TokenKind::Identifier) {
                Some(token) => token,
                None => {
                    let id = self.parse_error_value("expected an enum variant after '.'");
                    proof {
                        lemma_grows_trans(entry, *old(self), *self);
                    }
                    return id;
                },
            };
            proof {
                assert(self.tokens@[self.position - 2] == dot);
                assert(self.tokens@[self.position - 1] == token);
            }
            let span = Span::new(start, token.span.end);
            let path = slice_text(self.source, start as usize, token.span.end as usize);
            proof {
                lemma_valid_below(self.ast);
            }
            return self.add_value(Value::EnumPath(EnumValue { kind: EnumValueKind::Shorthand, path, span }));
        }
        proof {
            assert(token_shaped(self.src(), self.tokens@[self.position as int]));
        }
        let start_token = self.advance();
        let start = start_token.span.start;
        let mut path = self.token_text(start_token);
        let mut qualified = false;
        let mut end = start_token.span.end;
        proof {
            lemma_grows_refl(*self);
        }
        while self.at(TokenKind::Dot)
            invariant
                self.ok_after(entry),
                entry == *old(self),
                self.depth == entry.depth,
                self.position > entry.position,
                start <= end <= self.src().len(),
                start == entry.cur().span.start,
                !qualified ==> path@ == text_of(entry.src(), start as int, end as int),
                !qualified ==> start < end && entry.src()[start as int] != 0x60u8,
                entry.kind_at(1) != TokenKind::Dot ==> {
                    &&& self.position == entry.position + 1
                    &&& !qualified
                    &&& self.diagnostics@ == entry.diagnostics@
                    &&& self.ast == entry.ast
                    &&& end == entry.cur().span.end
                },
            decreases self.tokens@.len() - self.position,
        {
            let ghost before = *self;
            self.advance();
            qualified = true;
            let token = match self.eat(TokenKind::Identifier) {
                Some(token) => token,
                None => {
                    let span = self.current_span();
                    self.report("E0301", "expected an identifier after '.'", span);
                    proof {
                        lemma_grows_trans(entry, before, *self);
                    }
                    break ;
                },
            };
            proof {
                assert(self.tokens@[self.position - 1] == token);
                assert(self.tokens@[entry.position as int] == entry.cur());
            }
            push_char(&mut path, '.');
            let text = self.token_text(token);
            push_str(&mut path, text.as_str());
            end = token.span.end;
            proof {
                lemma_grows_trans(entry, before, *self);
            }
        }
        let span = Span::new(start, end);
        proof {
            lemma_valid_below(self.ast);
        }
        let ghost before = *self;
        let id = if qualified {
            self.add_value(Value::EnumPath(EnumValue { kind: EnumValueKind::Qualified, path, span }))
        } else {
            self.push_unknown(path, UnknownShape::BareAtom, span)
        };
        proof {
            lemma_grows_trans(entry, before, *self);
        }
        id
    }

    fn parse_unknown_atom(&mut self) -> (id: ValueId)
        requires
            old(self).inv(),
            old(self).cur_kind() == TokenKind::UnknownAtom,
        ensures
            final(self).ok_after(*old(self)),
            final(self).valid_value(id),
            old(self).ast.values@.len() + 2 < u32::MAX ==> (final(self).ast.values@[id.0 as int]
                matches Value::Unknown(v) && v.span == old(self).cur().span && v.raw@ == text_of(
                old(self).src(),
                v.span.start as int,
                v.span.end as int,
            ) && v.shape == classify_spec(
                old(self).src().subrange(v.span.start as int, v.span.end as int),
            )),
            old(self).cur_kind() != TokenKind::Eof ==> final(self).position == old(self).position + 1,
            final(self).ast.values@.len() + 2 < u32::MAX ==> final(self).diagnostics@ == old(self).diagnostics@,
    {
        let token = self.advance();
        let span = token.span;
        let raw = self.token_text(token);
        let raw_str = raw.as_str();
        let shape = classify_unknown(raw_str);
        self.push_unknown(raw, shape, span)
    }

    fn push_unknown(&mut self, raw: String, shape: UnknownShape, span: Span) -> (id: ValueId)
        requires
            old(self).inv(),
            spans_text(old(self).src(), span, raw@),
            span.start < span.end,
            old(self).src()[span.start as int] != 0x60u8,
        ensures
            final(self).ok_after(*old(self)),
            final(self).position == old(self).position,
            final(self).depth == old(self).depth,
            final(self).valid_value(id),
            old(self).ast.values@.len() + 2 < u32::MAX ==> final(self).ast.values@[id.0 as int]
                == Value::Unknown(UnknownValue { raw, shape, span }),
            final(self).ast.values@.len() + 2 < u32::MAX ==> final(self).diagnostics@ == old(self).diagnostics@,
    {
        proof {
            lemma_valid_below(self.ast);
        }
        self.add_value(Value::Unknown(UnknownValue { raw, shape, span }))
    }

    /// Parse the items of an array after its `[`, up to its `]`.
    pub(crate) fn parse_array_items(&mut self) -> (items: Vec<ValueId>)
        requires
            old(self).inv(),
            old(self).cur_kind() == TokenKind::LBracket,
        ensures
            final(self).ok_after(*old(self)),
            final(self).valid_values(items@),
            final(self).position > old(self).position,
        decreases old(self).remaining(), 1int,
    {
        let ghost entry = *self;
        let open_span = self.advance().span;
        proof {
            lemma_grows_refl(entry);
        }
        if !self.enter_nested(open_span) {
            self.recover_to_member_boundary();
            return Vec::new();
        }
        let mut items: Vec<ValueId> = Vec::new();
        self.skip_separators();
        assert(self.position > entry.position);
        proof {
            lemma_grows_refl(*self);
        }
        while !(self.current_kind() == TokenKind::RBracket || self.current_kind() == TokenKind::Eof)
            invariant
                self.ok_after(entry),
                entry == *old(self),
                self.position > entry.position,
                self.valid_values(items@),
            decreases self.tokens@.len() - self.position,
        {
            let ghost before = *self;
            let position = self.position;
            let item = self.parse_value();
            items.push(item);
            self.skip_separators();
            proof {
                lemma_grows_trans(entry, before, *self);
            }
            if self.position == position {
                break ;
            }
        }
        let ghost before = *self;
        if self.eat(TokenKind::RBracket).is_none() {
            let span = self.current_span();
            self.report("E0107", "expected closing bracket", span);
        }
        self.leave_nested();
        proof {
            lemma_grows_trans(entry, before, *self);
        }
        items
    }

    fn parse_array_value(&mut self) -> (id: ValueId)
        requires
            old(self).inv(),
            old(self).cur_kind() == TokenKind::LBracket,
        ensures
            final(self).ok_after(*old(self)),
            final(self).valid_value(id),
            final(self).ast.values@.len() + 2 < u32::MAX ==> (final(self).ast.values@[id.0 as int]
                matches Value::Array(a) && a.span.start == old(self).cur().span.start),
        decreases old(self).remaining(), 2int,
    {
        let ghost entry = *self;
        let start = self.current_span().start;
        let items = self.parse_array_items();
        let end = self.current_span().start;
        let span = Span::new(start, end);
        proof {
            lemma_valid_below(self.ast);
        }
        let ghost before = *self;
        let id = self.add_value(Value::Array(ArrayValue { items, span }));
        proof {
            lemma_grows_trans(entry, before, *self);
        }
        id
    }

    fn parse_schema_value(&mut self) -> (id: ValueId)
        requires
            old(self).inv(),
            old(self).cur_kind() == TokenKind::Struct || old(self).cur_kind() == TokenKind::Enum,
        ensures
            final(self).ok_after(*old(self)),
            final(self).valid_value(id),
            final(self).ast.values@.len() + 2 < u32::MAX && final(self).ast.schemas@.len() + 2
                < u32::MAX ==> (final(self).ast.values@[id.0 as int] matches Value::Schema(sv)
                && sv.kind == if old(self).cur_kind() == TokenKind::Struct {
                SchemaKind::Struct
            } else {
                SchemaKind::Enum
            }),
        decreases old(self).remaining(), 2int,
    {
        let ghost entry = *self;
        let schema_id = self.parse_schema();
        let index = schema_id.0 as usize;
        let span = self.ast.schemas[index].span;
        let kind = self.ast.schemas[index].kind;
        proof {
            lemma_valid_below(self.ast);
        }
        let ghost before = *self;
        let id = self.add_value(Value::Schema(SchemaValue { kind, schema: schema_id, span }));
        proof {
            lemma_grows_trans(entry, before, *self);
        }
        id
    }

    /// Record an error value and its CST error node at the current token,
    /// without consuming it.
    pub(crate) fn parse_error_value(&mut self, message: &str) -> (id: ValueId)
        requires
            old(self).inv(),
        ensures
            final(self).ok_after(*old(self)),
            final(self).position == old(self).position,
            final(self).depth == old(self).depth,
            final(self).valid_value(id),
            final(self).diagnostics@.len() > old(self).diagnostics@.len(),
            final(self).diagnostics@[old(self).diagnostics@.len() as int].code@ == "E0106"@,
            final(self).diagnostics@[old(self).diagnostics@.len() as int].message@ == message@,
            final(self).ast.values@.len() + 2 < u32::MAX ==> (final(self).ast.values@[id.0 as int]
                matches Value::Error(e) && e.message@ == message@ && e.span == old(self).cur().span),
    {
        let ghost entry = *self;
        let span = self.current_span();
        self.report("E0106", message, span);
        let ghost after_report = *self;
        let owned = message.to_owned();
        proof {
            lemma_valid_below(self.ast);
        }
        let value_id = self.add_value(Value::Error(ErrorNode { message: owned, span }));
        let ghost after_value = *self;
        self.push_cst(CstNodeKind::Error, span, Vec::new());
        proof {
            lemma_grows_trans(entry, after_report, after_value);
            lemma_grows_trans(entry, after_value, *self);
            assert(self.diagnostics@.subrange(0, after_report.diagnostics@.len() as int)
                == after_report.diagnostics@);
            assert(self.diagnostics@[entry.diagnostics@.len() as int] == self.diagnostics@.subrange(0, after_report.diagnostics@.len() as int)[entry.diagnostics@.len() as int]);
        }
        value_id
    }
}

} // verus!
