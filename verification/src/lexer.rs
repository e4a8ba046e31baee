use vstd::prelude::*;
use vstd::string::StringSliceAdditionalSpecFns;

use crate::diagnostic::{diags_view, Diagnostic};
use crate::span::Span;
use crate::text::{
    boundary, char_at, alphabetic_char, alphanumeric_char, whitespace_char, char_width,
    decode_char, is_alphabetic, is_alphanumeric, is_whitespace, lemma_ascii_boundary,
    lemma_next_boundary, bytes_match,
};
use crate::token::{Token, TokenKind, Trivia, TriviaKind};

verus! {

// ---------------------------------------------------------------------------
// The lexical grammar, stated over the UTF-8 bytes of a source
// ---------------------------------------------------------------------------

/// The observable content of a diagnostic: code, message and span.
pub type DiagV = (Seq<char>, Seq<char>, Span);

/// Tokens, trivia and diagnostics produced so far.
pub type LexModel = (Seq<Token>, Seq<Trivia>, Seq<DiagV>);

/// What one lexing step records.
#[derive(Clone, Copy, PartialEq, Eq, Structural)]
pub enum Piece {
    Token(TokenKind),
    Trivia(TriviaKind),
}

/// Which construct, if any, a lexing step found unterminated.
#[derive(Clone, Copy, PartialEq, Eq, Structural)]
pub enum Unterminated {
    Nothing,
    BlockComment,
    String,
    Regex,
}

pub open spec fn byte_at(s: Seq<u8>, i: int) -> Option<u8> {
    if 0 <= i < s.len() {
        Some(s[i])
    } else {
        None
    }
}

pub open spec fn ascii_digit(b: u8) -> bool {
    0x30 <= b <= 0x39
}

pub open spec fn ascii_alphanumeric(b: u8) -> bool {
    ascii_digit(b) || (0x41 <= b <= 0x5a) || (0x61 <= b <= 0x7a)
}

pub open spec fn char_ascii_digit(c: char) -> bool {
    0x30 <= c as u32 <= 0x39
}

/// A character that may start an identifier.
pub open spec fn is_identifier_start_spec(c: char) -> bool {
    alphabetic_char(c) || c == '_'
}

/// A character that may continue an identifier.
pub open spec fn is_identifier_continue_spec(c: char) -> bool {
    alphanumeric_char(c) || c == '_' || c == '-'
}

/// A character at which an unknown atom ends.
pub open spec fn is_atom_boundary_spec(c: char) -> bool {
    ||| whitespace_char(c)
    ||| c == ','
    ||| c == '}'
    ||| c == ']'
    ||| c == '{'
    ||| c == '['
    ||| c == '('
    ||| c == ')'
    ||| c == ':'
    ||| c == '='
    ||| c == '<'
    ||| c == '>'
    ||| c == '!'
    ||| c == '`'
}

/// The end of the run of spaces, tabs and carriage returns that starts at `q`.
pub open spec fn ws_end(s: Seq<u8>, q: int) -> int
    decreases s.len() - q,
{
    if 0 <= q < s.len() && (s[q] == 0x20 || s[q] == 0x09 || s[q] == 0x0d) {
        ws_end(s, q + 1)
    } else {
        q
    }
}

/// The position of the first newline at or after `q`, or the end of `s`.
pub open spec fn line_end(s: Seq<u8>, q: int) -> int
    decreases s.len() - q,
{
    if 0 <= q < s.len() && s[q] != 0x0a {
        line_end(s, q + 1)
    } else {
        q
    }
}

/// The position of the first `*/` at or after `q`, if there is one.
pub open spec fn block_close(s: Seq<u8>, q: int) -> Option<int>
    decreases s.len() - q,
{
    if q < 0 || q >= s.len() {
        None
    } else if s[q] == 0x2a && q + 1 < s.len() && s[q + 1] == 0x2f {
        Some(q)
    } else {
        block_close(s, q + 1)
    }
}

/// Scan the body of a backtick string from `q`: the end of the scan and
/// whether an unescaped closing backtick ended it.
pub open spec fn string_scan(s: Seq<u8>, q: int, escaped: bool) -> (int, bool)
    decreases s.len() - q,
{
    if q < 0 || q >= s.len() {
        (q, false)
    } else if escaped {
        string_scan(s, q + 1, false)
    } else if s[q] == 0x5c {
        string_scan(s, q + 1, true)
    } else if s[q] == 0x60 {
        (q + 1, true)
    } else {
        string_scan(s, q + 1, false)
    }
}

/// Scan the pattern of a regular expression from `q`: the position after
/// its closing slash and `true`, or the end of the scan (before a newline,
/// which stays a separator, or the end of `s`) and `false`.
pub open spec fn regex_scan(s: Seq<u8>, q: int, escaped: bool) -> (int, bool)
    decreases s.len() - q,
{
    if q < 0 || q >= s.len() {
        (q, false)
    } else if escaped {
        regex_scan(s, q + 1, false)
    } else if s[q] == 0x5c {
        regex_scan(s, q + 1, true)
    } else if s[q] == 0x2f {
        (q + 1, true)
    } else if s[q] == 0x0a {
        (q, false)
    } else {
        regex_scan(s, q + 1, false)
    }
}

/// Scan a number-like run from `q`: its end, its count of dots, and whether
/// every other character was a digit.
pub open spec fn number_scan(s: Seq<u8>, q: int, first: bool, dots: nat, valid: bool) -> (
    int,
    nat,
    bool,
)
    decreases s.len() - q,
{
    if q < 0 || q >= s.len() {
        (q, dots, valid)
    } else if first && (s[q] == 0x2d || s[q] == 0x2b) {
        number_scan(s, q + 1, false, dots, valid)
    } else if s[q] == 0x2e {
        number_scan(s, q + 1, false, dots + 1, valid)
    } else if ascii_alphanumeric(s[q]) || s[q] == 0x2d || s[q] == 0x2b || s[q] == 0x5e || s[q]
        == 0x23 {
        number_scan(s, q + 1, false, dots, valid && ascii_digit(s[q]))
    } else {
        (q, dots, valid)
    }
}

/// The end of the run of identifier characters that starts at `q`.
pub open spec fn ident_end(s: Seq<u8>, q: int) -> int
    decreases s.len() - q,
{
    if 0 <= q < s.len() && q + char_width(s, q) <= s.len() && is_identifier_continue_spec(
        char_at(s, q),
    ) {
        ident_end(s, q + char_width(s, q))
    } else {
        q
    }
}

/// The end of an unknown atom whose characters start at `q`.
pub open spec fn atom_end(s: Seq<u8>, q: int) -> int
    decreases s.len() - q,
{
    if 0 <= q < s.len() && q + char_width(s, q) <= s.len() && !is_atom_boundary_spec(
        char_at(s, q),
    ) && !(char_at(s, q) == '/' && byte_at(s, q + 1) == Some(0x2fu8)) {
        atom_end(s, q + char_width(s, q))
    } else {
        q
    }
}

pub open spec fn kw_true() -> Seq<u8> {
    seq![0x74u8, 0x72, 0x75, 0x65]
}

pub open spec fn kw_false() -> Seq<u8> {
    seq![0x66u8, 0x61, 0x6c, 0x73, 0x65]
}

pub open spec fn kw_struct() -> Seq<u8> {
    seq![0x73u8, 0x74, 0x72, 0x75, 0x63, 0x74]
}

pub open spec fn kw_enum() -> Seq<u8> {
    seq![0x65u8, 0x6e, 0x75, 0x6d]
}

/// The token kind of an identifier-shaped word.
pub open spec fn word_kind(w: Seq<u8>) -> TokenKind {
    if w == kw_true() {
        TokenKind::True
    } else if w == kw_false() {
        TokenKind::False
    } else if w == kw_struct() {
        TokenKind::Struct
    } else if w == kw_enum() {
        TokenKind::Enum
    } else {
        TokenKind::Identifier
    }
}

/// The kind of a number-like run from its count of dots and digit check.
pub open spec fn number_kind(dots: nat, valid: bool) -> TokenKind {
    if valid && dots == 0 {
        TokenKind::Integer
    } else if valid && dots == 1 {
        TokenKind::Decimal
    } else {
        TokenKind::UnknownAtom
    }
}

/// The end of an unknown atom that starts at `p`: at least one character.
pub open spec fn atom_step_end(s: Seq<u8>, p: int) -> int {
    if atom_end(s, p) == p {
        p + char_width(s, p)
    } else {
        atom_end(s, p)
    }
}

/// A single-character punctuation token.
pub open spec fn punct_kind(c: char) -> Option<TokenKind> {
    if c == '.' {
        Some(TokenKind::Dot)
    } else if c == '{' {
        Some(TokenKind::LBrace)
    } else if c == '}' {
        Some(TokenKind::RBrace)
    } else if c == '[' {
        Some(TokenKind::LBracket)
    } else if c == ']' {
        Some(TokenKind::RBracket)
    } else if c == '(' {
        Some(TokenKind::LParen)
    } else if c == ')' {
        Some(TokenKind::RParen)
    } else if c == ',' {
        Some(TokenKind::Comma)
    } else if c == ':' {
        Some(TokenKind::Colon)
    } else if c == '<' {
        Some(TokenKind::LessThan)
    } else if c == '>' {
        Some(TokenKind::GreaterThan)
    } else if c == '=' {
        Some(TokenKind::Equals)
    } else if c == '!' {
        Some(TokenKind::Bang)
    } else {
        None
    }
}

/// One lexing step at `p`: what it records, where it ends, and which
/// construct it found unterminated.
pub open spec fn lex_step(s: Seq<u8>, p: int) -> (Piece, int, Unterminated) {
    let c = char_at(s, p);
    let b1 = byte_at(s, p + 1);
    let next_digit = b1 matches Some(b) && ascii_digit(b);
    if c == ' ' || c == '\t' || c == '\r' {
        (Piece::Trivia(TriviaKind::Whitespace), ws_end(s, p), Unterminated::Nothing)
    } else if c == '\n' {
        (Piece::Token(TokenKind::Newline), p + 1, Unterminated::Nothing)
    } else if c == '/' && b1 == Some(0x2fu8) {
        (Piece::Trivia(TriviaKind::LineComment), line_end(s, p + 2), Unterminated::Nothing)
    } else if c == '/' && b1 == Some(0x2au8) {
        match block_close(s, p + 2) {
            Some(q) => (Piece::Trivia(TriviaKind::BlockComment), q + 2, Unterminated::Nothing),
            None => (
                Piece::Trivia(TriviaKind::BlockComment),
                s.len() as int,
                Unterminated::BlockComment,
            ),
        }
    } else if c == '`' {
        let (e, closed) = string_scan(s, p + 1, false);
        if closed {
            (Piece::Token(TokenKind::String), e, Unterminated::Nothing)
        } else {
            (Piece::Token(TokenKind::Error), e, Unterminated::String)
        }
    } else if c == '/' {
        let (e, closed) = regex_scan(s, p + 1, false);
        if closed {
            (Piece::Token(TokenKind::Regex), ident_end(s, e), Unterminated::Nothing)
        } else {
            (Piece::Token(TokenKind::Error), e, Unterminated::Regex)
        }
    } else if c == '@' || c == '^' {
        (Piece::Token(TokenKind::UnknownAtom), atom_step_end(s, p), Unterminated::Nothing)
    } else if c == '#' && b1 == Some(0x5bu8) {
        (Piece::Token(TokenKind::AnnotationStart), p + 2, Unterminated::Nothing)
    } else if c == '#' || (c == '.' && b1 == Some(0x2fu8)) {
        (Piece::Token(TokenKind::UnknownAtom), atom_step_end(s, p), Unterminated::Nothing)
    } else if punct_kind(c) is Some {
        (Piece::Token(punct_kind(c).unwrap()), p + 1, Unterminated::Nothing)
    } else if (c == '+' || c == '-') && next_digit || char_ascii_digit(c) {
        let (e, dots, valid) = number_scan(s, p, true, 0, true);
        (Piece::Token(number_kind(dots, valid)), e, Unterminated::Nothing)
    } else if c == '+' {
        (Piece::Token(TokenKind::Plus), p + 1, Unterminated::Nothing)
    } else if c == '-' {
        (Piece::Token(TokenKind::Minus), p + 1, Unterminated::Nothing)
    } else if is_identifier_start_spec(c) {
        let e = ident_end(s, p + char_width(s, p));
        (Piece::Token(word_kind(s.subrange(p, e))), e, Unterminated::Nothing)
    } else {
        (Piece::Token(TokenKind::UnknownAtom), atom_step_end(s, p), Unterminated::Nothing)
    }
}

pub open spec fn span_of(start: int, end: int) -> Span {
    Span { start: start as u32, end: end as u32 }
}

/// The diagnostic for an unterminated construct, if any.
pub open spec fn unterminated_diag(u: Unterminated, start: int, end: int) -> Seq<DiagV> {
    match u {
        Unterminated::Nothing => seq![],
        Unterminated::BlockComment => seq![
            ("E0201"@, "unterminated block comment"@, span_of(start, end)),
        ],
        Unterminated::String => seq![
            ("E0202"@, "unterminated backtick string"@, span_of(start, end)),
        ],
        Unterminated::Regex => seq![
            ("E0203"@, "unterminated regular expression"@, span_of(start, end)),
        ],
    }
}

/// The diagnostic for a token longer than the limit, if it is.
pub open spec fn length_diag(start: int, end: int, max_token_length: u32) -> Seq<DiagV> {
    if end - start > max_token_length {
        seq![("E0004"@, "maximum token length exceeded"@, span_of(start, end))]
    } else {
        seq![]
    }
}

/// Record one lexing step from `start` to `end`.
pub open spec fn apply_step(
    m: LexModel,
    start: int,
    piece: Piece,
    end: int,
    u: Unterminated,
    max_token_length: u32,
) -> LexModel {
    match piece {
        Piece::Token(k) => (
            m.0.push(Token { kind: k, span: span_of(start, end) }),
            m.1,
            m.2 + length_diag(start, end, max_token_length) + unterminated_diag(u, start, end),
        ),
        Piece::Trivia(k) => (
            m.0,
            m.1.push(Trivia { kind: k, span: span_of(start, end) }),
            m.2 + unterminated_diag(u, start, end),
        ),
    }
}

/// Lex from `p` to the end of `s`, or until the token limit is reached:
/// what has then been recorded, and where lexing stopped.
pub open spec fn lex_from(s: Seq<u8>, p: int, max_tokens: u32, max_token_length: u32, m: LexModel) -> (
    LexModel,
    int,
)
    decreases s.len() - p,
{
    if p < 0 || p >= s.len() {
        (m, p)
    } else {
        let (piece, end, u) = lex_step(s, p);
        if end <= p || end > s.len() {
            (m, p)
        } else {
            let m2 = apply_step(m, p, piece, end, u, max_token_length);
            if m2.0.len() > max_tokens {
                (
                    (
                        m2.0,
                        m2.1,
                        m2.2.push(("E0002"@, "maximum token count exceeded"@, span_of(end, end))),
                    ),
                    end,
                )
            } else {
                lex_from(s, end, max_tokens, max_token_length, m2)
            }
        }
    }
}

/// The complete lexical analysis of `s`: the recorded tokens followed by the
/// end-of-input token, the trivia and the diagnostics.
pub open spec fn lex_spec(s: Seq<u8>, max_tokens: u32, max_token_length: u32) -> LexModel {
    let (m, stop) = lex_from(s, 0, max_tokens, max_token_length, (seq![], seq![], seq![]));
    (m.0.push(Token { kind: TokenKind::Eof, span: span_of(stop, stop) }), m.1, m.2)
}

/// Byte `q` lies in the span of one of the tokens or of the trivia.
pub open spec fn covered(tokens: Seq<Token>, trivia: Seq<Trivia>, q: int) -> bool {
    ||| exists|i: int| 0 <= i < tokens.len() && (#[trigger] tokens[i]).span.start <= q < tokens[i].span.end
    ||| exists|j: int| 0 <= j < trivia.len() && (#[trigger] trivia[j]).span.start <= q < trivia[j].span.end
}

/// The spans of the tokens and of the trivia lie over the bytes `0..stop`
/// without gaps or overlaps: each one is non-empty and inside, the tokens
/// come in order, so does the trivia, no token overlaps trivia, and every
/// byte is in one of them.
pub open spec fn tiles(tokens: Seq<Token>, trivia: Seq<Trivia>, stop: int) -> bool {
    &&& forall|i: int|
        0 <= i < tokens.len() ==> 0 <= (#[trigger] tokens[i]).span.start < tokens[i].span.end <= stop
    &&& forall|j: int|
        0 <= j < trivia.len() ==> 0 <= (#[trigger] trivia[j]).span.start < trivia[j].span.end <= stop
    &&& forall|i: int, k: int|
        0 <= i < k < tokens.len() ==> (#[trigger] tokens[i]).span.end <= (#[trigger] tokens[k]).span.start
    &&& forall|j: int, k: int|
        0 <= j < k < trivia.len() ==> (#[trigger] trivia[j]).span.end <= (#[trigger] trivia[k]).span.start
    &&& forall|i: int, j: int|
        0 <= i < tokens.len() && 0 <= j < trivia.len() ==> (#[trigger] tokens[i]).span.end
            <= (#[trigger] trivia[j]).span.start || trivia[j].span.end <= tokens[i].span.start
    &&& forall|q: int| 0 <= q < stop ==> #[trigger] covered(tokens, trivia, q)
}

/// One lexing step keeps the recorded spans tiling the bytes lexed so far.
proof fn lemma_step_tiles(m: LexModel, p: int, piece: Piece, end: int, u: Unterminated, max_token_length: u32)
    requires
        tiles(m.0, m.1, p),
        0 <= p < end <= u32::MAX,
    ensures
        tiles(apply_step(m, p, piece, end, u, max_token_length).0, apply_step(m, p, piece, end, u, max_token_length).1, end),
{
    let m2 = apply_step(m, p, piece, end, u, max_token_length);
    let sp = span_of(p, end);
    assert(sp.start == p && sp.end == end);
    assert forall|q: int| 0 <= q < end implies #[trigger] covered(m2.0, m2.1, q) by {
        if q < p {
            assert(covered(m.0, m.1, q));
            if exists|i: int| 0 <= i < m.0.len() && (#[trigger] m.0[i]).span.start <= q < m.0[i].span.end {
                let i = choose|i: int| 0 <= i < m.0.len() && (#[trigger] m.0[i]).span.start <= q < m.0[i].span.end;
                assert(m2.0[i] == m.0[i]);
            } else {
                let j = choose|j: int| 0 <= j < m.1.len() && (#[trigger] m.1[j]).span.start <= q < m.1[j].span.end;
                assert(m2.1[j] == m.1[j]);
            }
        } else {
            match piece {
                Piece::Token(k) => {
                    assert(m2.0[m.0.len() as int].span == sp);
                },
                Piece::Trivia(k) => {
                    assert(m2.1[m.1.len() as int].span == sp);
                },
            }
        }
    }
}

/// Lexing from `p` keeps the recorded spans tiling the bytes lexed, up to
/// where it stops.
proof fn lemma_lex_from_tiles(s: Seq<u8>, p: int, max_tokens: u32, max_token_length: u32, m: LexModel)
    requires
        0 <= p <= s.len(),
        s.len() <= u32::MAX,
        tiles(m.0, m.1, p),
    ensures
        tiles(
            lex_from(s, p, max_tokens, max_token_length, m).0.0,
            lex_from(s, p, max_tokens, max_token_length, m).0.1,
            lex_from(s, p, max_tokens, max_token_length, m).1,
        ),
        p <= lex_from(s, p, max_tokens, max_token_length, m).1 <= s.len(),
    decreases s.len() - p,
{
    if p < s.len() {
        let (piece, end, u) = lex_step(s, p);
        if p < end <= s.len() {
            lemma_step_tiles(m, p, piece, end, u, max_token_length);
            let m2 = apply_step(m, p, piece, end, u, max_token_length);
            if m2.0.len() <= max_tokens {
                lemma_lex_from_tiles(s, end, max_tokens, max_token_length, m2);
            }
        }
    }
}

/// A space, a tab or a carriage return.
pub open spec fn blank_byte(b: u8) -> bool {
    b == 0x20u8 || b == 0x09u8 || b == 0x0du8
}

/// No token starts at a space, a tab or a carriage return.
pub open spec fn no_token_at_cr(s: Seq<u8>, tokens: Seq<Token>) -> bool {
    forall|i: int|
        0 <= i < tokens.len() && ((#[trigger] tokens[i]).span.start as int) < s.len() ==> !blank_byte(
            s[tokens[i].span.start as int],
        )
}

proof fn lemma_cr_char(s: Seq<u8>, p: int)
    requires
        0 <= p < s.len(),
        blank_byte(s[p]),
    ensures
        char_at(s, p) == ' ' || char_at(s, p) == '\t' || char_at(s, p) == '\r',
{
    let t = s.subrange(p, s.len() as int);
    assert(t[0] == s[p]);
    assert(0x0du8 & 0x7fu8 == 0x0du8) by (bit_vector);
    assert(0x20u8 & 0x7fu8 == 0x20u8) by (bit_vector);
    assert(0x09u8 & 0x7fu8 == 0x09u8) by (bit_vector);
    if s[p] == 0x0du8 {
        assert(vstd::utf8::decode_first_scalar(t) == 13);
    } else if s[p] == 0x20u8 {
        assert(vstd::utf8::decode_first_scalar(t) == 32);
    } else {
        assert(vstd::utf8::decode_first_scalar(t) == 9);
    }
}

/// Lexing never starts a token at a space, a tab or a carriage return: they
/// are whitespace.
proof fn lemma_lex_from_cr(s: Seq<u8>, p: int, max_tokens: u32, max_token_length: u32, m: LexModel)
    requires
        0 <= p,
        s.len() <= u32::MAX,
        no_token_at_cr(s, m.0),
    ensures
        no_token_at_cr(s, lex_from(s, p, max_tokens, max_token_length, m).0.0),
    decreases s.len() - p,
{
    if p < s.len() {
        let (piece, end, u) = lex_step(s, p);
        if p < end <= s.len() {
            let m2 = apply_step(m, p, piece, end, u, max_token_length);
            if blank_byte(s[p]) {
                lemma_cr_char(s, p);
            }
            assert forall|i: int|
                0 <= i < m2.0.len() && ((#[trigger] m2.0[i]).span.start as int) < s.len() implies !blank_byte(
                s[m2.0[i].span.start as int],
            ) by {
                if i >= m.0.len() {
                    assert(piece is Token);
                    assert(m2.0[i].span.start as int == p);
                } else {
                    assert(m2.0[i] == m.0[i]);
                }
            }
            if m2.0.len() <= max_tokens {
                lemma_lex_from_cr(s, end, max_tokens, max_token_length, m2);
            }
        }
    }
}

/// No token of the lexical analysis but the closing end-of-input token
/// starts at a carriage return.
pub proof fn lemma_lex_spec_cr(s: Seq<u8>, max_tokens: u32, max_token_length: u32)
    requires
        s.len() <= u32::MAX,
    ensures
        no_token_at_cr(s, lex_spec(s, max_tokens, max_token_length).0.drop_last()),
{
    lemma_lex_from_cr(s, 0, max_tokens, max_token_length, (seq![], seq![], seq![]));
    let (m, stop) = lex_from(s, 0, max_tokens, max_token_length, (seq![], seq![], seq![]));
    assert(lex_spec(s, max_tokens, max_token_length).0.drop_last() =~= m.0);
}

/// The tokens before the end-of-input token, and the trivia, tile the bytes
/// from the start of the source to where the end-of-input token stands.
pub proof fn lemma_lex_spec_tiles(s: Seq<u8>, max_tokens: u32, max_token_length: u32)
    requires
        s.len() <= u32::MAX,
    ensures
        tiles(
            lex_spec(s, max_tokens, max_token_length).0.drop_last(),
            lex_spec(s, max_tokens, max_token_length).1,
            lex_spec(s, max_tokens, max_token_length).0.last().span.start as int,
        ),
        lex_spec(s, max_tokens, max_token_length).0.last().kind == TokenKind::Eof,
        lex_spec(s, max_tokens, max_token_length).0.last().span.end == lex_spec(s, max_tokens, max_token_length).0.last().span.start,
        lex_spec(s, max_tokens, max_token_length).0.last().span.start <= s.len(),
{
    let m: LexModel = (seq![], seq![], seq![]);
    assert(tiles(m.0, m.1, 0));
    lemma_lex_from_tiles(s, 0, max_tokens, max_token_length, m);
    let (r, stop) = lex_from(s, 0, max_tokens, max_token_length, m);
    let t = lex_spec(s, max_tokens, max_token_length).0;
    assert(t.drop_last() =~= r.0);
}

/// Every diagnostic span lies in `0..n`.
pub open spec fn diag_spans_within(diags: Seq<DiagV>, n: int) -> bool {
    forall|i: int| 0 <= i < diags.len() ==> (#[trigger] diags[i]).2.start <= n && diags[i].2.end <= n
}

/// Lexing from `p` reports diagnostics whose spans lie in the source.
proof fn lemma_lex_from_diag_spans(s: Seq<u8>, p: int, max_tokens: u32, max_token_length: u32, m: LexModel)
    requires
        0 <= p <= s.len(),
        s.len() <= u32::MAX,
        diag_spans_within(m.2, s.len() as int),
    ensures
        diag_spans_within(lex_from(s, p, max_tokens, max_token_length, m).0.2, s.len() as int),
    decreases s.len() - p,
{
    if p < s.len() {
        let (piece, end, u) = lex_step(s, p);
        if p < end <= s.len() {
            let m2 = apply_step(m, p, piece, end, u, max_token_length);
            let sp = span_of(p, end);
            assert(sp.start == p && sp.end == end);
            let extra = length_diag(p, end, max_token_length) + unterminated_diag(u, p, end);
            assert(diag_spans_within(m2.2, s.len() as int)) by {
                match piece {
                    Piece::Token(k) => {
                        assert(m2.2 == m.2 + length_diag(p, end, max_token_length) + unterminated_diag(u, p, end));
                    },
                    Piece::Trivia(k) => {
                        assert(m2.2 == m.2 + unterminated_diag(u, p, end));
                    },
                }
            }
            if m2.0.len() > max_tokens {
                let last = span_of(end, end);
                assert(last.start == end && last.end == end);
            } else {
                lemma_lex_from_diag_spans(s, end, max_tokens, max_token_length, m2);
            }
        }
    }
}

/// The lexer's diagnostics have spans that lie in the source.
pub proof fn lemma_lex_spec_diag_spans(s: Seq<u8>, max_tokens: u32, max_token_length: u32)
    requires
        s.len() <= u32::MAX,
    ensures
        diag_spans_within(lex_spec(s, max_tokens, max_token_length).2, s.len() as int),
{
    let m: LexModel = (seq![], seq![], seq![]);
    lemma_lex_from_diag_spans(s, 0, max_tokens, max_token_length, m);
}

/// Every token longer than `max_token_length` bytes has its diagnostic.
pub open spec fn long_tokens_reported(tokens: Seq<Token>, diags: Seq<DiagV>, max_token_length: u32) -> bool {
    forall|i: int|
        0 <= i < tokens.len() && (#[trigger] tokens[i]).span.end - tokens[i].span.start > max_token_length
            ==> exists|j: int|
            0 <= j < diags.len() && #[trigger] diags[j] == (
                "E0004"@,
                "maximum token length exceeded"@,
                tokens[i].span,
            )
}

/// Appending diagnostics keeps every long token reported.
proof fn lemma_long_reported_append(
    tokens: Seq<Token>,
    diags: Seq<DiagV>,
    more: Seq<DiagV>,
    max_token_length: u32,
)
    requires
        long_tokens_reported(tokens, diags, max_token_length),
    ensures
        long_tokens_reported(tokens, diags + more, max_token_length),
{
    assert forall|i: int|
        0 <= i < tokens.len() && (#[trigger] tokens[i]).span.end - tokens[i].span.start > max_token_length
            implies exists|j: int|
            0 <= j < (diags + more).len() && #[trigger] (diags + more)[j] == (
                "E0004"@,
                "maximum token length exceeded"@,
                tokens[i].span,
            ) by {
        let j = choose|j: int|
            0 <= j < diags.len() && #[trigger] diags[j] == (
                "E0004"@,
                "maximum token length exceeded"@,
                tokens[i].span,
            );
        assert((diags + more)[j] == diags[j]);
    }
}

/// Lexing from `p` reports every token longer than the limit.
proof fn lemma_lex_from_long_reported(s: Seq<u8>, p: int, max_tokens: u32, max_token_length: u32, m: LexModel)
    requires
        0 <= p <= s.len(),
        s.len() <= u32::MAX,
        long_tokens_reported(m.0, m.2, max_token_length),
    ensures
        long_tokens_reported(
            lex_from(s, p, max_tokens, max_token_length, m).0.0,
            lex_from(s, p, max_tokens, max_token_length, m).0.2,
            max_token_length,
        ),
    decreases s.len() - p,
{
    if p < s.len() {
        let (piece, end, u) = lex_step(s, p);
        if p < end <= s.len() {
            let m2 = apply_step(m, p, piece, end, u, max_token_length);
            let sp = span_of(p, end);
            assert(sp.start == p && sp.end == end);
            match piece {
                Piece::Token(k) => {
                    let extra = length_diag(p, end, max_token_length) + unterminated_diag(u, p, end);
                    lemma_long_reported_append(m.0, m.2, extra, max_token_length);
                    assert(m2.2 =~= m.2 + extra);
                    assert(m2.0 == m.0.push(Token { kind: k, span: sp }));
                    assert forall|i: int|
                        0 <= i < m2.0.len() && (#[trigger] m2.0[i]).span.end - m2.0[i].span.start
                            > max_token_length implies exists|j: int|
                        0 <= j < m2.2.len() && #[trigger] m2.2[j] == (
                            "E0004"@,
                            "maximum token length exceeded"@,
                            m2.0[i].span,
                        ) by {
                        if i < m.0.len() {
                            assert(m2.0[i] == m.0[i]);
                        } else {
                            assert(m2.2[m.2.len() as int] == extra[0]);
                        }
                    }
                },
                Piece::Trivia(k) => {
                    lemma_long_reported_append(m.0, m.2, unterminated_diag(u, p, end), max_token_length);
                },
            }
            if m2.0.len() > max_tokens {
                lemma_long_reported_append(
                    m2.0,
                    m2.2,
                    seq![("E0002"@, "maximum token count exceeded"@, span_of(end, end))],
                    max_token_length,
                );
                assert(m2.2.push(("E0002"@, "maximum token count exceeded"@, span_of(end, end)))
                    =~= m2.2 + seq![("E0002"@, "maximum token count exceeded"@, span_of(end, end))]);
            } else {
                lemma_lex_from_long_reported(s, end, max_tokens, max_token_length, m2);
            }
        }
    }
}

/// The lexical analysis reports every token longer than the limit.
pub proof fn lemma_lex_spec_long_reported(s: Seq<u8>, max_tokens: u32, max_token_length: u32)
    requires
        s.len() <= u32::MAX,
    ensures
        long_tokens_reported(
            lex_spec(s, max_tokens, max_token_length).0,
            lex_spec(s, max_tokens, max_token_length).2,
            max_token_length,
        ),
{
    let m: LexModel = (seq![], seq![], seq![]);
    lemma_lex_from_long_reported(s, 0, max_tokens, max_token_length, m);
    let (r, stop) = lex_from(s, 0, max_tokens, max_token_length, m);
    let t = lex_spec(s, max_tokens, max_token_length).0;
    let eof = Token { kind: TokenKind::Eof, span: span_of(stop, stop) };
    assert(t == r.0.push(eof));
    assert forall|i: int|
        0 <= i < t.len() && (#[trigger] t[i]).span.end - t[i].span.start > max_token_length implies exists|j: int|
        0 <= j < r.2.len() && #[trigger] r.2[j] == ("E0004"@, "maximum token length exceeded"@, t[i].span) by {
        if i < r.0.len() {
            assert(t[i] == r.0[i]);
        }
    }
}

/// Some diagnostic has `code`.
pub open spec fn has_code(diags: Seq<DiagV>, code: Seq<char>) -> bool {
    exists|i: int| 0 <= i < diags.len() && (#[trigger] diags[i]).0 == code
}

/// Lexing from a state within the limit and without a token-count report
/// reports the limit exactly when it records one token past it.
proof fn lemma_lex_from_limit(s: Seq<u8>, p: int, max_tokens: u32, max_token_length: u32, m: LexModel)
    requires
        m.0.len() <= max_tokens,
        !has_code(m.2, "E0002"@),
    ensures
        has_code(lex_from(s, p, max_tokens, max_token_length, m).0.2, "E0002"@) <==> lex_from(
            s,
            p,
            max_tokens,
            max_token_length,
            m,
        ).0.0.len() == max_tokens + 1,
    decreases s.len() - p,
{
    reveal_strlit("E0002");
    reveal_strlit("E0004");
    reveal_strlit("E0201");
    reveal_strlit("E0202");
    reveal_strlit("E0203");
    assert("E0004"@[4] != "E0002"@[4]);
    assert("E0201"@[2] != "E0002"@[2]);
    assert("E0202"@[2] != "E0002"@[2]);
    assert("E0203"@[2] != "E0002"@[2]);
    if 0 <= p < s.len() {
        let (piece, end, u) = lex_step(s, p);
        if p < end <= s.len() {
            let m2 = apply_step(m, p, piece, end, u, max_token_length);
            let extra = match piece {
                Piece::Token(k) => length_diag(p, end, max_token_length) + unterminated_diag(u, p, end),
                Piece::Trivia(k) => unterminated_diag(u, p, end),
            };
            assert(m2.2 == m.2 + extra);
            assert(!has_code(m2.2, "E0002"@)) by {
                if has_code(m2.2, "E0002"@) {
                    let i = choose|i: int| 0 <= i < m2.2.len() && (#[trigger] m2.2[i]).0 == "E0002"@;
                    if i < m.2.len() {
                        assert(m2.2[i] == m.2[i]);
                    } else {
                        let k = i - m.2.len();
                        assert(m2.2[i] == extra[k]);
                        let a = length_diag(p, end, max_token_length);
                        let b = unterminated_diag(u, p, end);
                        match piece {
                            Piece::Token(t) => {
                                if k < a.len() {
                                    assert(extra[k] == a[k]);
                                } else {
                                    assert(extra[k] == b[k - a.len()]);
                                }
                            },
                            Piece::Trivia(t) => {
                                assert(extra[k] == b[k]);
                            },
                        }
                    }
                }
            }
            if m2.0.len() > max_tokens {
                let d = m2.2.push(("E0002"@, "maximum token count exceeded"@, span_of(end, end)));
                assert(d[m2.2.len() as int].0 == "E0002"@);
            } else {
                lemma_lex_from_limit(s, end, max_tokens, max_token_length, m2);
            }
        }
    }
}

/// The lexer reports the token limit (`E0002`) exactly when it records one
/// token past the limit, that is, when the source holds more tokens than
/// the limit.
pub proof fn lemma_lex_spec_limit(s: Seq<u8>, max_tokens: u32, max_token_length: u32)
    ensures
        has_code(lex_spec(s, max_tokens, max_token_length).2, "E0002"@) <==> lex_spec(
            s,
            max_tokens,
            max_token_length,
        ).0.len() == max_tokens + 2,
{
    let m: LexModel = (seq![], seq![], seq![]);
    lemma_lex_from_limit(s, 0, max_tokens, max_token_length, m);
}

/// Lexing from a state that holds no more tokens than the limit records at
/// most one token past the limit.
pub proof fn lemma_lex_from_bounded(
    s: Seq<u8>,
    p: int,
    max_tokens: u32,
    max_token_length: u32,
    m: LexModel,
)
    requires
        m.0.len() <= max_tokens,
    ensures
        lex_from(s, p, max_tokens, max_token_length, m).0.0.len() <= max_tokens + 1,
    decreases s.len() - p,
{
    if 0 <= p < s.len() {
        let (piece, end, u) = lex_step(s, p);
        if p < end <= s.len() {
            let m2 = apply_step(m, p, piece, end, u, max_token_length);
            assert(m2.0.len() <= m.0.len() + 1);
            if m2.0.len() <= max_tokens {
                lemma_lex_from_bounded(s, end, max_tokens, max_token_length, m2);
            }
        }
    }
}

/// The lexical analysis holds at most one token past the limit, followed by
/// the end-of-input token.
pub proof fn lemma_lex_spec_bounded(s: Seq<u8>, max_tokens: u32, max_token_length: u32)
    ensures
        lex_spec(s, max_tokens, max_token_length).0.len() <= max_tokens + 2,
{
    let m: LexModel = (seq![], seq![], seq![]);
    lemma_lex_from_bounded(s, 0, max_tokens, max_token_length, m);
}

/// Tokens that lie in order within `0..len`, each starting and ending at a
/// character boundary, the last one and only it being the end-of-input token.
pub open spec fn tokens_wf(s: Seq<u8>, tokens: Seq<Token>) -> bool {
    &&& tokens.len() > 0
    &&& tokens.last().kind == TokenKind::Eof
    &&& forall|i: int| 0 <= i < tokens.len() - 1 ==> #[trigger] tokens[i].kind != TokenKind::Eof
    &&& forall|i: int|
        0 <= i < tokens.len() ==> {
            &&& (#[trigger] tokens[i]).span.start <= tokens[i].span.end <= s.len()
            &&& boundary(s, tokens[i].span.start as int)
            &&& boundary(s, tokens[i].span.end as int)
        }
    &&& forall|i: int, j: int|
        0 <= i < j < tokens.len() ==> #[trigger] tokens[i].span.end <= #[trigger] tokens[j].span.start
}

/// A token's first byte shows its kind: a string starts with a backtick,
/// while an identifier or an unknown atom does not; every token but the end
/// of input holds at least one byte.
pub open spec fn token_shaped(s: Seq<u8>, t: Token) -> bool {
    &&& t.kind != TokenKind::Eof ==> t.span.start < t.span.end
    &&& t.kind == TokenKind::String ==> s[t.span.start as int] == 0x60u8
    &&& (t.kind == TokenKind::Identifier || t.kind == TokenKind::UnknownAtom) ==> s[t.span.start as int]
        != 0x60u8
}

/// A lexing step at a character boundary records a string only at a
/// backtick, and an identifier or unknown atom anywhere else.
proof fn lemma_step_shape(s: Seq<u8>, p: int)
    requires
        boundary(s, p),
        0 <= p < s.len(),
    ensures
        lex_step(s, p).0 matches Piece::Token(k) ==> {
            &&& k == TokenKind::String ==> s[p] == 0x60u8
            &&& (k == TokenKind::Identifier || k == TokenKind::UnknownAtom) ==> s[p] != 0x60u8
        },
{
    lemma_next_boundary(s, p);
    let c = char_at(s, p);
    assert((c == '`') == (s[p] == 0x60u8));
}

/// Tokens and trivia recorded before position `p`: each one consumed at least
/// a byte, the tokens lie in order at character boundaries and none is the
/// end-of-input token.
pub open spec fn records_before(s: Seq<u8>, tokens: Seq<Token>, trivia: Seq<Trivia>, p: int) -> bool {
    &&& tokens.len() + trivia.len() <= p
    &&& forall|i: int|
        0 <= i < tokens.len() ==> {
            &&& (#[trigger] tokens[i]).span.start <= tokens[i].span.end <= p
            &&& boundary(s, tokens[i].span.start as int)
            &&& boundary(s, tokens[i].span.end as int)
            &&& tokens[i].kind != TokenKind::Eof
        }
    &&& forall|i: int, j: int|
        0 <= i < j < tokens.len() ==> #[trigger] tokens[i].span.end <= #[trigger] tokens[j].span.start
}

/// The position after an ASCII byte is a character boundary.
proof fn lemma_after_ascii(s: Seq<u8>, q: int)
    requires
        vstd::utf8::valid_utf8(s),
        0 <= q < s.len(),
        s[q] < 0x80,
    ensures
        boundary(s, q + 1),
{
    lemma_ascii_boundary(s, q);
    lemma_next_boundary(s, q);
}

// ---------------------------------------------------------------------------
// The lexer
// ---------------------------------------------------------------------------

/// Lexes an in-memory FON source into source-backed tokens.
pub struct Lexer<'source> {
    source: &'source str,
    bytes: &'source [u8],
    position: usize,
    tokens: Vec<Token>,
    trivia: Vec<Trivia>,
    diagnostics: Vec<Diagnostic>,
    max_tokens: u32,
    max_token_length: u32,
}

/// The output of the lexer.
pub struct LexResult {
    pub tokens: Vec<Token>,
    pub trivia: Vec<Trivia>,
    pub diagnostics: Vec<Diagnostic>,
}

impl<'source> Lexer<'source> {
    pub closed spec fn src(&self) -> Seq<u8> {
        self.source.spec_bytes()
    }

    pub closed spec fn limits(&self) -> (u32, u32) {
        (self.max_tokens, self.max_token_length)
    }

    pub closed spec fn pos(&self) -> int {
        self.position as int
    }

    pub closed spec fn model(&self) -> LexModel {
        (self.tokens@, self.trivia@, diags_view(self.diagnostics@))
    }

    /// The source is valid UTF-8 whose length fits in a span.
    pub closed spec fn base(&self) -> bool {
        let s = self.src();
        &&& self.bytes@ == s
        &&& s.len() <= u32::MAX
        &&& vstd::utf8::valid_utf8(s)
    }

    /// The lexer's invariant: it stands at a character boundary, and
    /// everything recorded lies before it.
    pub closed spec fn inv(&self) -> bool {
        &&& self.base()
        &&& boundary(self.src(), self.position as int)
        &&& self.position <= self.src().len()
        &&& records_before(self.src(), self.tokens@, self.trivia@, self.position as int)
    }

    pub fn new(source: &'source str, max_tokens: u32, max_token_length: u32) -> (lexer: Self)
        requires
            source.spec_bytes().len() <= u32::MAX,
        ensures
            lexer.inv(),
            lexer.src() == source.spec_bytes(),
            lexer.pos() == 0,
            lexer.model() == (Seq::<Token>::empty(), Seq::<Trivia>::empty(), Seq::<DiagV>::empty()),
            lexer.limits() == (max_tokens, max_token_length),
    {
        let bytes = source.as_bytes();
        proof {
            vstd::utf8::encode_utf8_valid_utf8(source@);
            vstd::utf8::is_char_boundary_start_end_of_seq(source.spec_bytes());
            assert(diags_view(Seq::<Diagnostic>::empty()) =~= Seq::<DiagV>::empty());
        }
        Self {
            source,
            bytes,
            position: 0,
            tokens: Vec::new(),
            trivia: Vec::new(),
            diagnostics: Vec::new(),
            max_tokens,
            max_token_length,
        }
    }

    /// Lex the whole source, or up to the token limit, and close the token
    /// stream with the end-of-input token.
    pub fn tokenize(self) -> (result: LexResult)
        requires
            self.inv(),
            self.pos() == 0,
            self.model() == (Seq::<Token>::empty(), Seq::<Trivia>::empty(), Seq::<DiagV>::empty()),
        ensures
            (result.tokens@, result.trivia@, diags_view(result.diagnostics@)) == lex_spec(
                self.src(),
                self.limits().0,
                self.limits().1,
            ),
            tokens_wf(self.src(), result.tokens@),
            forall|i: int| 0 <= i < result.tokens@.len() ==> token_shaped(self.src(), #[trigger] result.tokens@[i]),
            result.tokens@.last().span.start < self.src().len() ==> exists|i: int|
                0 <= i < result.diagnostics@.len() && (#[trigger] result.diagnostics@[i]).code@
                    == "E0002"@,
    {
        let mut lexer = self;
        let ghost s = lexer.src();
        let ghost limits = lexer.limits();
        let ghost target = lex_from(
            s,
            0,
            lexer.max_tokens,
            lexer.max_token_length,
            (seq![], seq![], seq![]),
        );
        while lexer.position < lexer.bytes.len()
            invariant_except_break
                lexer.inv(),
                lexer.src() == s,
                lexer.limits() == limits,
                target == lex_from(
                    s,
                    lexer.position as int,
                    lexer.max_tokens,
                    lexer.max_token_length,
                    lexer.model(),
                ),
                forall|i: int| 0 <= i < lexer.tokens@.len() ==> token_shaped(s, #[trigger] lexer.tokens@[i]),
            ensures
                lexer.inv(),
                lexer.src() == s,
                forall|i: int| 0 <= i < lexer.tokens@.len() ==> token_shaped(s, #[trigger] lexer.tokens@[i]),
                target == (lexer.model(), lexer.position as int),
                lexer.position < s.len() ==> exists|i: int|
                    0 <= i < lexer.model().2.len() && (#[trigger] lexer.model().2[i]).0 == "E0002"@,
            decreases lexer.bytes@.len() - lexer.position,
        {
            let ghost before = lexer.model();
            let ghost p = lexer.position as int;
            let ghost old_tokens = lexer.tokens@;
            proof {
                lemma_step_shape(s, p);
            }
            lexer.lex_next();
            proof {
                let (piece, end, u) = lex_step(s, p);
                assert forall|i: int| 0 <= i < lexer.tokens@.len() implies token_shaped(s, #[trigger] lexer.tokens@[i]) by {
                    if i < old_tokens.len() {
                        assert(lexer.tokens@[i] == old_tokens[i]);
                    } else {
                        assert(lexer.tokens@[i].span == span_of(p, end));
                    }
                }
            }
            if lexer.tokens.len() > lexer.max_tokens as usize {
                let position = lexer.position;
                lexer.push_diagnostic("E0002", "maximum token count exceeded", position, position);
                proof {
                    let d = lexer.model().2;
                    assert(d[d.len() - 1].0 == "E0002"@);
                }
                break ;
            }
        }
        proof {
            if lexer.position < s.len() {
                let i = choose|i: int|
                    0 <= i < lexer.model().2.len() && (#[trigger] lexer.model().2[i]).0 == "E0002"@;
                assert(lexer.diagnostics@[i].code@ == "E0002"@);
            }
        }
        let eof = lexer.position as u32;
        let ghost before_eof = lexer.tokens@;
        lexer.tokens.push(Token { kind: TokenKind::Eof, span: Span::new(eof, eof) });
        proof {
            assert forall|i: int| 0 <= i < lexer.tokens@.len() implies token_shaped(s, #[trigger] lexer.tokens@[i]) by {
                if i < before_eof.len() {
                    assert(lexer.tokens@[i] == before_eof[i]);
                }
            }
        }
        LexResult { tokens: lexer.tokens, trivia: lexer.trivia, diagnostics: lexer.diagnostics }
    }

    fn lex_next(&mut self)
        requires
            old(self).inv(),
            old(self).position < old(self).src().len(),
        ensures
            final(self).inv(),
            final(self).src() == old(self).src(),
            final(self).limits() == old(self).limits(),
            ({
                let (piece, end, u) = lex_step(old(self).src(), old(self).position as int);
                &&& end > old(self).position
                &&& final(self).position == end
                &&& final(self).model() == apply_step(
                    old(self).model(),
                    old(self).position as int,
                    piece,
                    end,
                    u,
                    old(self).max_token_length,
                )
            }),
    {
        let (next_char, _) = decode_char(self.bytes, self.position);
        proof {
            lemma_next_boundary(self.src(), self.position as int);
        }
        let b1 = self.peek_byte(1);
        if next_char == ' ' || next_char == '\t' || next_char == '\r' {
            self.lex_whitespace();
        } else if next_char == '\n' {
            self.push_simple(TokenKind::Newline, 1);
        } else if next_char == '/' && b1 == Some(0x2fu8) {
            self.lex_line_comment();
        } else if next_char == '/' && b1 == Some(0x2au8) {
            self.lex_block_comment();
        } else if next_char == '`' {
            self.lex_string();
        } else if next_char == '/' {
            self.lex_regex();
        } else if next_char == '@' || next_char == '^' {
            self.lex_unknown_atom();
        } else if next_char == '#' && b1 == Some(0x5bu8) {
            self.push_simple(TokenKind::AnnotationStart, 2);
        } else if next_char == '#' || (next_char == '.' && b1 == Some(0x2fu8)) {
            self.lex_unknown_atom();
        } else if let Some(kind) = punct_token(next_char) {
            self.push_simple(kind, 1);
        } else if (next_char == '+' || next_char == '-') && is_digit_byte(b1) || is_ascii_digit_char(
            next_char,
        ) {
            self.lex_number();
        } else if next_char == '+' {
            self.push_simple(TokenKind::Plus, 1);
        } else if next_char == '-' {
            self.push_simple(TokenKind::Minus, 1);
        } else if is_identifier_start(next_char) {
            self.lex_identifier();
        } else {
            self.lex_unknown_atom();
        }
    }

    /// Record `kind` over the next `byte_length` ASCII bytes.
    fn push_simple(&mut self, kind: TokenKind, byte_length: usize)
        requires
            old(self).inv(),
            1 <= byte_length <= 2,
            old(self).position + byte_length <= old(self).src().len(),
            kind != TokenKind::Eof,
            forall|k: int|
                old(self).position <= k < old(self).position + byte_length ==> old(self).src()[k]
                    < 0x80,
        ensures
            final(self).inv(),
            final(self).src() == old(self).src(),
            final(self).limits() == old(self).limits(),
            final(self).position == old(self).position + byte_length,
            final(self).model() == apply_step(
                old(self).model(),
                old(self).position as int,
                Piece::Token(kind),
                old(self).position + byte_length,
                Unterminated::Nothing,
                old(self).max_token_length,
            ),
    {
        let start = self.position;
        proof {
            lemma_after_ascii(self.src(), start as int);
            if byte_length == 2 {
                lemma_after_ascii(self.src(), start + 1);
            }
        }
        self.position = start + byte_length;
        self.push_token(kind, start, self.position);
    }

    fn lex_whitespace(&mut self)
        requires
            old(self).inv(),
            old(self).position < old(self).src().len(),
            ({
                let b = old(self).src()[old(self).position as int];
                b == 0x20 || b == 0x09 || b == 0x0d
            }),
        ensures
            final(self).position > old(self).position,
            final(self).inv(),
            final(self).src() == old(self).src(),
            final(self).limits() == old(self).limits(),
            final(self).position == ws_end(old(self).src(), old(self).position as int),
            final(self).model() == apply_step(
                old(self).model(),
                old(self).position as int,
                Piece::Trivia(TriviaKind::Whitespace),
                ws_end(old(self).src(), old(self).position as int),
                Unterminated::Nothing,
                old(self).max_token_length,
            ),
    {
        let start = self.position;
        let ghost s = self.src();
        let mut q = start;
        while q < self.bytes.len() && (self.bytes[q] == 0x20u8 || self.bytes[q] == 0x09u8
            || self.bytes[q] == 0x0du8)
            invariant
                *self == *old(self),
                start == old(self).position,
                self.inv(),
                self.src() == s,
                start <= q <= s.len(),
                start < s.len(),
                s[start as int] == 0x20 || s[start as int] == 0x09 || s[start as int] == 0x0d,
                boundary(s, q as int),
                ws_end(s, start as int) == ws_end(s, q as int),
            decreases s.len() - q,
        {
            proof {
                lemma_after_ascii(s, q as int);
            }
            q = q + 1;
        }
        self.position = q;
        self.push_trivia(TriviaKind::Whitespace, start, q);
    }

    fn lex_line_comment(&mut self)
        requires
            old(self).inv(),
            old(self).position + 2 <= old(self).src().len(),
            old(self).src()[old(self).position as int] == 0x2f,
            old(self).src()[old(self).position + 1] == 0x2f,
        ensures
            final(self).position > old(self).position,
            final(self).inv(),
            final(self).src() == old(self).src(),
            final(self).limits() == old(self).limits(),
            final(self).position == line_end(old(self).src(), old(self).position + 2),
            final(self).model() == apply_step(
                old(self).model(),
                old(self).position as int,
                Piece::Trivia(TriviaKind::LineComment),
                line_end(old(self).src(), old(self).position + 2),
                Unterminated::Nothing,
                old(self).max_token_length,
            ),
    {
        let start = self.position;
        let ghost s = self.src();
        let mut q = start + 2;
        while q < self.bytes.len() && self.bytes[q] != 0x0au8
            invariant
                *self == *old(self),
                start == old(self).position,
                self.inv(),
                self.src() == s,
                start + 2 <= q <= s.len(),
                line_end(s, start + 2) == line_end(s, q as int),
            decreases s.len() - q,
        {
            q = q + 1;
        }
        proof {
            lemma_ascii_boundary(s, q as int);
        }
        self.position = q;
        self.push_trivia(TriviaKind::LineComment, start, q);
    }

    fn lex_block_comment(&mut self)
        requires
            old(self).inv(),
            old(self).position + 2 <= old(self).src().len(),
            old(self).src()[old(self).position as int] == 0x2f,
            old(self).src()[old(self).position + 1] == 0x2a,
        ensures
            final(self).position > old(self).position,
            final(self).inv(),
            final(self).src() == old(self).src(),
            final(self).limits() == old(self).limits(),
            ({
                let s = old(self).src();
                let p = old(self).position as int;
                let (end, u) = match block_close(s, p + 2) {
                    Some(q) => (q + 2, Unterminated::Nothing),
                    None => (s.len() as int, Unterminated::BlockComment),
                };
                &&& final(self).position == end
                &&& final(self).model() == apply_step(
                    old(self).model(),
                    p,
                    Piece::Trivia(TriviaKind::BlockComment),
                    end,
                    u,
                    old(self).max_token_length,
                )
            }),
    {
        let start = self.position;
        let ghost s = self.src();
        let len = self.bytes.len();
        let mut q = start + 2;
        while q < len
            invariant
                *self == *old(self),
                start == old(self).position,
                self.inv(),
                self.src() == s,
                len == s.len(),
                start + 2 <= q <= s.len(),
                block_close(s, start + 2) == block_close(s, q as int),
            decreases s.len() - q,
        {
            if self.bytes[q] == 0x2au8 && q + 1 < len && self.bytes[q + 1] == 0x2fu8 {
                proof {
                    lemma_after_ascii(s, q + 1);
                }
                self.position = q + 2;
                self.push_trivia(TriviaKind::BlockComment, start, q + 2);
                return ;
            }
            q = q + 1;
        }
        proof {
            lemma_ascii_boundary(s, q as int);
        }
        self.position = q;
        self.push_trivia(TriviaKind::BlockComment, start, q);
        self.push_diagnostic("E0201", "unterminated block comment", start, q);
    }

    fn lex_string(&mut self)
        requires
            old(self).inv(),
            old(self).position < old(self).src().len(),
            old(self).src()[old(self).position as int] == 0x60,
        ensures
            final(self).position > old(self).position,
            final(self).inv(),
            final(self).src() == old(self).src(),
            final(self).limits() == old(self).limits(),
            ({
                let s = old(self).src();
                let p = old(self).position as int;
                let (end, closed) = string_scan(s, p + 1, false);
                &&& final(self).position == end
                &&& final(self).model() == apply_step(
                    old(self).model(),
                    p,
                    Piece::Token(if closed { TokenKind::String } else { TokenKind::Error }),
                    end,
                    if closed { Unterminated::Nothing } else { Unterminated::String },
                    old(self).max_token_length,
                )
            }),
    {
        let start = self.position;
        let ghost s = self.src();
        let len = self.bytes.len();
        let mut q = start + 1;
        let mut escaped = false;
        while q < len
            invariant
                *self == *old(self),
                start == old(self).position,
                self.inv(),
                self.src() == s,
                len == s.len(),
                start + 1 <= q <= s.len(),
                string_scan(s, start + 1, false) == string_scan(s, q as int, escaped),
            decreases s.len() - q,
        {
            let b = self.bytes[q];
            q = q + 1;
            if escaped {
                escaped = false;
            } else if b == 0x5cu8 {
                escaped = true;
            } else if b == 0x60u8 {
                proof {
                    lemma_after_ascii(s, q - 1);
                }
                self.position = q;
                self.push_token(TokenKind::String, start, q);
                return ;
            }
        }
        proof {
            lemma_ascii_boundary(s, q as int);
        }
        self.position = q;
        self.push_token(TokenKind::Error, start, q);
        self.push_diagnostic("E0202", "unterminated backtick string", start, q);
    }

    fn lex_regex(&mut self)
        requires
            old(self).inv(),
            old(self).position < old(self).src().len(),
            old(self).src()[old(self).position as int] == 0x2f,
        ensures
            final(self).position > old(self).position,
            final(self).inv(),
            final(self).src() == old(self).src(),
            final(self).limits() == old(self).limits(),
            ({
                let s = old(self).src();
                let p = old(self).position as int;
                let (e, closed) = regex_scan(s, p + 1, false);
                let end = if closed { ident_end(s, e) } else { e };
                &&& final(self).position == end
                &&& final(self).model() == apply_step(
                    old(self).model(),
                    p,
                    Piece::Token(if closed { TokenKind::Regex } else { TokenKind::Error }),
                    end,
                    if closed { Unterminated::Nothing } else { Unterminated::Regex },
                    old(self).max_token_length,
                )
            }),
    {
        let start = self.position;
        let ghost s = self.src();
        let len = self.bytes.len();
        let mut q = start + 1;
        let mut escaped = false;
        proof {
            lemma_ascii_boundary(s, len as int);
        }
        while q < len
            invariant_except_break
                *self == *old(self),
                start == old(self).position,
                boundary(s, len as int),
                self.inv(),
                self.src() == s,
                len == s.len(),
                start + 1 <= q <= s.len(),
                regex_scan(s, start + 1, false) == regex_scan(s, q as int, escaped),
            ensures
                *self == *old(self),
                start == old(self).position,
                start + 1 <= q <= s.len(),
                boundary(s, q as int),
                regex_scan(s, start + 1, false) == (q as int, false),
            decreases s.len() - q,
        {
            let b = self.bytes[q];
            if !escaped && b == 0x0au8 {
                proof {
                    lemma_ascii_boundary(s, q as int);
                }
                break ;
            }
            q = q + 1;
            if escaped {
                escaped = false;
            } else if b == 0x5cu8 {
                escaped = true;
            } else if b == 0x2fu8 {
                proof {
                    lemma_after_ascii(s, q - 1);
                }
                let end = self.identifier_run(q);
                self.position = end;
                self.push_token(TokenKind::Regex, start, end);
                return ;
            }
        }
        self.position = q;
        self.push_token(TokenKind::Error, start, q);
        self.push_diagnostic("E0203", "unterminated regular expression", start, q);
    }

    fn lex_number(&mut self)
        requires
            old(self).inv(),
            old(self).position < old(self).src().len(),
            ({
                let s = old(self).src();
                let p = old(self).position as int;
                ascii_digit(s[p]) || ((s[p] == 0x2b || s[p] == 0x2d) && p + 1 < s.len()
                    && ascii_digit(s[p + 1]))
            }),
        ensures
            final(self).inv(),
            final(self).src() == old(self).src(),
            final(self).limits() == old(self).limits(),
            ({
                let s = old(self).src();
                let p = old(self).position as int;
                let (end, dots, valid) = number_scan(s, p, true, 0, true);
                &&& end > p
                &&& final(self).position == end
                &&& final(self).model() == apply_step(
                    old(self).model(),
                    p,
                    Piece::Token(number_kind(dots, valid)),
                    end,
                    Unterminated::Nothing,
                    old(self).max_token_length,
                )
            }),
    {
        let start = self.position;
        let ghost s = self.src();
        let len = self.bytes.len();
        let mut q = start;
        let mut dot_count: u32 = 0;
        let mut valid_decimal = true;
        let mut first_character = true;
        while q < len
            invariant_except_break
                *self == *old(self),
                start == old(self).position,
                self.inv(),
                self.src() == s,
                len == s.len(),
                len <= u32::MAX,
                start <= q <= s.len(),
                start < s.len(),
                dot_count <= q - start,
                first_character <==> q == start,
                q == start ==> ascii_digit(s[start as int]) || ((s[start as int] == 0x2b
                    || s[start as int] == 0x2d) && start + 1 < s.len() && ascii_digit(
                    s[start + 1],
                )),
                boundary(s, q as int),
                number_scan(s, start as int, true, 0, true) == number_scan(
                    s,
                    q as int,
                    first_character,
                    dot_count as nat,
                    valid_decimal,
                ),
            ensures
                self.inv(),
                self.src() == s,
                start < q <= s.len(),
                boundary(s, q as int),
                number_scan(s, start as int, true, 0, true) == (
                    q as int,
                    dot_count as nat,
                    valid_decimal,
                ),
            decreases s.len() - q,
        {
            let b = self.bytes[q];
            if first_character && (b == 0x2du8 || b == 0x2bu8) {
                proof {
                    lemma_after_ascii(s, q as int);
                }
                q = q + 1;
                first_character = false;
                continue ;
            }
            first_character = false;
            if b == 0x2eu8 {
                proof {
                    lemma_after_ascii(s, q as int);
                }
                dot_count = dot_count + 1;
                q = q + 1;
                continue ;
            }
            if is_ascii_alphanumeric(b) || b == 0x2du8 || b == 0x2bu8 || b == 0x5eu8 || b == 0x23u8 {
                if !(b >= 0x30u8 && b <= 0x39u8) {
                    valid_decimal = false;
                }
                proof {
                    lemma_after_ascii(s, q as int);
                }
                q = q + 1;
                continue ;
            }
            break ;
        }
        let kind = if valid_decimal && dot_count == 0 {
            TokenKind::Integer
        } else if valid_decimal && dot_count == 1 {
            TokenKind::Decimal
        } else {
            TokenKind::UnknownAtom
        };
        self.position = q;
        self.push_token(kind, start, q);
    }

    /// The end of the run of identifier characters from `from`.
    fn identifier_run(&self, from: usize) -> (end: usize)
        requires
            self.inv(),
            boundary(self.src(), from as int),
            from <= self.src().len(),
        ensures
            end == ident_end(self.src(), from as int),
            from <= end <= self.src().len(),
            boundary(self.src(), end as int),
    {
        let ghost s = self.src();
        let len = self.bytes.len();
        let mut q = from;
        while q < len
            invariant_except_break
                self.inv(),
                self.src() == s,
                len == s.len(),
                from <= q <= s.len(),
                boundary(s, q as int),
                ident_end(s, from as int) == ident_end(s, q as int),
            ensures
                from <= q <= s.len(),
                boundary(s, q as int),
                ident_end(s, from as int) == q,
            decreases s.len() - q,
        {
            let (c, w) = decode_char(self.bytes, q);
            if !is_identifier_continue(c) {
                break ;
            }
            q = q + w;
        }
        q
    }

    fn lex_identifier(&mut self)
        requires
            old(self).inv(),
            old(self).position < old(self).src().len(),
            is_identifier_start_spec(char_at(old(self).src(), old(self).position as int)),
        ensures
            final(self).inv(),
            final(self).src() == old(self).src(),
            final(self).limits() == old(self).limits(),
            ({
                let s = old(self).src();
                let p = old(self).position as int;
                let end = ident_end(s, p + char_width(s, p));
                &&& end > p
                &&& final(self).position == end
                &&& final(self).model() == apply_step(
                    old(self).model(),
                    p,
                    Piece::Token(word_kind(s.subrange(p, end))),
                    end,
                    Unterminated::Nothing,
                    old(self).max_token_length,
                )
            }),
    {
        let start = self.position;
        let ghost s = self.src();
        let (_, width) = decode_char(self.bytes, start);
        proof {
            lemma_ident_end_ge(s, start + width);
        }
        let end = self.identifier_run(start + width);
        let kind = if bytes_match(self.bytes, start, end, &[0x74u8, 0x72u8, 0x75u8, 0x65u8]) {
            TokenKind::True
        } else if bytes_match(self.bytes, start, end, &[0x66u8, 0x61u8, 0x6cu8, 0x73u8, 0x65u8]) {
            TokenKind::False
        } else if bytes_match(self.bytes, start, end, &[0x73u8, 0x74u8, 0x72u8, 0x75u8, 0x63u8, 0x74u8]) {
            TokenKind::Struct
        } else if bytes_match(self.bytes, start, end, &[0x65u8, 0x6eu8, 0x75u8, 0x6du8]) {
            TokenKind::Enum
        } else {
            TokenKind::Identifier
        };
        self.position = end;
        self.push_token(kind, start, end);
    }

    fn lex_unknown_atom(&mut self)
        requires
            old(self).inv(),
            old(self).position < old(self).src().len(),
        ensures
            final(self).inv(),
            final(self).src() == old(self).src(),
            final(self).limits() == old(self).limits(),
            ({
                let s = old(self).src();
                let p = old(self).position as int;
                let end = atom_step_end(s, p);
                &&& end > p
                &&& final(self).position == end
                &&& final(self).model() == apply_step(
                    old(self).model(),
                    p,
                    Piece::Token(TokenKind::UnknownAtom),
                    end,
                    Unterminated::Nothing,
                    old(self).max_token_length,
                )
            }),
    {
        let start = self.position;
        let ghost s = self.src();
        let len = self.bytes.len();
        let mut q = start;
        while q < len
            invariant_except_break
                *self == *old(self),
                start == old(self).position,
                self.inv(),
                self.src() == s,
                len == s.len(),
                start <= q <= s.len(),
                boundary(s, q as int),
                atom_end(s, start as int) == atom_end(s, q as int),
            ensures
                start <= q <= s.len(),
                boundary(s, q as int),
                atom_end(s, start as int) == q,
            decreases s.len() - q,
        {
            let (c, w) = decode_char(self.bytes, q);
            if is_atom_boundary(c) {
                break ;
            }
            if c == '/' && q + 1 < len && self.bytes[q + 1] == 0x2fu8 {
                break ;
            }
            q = q + w;
        }
        if q == start {
            let (_, w) = decode_char(self.bytes, q);
            q = q + w;
        }
        self.position = q;
        self.push_token(TokenKind::UnknownAtom, start, q);
    }

    /// Record a token from `start` to `end`, and the length diagnostic when the
    /// token is longer than the limit.
    fn push_token(&mut self, kind: TokenKind, start: usize, end: usize)
        requires
            old(self).base(),
            start < end == old(self).position,
            end <= old(self).src().len(),
            boundary(old(self).src(), start as int),
            boundary(old(self).src(), end as int),
            kind != TokenKind::Eof,
            records_before(old(self).src(), old(self).tokens@, old(self).trivia@, start as int),
        ensures
            final(self).inv(),
            final(self).src() == old(self).src(),
            final(self).limits() == old(self).limits(),
            final(self).position == old(self).position,
            final(self).model() == apply_step(
                old(self).model(),
                start as int,
                Piece::Token(kind),
                end as int,
                Unterminated::Nothing,
                old(self).max_token_length,
            ),
    {
        let span = Span::new(start as u32, end as u32);
        self.tokens.push(Token { kind, span });
        proof {
            assert(records_before(self.src(), self.tokens@, self.trivia@, end as int)) by {
                assert forall|i: int| 0 <= i < self.tokens@.len() implies {
                    &&& (#[trigger] self.tokens@[i]).span.start <= self.tokens@[i].span.end <= end
                    &&& boundary(self.src(), self.tokens@[i].span.start as int)
                    &&& boundary(self.src(), self.tokens@[i].span.end as int)
                    &&& self.tokens@[i].kind != TokenKind::Eof
                } by {
                    if i < old(self).tokens@.len() {
                        assert(self.tokens@[i] == old(self).tokens@[i]);
                    }
                }
                assert forall|i: int, j: int|
                    0 <= i < j < self.tokens@.len() implies #[trigger] self.tokens@[i].span.end
                    <= #[trigger] self.tokens@[j].span.start by {
                    assert(self.tokens@[i] == old(self).tokens@[i]);
                    if j < old(self).tokens@.len() {
                        assert(self.tokens@[j] == old(self).tokens@[j]);
                    }
                }
            }
        }
        if end - start > self.max_token_length as usize {
            self.push_diagnostic("E0004", "maximum token length exceeded", start, end);
        }
        proof {
            assert(diags_view(self.diagnostics@) =~= old(self).model().2 + length_diag(
                start as int,
                end as int,
                old(self).max_token_length,
            ));
        }
    }

    /// Record trivia from `start` to `end`.
    fn push_trivia(&mut self, kind: TriviaKind, start: usize, end: usize)
        requires
            old(self).base(),
            start < end == old(self).position,
            end <= old(self).src().len(),
            boundary(old(self).src(), end as int),
            records_before(old(self).src(), old(self).tokens@, old(self).trivia@, start as int),
        ensures
            final(self).inv(),
            final(self).src() == old(self).src(),
            final(self).limits() == old(self).limits(),
            final(self).position == old(self).position,
            final(self).model() == apply_step(
                old(self).model(),
                start as int,
                Piece::Trivia(kind),
                end as int,
                Unterminated::Nothing,
                old(self).max_token_length,
            ),
    {
        self.trivia.push(Trivia { kind, span: Span::new(start as u32, end as u32) });
        proof {
            assert(diags_view(self.diagnostics@) =~= old(self).model().2);
        }
    }

    fn push_diagnostic(&mut self, code: &str, message: &str, start: usize, end: usize)
        requires
            old(self).inv(),
            start <= end <= old(self).src().len(),
        ensures
            final(self).inv(),
            final(self).src() == old(self).src(),
            final(self).limits() == old(self).limits(),
            final(self).position == old(self).position,
            final(self).model() == (
                old(self).model().0,
                old(self).model().1,
                old(self).model().2.push((code@, message@, span_of(start as int, end as int))),
            ),
    {
        self.diagnostics.push(Diagnostic::new(code, message, Span::new(start as u32, end as u32)));
        proof {
            assert(diags_view(self.diagnostics@) =~= old(self).model().2.push(
                (code@, message@, span_of(start as int, end as int)),
            ));
        }
    }

    fn peek_byte(&self, offset: usize) -> (b: Option<u8>)
        requires
            self.inv(),
            offset <= 4,
        ensures
            b == byte_at(self.src(), self.position + offset),
    {
        if offset < self.bytes.len() - self.position {
            Some(self.bytes[self.position + offset])
        } else {
            None
        }
    }
}

fn is_identifier_start(next_char: char) -> (r: bool)
    ensures
        r == is_identifier_start_spec(next_char),
{
    is_alphabetic(next_char) || next_char == '_'
}

fn is_identifier_continue(next_char: char) -> (r: bool)
    ensures
        r == is_identifier_continue_spec(next_char),
{
    is_alphanumeric(next_char) || next_char == '_' || next_char == '-'
}

fn is_atom_boundary(next_char: char) -> (r: bool)
    ensures
        r == is_atom_boundary_spec(next_char),
{
    is_whitespace(next_char) || next_char == ',' || next_char == '}' || next_char == ']'
        || next_char == '{' || next_char == '[' || next_char == '(' || next_char == ')'
        || next_char == ':' || next_char == '=' || next_char == '<' || next_char == '>'
        || next_char == '!' || next_char == '`'
}

fn is_ascii_alphanumeric(b: u8) -> (r: bool)
    ensures
        r == ascii_alphanumeric(b),
{
    (b >= 0x30u8 && b <= 0x39u8) || (b >= 0x41u8 && b <= 0x5au8) || (b >= 0x61u8 && b <= 0x7au8)
}

fn is_digit_byte(b: Option<u8>) -> (r: bool)
    ensures
        r == (b matches Some(x) && ascii_digit(x)),
{
    match b {
        Some(x) => x >= 0x30u8 && x <= 0x39u8,
        None => false,
    }
}

fn is_ascii_digit_char(c: char) -> (r: bool)
    ensures
        r == char_ascii_digit(c),
{
    (c as u32) >= 0x30 && (c as u32) <= 0x39
}

fn punct_token(c: char) -> (r: Option<TokenKind>)
    ensures
        r == punct_kind(c),
{
    if c == '.' {
        Some(TokenKind::Dot)
    } else if c == '{' {
        Some(TokenKind::LBrace)
    } else if c == '}' {
        Some(TokenKind::RBrace)
    } else if c == '[' {
        Some(TokenKind::LBracket)
    } else if c == ']' {
        Some(TokenKind::RBracket)
    } else if c == '(' {
        Some(TokenKind::LParen)
    } else if c == ')' {
        Some(TokenKind::RParen)
    } else if c == ',' {
        Some(TokenKind::Comma)
    } else if c == ':' {
        Some(TokenKind::Colon)
    } else if c == '<' {
        Some(TokenKind::LessThan)
    } else if c == '>' {
        Some(TokenKind::GreaterThan)
    } else if c == '=' {
        Some(TokenKind::Equals)
    } else if c == '!' {
        Some(TokenKind::Bang)
    } else {
        None
    }
}

proof fn lemma_ident_end_ge(s: Seq<u8>, q: int)
    ensures
        ident_end(s, q) >= q,
    decreases s.len() - q,
{
    if 0 <= q < s.len() && q + char_width(s, q) <= s.len() && is_identifier_continue_spec(
        char_at(s, q),
    ) {
        lemma_ident_end_ge(s, q + char_width(s, q));
    }
}

} // verus!
