use vstd::prelude::*;
use vstd::utf8::*;
use vstd::string::StringSliceAdditionalSpecFns;

verus! {

broadcast use vstd::utf8::group_utf8_lib;

// ---------------------------------------------------------------------------
// Characters of a UTF-8 byte sequence
// ---------------------------------------------------------------------------

/// The character whose encoding starts at byte `p` of `s`.
pub open spec fn char_at(s: Seq<u8>, p: int) -> char {
    decode_first_scalar(s.subrange(p, s.len() as int)) as char
}

/// The number of bytes of the character whose encoding starts at byte `p` of `s`.
pub open spec fn char_width(s: Seq<u8>, p: int) -> int {
    length_of_first_scalar(s.subrange(p, s.len() as int))
}

/// The characters that the bytes `start..end` of `s` encode.
pub open spec fn text_of(s: Seq<u8>, start: int, end: int) -> Seq<char> {
    decode_utf8(s.subrange(start, end))
}

/// `p` is a position of `s` at which a character starts, or the end of `s`.
pub open spec fn boundary(s: Seq<u8>, p: int) -> bool {
    valid_utf8(s) && is_char_boundary(s, p)
}

/// Names what `char::is_alphabetic` returns for a character.
pub uninterp spec fn char_is_alphabetic(c: char) -> bool;

/// Names what `char::is_alphanumeric` returns for a character.
pub uninterp spec fn char_is_alphanumeric(c: char) -> bool;

/// Names what `char::is_whitespace` returns for a character.
pub uninterp spec fn char_is_whitespace(c: char) -> bool;

/// Whether `c` has the Unicode `Alphabetic` property: among ASCII
/// characters, exactly the letters.
pub open spec fn alphabetic_char(c: char) -> bool {
    if (c as u32) < 0x80 {
        ('a' <= c && c <= 'z') || ('A' <= c && c <= 'Z')
    } else {
        char_is_alphabetic(c)
    }
}

/// Whether `c` is alphabetic or numeric: among ASCII characters, exactly
/// the letters and the digits.
pub open spec fn alphanumeric_char(c: char) -> bool {
    if (c as u32) < 0x80 {
        ('a' <= c && c <= 'z') || ('A' <= c && c <= 'Z') || ('0' <= c && c <= '9')
    } else {
        char_is_alphanumeric(c)
    }
}

/// Whether `c` has the Unicode `White_Space` property: among ASCII
/// characters, exactly space, tab, line feed, vertical tab, form feed and
/// carriage return.
pub open spec fn whitespace_char(c: char) -> bool {
    if (c as u32) < 0x80 {
        c == ' ' || ('\t' <= c && c <= '\r')
    } else {
        char_is_whitespace(c)
    }
}

/// Calls `char::is_alphabetic`: whether `c` has the Unicode `Alphabetic`
/// property, which std documents; among ASCII characters only the letters
/// have it. Beyond ASCII its result is named by `char_is_alphabetic`.
#[verifier::external_body]
pub(crate) fn is_alphabetic(c: char) -> (r: bool)
    ensures
        r == char_is_alphabetic(c),
        r == alphabetic_char(c),
{
    c.is_alphabetic()
}

/// Calls `char::is_alphanumeric`: whether `c` is alphabetic or numeric, as
/// std documents; among ASCII characters, the letters and digits. Beyond
/// ASCII its result is named by `char_is_alphanumeric`.
#[verifier::external_body]
pub(crate) fn is_alphanumeric(c: char) -> (r: bool)
    ensures
        r == char_is_alphanumeric(c),
        r == alphanumeric_char(c),
{
    c.is_alphanumeric()
}

/// Calls `char::is_whitespace`: whether `c` has the Unicode `White_Space`
/// property, as std documents; among ASCII characters, space and `\t`
/// through `\r`. Beyond ASCII its result is named by `char_is_whitespace`.
#[verifier::external_body]
pub(crate) fn is_whitespace(c: char) -> (r: bool)
    ensures
        r == char_is_whitespace(c),
        r == whitespace_char(c),
{
    c.is_whitespace()
}

/// Calls `char::from_u32`: as std documents, it gives the character with
/// that scalar value, or `None` for a value that is no Unicode scalar
/// (a surrogate or a value above `0x10FFFF`).
#[verifier::external_body]
pub(crate) fn char_from_u32(v: u32) -> (r: Option<char>)
    ensures
        r is Some <==> is_scalar(v),
        r matches Some(c) ==> c as u32 == v,
{
    char::from_u32(v)
}

/// Calls `String::push`, which appends one character.
#[verifier::external_body]
pub(crate) fn push_char(s: &mut String, c: char)
    ensures
        final(s)@ == old(s)@.push(c),
{
    s.push(c);
}

/// Appends a string slice to a string.
pub fn push_str(s: &mut String, t: &str)
    ensures
        final(s)@ == old(s)@ + t@,
{
    s.append(t);
}

// ---------------------------------------------------------------------------
// Facts about character boundaries
// ---------------------------------------------------------------------------

/// The suffix of a valid encoding that starts at a character boundary is valid.
pub proof fn lemma_suffix_valid(s: Seq<u8>, p: int)
    requires
        boundary(s, p),
    ensures
        valid_utf8(s.subrange(p, s.len() as int)),
        0 <= p <= s.len(),
{
    valid_utf8_split(s, p);
    if p < 0 || p > s.len() {
        assert(!is_char_boundary(s, p));
    }
}

/// The character that starts at a boundary is followed by another boundary,
/// and an ASCII byte is a character of width one.
pub proof fn lemma_next_boundary(s: Seq<u8>, p: int)
    requires
        boundary(s, p),
        p < s.len(),
    ensures
        1 <= char_width(s, p) <= 4,
        p + char_width(s, p) <= s.len(),
        boundary(s, p + char_width(s, p)),
        s[p] < 0x80 ==> char_width(s, p) == 1 && char_at(s, p) == (s[p] as u32) as char,
        s[p] < 0x80 ==> char_at(s, p) as u32 == s[p] as u32,
        s[p] >= 0x80 ==> char_at(s, p) as u32 >= 0x80,
{
    lemma_suffix_valid(s, p);
    let t = s.subrange(p, s.len() as int);
    assert(t.len() > 0);
    assert(valid_first_scalar(t));
    let w = length_of_first_scalar(t);
    let rest = pop_first_scalar(t);
    assert(valid_utf8(rest));
    let q = p + w;
    if q < s.len() {
        assert(rest.len() > 0);
        assert(valid_first_scalar(rest));
        assert(rest[0] == s[q]);
        is_char_boundary_iff_not_is_continuation_byte(s, q);
    } else {
        is_char_boundary_start_end_of_seq(s);
    }
    let b = t[0];
    assert(t[0] == s[p]);
    if b < 0x80 {
        assert(b & 0x7F == b) by (bit_vector)
            requires
                b < 0x80,
        ;
    }
    let v = decode_first_scalar(t);
    lemma_decoded_is_scalar(t);
    if b >= 0x80 {
        assert(v >= 0x80);
    }
}

/// A well-formed first encoded character decodes to a Unicode scalar.
pub proof fn lemma_decoded_is_scalar(t: Seq<u8>)
    requires
        valid_first_scalar(t),
    ensures
        is_scalar(decode_first_scalar(t)),
{
    let b0 = t[0];
    if is_leading_byte_width_1(b0) {
        assert((b0 & 0x7F) as u32 <= 0x7F) by (bit_vector);
    } else if is_leading_byte_width_2(b0) {
        let b1 = t[1];
        assert((((b0 & 0x1F) as u32) << 6) | ((b1 & 0x3F) as u32) <= 0x7FF) by (bit_vector);
    } else if is_leading_byte_width_3(b0) {
        let b1 = t[1];
        let b2 = t[2];
        assert((((b0 & 0x0F) as u32) << 12) | (((b1 & 0x3F) as u32) << 6) | ((b2 & 0x3F) as u32)
            <= 0xFFFF) by (bit_vector);
    }
}

/// A byte that is no UTF-8 continuation byte starts a character.
pub proof fn lemma_ascii_boundary(s: Seq<u8>, p: int)
    requires
        valid_utf8(s),
        0 <= p <= s.len(),
        p < s.len() ==> s[p] < 0x80 || s[p] >= 0xc0,
    ensures
        boundary(s, p),
{
    if p < s.len() {
        is_char_boundary_iff_not_is_continuation_byte(s, p);
    } else {
        is_char_boundary_start_end_of_seq(s);
    }
}

/// Within a prefix that ends at a boundary, the boundaries are those of the whole.
pub proof fn lemma_prefix_boundary(s: Seq<u8>, start: int, end: int)
    requires
        boundary(s, start),
        boundary(s, end),
        start <= end,
    ensures
        valid_utf8(s.subrange(0, end)),
        is_char_boundary(s.subrange(0, end), start),
        0 <= start,
        end <= s.len(),
{
    lemma_suffix_valid(s, start);
    lemma_suffix_valid(s, end);
    valid_utf8_split(s, end);
    let h = s.subrange(0, end);
    if start == end {
        is_char_boundary_start_end_of_seq(h);
    } else if start == 0 {
    } else {
        is_char_boundary_iff_not_is_continuation_byte(s, start);
        is_char_boundary_iff_not_is_continuation_byte(h, start);
    }
}

/// The text up to the end of a character is the text before it followed by
/// the character.
pub proof fn lemma_text_step(s: Seq<u8>, p: int)
    requires
        boundary(s, p),
        p < s.len(),
    ensures
        text_of(s, 0, p + char_width(s, p)) == text_of(s, 0, p).push(char_at(s, p)),
{
    lemma_next_boundary(s, p);
    let w = char_width(s, p);
    let q = p + w;
    lemma_prefix_boundary(s, p, q);
    let h = s.subrange(0, q);
    decode_utf8_split(h, p);
    assert(h.subrange(0, p) =~= s.subrange(0, p));
    let t = h.subrange(p, q);
    assert(t =~= s.subrange(p, q));
    valid_utf8_split(h, p);
    let u = s.subrange(p, s.len() as int);
    lemma_suffix_valid(s, p);
    assert(valid_first_scalar(u));
    assert(forall|i: int| 0 <= i < w ==> #[trigger] t[i] == u[i]);
    assert(valid_first_scalar(t));
    assert(length_of_first_scalar(t) == w);
    assert(decode_first_scalar(t) == decode_first_scalar(u));
    assert(pop_first_scalar(t) =~= Seq::<u8>::empty());
    assert(valid_utf8(t));
    assert(valid_utf8(pop_first_scalar(t)));
    assert(decode_utf8(Seq::<u8>::empty()) =~= Seq::<char>::empty());
    assert(decode_utf8(t) == seq![decode_first_scalar(t) as char] + decode_utf8(pop_first_scalar(t)));
    assert(decode_utf8(t) =~= seq![char_at(s, p)]);
}

// ---------------------------------------------------------------------------
// Executable helpers over the bytes of a source
// ---------------------------------------------------------------------------

/// Decode the character that starts at byte `p`, with its width in bytes.
pub fn decode_char(bytes: &[u8], p: usize) -> (r: (char, usize))
    requires
        boundary(bytes@, p as int),
        p < bytes@.len(),
    ensures
        r.0 == char_at(bytes@, p as int),
        r.1 == char_width(bytes@, p as int),
        1 <= r.1 <= 4,
        p + r.1 <= bytes@.len(),
        boundary(bytes@, p + r.1),
{
    proof {
        lemma_next_boundary(bytes@, p as int);
        lemma_suffix_valid(bytes@, p as int);
    }
    let ghost t = bytes@.subrange(p as int, bytes@.len() as int);
    assert(valid_first_scalar(t));
    let b0 = bytes[p];
    assert(t[0] == b0);
    let (v, w): (u32, usize) = if b0 <= 0x7f {
        (((b0 & 0x7F) as u32), 1)
    } else if b0 <= 0xdf {
        let b1 = bytes[p + 1];
        assert(t[1] == b1);
        ((((b0 & 0x1F) as u32) << 6) | ((b1 & 0x3F) as u32), 2)
    } else if b0 <= 0xef {
        let b1 = bytes[p + 1];
        let b2 = bytes[p + 2];
        assert(t[1] == b1 && t[2] == b2);
        ((((b0 & 0x0F) as u32) << 12) | (((b1 & 0x3F) as u32) << 6) | ((b2 & 0x3F) as u32), 3)
    } else {
        let b1 = bytes[p + 1];
        let b2 = bytes[p + 2];
        let b3 = bytes[p + 3];
        assert(t[1] == b1 && t[2] == b2 && t[3] == b3);
        (
            (((b0 & 0x07) as u32) << 18) | (((b1 & 0x3F) as u32) << 12) | (((b2 & 0x3F) as u32)
                << 6) | ((b3 & 0x3F) as u32),
            4,
        )
    };
    assert(v == decode_first_scalar(t));
    proof {
        lemma_decoded_is_scalar(t);
    }
    match char_from_u32(v) {
        Some(c) => {
            proof {
                char_u32_cast(c, v);
            }
            assert(c == v as char);
            (c, w)
        },
        None => {
            (' ', w)
        },
    }
}

/// The text of the bytes `start..end` of `source`, both at character boundaries.
pub fn slice_text(source: &str, start: usize, end: usize) -> (r: String)
    requires
        boundary(source.spec_bytes(), start as int),
        boundary(source.spec_bytes(), end as int),
        start <= end,
    ensures
        r@ == text_of(source.spec_bytes(), start as int, end as int),
        encode_utf8(r@) == source.spec_bytes().subrange(start as int, end as int),
{
    proof {
        lemma_prefix_boundary(source.spec_bytes(), start as int, end as int);
    }
    let (head, _) = source.split_at(end);
    let (_, mid) = head.split_at(start);
    let r = mid.to_owned();
    proof {
        let s = source.spec_bytes();
        assert(mid.spec_bytes() =~= s.subrange(start as int, end as int));
        encode_utf8_decode_utf8(mid@);
    }
    r
}

/// The text of the bytes `start..end` of `source`, when that range lies within
/// `source` between character boundaries.
pub fn slice_str<'a>(source: &'a str, start: usize, end: usize) -> (r: Option<&'a str>)
    ensures
        r is Some <==> {
            &&& start <= end <= source.spec_bytes().len()
            &&& boundary(source.spec_bytes(), start as int)
            &&& boundary(source.spec_bytes(), end as int)
        },
        r matches Some(t) ==> t@ == text_of(source.spec_bytes(), start as int, end as int),
{
    proof {
        encode_utf8_valid_utf8(source@);
    }
    if start > end || end > source.as_bytes().len() {
        return None;
    }
    if !source.is_char_boundary(start) || !source.is_char_boundary(end) {
        return None;
    }
    proof {
        lemma_prefix_boundary(source.spec_bytes(), start as int, end as int);
    }
    let (head, _) = source.split_at(end);
    let (_, mid) = head.split_at(start);
    proof {
        let s = source.spec_bytes();
        assert(mid.spec_bytes() =~= s.subrange(start as int, end as int));
        encode_utf8_decode_utf8(mid@);
    }
    Some(mid)
}

/// Whether the bytes `start..end` equal `word`.
pub fn bytes_match(bytes: &[u8], start: usize, end: usize, word: &[u8]) -> (r: bool)
    requires
        start <= end <= bytes@.len(),
    ensures
        r == (bytes@.subrange(start as int, end as int) == word@),
{
    if end - start != word.len() {
        proof {
            assert(bytes@.subrange(start as int, end as int).len() != word@.len());
        }
        return false;
    }
    let mut i: usize = 0;
    while i < word.len()
        invariant
            start <= end <= bytes@.len(),
            end - start == word@.len(),
            i <= word@.len(),
            forall|k: int| 0 <= k < i ==> bytes@[start + k] == word@[k],
        decreases word@.len() - i,
    {
        if bytes[start + i] != word[i] {
            proof {
                assert(bytes@.subrange(start as int, end as int)[i as int] != word@[i as int]);
            }
            return false;
        }
        i = i + 1;
    }
    proof {
        assert(bytes@.subrange(start as int, end as int) =~= word@);
    }
    true
}

/// `core::str::from_utf8`: when `bytes` are valid UTF-8, the text they
/// encode; otherwise the `valid_up_to` of the error, which its documentation
/// gives as the largest index whose prefix of `bytes` is valid UTF-8.
#[verifier::external_body]
pub(crate) fn str_from_utf8(bytes: &[u8]) -> (r: Result<&str, usize>)
    ensures
        r is Ok <==> vstd::utf8::valid_utf8(bytes@),
        r matches Ok(text) ==> text.spec_bytes() == bytes@,
        r matches Err(n) ==> {
            &&& n <= bytes@.len()
            &&& vstd::utf8::valid_utf8(bytes@.subrange(0, n as int))
            &&& forall|m: int|
                n < m <= bytes@.len() ==> !vstd::utf8::valid_utf8(#[trigger] bytes@.subrange(0, m))
        },
{
    match core::str::from_utf8(bytes) {
        Ok(text) => Ok(text),
        Err(error) => Err(error.valid_up_to()),
    }
}

} // verus!
