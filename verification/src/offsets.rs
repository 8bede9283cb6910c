//! Byte offsets into UTF-8 text.
//!
//! A `&str` is viewed as its sequence of characters, yet every position that
//! this crate hands out is a byte offset into the UTF-8 encoding. This module
//! relates the two: where a character begins, how to split a text at an
//! offset, and how to read one scalar value out of the encoded bytes.
use vstd::prelude::*;
use vstd::utf8::*;

verus! {

/// Number of bytes in the UTF-8 encoding of `c`.
pub open spec fn width_of(c: char) -> int {
    encode_scalar(c as u32).len() as int
}

/// Byte offset at which character `k` of `text` begins, which is also the
/// number of bytes taken by the first `k` characters.
pub open spec fn offset_of(text: Seq<char>, k: int) -> int {
    encode_utf8(text.take(k)).len() as int
}

/// The characters of `text` that lie before byte offset `at`.
pub open spec fn prefix_at(text: Seq<char>, at: int) -> Seq<char> {
    decode_utf8(encode_utf8(text).subrange(0, at))
}

/// The characters of `text` that lie at and after byte offset `at`.
pub open spec fn suffix_at(text: Seq<char>, at: int) -> Seq<char> {
    decode_utf8(encode_utf8(text).subrange(at, encode_utf8(text).len() as int))
}

/// Encoding distributes over concatenation.
pub proof fn lemma_encode_concat(a: Seq<char>, b: Seq<char>)
    ensures
        encode_utf8(a + b) == encode_utf8(a) + encode_utf8(b),
    decreases a.len(),
{
    if a.len() == 0 {
        assert(a + b =~= b);
        assert(encode_utf8(a) + encode_utf8(b) =~= encode_utf8(b));
    } else {
        assert((a + b).drop_first() =~= a.drop_first() + b);
        lemma_encode_concat(a.drop_first(), b);
        assert(encode_utf8(a + b) =~= encode_utf8(a) + encode_utf8(b));
    }
}

/// A text of one character encodes to that character's bytes.
pub proof fn lemma_encode_single(c: char)
    ensures
        encode_utf8(seq![c]) == encode_scalar(c as u32),
{
    assert(seq![c].drop_first() =~= Seq::<char>::empty());
    assert(encode_utf8(Seq::<char>::empty()) =~= Seq::<u8>::empty());
    assert(encode_utf8(seq![c]) =~= encode_scalar(c as u32));
}

/// The encoding of a text is the encoding of its first `k` characters
/// followed by the encoding of the others.
pub proof fn lemma_encode_split(text: Seq<char>, k: int)
    requires
        0 <= k <= text.len(),
    ensures
        encode_utf8(text) == encode_utf8(text.take(k)) + encode_utf8(text.skip(k)),
        encode_utf8(text).subrange(0, offset_of(text, k)) == encode_utf8(text.take(k)),
        encode_utf8(text).subrange(offset_of(text, k), encode_utf8(text).len() as int)
            == encode_utf8(text.skip(k)),
        0 <= offset_of(text, k) <= encode_utf8(text).len(),
{
    assert(text =~= text.take(k) + text.skip(k));
    lemma_encode_concat(text.take(k), text.skip(k));
    let bytes = encode_utf8(text);
    let at = offset_of(text, k);
    assert(bytes.subrange(0, at) =~= encode_utf8(text.take(k)));
    assert(bytes.subrange(at, bytes.len() as int) =~= encode_utf8(text.skip(k)));
}

/// Every character takes between one and four bytes, and only the
/// characters below U+0080 take one.
pub proof fn lemma_width_bounds(c: char)
    ensures
        1 <= width_of(c) <= 4,
        width_of(c) == 1 <==> (c as u32) < 0x80,
{
    char_is_scalar(c);
}

/// Offsets grow by the width of each character passed.
pub proof fn lemma_offset_step(text: Seq<char>, k: int)
    requires
        0 <= k < text.len(),
    ensures
        offset_of(text, k + 1) == offset_of(text, k) + width_of(text[k]),
        offset_of(text, 0) == 0,
        k <= offset_of(text, k),
    decreases k,
{
    assert(text.take(0) =~= Seq::<char>::empty());
    assert(text.take(k + 1) =~= text.take(k) + seq![text[k]]);
    lemma_encode_concat(text.take(k), seq![text[k]]);
    lemma_encode_single(text[k]);
    if k > 0 {
        lemma_offset_step(text, k - 1);
        lemma_width_bounds(text[k - 1]);
    }
}

/// The offset of the end of the text is the length of its encoding, and no
/// offset lies below the index it belongs to.
pub proof fn lemma_offset_range(text: Seq<char>, k: int)
    requires
        0 <= k <= text.len(),
    ensures
        k <= offset_of(text, k) <= encode_utf8(text).len(),
        offset_of(text, 0) == 0,
        offset_of(text, text.len() as int) == encode_utf8(text).len(),
{
    lemma_encode_split(text, k);
    assert(text.take(0) =~= Seq::<char>::empty());
    assert(text.take(text.len() as int) =~= text);
    if k > 0 {
        lemma_offset_step(text, k - 1);
        lemma_width_bounds(text[k - 1]);
    }
}

/// At the offset of character `k` the encoded bytes hold a well-formed
/// scalar value, which decodes to that character and has its width.
pub proof fn lemma_scalar_at(text: Seq<char>, k: int)
    requires
        0 <= k < text.len(),
    ensures
        ({
            let bytes = encode_utf8(text);
            let rest = bytes.subrange(offset_of(text, k), bytes.len() as int);
            &&& valid_first_scalar(rest)
            &&& decode_first_scalar(rest) == text[k] as u32
            &&& length_of_first_scalar(rest) == width_of(text[k])
            &&& offset_of(text, k) + width_of(text[k]) <= bytes.len()
        }),
{
    lemma_encode_split(text, k);
    encode_utf8_first_scalar(text.skip(k));
    lemma_offset_step(text, k);
    lemma_offset_range(text, k + 1);
}

/// Every offset at which a character begins, and the offset of the end of
/// the text, is a character boundary of the encoding.
pub proof fn lemma_offset_is_boundary(text: Seq<char>, k: int)
    requires
        0 <= k <= text.len(),
    ensures
        is_char_boundary(encode_utf8(text), offset_of(text, k)),
{
    let bytes = encode_utf8(text);
    encode_utf8_valid_utf8(text);
    lemma_offset_range(text, k);
    if k == text.len() {
        is_char_boundary_start_end_of_seq(bytes);
    } else {
        lemma_scalar_at(text, k);
        let at = offset_of(text, k);
        assert(bytes.subrange(at, bytes.len() as int)[0] == bytes[at]);
        is_char_boundary_iff_is_leading_byte(bytes, at);
    }
}

/// Splitting a text at a character boundary yields two texts whose
/// encodings are the two parts of the bytes, and which together are the
/// whole text.
pub proof fn lemma_split_at(text: Seq<char>, at: int)
    requires
        0 <= at <= encode_utf8(text).len(),
        is_char_boundary(encode_utf8(text), at),
    ensures
        text == prefix_at(text, at) + suffix_at(text, at),
        encode_utf8(prefix_at(text, at)) == encode_utf8(text).subrange(0, at),
        encode_utf8(suffix_at(text, at)) == encode_utf8(text).subrange(
            at,
            encode_utf8(text).len() as int,
        ),
        offset_of(text, prefix_at(text, at).len() as int) == at,
        text.take(prefix_at(text, at).len() as int) == prefix_at(text, at),
        text.skip(prefix_at(text, at).len() as int) == suffix_at(text, at),
{
    let bytes = encode_utf8(text);
    let head = prefix_at(text, at);
    let tail = suffix_at(text, at);
    encode_utf8_valid_utf8(text);
    valid_utf8_split(bytes, at);
    decode_utf8_split(bytes, at);
    encode_utf8_decode_utf8(text);
    decode_utf8_encode_utf8(bytes.subrange(0, at));
    decode_utf8_encode_utf8(bytes.subrange(at, bytes.len() as int));
    assert(text =~= head + tail);
    assert(text.take(head.len() as int) =~= head);
    assert(text.skip(head.len() as int) =~= tail);
}

/// Behind an ASCII byte that begins a character, the next character begins.
pub proof fn lemma_boundary_behind_ascii(text: Seq<char>, at: int)
    requires
        0 <= at < encode_utf8(text).len(),
        is_char_boundary(encode_utf8(text), at),
        encode_utf8(text)[at] < 0x80,
    ensures
        is_char_boundary(encode_utf8(text), at + 1),
{
    let bytes = encode_utf8(text);
    lemma_split_at(text, at);
    let k = prefix_at(text, at).len() as int;
    lemma_offset_range(text, k);
    if k < text.len() {
        lemma_scalar_at(text, k);
        lemma_offset_step(text, k);
        assert(bytes.subrange(at, bytes.len() as int)[0] == bytes[at]);
        lemma_offset_is_boundary(text, k + 1);
    }
}

/// The offset of a character is the offset of where a part of the text
/// begins plus the character's offset within that part.
pub proof fn lemma_offset_of_parts(text: Seq<char>, k: int, m: int)
    requires
        0 <= k,
        0 <= m,
        k + m <= text.len(),
    ensures
        offset_of(text, k + m) == offset_of(text, k) + offset_of(text.skip(k), m),
        offset_of(text.take(k + m), k) == offset_of(text, k),
{
    assert(text.take(k + m) =~= text.take(k) + text.skip(k).take(m));
    lemma_encode_concat(text.take(k), text.skip(k).take(m));
    assert(text.take(k + m).take(k) =~= text.take(k));
}

/// The last byte of an encoding is below 0x80 exactly if the last character
/// is, and it is that character if so.
pub proof fn lemma_last_byte(text: Seq<char>)
    requires
        text.len() > 0,
    ensures
        encode_utf8(text).len() > 0,
        encode_utf8(text).last() < 0x80 <==> (text.last() as u32) < 0x80,
        (text.last() as u32) < 0x80 ==> {
            &&& encode_utf8(text).last() as u32 == text.last() as u32
            &&& encode_utf8(text).drop_last() == encode_utf8(text.drop_last())
        },
{
    let c = text.last();
    let code = c as u32;
    assert(text =~= text.drop_last() + seq![c]);
    lemma_encode_concat(text.drop_last(), seq![c]);
    lemma_encode_single(c);
    char_is_scalar(c);
    assert(code <= 0x7F ==> (code & 0x7F) as u8 == code) by (bit_vector);
    assert((0x80u8 | (code & 0x3F) as u8) >= 0x80) by (bit_vector);
    let tail = encode_scalar(code);
    assert(encode_utf8(text).last() == tail.last());
    if code < 0x80 {
        assert(encode_utf8(text).drop_last() =~= encode_utf8(text.drop_last()));
    }
}

/// Reads the scalar value that begins at `at`: its code point and the
/// number of bytes that it takes.
pub fn decode_scalar(bytes: &[u8], at: usize) -> (scalar: (u32, usize))
    requires
        at < bytes.len(),
        valid_first_scalar(bytes@.subrange(at as int, bytes.len() as int)),
    ensures
        scalar.0 == decode_first_scalar(bytes@.subrange(at as int, bytes.len() as int)),
        scalar.1 == length_of_first_scalar(bytes@.subrange(at as int, bytes.len() as int)),
        at + scalar.1 <= bytes.len(),
{
    let ghost rest = bytes@.subrange(at as int, bytes.len() as int);
    assert(rest[0] == bytes@[at as int]);
    let lead: u8 = bytes[at];
    if lead < 0x80 {
        ((lead & 0x7F) as u32, 1)
    } else if lead < 0xE0 {
        assert(rest[1] == bytes@[at + 1]);
        let second: u8 = bytes[at + 1];
        ((((lead & 0x1F) as u32) << 6) | ((second & 0x3F) as u32), 2)
    } else if lead < 0xF0 {
        assert(rest[1] == bytes@[at + 1]);
        assert(rest[2] == bytes@[at + 2]);
        let second: u8 = bytes[at + 1];
        let third: u8 = bytes[at + 2];
        (
            (((lead & 0x0F) as u32) << 12) | (((second & 0x3F) as u32) << 6) | ((third
                & 0x3F) as u32),
            3,
        )
    } else {
        assert(rest[1] == bytes@[at + 1]);
        assert(rest[2] == bytes@[at + 2]);
        assert(rest[3] == bytes@[at + 3]);
        let second: u8 = bytes[at + 1];
        let third: u8 = bytes[at + 2];
        let fourth: u8 = bytes[at + 3];
        (
            (((lead & 0x07) as u32) << 18) | (((second & 0x3F) as u32) << 12) | (((third
                & 0x3F) as u32) << 6) | ((fourth & 0x3F) as u32),
            4,
        )
    }
}

} // verus!
