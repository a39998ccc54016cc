//! Facts about the UTF-8 encoding of character sequences that slicing relies on.

use vstd::prelude::*;
use vstd::utf8::*;

verus! {

/// True for the characters that UTF-8 encodes in a single byte.
pub open spec fn is_ascii_char(c: char) -> bool {
    c <= '\u{7f}'
}

/// No character lies below the first.
pub proof fn lemma_char_floor(c: char)
    ensures
        '\0' <= c,
{
}

/// The number of bytes that the UTF-8 encoding of `text` takes.
pub open spec fn byte_len(text: Seq<char>) -> nat {
    encode_utf8(text).len()
}

/// Encoding distributes over concatenation.
pub proof fn lemma_encode_concat(a: Seq<char>, b: Seq<char>)
    ensures
        encode_utf8(a + b) == encode_utf8(a) + encode_utf8(b),
        byte_len(a + b) == byte_len(a) + byte_len(b),
    decreases a.len(),
{
    if a.len() == 0 {
        assert(a + b == b);
        assert(encode_utf8(a) + encode_utf8(b) == encode_utf8(b));
    } else {
        assert((a + b).drop_first() == a.drop_first() + b);
        lemma_encode_concat(a.drop_first(), b);
        assert(encode_utf8(a + b) == encode_scalar(a[0] as u32) + (encode_utf8(a.drop_first())
            + encode_utf8(b)));
        assert(encode_scalar(a[0] as u32) + (encode_utf8(a.drop_first()) + encode_utf8(b))
            == encode_utf8(a) + encode_utf8(b));
    }
}

/// Every character takes at least one byte and at most four.
pub proof fn lemma_scalar_len(c: char)
    ensures
        1 <= encode_scalar(c as u32).len() <= 4,
        is_ascii_char(c) <==> encode_scalar(c as u32).len() == 1,
{
}

/// A text takes at least as many bytes as it has characters.
pub proof fn lemma_byte_len_bounds(text: Seq<char>)
    ensures
        text.len() <= byte_len(text),
        byte_len(text) == 0 <==> text.len() == 0,
    decreases text.len(),
{
    if text.len() > 0 {
        lemma_scalar_len(text[0]);
        lemma_byte_len_bounds(text.drop_first());
    }
}

/// Two texts with the same encoding are the same text.
pub proof fn lemma_encode_injective(a: Seq<char>, b: Seq<char>)
    requires
        encode_utf8(a) == encode_utf8(b),
    ensures
        a == b,
{
    encode_utf8_decode_utf8(a);
    encode_utf8_decode_utf8(b);
}

/// The place where one text ends and the next begins is a character boundary
/// of their joint encoding.
pub proof fn lemma_boundary_at_concat(a: Seq<char>, b: Seq<char>)
    ensures
        is_char_boundary(encode_utf8(a + b), byte_len(a) as int),
        encode_utf8(a + b).subrange(0, byte_len(a) as int) == encode_utf8(a),
        encode_utf8(a + b).subrange(byte_len(a) as int, byte_len(a + b) as int) == encode_utf8(b),
    decreases a.len(),
{
    lemma_encode_concat(a, b);
    let bytes = encode_utf8(a + b);
    encode_utf8_valid_utf8(a + b);
    assert(bytes.subrange(0, byte_len(a) as int) == encode_utf8(a));
    assert(bytes.subrange(byte_len(a) as int, byte_len(a + b) as int) == encode_utf8(b));
    if a.len() > 0 {
        let rest = a.drop_first();
        lemma_scalar_len(a[0]);
        encode_utf8_first_scalar(a + b);
        assert((a + b).drop_first() == rest + b);
        assert(pop_first_scalar(bytes) == encode_utf8(rest + b));
        lemma_boundary_at_concat(rest, b);
        lemma_encode_concat(rest, b);
        assert(byte_len(a) == encode_scalar(a[0] as u32).len() + byte_len(rest));
    }
}

/// The first byte of an encoding is below 0x80 exactly when the first character is ASCII,
/// and is then that character.
pub proof fn lemma_first_byte(text: Seq<char>)
    requires
        text.len() > 0,
    ensures
        byte_len(text) > 0,
        encode_utf8(text)[0] < 0x80 <==> is_ascii_char(text[0]),
        is_ascii_char(text[0]) ==> encode_utf8(text).skip(1) == encode_utf8(text.drop_first()),
{
    let c = text[0] as u32;
    lemma_scalar_len(text[0]);
    char_is_scalar(text[0]);
    assert(encode_utf8(text)[0] == encode_scalar(c)[0]);
    assert(0xC0u8 | ((c >> 6) & 0x1F) as u8 >= 0x80) by (bit_vector);
    assert(0xE0u8 | ((c >> 12) & 0x0F) as u8 >= 0x80) by (bit_vector);
    assert(0xF0u8 | ((c >> 18) & 0x7) as u8 >= 0x80) by (bit_vector);
    assert(c <= 0x7f ==> ((c & 0x7F) as u8) < 0x80u8) by (bit_vector);
    if is_ascii_char(text[0]) {
        assert(encode_utf8(text).skip(1) == encode_utf8(text.drop_first()));
    }
}

/// The last byte of an encoding is below 0x80 exactly when the last character is ASCII.
pub proof fn lemma_last_byte(text: Seq<char>)
    requires
        text.len() > 0,
    ensures
        byte_len(text) > 0,
        encode_utf8(text).last() < 0x80 <==> is_ascii_char(text.last()),
        is_ascii_char(text.last()) ==> encode_utf8(text).drop_last() == encode_utf8(
            text.drop_last(),
        ),
{
    let head = text.drop_last();
    let tail = seq![text.last()];
    assert(text == head + tail);
    lemma_encode_concat(head, tail);
    let c = text.last() as u32;
    lemma_scalar_len(text.last());
    assert(tail.drop_first() == Seq::<char>::empty());
    assert(encode_utf8(tail) == encode_scalar(c)) by {
        reveal_with_fuel(encode_utf8, 2);
        assert(encode_scalar(c) + Seq::<u8>::empty() == encode_scalar(c));
    }
    char_is_scalar(text.last());
    assert(c <= 0x7f ==> ((c & 0x7F) as u8) < 0x80u8) by (bit_vector);
    assert(0x80u8 | (c & 0x3F) as u8 >= 0x80) by (bit_vector);
    let bytes = encode_utf8(text);
    assert(bytes.last() == encode_scalar(c).last());
    if is_ascii_char(text.last()) {
        assert(bytes.drop_last() == encode_utf8(head));
    }
}

} // verus!
