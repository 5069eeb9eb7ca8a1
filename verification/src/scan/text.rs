//! The geometry of UTF-8 text: how byte offsets into a string relate to its
//! characters.
//!
//! A string is modelled by its sequence of characters. A byte offset lies
//! *in* the text when it falls between two characters (or at either end);
//! the text *from* such an offset is the suffix of characters that start at
//! or after it.

use vstd::prelude::*;
use vstd::utf8::*;

verus! {

/// Number of bytes that the UTF-8 encoding of `c` occupies (1 to 4).
pub open spec fn char_width(c: char) -> int {
    if (c as u32) < 0x80 {
        1
    } else if (c as u32) < 0x800 {
        2
    } else if (c as u32) < 0x10000 {
        3
    } else {
        4
    }
}

/// Number of bytes that the UTF-8 encoding of `cs` occupies.
pub open spec fn text_width(cs: Seq<char>) -> int {
    encode_utf8(cs).len() as int
}

/// True when `byte_index` is an offset into the encoding of `s` at which a
/// character starts, or the end of the encoding.
pub open spec fn in_text(s: Seq<char>, byte_index: int) -> bool {
    is_char_boundary(encode_utf8(s), byte_index)
}

/// The characters of `s` that start at or after `byte_index`.
pub open spec fn text_from(s: Seq<char>, byte_index: int) -> Seq<char> {
    decode_utf8(encode_utf8(s).subrange(byte_index, encode_utf8(s).len() as int))
}

/// The characters of `s` that end before `byte_index`.
pub open spec fn text_before(s: Seq<char>, byte_index: int) -> Seq<char> {
    decode_utf8(encode_utf8(s).subrange(0, byte_index))
}

/// The encoding of a single character has the width that `char_width` gives.
pub proof fn lemma_char_width(c: char)
    ensures
        encode_scalar(c as u32).len() == char_width(c),
        1 <= char_width(c) <= 4,
{
    char_is_scalar(c);
}

/// Encoding distributes over concatenation.
pub proof fn lemma_encode_concat(a: Seq<char>, b: Seq<char>)
    ensures
        encode_utf8(a + b) == encode_utf8(a) + encode_utf8(b),
        text_width(a + b) == text_width(a) + text_width(b),
    decreases a.len(),
{
    if a.len() == 0 {
        assert(a + b =~= b);
        assert(encode_utf8(a) + encode_utf8(b) =~= encode_utf8(b));
    } else {
        lemma_encode_concat(a.drop_first(), b);
        assert((a + b).drop_first() =~= a.drop_first() + b);
        assert(encode_utf8(a + b) =~= encode_utf8(a) + encode_utf8(b));
    }
}

/// The width of a text grows by the width of a character pushed onto it.
pub proof fn lemma_width_push(cs: Seq<char>, c: char)
    ensures
        text_width(cs.push(c)) == text_width(cs) + char_width(c),
{
    lemma_encode_concat(cs, seq![c]);
    assert(cs.push(c) =~= cs + seq![c]);
    lemma_char_width(c);
    assert(seq![c].drop_first() =~= Seq::<char>::empty());
    assert(encode_utf8(seq![c]) =~= encode_scalar(c as u32)) by {
        reveal_with_fuel(encode_utf8, 2);
    }
}

/// Every character occupies at least one byte.
pub proof fn lemma_width_bounds(cs: Seq<char>)
    ensures
        cs.len() <= text_width(cs) <= 4 * cs.len(),
    decreases cs.len(),
{
    if cs.len() > 0 {
        lemma_width_bounds(cs.drop_last());
        lemma_width_push(cs.drop_last(), cs.last());
        lemma_char_width(cs.last());
        assert(cs.drop_last().push(cs.last()) =~= cs);
    }
}

/// The end of a prefix is an offset in the text, and the text from there is
/// what follows the prefix.
pub proof fn lemma_text_split(head: Seq<char>, rest: Seq<char>)
    ensures
        in_text(head + rest, text_width(head)),
        text_from(head + rest, text_width(head)) == rest,
        text_before(head + rest, text_width(head)) == head,
    decreases head.len(),
{
    broadcast use group_utf8_lib;

    let s = head + rest;
    let bytes = encode_utf8(s);
    lemma_encode_concat(head, rest);
    assert(bytes.subrange(text_width(head), bytes.len() as int) =~= encode_utf8(rest));
    assert(bytes.subrange(0, text_width(head)) =~= encode_utf8(head));
    if head.len() == 0 {
        assert(is_char_boundary(bytes, 0));
    } else {
        encode_utf8_first_scalar(s);
        encode_utf8_first_scalar(head);
        let tail = head.drop_first();
        assert(s.drop_first() =~= tail + rest);
        assert(pop_first_scalar(bytes) =~= encode_utf8(tail + rest));
        lemma_text_split(tail, rest);
        lemma_encode_concat(seq![head[0]], tail);
        assert(seq![head[0]] + tail =~= head);
        assert(encode_utf8(seq![head[0]]) =~= encode_scalar(head[0] as u32)) by {
            reveal_with_fuel(encode_utf8, 2);
            assert(seq![head[0]].drop_first() =~= Seq::<char>::empty());
        }
        assert(text_width(head) - length_of_first_scalar(bytes) == text_width(tail));
        assert(is_char_boundary(bytes, text_width(head)));
    }
}

/// A text splits at every offset in it into the part before and the part
/// from that offset.
pub proof fn lemma_text_join(s: Seq<char>, byte_index: int)
    requires
        in_text(s, byte_index),
    ensures
        0 <= byte_index <= text_width(s),
        s == text_before(s, byte_index) + text_from(s, byte_index),
        text_width(text_before(s, byte_index)) == byte_index,
{
    broadcast use group_utf8_lib;

    let bytes = encode_utf8(s);
    lemma_boundary_range(bytes, byte_index);
    assert(valid_utf8(bytes.subrange(0, byte_index)));
    assert(decode_utf8(bytes) == s);
    assert(encode_utf8(text_before(s, byte_index)) == bytes.subrange(0, byte_index));
}

/// A character boundary lies in the bytes, or at their end.
proof fn lemma_boundary_range(bytes: Seq<u8>, index: int)
    requires
        valid_utf8(bytes),
        is_char_boundary(bytes, index),
    ensures
        0 <= index <= bytes.len(),
{
}

} // verus!
