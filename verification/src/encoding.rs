//! Strings and their UTF-8 bytes.
//!
//! The grammar of a decklist and the hash input are stated over bytes, while
//! `str` and `String` are seen as characters. What stands here carries a
//! statement over the one to the other.

use crate::lines::{is_blank, space_width, wide_space};
use vstd::prelude::*;
use vstd::string::StringExecFns;
use vstd::string::StringSliceAdditionalSpecFns;
use vstd::utf8::{
    encode_scalar, encode_utf8, encode_utf8_valid_utf8, has_width_1_encoding, has_width_2_encoding,
    has_width_3_encoding, has_width_4_encoding, is_char_boundary,
    is_char_boundary_iff_not_is_continuation_byte, is_char_boundary_start_end_of_seq, is_continuation_byte,
    last_continuation_byte, leading_byte_width_1, leading_byte_width_2, leading_byte_width_3,
    leading_byte_width_4, pop_first_scalar, second_last_continuation_byte, valid_first_scalar, valid_utf8,
    valid_utf8_split,
};

verus! {

/// The bytes of two strings in a row are the bytes of the one, then those of
/// the other.
pub proof fn lemma_encode_concat(a: Seq<char>, b: Seq<char>)
    ensures
        encode_utf8(a + b) == encode_utf8(a) + encode_utf8(b),
    decreases a.len(),
{
    if a.len() > 0 {
        lemma_encode_concat(a.drop_first(), b);
        assert((a + b).drop_first() =~= a.drop_first() + b);
    }
}

/// In well-formed UTF-8 the byte after an ASCII byte begins a character.
pub proof fn lemma_character_after_ascii(bytes: Seq<u8>, i: int)
    requires
        valid_utf8(bytes),
        0 < i < bytes.len(),
        bytes[i - 1] < 0x80,
    ensures
        !is_continuation_byte(bytes[i]),
{
    is_char_boundary_iff_not_is_continuation_byte(bytes, i - 1);
    valid_utf8_split(bytes, i - 1);
    // The ASCII byte is a character of its own, and what follows it is well formed.
    let tail = bytes.subrange(i - 1, bytes.len() as int);
    assert(valid_first_scalar(tail) && valid_utf8(pop_first_scalar(tail)));
    assert(valid_first_scalar(pop_first_scalar(tail)));
}

/// An index of well-formed UTF-8 at its start, at its end, or next to an
/// ASCII byte on either side, lies between two characters.
pub proof fn lemma_boundary_at_ascii(bytes: Seq<u8>, i: int)
    requires
        valid_utf8(bytes),
        0 <= i <= bytes.len(),
        i == 0 || i == bytes.len() || bytes[i] < 0x80 || bytes[i - 1] < 0x80,
    ensures
        is_char_boundary(bytes, i),
{
    is_char_boundary_start_end_of_seq(bytes);
    if 0 < i < bytes.len() {
        if bytes[i] >= 0x80 {
            lemma_character_after_ascii(bytes, i);
        }
        is_char_boundary_iff_not_is_continuation_byte(bytes, i);
    }
}

/// The part of `text` from byte `from` up to byte `to`, where each end is
/// an end of the text or has an ASCII byte beside it. An empty part may
/// begin anywhere such a part may end.
pub fn substring<'s>(text: &'s str, from: usize, to: usize) -> (part: &'s str)
    requires
        from <= to <= text.spec_bytes().len(),
        from == 0 || from == to || text.spec_bytes()[from - 1] < 0x80 || text.spec_bytes()[from as int] < 0x80,
        to == 0 || to == text.spec_bytes().len() || text.spec_bytes()[to - 1] < 0x80 || text.spec_bytes()[to as int]
            < 0x80,
    ensures
        part.spec_bytes() == text.spec_bytes().subrange(from as int, to as int),
{
    let ghost bytes = text.spec_bytes();
    proof {
        encode_utf8_valid_utf8(text@);
        lemma_boundary_at_ascii(bytes, to as int);
    }
    let (head, _) = text.split_at(to);
    proof {
        encode_utf8_valid_utf8(head@);
        lemma_boundary_at_ascii(head.spec_bytes(), from as int);
    }
    let (_, part) = head.split_at(from);
    part
}

/// Appends `part` to `out`.
pub fn push_text(out: &mut String, part: &str)
    ensures
        encode_utf8(final(out)@) == encode_utf8(old(out)@) + part.spec_bytes(),
{
    proof {
        lemma_encode_concat(out@, part@);
    }
    out.append(part);
}

/// The scalar value is one of a white-space character: one that Unicode
/// gives the property `White_Space`.
pub open spec fn white_space_scalar(v: u32) -> bool {
    ||| 0x09 <= v <= 0x0d
    ||| v == 0x20
    ||| v == 0x85
    ||| v == 0xa0
    ||| v == 0x1680
    ||| 0x2000 <= v <= 0x200a
    ||| v == 0x2028
    ||| v == 0x2029
    ||| v == 0x202f
    ||| v == 0x205f
    ||| v == 0x3000
}

/// `c` is a white-space character.
pub open spec fn is_white_space(c: char) -> bool {
    white_space_scalar(c as u32)
}

/// Of the characters that one byte encodes, the white-space ones are the
/// bytes 0x09 to 0x0d and 0x20.
proof fn lemma_white_space_in_one_byte(v: u32)
    by (bit_vector)
    requires
        has_width_1_encoding(v),
    ensures
        leading_byte_width_1(v) < 0x80,
        (0x09 <= leading_byte_width_1(v) <= 0x0d || leading_byte_width_1(v) == 0x20) <==> white_space_scalar(v),
{
}

/// Of the characters that two bytes encode, the white-space ones are 0xc2
/// with 0x85 or with 0xa0.
proof fn lemma_white_space_in_two_bytes(v: u32)
    by (bit_vector)
    requires
        has_width_2_encoding(v),
    ensures
        0xc0 <= leading_byte_width_2(v) < 0xe0,
        (leading_byte_width_2(v) == 0xc2 && (last_continuation_byte(v) == 0x85 || last_continuation_byte(v) == 0xa0))
            <==> white_space_scalar(v),
{
}

/// Of the characters that three bytes encode, the white-space ones are
/// those that `wide_space` lists.
proof fn lemma_white_space_in_three_bytes(v: u32)
    by (bit_vector)
    requires
        has_width_3_encoding(v),
    ensures
        0xe0 <= leading_byte_width_3(v) < 0xf0,
        wide_space(leading_byte_width_3(v), second_last_continuation_byte(v), last_continuation_byte(v))
            <==> white_space_scalar(v),
{
}

/// No character that four bytes encode is white space.
proof fn lemma_white_space_in_four_bytes(v: u32)
    by (bit_vector)
    requires
        has_width_4_encoding(v),
    ensures
        0xf0 <= leading_byte_width_4(v),
        !white_space_scalar(v),
{
}

/// Bytes that begin with the encoding of a character begin with white space
/// exactly if the character is white space, and its width is then that of
/// the encoding.
pub proof fn lemma_space_width_of_character(c: char, rest: Seq<u8>)
    ensures
        space_width(encode_scalar(c as u32) + rest) == if is_white_space(c) {
            encode_scalar(c as u32).len() as int
        } else {
            0
        },
        encode_scalar(c as u32).len() > 0,
{
    let v = c as u32;
    if has_width_1_encoding(v) {
        lemma_white_space_in_one_byte(v);
    } else if has_width_2_encoding(v) {
        lemma_white_space_in_two_bytes(v);
    } else if has_width_3_encoding(v) {
        lemma_white_space_in_three_bytes(v);
    } else {
        lemma_white_space_in_four_bytes(v);
    }
}

/// A line is blank exactly if each of its characters is white space.
pub proof fn lemma_blank_is_white_space(line: Seq<char>)
    ensures
        is_blank(encode_utf8(line)) <==> forall|i: int| 0 <= i < line.len() ==> is_white_space(#[trigger] line[i]),
    decreases line.len(),
{
    if line.len() > 0 {
        let first = encode_scalar(line[0] as u32);
        let tail = line.drop_first();
        lemma_space_width_of_character(line[0], encode_utf8(tail));
        lemma_blank_is_white_space(tail);
        assert((first + encode_utf8(tail)).skip(first.len() as int) =~= encode_utf8(tail));
        if forall|i: int| 0 <= i < tail.len() ==> is_white_space(#[trigger] tail[i]) {
            assert forall|i: int| 1 <= i < line.len() implies is_white_space(#[trigger] line[i]) by {
                assert(line[i] == tail[i - 1]);
            }
        }
    }
}

} // verus!
