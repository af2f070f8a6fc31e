//! Texts that can stand on one line, and their bytes.
use vstd::prelude::*;
use vstd::utf8::{
    encode_scalar, encode_utf8, has_width_1_encoding, has_width_2_encoding, has_width_3_encoding,
};
use crate::resp::line::{has_line_break, is_line_break, lemma_line_break_concat};
use crate::resp::model::{is_line_break_char, is_line_text};

verus! {

/// A scalar that is written as one byte is written as itself.
proof fn lemma_one_byte(v: u32)
    by (bit_vector)
    requires
        v <= 0x7f,
    ensures
        (v & 0x7f) as u8 == v,
{
}

/// Every byte of a scalar that is written as several is 128 or more.
proof fn lemma_high_bytes(v: u32)
    by (bit_vector)
    ensures
        0xC0u8 | ((v >> 6) & 0x1F) as u8 >= 0x80u8,
        0xE0u8 | ((v >> 12) & 0x0F) as u8 >= 0x80u8,
        0xF0u8 | ((v >> 18) & 0x7) as u8 >= 0x80u8,
        0x80u8 | (v & 0x3F) as u8 >= 0x80u8,
        0x80u8 | ((v >> 6) & 0x3F) as u8 >= 0x80u8,
        0x80u8 | ((v >> 12) & 0x3F) as u8 >= 0x80u8,
{
}

/// The bytes of one character hold a CR or an LF exactly when the character
/// is one.
proof fn lemma_char_bytes(c: char)
    ensures
        has_line_break(encode_scalar(c as u32)) == is_line_break_char(c),
{
    let v = c as u32;
    let bytes = encode_scalar(v);
    lemma_high_bytes(v);
    if has_width_1_encoding(v) {
        lemma_one_byte(v);
        assert(bytes.len() == 1 && bytes[0] == v);
        if is_line_break_char(c) {
            assert(is_line_break(bytes[0]));
        }
    } else {
        assert forall|i: int| 0 <= i < bytes.len() implies !is_line_break(#[trigger] bytes[i]) by {
            if has_width_2_encoding(v) {
                assert(i == 0 || i == 1);
            } else if has_width_3_encoding(v) {
                assert(i == 0 || i == 1 || i == 2);
            } else {
                assert(i == 0 || i == 1 || i == 2 || i == 3);
            }
        }
    }
}

/// A text can stand on one line exactly when its bytes hold no CR and no LF.
pub proof fn lemma_line_text_bytes(text: Seq<char>)
    ensures
        is_line_text(text) == !has_line_break(encode_utf8(text)),
    decreases text.len(),
{
    if text.len() > 0 {
        let rest = text.drop_first();
        lemma_char_bytes(text[0]);
        lemma_line_text_bytes(rest);
        lemma_line_break_concat(encode_scalar(text[0] as u32), encode_utf8(rest));
        if is_line_text(text) {
            assert forall|i: int| 0 <= i < rest.len() implies !is_line_break_char(
                #[trigger] rest[i],
            ) by {
                assert(rest[i] == text[i + 1]);
            }
        }
        if is_line_text(rest) && !is_line_break_char(text[0]) {
            assert forall|i: int| 0 <= i < text.len() implies !is_line_break_char(
                #[trigger] text[i],
            ) by {
                if i > 0 {
                    assert(text[i] == rest[i - 1]);
                }
            }
        }
    }
}

} // verus!
