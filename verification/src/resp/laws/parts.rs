//! A frame on the wire, taken apart: the first line and what follows it.
use vstd::prelude::*;
use crate::resp::decode::{
    after, DecodeError, is_counted, is_tag, parse, parse_body, parse_count, parse_key, parse_scalar,
    parse_text, ProtocolError,
};
use crate::resp::double::lemma_double_text_is_one_line;
use crate::resp::encode::{
    error_label, LETTER_F, LETTER_T, line, minus_one, TAG_ARRAY, TAG_BOOLEAN, TAG_BULK_STRING,
    TAG_DOUBLE, TAG_ERROR, TAG_INTEGER, TAG_MAP, TAG_NULL, TAG_SET, TAG_SIMPLE_STRING, text_line,
    wire, wire_all, wire_entries,
};
use crate::resp::line::{
    crlf, has_line_break, is_line_break, lemma_line_break_concat, lemma_scan_line_complete,
    lemma_scan_line_partial,
};
use crate::resp::model::{Frame, is_line_text, well_formed};
use crate::resp::number::{
    decimal, lemma_decimal_value, lemma_minus_one_value, lemma_numerals_are_one_line,
    lemma_signed_decimal_value, signed_decimal,
};
use crate::resp::text::lemma_line_text_bytes;
use vstd::utf8::{encode_utf8, encode_utf8_decode_utf8, encode_utf8_valid_utf8};

verus! {

/// The tag that a frame is written with.
pub open spec fn tag_of(f: Frame) -> u8 {
    match f {
        Frame::SimpleString(_) => TAG_SIMPLE_STRING,
        Frame::Error(_) => TAG_ERROR,
        Frame::Integer(_) => TAG_INTEGER,
        Frame::BulkString(_) => TAG_BULK_STRING,
        Frame::NullBulkString => TAG_BULK_STRING,
        Frame::Array(_) => TAG_ARRAY,
        Frame::NullArray => TAG_ARRAY,
        Frame::Null => TAG_NULL,
        Frame::Boolean(_) => TAG_BOOLEAN,
        Frame::Double(_) => TAG_DOUBLE,
        Frame::Mapping(_) => TAG_MAP,
        Frame::Distinct(_) => TAG_SET,
    }
}

/// What stands on the first line of a frame, between the tag and CR LF.
pub open spec fn content_of(f: Frame) -> Seq<u8> {
    match f {
        Frame::SimpleString(text) => encode_utf8(text),
        Frame::Error(text) => error_label() + encode_utf8(text),
        Frame::Integer(v) => signed_decimal(v as int),
        Frame::BulkString(bytes) => decimal(bytes.len()),
        Frame::NullBulkString => minus_one(),
        Frame::Array(items) => decimal(items.len()),
        Frame::NullArray => minus_one(),
        Frame::Null => Seq::empty(),
        Frame::Boolean(b) => seq![
            if b {
                LETTER_T
            } else {
                LETTER_F
            },
        ],
        Frame::Double(text) => text,
        Frame::Mapping(entries) => decimal(entries.len()),
        Frame::Distinct(members) => decimal(members.len()),
    }
}

/// What a frame is written as after its first line.
pub open spec fn body_of(f: Frame) -> Seq<u8> {
    match f {
        Frame::BulkString(bytes) => bytes + crlf(),
        Frame::Array(items) => wire_all(items),
        Frame::Mapping(entries) => wire_entries(entries),
        Frame::Distinct(members) => wire_all(members),
        _ => Seq::empty(),
    }
}

/// A frame is written as its first line and its body.
pub proof fn lemma_wire_parts(f: Frame)
    ensures
        wire(f) == line(tag_of(f), content_of(f)) + body_of(f),
        is_tag(tag_of(f)),
{
    assert(wire(f) =~= line(tag_of(f), content_of(f)) + body_of(f));
}

/// The first line of a well-formed frame holds no CR and no LF before its end.
pub proof fn lemma_content_is_one_line(f: Frame)
    requires
        well_formed(f),
    ensures
        !has_line_break(content_of(f)),
{
    match f {
        Frame::SimpleString(text) => {
            lemma_line_text_bytes(text);
        },
        Frame::Error(text) => {
            let label = error_label();
            lemma_line_text_bytes(text);
            assert forall|i: int| 0 <= i < label.len() implies !is_line_break(
                #[trigger] label[i],
            ) by {
                assert(i == 0 || i == 1 || i == 2 || i == 3 || i == 4 || i == 5);
            }
            lemma_line_break_concat(label, encode_utf8(text));
        },
        Frame::Integer(v) => {
            if v < 0 {
                lemma_numerals_are_one_line((-v) as nat);
            } else {
                lemma_numerals_are_one_line(v as nat);
            }
        },
        Frame::BulkString(bytes) => {
            lemma_numerals_are_one_line(bytes.len());
        },
        Frame::NullBulkString => {
            lemma_minus_one_value();
        },
        Frame::Array(items) => {
            lemma_numerals_are_one_line(items.len());
        },
        Frame::NullArray => {
            lemma_minus_one_value();
        },
        Frame::Null => {},
        Frame::Boolean(b) => {
            let s = content_of(f);
            assert forall|i: int| 0 <= i < s.len() implies !is_line_break(#[trigger] s[i]) by {
                assert(i == 0);
            }
        },
        Frame::Double(text) => {
            lemma_double_text_is_one_line(text);
        },
        Frame::Mapping(entries) => {
            lemma_numerals_are_one_line(entries.len());
        },
        Frame::Distinct(members) => {
            lemma_numerals_are_one_line(members.len());
        },
    }
}

/// A line and what follows it, taken apart.
pub proof fn lemma_line_parts(tag: u8, content: Seq<u8>, tail: Seq<u8>)
    ensures
        ({
            let s = line(tag, content) + tail;
            &&& s.len() == content.len() + 3 + tail.len()
            &&& s[0] == tag
            &&& s.skip(1) == content + crlf() + tail
            &&& s.subrange(1, 1 + content.len() as int) == content
            &&& s.skip(content.len() as int + 3) == tail
        }),
{
    let s = line(tag, content) + tail;
    assert(s.skip(1) =~= content + crlf() + tail);
    assert(s.subrange(1, 1 + content.len() as int) =~= content);
    assert(s.skip(content.len() as int + 3) =~= tail);
}

/// Decoding reads a complete first line and goes on with what follows it.
pub proof fn lemma_parse_line(tag: u8, content: Seq<u8>, tail: Seq<u8>, levels: nat)
    requires
        is_tag(tag),
        !has_line_break(content),
    ensures
        parse(line(tag, content) + tail, levels) == after(
            content.len() as int + 3,
            parse_body(tag, content, tail, levels),
        ),
{
    lemma_line_parts(tag, content, tail);
    lemma_scan_line_complete(content, tail);
}

/// Decoding a first line that stops short of its end asks for more data.
pub proof fn lemma_parse_line_partial(tag: u8, content: Seq<u8>, k: int, levels: nat)
    requires
        is_tag(tag),
        !has_line_break(content),
        0 <= k < content.len() + 3,
    ensures
        parse(line(tag, content).take(k), levels) == Err::<(Frame, int), DecodeError>(
            DecodeError::NeedMoreData,
        ),
{
    let s = line(tag, content).take(k);
    if k > 0 {
        assert(s[0] == tag);
        assert(s.skip(1) =~= (content + crlf()).take(k - 1));
        lemma_scan_line_partial(content, k - 1);
    }
}

/// Reading the bytes of a text gives the text back.
pub proof fn lemma_text_round_trip(text: Seq<char>)
    ensures
        parse_text(encode_utf8(text)) == Ok::<Seq<char>, ProtocolError>(text),
{
    encode_utf8_valid_utf8(text);
    encode_utf8_decode_utf8(text);
}

/// The first line of a well-formed frame that is one line stands for the frame.
pub proof fn lemma_scalar_round_trip(f: Frame)
    requires
        well_formed(f),
        !is_counted(tag_of(f)),
    ensures
        parse_scalar(tag_of(f), content_of(f)) == Ok::<Frame, ProtocolError>(f),
{
    match f {
        Frame::SimpleString(text) => {
            lemma_text_round_trip(text);
        },
        Frame::Error(text) => {
            let content = content_of(f);
            assert(content.take(6) =~= error_label());
            assert(content.skip(6) =~= encode_utf8(text));
            lemma_text_round_trip(text);
        },
        Frame::Integer(v) => {
            lemma_signed_decimal_value(v);
        },
        Frame::Boolean(b) => {
            assert(seq![LETTER_T][0] == LETTER_T);
            assert(seq![LETTER_F][0] == LETTER_F);
        },
        Frame::Double(text) => {},
        _ => {},
    }
}

/// The first line of a well-formed frame that opens with a length or a count
/// holds that number, or `-1` where the frame is an absent string or array.
pub proof fn lemma_count_round_trip(f: Frame)
    requires
        well_formed(f),
        is_counted(tag_of(f)),
    ensures
        parse_count(content_of(f)) == Ok::<int, ProtocolError>(
            match f {
                Frame::BulkString(bytes) => bytes.len() as int,
                Frame::Array(items) => items.len() as int,
                Frame::Mapping(entries) => entries.len() as int,
                Frame::Distinct(members) => members.len() as int,
                _ => -1,
            },
        ),
{
    match f {
        Frame::BulkString(bytes) => {
            lemma_decimal_value(bytes.len());
        },
        Frame::Array(items) => {
            lemma_decimal_value(items.len());
        },
        Frame::Mapping(entries) => {
            lemma_decimal_value(entries.len());
        },
        Frame::Distinct(members) => {
            lemma_decimal_value(members.len());
        },
        _ => {
            lemma_minus_one_value();
        },
    }
}

/// Decoding the line of a key gives the key back.
pub proof fn lemma_key_round_trip(key: Seq<char>, tail: Seq<u8>)
    requires
        is_line_text(key),
    ensures
        parse_key(text_line(key) + tail) == Ok::<(Seq<char>, int), DecodeError>(
            (key, text_line(key).len() as int),
        ),
{
    let content = encode_utf8(key);
    lemma_line_text_bytes(key);
    lemma_line_parts(TAG_SIMPLE_STRING, content, tail);
    lemma_scan_line_complete(content, tail);
    lemma_text_round_trip(key);
}

/// Decoding the line of a key that stops short of its end asks for more data.
pub proof fn lemma_key_partial(key: Seq<char>, k: int)
    requires
        is_line_text(key),
        0 <= k < text_line(key).len(),
    ensures
        parse_key(text_line(key).take(k)) == Err::<(Seq<char>, int), DecodeError>(
            DecodeError::NeedMoreData,
        ),
{
    let content = encode_utf8(key);
    let s = text_line(key).take(k);
    lemma_line_text_bytes(key);
    if k > 0 {
        assert(s[0] == TAG_SIMPLE_STRING);
        assert(s.skip(1) =~= (content + crlf()).take(k - 1));
        lemma_scan_line_partial(content, k - 1);
    }
}

} // verus!
