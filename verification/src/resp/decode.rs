//! Decoding: from the bytes at the start of a buffer to a frame, or to the
//! verdict that the bytes are not yet, or never, one.
use vstd::prelude::*;
use vstd::utf8::{decode_utf8, encode_utf8, encode_utf8_decode_utf8, valid_utf8};
use crate::resp::double::{is_double_text, with_sign};
use crate::resp::encode::{
    error_label, LETTER_F, LETTER_T, TAG_ARRAY, TAG_BOOLEAN, TAG_BULK_STRING, TAG_DOUBLE, TAG_ERROR,
    TAG_INTEGER, TAG_MAP, TAG_NULL, TAG_SET, TAG_SIMPLE_STRING,
};
use crate::resp::double::check_double;
use crate::resp::bytes::push_range;
use crate::resp::equal::find_member;
use crate::resp::line::{CR, find_line, LF, scan_line};
use crate::resp::laws::sound::lemma_parse_sound;
use crate::resp::model::{Frame, map_insert, nests_within, set_insert, well_formed};
use crate::resp::number::{integer_value, MINUS, parse_integer, PLUS};
use crate::resp::{
    BulkString, frames_view, RespArray, RespDouble, RespFrame, RespMap, RespNull, RespNullArray,
    RespNullBulkString, RespSet, SimpleError, SimpleString,
};

verus! {

/// How deep arrays, maps and sets may be nested in a buffer that is decoded.
pub const MAX_DEPTH: usize = 128;

/// Why a buffer can never be the start of a valid frame.
#[derive(Debug, Clone, Copy, PartialEq, Eq, Structural)]
pub enum ProtocolError {
    /// The first byte is none of the ten type tags.
    UnknownPrefix,
    /// A CR is not followed by LF, or an LF stands without a CR before it.
    BrokenLine,
    /// The text of a simple string or an error is not UTF-8.
    InvalidText,
    /// An error line does not begin with the word `Error` and a space.
    MalformedError,
    /// A number is not an optional sign and digits, or does not fit 64 bits.
    MalformedInteger,
    /// A length or count is negative and not the `-1` of a null.
    NegativeLength,
    /// The payload of a bulk string is not followed by CR LF.
    MissingTerminator,
    /// Something stands between `_` and the end of the line.
    MalformedNull,
    /// A boolean is neither `t` nor `f`.
    MalformedBoolean,
    /// A double is not a decimal literal, `inf` or `nan`.
    MalformedDouble,
    /// The key of a map entry is not a simple string.
    InvalidMapKey,
    /// Arrays, maps and sets are nested deeper than `MAX_DEPTH`.
    DepthExceeded,
}

/// Why decoding did not yield a frame.
#[derive(Debug, Clone, Copy, PartialEq, Eq, Structural)]
pub enum DecodeError {
    /// The buffer ends before the frame does: offer the same bytes again
    /// once more have arrived.
    NeedMoreData,
    /// The bytes are no frame and never will be.
    ProtocolError(ProtocolError),
}

/// What decoding gives, as a value: the frame and the number of bytes that
/// it took, or the reason why there is none.
pub type Parsed = Result<(Frame, int), DecodeError>;

/// Whether `b` is one of the ten type tags.
pub open spec fn is_tag(b: u8) -> bool {
    ||| b == TAG_SIMPLE_STRING
    ||| b == TAG_ERROR
    ||| b == TAG_INTEGER
    ||| b == TAG_BULK_STRING
    ||| b == TAG_ARRAY
    ||| b == TAG_NULL
    ||| b == TAG_BOOLEAN
    ||| b == TAG_DOUBLE
    ||| b == TAG_MAP
    ||| b == TAG_SET
}

/// Whether a frame with this tag opens with a length or a count.
pub open spec fn is_counted(tag: u8) -> bool {
    tag == TAG_BULK_STRING || tag == TAG_ARRAY || tag == TAG_MAP || tag == TAG_SET
}

/// The text that the content of a line holds.
pub open spec fn parse_text(content: Seq<u8>) -> Result<Seq<char>, ProtocolError> {
    if valid_utf8(content) {
        Ok(decode_utf8(content))
    } else {
        Err(ProtocolError::InvalidText)
    }
}

/// The frame that one line stands for, where the tag is of a frame that is
/// one line.
pub open spec fn parse_scalar(tag: u8, content: Seq<u8>) -> Result<Frame, ProtocolError> {
    if tag == TAG_SIMPLE_STRING {
        match parse_text(content) {
            Ok(text) => Ok(Frame::SimpleString(text)),
            Err(e) => Err(e),
        }
    } else if tag == TAG_ERROR {
        if content.len() >= 6 && content.take(6) == error_label() {
            match parse_text(content.skip(6)) {
                Ok(text) => Ok(Frame::Error(text)),
                Err(e) => Err(e),
            }
        } else {
            Err(ProtocolError::MalformedError)
        }
    } else if tag == TAG_INTEGER {
        match integer_value(content) {
            Some(v) => Ok(Frame::Integer(v)),
            None => Err(ProtocolError::MalformedInteger),
        }
    } else if tag == TAG_NULL {
        if content.len() == 0 {
            Ok(Frame::Null)
        } else {
            Err(ProtocolError::MalformedNull)
        }
    } else if tag == TAG_BOOLEAN {
        if content == seq![LETTER_T] {
            Ok(Frame::Boolean(true))
        } else if content == seq![LETTER_F] {
            Ok(Frame::Boolean(false))
        } else {
            Err(ProtocolError::MalformedBoolean)
        }
    } else {
        if is_double_text(with_sign(content)) {
            Ok(Frame::Double(with_sign(content)))
        } else {
            Err(ProtocolError::MalformedDouble)
        }
    }
}

/// The length or count that a line holds: a number that is `-1` or not
/// negative.
pub open spec fn parse_count(content: Seq<u8>) -> Result<int, ProtocolError> {
    match integer_value(content) {
        None => Err(ProtocolError::MalformedInteger),
        Some(v) => if v < -1 {
            Err(ProtocolError::NegativeLength)
        } else {
            Ok(v as int)
        },
    }
}

/// A bulk string of `n` bytes that `rest` starts with: the bytes and the
/// CR LF after them.
pub open spec fn parse_bulk(rest: Seq<u8>, n: int) -> Parsed {
    if rest.len() < n + 2 {
        Err(DecodeError::NeedMoreData)
    } else if rest[n] == CR && rest[n + 1] == LF {
        Ok((Frame::BulkString(rest.take(n)), n + 2))
    } else {
        Err(DecodeError::ProtocolError(ProtocolError::MissingTerminator))
    }
}

/// `outcome`, with `head` more bytes taken.
pub open spec fn after(head: int, outcome: Parsed) -> Parsed {
    match outcome {
        Ok((frame, taken)) => Ok((frame, head + taken)),
        Err(e) => Err(e),
    }
}

/// The members of a set to which `items` were offered one after the other.
pub open spec fn distinct(items: Seq<Frame>) -> Seq<Frame>
    decreases items.len(),
{
    if items.len() == 0 {
        Seq::empty()
    } else {
        set_insert(distinct(items.drop_last()), items.last())
    }
}

/// The entries of a map into which `pairs` were put one after the other.
pub open spec fn keyed(pairs: Seq<(Seq<char>, Frame)>) -> Seq<(Seq<char>, Frame)>
    decreases pairs.len(),
{
    if pairs.len() == 0 {
        Seq::empty()
    } else {
        map_insert(keyed(pairs.drop_last()), pairs.last().0, pairs.last().1)
    }
}

/// What decoding `s` gives when arrays, maps and sets may be nested
/// `levels` deep.
///
/// Every frame opens with a line: a tag, the content, CR LF. What follows
/// the line, if anything, depends on the tag and the content.
pub open spec fn parse(s: Seq<u8>, levels: nat) -> Parsed
    decreases levels, 1nat,
{
    if s.len() == 0 {
        Err(DecodeError::NeedMoreData)
    } else if !is_tag(s[0]) {
        Err(DecodeError::ProtocolError(ProtocolError::UnknownPrefix))
    } else {
        match scan_line(s.skip(1)) {
            Err(e) => Err(e),
            Ok(k) => after(k + 3, parse_body(s[0], s.subrange(1, 1 + k), s.skip(k + 3), levels)),
        }
    }
}

/// What decoding gives once the first line is read: the frame, and the number
/// of bytes that it took of `rest`, which is what follows the line.
///
/// A frame that is one line takes nothing more, and so does an absent string
/// or array. A bulk string takes as many bytes as the line says, and CR LF.
/// An array, a map or a set takes as many frames, or pairs of a key and a
/// frame, as the line says.
pub open spec fn parse_body(tag: u8, content: Seq<u8>, rest: Seq<u8>, levels: nat) -> Parsed
    decreases levels, 0nat,
{
    if !is_counted(tag) {
        match parse_scalar(tag, content) {
            Ok(frame) => Ok((frame, 0)),
            Err(e) => Err(DecodeError::ProtocolError(e)),
        }
    } else {
        match parse_count(content) {
            Err(e) => Err(DecodeError::ProtocolError(e)),
            Ok(n) => if n == -1 {
                if tag == TAG_BULK_STRING {
                    Ok((Frame::NullBulkString, 0))
                } else if tag == TAG_ARRAY {
                    Ok((Frame::NullArray, 0))
                } else {
                    Err(DecodeError::ProtocolError(ProtocolError::NegativeLength))
                }
            } else if tag == TAG_BULK_STRING {
                parse_bulk(rest, n)
            } else if levels == 0 {
                Err(DecodeError::ProtocolError(ProtocolError::DepthExceeded))
            } else if tag == TAG_MAP {
                match parse_entries(rest, n as nat, (levels - 1) as nat) {
                    Ok((pairs, taken)) => Ok((Frame::Mapping(keyed(pairs)), taken)),
                    Err(e) => Err(e),
                }
            } else {
                match parse_items(rest, n as nat, (levels - 1) as nat) {
                    Ok((items, taken)) => if tag == TAG_ARRAY {
                        Ok((Frame::Array(items), taken))
                    } else {
                        Ok((Frame::Distinct(distinct(items)), taken))
                    },
                    Err(e) => Err(e),
                }
            },
        }
    }
}

/// What decoding `n` frames one after the other gives: the frames and the
/// number of bytes that they took together, or what stopped the first frame
/// that could not be decoded.
pub open spec fn parse_items(s: Seq<u8>, n: nat, levels: nat) -> Result<
    (Seq<Frame>, int),
    DecodeError,
>
    decreases levels, n + 2,
{
    if n == 0 {
        Ok((Seq::empty(), 0))
    } else {
        match parse(s, levels) {
            Err(e) => Err(e),
            Ok((first, a)) => match parse_items(s.skip(a), (n - 1) as nat, levels) {
                Err(e) => Err(e),
                Ok((others, b)) => Ok((seq![first] + others, a + b)),
            },
        }
    }
}

/// The key that a map entry opens with: a simple string.
pub open spec fn parse_key(s: Seq<u8>) -> Result<(Seq<char>, int), DecodeError> {
    if s.len() == 0 {
        Err(DecodeError::NeedMoreData)
    } else if s[0] != TAG_SIMPLE_STRING {
        Err(DecodeError::ProtocolError(ProtocolError::InvalidMapKey))
    } else {
        match scan_line(s.skip(1)) {
            Err(e) => Err(e),
            Ok(k) => match parse_text(s.subrange(1, 1 + k)) {
                Ok(text) => Ok((text, k + 3)),
                Err(e) => Err(DecodeError::ProtocolError(e)),
            },
        }
    }
}

/// What decoding one map entry gives: the key and the frame under it, and
/// the number of bytes that the two took together.
pub open spec fn parse_entry(s: Seq<u8>, levels: nat) -> Result<
    ((Seq<char>, Frame), int),
    DecodeError,
>
    decreases levels, 2nat,
{
    match parse_key(s) {
        Err(e) => Err(e),
        Ok((key, a)) => match parse(s.skip(a), levels) {
            Err(e) => Err(e),
            Ok((value, b)) => Ok(((key, value), a + b)),
        },
    }
}

/// What decoding `n` map entries one after the other gives: the pairs of a
/// key and a frame, as they were written, and the number of bytes that they
/// took together, or what stopped the first entry that could not be decoded.
pub open spec fn parse_entries(s: Seq<u8>, n: nat, levels: nat) -> Result<
    (Seq<(Seq<char>, Frame)>, int),
    DecodeError,
>
    decreases levels, n + 3,
{
    if n == 0 {
        Ok((Seq::empty(), 0))
    } else {
        match parse_entry(s, levels) {
            Err(e) => Err(e),
            Ok((first, a)) => match parse_entries(s.skip(a), (n - 1) as nat, levels) {
                Err(e) => Err(e),
                Ok((others, b)) => Ok((seq![first] + others, a + b)),
            },
        }
    }
}

/// What a call of the decoder gave, as a value.
pub open spec fn outcome(r: Result<(RespFrame, usize), DecodeError>) -> Parsed {
    match r {
        Ok((frame, taken)) => Ok((frame@, taken as int)),
        Err(e) => Err(e),
    }
}

/// What can be decoded: a buffer that holds bytes.
pub trait RespDecode: Sized {
    /// The bytes that the buffer holds.
    spec fn input(&self) -> Seq<u8>;

    /// Decodes the frame that the buffer starts with and says how many bytes
    /// it took. The buffer is only read: on `NeedMoreData` the same bytes are
    /// to be offered again, with those that have arrived since.
    fn decode(buf: Self) -> (r: Result<(RespFrame, usize), DecodeError>)
        ensures
            outcome(r) == parse(buf.input(), MAX_DEPTH as nat),
            r matches Ok((frame, taken)) ==> {
                &&& 0 < taken <= buf.input().len()
                &&& well_formed(frame@)
                &&& nests_within(frame@, MAX_DEPTH as nat)
            },
    ;
}

impl<'a> RespDecode for &'a [u8] {
    open spec fn input(&self) -> Seq<u8> {
        self@
    }

    fn decode(buf: &'a [u8]) -> (r: Result<(RespFrame, usize), DecodeError>) {
        proof {
            assert(buf@.skip(0) =~= buf@);
            lemma_parse_sound(buf@, MAX_DEPTH as nat);
        }
        decode_at(buf, 0, MAX_DEPTH)
    }
}

/// `String::from_utf8` of the standard library: where `bytes` are UTF-8, the
/// string that is made of them, and `None` where they are not.
#[verifier::external_body]
fn string_from_utf8(bytes: Vec<u8>) -> (r: Option<String>)
    ensures
        r is Some <==> valid_utf8(bytes@),
        r matches Some(s) ==> encode_utf8(s@) == bytes@,
{
    match String::from_utf8(bytes) {
        Ok(s) => Some(s),
        Err(_) => None,
    }
}

/// Reads the text held in `buf[start..end]`.
fn decode_text(buf: &[u8], start: usize, end: usize) -> (r: Result<String, ProtocolError>)
    requires
        start <= end <= buf@.len(),
    ensures
        match r {
            Ok(text) => parse_text(buf@.subrange(start as int, end as int)) == Ok::<
                Seq<char>,
                ProtocolError,
            >(text@),
            Err(e) => parse_text(buf@.subrange(start as int, end as int)) == Err::<
                Seq<char>,
                ProtocolError,
            >(e),
        },
{
    let mut bytes: Vec<u8> = Vec::new();
    push_range(&mut bytes, buf, start, end);
    proof {
        assert(bytes@ =~= buf@.subrange(start as int, end as int));
    }
    match string_from_utf8(bytes) {
        Some(text) => {
            proof {
                encode_utf8_decode_utf8(text@);
            }
            Ok(text)
        },
        None => Err(ProtocolError::InvalidText),
    }
}

/// Whether `buf[start..end]` begins with the word `Error` and a space.
fn has_error_label(buf: &[u8], start: usize, end: usize) -> (r: bool)
    requires
        start <= end <= buf@.len(),
    ensures
        r == {
            let content = buf@.subrange(start as int, end as int);
            content.len() >= 6 && content.take(6) == error_label()
        },
{
    let ghost content = buf@.subrange(start as int, end as int);
    if end - start < 6 {
        return false;
    }
    let r = buf[start] == 69 && buf[start + 1] == 114 && buf[start + 2] == 114 && buf[start + 3]
        == 111 && buf[start + 4] == 114 && buf[start + 5] == 32;
    proof {
        let label = error_label();
        let begin = content.take(6);
        assert(label.len() == 6 && label[0] == 69 && label[1] == 114 && label[2] == 114 && label[3]
            == 111 && label[4] == 114 && label[5] == 32);
        assert(begin[0] == buf@[start + 0] && begin[1] == buf@[start + 1] && begin[2] == buf@[start
            + 2] && begin[3] == buf@[start + 3] && begin[4] == buf@[start + 4] && begin[5]
            == buf@[start + 5]);
        if r {
            assert(begin =~= label);
        }
    }
    r
}

/// Reads the frame that the line with content `buf[start..end]` stands for,
/// where `tag` is of a frame that is one line.
fn decode_scalar(tag: u8, buf: &[u8], start: usize, end: usize) -> (r: Result<
    RespFrame,
    ProtocolError,
>)
    requires
        start <= end <= buf@.len(),
        is_tag(tag),
        !is_counted(tag),
    ensures
        match r {
            Ok(frame) => parse_scalar(tag, buf@.subrange(start as int, end as int)) == Ok::<
                Frame,
                ProtocolError,
            >(frame@),
            Err(e) => parse_scalar(tag, buf@.subrange(start as int, end as int)) == Err::<
                Frame,
                ProtocolError,
            >(e),
        },
{
    let ghost content = buf@.subrange(start as int, end as int);
    if tag == TAG_SIMPLE_STRING {
        match decode_text(buf, start, end) {
            Ok(text) => Ok(RespFrame::SimpleString(SimpleString(text))),
            Err(e) => Err(e),
        }
    } else if tag == TAG_ERROR {
        if has_error_label(buf, start, end) {
            proof {
                assert(content.skip(6) =~= buf@.subrange(start + 6, end as int));
            }
            match decode_text(buf, start + 6, end) {
                Ok(text) => Ok(RespFrame::Error(SimpleError(text))),
                Err(e) => Err(e),
            }
        } else {
            Err(ProtocolError::MalformedError)
        }
    } else if tag == TAG_INTEGER {
        match parse_integer(buf, start, end) {
            Some(v) => Ok(RespFrame::Integer(v)),
            None => Err(ProtocolError::MalformedInteger),
        }
    } else if tag == TAG_NULL {
        if start == end {
            Ok(RespFrame::Null(RespNull))
        } else {
            Err(ProtocolError::MalformedNull)
        }
    } else if tag == TAG_BOOLEAN {
        proof {
            assert(seq![LETTER_T].len() == 1 && seq![LETTER_T][0] == LETTER_T);
            assert(seq![LETTER_F].len() == 1 && seq![LETTER_F][0] == LETTER_F);
            if content.len() == 1 {
                assert(content[0] == buf@[start as int]);
                if content[0] == LETTER_T {
                    assert(content =~= seq![LETTER_T]);
                }
                if content[0] == LETTER_F {
                    assert(content =~= seq![LETTER_F]);
                }
            }
        }
        if end - start == 1 && buf[start] == LETTER_T {
            Ok(RespFrame::Boolean(true))
        } else if end - start == 1 && buf[start] == LETTER_F {
            Ok(RespFrame::Boolean(false))
        } else {
            Err(ProtocolError::MalformedBoolean)
        }
    } else {
        if check_double(buf, start, end) {
            let mut text: Vec<u8> = Vec::new();
            if !(start < end && (buf[start] == PLUS || buf[start] == MINUS)) {
                text.push(PLUS);
            }
            push_range(&mut text, buf, start, end);
            proof {
                assert(text@ =~= with_sign(content));
            }
            Ok(RespFrame::Double(RespDouble(text)))
        } else {
            Err(ProtocolError::MalformedDouble)
        }
    }
}

/// Reads the length or count held in `buf[start..end]`.
fn decode_count(buf: &[u8], start: usize, end: usize) -> (r: Result<i64, ProtocolError>)
    requires
        start <= end <= buf@.len(),
    ensures
        match r {
            Ok(n) => parse_count(buf@.subrange(start as int, end as int)) == Ok::<
                int,
                ProtocolError,
            >(n as int),
            Err(e) => parse_count(buf@.subrange(start as int, end as int)) == Err::<
                int,
                ProtocolError,
            >(e),
        },
{
    match parse_integer(buf, start, end) {
        None => Err(ProtocolError::MalformedInteger),
        Some(v) => if v < -1 {
            Err(ProtocolError::NegativeLength)
        } else {
            Ok(v)
        },
    }
}

/// Reads the bulk string of `n` bytes that starts at `pos`.
fn decode_bulk(buf: &[u8], pos: usize, n: i64) -> (r: Result<(RespFrame, usize), DecodeError>)
    requires
        pos <= buf@.len(),
        n >= 0,
    ensures
        outcome(r) == parse_bulk(buf@.skip(pos as int), n as int),
        r matches Ok((_, taken)) ==> pos + taken <= buf@.len(),
{
    let ghost rest = buf@.skip(pos as int);
    let available: u64 = (buf.len() - pos) as u64;
    if available < 2 || available - 2 < n as u64 {
        return Err(DecodeError::NeedMoreData);
    }
    let len: usize = n as usize;
    if buf[pos + len] == CR && buf[pos + len + 1] == LF {
        let mut bytes: Vec<u8> = Vec::new();
        push_range(&mut bytes, buf, pos, pos + len);
        proof {
            assert(bytes@ =~= rest.take(n as int));
        }
        Ok((RespFrame::BulkString(BulkString(bytes)), len + 2))
    } else {
        Err(DecodeError::ProtocolError(ProtocolError::MissingTerminator))
    }
}

/// Whether `b` is one of the ten type tags.
fn is_known_tag(b: u8) -> (r: bool)
    ensures
        r == is_tag(b),
{
    b == TAG_SIMPLE_STRING || b == TAG_ERROR || b == TAG_INTEGER || b == TAG_BULK_STRING || b
        == TAG_ARRAY || b == TAG_NULL || b == TAG_BOOLEAN || b == TAG_DOUBLE || b == TAG_MAP || b
        == TAG_SET
}

/// Whether a frame with this tag opens with a length or a count.
fn opens_with_count(tag: u8) -> (r: bool)
    ensures
        r == is_counted(tag),
{
    tag == TAG_BULK_STRING || tag == TAG_ARRAY || tag == TAG_MAP || tag == TAG_SET
}

/// Reads the frame that starts at `pos`.
fn decode_at(buf: &[u8], pos: usize, levels: usize) -> (r: Result<(RespFrame, usize), DecodeError>)
    requires
        pos <= buf@.len(),
    ensures
        outcome(r) == parse(buf@.skip(pos as int), levels as nat),
        r matches Ok((_, taken)) ==> pos + taken <= buf@.len(),
    decreases levels, 1nat,
{
    let ghost s = buf@.skip(pos as int);
    if pos >= buf.len() {
        return Err(DecodeError::NeedMoreData);
    }
    let tag: u8 = buf[pos];
    if !is_known_tag(tag) {
        return Err(DecodeError::ProtocolError(ProtocolError::UnknownPrefix));
    }
    let start: usize = pos + 1;
    proof {
        assert(s.skip(1) =~= buf@.skip(start as int));
    }
    let k: usize = match find_line(buf, start) {
        Ok(k) => k,
        Err(e) => {
            return Err(e);
        },
    };
    let end: usize = start + k;
    let head: usize = k + 3;
    proof {
        assert(s.subrange(1, 1 + k) =~= buf@.subrange(start as int, end as int));
        assert(s.skip(head as int) =~= buf@.skip(end + 2));
    }
    match decode_body(tag, buf, start, end, levels) {
        Ok((frame, taken)) => Ok((frame, head + taken)),
        Err(e) => Err(e),
    }
}

/// Reads the frame whose first line has the content `buf[start..end]`, and
/// says how many bytes it took after that line.
fn decode_body(tag: u8, buf: &[u8], start: usize, end: usize, levels: usize) -> (r: Result<
    (RespFrame, usize),
    DecodeError,
>)
    requires
        start <= end,
        end + 2 <= buf@.len() <= usize::MAX,
        is_tag(tag),
    ensures
        outcome(r) == parse_body(
            tag,
            buf@.subrange(start as int, end as int),
            buf@.skip(end + 2),
            levels as nat,
        ),
        r matches Ok((_, taken)) ==> end + 2 + taken <= buf@.len(),
    decreases levels, 0nat,
{
    let body: usize = end + 2;
    if !opens_with_count(tag) {
        return match decode_scalar(tag, buf, start, end) {
            Ok(frame) => Ok((frame, 0)),
            Err(e) => Err(DecodeError::ProtocolError(e)),
        };
    }
    let n: i64 = match decode_count(buf, start, end) {
        Ok(n) => n,
        Err(e) => {
            return Err(DecodeError::ProtocolError(e));
        },
    };
    if n == -1 {
        if tag == TAG_BULK_STRING {
            Ok((RespFrame::NullBulkString(RespNullBulkString), 0))
        } else if tag == TAG_ARRAY {
            Ok((RespFrame::NullArray(RespNullArray), 0))
        } else {
            Err(DecodeError::ProtocolError(ProtocolError::NegativeLength))
        }
    } else if tag == TAG_BULK_STRING {
        decode_bulk(buf, body, n)
    } else if levels == 0 {
        Err(DecodeError::ProtocolError(ProtocolError::DepthExceeded))
    } else if tag == TAG_MAP {
        match decode_entries(buf, body, n as u64, levels - 1) {
            Ok((map, taken)) => Ok((RespFrame::Mapping(map), taken)),
            Err(e) => Err(e),
        }
    } else {
        match decode_items(buf, body, n as u64, levels - 1, tag == TAG_SET) {
            Ok((frames, taken)) => if tag == TAG_ARRAY {
                Ok((RespFrame::Array(RespArray(frames)), taken))
            } else {
                Ok((RespFrame::Distinct(RespSet(frames)), taken))
            },
            Err(e) => Err(e),
        }
    }
}

/// `outcome`, with `items` before its frames and `used` more bytes taken.
spec fn items_after(
    items: Seq<Frame>,
    used: int,
    outcome: Result<(Seq<Frame>, int), DecodeError>,
) -> Result<(Seq<Frame>, int), DecodeError> {
    match outcome {
        Ok((others, taken)) => Ok((items + others, used + taken)),
        Err(e) => Err(e),
    }
}

/// One frame more has been decoded.
proof fn lemma_items_step(
    items: Seq<Frame>,
    used: int,
    here: Seq<u8>,
    m: nat,
    levels: nat,
    first: Frame,
    a: int,
)
    requires
        m > 0,
        parse(here, levels) == Ok::<(Frame, int), DecodeError>((first, a)),
    ensures
        items_after(items, used, parse_items(here, m, levels)) == items_after(
            items.push(first),
            used + a,
            parse_items(here.skip(a), (m - 1) as nat, levels),
        ),
{
    match parse_items(here.skip(a), (m - 1) as nat, levels) {
        Ok((others, b)) => {
            assert(items + (seq![first] + others) =~= items.push(first) + others);
        },
        Err(e) => {},
    }
}

/// Reads the `n` frames that start at `pos`, and where `dedupe` is set
/// keeps of equal frames only the first.
fn decode_items(buf: &[u8], pos: usize, n: u64, levels: usize, dedupe: bool) -> (r: Result<
    (Vec<RespFrame>, usize),
    DecodeError,
>)
    requires
        pos <= buf@.len() <= usize::MAX,
    ensures
        match r {
            Ok((frames, taken)) => {
                &&& pos + taken <= buf@.len()
                &&& parse_items(buf@.skip(pos as int), n as nat, levels as nat) matches Ok(
                    (items, t),
                )
                &&& t == taken
                &&& frames_view(frames@) == if dedupe {
                    distinct(items)
                } else {
                    items
                }
            },
            Err(e) => parse_items(buf@.skip(pos as int), n as nat, levels as nat) == Err::<
                (Seq<Frame>, int),
                DecodeError,
            >(e),
        },
    decreases levels, n + 2,
{
    let ghost s = buf@.skip(pos as int);
    let ghost whole = parse_items(s, n as nat, levels as nat);
    let ghost mut items: Seq<Frame> = Seq::empty();
    let mut frames: Vec<RespFrame> = Vec::new();
    let mut used: usize = 0;
    let mut i: u64 = 0;
    proof {
        assert(s.skip(0) =~= s);
        assert(frames_view(frames@) =~= Seq::<Frame>::empty());
        match whole {
            Ok((others, taken)) => {
                assert(items + others =~= others);
            },
            Err(e) => {},
        }
    }
    while i < n
        invariant
            i <= n,
            pos + used <= buf@.len() <= usize::MAX,
            s == buf@.skip(pos as int),
            whole == parse_items(s, n as nat, levels as nat),
            whole == items_after(
                items,
                used as int,
                parse_items(s.skip(used as int), (n - i) as nat, levels as nat),
            ),
            frames_view(frames@) == if dedupe {
                distinct(items)
            } else {
                items
            },
        decreases n - i,
    {
        let ghost here = s.skip(used as int);
        proof {
            assert(here =~= buf@.skip(pos + used));
        }
        let (frame, taken) = match decode_at(buf, pos + used, levels) {
            Ok(found) => found,
            Err(e) => {
                return Err(e);
            },
        };
        proof {
            lemma_items_step(
                items,
                used as int,
                here,
                (n - i) as nat,
                levels as nat,
                frame@,
                taken as int,
            );
            assert(here.skip(taken as int) =~= s.skip(used + taken));
            assert(items.push(frame@).drop_last() =~= items);
        }
        let ghost before = frames@;
        if !(dedupe && find_member(&frames, &frame)) {
            frames.push(frame);
            proof {
                assert(frames_view(frames@) =~= frames_view(before).push(frame@));
            }
        }
        proof {
            items = items.push(frame@);
        }
        used = used + taken;
        i = i + 1;
    }
    proof {
        assert(items + Seq::<Frame>::empty() =~= items);
    }
    Ok((frames, used))
}

/// Reads the key that starts at `pos`.
fn decode_key(buf: &[u8], pos: usize) -> (r: Result<(String, usize), DecodeError>)
    requires
        pos <= buf@.len(),
    ensures
        match r {
            Ok((key, taken)) => {
                &&& pos + taken <= buf@.len()
                &&& parse_key(buf@.skip(pos as int)) == Ok::<(Seq<char>, int), DecodeError>(
                    (key@, taken as int),
                )
            },
            Err(e) => parse_key(buf@.skip(pos as int)) == Err::<(Seq<char>, int), DecodeError>(e),
        },
{
    let ghost s = buf@.skip(pos as int);
    if pos >= buf.len() {
        return Err(DecodeError::NeedMoreData);
    }
    if buf[pos] != TAG_SIMPLE_STRING {
        return Err(DecodeError::ProtocolError(ProtocolError::InvalidMapKey));
    }
    let start: usize = pos + 1;
    proof {
        assert(s.skip(1) =~= buf@.skip(start as int));
    }
    let k: usize = match find_line(buf, start) {
        Ok(k) => k,
        Err(e) => {
            return Err(e);
        },
    };
    proof {
        assert(s.subrange(1, 1 + k) =~= buf@.subrange(start as int, start + k));
    }
    match decode_text(buf, start, start + k) {
        Ok(key) => Ok((key, k + 3)),
        Err(e) => Err(DecodeError::ProtocolError(e)),
    }
}

/// `outcome`, with `pairs` before its pairs and `used` more bytes taken.
spec fn entries_after(
    pairs: Seq<(Seq<char>, Frame)>,
    used: int,
    outcome: Result<(Seq<(Seq<char>, Frame)>, int), DecodeError>,
) -> Result<(Seq<(Seq<char>, Frame)>, int), DecodeError> {
    match outcome {
        Ok((others, taken)) => Ok((pairs + others, used + taken)),
        Err(e) => Err(e),
    }
}

/// Reads the map entry that starts at `pos`: the key and the frame under it.
fn decode_entry(buf: &[u8], pos: usize, levels: usize) -> (r: Result<
    (String, RespFrame, usize),
    DecodeError,
>)
    requires
        pos <= buf@.len() <= usize::MAX,
    ensures
        match r {
            Ok((key, value, taken)) => pos + taken <= buf@.len() && parse_entry(
                buf@.skip(pos as int),
                levels as nat,
            ) == Ok::<((Seq<char>, Frame), int), DecodeError>(((key@, value@), taken as int)),
            Err(e) => parse_entry(buf@.skip(pos as int), levels as nat) == Err::<
                ((Seq<char>, Frame), int),
                DecodeError,
            >(e),
        },
    decreases levels, 2nat,
{
    let (key, a) = match decode_key(buf, pos) {
        Ok(found) => found,
        Err(e) => {
            return Err(e);
        },
    };
    proof {
        assert(buf@.skip(pos as int).skip(a as int) =~= buf@.skip(pos + a));
    }
    match decode_at(buf, pos + a, levels) {
        Ok((value, b)) => Ok((key, value, a + b)),
        Err(e) => Err(e),
    }
}

/// One entry more has been decoded.
proof fn lemma_entries_step(
    pairs: Seq<(Seq<char>, Frame)>,
    used: int,
    here: Seq<u8>,
    m: nat,
    levels: nat,
    first: (Seq<char>, Frame),
    a: int,
)
    requires
        m > 0,
        parse_entry(here, levels) == Ok::<((Seq<char>, Frame), int), DecodeError>((first, a)),
    ensures
        entries_after(pairs, used, parse_entries(here, m, levels)) == entries_after(
            pairs.push(first),
            used + a,
            parse_entries(here.skip(a), (m - 1) as nat, levels),
        ),
{
    match parse_entries(here.skip(a), (m - 1) as nat, levels) {
        Ok((others, b)) => {
            assert(pairs + (seq![first] + others) =~= pairs.push(first) + others);
        },
        Err(e) => {},
    }
}

/// Reads the `n` map entries that start at `pos` into a map.
fn decode_entries(buf: &[u8], pos: usize, n: u64, levels: usize) -> (r: Result<
    (RespMap, usize),
    DecodeError,
>)
    requires
        pos <= buf@.len() <= usize::MAX,
    ensures
        match r {
            Ok((map, taken)) => {
                &&& pos + taken <= buf@.len()
                &&& parse_entries(buf@.skip(pos as int), n as nat, levels as nat) matches Ok(
                    (pairs, t),
                )
                &&& t == taken
                &&& map@ == keyed(pairs)
            },
            Err(e) => parse_entries(buf@.skip(pos as int), n as nat, levels as nat) == Err::<
                (Seq<(Seq<char>, Frame)>, int),
                DecodeError,
            >(e),
        },
    decreases levels, n + 3,
{
    let ghost s = buf@.skip(pos as int);
    let ghost whole = parse_entries(s, n as nat, levels as nat);
    let ghost mut pairs: Seq<(Seq<char>, Frame)> = Seq::empty();
    let mut map = RespMap::new();
    let mut used: usize = 0;
    let mut i: u64 = 0;
    proof {
        assert(s.skip(0) =~= s);
        match whole {
            Ok((others, taken)) => {
                assert(pairs + others =~= others);
            },
            Err(e) => {},
        }
    }
    while i < n
        invariant
            i <= n,
            pos + used <= buf@.len() <= usize::MAX,
            s == buf@.skip(pos as int),
            whole == parse_entries(s, n as nat, levels as nat),
            whole == entries_after(
                pairs,
                used as int,
                parse_entries(s.skip(used as int), (n - i) as nat, levels as nat),
            ),
            map@ == keyed(pairs),
        decreases n - i,
    {
        let ghost here = s.skip(used as int);
        proof {
            assert(here =~= buf@.skip(pos + used));
        }
        let (key, value, taken) = match decode_entry(buf, pos + used, levels) {
            Ok(found) => found,
            Err(e) => {
                return Err(e);
            },
        };
        proof {
            lemma_entries_step(
                pairs,
                used as int,
                here,
                (n - i) as nat,
                levels as nat,
                (key@, value@),
                taken as int,
            );
            assert(here.skip(taken as int) =~= s.skip(used + taken));
            assert(pairs.push((key@, value@)).drop_last() =~= pairs);
            pairs = pairs.push((key@, value@));
        }
        map.insert(key, value);
        used = used + taken;
        i = i + 1;
    }
    proof {
        assert(pairs + Seq::<(Seq<char>, Frame)>::empty() =~= pairs);
    }
    Ok((map, used))
}

} // verus!
