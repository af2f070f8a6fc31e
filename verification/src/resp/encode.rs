//! Encoding: from a frame to its bytes on the wire.
use vstd::prelude::*;
use vstd::utf8::encode_utf8;
use crate::resp::bytes::push_range;
use crate::resp::line::{CR, crlf, LF};
use crate::resp::model::Frame;
use crate::resp::number::{decimal, MINUS, push_decimal, push_signed_decimal, signed_decimal};
use crate::resp::{
    BulkString, entries_view, frames_view, RespArray, RespDouble, RespFrame, RespMap, RespNull,
    RespNullArray, RespNullBulkString, RespSet, SimpleError, SimpleString,
};

verus! {

/// `+`, the tag of a simple string.
pub const TAG_SIMPLE_STRING: u8 = 43;

/// `-`, the tag of an error.
pub const TAG_ERROR: u8 = 45;

/// `:`, the tag of an integer.
pub const TAG_INTEGER: u8 = 58;

/// `$`, the tag of a bulk string and of the absent string.
pub const TAG_BULK_STRING: u8 = 36;

/// `*`, the tag of an array and of the absent array.
pub const TAG_ARRAY: u8 = 42;

/// `_`, the tag of the null.
pub const TAG_NULL: u8 = 95;

/// `#`, the tag of a boolean.
pub const TAG_BOOLEAN: u8 = 35;

/// `,`, the tag of a double.
pub const TAG_DOUBLE: u8 = 44;

/// `%`, the tag of a map.
pub const TAG_MAP: u8 = 37;

/// `~`, the tag of a set.
pub const TAG_SET: u8 = 126;

/// `t`, which writes the boolean true.
pub const LETTER_T: u8 = 116;

/// `f`, which writes the boolean false.
pub const LETTER_F: u8 = 102;

/// The word `Error` and a space, which every error message follows.
pub open spec fn error_label() -> Seq<u8> {
    seq![69u8, 114u8, 114u8, 111u8, 114u8, 32u8]
}

/// The numeral `-1`, which stands where an absent string or array has its length.
pub open spec fn minus_one() -> Seq<u8> {
    seq![MINUS, 49u8]
}

/// One line: a tag, the content, CR LF.
pub open spec fn line(tag: u8, content: Seq<u8>) -> Seq<u8> {
    seq![tag] + content + crlf()
}

/// The line of a simple string, which is also how a map writes a key.
pub open spec fn text_line(text: Seq<char>) -> Seq<u8> {
    line(TAG_SIMPLE_STRING, encode_utf8(text))
}

/// The bytes that a frame is written as.
pub open spec fn wire(f: Frame) -> Seq<u8>
    decreases f,
{
    match f {
        Frame::SimpleString(text) => text_line(text),
        Frame::Error(text) => line(TAG_ERROR, error_label() + encode_utf8(text)),
        Frame::Integer(v) => line(TAG_INTEGER, signed_decimal(v as int)),
        Frame::BulkString(bytes) => line(TAG_BULK_STRING, decimal(bytes.len())) + bytes + crlf(),
        Frame::NullBulkString => line(TAG_BULK_STRING, minus_one()),
        Frame::Array(items) => line(TAG_ARRAY, decimal(items.len())) + wire_all(items),
        Frame::NullArray => line(TAG_ARRAY, minus_one()),
        Frame::Null => line(TAG_NULL, Seq::empty()),
        Frame::Boolean(b) => line(
            TAG_BOOLEAN,
            seq![
                if b {
                    LETTER_T
                } else {
                    LETTER_F
                },
            ],
        ),
        Frame::Double(text) => line(TAG_DOUBLE, text),
        Frame::Mapping(entries) => line(TAG_MAP, decimal(entries.len())) + wire_entries(entries),
        Frame::Distinct(members) => line(TAG_SET, decimal(members.len())) + wire_all(members),
    }
}

/// The bytes of frames written one after the other.
pub open spec fn wire_all(items: Seq<Frame>) -> Seq<u8>
    decreases items,
{
    if items.len() == 0 {
        Seq::empty()
    } else {
        wire(items[0]) + wire_all(items.drop_first())
    }
}

/// The bytes of map entries written one after the other: each key as a
/// simple string, then its value.
pub open spec fn wire_entries(entries: Seq<(Seq<char>, Frame)>) -> Seq<u8>
    decreases entries,
{
    if entries.len() == 0 {
        Seq::empty()
    } else {
        text_line(entries[0].0) + wire(entries[0].1) + wire_entries(entries.drop_first())
    }
}

/// Writing one more frame appends its bytes.
pub proof fn lemma_wire_all_push(items: Seq<Frame>, last: Frame)
    ensures
        wire_all(items.push(last)) == wire_all(items) + wire(last),
    decreases items.len(),
{
    let all = items.push(last);
    if items.len() == 0 {
        assert(all.drop_first() =~= Seq::<Frame>::empty());
        assert(wire_all(all.drop_first()) =~= Seq::<u8>::empty());
        assert(wire_all(all) =~= wire_all(items) + wire(last));
    } else {
        lemma_wire_all_push(items.drop_first(), last);
        assert(all.drop_first() =~= items.drop_first().push(last));
        assert(wire_all(all) =~= wire_all(items) + wire(last));
    }
}

/// Writing one more entry appends its key and its value.
pub proof fn lemma_wire_entries_push(entries: Seq<(Seq<char>, Frame)>, key: Seq<char>, value: Frame)
    ensures
        wire_entries(entries.push((key, value))) == wire_entries(entries) + text_line(key) + wire(
            value,
        ),
    decreases entries.len(),
{
    let all = entries.push((key, value));
    if entries.len() == 0 {
        assert(all.drop_first() =~= Seq::<(Seq<char>, Frame)>::empty());
        assert(wire_entries(all.drop_first()) =~= Seq::<u8>::empty());
        assert(wire_entries(all) =~= wire_entries(entries) + text_line(key) + wire(value));
    } else {
        lemma_wire_entries_push(entries.drop_first(), key, value);
        assert(all.drop_first() =~= entries.drop_first().push((key, value)));
        assert(wire_entries(all) =~= wire_entries(entries) + text_line(key) + wire(value));
    }
}

/// What can be written on the wire.
pub trait RespEncode {
    /// The bytes that `encode` gives.
    spec fn encoding(&self) -> Seq<u8>;

    fn encode(self) -> (bytes: Vec<u8>)
        ensures
            bytes@ == self.encoding(),
    ;
}

/// Appends CR LF.
fn push_crlf(buf: &mut Vec<u8>)
    ensures
        final(buf)@ == old(buf)@ + crlf(),
{
    buf.push(CR);
    buf.push(LF);
    proof {
        assert(final(buf)@ =~= old(buf)@ + crlf());
    }
}

/// Appends the line that holds a text.
fn push_text_line(buf: &mut Vec<u8>, text: &str)
    ensures
        final(buf)@ == old(buf)@ + text_line(text@),
{
    buf.push(TAG_SIMPLE_STRING);
    let bytes = text.as_bytes();
    push_range(buf, bytes, 0, bytes.len());
    push_crlf(buf);
    proof {
        assert(bytes@.subrange(0, bytes@.len() as int) =~= bytes@);
        assert(final(buf)@ =~= old(buf)@ + text_line(text@));
    }
}

/// Appends the line that opens a counted frame: the tag and the count.
fn push_count_line(buf: &mut Vec<u8>, tag: u8, count: usize)
    ensures
        final(buf)@ == old(buf)@ + line(tag, decimal(count as nat)),
{
    buf.push(tag);
    push_decimal(buf, count as u64);
    push_crlf(buf);
    proof {
        assert(final(buf)@ =~= old(buf)@ + line(tag, decimal(count as nat)));
    }
}

/// Appends the bytes of a frame.
pub fn encode_into(frame: &RespFrame, buf: &mut Vec<u8>)
    ensures
        final(buf)@ == old(buf)@ + wire(frame@),
    decreases frame, 0nat,
{
    match frame {
        RespFrame::SimpleString(s) => {
            push_text_line(buf, s.0.as_str());
        },
        RespFrame::Error(e) => {
            buf.push(TAG_ERROR);
            buf.push(69);
            buf.push(114);
            buf.push(114);
            buf.push(111);
            buf.push(114);
            buf.push(32);
            let bytes = e.0.as_str().as_bytes();
            push_range(buf, bytes, 0, bytes.len());
            push_crlf(buf);
            proof {
                assert(bytes@.subrange(0, bytes@.len() as int) =~= bytes@);
                assert(final(buf)@ =~= old(buf)@ + wire(frame@));
            }
        },
        RespFrame::Integer(v) => {
            buf.push(TAG_INTEGER);
            push_signed_decimal(buf, *v);
            push_crlf(buf);
            proof {
                assert(final(buf)@ =~= old(buf)@ + wire(frame@));
            }
        },
        RespFrame::BulkString(b) => {
            push_count_line(buf, TAG_BULK_STRING, b.0.len());
            push_range(buf, b.0.as_slice(), 0, b.0.len());
            push_crlf(buf);
            proof {
                assert(b.0@.subrange(0, b.0@.len() as int) =~= b.0@);
                assert(final(buf)@ =~= old(buf)@ + wire(frame@));
            }
        },
        RespFrame::NullBulkString(_) => {
            buf.push(TAG_BULK_STRING);
            buf.push(MINUS);
            buf.push(49);
            push_crlf(buf);
            proof {
                assert(final(buf)@ =~= old(buf)@ + wire(frame@));
            }
        },
        RespFrame::Array(a) => {
            push_count_line(buf, TAG_ARRAY, a.0.len());
            encode_all_into(&a.0, buf);
            proof {
                assert(final(buf)@ =~= old(buf)@ + wire(frame@));
            }
        },
        RespFrame::NullArray(_) => {
            buf.push(TAG_ARRAY);
            buf.push(MINUS);
            buf.push(49);
            push_crlf(buf);
            proof {
                assert(final(buf)@ =~= old(buf)@ + wire(frame@));
            }
        },
        RespFrame::Null(_) => {
            buf.push(TAG_NULL);
            push_crlf(buf);
            proof {
                assert(final(buf)@ =~= old(buf)@ + wire(frame@));
            }
        },
        RespFrame::Boolean(b) => {
            buf.push(TAG_BOOLEAN);
            buf.push(if *b { LETTER_T } else { LETTER_F });
            push_crlf(buf);
            proof {
                assert(final(buf)@ =~= old(buf)@ + wire(frame@));
            }
        },
        RespFrame::Double(d) => {
            buf.push(TAG_DOUBLE);
            push_range(buf, d.0.as_slice(), 0, d.0.len());
            push_crlf(buf);
            proof {
                assert(d.0@.subrange(0, d.0@.len() as int) =~= d.0@);
                assert(final(buf)@ =~= old(buf)@ + wire(frame@));
            }
        },
        RespFrame::Mapping(m) => {
            push_count_line(buf, TAG_MAP, m.0.len());
            encode_entries_into(&m.0, buf);
            proof {
                assert(final(buf)@ =~= old(buf)@ + wire(frame@));
            }
        },
        RespFrame::Distinct(s) => {
            push_count_line(buf, TAG_SET, s.0.len());
            encode_all_into(&s.0, buf);
            proof {
                assert(final(buf)@ =~= old(buf)@ + wire(frame@));
            }
        },
    }
}

/// Appends the bytes of each frame in turn.
fn encode_all_into(frames: &Vec<RespFrame>, buf: &mut Vec<u8>)
    ensures
        final(buf)@ == old(buf)@ + wire_all(frames_view(frames@)),
    decreases frames, 1nat,
{
    let ghost all = frames_view(frames@);
    let mut i: usize = 0;
    proof {
        assert(all.take(0) =~= Seq::<Frame>::empty());
        assert(buf@ =~= old(buf)@ + wire_all(all.take(0)));
    }
    while i < frames.len()
        invariant
            i <= frames@.len(),
            all == frames_view(frames@),
            buf@ == old(buf)@ + wire_all(all.take(i as int)),
        decreases frames@.len() - i,
    {
        let ghost before = buf@;
        encode_into(&frames[i], buf);
        proof {
            lemma_wire_all_push(all.take(i as int), all[i as int]);
            assert(all.take(i + 1) =~= all.take(i as int).push(all[i as int]));
            assert(buf@ =~= old(buf)@ + wire_all(all.take(i + 1)));
        }
        i += 1;
    }
    proof {
        assert(all.take(i as int) =~= all);
    }
}

/// Appends each entry in turn: the key as a simple string, then the value.
fn encode_entries_into(entries: &Vec<(String, RespFrame)>, buf: &mut Vec<u8>)
    ensures
        final(buf)@ == old(buf)@ + wire_entries(entries_view(entries@)),
    decreases entries, 1nat,
{
    let ghost all = entries_view(entries@);
    let mut i: usize = 0;
    proof {
        assert(all.take(0) =~= Seq::<(Seq<char>, Frame)>::empty());
        assert(buf@ =~= old(buf)@ + wire_entries(all.take(0)));
    }
    while i < entries.len()
        invariant
            i <= entries@.len(),
            all == entries_view(entries@),
            buf@ == old(buf)@ + wire_entries(all.take(i as int)),
        decreases entries@.len() - i,
    {
        push_text_line(buf, entries[i].0.as_str());
        encode_into(&entries[i].1, buf);
        proof {
            lemma_wire_entries_push(all.take(i as int), all[i as int].0, all[i as int].1);
            assert(all.take(i + 1) =~= all.take(i as int).push(all[i as int]));
            assert(buf@ =~= old(buf)@ + wire_entries(all.take(i + 1)));
        }
        i += 1;
    }
    proof {
        assert(all.take(i as int) =~= all);
    }
}

impl RespEncode for SimpleString {
    open spec fn encoding(&self) -> Seq<u8> {
        wire(Frame::SimpleString(self@))
    }

    fn encode(self) -> (bytes: Vec<u8>) {
        let mut buf: Vec<u8> = Vec::new();
        push_text_line(&mut buf, self.0.as_str());
        proof {
            assert(buf@ =~= self.encoding());
        }
        buf
    }
}

impl RespEncode for SimpleError {
    open spec fn encoding(&self) -> Seq<u8> {
        wire(Frame::Error(self@))
    }

    fn encode(self) -> (bytes: Vec<u8>) {
        let mut buf: Vec<u8> = Vec::new();
        encode_into(&RespFrame::Error(self), &mut buf);
        proof {
            assert(buf@ =~= self.encoding());
        }
        buf
    }
}

impl RespEncode for i64 {
    open spec fn encoding(&self) -> Seq<u8> {
        wire(Frame::Integer(*self))
    }

    fn encode(self) -> (bytes: Vec<u8>) {
        let mut buf: Vec<u8> = Vec::new();
        encode_into(&RespFrame::Integer(self), &mut buf);
        proof {
            assert(buf@ =~= self.encoding());
        }
        buf
    }
}

impl RespEncode for BulkString {
    open spec fn encoding(&self) -> Seq<u8> {
        wire(Frame::BulkString(self@))
    }

    fn encode(self) -> (bytes: Vec<u8>) {
        let mut buf: Vec<u8> = Vec::new();
        push_count_line(&mut buf, TAG_BULK_STRING, self.0.len());
        push_range(&mut buf, self.0.as_slice(), 0, self.0.len());
        push_crlf(&mut buf);
        proof {
            assert(self.0@.subrange(0, self.0@.len() as int) =~= self.0@);
            assert(buf@ =~= self.encoding());
        }
        buf
    }
}

impl RespEncode for RespNullBulkString {
    open spec fn encoding(&self) -> Seq<u8> {
        wire(Frame::NullBulkString)
    }

    fn encode(self) -> (bytes: Vec<u8>) {
        let mut buf: Vec<u8> = Vec::new();
        encode_into(&RespFrame::NullBulkString(self), &mut buf);
        proof {
            assert(buf@ =~= self.encoding());
        }
        buf
    }
}

impl RespEncode for RespArray {
    open spec fn encoding(&self) -> Seq<u8> {
        wire(Frame::Array(self@))
    }

    fn encode(self) -> (bytes: Vec<u8>) {
        let mut buf: Vec<u8> = Vec::new();
        push_count_line(&mut buf, TAG_ARRAY, self.0.len());
        encode_all_into(&self.0, &mut buf);
        proof {
            assert(buf@ =~= self.encoding());
        }
        buf
    }
}

impl RespEncode for RespNullArray {
    open spec fn encoding(&self) -> Seq<u8> {
        wire(Frame::NullArray)
    }

    fn encode(self) -> (bytes: Vec<u8>) {
        let mut buf: Vec<u8> = Vec::new();
        encode_into(&RespFrame::NullArray(self), &mut buf);
        proof {
            assert(buf@ =~= self.encoding());
        }
        buf
    }
}

impl RespEncode for RespNull {
    open spec fn encoding(&self) -> Seq<u8> {
        wire(Frame::Null)
    }

    fn encode(self) -> (bytes: Vec<u8>) {
        let mut buf: Vec<u8> = Vec::new();
        encode_into(&RespFrame::Null(self), &mut buf);
        proof {
            assert(buf@ =~= self.encoding());
        }
        buf
    }
}

impl RespEncode for bool {
    open spec fn encoding(&self) -> Seq<u8> {
        wire(Frame::Boolean(*self))
    }

    fn encode(self) -> (bytes: Vec<u8>) {
        let mut buf: Vec<u8> = Vec::new();
        encode_into(&RespFrame::Boolean(self), &mut buf);
        proof {
            assert(buf@ =~= self.encoding());
        }
        buf
    }
}

impl RespEncode for RespDouble {
    open spec fn encoding(&self) -> Seq<u8> {
        wire(Frame::Double(self@))
    }

    fn encode(self) -> (bytes: Vec<u8>) {
        let mut buf: Vec<u8> = Vec::new();
        buf.push(TAG_DOUBLE);
        push_range(&mut buf, self.0.as_slice(), 0, self.0.len());
        push_crlf(&mut buf);
        proof {
            assert(self.0@.subrange(0, self.0@.len() as int) =~= self.0@);
            assert(buf@ =~= self.encoding());
        }
        buf
    }
}

impl RespEncode for RespMap {
    open spec fn encoding(&self) -> Seq<u8> {
        wire(Frame::Mapping(self@))
    }

    fn encode(self) -> (bytes: Vec<u8>) {
        let mut buf: Vec<u8> = Vec::new();
        push_count_line(&mut buf, TAG_MAP, self.0.len());
        encode_entries_into(&self.0, &mut buf);
        proof {
            assert(buf@ =~= self.encoding());
        }
        buf
    }
}

impl RespEncode for RespSet {
    open spec fn encoding(&self) -> Seq<u8> {
        wire(Frame::Distinct(self@))
    }

    fn encode(self) -> (bytes: Vec<u8>) {
        let mut buf: Vec<u8> = Vec::new();
        push_count_line(&mut buf, TAG_SET, self.0.len());
        encode_all_into(&self.0, &mut buf);
        proof {
            assert(buf@ =~= self.encoding());
        }
        buf
    }
}

impl RespEncode for RespFrame {
    open spec fn encoding(&self) -> Seq<u8> {
        wire(self@)
    }

    fn encode(self) -> (bytes: Vec<u8>) {
        let mut buf: Vec<u8> = Vec::new();
        encode_into(&self, &mut buf);
        proof {
            assert(buf@ =~= self.encoding());
        }
        buf
    }
}

} // verus!
