//! The frame types: one type for each kind of value that the protocol
//! carries, and `RespFrame`, which holds any one of them.
use vstd::prelude::*;
use std::ops::Deref;
use crate::resp::double::{check_double, is_double_text, with_sign};
use crate::resp::bytes::push_range;
use crate::resp::equal::find_member;
use crate::resp::model::{
    Frame, has_member, key_index, lemma_key_index_is, lemma_map_insert_unique,
    lemma_set_insert_distinct, map_insert, pairwise_distinct, set_insert, unique_keys,
};
use crate::resp::number::{MINUS, PLUS};

pub use crate::resp::decode::RespDecode;
pub use crate::resp::encode::RespEncode;

pub mod bytes;
pub mod convert;
pub mod copy;
pub mod decode;
pub mod double;
pub mod encode;
pub mod equal;
pub mod laws;
pub mod line;
pub mod model;
pub mod number;
pub mod text;
pub mod valid;

verus! {

/// Any one frame.
#[derive(Debug)]
pub enum RespFrame {
    /// `+<text>`
    SimpleString(SimpleString),
    /// `-Error <text>`
    Error(SimpleError),
    /// `:<sign><digits>`
    Integer(i64),
    /// `$<length>`, then the bytes
    BulkString(BulkString),
    /// `$-1`
    NullBulkString(RespNullBulkString),
    /// `*<count>`, then the frames
    Array(RespArray),
    /// `*-1`
    NullArray(RespNullArray),
    /// `_`
    Null(RespNull),
    /// `#t` or `#f`
    Boolean(bool),
    /// `,<sign><literal>`
    Double(RespDouble),
    /// `%<count>`, then for each entry the key and the frame under it
    Mapping(RespMap),
    /// `~<count>`, then the members
    Distinct(RespSet),
}

/// A status text. It is meant to hold no CR and no LF.
#[derive(Debug)]
pub struct SimpleString(String);

/// An error message. It is meant to hold no CR and no LF.
#[derive(Debug)]
pub struct SimpleError(String);

/// A string of arbitrary bytes.
#[derive(Debug)]
pub struct BulkString(Vec<u8>);

/// The null of the protocol's third version.
#[derive(Debug, Clone, Copy, PartialEq, Eq, Structural)]
pub struct RespNull;

/// The absent array.
#[derive(Debug, Clone, Copy, PartialEq, Eq, Structural)]
pub struct RespNullArray;

/// The absent string.
#[derive(Debug, Clone, Copy, PartialEq, Eq, Structural)]
pub struct RespNullBulkString;

/// A double, kept as the text of its literal: a sign, then a decimal
/// literal, `inf` or `nan`. Two doubles are equal when their texts are.
#[derive(Debug)]
pub struct RespDouble(Vec<u8>);

/// Frames in order.
#[derive(Debug)]
pub struct RespArray(Vec<RespFrame>);

/// Entries under text keys, in the order in which the keys were first
/// inserted. No key occurs twice.
#[derive(Debug)]
pub struct RespMap(Vec<(String, RespFrame)>);

/// Frames of which no two are equal, in the order in which they were
/// inserted.
#[derive(Debug)]
pub struct RespSet(Vec<RespFrame>);

/// The values of a sequence of frames, element by element.
pub open spec fn frames_view(v: Seq<RespFrame>) -> Seq<Frame>
    decreases v,
{
    Seq::new(
        v.len(),
        |i: int|
            if 0 <= i < v.len() {
                v[i]@
            } else {
                Frame::Null
            },
    )
}

/// The values of a sequence of entries, element by element.
pub open spec fn entries_view(v: Seq<(String, RespFrame)>) -> Seq<(Seq<char>, Frame)>
    decreases v,
{
    Seq::new(
        v.len(),
        |i: int|
            if 0 <= i < v.len() {
                (v[i].0@, v[i].1@)
            } else {
                (Seq::empty(), Frame::Null)
            },
    )
}

impl View for SimpleString {
    type V = Seq<char>;

    closed spec fn view(&self) -> Seq<char> {
        self.0@
    }
}

impl View for SimpleError {
    type V = Seq<char>;

    closed spec fn view(&self) -> Seq<char> {
        self.0@
    }
}

impl View for BulkString {
    type V = Seq<u8>;

    closed spec fn view(&self) -> Seq<u8> {
        self.0@
    }
}

impl View for RespDouble {
    type V = Seq<u8>;

    closed spec fn view(&self) -> Seq<u8> {
        self.0@
    }
}

impl View for RespArray {
    type V = Seq<Frame>;

    closed spec fn view(&self) -> Seq<Frame>
        decreases self,
    {
        frames_view(self.0@)
    }
}

impl View for RespMap {
    type V = Seq<(Seq<char>, Frame)>;

    closed spec fn view(&self) -> Seq<(Seq<char>, Frame)>
        decreases self,
    {
        entries_view(self.0@)
    }
}

impl View for RespSet {
    type V = Seq<Frame>;

    closed spec fn view(&self) -> Seq<Frame>
        decreases self,
    {
        frames_view(self.0@)
    }
}

impl View for RespFrame {
    type V = Frame;

    open spec fn view(&self) -> Frame
        decreases self,
    {
        match self {
            RespFrame::SimpleString(s) => Frame::SimpleString(s@),
            RespFrame::Error(e) => Frame::Error(e@),
            RespFrame::Integer(v) => Frame::Integer(*v),
            RespFrame::BulkString(b) => Frame::BulkString(b@),
            RespFrame::NullBulkString(_) => Frame::NullBulkString,
            RespFrame::Array(a) => Frame::Array(a@),
            RespFrame::NullArray(_) => Frame::NullArray,
            RespFrame::Null(_) => Frame::Null,
            RespFrame::Boolean(b) => Frame::Boolean(*b),
            RespFrame::Double(d) => Frame::Double(d@),
            RespFrame::Mapping(m) => Frame::Mapping(m@),
            RespFrame::Distinct(s) => Frame::Distinct(s@),
        }
    }
}

impl SimpleString {
    /// The simple string with the text `s`. It is well-formed where `s`
    /// holds no CR and no LF.
    pub fn new(s: &str) -> (r: Self)
        ensures
            r@ == s@,
    {
        SimpleString(s.to_owned())
    }
}

impl Deref for SimpleString {
    type Target = String;

    fn deref(&self) -> (r: &String)
        ensures
            r@ == self@,
    {
        &self.0
    }
}

impl SimpleError {
    /// The error with the message `s`. It is well-formed where `s` holds no
    /// CR and no LF.
    pub fn new(s: &str) -> (r: Self)
        ensures
            r@ == s@,
    {
        SimpleError(s.to_owned())
    }
}

impl Deref for SimpleError {
    type Target = String;

    fn deref(&self) -> (r: &String)
        ensures
            r@ == self@,
    {
        &self.0
    }
}

impl BulkString {
    /// The bulk string that holds `bytes`.
    pub fn new(bytes: Vec<u8>) -> (r: Self)
        ensures
            r@ == bytes@,
    {
        BulkString(bytes)
    }
}

impl Deref for BulkString {
    type Target = Vec<u8>;

    fn deref(&self) -> (r: &Vec<u8>)
        ensures
            r@ == self@,
    {
        &self.0
    }
}

impl RespDouble {
    /// Takes the text of a double, with or without a sign, and keeps it with
    /// one. `None` where the text is no literal of a double.
    pub fn from_text(text: &[u8]) -> (r: Option<Self>)
        ensures
            r is Some <==> is_double_text(with_sign(text@)),
            r matches Some(d) ==> d@ == with_sign(text@),
    {
        if !check_double(text, 0, text.len()) {
            proof {
                assert(text@.subrange(0, text@.len() as int) =~= text@);
            }
            return None;
        }
        let mut kept: Vec<u8> = Vec::new();
        if !(text.len() > 0 && (text[0] == PLUS || text[0] == MINUS)) {
            kept.push(PLUS);
        }
        push_range(&mut kept, text, 0, text.len());
        proof {
            assert(text@.subrange(0, text@.len() as int) =~= text@);
            assert(kept@ =~= with_sign(text@));
        }
        Some(RespDouble(kept))
    }
}

impl Deref for RespDouble {
    type Target = Vec<u8>;

    fn deref(&self) -> (r: &Vec<u8>)
        ensures
            r@ == self@,
    {
        &self.0
    }
}

impl RespArray {
    /// The array of `frames`, in their order.
    pub fn new(frames: Vec<RespFrame>) -> (r: Self)
        ensures
            r@ == frames_view(frames@),
    {
        RespArray(frames)
    }
}

impl Deref for RespArray {
    type Target = Vec<RespFrame>;

    fn deref(&self) -> (r: &Vec<RespFrame>)
        ensures
            frames_view(r@) == self@,
    {
        &self.0
    }
}

impl RespMap {
    /// The map without entries.
    pub fn new() -> (r: Self)
        ensures
            r@ == Seq::<(Seq<char>, Frame)>::empty(),
            unique_keys(r@),
    {
        let r = RespMap(Vec::new());
        proof {
            assert(r@ =~= Seq::<(Seq<char>, Frame)>::empty());
        }
        r
    }

    /// The index of the entry under `key`, or the number of entries where
    /// there is none.
    pub fn position(&self, key: &String) -> (k: usize)
        ensures
            k == key_index(self@, key@),
            k <= self@.len(),
    {
        let mut i: usize = 0;
        while i < self.0.len() && !(self.0[i].0 == *key)
            invariant
                i <= self.0@.len(),
                forall|j: int| 0 <= j < i ==> (#[trigger] self@[j]).0 != key@,
            decreases self.0@.len() - i,
        {
            i += 1;
        }
        proof {
            lemma_key_index_is(self@, key@, i as int);
        }
        i
    }

    /// The value under `key`.
    pub fn get(&self, key: &String) -> (r: Option<&RespFrame>)
        ensures
            match r {
                Some(value) => key_index(self@, key@) < self@.len() && value@ == self@[key_index(
                    self@,
                    key@,
                )].1,
                None => key_index(self@, key@) == self@.len(),
            },
    {
        let k: usize = self.position(key);
        if k < self.0.len() {
            Some(&self.0[k].1)
        } else {
            None
        }
    }

    /// Puts `value` under `key`: in the place of the value that the key had,
    /// which is returned, or at the end where it had none.
    pub fn insert(&mut self, key: String, value: RespFrame) -> (previous: Option<RespFrame>)
        ensures
            final(self)@ == map_insert(old(self)@, key@, value@),
            unique_keys(old(self)@) ==> unique_keys(final(self)@),
            match previous {
                Some(p) => {
                    &&& key_index(old(self)@, key@) < old(self)@.len()
                    &&& p@ == old(self)@[key_index(old(self)@, key@)].1
                },
                None => key_index(old(self)@, key@) == old(self)@.len(),
            },
    {
        let k: usize = self.position(&key);
        proof {
            if unique_keys(self@) {
                lemma_map_insert_unique(self@, key@, value@);
            }
        }
        if k < self.0.len() {
            let replaced = self.0.remove(k);
            self.0.insert(k, (key, value));
            proof {
                assert(final(self)@ =~= map_insert(old(self)@, key@, value@));
            }
            Some(replaced.1)
        } else {
            self.0.push((key, value));
            proof {
                assert(final(self)@ =~= map_insert(old(self)@, key@, value@));
            }
            None
        }
    }
}

impl Deref for RespMap {
    type Target = Vec<(String, RespFrame)>;

    fn deref(&self) -> (r: &Vec<(String, RespFrame)>)
        ensures
            entries_view(r@) == self@,
    {
        &self.0
    }
}

impl RespSet {
    /// The set without members.
    pub fn new() -> (r: Self)
        ensures
            r@ == Seq::<Frame>::empty(),
            pairwise_distinct(r@),
    {
        let r = RespSet(Vec::new());
        proof {
            assert(r@ =~= Seq::<Frame>::empty());
        }
        r
    }

    /// Whether a member equal to `frame` is in the set.
    pub fn contains(&self, frame: &RespFrame) -> (r: bool)
        ensures
            r == has_member(self@, frame@),
    {
        find_member(&self.0, frame)
    }

    /// Adds `frame` at the end unless an equal member is there already, and
    /// says whether it was added.
    pub fn insert(&mut self, frame: RespFrame) -> (added: bool)
        ensures
            final(self)@ == set_insert(old(self)@, frame@),
            pairwise_distinct(old(self)@) ==> pairwise_distinct(final(self)@),
            added == !has_member(old(self)@, frame@),
    {
        proof {
            if pairwise_distinct(self@) {
                lemma_set_insert_distinct(self@, frame@);
            }
        }
        if find_member(&self.0, &frame) {
            false
        } else {
            self.0.push(frame);
            proof {
                assert(final(self)@ =~= old(self)@.push(frame@));
            }
            true
        }
    }
}

impl Deref for RespSet {
    type Target = Vec<RespFrame>;

    fn deref(&self) -> (r: &Vec<RespFrame>)
        ensures
            frames_view(r@) == self@,
    {
        &self.0
    }
}

} // verus!
