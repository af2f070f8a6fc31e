//! Copies of frames: `clone` gives a frame of the same value.
use vstd::prelude::*;
use crate::resp::bytes::push_range;
use crate::resp::{
    BulkString, entries_view, frames_view, RespArray, RespDouble, RespFrame, RespMap, RespSet,
    SimpleError, SimpleString,
};

verus! {

/// A copy of a byte string.
fn copy_bytes(bytes: &Vec<u8>) -> (r: Vec<u8>)
    ensures
        r@ == bytes@,
{
    let mut copy: Vec<u8> = Vec::new();
    push_range(&mut copy, bytes.as_slice(), 0, bytes.len());
    proof {
        assert(copy@ =~= bytes@);
    }
    copy
}

/// A copy of a frame.
fn copy_frame(frame: &RespFrame) -> (r: RespFrame)
    ensures
        r@ == frame@,
    decreases frame, 0nat,
{
    match frame {
        RespFrame::SimpleString(s) => RespFrame::SimpleString(SimpleString(s.0.clone())),
        RespFrame::Error(e) => RespFrame::Error(SimpleError(e.0.clone())),
        RespFrame::Integer(v) => RespFrame::Integer(*v),
        RespFrame::BulkString(b) => RespFrame::BulkString(BulkString(copy_bytes(&b.0))),
        RespFrame::NullBulkString(n) => RespFrame::NullBulkString(*n),
        RespFrame::Array(a) => RespFrame::Array(RespArray(copy_frames(&a.0))),
        RespFrame::NullArray(n) => RespFrame::NullArray(*n),
        RespFrame::Null(n) => RespFrame::Null(*n),
        RespFrame::Boolean(b) => RespFrame::Boolean(*b),
        RespFrame::Double(d) => RespFrame::Double(RespDouble(copy_bytes(&d.0))),
        RespFrame::Mapping(m) => RespFrame::Mapping(RespMap(copy_entries(&m.0))),
        RespFrame::Distinct(s) => RespFrame::Distinct(RespSet(copy_frames(&s.0))),
    }
}

/// Copies of frames, in order.
fn copy_frames(frames: &Vec<RespFrame>) -> (r: Vec<RespFrame>)
    ensures
        frames_view(r@) == frames_view(frames@),
    decreases frames, 1nat,
{
    let mut copies: Vec<RespFrame> = Vec::new();
    let mut i: usize = 0;
    while i < frames.len()
        invariant
            i <= frames@.len(),
            copies@.len() == i,
            forall|j: int| 0 <= j < i ==> copies@[j]@ == frames@[j]@,
        decreases frames@.len() - i,
    {
        copies.push(copy_frame(&frames[i]));
        i += 1;
    }
    proof {
        assert(frames_view(copies@) =~= frames_view(frames@));
    }
    copies
}

/// Copies of entries, in order.
fn copy_entries(entries: &Vec<(String, RespFrame)>) -> (r: Vec<(String, RespFrame)>)
    ensures
        entries_view(r@) == entries_view(entries@),
    decreases entries, 1nat,
{
    let mut copies: Vec<(String, RespFrame)> = Vec::new();
    let mut i: usize = 0;
    while i < entries.len()
        invariant
            i <= entries@.len(),
            copies@.len() == i,
            forall|j: int|
                0 <= j < i ==> copies@[j].0@ == entries@[j].0@ && copies@[j].1@ == entries@[j].1@,
        decreases entries@.len() - i,
    {
        copies.push((entries[i].0.clone(), copy_frame(&entries[i].1)));
        i += 1;
    }
    proof {
        assert(entries_view(copies@) =~= entries_view(entries@));
    }
    copies
}

impl Clone for SimpleString {
    fn clone(&self) -> (r: Self)
        ensures
            r@ == self@,
    {
        SimpleString(self.0.clone())
    }
}

impl Clone for SimpleError {
    fn clone(&self) -> (r: Self)
        ensures
            r@ == self@,
    {
        SimpleError(self.0.clone())
    }
}

impl Clone for BulkString {
    fn clone(&self) -> (r: Self)
        ensures
            r@ == self@,
    {
        BulkString(copy_bytes(&self.0))
    }
}

impl Clone for RespDouble {
    fn clone(&self) -> (r: Self)
        ensures
            r@ == self@,
    {
        RespDouble(copy_bytes(&self.0))
    }
}

impl Clone for RespArray {
    fn clone(&self) -> (r: Self)
        ensures
            r@ == self@,
    {
        RespArray(copy_frames(&self.0))
    }
}

impl Clone for RespMap {
    fn clone(&self) -> (r: Self)
        ensures
            r@ == self@,
    {
        RespMap(copy_entries(&self.0))
    }
}

impl Clone for RespSet {
    fn clone(&self) -> (r: Self)
        ensures
            r@ == self@,
    {
        RespSet(copy_frames(&self.0))
    }
}

impl Clone for RespFrame {
    fn clone(&self) -> (r: Self)
        ensures
            r@ == self@,
    {
        copy_frame(self)
    }
}

} // verus!
