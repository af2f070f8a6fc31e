//! Equality of frames, computed.
use vstd::prelude::*;
use crate::resp::bytes::bytes_equal;
use crate::resp::model::{all_found, all_matched, Frame, has_member, is_found, same};
use crate::resp::{
    BulkString, entries_view, frames_view, RespArray, RespDouble, RespFrame, RespMap, RespSet,
    SimpleError, SimpleString,
};

verus! {

/// Whether two frames are equal as values.
pub fn frames_equal(a: &RespFrame, b: &RespFrame) -> (r: bool)
    ensures
        r == same(a@, b@),
    decreases a, 0nat,
{
    match (a, b) {
        (RespFrame::SimpleString(x), RespFrame::SimpleString(y)) => x.0 == y.0,
        (RespFrame::Error(x), RespFrame::Error(y)) => x.0 == y.0,
        (RespFrame::Integer(x), RespFrame::Integer(y)) => *x == *y,
        (RespFrame::BulkString(x), RespFrame::BulkString(y)) => bytes_equal(
            x.0.as_slice(),
            y.0.as_slice(),
        ),
        (RespFrame::NullBulkString(_), RespFrame::NullBulkString(_)) => true,
        (RespFrame::Array(x), RespFrame::Array(y)) => in_order_equal(&x.0, &y.0),
        (RespFrame::NullArray(_), RespFrame::NullArray(_)) => true,
        (RespFrame::Null(_), RespFrame::Null(_)) => true,
        (RespFrame::Boolean(x), RespFrame::Boolean(y)) => *x == *y,
        (RespFrame::Double(x), RespFrame::Double(y)) => bytes_equal(x.0.as_slice(), y.0.as_slice()),
        (RespFrame::Mapping(x), RespFrame::Mapping(y)) => entries_equal(&x.0, &y.0),
        (RespFrame::Distinct(x), RespFrame::Distinct(y)) => includes(&x.0, &y.0) && included(
            &x.0,
            &y.0,
        ),
        _ => false,
    }
}

/// Whether `x` and `y` hold equal frames at every index.
pub fn in_order_equal(x: &Vec<RespFrame>, y: &Vec<RespFrame>) -> (r: bool)
    ensures
        r == same(Frame::Array(frames_view(x@)), Frame::Array(frames_view(y@))),
    decreases x, 1nat,
{
    if x.len() != y.len() {
        return false;
    }
    let ghost xs = frames_view(x@);
    let ghost ys = frames_view(y@);
    let mut i: usize = 0;
    while i < x.len()
        invariant
            i <= x@.len(),
            x@.len() == y@.len(),
            xs == frames_view(x@),
            ys == frames_view(y@),
            forall|j: int| 0 <= j < i ==> same(xs[j], ys[j]),
        decreases x@.len() - i,
    {
        if !frames_equal(&x[i], &y[i]) {
            proof {
                assert(!same(xs[i as int], ys[i as int]));
            }
            return false;
        }
        i += 1;
    }
    true
}

/// Whether `x` and `y` hold the same keys with equal values at every index.
pub fn entries_equal(x: &Vec<(String, RespFrame)>, y: &Vec<(String, RespFrame)>) -> (r: bool)
    ensures
        r == same(
            Frame::Mapping(entries_view(x@)),
            Frame::Mapping(entries_view(y@)),
        ),
    decreases x, 1nat,
{
    if x.len() != y.len() {
        return false;
    }
    let ghost xs = entries_view(x@);
    let ghost ys = entries_view(y@);
    let mut i: usize = 0;
    while i < x.len()
        invariant
            i <= x@.len(),
            x@.len() == y@.len(),
            xs == entries_view(x@),
            ys == entries_view(y@),
            forall|j: int| 0 <= j < i ==> xs[j].0 == ys[j].0 && same(xs[j].1, ys[j].1),
        decreases x@.len() - i,
    {
        if !(x[i].0 == y[i].0) || !frames_equal(&x[i].1, &y[i].1) {
            proof {
                assert(!(xs[i as int].0 == ys[i as int].0 && same(xs[i as int].1, ys[i as int].1)));
            }
            return false;
        }
        i += 1;
    }
    true
}

/// Whether `members` holds a frame equal to `x`.
pub fn find_member(members: &Vec<RespFrame>, x: &RespFrame) -> (r: bool)
    ensures
        r == has_member(frames_view(members@), x@),
    decreases members, 1nat,
{
    let ghost ms = frames_view(members@);
    let mut j: usize = 0;
    while j < members.len()
        invariant
            j <= members@.len(),
            ms == frames_view(members@),
            forall|k: int| 0 <= k < j ==> !same(#[trigger] ms[k], x@),
        decreases members@.len() - j,
    {
        if frames_equal(&members[j], x) {
            proof {
                assert(same(ms[j as int], x@));
            }
            return true;
        }
        j += 1;
    }
    false
}

/// Whether `members` holds a frame that `x` is equal to.
pub fn find_equal(x: &RespFrame, members: &Vec<RespFrame>) -> (r: bool)
    ensures
        r == is_found(x@, frames_view(members@)),
    decreases x, 1nat,
{
    let ghost ms = frames_view(members@);
    let mut j: usize = 0;
    while j < members.len()
        invariant
            j <= members@.len(),
            ms == frames_view(members@),
            forall|k: int| 0 <= k < j ==> !same(x@, #[trigger] ms[k]),
        decreases members@.len() - j,
    {
        if frames_equal(x, &members[j]) {
            proof {
                assert(same(x@, ms[j as int]));
            }
            return true;
        }
        j += 1;
    }
    false
}

/// Whether every frame of `x` is equal to one of `y`.
pub fn includes(x: &Vec<RespFrame>, y: &Vec<RespFrame>) -> (r: bool)
    ensures
        r == all_found(frames_view(x@), frames_view(y@)),
    decreases x, 2nat,
{
    let ghost xs = frames_view(x@);
    let ghost ys = frames_view(y@);
    let mut i: usize = 0;
    while i < x.len()
        invariant
            i <= x@.len(),
            xs == frames_view(x@),
            ys == frames_view(y@),
            xs.len() == x@.len(),
            forall|k: int| 0 <= k < i ==> is_found(#[trigger] xs[k], ys),
        decreases x@.len() - i,
    {
        if !find_equal(&x[i], y) {
            proof {
                assert(xs[i as int] == x@[i as int]@);
                assert(!is_found(xs[i as int], ys));
            }
            return false;
        }
        proof {
            assert(is_found(xs[i as int], ys));
        }
        i += 1;
    }
    true
}

/// Whether every frame of `y` has one of `x` that is equal to it.
pub fn included(x: &Vec<RespFrame>, y: &Vec<RespFrame>) -> (r: bool)
    ensures
        r == all_matched(frames_view(x@), frames_view(y@)),
    decreases x, 2nat,
{
    let ghost xs = frames_view(x@);
    let ghost ys = frames_view(y@);
    let mut j: usize = 0;
    while j < y.len()
        invariant
            j <= y@.len(),
            xs == frames_view(x@),
            ys == frames_view(y@),
            ys.len() == y@.len(),
            forall|k: int| 0 <= k < j ==> has_member(xs, #[trigger] ys[k]),
        decreases y@.len() - j,
    {
        if !find_member(x, &y[j]) {
            proof {
                assert(ys[j as int] == y@[j as int]@);
                assert(!has_member(xs, ys[j as int]));
            }
            return false;
        }
        proof {
            assert(has_member(xs, ys[j as int]));
        }
        j += 1;
    }
    true
}

impl PartialEq for RespFrame {
    fn eq(&self, other: &Self) -> (r: bool) {
        frames_equal(self, other)
    }
}

impl vstd::std_specs::cmp::PartialEqSpecImpl for RespFrame {
    open spec fn obeys_eq_spec() -> bool {
        true
    }

    open spec fn eq_spec(&self, other: &Self) -> bool {
        same(self@, other@)
    }
}

impl PartialEq for SimpleString {
    fn eq(&self, other: &Self) -> (r: bool) {
        self.0 == other.0
    }
}

impl vstd::std_specs::cmp::PartialEqSpecImpl for SimpleString {
    open spec fn obeys_eq_spec() -> bool {
        true
    }

    open spec fn eq_spec(&self, other: &Self) -> bool {
        self@ == other@
    }
}

impl PartialEq for SimpleError {
    fn eq(&self, other: &Self) -> (r: bool) {
        self.0 == other.0
    }
}

impl vstd::std_specs::cmp::PartialEqSpecImpl for SimpleError {
    open spec fn obeys_eq_spec() -> bool {
        true
    }

    open spec fn eq_spec(&self, other: &Self) -> bool {
        self@ == other@
    }
}

impl PartialEq for BulkString {
    fn eq(&self, other: &Self) -> (r: bool) {
        bytes_equal(self.0.as_slice(), other.0.as_slice())
    }
}

impl vstd::std_specs::cmp::PartialEqSpecImpl for BulkString {
    open spec fn obeys_eq_spec() -> bool {
        true
    }

    open spec fn eq_spec(&self, other: &Self) -> bool {
        self@ == other@
    }
}

impl PartialEq for RespDouble {
    fn eq(&self, other: &Self) -> (r: bool) {
        bytes_equal(self.0.as_slice(), other.0.as_slice())
    }
}

impl vstd::std_specs::cmp::PartialEqSpecImpl for RespDouble {
    open spec fn obeys_eq_spec() -> bool {
        true
    }

    open spec fn eq_spec(&self, other: &Self) -> bool {
        self@ == other@
    }
}

impl PartialEq for RespArray {
    fn eq(&self, other: &Self) -> (r: bool) {
        in_order_equal(&self.0, &other.0)
    }
}

impl vstd::std_specs::cmp::PartialEqSpecImpl for RespArray {
    open spec fn obeys_eq_spec() -> bool {
        true
    }

    open spec fn eq_spec(&self, other: &Self) -> bool {
        same(Frame::Array(self@), Frame::Array(other@))
    }
}

impl PartialEq for RespMap {
    fn eq(&self, other: &Self) -> (r: bool) {
        entries_equal(&self.0, &other.0)
    }
}

impl vstd::std_specs::cmp::PartialEqSpecImpl for RespMap {
    open spec fn obeys_eq_spec() -> bool {
        true
    }

    open spec fn eq_spec(&self, other: &Self) -> bool {
        same(Frame::Mapping(self@), Frame::Mapping(other@))
    }
}

impl PartialEq for RespSet {
    fn eq(&self, other: &Self) -> (r: bool) {
        includes(&self.0, &other.0) && included(&self.0, &other.0)
    }
}

impl vstd::std_specs::cmp::PartialEqSpecImpl for RespSet {
    open spec fn obeys_eq_spec() -> bool {
        true
    }

    open spec fn eq_spec(&self, other: &Self) -> bool {
        same(Frame::Distinct(self@), Frame::Distinct(other@))
    }
}

} // verus!
