//! Whether a frame meets the invariants of the data model, computed.
use vstd::prelude::*;
use crate::resp::double::{check_magnitude, is_double_text};
use crate::resp::equal::frames_equal;
use crate::resp::line::{CR, has_line_break, is_line_break, LF};
use crate::resp::model::{
    Frame, is_line_text, max_count, nests_within, pairwise_distinct, same, unique_keys, well_formed,
};
use crate::resp::number::{MINUS, PLUS};
use crate::resp::text::lemma_line_text_bytes;
use crate::resp::{entries_view, frames_view, RespFrame};

verus! {

/// Whether a CR or an LF occurs in `bytes`.
pub fn holds_line_break(bytes: &[u8]) -> (r: bool)
    ensures
        r == has_line_break(bytes@),
{
    let mut i: usize = 0;
    while i < bytes.len()
        invariant
            i <= bytes@.len(),
            forall|j: int| 0 <= j < i ==> !is_line_break(#[trigger] bytes@[j]),
        decreases bytes@.len() - i,
    {
        if bytes[i] == CR || bytes[i] == LF {
            return true;
        }
        i += 1;
    }
    false
}

/// Whether `text` can stand on one line.
pub fn is_one_line(text: &str) -> (r: bool)
    ensures
        r == is_line_text(text@),
{
    proof {
        lemma_line_text_bytes(text@);
    }
    !holds_line_break(text.as_bytes())
}

/// Whether a length or count can be written on the wire.
pub fn fits_count(len: usize) -> (r: bool)
    ensures
        r == (len <= max_count()),
{
    len as u64 <= 0x7fff_ffff_ffff_ffff
}

/// Whether `text` is a sign and the magnitude of a double.
pub fn is_double(text: &[u8]) -> (r: bool)
    ensures
        r == is_double_text(text@),
{
    if text.len() > 0 && (text[0] == PLUS || text[0] == MINUS) {
        proof {
            assert(text@.skip(1) =~= text@.subrange(1, text@.len() as int));
        }
        check_magnitude(text, 1, text.len())
    } else {
        false
    }
}

/// Whether a frame meets the invariants of the data model.
pub fn is_well_formed(frame: &RespFrame) -> (r: bool)
    ensures
        r == well_formed(frame@),
    decreases frame, 0nat,
{
    match frame {
        RespFrame::SimpleString(s) => is_one_line(s.0.as_str()),
        RespFrame::Error(e) => is_one_line(e.0.as_str()),
        RespFrame::BulkString(b) => fits_count(b.0.len()),
        RespFrame::Double(d) => is_double(d.0.as_slice()),
        RespFrame::Array(a) => fits_count(a.0.len()) && all_well_formed(&a.0),
        RespFrame::Mapping(m) => fits_count(m.0.len()) && entries_well_formed(&m.0)
            && keys_differ(&m.0),
        RespFrame::Distinct(s) => fits_count(s.0.len()) && all_well_formed(&s.0) && frames_differ(
            &s.0,
        ),
        _ => true,
    }
}

/// Whether every one of `frames` is well-formed.
pub fn all_well_formed(frames: &Vec<RespFrame>) -> (r: bool)
    ensures
        r == forall|i: int|
            0 <= i < frames_view(frames@).len() ==> well_formed(#[trigger] frames_view(frames@)[i]),
    decreases frames, 1nat,
{
    let ghost all = frames_view(frames@);
    let mut i: usize = 0;
    while i < frames.len()
        invariant
            i <= frames@.len(),
            all == frames_view(frames@),
            forall|j: int| 0 <= j < i ==> well_formed(#[trigger] all[j]),
        decreases frames@.len() - i,
    {
        if !is_well_formed(&frames[i]) {
            proof {
                assert(!well_formed(all[i as int]));
            }
            return false;
        }
        i += 1;
    }
    true
}

/// Whether every one of `entries` has a key that can stand on one line and a
/// well-formed value.
pub fn entries_well_formed(entries: &Vec<(String, RespFrame)>) -> (r: bool)
    ensures
        r == forall|i: int|
            0 <= i < entries_view(entries@).len() ==> is_line_text(
                (#[trigger] entries_view(entries@)[i]).0,
            ) && well_formed(entries_view(entries@)[i].1),
    decreases entries, 1nat,
{
    let ghost all = entries_view(entries@);
    let mut i: usize = 0;
    while i < entries.len()
        invariant
            i <= entries@.len(),
            all == entries_view(entries@),
            forall|j: int|
                0 <= j < i ==> is_line_text((#[trigger] all[j]).0) && well_formed(all[j].1),
        decreases entries@.len() - i,
    {
        if !is_one_line(entries[i].0.as_str()) || !is_well_formed(&entries[i].1) {
            proof {
                assert(!(is_line_text(all[i as int].0) && well_formed(all[i as int].1)));
            }
            return false;
        }
        i += 1;
    }
    true
}

/// Whether no two of `entries` have the same key.
pub fn keys_differ(entries: &Vec<(String, RespFrame)>) -> (r: bool)
    ensures
        r == unique_keys(entries_view(entries@)),
{
    let ghost all = entries_view(entries@);
    let mut j: usize = 0;
    while j < entries.len()
        invariant
            j <= entries@.len(),
            all == entries_view(entries@),
            forall|a: int, b: int| 0 <= a < b < j ==> all[a].0 != all[b].0,
        decreases entries@.len() - j,
    {
        let mut i: usize = 0;
        while i < j
            invariant
                i <= j < entries@.len(),
                all == entries_view(entries@),
                forall|a: int| 0 <= a < i ==> (#[trigger] all[a]).0 != all[j as int].0,
            decreases j - i,
        {
            if entries[i].0 == entries[j].0 {
                proof {
                    assert(all[i as int].0 == all[j as int].0);
                }
                return false;
            }
            i += 1;
        }
        j += 1;
    }
    true
}

/// Whether no two of `frames` are equal.
pub fn frames_differ(frames: &Vec<RespFrame>) -> (r: bool)
    ensures
        r == pairwise_distinct(frames_view(frames@)),
{
    let ghost all = frames_view(frames@);
    let mut j: usize = 0;
    while j < frames.len()
        invariant
            j <= frames@.len(),
            all == frames_view(frames@),
            forall|a: int, b: int| 0 <= a < b < j ==> !same(all[a], all[b]),
        decreases frames@.len() - j,
    {
        let mut i: usize = 0;
        while i < j
            invariant
                i <= j < frames@.len(),
                all == frames_view(frames@),
                forall|a: int| 0 <= a < i ==> !same(#[trigger] all[a], all[j as int]),
            decreases j - i,
        {
            if frames_equal(&frames[i], &frames[j]) {
                proof {
                    assert(same(all[i as int], all[j as int]));
                }
                return false;
            }
            i += 1;
        }
        j += 1;
    }
    true
}

/// An array or a set nests one level deeper than the deepest of its frames,
/// and a map one level deeper than the deepest of its values.
proof fn lemma_nests_one_deeper(f: Frame, levels: nat)
    requires
        levels > 0,
    ensures
        f matches Frame::Array(items) ==> nests_within(f, levels) == forall|i: int|
            0 <= i < items.len() ==> nests_within(#[trigger] items[i], (levels - 1) as nat),
        f matches Frame::Distinct(members) ==> nests_within(f, levels) == forall|i: int|
            0 <= i < members.len() ==> nests_within(#[trigger] members[i], (levels - 1) as nat),
        f matches Frame::Mapping(entries) ==> nests_within(f, levels) == forall|i: int|
            0 <= i < entries.len() ==> nests_within(
                (#[trigger] entries[i]).1,
                (levels - 1) as nat,
            ),
{
}

/// Whether arrays, maps and sets are nested in a frame at most `levels` deep.
pub fn nests_no_deeper(frame: &RespFrame, levels: usize) -> (r: bool)
    ensures
        r == nests_within(frame@, levels as nat),
    decreases frame, 0nat,
{
    if levels == 0 {
        match frame {
            RespFrame::Array(_) => false,
            RespFrame::Mapping(_) => false,
            RespFrame::Distinct(_) => false,
            _ => true,
        }
    } else {
        proof {
            lemma_nests_one_deeper(frame@, levels as nat);
        }
        match frame {
            RespFrame::Array(a) => all_nest_no_deeper(&a.0, levels - 1),
            RespFrame::Mapping(m) => values_nest_no_deeper(&m.0, levels - 1),
            RespFrame::Distinct(s) => all_nest_no_deeper(&s.0, levels - 1),
            _ => true,
        }
    }
}

/// Whether every one of `frames` nests at most `levels` deep.
pub fn all_nest_no_deeper(frames: &Vec<RespFrame>, levels: usize) -> (r: bool)
    ensures
        r == forall|i: int|
            0 <= i < frames_view(frames@).len() ==> nests_within(
                #[trigger] frames_view(frames@)[i],
                levels as nat,
            ),
    decreases frames, 1nat,
{
    let ghost all = frames_view(frames@);
    let mut i: usize = 0;
    while i < frames.len()
        invariant
            i <= frames@.len(),
            all == frames_view(frames@),
            forall|j: int| 0 <= j < i ==> nests_within(#[trigger] all[j], levels as nat),
        decreases frames@.len() - i,
    {
        if !nests_no_deeper(&frames[i], levels) {
            proof {
                assert(!nests_within(all[i as int], levels as nat));
            }
            return false;
        }
        i += 1;
    }
    true
}

/// Whether the value of every one of `entries` nests at most `levels` deep.
pub fn values_nest_no_deeper(entries: &Vec<(String, RespFrame)>, levels: usize) -> (r: bool)
    ensures
        r == forall|i: int|
            0 <= i < entries_view(entries@).len() ==> nests_within(
                (#[trigger] entries_view(entries@)[i]).1,
                levels as nat,
            ),
    decreases entries, 1nat,
{
    let ghost all = entries_view(entries@);
    let mut i: usize = 0;
    while i < entries.len()
        invariant
            i <= entries@.len(),
            all == entries_view(entries@),
            forall|j: int| 0 <= j < i ==> nests_within((#[trigger] all[j]).1, levels as nat),
        decreases entries@.len() - i,
    {
        if !nests_no_deeper(&entries[i].1, levels) {
            proof {
                assert(!nests_within(all[i as int].1, levels as nat));
            }
            return false;
        }
        i += 1;
    }
    true
}

} // verus!
