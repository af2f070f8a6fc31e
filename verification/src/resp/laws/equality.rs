//! Equality of frames is an equivalence, and equal frames are written and
//! read alike.
use vstd::prelude::*;
use crate::resp::decode::parse;
use crate::resp::encode::wire;
use crate::resp::laws::round_trip::lemma_round_trip;
use crate::resp::model::{
    all_found, all_matched, Frame, has_member, is_found, nests_within, same, well_formed,
};

verus! {

/// Every frame is equal to itself.
pub proof fn lemma_same_reflexive(a: Frame)
    ensures
        same(a, a),
    decreases a,
{
    match a {
        Frame::Array(x) => {
            assert forall|i: int| 0 <= i < x.len() implies same(x[i], x[i]) by {
                lemma_same_reflexive(x[i]);
            }
        },
        Frame::Mapping(x) => {
            assert forall|i: int| 0 <= i < x.len() implies x[i].0 == x[i].0 && same(
                x[i].1,
                x[i].1,
            ) by {
                lemma_same_reflexive(x[i].1);
            }
        },
        Frame::Distinct(x) => {
            assert forall|i: int| 0 <= i < x.len() implies is_found(#[trigger] x[i], x) by {
                lemma_same_reflexive(x[i]);
            }
            assert forall|j: int| 0 <= j < x.len() implies has_member(x, #[trigger] x[j]) by {
                lemma_same_reflexive(x[j]);
            }
            assert(all_found(x, x) && all_matched(x, x));
        },
        _ => {},
    }
}

/// Where `a` is equal to `b`, `b` is equal to `a`.
pub proof fn lemma_same_symmetric(a: Frame, b: Frame)
    requires
        same(a, b),
    ensures
        same(b, a),
    decreases a, 1nat,
{
    match a {
        Frame::Array(x) => {
            let y = b->Array_0;
            assert forall|i: int| 0 <= i < y.len() implies same(y[i], x[i]) by {
                lemma_same_symmetric(x[i], y[i]);
            }
        },
        Frame::Mapping(x) => {
            let y = b->Mapping_0;
            assert forall|i: int| 0 <= i < y.len() implies y[i].0 == x[i].0 && same(
                y[i].1,
                x[i].1,
            ) by {
                lemma_same_symmetric(x[i].1, y[i].1);
            }
        },
        Frame::Distinct(x) => {
            let y = b->Distinct_0;
            lemma_matched_flip(x, y);
            lemma_found_flip(x, y);
        },
        _ => {},
    }
}

/// Where every frame of `y` has an equal one in `x`, every frame of `y` is
/// equal to one of `x`.
proof fn lemma_matched_flip(x: Seq<Frame>, y: Seq<Frame>)
    requires
        all_matched(x, y),
    ensures
        all_found(y, x),
    decreases x, 0nat,
{
    assert forall|j: int| 0 <= j < y.len() implies is_found(#[trigger] y[j], x) by {
        assert(has_member(x, y[j]));
        let i = choose|i: int| 0 <= i < x.len() && same(#[trigger] x[i], y[j]);
        lemma_same_symmetric(x[i], y[j]);
    }
}

/// Where every frame of `x` is equal to one of `y`, every frame of `x` has an
/// equal one in `y`.
proof fn lemma_found_flip(x: Seq<Frame>, y: Seq<Frame>)
    requires
        all_found(x, y),
    ensures
        all_matched(y, x),
    decreases x, 0nat,
{
    assert forall|i: int| 0 <= i < x.len() implies has_member(y, #[trigger] x[i]) by {
        assert(is_found(x[i], y));
        let j = choose|j: int| 0 <= j < y.len() && same(x[i], #[trigger] y[j]);
        lemma_same_symmetric(x[i], y[j]);
    }
}

/// Where `a` is equal to `b` and `b` to `c`, `a` is equal to `c`.
pub proof fn lemma_same_transitive(a: Frame, b: Frame, c: Frame)
    requires
        same(a, b),
        same(b, c),
    ensures
        same(a, c),
    decreases a, 1nat,
{
    match a {
        Frame::Array(x) => {
            let y = b->Array_0;
            let z = c->Array_0;
            assert forall|i: int| 0 <= i < x.len() implies same(x[i], z[i]) by {
                lemma_same_transitive(x[i], y[i], z[i]);
            }
        },
        Frame::Mapping(x) => {
            let y = b->Mapping_0;
            let z = c->Mapping_0;
            assert forall|i: int| 0 <= i < x.len() implies x[i].0 == z[i].0 && same(
                x[i].1,
                z[i].1,
            ) by {
                lemma_same_transitive(x[i].1, y[i].1, z[i].1);
            }
        },
        Frame::Distinct(x) => {
            let y = b->Distinct_0;
            let z = c->Distinct_0;
            lemma_found_chain(x, y, z);
            lemma_matched_chain(x, y, z);
        },
        _ => {},
    }
}

/// Being equal to a frame of the next sequence carries over two sequences.
proof fn lemma_found_chain(x: Seq<Frame>, y: Seq<Frame>, z: Seq<Frame>)
    requires
        all_found(x, y),
        all_found(y, z),
    ensures
        all_found(x, z),
    decreases x, 0nat,
{
    assert forall|i: int| 0 <= i < x.len() implies is_found(#[trigger] x[i], z) by {
        assert(is_found(x[i], y));
        let j = choose|j: int| 0 <= j < y.len() && same(x[i], #[trigger] y[j]);
        assert(is_found(y[j], z));
        let k = choose|k: int| 0 <= k < z.len() && same(y[j], #[trigger] z[k]);
        lemma_same_transitive(x[i], y[j], z[k]);
    }
}

/// Having an equal frame in the sequence before carries over two sequences.
proof fn lemma_matched_chain(x: Seq<Frame>, y: Seq<Frame>, z: Seq<Frame>)
    requires
        all_matched(x, y),
        all_matched(y, z),
    ensures
        all_matched(x, z),
    decreases x, 0nat,
{
    assert forall|k: int| 0 <= k < z.len() implies has_member(x, #[trigger] z[k]) by {
        assert(has_member(y, z[k]));
        let j = choose|j: int| 0 <= j < y.len() && same(#[trigger] y[j], z[k]);
        assert(has_member(x, y[j]));
        let i = choose|i: int| 0 <= i < x.len() && same(#[trigger] x[i], y[j]);
        lemma_same_transitive(x[i], y[j], z[k]);
    }
}

/// Whether no set occurs in `f`, at any depth.
pub open spec fn holds_no_set(f: Frame) -> bool
    decreases f,
{
    match f {
        Frame::Array(items) => forall|i: int| 0 <= i < items.len() ==> holds_no_set(items[i]),
        Frame::Mapping(entries) => forall|i: int|
            0 <= i < entries.len() ==> holds_no_set(entries[i].1),
        Frame::Distinct(_) => false,
        _ => true,
    }
}

/// Equal frames in which no set occurs are one and the same value, and are
/// therefore written as the same bytes.
pub proof fn lemma_equal_frames_encode_alike(a: Frame, b: Frame)
    requires
        same(a, b),
        holds_no_set(a),
    ensures
        a == b,
        wire(a) == wire(b),
    decreases a,
{
    match (a, b) {
        (Frame::Array(x), Frame::Array(y)) => {
            assert forall|i: int| 0 <= i < x.len() implies x[i] == y[i] by {
                lemma_equal_frames_encode_alike(x[i], y[i]);
            }
            assert(x =~= y);
        },
        (Frame::Mapping(x), Frame::Mapping(y)) => {
            assert forall|i: int| 0 <= i < x.len() implies x[i] == y[i] by {
                lemma_equal_frames_encode_alike(x[i].1, y[i].1);
            }
            assert(x =~= y);
        },
        _ => {},
    }
}

/// Equal frames decode back to equal frames, whatever the order in which
/// their sets are written: what the bytes of `b` decode to is equal to `a`.
pub proof fn lemma_equal_frames_decode_equal(a: Frame, b: Frame, levels: nat)
    requires
        same(a, b),
        well_formed(b),
        nests_within(b, levels),
    ensures
        parse(wire(b), levels) matches Ok((decoded, taken)) && same(a, decoded) && taken == wire(
            b,
        ).len(),
{
    assert(wire(b) + Seq::<u8>::empty() =~= wire(b));
    lemma_round_trip(b, Seq::empty(), levels);
}

} // verus!
