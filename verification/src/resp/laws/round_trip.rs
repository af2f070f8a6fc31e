//! Decoding what was encoded gives the frame back.
use vstd::prelude::*;
use crate::resp::decode::{
    DecodeError, distinct, is_counted, keyed, MAX_DEPTH, parse, parse_body, parse_entries,
    parse_entry, parse_items,
};
use crate::resp::encode::{line, text_line, wire, wire_all, wire_entries};
use crate::resp::laws::sound::lemma_parse_sound;
use crate::resp::laws::parts::{
    body_of, content_of, lemma_content_is_one_line, lemma_count_round_trip, lemma_key_round_trip,
    lemma_parse_line, lemma_scalar_round_trip, lemma_wire_parts, tag_of,
};
use crate::resp::line::crlf;
use crate::resp::model::{
    Frame, has_member, is_line_text, lemma_key_index_is, nests_within, pairwise_distinct, same,
    unique_keys, well_formed,
};

verus! {

/// Decoding the bytes of a well-formed frame gives the frame back and takes
/// exactly those bytes, whatever follows them in the buffer, as long as the
/// frame nests no deeper than the decoder may go.
pub proof fn lemma_round_trip(f: Frame, rest: Seq<u8>, levels: nat)
    requires
        well_formed(f),
        nests_within(f, levels),
    ensures
        parse(wire(f) + rest, levels) == Ok::<(Frame, int), DecodeError>((f, wire(f).len() as int)),
    decreases f, 1nat,
{
    let tag = tag_of(f);
    let content = content_of(f);
    let body = body_of(f);
    lemma_wire_parts(f);
    lemma_content_is_one_line(f);
    assert(wire(f) + rest =~= line(tag, content) + (body + rest));
    lemma_parse_line(tag, content, body + rest, levels);
    lemma_body_round_trip(f, rest, levels);
}

/// Decoding exactly the bytes of a well-formed frame, with the depth that the
/// decoder allows, gives the frame back and takes all of them.
pub proof fn lemma_decode_encode(f: Frame)
    requires
        well_formed(f),
        nests_within(f, MAX_DEPTH as nat),
    ensures
        parse(wire(f), MAX_DEPTH as nat) == Ok::<(Frame, int), DecodeError>(
            (f, wire(f).len() as int),
        ),
{
    assert(wire(f) + Seq::<u8>::empty() =~= wire(f));
    lemma_round_trip(f, Seq::empty(), MAX_DEPTH as nat);
}

/// The frames that come back from their own bytes are exactly those that are
/// well-formed and nest no deeper than the decoder may go.
pub proof fn lemma_round_trip_exactly(f: Frame, levels: nat)
    ensures
        (parse(wire(f), levels) == Ok::<(Frame, int), DecodeError>((f, wire(f).len() as int))) == (
        well_formed(f) && nests_within(f, levels)),
{
    if well_formed(f) && nests_within(f, levels) {
        assert(wire(f) + Seq::<u8>::empty() =~= wire(f));
        lemma_round_trip(f, Seq::empty(), levels);
    } else {
        lemma_parse_sound(wire(f), levels);
    }
}

/// Well-formed frames that are written as the same bytes are the same frame.
pub proof fn lemma_wire_tells_frames_apart(a: Frame, b: Frame, levels: nat)
    requires
        well_formed(a),
        well_formed(b),
        nests_within(a, levels),
        nests_within(b, levels),
        wire(a) == wire(b),
    ensures
        a == b,
{
    lemma_round_trip(a, Seq::empty(), levels);
    lemma_round_trip(b, Seq::empty(), levels);
}

/// After the first line of a well-formed frame, decoding gives the frame and
/// takes its body.
pub proof fn lemma_body_round_trip(f: Frame, rest: Seq<u8>, levels: nat)
    requires
        well_formed(f),
        nests_within(f, levels),
    ensures
        parse_body(tag_of(f), content_of(f), body_of(f) + rest, levels) == Ok::<
            (Frame, int),
            DecodeError,
        >((f, body_of(f).len() as int)),
    decreases f, 0nat,
{
    let tail = body_of(f) + rest;
    if !is_counted(tag_of(f)) {
        lemma_scalar_round_trip(f);
    } else {
        lemma_count_round_trip(f);
        match f {
            Frame::BulkString(bytes) => {
                let n = bytes.len() as int;
                assert(tail[n] == crlf()[0]);
                assert(tail[n + 1] == crlf()[1]);
                assert(tail.take(n) =~= bytes);
            },
            Frame::Array(items) => {
                lemma_items_round_trip(items, rest, (levels - 1) as nat);
            },
            Frame::Mapping(entries) => {
                lemma_entries_round_trip(entries, rest, (levels - 1) as nat);
                lemma_keyed_keeps(entries);
            },
            Frame::Distinct(members) => {
                lemma_items_round_trip(members, rest, (levels - 1) as nat);
                lemma_distinct_keeps(members);
            },
            _ => {},
        }
    }
}

/// Decoding the bytes of well-formed frames written one after the other
/// gives the frames back and takes exactly those bytes.
pub proof fn lemma_items_round_trip(items: Seq<Frame>, rest: Seq<u8>, levels: nat)
    requires
        forall|i: int| 0 <= i < items.len() ==> well_formed(items[i]),
        forall|i: int| 0 <= i < items.len() ==> nests_within(items[i], levels),
    ensures
        parse_items(wire_all(items) + rest, items.len(), levels) == Ok::<
            (Seq<Frame>, int),
            DecodeError,
        >((items, wire_all(items).len() as int)),
    decreases items, 0nat,
{
    if items.len() == 0 {
        assert(items =~= Seq::<Frame>::empty());
    } else {
        let first = items[0];
        let others = items.drop_first();
        let s = wire_all(items) + rest;
        let a = wire(first).len() as int;
        assert(s =~= wire(first) + (wire_all(others) + rest));
        lemma_round_trip(first, wire_all(others) + rest, levels);
        assert(s.skip(a) =~= wire_all(others) + rest);
        assert forall|i: int| 0 <= i < others.len() implies well_formed(others[i]) && nests_within(
            others[i],
            levels,
        ) by {
            assert(others[i] == items[i + 1]);
        }
        lemma_items_round_trip(others, rest, levels);
        assert(seq![first] + others =~= items);
    }
}

/// Decoding a well-formed map entry gives its key and its value back and
/// takes exactly their bytes.
pub proof fn lemma_entry_round_trip(key: Seq<char>, value: Frame, tail: Seq<u8>, levels: nat)
    requires
        is_line_text(key),
        well_formed(value),
        nests_within(value, levels),
    ensures
        parse_entry(text_line(key) + wire(value) + tail, levels) == Ok::<
            ((Seq<char>, Frame), int),
            DecodeError,
        >(((key, value), (text_line(key).len() + wire(value).len()) as int)),
    decreases value, 2nat,
{
    let s = text_line(key) + wire(value) + tail;
    let a = text_line(key).len() as int;
    assert(s =~= text_line(key) + (wire(value) + tail));
    lemma_key_round_trip(key, wire(value) + tail);
    assert(s.skip(a) =~= wire(value) + tail);
    lemma_round_trip(value, tail, levels);
}

/// Decoding the bytes of well-formed map entries written one after the other
/// gives the entries back and takes exactly those bytes.
pub proof fn lemma_entries_round_trip(
    entries: Seq<(Seq<char>, Frame)>,
    rest: Seq<u8>,
    levels: nat,
)
    requires
        forall|i: int| 0 <= i < entries.len() ==> is_line_text(entries[i].0),
        forall|i: int| 0 <= i < entries.len() ==> well_formed(entries[i].1),
        forall|i: int| 0 <= i < entries.len() ==> nests_within(entries[i].1, levels),
    ensures
        parse_entries(wire_entries(entries) + rest, entries.len(), levels) == Ok::<
            (Seq<(Seq<char>, Frame)>, int),
            DecodeError,
        >((entries, wire_entries(entries).len() as int)),
    decreases entries, 0nat,
{
    if entries.len() == 0 {
        assert(entries =~= Seq::<(Seq<char>, Frame)>::empty());
    } else {
        let key = entries[0].0;
        let value = entries[0].1;
        let others = entries.drop_first();
        let tail = wire_entries(others) + rest;
        let s = wire_entries(entries) + rest;
        assert(s =~= text_line(key) + wire(value) + tail);
        lemma_entry_round_trip(key, value, tail, levels);
        assert(s.skip((text_line(key).len() + wire(value).len()) as int) =~= tail);
        assert forall|i: int| 0 <= i < others.len() implies is_line_text(others[i].0)
            && well_formed(others[i].1) && nests_within(others[i].1, levels) by {
            assert(others[i] == entries[i + 1]);
        }
        lemma_entries_round_trip(others, rest, levels);
        assert(seq![(key, value)] + others =~= entries);
        assert((key, value) == entries[0]);
    }
}

/// Members of which no two are equal stay as they are when they are offered
/// to a set one after the other.
pub proof fn lemma_distinct_keeps(members: Seq<Frame>)
    requires
        pairwise_distinct(members),
    ensures
        distinct(members) == members,
    decreases members.len(),
{
    if members.len() == 0 {
        assert(distinct(members) =~= members);
    } else {
        let front = members.drop_last();
        let last = members.last();
        assert forall|i: int, j: int| 0 <= i < j < front.len() implies !same(
            front[i],
            front[j],
        ) by {
            assert(front[i] == members[i] && front[j] == members[j]);
        }
        lemma_distinct_keeps(front);
        assert(!has_member(front, last)) by {
            assert forall|j: int| 0 <= j < front.len() implies !same(#[trigger] front[j], last) by {
                assert(front[j] == members[j]);
                assert(!same(members[j], members[members.len() - 1]));
            }
        }
        assert(front.push(last) =~= members);
    }
}

/// Entries of which no two have the same key stay as they are when they are
/// put into a map one after the other.
pub proof fn lemma_keyed_keeps(entries: Seq<(Seq<char>, Frame)>)
    requires
        unique_keys(entries),
    ensures
        keyed(entries) == entries,
    decreases entries.len(),
{
    if entries.len() == 0 {
        assert(keyed(entries) =~= entries);
    } else {
        let front = entries.drop_last();
        let last = entries.last();
        assert forall|i: int, j: int| 0 <= i < j < front.len() implies front[i].0 != front[j].0 by {
            assert(front[i] == entries[i] && front[j] == entries[j]);
        }
        lemma_keyed_keeps(front);
        assert forall|i: int| 0 <= i < front.len() implies (#[trigger] front[i]).0 != last.0 by {
            assert(front[i] == entries[i]);
            assert(entries[i].0 != entries[entries.len() - 1].0);
        }
        lemma_key_index_is(front, last.0, front.len() as int);
        assert(front.push((last.0, last.1)) =~= entries);
    }
}

} // verus!
