//! Decoding a part of what was encoded asks for more data.
use vstd::prelude::*;
use crate::resp::decode::{DecodeError, parse, parse_body, parse_entries, parse_entry, parse_items};
use crate::resp::encode::{line, text_line, wire, wire_all, wire_entries};
use crate::resp::laws::parts::{
    body_of, content_of, lemma_content_is_one_line, lemma_count_round_trip, lemma_key_partial,
    lemma_key_round_trip, lemma_parse_line, lemma_parse_line_partial, lemma_wire_parts, tag_of,
};
use crate::resp::laws::round_trip::{lemma_entry_round_trip, lemma_round_trip};
use crate::resp::model::{Frame, is_line_text, nests_within, well_formed};

verus! {

/// Decoding any part of the bytes of a well-formed frame that stops short of
/// their end asks for more data.
pub proof fn lemma_partial(f: Frame, k: int, levels: nat)
    requires
        well_formed(f),
        nests_within(f, levels),
        0 <= k < wire(f).len(),
    ensures
        parse(wire(f).take(k), levels) == Err::<(Frame, int), DecodeError>(
            DecodeError::NeedMoreData,
        ),
    decreases f, 1nat,
{
    let tag = tag_of(f);
    let content = content_of(f);
    let body = body_of(f);
    let head = content.len() as int + 3;
    lemma_wire_parts(f);
    lemma_content_is_one_line(f);
    if k < head {
        assert(wire(f).take(k) =~= line(tag, content).take(k));
        lemma_parse_line_partial(tag, content, k, levels);
    } else {
        let m = k - head;
        assert(wire(f).take(k) =~= line(tag, content) + body.take(m));
        lemma_parse_line(tag, content, body.take(m), levels);
        lemma_body_partial(f, m, levels);
    }
}

/// Where the bytes of a well-formed frame arrive in two parts, decoding the
/// first part asks for more data, and decoding the two together gives the
/// frame back and takes all the bytes.
pub proof fn lemma_split_buffer(f: Frame, k: int, levels: nat)
    requires
        well_formed(f),
        nests_within(f, levels),
        0 <= k < wire(f).len(),
    ensures
        parse(wire(f).take(k), levels) == Err::<(Frame, int), DecodeError>(
            DecodeError::NeedMoreData,
        ),
        parse(wire(f).take(k) + wire(f).skip(k), levels) == Ok::<(Frame, int), DecodeError>(
            (f, wire(f).len() as int),
        ),
{
    lemma_partial(f, k, levels);
    assert(wire(f).take(k) + wire(f).skip(k) =~= wire(f) + Seq::<u8>::empty());
    lemma_round_trip(f, Seq::empty(), levels);
}

/// After the first line of a well-formed frame, decoding any part of its body
/// that stops short of the end asks for more data.
pub proof fn lemma_body_partial(f: Frame, m: int, levels: nat)
    requires
        well_formed(f),
        nests_within(f, levels),
        0 <= m < body_of(f).len(),
    ensures
        parse_body(tag_of(f), content_of(f), body_of(f).take(m), levels) == Err::<
            (Frame, int),
            DecodeError,
        >(DecodeError::NeedMoreData),
    decreases f, 0nat,
{
    match f {
        Frame::BulkString(bytes) => {
            lemma_count_round_trip(f);
        },
        Frame::Array(items) => {
            lemma_count_round_trip(f);
            lemma_items_partial(items, m, (levels - 1) as nat);
        },
        Frame::Mapping(entries) => {
            lemma_count_round_trip(f);
            lemma_entries_partial(entries, m, (levels - 1) as nat);
        },
        Frame::Distinct(members) => {
            lemma_count_round_trip(f);
            lemma_items_partial(members, m, (levels - 1) as nat);
        },
        _ => {},
    }
}

/// Decoding any part of the bytes of well-formed frames written one after
/// the other that stops short of their end asks for more data.
pub proof fn lemma_items_partial(items: Seq<Frame>, m: int, levels: nat)
    requires
        forall|i: int| 0 <= i < items.len() ==> well_formed(items[i]),
        forall|i: int| 0 <= i < items.len() ==> nests_within(items[i], levels),
        0 <= m < wire_all(items).len(),
    ensures
        parse_items(wire_all(items).take(m), items.len(), levels) == Err::<
            (Seq<Frame>, int),
            DecodeError,
        >(DecodeError::NeedMoreData),
    decreases items, 0nat,
{
    let first = items[0];
    let others = items.drop_first();
    let s = wire_all(items).take(m);
    let a = wire(first).len() as int;
    if m < a {
        assert(s =~= wire(first).take(m));
        lemma_partial(first, m, levels);
    } else {
        let tail = wire_all(others).take(m - a);
        assert(s =~= wire(first) + tail);
        lemma_round_trip(first, tail, levels);
        assert(s.skip(a) =~= tail);
        assert forall|i: int| 0 <= i < others.len() implies well_formed(others[i]) && nests_within(
            others[i],
            levels,
        ) by {
            assert(others[i] == items[i + 1]);
        }
        lemma_items_partial(others, m - a, levels);
    }
}

/// Decoding any part of the bytes of a well-formed map entry that stops
/// short of their end asks for more data.
pub proof fn lemma_entry_partial(key: Seq<char>, value: Frame, m: int, levels: nat)
    requires
        is_line_text(key),
        well_formed(value),
        nests_within(value, levels),
        0 <= m < text_line(key).len() + wire(value).len(),
    ensures
        parse_entry((text_line(key) + wire(value)).take(m), levels) == Err::<
            ((Seq<char>, Frame), int),
            DecodeError,
        >(DecodeError::NeedMoreData),
    decreases value, 2nat,
{
    let s = (text_line(key) + wire(value)).take(m);
    let a = text_line(key).len() as int;
    if m < a {
        assert(s =~= text_line(key).take(m));
        lemma_key_partial(key, m);
    } else {
        let part = wire(value).take(m - a);
        assert(s =~= text_line(key) + part);
        lemma_key_round_trip(key, part);
        assert(s.skip(a) =~= part);
        lemma_partial(value, m - a, levels);
    }
}

/// Decoding any part of the bytes of well-formed map entries written one
/// after the other that stops short of their end asks for more data.
pub proof fn lemma_entries_partial(entries: Seq<(Seq<char>, Frame)>, m: int, levels: nat)
    requires
        forall|i: int| 0 <= i < entries.len() ==> is_line_text(entries[i].0),
        forall|i: int| 0 <= i < entries.len() ==> well_formed(entries[i].1),
        forall|i: int| 0 <= i < entries.len() ==> nests_within(entries[i].1, levels),
        0 <= m < wire_entries(entries).len(),
    ensures
        parse_entries(wire_entries(entries).take(m), entries.len(), levels) == Err::<
            (Seq<(Seq<char>, Frame)>, int),
            DecodeError,
        >(DecodeError::NeedMoreData),
    decreases entries, 0nat,
{
    let key = entries[0].0;
    let value = entries[0].1;
    let others = entries.drop_first();
    let s = wire_entries(entries).take(m);
    let first = text_line(key) + wire(value);
    if m < first.len() {
        assert(s =~= first.take(m));
        lemma_entry_partial(key, value, m, levels);
    } else {
        let tail = wire_entries(others).take(m - first.len());
        assert(s =~= text_line(key) + wire(value) + tail);
        lemma_entry_round_trip(key, value, tail, levels);
        assert(s.skip(first.len() as int) =~= tail);
        assert forall|i: int| 0 <= i < others.len() implies is_line_text(others[i].0)
            && well_formed(others[i].1) && nests_within(others[i].1, levels) by {
            assert(others[i] == entries[i + 1]);
        }
        lemma_entries_partial(others, m - first.len(), levels);
    }
}

} // verus!
