//! What the decoder yields is well-formed.
use vstd::prelude::*;
use crate::resp::decode::{
    distinct, is_counted, is_tag, keyed, parse, parse_body, parse_count, parse_entries, parse_entry,
    parse_items, parse_key, parse_text,
};
use crate::resp::encode::{TAG_BULK_STRING, TAG_ERROR, TAG_MAP, TAG_SET, TAG_SIMPLE_STRING};
use crate::resp::line::{has_line_break, is_line_break, lemma_first_break, scan_line};
use crate::resp::model::{
    Frame, is_line_text, key_index, lemma_key_index, lemma_map_insert_unique,
    lemma_set_insert_distinct, nests_within, pairwise_distinct, unique_keys, well_formed,
};
use crate::resp::text::lemma_line_text_bytes;
use vstd::utf8::{decode_utf8, decode_utf8_encode_utf8, valid_utf8};

verus! {

/// The decoder yields only well-formed frames that nest no deeper than it may
/// go, and takes at least one byte and no more than the buffer holds.
pub proof fn lemma_parse_sound(s: Seq<u8>, levels: nat)
    ensures
        parse(s, levels) matches Ok((f, taken)) ==> well_formed(f) && nests_within(f, levels) && 0
            < taken <= s.len(),
    decreases levels, 1nat,
{
    if s.len() > 0 && is_tag(s[0]) {
        let opening = s.skip(1);
        if let Ok(k) = scan_line(opening) {
            let content = s.subrange(1, 1 + k);
            lemma_first_break(opening);
            assert forall|i: int| 0 <= i < content.len() implies !is_line_break(
                #[trigger] content[i],
            ) by {
                assert(content[i] == opening[i]);
            }
            lemma_parse_body_sound(s[0], content, s.skip(k + 3), levels);
        }
    }
}

/// After a first line, the decoder yields only well-formed frames that nest
/// no deeper than it may go, and takes no more than what follows the line.
pub proof fn lemma_parse_body_sound(tag: u8, content: Seq<u8>, rest: Seq<u8>, levels: nat)
    requires
        is_tag(tag),
        !has_line_break(content),
    ensures
        parse_body(tag, content, rest, levels) matches Ok((f, taken)) ==> well_formed(f)
            && nests_within(f, levels) && 0 <= taken <= rest.len(),
    decreases levels, 0nat,
{
    if !is_counted(tag) {
        if tag == TAG_SIMPLE_STRING {
            lemma_parsed_text_is_line_text(content);
        } else if tag == TAG_ERROR {
            if content.len() >= 6 {
                lemma_skip_is_one_line(content, 6);
                lemma_parsed_text_is_line_text(content.skip(6));
            }
        }
    } else if let Ok(n) = parse_count(content) {
        if n >= 0 && tag != TAG_BULK_STRING && levels > 0 {
            let below = (levels - 1) as nat;
            if tag == TAG_MAP {
                lemma_parse_entries_sound(rest, n as nat, below);
                if let Ok((pairs, taken)) = parse_entries(rest, n as nat, below) {
                    let entries = keyed(pairs);
                    lemma_keyed_entries(pairs);
                    assert forall|i: int| 0 <= i < entries.len() implies is_line_text(entries[i].0)
                        && well_formed(entries[i].1) && nests_within(entries[i].1, below) by {
                        let j = choose|j: int| 0 <= j < pairs.len() && pairs[j] == entries[i];
                        assert(is_line_text(pairs[j].0));
                    }
                }
            } else {
                lemma_parse_items_sound(rest, n as nat, below);
                if let Ok((items, taken)) = parse_items(rest, n as nat, below) {
                    if tag == TAG_SET {
                        let members = distinct(items);
                        lemma_distinct_members(items);
                        assert forall|i: int| 0 <= i < members.len() implies well_formed(members[i])
                            && nests_within(members[i], below) by {
                            let j = choose|j: int| 0 <= j < items.len() && items[j] == members[i];
                            assert(well_formed(items[j]));
                        }
                    }
                }
            }
        }
    }
}

/// Of frames decoded one after the other there are as many as were asked
/// for, each is well-formed and nests no deeper than the decoder may go, and
/// together they take no more than the buffer holds.
pub proof fn lemma_parse_items_sound(s: Seq<u8>, n: nat, levels: nat)
    ensures
        parse_items(s, n, levels) matches Ok((items, taken)) ==> {
            &&& items.len() == n
            &&& 0 <= taken <= s.len()
            &&& forall|i: int| 0 <= i < items.len() ==> well_formed(#[trigger] items[i])
            &&& forall|i: int| 0 <= i < items.len() ==> nests_within(#[trigger] items[i], levels)
        },
    decreases levels, n + 3,
{
    if n > 0 {
        lemma_parse_sound(s, levels);
        if let Ok((first, a)) = parse(s, levels) {
            lemma_parse_items_sound(s.skip(a), (n - 1) as nat, levels);
            if let Ok((others, b)) = parse_items(s.skip(a), (n - 1) as nat, levels) {
                let items = seq![first] + others;
                assert forall|i: int| 0 <= i < items.len() implies well_formed(#[trigger] items[i])
                    && nests_within(items[i], levels) by {
                    if i > 0 {
                        assert(items[i] == others[i - 1]);
                    }
                }
            }
        }
    }
}

/// A map entry that the decoder yields has a key that can stand on one line
/// and a well-formed value that nests no deeper than the decoder may go, and
/// takes at least one byte and no more than the buffer holds.
pub proof fn lemma_parse_entry_sound(s: Seq<u8>, levels: nat)
    ensures
        parse_entry(s, levels) matches Ok((pair, taken)) ==> {
            &&& is_line_text(pair.0)
            &&& well_formed(pair.1)
            &&& nests_within(pair.1, levels)
            &&& 0 < taken <= s.len()
        },
    decreases levels, 2nat,
{
    if let Ok((key, a)) = parse_key(s) {
        let opening = s.skip(1);
        let k = scan_line(opening)->Ok_0;
        let content = s.subrange(1, 1 + k);
        lemma_first_break(opening);
        assert forall|i: int| 0 <= i < content.len() implies !is_line_break(
            #[trigger] content[i],
        ) by {
            assert(content[i] == opening[i]);
        }
        lemma_parsed_text_is_line_text(content);
        lemma_parse_sound(s.skip(a), levels);
    }
}

/// Of map entries decoded one after the other there are as many as were
/// asked for, each has a key that can stand on one line and a well-formed
/// value that nests no deeper than the decoder may go, and together they take
/// no more than the buffer holds.
pub proof fn lemma_parse_entries_sound(s: Seq<u8>, n: nat, levels: nat)
    ensures
        parse_entries(s, n, levels) matches Ok((pairs, taken)) ==> {
            &&& pairs.len() == n
            &&& 0 <= taken <= s.len()
            &&& forall|i: int| 0 <= i < pairs.len() ==> is_line_text((#[trigger] pairs[i]).0)
            &&& forall|i: int| 0 <= i < pairs.len() ==> well_formed((#[trigger] pairs[i]).1)
            &&& forall|i: int|
                0 <= i < pairs.len() ==> nests_within((#[trigger] pairs[i]).1, levels)
        },
    decreases levels, n + 3,
{
    if n > 0 {
        lemma_parse_entry_sound(s, levels);
        if let Ok((first, a)) = parse_entry(s, levels) {
            lemma_parse_entries_sound(s.skip(a), (n - 1) as nat, levels);
            if let Ok((others, b)) = parse_entries(s.skip(a), (n - 1) as nat, levels) {
                let pairs = seq![first] + others;
                assert forall|i: int| 0 <= i < pairs.len() implies is_line_text(
                    (#[trigger] pairs[i]).0,
                ) && well_formed(pairs[i].1) && nests_within(pairs[i].1, levels) by {
                    if i > 0 {
                        assert(pairs[i] == others[i - 1]);
                    }
                }
            }
        }
    }
}

/// A text read from bytes without CR or LF can stand on one line.
pub proof fn lemma_parsed_text_is_line_text(content: Seq<u8>)
    requires
        !has_line_break(content),
    ensures
        parse_text(content) matches Ok(text) ==> is_line_text(text),
{
    if valid_utf8(content) {
        decode_utf8_encode_utf8(content);
        lemma_line_text_bytes(decode_utf8(content));
    }
}

/// What is left of a sequence without CR or LF after its start holds none either.
pub proof fn lemma_skip_is_one_line(s: Seq<u8>, n: int)
    requires
        !has_line_break(s),
        0 <= n <= s.len(),
    ensures
        !has_line_break(s.skip(n)),
{
    let t = s.skip(n);
    assert forall|i: int| 0 <= i < t.len() implies !is_line_break(#[trigger] t[i]) by {
        assert(t[i] == s[n + i]);
    }
}

/// Offering frames to a set one after the other gives members of which no
/// two are equal, each of them one of the frames.
pub proof fn lemma_distinct_members(items: Seq<Frame>)
    ensures
        distinct(items).len() <= items.len(),
        pairwise_distinct(distinct(items)),
        forall|i: int|
            0 <= i < distinct(items).len() ==> exists|j: int|
                0 <= j < items.len() && items[j] == #[trigger] distinct(items)[i],
    decreases items.len(),
{
    if items.len() > 0 {
        let front = items.drop_last();
        let before = distinct(front);
        let members = distinct(items);
        lemma_distinct_members(front);
        lemma_set_insert_distinct(before, items.last());
        assert forall|i: int| 0 <= i < members.len() implies exists|j: int|
            0 <= j < items.len() && items[j] == #[trigger] members[i] by {
            if i < before.len() {
                let j = choose|j: int| 0 <= j < front.len() && front[j] == before[i];
                assert(items[j] == members[i]);
            } else {
                assert(items[items.len() - 1] == members[i]);
            }
        }
    }
}

/// Putting pairs into a map one after the other gives entries of which no
/// two have the same key, each of them one of the pairs.
pub proof fn lemma_keyed_entries(pairs: Seq<(Seq<char>, Frame)>)
    ensures
        keyed(pairs).len() <= pairs.len(),
        unique_keys(keyed(pairs)),
        forall|i: int|
            0 <= i < keyed(pairs).len() ==> exists|j: int|
                0 <= j < pairs.len() && pairs[j] == #[trigger] keyed(pairs)[i],
    decreases pairs.len(),
{
    if pairs.len() > 0 {
        let front = pairs.drop_last();
        let last = pairs.last();
        let before = keyed(front);
        let entries = keyed(pairs);
        let at = key_index(before, last.0);
        lemma_keyed_entries(front);
        lemma_map_insert_unique(before, last.0, last.1);
        lemma_key_index(before, last.0);
        assert((last.0, last.1) == last);
        assert forall|i: int| 0 <= i < entries.len() implies exists|j: int|
            0 <= j < pairs.len() && pairs[j] == #[trigger] entries[i] by {
            if i == at {
                assert(pairs[pairs.len() - 1] == entries[i]);
            } else {
                let j = choose|j: int| 0 <= j < front.len() && front[j] == before[i];
                assert(pairs[j] == entries[i]);
            }
        }
    }
}

} // verus!
