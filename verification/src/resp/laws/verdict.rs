//! A frame or a protocol error, once found, stays.
use vstd::prelude::*;
use crate::resp::decode::{
    DecodeError, is_counted, is_tag, parse, parse_body, parse_count, parse_entries, parse_entry,
    parse_items, parse_key,
};
use crate::resp::encode::{TAG_BULK_STRING, TAG_MAP, TAG_SIMPLE_STRING};
use crate::resp::laws::sound::{lemma_parse_entry_sound, lemma_parse_sound};
use crate::resp::line::{lemma_first_break, lemma_scan_line_final, scan_line};
use crate::resp::model::Frame;

verus! {

/// A verdict other than the request for more data is final: bytes that
/// arrive later change neither the frame and the number of bytes that it
/// took, nor the protocol error.
pub proof fn lemma_verdict_is_final(s: Seq<u8>, more: Seq<u8>, levels: nat)
    requires
        parse(s, levels) != Err::<(Frame, int), DecodeError>(DecodeError::NeedMoreData),
    ensures
        parse(s + more, levels) == parse(s, levels),
    decreases levels, 1nat,
{
    let all = s + more;
    assert(all[0] == s[0]);
    if is_tag(s[0]) {
        assert(all.skip(1) =~= s.skip(1) + more);
        lemma_scan_line_final(s.skip(1), more);
        if let Ok(k) = scan_line(s.skip(1)) {
            lemma_first_break(s.skip(1));
            assert(all.subrange(1, 1 + k) =~= s.subrange(1, 1 + k));
            assert(all.skip(k + 3) =~= s.skip(k + 3) + more);
            lemma_body_verdict_is_final(s[0], s.subrange(1, 1 + k), s.skip(k + 3), more, levels);
        }
    }
}

/// After a first line, a verdict other than the request for more data is
/// final.
pub proof fn lemma_body_verdict_is_final(
    tag: u8,
    content: Seq<u8>,
    rest: Seq<u8>,
    more: Seq<u8>,
    levels: nat,
)
    requires
        parse_body(tag, content, rest, levels) != Err::<(Frame, int), DecodeError>(
            DecodeError::NeedMoreData,
        ),
    ensures
        parse_body(tag, content, rest + more, levels) == parse_body(tag, content, rest, levels),
    decreases levels, 0nat,
{
    if is_counted(tag) {
        if let Ok(n) = parse_count(content) {
            if n >= 0 {
                if tag == TAG_BULK_STRING {
                    let all = rest + more;
                    assert(all[n] == rest[n]);
                    assert(all[n + 1] == rest[n + 1]);
                    assert(all.take(n) =~= rest.take(n));
                } else if levels > 0 {
                    if tag == TAG_MAP {
                        lemma_entries_verdict_is_final(rest, more, n as nat, (levels - 1) as nat);
                    } else {
                        lemma_items_verdict_is_final(rest, more, n as nat, (levels - 1) as nat);
                    }
                }
            }
        }
    }
}

/// Of frames decoded one after the other, a verdict other than the request
/// for more data is final.
pub proof fn lemma_items_verdict_is_final(s: Seq<u8>, more: Seq<u8>, n: nat, levels: nat)
    requires
        parse_items(s, n, levels) != Err::<(Seq<Frame>, int), DecodeError>(
            DecodeError::NeedMoreData,
        ),
    ensures
        parse_items(s + more, n, levels) == parse_items(s, n, levels),
    decreases levels, n + 3,
{
    if n > 0 {
        lemma_verdict_is_final(s, more, levels);
        if let Ok((first, a)) = parse(s, levels) {
            lemma_parse_sound(s, levels);
            assert((s + more).skip(a) =~= s.skip(a) + more);
            lemma_items_verdict_is_final(s.skip(a), more, (n - 1) as nat, levels);
        }
    }
}

/// Once a key is read, or found to be none, bytes that arrive later change
/// nothing.
pub proof fn lemma_key_verdict_is_final(s: Seq<u8>, more: Seq<u8>)
    requires
        parse_key(s) != Err::<(Seq<char>, int), DecodeError>(DecodeError::NeedMoreData),
    ensures
        parse_key(s + more) == parse_key(s),
        parse_key(s) matches Ok((_, taken)) ==> 0 < taken <= s.len(),
{
    let all = s + more;
    assert(all[0] == s[0]);
    if s[0] == TAG_SIMPLE_STRING {
        assert(all.skip(1) =~= s.skip(1) + more);
        lemma_scan_line_final(s.skip(1), more);
        if let Ok(k) = scan_line(s.skip(1)) {
            lemma_first_break(s.skip(1));
            assert(all.subrange(1, 1 + k) =~= s.subrange(1, 1 + k));
        }
    }
}

/// Of one map entry, a verdict other than the request for more data is
/// final.
pub proof fn lemma_entry_verdict_is_final(s: Seq<u8>, more: Seq<u8>, levels: nat)
    requires
        parse_entry(s, levels) != Err::<((Seq<char>, Frame), int), DecodeError>(
            DecodeError::NeedMoreData,
        ),
    ensures
        parse_entry(s + more, levels) == parse_entry(s, levels),
    decreases levels, 2nat,
{
    lemma_key_verdict_is_final(s, more);
    if let Ok((key, a)) = parse_key(s) {
        assert((s + more).skip(a) =~= s.skip(a) + more);
        lemma_verdict_is_final(s.skip(a), more, levels);
    }
}

/// Of map entries decoded one after the other, a verdict other than the
/// request for more data is final.
pub proof fn lemma_entries_verdict_is_final(s: Seq<u8>, more: Seq<u8>, n: nat, levels: nat)
    requires
        parse_entries(s, n, levels) != Err::<(Seq<(Seq<char>, Frame)>, int), DecodeError>(
            DecodeError::NeedMoreData,
        ),
    ensures
        parse_entries(s + more, n, levels) == parse_entries(s, n, levels),
    decreases levels, n + 3,
{
    if n > 0 {
        lemma_entry_verdict_is_final(s, more, levels);
        if let Ok((first, a)) = parse_entry(s, levels) {
            lemma_parse_entry_sound(s, levels);
            assert((s + more).skip(a) =~= s.skip(a) + more);
            lemma_entries_verdict_is_final(s.skip(a), more, (n - 1) as nat, levels);
        }
    }
}

} // verus!
