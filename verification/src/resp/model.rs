//! What a frame is, as a mathematical value, and what makes one valid.
use vstd::prelude::*;
use crate::resp::double::is_double_text;

verus! {

/// The value of a frame: what a `RespFrame` stands for in contracts.
pub enum Frame {
    /// A status text.
    SimpleString(Seq<char>),
    /// An error message.
    Error(Seq<char>),
    /// A signed integer of 64 bits.
    Integer(i64),
    /// Arbitrary bytes.
    BulkString(Seq<u8>),
    /// The absent string.
    NullBulkString,
    /// Frames in order.
    Array(Seq<Frame>),
    /// The absent array.
    NullArray,
    /// The null that is neither string nor array.
    Null,
    /// True or false.
    Boolean(bool),
    /// A double, by the text of its literal: a sign and a magnitude.
    Double(Seq<u8>),
    /// Keyed entries, in the order in which they are written.
    Mapping(Seq<(Seq<char>, Frame)>),
    /// Members without repetition, in the order in which they are written.
    Distinct(Seq<Frame>),
}

/// Whether two frames are equal as values. Arrays and maps are compared in
/// order; two sets are equal when each holds every member of the other,
/// whatever the order.
pub open spec fn same(a: Frame, b: Frame) -> bool
    decreases a, 0nat,
{
    match (a, b) {
        (Frame::Array(x), Frame::Array(y)) => {
            &&& x.len() == y.len()
            &&& forall|i: int| 0 <= i < x.len() ==> same(x[i], y[i])
        },
        (Frame::Mapping(x), Frame::Mapping(y)) => {
            &&& x.len() == y.len()
            &&& forall|i: int| 0 <= i < x.len() ==> x[i].0 == y[i].0 && same(x[i].1, y[i].1)
        },
        (Frame::Distinct(x), Frame::Distinct(y)) => all_found(x, y) && all_matched(x, y),
        (Frame::Array(_), _) | (Frame::Mapping(_), _) | (Frame::Distinct(_), _) => false,
        _ => a == b,
    }
}

/// Whether `members` holds a frame that `x` is equal to.
pub open spec fn is_found(x: Frame, members: Seq<Frame>) -> bool
    decreases x, 1nat,
{
    exists|j: int| 0 <= j < members.len() && same(x, #[trigger] members[j])
}

/// Whether `members` holds a frame equal to `x`.
pub open spec fn has_member(members: Seq<Frame>, x: Frame) -> bool
    decreases members, 0nat,
{
    exists|j: int| 0 <= j < members.len() && same(#[trigger] members[j], x)
}

/// Whether every frame of `xs` is equal to one of `ys`.
pub open spec fn all_found(xs: Seq<Frame>, ys: Seq<Frame>) -> bool
    decreases xs, 0nat,
{
    forall|i: int| 0 <= i < xs.len() ==> is_found(#[trigger] xs[i], ys)
}

/// Whether every frame of `ys` has one of `xs` that is equal to it.
pub open spec fn all_matched(xs: Seq<Frame>, ys: Seq<Frame>) -> bool
    decreases xs, 1nat,
{
    forall|j: int| 0 <= j < ys.len() ==> has_member(xs, #[trigger] ys[j])
}

/// The members of a set after `x` was offered to it: unchanged where an equal
/// member is there already, else with `x` at the end.
pub open spec fn set_insert(members: Seq<Frame>, x: Frame) -> Seq<Frame> {
    if has_member(members, x) {
        members
    } else {
        members.push(x)
    }
}

/// The index of the first entry under `key`, or `entries.len()` where there
/// is none.
pub open spec fn key_index(entries: Seq<(Seq<char>, Frame)>, key: Seq<char>) -> int
    decreases entries.len(),
{
    if entries.len() == 0 || entries[0].0 == key {
        0
    } else {
        1 + key_index(entries.drop_first(), key)
    }
}

/// The entries of a map after `value` was put under `key`: in the place of
/// the entry that had the key, or at the end where none had.
pub open spec fn map_insert(entries: Seq<(Seq<char>, Frame)>, key: Seq<char>, value: Frame) -> Seq<
    (Seq<char>, Frame),
> {
    let j = key_index(entries, key);
    if j < entries.len() {
        entries.update(j, (key, value))
    } else {
        entries.push((key, value))
    }
}

/// Whether no two of `members` are equal.
pub open spec fn pairwise_distinct(members: Seq<Frame>) -> bool {
    forall|i: int, j: int| 0 <= i < j < members.len() ==> !same(members[i], members[j])
}

/// Whether no two of `entries` have the same key.
pub open spec fn unique_keys(entries: Seq<(Seq<char>, Frame)>) -> bool {
    forall|i: int, j: int| 0 <= i < j < entries.len() ==> entries[i].0 != entries[j].0
}

/// Whether `c` is the character CR or the character LF.
pub open spec fn is_line_break_char(c: char) -> bool {
    c == '\r' || c == '\n'
}

/// A text that can stand on one line: it holds neither CR nor LF.
pub open spec fn is_line_text(text: Seq<char>) -> bool {
    forall|i: int| 0 <= i < text.len() ==> !is_line_break_char(#[trigger] text[i])
}

/// The largest length or count that can be written on the wire.
pub open spec fn max_count() -> int {
    i64::MAX as int
}

/// Whether a frame meets the invariants of the data model: texts and keys
/// without CR or LF, a double that is a literal, no key twice in a map, no
/// two equal members in a set, and no length beyond what a count can hold.
pub open spec fn well_formed(f: Frame) -> bool
    decreases f,
{
    match f {
        Frame::SimpleString(text) => is_line_text(text),
        Frame::Error(text) => is_line_text(text),
        Frame::BulkString(bytes) => bytes.len() <= max_count(),
        Frame::Double(text) => is_double_text(text),
        Frame::Array(items) => {
            &&& items.len() <= max_count()
            &&& forall|i: int| 0 <= i < items.len() ==> well_formed(items[i])
        },
        Frame::Mapping(entries) => {
            &&& entries.len() <= max_count()
            &&& forall|i: int|
                0 <= i < entries.len() ==> is_line_text(entries[i].0) && well_formed(entries[i].1)
            &&& unique_keys(entries)
        },
        Frame::Distinct(members) => {
            &&& members.len() <= max_count()
            &&& forall|i: int| 0 <= i < members.len() ==> well_formed(members[i])
            &&& pairwise_distinct(members)
        },
        _ => true,
    }
}

/// Whether arrays, maps and sets are nested in `f` at most `levels` deep. A
/// frame that is none of the three nests zero levels.
pub open spec fn nests_within(f: Frame, levels: nat) -> bool
    decreases f,
{
    match f {
        Frame::Array(items) => {
            &&& levels > 0
            &&& forall|i: int|
                0 <= i < items.len() ==> nests_within(#[trigger] items[i], (levels - 1) as nat)
        },
        Frame::Mapping(entries) => {
            &&& levels > 0
            &&& forall|i: int|
                0 <= i < entries.len() ==> nests_within((#[trigger] entries[i]).1, (levels - 1) as nat)
        },
        Frame::Distinct(members) => {
            &&& levels > 0
            &&& forall|i: int|
                0 <= i < members.len() ==> nests_within(#[trigger] members[i], (levels - 1) as nat)
        },
        _ => true,
    }
}

/// `key_index(entries, key)` is in range, no entry before it has the key,
/// and the entry at it, if any, has.
pub proof fn lemma_key_index(entries: Seq<(Seq<char>, Frame)>, key: Seq<char>)
    ensures
        0 <= key_index(entries, key) <= entries.len(),
        forall|i: int| 0 <= i < key_index(entries, key) ==> (#[trigger] entries[i]).0 != key,
        key_index(entries, key) < entries.len() ==> entries[key_index(entries, key)].0 == key,
    decreases entries.len(),
{
    if entries.len() == 0 || entries[0].0 == key {
    } else {
        let t = entries.drop_first();
        lemma_key_index(t, key);
        assert forall|i: int| 0 <= i < key_index(entries, key) implies (#[trigger] entries[i]).0
            != key by {
            if i > 0 {
                assert(entries[i] == t[i - 1]);
            }
        }
    }
}

/// An index with the properties of `key_index` is `key_index`.
pub proof fn lemma_key_index_is(entries: Seq<(Seq<char>, Frame)>, key: Seq<char>, k: int)
    requires
        0 <= k <= entries.len(),
        forall|i: int| 0 <= i < k ==> (#[trigger] entries[i]).0 != key,
        k < entries.len() ==> entries[k].0 == key,
    ensures
        key_index(entries, key) == k,
    decreases entries.len(),
{
    if entries.len() == 0 || entries[0].0 == key {
    } else {
        let t = entries.drop_first();
        assert forall|i: int| 0 <= i < k - 1 implies (#[trigger] t[i]).0 != key by {
            assert(t[i] == entries[i + 1]);
        }
        lemma_key_index_is(t, key, k - 1);
    }
}

/// A set without equal members stays one when a frame is offered to it.
pub proof fn lemma_set_insert_distinct(members: Seq<Frame>, x: Frame)
    requires
        pairwise_distinct(members),
    ensures
        pairwise_distinct(set_insert(members, x)),
{
    let after = set_insert(members, x);
    if !has_member(members, x) {
        assert forall|i: int, j: int| 0 <= i < j < after.len() implies !same(
            after[i],
            after[j],
        ) by {
            if j == members.len() {
                assert(!same(members[i], x));
            } else {
                assert(after[i] == members[i] && after[j] == members[j]);
            }
        }
    }
}

/// A map without a key twice stays one when a value is put into it.
pub proof fn lemma_map_insert_unique(entries: Seq<(Seq<char>, Frame)>, key: Seq<char>, value: Frame)
    requires
        unique_keys(entries),
    ensures
        unique_keys(map_insert(entries, key, value)),
{
    let after = map_insert(entries, key, value);
    let at = key_index(entries, key);
    lemma_key_index(entries, key);
    assert forall|i: int, j: int| 0 <= i < j < after.len() implies after[i].0 != after[j].0 by {
        if at < entries.len() {
            assert(after[i].0 == entries[i].0 && after[j].0 == entries[j].0);
        } else if j == at {
            assert(after[i] == entries[i]);
        } else {
            assert(after[i] == entries[i] && after[j] == entries[j]);
        }
    }
}

} // verus!
