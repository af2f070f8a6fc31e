//! Lines: the bytes up to the first CR LF pair.
use vstd::prelude::*;
use crate::resp::decode::{DecodeError, ProtocolError};

verus! {

/// Carriage return, the first byte of a line terminator.
pub const CR: u8 = 13;

/// Line feed, the second byte of a line terminator.
pub const LF: u8 = 10;

/// Whether `b` is one of the two bytes of a line terminator.
pub open spec fn is_line_break(b: u8) -> bool {
    b == CR || b == LF
}

/// The two bytes that end every line.
pub open spec fn crlf() -> Seq<u8> {
    seq![CR, LF]
}

/// Whether a CR or an LF occurs anywhere in `s`.
pub open spec fn has_line_break(s: Seq<u8>) -> bool {
    exists|i: int| 0 <= i < s.len() && is_line_break(#[trigger] s[i])
}

/// The index of the first CR or LF in `s`, or `s.len()` where there is none.
pub open spec fn first_break(s: Seq<u8>) -> int
    decreases s.len(),
{
    if s.len() == 0 || is_line_break(s[0]) {
        0
    } else {
        1 + first_break(s.drop_first())
    }
}

/// The line that `s` starts with: `Ok(k)` when `s[0..k]` holds no CR or LF and
/// is followed by CR LF; `NeedMoreData` when `s` ends before the terminator
/// is complete; a protocol error when a CR or LF stands alone.
pub open spec fn scan_line(s: Seq<u8>) -> Result<int, DecodeError> {
    let k = first_break(s);
    if k >= s.len() {
        Err(DecodeError::NeedMoreData)
    } else if s[k] == LF {
        Err(DecodeError::ProtocolError(ProtocolError::BrokenLine))
    } else if k + 1 >= s.len() {
        Err(DecodeError::NeedMoreData)
    } else if s[k + 1] == LF {
        Ok(k)
    } else {
        Err(DecodeError::ProtocolError(ProtocolError::BrokenLine))
    }
}

/// `first_break(s)` is in range, nothing before it is a CR or LF, and the
/// byte at it, if any, is one.
pub proof fn lemma_first_break(s: Seq<u8>)
    ensures
        0 <= first_break(s) <= s.len(),
        forall|i: int| 0 <= i < first_break(s) ==> !is_line_break(#[trigger] s[i]),
        first_break(s) < s.len() ==> is_line_break(s[first_break(s)]),
    decreases s.len(),
{
    if s.len() == 0 || is_line_break(s[0]) {
    } else {
        let t = s.drop_first();
        lemma_first_break(t);
        assert forall|i: int| 0 <= i < first_break(s) implies !is_line_break(#[trigger] s[i]) by {
            if i > 0 {
                assert(s[i] == t[i - 1]);
            }
        }
    }
}

/// An index with the properties of `first_break` is `first_break`.
pub proof fn lemma_first_break_is(s: Seq<u8>, k: int)
    requires
        0 <= k <= s.len(),
        forall|i: int| 0 <= i < k ==> !is_line_break(#[trigger] s[i]),
        k < s.len() ==> is_line_break(s[k]),
    ensures
        first_break(s) == k,
    decreases s.len(),
{
    if s.len() == 0 || is_line_break(s[0]) {
    } else {
        let t = s.drop_first();
        assert forall|i: int| 0 <= i < k - 1 implies !is_line_break(#[trigger] t[i]) by {
            assert(t[i] == s[i + 1]);
        }
        lemma_first_break_is(t, k - 1);
    }
}

/// Finds the line that starts at `start`, as `scan_line` defines it, and
/// returns the length of its content.
pub fn find_line(buf: &[u8], start: usize) -> (r: Result<usize, DecodeError>)
    requires
        start <= buf@.len(),
    ensures
        match r {
            Ok(k) => start + k + 2 <= buf@.len() && scan_line(buf@.skip(start as int)) == Ok::<
                int,
                DecodeError,
            >(k as int),
            Err(e) => scan_line(buf@.skip(start as int)) == Err::<int, DecodeError>(e),
        },
{
    let ghost s = buf@.skip(start as int);
    let mut i: usize = start;
    while i < buf.len() && !(buf[i] == CR || buf[i] == LF)
        invariant
            start <= i <= buf@.len(),
            s == buf@.skip(start as int),
            forall|j: int| 0 <= j < i - start ==> !is_line_break(#[trigger] s[j]),
        decreases buf@.len() - i,
    {
        i += 1;
    }
    proof {
        lemma_first_break_is(s, i - start);
    }
    if i >= buf.len() {
        Err(DecodeError::NeedMoreData)
    } else if buf[i] == LF {
        Err(DecodeError::ProtocolError(ProtocolError::BrokenLine))
    } else if i + 1 >= buf.len() {
        Err(DecodeError::NeedMoreData)
    } else if buf[i + 1] == LF {
        Ok(i - start)
    } else {
        Err(DecodeError::ProtocolError(ProtocolError::BrokenLine))
    }
}

/// A content without CR or LF, with CR LF after it, is a line, whatever
/// follows.
pub proof fn lemma_scan_line_complete(content: Seq<u8>, tail: Seq<u8>)
    requires
        !has_line_break(content),
    ensures
        scan_line(content + crlf() + tail) == Ok::<int, DecodeError>(content.len() as int),
{
    let s = content + crlf() + tail;
    let k = content.len() as int;
    assert(s[k] == CR);
    assert(s[k + 1] == LF);
    assert forall|i: int| 0 <= i < k implies !is_line_break(#[trigger] s[i]) by {
        assert(s[i] == content[i]);
    }
    lemma_first_break_is(s, k);
}

/// Of a content without CR or LF, with CR LF after it, every part that stops
/// short of the end is a line not yet complete.
pub proof fn lemma_scan_line_partial(content: Seq<u8>, k: int)
    requires
        !has_line_break(content),
        0 <= k < content.len() + 2,
    ensures
        scan_line((content + crlf()).take(k)) == Err::<int, DecodeError>(DecodeError::NeedMoreData),
{
    let whole = content + crlf();
    let s = whole.take(k);
    let n = content.len() as int;
    assert(whole[n] == CR);
    if k <= n {
        assert forall|i: int| 0 <= i < k implies !is_line_break(#[trigger] s[i]) by {
            assert(s[i] == content[i]);
        }
        lemma_first_break_is(s, k);
    } else {
        assert forall|i: int| 0 <= i < n implies !is_line_break(#[trigger] s[i]) by {
            assert(s[i] == content[i]);
        }
        assert(s[n] == CR);
        lemma_first_break_is(s, n);
    }
}

/// A CR or LF is in `a + b` exactly when one is in `a` or in `b`.
pub proof fn lemma_line_break_concat(a: Seq<u8>, b: Seq<u8>)
    ensures
        has_line_break(a + b) == (has_line_break(a) || has_line_break(b)),
{
    let s = a + b;
    if has_line_break(a) {
        let i = choose|i: int| 0 <= i < a.len() && is_line_break(#[trigger] a[i]);
        assert(s[i] == a[i]);
    }
    if has_line_break(b) {
        let i = choose|i: int| 0 <= i < b.len() && is_line_break(#[trigger] b[i]);
        assert(s[a.len() + i] == b[i]);
    }
    if has_line_break(s) {
        let i = choose|i: int| 0 <= i < s.len() && is_line_break(#[trigger] s[i]);
        if i < a.len() {
            assert(a[i] == s[i]);
        } else {
            assert(b[i - a.len()] == s[i]);
        }
    }
}

/// Once a line is found, or found broken, bytes that arrive later change
/// nothing.
pub proof fn lemma_scan_line_final(s: Seq<u8>, more: Seq<u8>)
    requires
        scan_line(s) != Err::<int, DecodeError>(DecodeError::NeedMoreData),
    ensures
        scan_line(s + more) == scan_line(s),
{
    let k = first_break(s);
    let all = s + more;
    lemma_first_break(s);
    assert forall|i: int| 0 <= i < k implies !is_line_break(#[trigger] all[i]) by {
        assert(all[i] == s[i]);
    }
    assert(all[k] == s[k]);
    lemma_first_break_is(all, k);
    if s[k] != LF {
        assert(all[k + 1] == s[k + 1]);
    }
}

} // verus!
