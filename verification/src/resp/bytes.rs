//! Byte strings: copying and comparing.
use vstd::prelude::*;

verus! {

/// Appends `src[start..end]`.
pub fn push_range(buf: &mut Vec<u8>, src: &[u8], start: usize, end: usize)
    requires
        start <= end <= src@.len(),
    ensures
        final(buf)@ == old(buf)@ + src@.subrange(start as int, end as int),
{
    let mut i: usize = start;
    while i < end
        invariant
            start <= i <= end <= src@.len(),
            buf@ == old(buf)@ + src@.subrange(start as int, i as int),
        decreases end - i,
    {
        buf.push(src[i]);
        i += 1;
        proof {
            assert(buf@ =~= old(buf)@ + src@.subrange(start as int, i as int));
        }
    }
    proof {
        assert(buf@ =~= old(buf)@ + src@.subrange(start as int, end as int));
    }
}

/// Whether two byte strings hold the same bytes.
pub fn bytes_equal(a: &[u8], b: &[u8]) -> (r: bool)
    ensures
        r == (a@ == b@),
{
    if a.len() != b.len() {
        return false;
    }
    let mut i: usize = 0;
    while i < a.len()
        invariant
            i <= a@.len(),
            a@.len() == b@.len(),
            forall|j: int| 0 <= j < i ==> a@[j] == b@[j],
        decreases a@.len() - i,
    {
        if a[i] != b[i] {
            return false;
        }
        i += 1;
    }
    proof {
        assert(a@ =~= b@);
    }
    true
}

} // verus!
