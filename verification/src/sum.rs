//! The sum of the bytes of a buffer.
use vstd::prelude::*;

verus! {

/// The sum of the bytes of `s`.
pub open spec fn byte_total(s: Seq<u8>) -> int
    decreases s.len(),
{
    if s.len() == 0 {
        0
    } else {
        byte_total(s.drop_last()) + s.last()
    }
}

proof fn lemma_total_prefix(s: Seq<u8>, k: int)
    requires
        0 <= k <= s.len(),
    ensures
        0 <= byte_total(s.take(k)) <= byte_total(s),
    decreases s.len(),
{
    if k == s.len() {
        assert(s.take(k) =~= s);
        if k > 0 {
            lemma_total_prefix(s.drop_last(), k - 1);
            assert(s.drop_last().take(k - 1) =~= s.drop_last());
        }
    } else {
        lemma_total_prefix(s.drop_last(), k);
        assert(s.drop_last().take(k) =~= s.take(k));
    }
}

/// The sum of one byte is the byte, and that of two parts the sum of theirs.
pub proof fn lemma_parts(a: Seq<u8>, b: Seq<u8>, x: u8)
    ensures
        byte_total(seq![x]) == x,
        byte_total(a + b) == byte_total(a) + byte_total(b),
    decreases b.len(),
{
    assert(seq![x].drop_last() =~= seq![]);
    assert(byte_total(Seq::<u8>::empty()) == 0);
    if b.len() == 0 {
        assert(a + b =~= a);
    } else {
        lemma_parts(a, b.drop_last(), x);
        assert((a + b).drop_last() =~= a + b.drop_last());
    }
}

fn byte_sum_scalar(src: &[u8]) -> (v: u64)
    requires
        byte_total(src@) <= u64::MAX,
    ensures
        v == byte_total(src@),
{
    let mut v: u64 = 0;
    let mut i: usize = 0;
    while i < src.len()
        invariant
            i <= src@.len(),
            byte_total(src@) <= u64::MAX,
            v == byte_total(src@.take(i as int)),
        decreases src.len() - i,
    {
        proof {
            lemma_total_prefix(src@, i + 1);
            assert(src@.take(i + 1).drop_last() =~= src@.take(i as int));
        }
        v = v + src[i] as u64;
        i = i + 1;
    }
    assert(src@.take(src@.len() as int) =~= src@);
    v
}

/// The sum of the bytes of `src`, and whether a vector unit computed it (none
/// does).
pub fn byte_sum(src: &[u8]) -> (r: (u64, bool))
    requires
        byte_total(src@) <= u64::MAX,
    ensures
        r.0 == byte_total(src@),
        r.1 == false,
{
    (byte_sum_scalar(src), false)
}

} // verus!
