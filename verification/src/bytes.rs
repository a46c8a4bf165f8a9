//! Little-endian integers in byte sequences, and the few `Vec<u8>` operations
//! that the coders share.
use vstd::prelude::*;

verus! {

/// The two bytes of `v`, least significant first.
pub open spec fn le16(v: int) -> Seq<u8> {
    seq![(v % 256) as u8, (v / 256 % 256) as u8]
}

/// The three low bytes of `v`, least significant first.
pub open spec fn le24(v: int) -> Seq<u8> {
    seq![(v % 256) as u8, (v / 256 % 256) as u8, (v / 65536 % 256) as u8]
}

/// The four bytes of `v`, least significant first.
pub open spec fn le32(v: int) -> Seq<u8> {
    seq![
        (v % 256) as u8,
        (v / 256 % 256) as u8,
        (v / 65536 % 256) as u8,
        (v / 16777216 % 256) as u8,
    ]
}

/// The eight bytes of `v`, least significant first.
pub open spec fn le64(v: int) -> Seq<u8> {
    le32(v % 0x1_0000_0000) + le32(v / 0x1_0000_0000)
}

/// The number stored in the two bytes of `s` at `i`.
pub open spec fn u16_at(s: Seq<u8>, i: int) -> int {
    s[i] + 256 * s[i + 1]
}

/// The number stored in the three bytes of `s` at `i`.
pub open spec fn u24_at(s: Seq<u8>, i: int) -> int {
    s[i] + 256 * s[i + 1] + 65536 * s[i + 2]
}

/// The number stored in the four bytes of `s` at `i`.
pub open spec fn u32_at(s: Seq<u8>, i: int) -> int {
    s[i] + 256 * s[i + 1] + 65536 * s[i + 2] + 16777216 * s[i + 3]
}

/// The number stored in the eight bytes of `s` at `i`.
pub open spec fn u64_at(s: Seq<u8>, i: int) -> int {
    u32_at(s, i) + 0x1_0000_0000 * u32_at(s, i + 4)
}

/// `s` starts with `p` at position `i`.
pub open spec fn holds_at(s: Seq<u8>, i: int, p: Seq<u8>) -> bool {
    0 <= i && i + p.len() <= s.len() && s.subrange(i, i + p.len()) == p
}

/// What stands in `t` stands in `h + t`, further back.
pub proof fn lemma_holds_behind(h: Seq<u8>, t: Seq<u8>, i: int, p: Seq<u8>)
    requires
        holds_at(t, i, p),
    ensures
        holds_at(h + t, h.len() + i, p),
{
    assert((h + t).subrange(h.len() + i, h.len() + i + p.len()) =~= t.subrange(i, i + p.len()));
}

/// Two pieces that stand side by side stand each at their place.
pub proof fn lemma_holds_split(s: Seq<u8>, i: int, x: Seq<u8>, y: Seq<u8>)
    requires
        holds_at(s, i, x + y),
    ensures
        holds_at(s, i, x),
        holds_at(s, i + x.len(), y),
{
    let all = x + y;
    assert forall|k: int| 0 <= k < all.len() implies s[i + k] == all[k] by {
        assert(s.subrange(i, i + all.len())[k] == all[k]);
    }
    assert(s.subrange(i, i + x.len()) =~= x);
    let j = i + x.len();
    assert forall|k: int| 0 <= k < y.len() implies s[j + k] == y[k] by {
        assert(s[i + (x.len() + k)] == all[x.len() + k]);
    }
    assert(s.subrange(j, j + y.len()) =~= y);
}

/// Reading 16 bits where they stand gives their number back.
pub proof fn lemma_read_le16(s: Seq<u8>, i: int, v: int)
    requires
        0 <= v < 65536,
        holds_at(s, i, le16(v)),
    ensures
        u16_at(s, i) == v,
{
    let p = le16(v);
    assert(s.subrange(i, i + 2)[0] == p[0]);
    assert(s.subrange(i, i + 2)[1] == p[1]);
}

/// Reading 24 bits where they stand gives their number back.
pub proof fn lemma_read_le24(s: Seq<u8>, i: int, v: int)
    requires
        0 <= v < 16777216,
        holds_at(s, i, le24(v)),
    ensures
        u24_at(s, i) == v,
{
    let p = le24(v);
    assert(s.subrange(i, i + 3)[0] == p[0]);
    assert(s.subrange(i, i + 3)[1] == p[1]);
    assert(s.subrange(i, i + 3)[2] == p[2]);
}

/// Reading 32 bits where they stand gives their number back.
pub proof fn lemma_read_le32(s: Seq<u8>, i: int, v: int)
    requires
        0 <= v < 0x1_0000_0000,
        holds_at(s, i, le32(v)),
    ensures
        u32_at(s, i) == v,
{
    let p = le32(v);
    assert(s.subrange(i, i + 4)[0] == p[0]);
    assert(s.subrange(i, i + 4)[1] == p[1]);
    assert(s.subrange(i, i + 4)[2] == p[2]);
    assert(s.subrange(i, i + 4)[3] == p[3]);
}

/// Reading 64 bits where they stand gives their number back.
pub proof fn lemma_read_le64(s: Seq<u8>, i: int, v: int)
    requires
        0 <= v < 0x1_0000_0000_0000_0000,
        holds_at(s, i, le64(v)),
    ensures
        u64_at(s, i) == v,
{
    let lo = v % 0x1_0000_0000;
    let hi = v / 0x1_0000_0000;
    assert(le64(v).subrange(0, 4) =~= le32(lo));
    assert(le64(v).subrange(4, 8) =~= le32(hi));
    assert(s.subrange(i, i + 8).subrange(0, 4) =~= s.subrange(i, i + 4));
    assert(s.subrange(i, i + 8).subrange(4, 8) =~= s.subrange(i + 4, i + 8));
    lemma_read_le32(s, i, lo);
    lemma_read_le32(s, i + 4, hi);
}

/// The bytes that a number was read from are the bytes of that number.
pub proof fn lemma_le_read(s: Seq<u8>, i: int)
    requires
        0 <= i,
        i + 8 <= s.len(),
    ensures
        le32(u32_at(s, i)) == s.subrange(i, i + 4),
        le64(u64_at(s, i)) == s.subrange(i, i + 8),
        0 <= u64_at(s, i) < 0x1_0000_0000_0000_0000,
{
    lemma_le32_read(s, i);
    lemma_le32_read(s, i + 4);
    let a = u32_at(s, i);
    let b = u32_at(s, i + 4);
    let v = u64_at(s, i);
    assert(v % 0x1_0000_0000 == a && v / 0x1_0000_0000 == b);
    assert(s.subrange(i, i + 4) + s.subrange(i + 4, i + 8) =~= s.subrange(i, i + 8));
}

proof fn lemma_le32_read(s: Seq<u8>, i: int)
    requires
        0 <= i,
        i + 4 <= s.len(),
    ensures
        le32(u32_at(s, i)) == s.subrange(i, i + 4),
        0 <= u32_at(s, i) < 0x1_0000_0000,
{
    let v = u32_at(s, i);
    assert(v % 256 == s[i]);
    assert(v / 256 % 256 == s[i + 1]);
    assert(v / 65536 % 256 == s[i + 2]);
    assert(v / 16777216 % 256 == s[i + 3]);
    assert(le32(v) =~= s.subrange(i, i + 4));
}

/// Appends a copy of `tail`.
pub fn append(dst: &mut Vec<u8>, tail: &[u8])
    ensures
        final(dst)@ == old(dst)@ + tail@,
{
    dst.extend_from_slice(tail);
    assert(dst@ =~= old(dst)@ + tail@);
}

/// Appends `tail` back to front.
pub fn append_reversed(dst: &mut Vec<u8>, tail: &[u8])
    ensures
        final(dst)@ == old(dst)@ + tail@.reverse(),
{
    let mut i: usize = tail.len();
    while i > 0
        invariant
            i <= tail.len(),
            dst@ =~= old(dst)@ + tail@.reverse().take(tail.len() - i),
        decreases i,
    {
        i = i - 1;
        dst.push(tail[i]);
    }
    assert(tail@.reverse().take(tail.len() as int) =~= tail@.reverse());
}

/// Appends the two bytes of `v`.
pub fn push_u16(dst: &mut Vec<u8>, v: u16)
    ensures
        final(dst)@ == old(dst)@ + le16(v as int),
{
    dst.push((v % 256) as u8);
    dst.push((v / 256) as u8);
    assert(dst@ =~= old(dst)@ + le16(v as int));
}

/// Appends the three low bytes of `v`.
pub fn push_u24(dst: &mut Vec<u8>, v: u32)
    ensures
        final(dst)@ == old(dst)@ + le24(v as int),
{
    dst.push((v % 256) as u8);
    dst.push((v / 256 % 256) as u8);
    dst.push((v / 65536 % 256) as u8);
    assert(dst@ =~= old(dst)@ + le24(v as int));
}

/// Appends the four bytes of `v`.
pub fn push_u32(dst: &mut Vec<u8>, v: u32)
    ensures
        final(dst)@ == old(dst)@ + le32(v as int),
{
    dst.push((v % 256) as u8);
    dst.push((v / 256 % 256) as u8);
    dst.push((v / 65536 % 256) as u8);
    dst.push((v / 16777216) as u8);
    assert(dst@ =~= old(dst)@ + le32(v as int));
}

/// Appends the eight bytes of `v`.
pub fn push_u64(dst: &mut Vec<u8>, v: u64)
    ensures
        final(dst)@ == old(dst)@ + le64(v as int),
{
    push_u32(dst, (v % 0x1_0000_0000) as u32);
    push_u32(dst, (v / 0x1_0000_0000) as u32);
    assert(dst@ =~= old(dst)@ + le64(v as int));
}

/// Reads the two bytes at `i`.
pub fn get_u16(s: &[u8], i: usize) -> (v: u16)
    requires
        i + 2 <= s@.len(),
    ensures
        v == u16_at(s@, i as int),
{
    s[i] as u16 + 256 * (s[i + 1] as u16)
}

/// Reads the three bytes at `i`.
pub fn get_u24(s: &[u8], i: usize) -> (v: u32)
    requires
        i + 3 <= s@.len(),
    ensures
        v == u24_at(s@, i as int),
        v < 16777216,
{
    s[i] as u32 + 256 * (s[i + 1] as u32) + 65536 * (s[i + 2] as u32)
}

/// Reads the four bytes at `i`.
pub fn get_u32(s: &[u8], i: usize) -> (v: u32)
    requires
        i + 4 <= s@.len(),
    ensures
        v == u32_at(s@, i as int),
{
    s[i] as u32 + 256 * (s[i + 1] as u32) + 65536 * (s[i + 2] as u32) + 16777216 * (s[i
        + 3] as u32)
}

/// Reads the eight bytes at `i`.
pub fn get_u64(s: &[u8], i: usize) -> (v: u64)
    requires
        i + 8 <= s@.len(),
    ensures
        v == u64_at(s@, i as int),
{
    assert(s@.len() == s.len());
    get_u32(s, i) as u64 + 0x1_0000_0000 * (get_u32(s, i + 4) as u64)
}

} // verus!
