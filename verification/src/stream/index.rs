//! The seek index of a stream: where each block starts, in the stream and in
//! the content.
use crate::bytes;
use crate::bytes::{get_u64, push_u32, push_u64};
use crate::stream::StreamError;
use vstd::prelude::*;

verus! {

/// The position of each block in the stream and in the content, and the length
/// of the content.
#[derive(Debug, PartialEq, Eq)]
pub struct Index {
    /// Pairs of a position in the stream and a position in the content, ascending.
    pub entries: Vec<(u64, u64)>,
    /// Length of the content.
    pub total: u64,
}

/// The entries as bytes.
pub open spec fn entry_bytes(e: Seq<(u64, u64)>) -> Seq<u8>
    decreases e.len(),
{
    if e.len() == 0 {
        seq![]
    } else {
        entry_bytes(e.drop_last()) + bytes::le64(e.last().0 as int) + bytes::le64(
            e.last().1 as int,
        )
    }
}

/// An index as bytes: the content length, the number of entries, the entries.
pub open spec fn index_bytes(e: Seq<(u64, u64)>, total: u64) -> Seq<u8> {
    bytes::le64(total as int) + bytes::le64(e.len() as int) + entry_bytes(e)
}

/// The entry number `i` of the index stored in `b`.
pub open spec fn entry_at(b: Seq<u8>, i: int) -> (u64, u64) {
    (bytes::u64_at(b, 16 + 16 * i) as u64, bytes::u64_at(b, 24 + 16 * i) as u64)
}

/// The index stored in `b`: its entries and the content length.
pub open spec fn loaded(b: Seq<u8>) -> Result<(Seq<(u64, u64)>, u64), StreamError> {
    if b.len() < 16 {
        Err(StreamError::IndexTooShort)
    } else if b.len() != 16 + 16 * bytes::u64_at(b, 8) {
        Err(StreamError::IndexSizeMismatch)
    } else {
        Ok(
            (
                Seq::new(bytes::u64_at(b, 8) as nat, |i: int| entry_at(b, i)),
                bytes::u64_at(b, 0) as u64,
            ),
        )
    }
}

/// What follows the end marker of a stream that holds its index: the index, the
/// low 32 bits of its size, a magic.
pub open spec fn trailer(e: Seq<(u64, u64)>, total: u64) -> Seq<u8> {
    let p = index_bytes(e, total);
    p + bytes::le32(p.len() as int % 0x1_0000_0000) + crate::stream::index_magic()
}

/// Halving search in `lo..hi` for the last entry whose content position is at
/// most `t`.
pub open spec fn search(e: Seq<(u64, u64)>, t: u64, lo: int, hi: int) -> int
    decreases hi - lo,
{
    if hi - lo <= 1 {
        lo
    } else {
        let mid = lo + (hi - lo) / 2;
        if e[mid].1 <= t {
            search(e, t, mid, hi)
        } else {
            search(e, t, lo, mid)
        }
    }
}

/// The entry that the search gives.
pub open spec fn located(e: Seq<(u64, u64)>, t: u64) -> int {
    search(e, t, 0, e.len() as int)
}

/// Content positions ascend.
pub open spec fn ascending(e: Seq<(u64, u64)>) -> bool {
    forall|i: int, j: int| 0 <= i < j < e.len() ==> (#[trigger] e[i]).1 < (#[trigger] e[j]).1
}

proof fn lemma_search(e: Seq<(u64, u64)>, t: u64, lo: int, hi: int)
    requires
        0 <= lo < hi <= e.len(),
        ascending(e),
        lo == 0 || e[lo].1 <= t,
        forall|j: int| hi <= j < e.len() ==> (#[trigger] e[j]).1 > t,
    ensures
        lo <= search(e, t, lo, hi) < hi,
        search(e, t, lo, hi) == 0 || e[search(e, t, lo, hi)].1 <= t,
        forall|j: int| search(e, t, lo, hi) < j < e.len() ==> (#[trigger] e[j]).1 > t,
    decreases hi - lo,
{
    if hi - lo > 1 {
        let mid = lo + (hi - lo) / 2;
        if e[mid].1 <= t {
            lemma_search(e, t, mid, hi);
        } else {
            lemma_search(e, t, lo, mid);
        }
    }
}

/// The search gives the block that contains a position: the last one that starts
/// at or before it, or the first one if none does.
pub proof fn lemma_located(e: Seq<(u64, u64)>, t: u64)
    requires
        0 < e.len(),
        ascending(e),
    ensures
        0 <= located(e, t) < e.len(),
        e[0].1 <= t ==> e[located(e, t)].1 <= t,
        e[0].1 > t ==> located(e, t) == 0,
        forall|j: int| located(e, t) < j < e.len() ==> (#[trigger] e[j]).1 > t,
{
    lemma_search(e, t, 0, e.len() as int);
}

/// The layout of an index: the content length, the number of entries, and the entries, in
/// numbers of eight bytes with the low byte first.
#[verifier::rlimit(30)]
pub proof fn lemma_index_layout(e: Seq<(u64, u64)>, total: u64, i: int)
    requires
        e.len() <= u64::MAX,
        0 <= i < e.len(),
    ensures
        ({
            let b = index_bytes(e, total);
            &&& b.len() == 16 + 16 * e.len()
            &&& bytes::u64_at(b, 0) == total
            &&& bytes::u64_at(b, 8) == e.len()
            &&& bytes::u64_at(b, 16 + 16 * i) == e[i].0
            &&& bytes::u64_at(b, 24 + 16 * i) == e[i].1
        }),
{
    let b = index_bytes(e, total);
    lemma_entry_bytes(e, i);
    let h = bytes::le64(total as int) + bytes::le64(e.len() as int);
    assert(b.subrange(0, 8) =~= bytes::le64(total as int));
    assert(b.subrange(8, 16) =~= bytes::le64(e.len() as int));
    bytes::lemma_read_le64(b, 0, total as int);
    bytes::lemma_read_le64(b, 8, e.len() as int);
    bytes::lemma_holds_behind(h, entry_bytes(e), 16 * i, bytes::le64(e[i].0 as int));
    bytes::lemma_holds_behind(h, entry_bytes(e), 16 * i + 8, bytes::le64(e[i].1 as int));
    bytes::lemma_read_le64(b, 16 + 16 * i, e[i].0 as int);
    bytes::lemma_read_le64(b, 24 + 16 * i, e[i].1 as int);
}

#[verifier::rlimit(30)]
proof fn lemma_entries_written(b: Seq<u8>, n: int)
    requires
        0 <= n,
        16 + 16 * n <= b.len(),
    ensures
        entry_bytes(Seq::new(n as nat, |i: int| entry_at(b, i))) == b.subrange(16, 16 + 16 * n),
    decreases n,
{
    let e = Seq::new(n as nat, |i: int| entry_at(b, i));
    if n == 0 {
        assert(b.subrange(16, 16) =~= seq![]);
    } else {
        lemma_entries_written(b, n - 1);
        assert(e.drop_last() =~= Seq::new((n - 1) as nat, |i: int| entry_at(b, i)));
        let at = 16 + 16 * (n - 1);
        bytes::lemma_le_read(b, at);
        bytes::lemma_le_read(b, at + 8);
        assert(b.subrange(16, at) + b.subrange(at, at + 8) + b.subrange(at + 8, at + 16)
            =~= b.subrange(16, 16 + 16 * n));
    }
}

/// Bytes hold an index exactly if they are those of an index: what they are loaded as is
/// written as they are. Fewer than 16 bytes are too short, and other lengths than the
/// number of entries asks for are a mismatch.
pub proof fn lemma_load_exact(b: Seq<u8>)
    ensures
        b.len() < 16 ==> loaded(b) == Err::<(Seq<(u64, u64)>, u64), StreamError>(
            StreamError::IndexTooShort,
        ),
        b.len() >= 16 && b.len() != 16 + 16 * bytes::u64_at(b, 8) ==> loaded(b) == Err::<
            (Seq<(u64, u64)>, u64),
            StreamError,
        >(StreamError::IndexSizeMismatch),
        b.len() >= 16 && b.len() == 16 + 16 * bytes::u64_at(b, 8) ==> (loaded(b) matches Ok((e, t))
            && index_bytes(e, t) == b),
{
    if b.len() >= 16 && b.len() == 16 + 16 * bytes::u64_at(b, 8) {
        let n = bytes::u64_at(b, 8);
        let e = Seq::new(n as nat, |i: int| entry_at(b, i));
        bytes::lemma_le_read(b, 0);
        bytes::lemma_le_read(b, 8);
        lemma_entries_written(b, n);
        assert(loaded(b)->Ok_0.0 =~= e);
        assert(b.subrange(0, 8) + b.subrange(8, 16) + b.subrange(16, 16 + 16 * n) =~= b);
    }
}

proof fn lemma_entry_bytes(e: Seq<(u64, u64)>, i: int)
    requires
        0 <= i < e.len(),
    ensures
        entry_bytes(e).len() == 16 * e.len(),
        bytes::holds_at(entry_bytes(e), 16 * i, bytes::le64(e[i].0 as int)),
        bytes::holds_at(entry_bytes(e), 16 * i + 8, bytes::le64(e[i].1 as int)),
    decreases e.len(),
{
    let d = e.drop_last();
    let p = entry_bytes(d);
    let q = entry_bytes(e);
    let a = bytes::le64(e.last().0 as int);
    let b = bytes::le64(e.last().1 as int);
    if d.len() > 0 {
        lemma_entry_bytes(d, if i < d.len() {
            i
        } else {
            0
        });
    }
    assert(q =~= p + (a + b));
    if i < d.len() {
        assert(q.subrange(16 * i, 16 * i + 8) =~= p.subrange(16 * i, 16 * i + 8));
        assert(q.subrange(16 * i + 8, 16 * i + 16) =~= p.subrange(16 * i + 8, 16 * i + 16));
    } else {
        assert(p.len() == 16 * i);
        assert(q.subrange(16 * i, 16 * i + 8) =~= a);
        assert(q.subrange(16 * i + 8, 16 * i + 16) =~= b);
    }
}

/// Loading the bytes of an index gives back the index.
pub proof fn lemma_index_roundtrip(e: Seq<(u64, u64)>, total: u64)
    requires
        e.len() <= u64::MAX,
    ensures
        index_bytes(e, total).len() == 16 + 16 * e.len(),
        loaded(index_bytes(e, total)) == Ok::<(Seq<(u64, u64)>, u64), StreamError>((e, total)),
{
    let b = index_bytes(e, total);
    lemma_index_head(e, total);
    let r = Seq::new(e.len(), |i: int| entry_at(b, i));
    assert forall|i: int| 0 <= i < e.len() implies r[i] == e[i] by {
        lemma_entry_read(e, total, i);
    }
    assert(r =~= e);
}

proof fn lemma_index_head(e: Seq<(u64, u64)>, total: u64)
    requires
        e.len() <= u64::MAX,
    ensures
        index_bytes(e, total).len() == 16 + 16 * e.len(),
        bytes::u64_at(index_bytes(e, total), 0) == total,
        bytes::u64_at(index_bytes(e, total), 8) == e.len(),
{
    let b = index_bytes(e, total);
    if e.len() > 0 {
        lemma_entry_bytes(e, 0);
    }
    let x = bytes::le64(total as int);
    let y = bytes::le64(e.len() as int);
    let p = entry_bytes(e);
    assert(x.len() == 8 && y.len() == 8);
    assert(b.subrange(0, b.len() as int) =~= b);
    bytes::lemma_holds_split(b, 0, x + y, p);
    bytes::lemma_holds_split(b, 0, x, y);
    bytes::lemma_read_le64(b, 0, total as int);
    bytes::lemma_read_le64(b, 8, e.len() as int);
}

proof fn lemma_entry_read(e: Seq<(u64, u64)>, total: u64, i: int)
    requires
        0 <= i < e.len() <= u64::MAX,
    ensures
        entry_at(index_bytes(e, total), i) == e[i],
{
    let h = bytes::le64(total as int) + bytes::le64(e.len() as int);
    let p = entry_bytes(e);
    lemma_entry_bytes(e, i);
    bytes::lemma_holds_behind(h, p, 16 * i, bytes::le64(e[i].0 as int));
    bytes::lemma_holds_behind(h, p, 16 * i + 8, bytes::le64(e[i].1 as int));
    bytes::lemma_read_le64(h + p, 16 + 16 * i, e[i].0 as int);
    bytes::lemma_read_le64(h + p, 24 + 16 * i, e[i].1 as int);
}

/// The entry that the search gives.
pub fn locate(e: &Vec<(u64, u64)>, t: u64) -> (i: usize)
    requires
        0 < e@.len(),
    ensures
        i == located(e@, t),
        i < e@.len(),
{
    let mut lo: usize = 0;
    let mut hi: usize = e.len();
    while hi - lo > 1
        invariant
            lo < hi <= e@.len(),
            located(e@, t) == search(e@, t, lo as int, hi as int),
        decreases hi - lo,
    {
        let mid: usize = lo + (hi - lo) / 2;
        if e[mid].1 <= t {
            lo = mid;
        } else {
            hi = mid;
        }
    }
    lo
}

impl Default for Index {
    /// An index of no blocks.
    fn default() -> (i: Index)
        ensures
            i.entries@ == Seq::<(u64, u64)>::empty(),
            i.total == 0,
    {
        Index::empty()
    }
}

impl Index {
    /// An index of no blocks.
    pub fn empty() -> (i: Index)
        ensures
            i.entries@ == Seq::<(u64, u64)>::empty(),
            i.total == 0,
    {
        Index { entries: Vec::new(), total: 0 }
    }

    /// Length of the content.
    pub fn total_uncompressed(&self) -> (n: u64)
        ensures
            n == self.total,
    {
        self.total
    }

    /// Number of blocks.
    pub fn len(&self) -> (n: usize)
        ensures
            n == self.entries@.len(),
    {
        self.entries.len()
    }

    /// Whether there are no blocks.
    pub fn is_empty(&self) -> (b: bool)
        ensures
            b == (self.entries@.len() == 0),
    {
        self.entries.len() == 0
    }

    /// The positions, in the stream and in the content, of the block that contains
    /// the content position `uncompressed_offset` (cut to the content length).
    pub fn find(&self, uncompressed_offset: u64) -> (r: (u64, u64))
        ensures
            self.entries@.len() == 0 ==> r == (0u64, 0u64),
            self.entries@.len() > 0 ==> r == self.entries@[located(
                self.entries@,
                if uncompressed_offset < self.total {
                    uncompressed_offset
                } else {
                    self.total
                },
            )],
    {
        if self.entries.len() == 0 {
            return (0, 0);
        }
        let t: u64 = if uncompressed_offset < self.total {
            uncompressed_offset
        } else {
            self.total
        };
        self.entries[locate(&self.entries, t)]
    }

    /// The index as bytes, for storage outside of its stream.
    pub fn to_bytes(&self) -> (p: Vec<u8>)
        ensures
            p@ == index_bytes(self.entries@, self.total),
    {
        let mut p: Vec<u8> = Vec::new();
        push_u64(&mut p, self.total);
        push_u64(&mut p, self.entries.len() as u64);
        let ghost head = p@;
        assert(self.entries@.take(0) =~= seq![]);
        assert(p@ =~= head + entry_bytes(self.entries@.take(0)));
        let mut i: usize = 0;
        while i < self.entries.len()
            invariant
                i <= self.entries@.len(),
                p@ == head + entry_bytes(self.entries@.take(i as int)),
            decreases self.entries.len() - i,
        {
            push_u64(&mut p, self.entries[i].0);
            push_u64(&mut p, self.entries[i].1);
            proof {
                let t = self.entries@.take(i + 1);
                assert(t.drop_last() =~= self.entries@.take(i as int));
                assert(p@ =~= head + entry_bytes(t));
            }
            i = i + 1;
        }
        assert(self.entries@.take(i as int) =~= self.entries@);
        assert(p@ =~= index_bytes(self.entries@, self.total));
        p
    }

    /// Reads the bytes that [`Index::to_bytes`] gives.
    pub fn load(b: &[u8]) -> (r: Result<Index, StreamError>)
        ensures
            match r {
                Ok(i) => loaded(b@) == Ok::<(Seq<(u64, u64)>, u64), StreamError>(
                    (i.entries@, i.total),
                ),
                Err(e) => loaded(b@) == Err::<(Seq<(u64, u64)>, u64), StreamError>(e),
            },
    {
        if b.len() < 16 {
            return Err(StreamError::IndexTooShort);
        }
        let total: u64 = get_u64(b, 0);
        let n: u64 = get_u64(b, 8);
        if b.len() as u128 != 16 + 16 * n as u128 {
            return Err(StreamError::IndexSizeMismatch);
        }
        let mut entries: Vec<(u64, u64)> = Vec::new();
        let mut i: usize = 0;
        while i < n as usize
            invariant
                i == entries@.len(),
                i <= n,
                n == n as usize,
                b@.len() == 16 + 16 * n,
                b@.len() <= usize::MAX,
                forall|k: int| 0 <= k < i ==> entries@[k] == entry_at(b@, k),
            decreases n - i,
        {
            entries.push((get_u64(b, 16 + 16 * i), get_u64(b, 24 + 16 * i)));
            i = i + 1;
        }
        assert(entries@ =~= Seq::new(n as nat, |k: int| entry_at(b@, k)));
        Ok(Index { entries, total })
    }
}

impl Clone for Index {
    fn clone(&self) -> (i: Index)
        ensures
            i.entries@ == self.entries@,
            i.total == self.total,
    {
        let mut entries: Vec<(u64, u64)> = Vec::new();
        let mut k: usize = 0;
        while k < self.entries.len()
            invariant
                k <= self.entries@.len(),
                entries@ == self.entries@.take(k as int),
            decreases self.entries.len() - k,
        {
            entries.push(self.entries[k]);
            k = k + 1;
            assert(entries@ =~= self.entries@.take(k as int));
        }
        assert(entries@ =~= self.entries@);
        Index { entries, total: self.total }
    }
}

/// What follows the end marker of a stream that holds its index.
pub fn serialize_index_trailer(index: &Index) -> (p: Vec<u8>)
    ensures
        p@ == trailer(index.entries@, index.total),
{
    let mut p: Vec<u8> = index.to_bytes();
    let n: u64 = p.len() as u64;
    push_u32(&mut p, (n % 0x1_0000_0000) as u32);
    p.push(0x49);
    p.push(0x47);
    p.push(0x5a);
    p.push(0x58);
    assert(p@ =~= trailer(index.entries@, index.total));
    p
}

} // verus!
