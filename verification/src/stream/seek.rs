//! Random access to an indexed stream.
//!
//! [`Seeker`] decides which block to load and what to hand out; [`SeekReader`]
//! runs it on a stream in memory.
use crate::bytes;
use crate::bytes::get_u32;
use crate::encoder;
use crate::encoder::EntropyMode;
use crate::stream;
use crate::stream::frames;
use crate::stream::index;
use crate::stream::index::{locate, Index};
use crate::stream::reader;
use crate::stream::{has_header, StreamError, MAX_FRAME_LEN};
use crate::structural;
use crate::structural::Decoder;
use vstd::prelude::*;

verus! {

/// A position to seek to.
#[derive(Debug, Clone, Copy, PartialEq, Eq, Structural)]
pub enum SeekTo {
    /// From the start of the content.
    Start(u64),
    /// From the end of the content.
    End(i64),
    /// From the current position.
    Current(i64),
}

/// The state of a seeking reader: the index, the block at hand with its number and
/// its position in the content, how much of it was handed out, and the position
/// that was sought or read to.
pub struct Seeking {
    pub entries: Seq<(u64, u64)>,
    pub total: u64,
    pub block: Seq<u8>,
    pub entry: int,
    pub block_uoff: u64,
    pub pos: int,
    pub abs: u64,
}

/// A seeking reader before its first block.
pub open spec fn unloaded(entries: Seq<(u64, u64)>, total: u64) -> Seeking {
    Seeking { entries, total, block: seq![], entry: 0, block_uoff: 0, pos: 0, abs: 0 }
}

/// Number of decoded bytes that were not handed out yet.
pub open spec fn left(s: Seeking) -> int {
    if s.pos < s.block.len() {
        s.block.len() - s.pos
    } else {
        0
    }
}

/// The length that the four bytes `b` announce for a frame.
pub open spec fn frame_length(b: Seq<u8>) -> Result<int, StreamError> {
    if b.len() < 4 {
        Err(StreamError::UnexpectedEof)
    } else if bytes::u32_at(b, 0) == 0 || bytes::u32_at(b, 0) > MAX_FRAME_LEN {
        Err(StreamError::BadFrame)
    } else {
        Ok(bytes::u32_at(b, 0))
    }
}

/// The block of the frame at position `at` of the stream `src`.
pub open spec fn block_at(src: Seq<u8>, at: int) -> Result<Seq<u8>, StreamError> {
    if at + 4 > src.len() {
        Err(StreamError::UnexpectedEof)
    } else {
        match frame_length(src.subrange(at, at + 4)) {
            Err(e) => Err(e),
            Ok(c) => if at + 4 + c > src.len() {
                Err(StreamError::UnexpectedEof)
            } else {
                Ok(src.subrange(at + 4, at + 4 + c))
            },
        }
    }
}

/// The state after the block `b` was loaded as number `i`.
#[verifier::opaque]
pub open spec fn installed(s: Seeking, i: int, b: Seq<u8>) -> (Seeking, Option<StreamError>) {
    match structural::outcome(b) {
        Ok(out) => (
            Seeking { block: out, entry: i, block_uoff: s.entries[i].1, pos: 0, ..s },
            None,
        ),
        Err((out, e)) => (Seeking { block: out, ..s }, Some(StreamError::DecodeFailed(e))),
    }
}

/// The state after the block number `i` was loaded from `src`.
pub open spec fn loaded(s: Seeking, src: Seq<u8>, i: int) -> (Seeking, Option<StreamError>) {
    match block_at(src, s.entries[i].0 as int) {
        Err(e) => (s, Some(e)),
        Ok(b) => installed(s, i, b),
    }
}

/// The position `target`, cut to the length of the content.
pub open spec fn bounded(s: Seeking, target: u64) -> u64 {
    if target < s.total {
        target
    } else {
        s.total
    }
}

/// The block that has to be loaded to go to `t`, if any.
pub open spec fn wanted(s: Seeking, t: u64) -> Option<int> {
    if s.entries.len() == 0 {
        None
    } else {
        let i = index::located(s.entries, t);
        if s.block.len() == 0 || i != s.entry {
            Some(i)
        } else {
            None
        }
    }
}

/// The state at position `t`, its block being at hand.
pub open spec fn settled(s: Seeking, t: u64) -> Seeking {
    if s.entries.len() == 0 {
        Seeking { abs: t, ..s }
    } else {
        Seeking {
            pos: if t < s.block_uoff || t - s.block_uoff > s.block.len() {
                s.block.len() as int
            } else {
                t - s.block_uoff
            },
            abs: t,
            ..s
        }
    }
}

/// Going to the content position `target`.
pub open spec fn sought(s: Seeking, src: Seq<u8>, target: u64) -> (Seeking, Result<u64, StreamError>) {
    let t = bounded(s, target);
    match wanted(s, t) {
        Some(i) => {
            let (s1, e) = loaded(s, src, i);
            match e {
                Some(x) => (s1, Err(x)),
                None => (settled(s1, t), Ok(t)),
            }
        },
        None => (settled(s, t), Ok(t)),
    }
}

/// `v` read as a signed number.
pub open spec fn signed(v: u64) -> int {
    if v <= i64::MAX {
        v as int
    } else {
        v - 0x1_0000_0000_0000_0000
    }
}

/// The sum of two signed numbers, cut to 64 bits, and not below zero.
pub open spec fn offset_by(base: u64, n: i64) -> u64 {
    let v = signed(base) + n;
    if v < 0 {
        0
    } else if v > i64::MAX {
        i64::MAX as u64
    } else {
        v as u64
    }
}

/// The content position that `to` stands for.
pub open spec fn target_of(s: Seeking, to: SeekTo) -> u64 {
    match to {
        SeekTo::Start(n) => n,
        SeekTo::End(n) => offset_by(s.total, n),
        SeekTo::Current(n) => offset_by(s.abs, n),
    }
}

/// The reader once it can hand out bytes, or is at the end, or has found an error.
pub open spec fn filled(s: Seeking, src: Seq<u8>) -> (Seeking, Option<StreamError>)
    decreases s.entries.len() - s.entry,
{
    if left(s) > 0 || s.entry + 1 >= s.entries.len() {
        (s, None)
    } else {
        let (s1, e) = loaded(s, src, s.entry + 1);
        if e is Some {
            (s1, e)
        } else {
            proof {
                reveal(installed);
            }
            filled(s1, src)
        }
    }
}

/// The state after `n` bytes were handed out.
pub open spec fn advanced(s: Seeking, n: int) -> Seeking {
    Seeking { pos: s.pos + n, abs: ((s.abs + n) % 0x1_0000_0000_0000_0000) as u64, ..s }
}

/// What a call that asks for `m` bytes gives.
pub open spec fn read_some(s: Seeking, src: Seq<u8>, m: int) -> (
    Seeking,
    Result<Seq<u8>, StreamError>,
) {
    if m <= 0 {
        (s, Ok(seq![]))
    } else {
        let (s1, e) = filled(s, src);
        match e {
            Some(x) => (s1, Err(x)),
            None => {
                let n = if left(s1) < m {
                    left(s1)
                } else {
                    m
                };
                if n == 0 {
                    (s1, Ok(seq![]))
                } else {
                    (advanced(s1, n), Ok(s1.block.subrange(s1.pos, s1.pos + n)))
                }
            },
        }
    }
}

/// All that can be read on, up to the end or the first error.
pub open spec fn rest_of(s: Seeking, src: Seq<u8>) -> (Seq<u8>, Option<StreamError>)
    decreases s.entries.len() - s.entry, left(s),
{
    if left(s) > 0 {
        let (d, e) = rest_of(Seeking { pos: s.block.len() as int, ..s }, src);
        (s.block.skip(s.pos) + d, e)
    } else if s.entry + 1 >= s.entries.len() {
        (seq![], None)
    } else {
        let (s1, e) = loaded(s, src, s.entry + 1);
        if e is Some {
            (seq![], e)
        } else {
            proof {
                reveal(installed);
            }
            rest_of(s1, src)
        }
    }
}

/// The size of the index of a stream of `end` bytes whose last eight are `tail`.
pub open spec fn index_length(end: int, tail: Seq<u8>) -> Result<int, StreamError> {
    if end < 13 {
        Err(StreamError::TooShort)
    } else if tail.skip(4) != stream::index_magic() {
        Err(StreamError::NoSeekIndex)
    } else if bytes::u32_at(tail, 0) < 16 || bytes::u32_at(tail, 0) + 8 > end {
        Err(StreamError::BadIndexLength)
    } else {
        Ok(bytes::u32_at(tail, 0))
    }
}

/// The index stored at the end of the stream `src`.
pub open spec fn stored_index(src: Seq<u8>) -> Result<(Seq<(u64, u64)>, u64), StreamError> {
    let end = src.len() as int;
    match index_length(end, src.skip(end - 8)) {
        Err(e) => Err(e),
        Ok(n) => index::loaded(src.subrange(end - 8 - n, end - 8)),
    }
}

/// A reader of `src` with the given index, its first block loaded.
pub open spec fn opened(src: Seq<u8>, entries: Seq<(u64, u64)>, total: u64) -> Result<
    Seeking,
    StreamError,
> {
    if src.len() < 5 {
        Err(StreamError::UnexpectedEof)
    } else if src.take(5) != stream::header() {
        Err(StreamError::NotAStream)
    } else if entries.len() == 0 {
        Ok(unloaded(entries, total))
    } else {
        match loaded(unloaded(entries, total), src, 0) {
            (s, None) => Ok(s),
            (s, Some(e)) => Err(e),
        }
    }
}

// ---------------------------------------------------------------------------
// Properties
// ---------------------------------------------------------------------------
/// `src` is a stream of the blocks `bl`, with positions within 64 bits.
pub open spec fn streams(src: Seq<u8>, mode: EntropyMode, bl: Seq<Seq<u8>>) -> bool {
    &&& reader::all_readable(mode, bl)
    &&& forall|i: int| 0 <= i < bl.len() ==> (#[trigger] bl[i]).len() > 0
    &&& frames::total_len(bl) <= u64::MAX
    &&& src.len() <= u64::MAX
    &&& bytes::holds_at(src, 0, stream::header() + frames::frames(mode, bl))
}

/// The reader `s` has the index of the blocks `bl` and one of them at hand.
pub open spec fn at_block(s: Seeking, mode: EntropyMode, bl: Seq<Seq<u8>>) -> bool {
    &&& s.entries == frames::entries_of(mode, 5, 0, bl)
    &&& s.total == frames::total_len(bl)
    &&& 0 <= s.pos <= s.block.len()
    &&& if bl.len() == 0 {
        s.entry == 0 && s.block.len() == 0
    } else {
        &&& 0 <= s.entry < bl.len()
        &&& s.block == bl[s.entry]
        &&& s.block_uoff == frames::total_len(bl.take(s.entry))
    }
}

/// The same, and the reader knows where in the content it is.
pub open spec fn placed(s: Seeking, mode: EntropyMode, bl: Seq<Seq<u8>>) -> bool {
    &&& at_block(s, mode, bl)
    &&& s.abs == if bl.len() == 0 {
        0
    } else {
        s.block_uoff + s.pos
    }
}

/// The index leads to the frame of each block.
proof fn lemma_block_at(src: Seq<u8>, mode: EntropyMode, bl: Seq<Seq<u8>>, i: int)
    requires
        streams(src, mode, bl),
        0 <= i < bl.len(),
    ensures
        frames::entries_of(mode, 5, 0, bl).len() == bl.len(),
        frames::entries_of(mode, 5, 0, bl)[i].1 == frames::total_len(bl.take(i)),
        block_at(src, frames::entries_of(mode, 5, 0, bl)[i].0 as int) == Ok::<
            Seq<u8>,
            StreamError,
        >(encoder::compressed(mode, bl[i])),
{
    let e = frames::entries_of(mode, 5, 0, bl);
    frames::lemma_entries(mode, 5, 0, bl, i);
    frames::lemma_frames_split(mode, bl, i);
    frames::lemma_concat_split(bl, i);
    lemma_total_positive(bl.skip(i));
    let h = stream::header();
    let x = frames::frames(mode, bl.take(i));
    let c = encoder::compressed(mode, bl[i]);
    let l = bytes::le32(c.len() as int);
    let z = frames::frames(mode, bl.skip(i + 1));
    bytes::lemma_holds_split(src, 0, h, x + ((l + c) + z));
    bytes::lemma_holds_split(src, 5, x, (l + c) + z);
    let at = 5 + x.len() as int;
    bytes::lemma_holds_split(src, at, l + c, z);
    bytes::lemma_holds_split(src, at, l, c);
    assert(e[i].0 == at);
    assert(reader::readable(mode, bl[i]));
    encoder::lemma_compressed_len(mode, bl[i]);
    assert(l.subrange(0, 4) =~= l);
    bytes::lemma_read_le32(l, 0, c.len() as int);
}

proof fn lemma_total_positive(bl: Seq<Seq<u8>>)
    ensures
        0 <= frames::total_len(bl),
    decreases bl.len(),
{
    if bl.len() > 0 {
        lemma_total_positive(bl.skip(1));
    }
}

/// Loading a block of the stream.
proof fn lemma_loaded(s: Seeking, src: Seq<u8>, mode: EntropyMode, bl: Seq<Seq<u8>>, i: int)
    requires
        streams(src, mode, bl),
        s.entries == frames::entries_of(mode, 5, 0, bl),
        0 <= i < bl.len(),
    ensures
        loaded(s, src, i) == (
            Seeking {
                block: bl[i],
                entry: i,
                block_uoff: frames::total_len(bl.take(i)) as u64,
                pos: 0,
                ..s
            },
            None::<StreamError>,
        ),
{
    reveal(installed);
    lemma_block_at(src, mode, bl, i);
    assert(reader::readable(mode, bl[i]));
    encoder::lemma_roundtrip(mode, bl[i]);
}

proof fn lemma_rest_from(s: Seeking, src: Seq<u8>, mode: EntropyMode, bl: Seq<Seq<u8>>)
    requires
        streams(src, mode, bl),
        at_block(s, mode, bl),
        0 < bl.len(),
    ensures
        rest_of(s, src) == (
            s.block.skip(s.pos) + frames::concat(bl.skip(s.entry + 1)),
            None::<StreamError>,
        ),
    decreases bl.len() - s.entry, left(s),
{
    frames::lemma_entries_len(mode, 5, 0, bl);
    let tail = bl.skip(s.entry + 1);
    if left(s) > 0 {
        let q = Seeking { pos: s.block.len() as int, ..s };
        lemma_rest_from(q, src, mode, bl);
        assert(q.block.skip(q.pos) + frames::concat(tail) =~= frames::concat(tail));
    } else {
        assert(s.block.skip(s.pos) + frames::concat(tail) =~= frames::concat(tail));
        if s.entry + 1 < bl.len() {
            let i = s.entry + 1;
            lemma_loaded(s, src, mode, bl, i);
            let s1 = loaded(s, src, i).0;
            lemma_prefix_total(bl, i);
            lemma_rest_from(s1, src, mode, bl);
            assert(tail[0] == bl[i]);
            assert(tail.skip(1) =~= bl.skip(i + 1));
            assert(s1.block.skip(0) =~= bl[i]);
        } else {
            assert(tail =~= seq![]);
        }
    }
}

proof fn lemma_prefix_total(bl: Seq<Seq<u8>>, i: int)
    requires
        0 <= i <= bl.len(),
        frames::total_len(bl) <= u64::MAX,
    ensures
        0 <= frames::total_len(bl.take(i)) <= frames::total_len(bl),
{
    frames::lemma_concat_split(bl, i);
    lemma_total_positive(bl.skip(i));
    lemma_total_positive(bl.take(i));
}

/// A placed reader reads the content from its position on.
pub proof fn lemma_rest(s: Seeking, src: Seq<u8>, mode: EntropyMode, bl: Seq<Seq<u8>>)
    requires
        streams(src, mode, bl),
        placed(s, mode, bl),
    ensures
        s.abs <= frames::concat(bl).len(),
        rest_of(s, src) == (frames::concat(bl).skip(s.abs as int), None::<StreamError>),
{
    frames::lemma_entries_len(mode, 5, 0, bl);
    if bl.len() > 0 {
        lemma_rest_from(s, src, mode, bl);
        frames::lemma_concat_split(bl, s.entry);
        let tail = bl.skip(s.entry);
        let front = frames::concat(bl.take(s.entry));
        assert(tail[0] == s.block);
        assert(tail.skip(1) =~= bl.skip(s.entry + 1));
        frames::lemma_concat_split(tail, 0);
        assert(frames::concat(bl).skip(s.block_uoff + s.pos) =~= s.block.skip(s.pos)
            + frames::concat(tail.skip(1)));
    } else {
        assert(frames::concat(bl).skip(0) =~= seq![]);
    }
}

proof fn lemma_prefix_grows(bl: Seq<Seq<u8>>, i: int, j: int)
    requires
        0 <= i < j <= bl.len(),
        forall|k: int| 0 <= k < bl.len() ==> (#[trigger] bl[k]).len() > 0,
    ensures
        frames::total_len(bl.take(i)) + bl[i].len() <= frames::total_len(bl.take(j)),
        j == i + 1 ==> frames::total_len(bl.take(i)) + bl[i].len() == frames::total_len(
            bl.take(j),
        ),
{
    let t = bl.take(j);
    frames::lemma_concat_split(t, i);
    assert(t.take(i) =~= bl.take(i));
    let u = t.skip(i);
    assert(u[0] == bl[i]);
    lemma_total_positive(u.skip(1));
    if j == i + 1 {
        assert(u.skip(1) =~= seq![]);
    }
}

/// Content positions ascend in the index of blocks, and are the sums of their lengths.
pub proof fn lemma_ascending(mode: EntropyMode, bl: Seq<Seq<u8>>)
    requires
        frames::total_len(bl) <= u64::MAX,
        forall|k: int| 0 <= k < bl.len() ==> (#[trigger] bl[k]).len() > 0,
    ensures
        index::ascending(frames::entries_of(mode, 5, 0, bl)),
        forall|i: int|
            0 <= i < bl.len() ==> (#[trigger] frames::entries_of(mode, 5, 0, bl)[i]).1
                == frames::total_len(bl.take(i)),
{
    let e = frames::entries_of(mode, 5, 0, bl);
    frames::lemma_entries_len(mode, 5, 0, bl);
    assert forall|i: int| 0 <= i < bl.len() implies (#[trigger] e[i]).1 == frames::total_len(
        bl.take(i),
    ) by {
        frames::lemma_entries(mode, 5, 0, bl, i);
        lemma_prefix_total(bl, i);
    }
    assert forall|i: int, j: int| 0 <= i < j < e.len() implies (#[trigger] e[i]).1 < (
    #[trigger] e[j]).1 by {
        lemma_prefix_grows(bl, i, j);
    }
}

/// The block that the index gives for a position within the content contains it.
pub proof fn lemma_index_finds(mode: EntropyMode, bl: Seq<Seq<u8>>, t: u64)
    requires
        0 < bl.len(),
        frames::total_len(bl) <= u64::MAX,
        forall|k: int| 0 <= k < bl.len() ==> (#[trigger] bl[k]).len() > 0,
        t <= frames::total_len(bl),
    ensures
        ({
            let i = index::located(frames::entries_of(mode, 5, 0, bl), t);
            &&& 0 <= i < bl.len()
            &&& frames::total_len(bl.take(i)) <= t <= frames::total_len(bl.take(i)) + bl[i].len()
            &&& i < bl.len() - 1 ==> t < frames::total_len(bl.take(i)) + bl[i].len()
        }),
{
    let e = frames::entries_of(mode, 5, 0, bl);
    lemma_ascending(mode, bl);
    frames::lemma_entries_len(mode, 5, 0, bl);
    index::lemma_located(e, t);
    let i = index::located(e, t);
    assert(bl.take(0) =~= seq![]);
    assert(e[0].1 == frames::total_len(bl.take(0)));
    assert(e[i].1 == frames::total_len(bl.take(i)));
    lemma_prefix_grows(bl, i, i + 1);
    if i + 1 < bl.len() {
        assert(e[i + 1].1 == frames::total_len(bl.take(i + 1)));
    } else {
        assert(bl.take(i + 1) =~= bl);
    }
}

/// After seeking, the reader is at the position sought, cut to the content length,
/// and reads the content from there on.
pub proof fn lemma_seek(
    s: Seeking,
    src: Seq<u8>,
    mode: EntropyMode,
    bl: Seq<Seq<u8>>,
    target: u64,
)
    requires
        streams(src, mode, bl),
        placed(s, mode, bl),
    ensures
        ({
            let t = bounded(s, target);
            let (s1, r) = sought(s, src, target);
            &&& r == Ok::<u64, StreamError>(t)
            &&& placed(s1, mode, bl)
            &&& s1.abs == t
            &&& rest_of(s1, src) == (frames::concat(bl).skip(t as int), None::<StreamError>)
        }),
{
    let t = bounded(s, target);
    let (s1, r) = sought(s, src, target);
    frames::lemma_entries_len(mode, 5, 0, bl);
    frames::lemma_concat_split(bl, 0);
    if bl.len() > 0 {
        let i = index::located(s.entries, t);
        lemma_index_finds(mode, bl, t);
        lemma_loaded(s, src, mode, bl, i);
        lemma_prefix_total(bl, i);
        assert(bl[s.entry].len() > 0);
        assert(placed(s1, mode, bl));
        assert(s1.block_uoff + s1.pos == t);
    } else {
        assert(frames::concat(bl).skip(t as int) =~= seq![]);
    }
    lemma_rest(s1, src, mode, bl);
}

/// Where seeking goes: to a number of bytes from the start, from the end, or from where the
/// reader is; before the start is the start, and behind the end is the end. Reading then
/// gives the content from there on.
pub proof fn lemma_seek_to(
    s: Seeking,
    src: Seq<u8>,
    mode: EntropyMode,
    bl: Seq<Seq<u8>>,
    to: SeekTo,
)
    requires
        streams(src, mode, bl),
        placed(s, mode, bl),
        frames::concat(bl).len() <= i64::MAX,
    ensures
        ({
            let data = frames::concat(bl);
            let p = match to {
                SeekTo::Start(n) => n as int,
                SeekTo::End(n) => data.len() + n,
                SeekTo::Current(n) => s.abs + n,
            };
            let t = if p < 0 {
                0
            } else if p > data.len() {
                data.len() as int
            } else {
                p
            };
            let (s1, r) = sought(s, src, target_of(s, to));
            &&& r == Ok::<u64, StreamError>(t as u64)
            &&& s1.abs == t
            &&& placed(s1, mode, bl)
            &&& rest_of(s1, src) == (data.skip(t), None::<StreamError>)
        }),
{
    frames::lemma_concat_split(bl, 0);
    lemma_rest(s, src, mode, bl);
    lemma_seek(s, src, mode, bl, target_of(s, to));
}

/// What is refused as a stream with an index apart from it, and as one that holds its
/// index.
pub proof fn lemma_open_refused(src: Seq<u8>, entries: Seq<(u64, u64)>, total: u64)
    ensures
        src.len() < 5 ==> opened(src, entries, total) == Err::<Seeking, StreamError>(
            StreamError::UnexpectedEof,
        ),
        src.len() >= 5 && src.take(5) != seq![0x49u8, 0x47, 0x5a, 0x53, 1] ==> opened(
            src,
            entries,
            total,
        ) == Err::<Seeking, StreamError>(StreamError::NotAStream),
        ({
            let end = src.len() as int;
            let n = bytes::u32_at(src, end - 8);
            &&& end < 13 ==> stored_index(src) == Err::<(Seq<(u64, u64)>, u64), StreamError>(
                StreamError::TooShort,
            )
            &&& end >= 13 && src.skip(end - 4) != seq![0x49u8, 0x47, 0x5a, 0x58] ==> stored_index(src)
                == Err::<(Seq<(u64, u64)>, u64), StreamError>(StreamError::NoSeekIndex)
            &&& end >= 13 && src.skip(end - 4) == seq![0x49u8, 0x47, 0x5a, 0x58] && (n < 16 || n + 8
                > end) ==> stored_index(src) == Err::<(Seq<(u64, u64)>, u64), StreamError>(
                StreamError::BadIndexLength,
            )
            &&& end >= 13 && src.skip(end - 4) == seq![0x49u8, 0x47, 0x5a, 0x58] && 16 <= n <= end - 8
                ==> stored_index(src) == index::loaded(src.subrange(end - 8 - n, end - 8))
        }),
{
    assert(stream::header() =~= seq![0x49u8, 0x47, 0x5a, 0x53, 1]);
    assert(stream::index_magic() =~= seq![0x49u8, 0x47, 0x5a, 0x58]);
    let end = src.len() as int;
    if end >= 13 {
        let tail = src.skip(end - 8);
        assert(tail.skip(4) =~= src.skip(end - 4));
        assert(tail[0] == src[end - 8] && tail[1] == src[end - 7] && tail[2] == src[end - 6] && tail[
            3] == src[end - 5]);
    }
}

/// The frame at a position: four bytes with the length of its block, the low byte first,
/// and the block. A length of zero and one above 256 MiB are refused.
pub proof fn lemma_frame_at(src: Seq<u8>, at: int)
    requires
        0 <= at,
    ensures
        ({
            let n = src[at] + 256 * src[at + 1] + 65536 * src[at + 2] + 16777216 * src[at + 3];
            block_at(src, at) == if src.len() < at + 4 {
                Err(StreamError::UnexpectedEof)
            } else if n == 0 || n > 268435456 {
                Err(StreamError::BadFrame)
            } else if src.len() < at + 4 + n {
                Err(StreamError::UnexpectedEof)
            } else {
                Ok(src.subrange(at + 4, at + 4 + n))
            }
        }),
{
    if at + 4 <= src.len() {
        let b = src.subrange(at, at + 4);
        assert(b[0] == src[at] && b[1] == src[at + 1] && b[2] == src[at + 2] && b[3] == src[at + 3]);
    }
}

/// Seeking in any stream whose blocks decode: the reader is in the last block that starts
/// at or before the position, as far behind its start as the position is, or at its end.
/// The position is at most the content length, and is what comes back.
pub proof fn lemma_seek_any(s: Seeking, src: Seq<u8>, target: u64, i: int, b: Seq<u8>, out: Seq<u8>)
    requires
        index::ascending(s.entries),
        0 <= i < s.entries.len(),
        block_at(src, s.entries[i].0 as int) == Ok::<Seq<u8>, StreamError>(b),
        structural::outcome(b) == Ok::<Seq<u8>, (Seq<u8>, crate::error::Error)>(out),
        s.block.len() > 0 && s.entry == i ==> s.block == out && s.block_uoff == s.entries[i].1,
        ({
            let t = if target < s.total {
                target
            } else {
                s.total
            };
            &&& s.entries[i].1 <= t
            &&& i + 1 < s.entries.len() ==> t < s.entries[i + 1].1
        }),
    ensures
        ({
            let t = if target < s.total {
                target
            } else {
                s.total
            };
            let (s1, r) = sought(s, src, target);
            &&& r == Ok::<u64, StreamError>(t)
            &&& s1.abs == t
            &&& s1.block == out
            &&& s1.entry == i
            &&& s1.block_uoff == s.entries[i].1
            &&& s1.pos == if t - s.entries[i].1 <= out.len() {
                t - s.entries[i].1
            } else {
                out.len() as int
            }
            &&& s1.entries == s.entries
            &&& s1.total == s.total
        }),
{
    reveal(installed);
    let t = bounded(s, target);
    index::lemma_located(s.entries, t);
    let k = index::located(s.entries, t);
    assert(s.entries[0].1 <= s.entries[i].1);
    if k < i {
        assert(s.entries[i].1 > t);
    } else if k > i {
        assert(s.entries[i + 1].1 <= s.entries[k].1);
    }
}

/// Reading on in any stream: what is left of the block, and then what the blocks behind it
/// hold, up to the last one or the first that does not decode.
pub proof fn lemma_rest_any(s: Seeking, src: Seq<u8>, b: Seq<u8>, out: Seq<u8>)
    requires
        0 <= s.pos,
    ensures
        s.pos < s.block.len() ==> rest_of(s, src) == ({
            let (d, e) = rest_of(Seeking { pos: s.block.len() as int, ..s }, src);
            (s.block.skip(s.pos) + d, e)
        }),
        s.pos >= s.block.len() && s.entry + 1 >= s.entries.len() ==> rest_of(s, src) == (
            Seq::<u8>::empty(),
            None::<StreamError>,
        ),
        s.pos >= s.block.len() && s.entry + 1 < s.entries.len() && block_at(
            src,
            s.entries[s.entry + 1].0 as int,
        ) == Ok::<Seq<u8>, StreamError>(b) && structural::outcome(b) == Ok::<
            Seq<u8>,
            (Seq<u8>, crate::error::Error),
        >(out) ==> rest_of(s, src) == rest_of(
            Seeking {
                block: out,
                entry: s.entry + 1,
                block_uoff: s.entries[s.entry + 1].1,
                pos: 0,
                ..s
            },
            src,
        ),
{
    reveal(installed);
}

/// Reading hands out the next bytes of what can be read and leaves the rest.
pub proof fn lemma_read(s: Seeking, src: Seq<u8>, m: int)
    requires
        0 < m,
        0 <= s.pos,
    ensures
        ({
            let (s1, res) = read_some(s, src, m);
            match res {
                Ok(d) => {
                    &&& d.len() <= m
                    &&& rest_of(s, src).0 == d + rest_of(s1, src).0
                    &&& rest_of(s, src).1 == rest_of(s1, src).1
                    &&& d.len() == 0 ==> rest_of(s, src) == (Seq::<u8>::empty(), None::<StreamError>)
                },
                Err(x) => rest_of(s, src) == (Seq::<u8>::empty(), Some(x)),
            }
        }),
{
    lemma_filled(s, src);
    let (s1, e) = filled(s, src);
    if e is None {
        let n = if left(s1) < m {
            left(s1)
        } else {
            m
        };
        if n == 0 {
            assert(seq![] + rest_of(s1, src).0 =~= rest_of(s1, src).0);
        } else {
            let s2 = advanced(s1, n);
            let q = Seeking { pos: s1.block.len() as int, ..s1 };
            let q2 = Seeking { pos: s2.block.len() as int, ..s2 };
            lemma_same_rest(q, q2, src);
            let d = s1.block.subrange(s1.pos, s1.pos + n);
            if n < left(s1) {
                assert(s1.block.skip(s1.pos) + rest_of(q, src).0 =~= d + (s2.block.skip(s2.pos)
                    + rest_of(q2, src).0));
            } else {
                assert(s2 == q2);
                assert(s1.block.skip(s1.pos) =~= d);
            }
        }
    }
}

proof fn lemma_filled_placed(s: Seeking, src: Seq<u8>, mode: EntropyMode, bl: Seq<Seq<u8>>)
    requires
        streams(src, mode, bl),
        placed(s, mode, bl),
    ensures
        filled(s, src).1 is None,
        placed(filled(s, src).0, mode, bl),
        filled(s, src).0.abs == s.abs,
    decreases bl.len() - s.entry,
{
    frames::lemma_entries_len(mode, 5, 0, bl);
    if !(left(s) > 0 || s.entry + 1 >= s.entries.len()) {
        let i = s.entry + 1;
        lemma_loaded(s, src, mode, bl, i);
        lemma_prefix_grows(bl, s.entry, i);
        lemma_prefix_total(bl, i);
        let s1 = loaded(s, src, i).0;
        assert(placed(s1, mode, bl));
        lemma_filled_placed(s1, src, mode, bl);
    }
}

/// A read of a placed reader gives the content from its position on, none only if it
/// asks for none or is at the end, and leaves the reader placed behind that. So
/// reads and seeks can follow each other in any order.
pub proof fn lemma_read_on(
    s: Seeking,
    src: Seq<u8>,
    mode: EntropyMode,
    bl: Seq<Seq<u8>>,
    m: int,
)
    requires
        streams(src, mode, bl),
        placed(s, mode, bl),
        0 <= m,
    ensures
        ({
            let (s1, res) = read_some(s, src, m);
            &&& placed(s1, mode, bl)
            &&& res matches Ok(d)
            &&& d.len() <= m
            &&& s.abs + d.len() <= frames::concat(bl).len()
            &&& d == frames::concat(bl).subrange(s.abs as int, s.abs + d.len())
            &&& s1.abs == s.abs + d.len()
            &&& d.len() == 0 ==> m == 0 || s.abs == s.total
        }),
{
    let all = frames::concat(bl);
    lemma_rest(s, src, mode, bl);
    frames::lemma_concat_split(bl, 0);
    if m == 0 {
        assert(all.subrange(s.abs as int, s.abs as int) =~= seq![]);
    } else {
        lemma_filled_placed(s, src, mode, bl);
        lemma_read(s, src, m);
        let (f, e) = filled(s, src);
        let (s1, res) = read_some(s, src, m);
        let d = res->Ok_0;
        lemma_rest(f, src, mode, bl);
        if d.len() > 0 {
            lemma_prefix_grows(bl, f.entry, f.entry + 1);
            lemma_prefix_total(bl, f.entry + 1);
        }
        assert(placed(s1, mode, bl));
        assert(d =~= (d + rest_of(s1, src).0).take(d.len() as int));
        assert(d =~= all.subrange(s.abs as int, s.abs + d.len()));
    }
}

proof fn lemma_filled(s: Seeking, src: Seq<u8>)
    requires
        0 <= s.pos,
    ensures
        ({
            let (s1, e) = filled(s, src);
            match e {
                Some(x) => rest_of(s, src) == (Seq::<u8>::empty(), Some(x)),
                None => rest_of(s, src) == rest_of(s1, src) && 0 <= s1.pos && (left(s1) > 0
                    || s1.entry + 1 >= s1.entries.len()),
            }
        }),
    decreases s.entries.len() - s.entry,
{
    if !(left(s) > 0 || s.entry + 1 >= s.entries.len()) {
        reveal(installed);
        let (s1, e) = loaded(s, src, s.entry + 1);
        if e is None {
            lemma_filled(s1, src);
        }
    }
}

proof fn lemma_same_rest(a: Seeking, b: Seeking, src: Seq<u8>)
    requires
        b == (Seeking { abs: b.abs, ..a }),
    ensures
        rest_of(a, src) == rest_of(b, src),
    decreases a.entries.len() - a.entry, left(a),
{
    if left(a) > 0 {
        lemma_same_rest(
            Seeking { pos: a.block.len() as int, ..a },
            Seeking { pos: b.block.len() as int, ..b },
            src,
        );
    } else if a.entry + 1 < a.entries.len() {
        reveal(installed);
        let (a1, e) = loaded(a, src, a.entry + 1);
        let (b1, f) = loaded(b, src, b.entry + 1);
        if e is None {
            lemma_same_rest(a1, b1, src);
        }
    }
}

/// A whole stream is one of its blocks.
proof fn lemma_whole_streams(
    mode: EntropyMode,
    size: int,
    data: Seq<u8>,
    embed: bool,
    padding: int,
    fill: Seq<u8>,
)
    requires
        0 < size,
        reader::all_readable(mode, frames::blocks(data, size)),
        data.len() <= u64::MAX,
        frames::whole(mode, size, data, embed, padding, fill).len() <= u64::MAX,
    ensures
        streams(
            frames::whole(mode, size, data, embed, padding, fill),
            mode,
            frames::blocks(data, size),
        ),
        frames::concat(frames::blocks(data, size)) == data,
        frames::total_len(frames::blocks(data, size)) == data.len(),
{
    let bl = frames::blocks(data, size);
    frames::lemma_blocks(data, size);
    let tail = reader::lemma_whole(mode, size, data, embed, padding, fill);
    let src = frames::whole(mode, size, data, embed, padding, fill);
    let x = stream::header() + frames::frames(mode, bl);
    assert(src =~= x + (bytes::le32(0) + tail));
    assert(src.subrange(0, x.len() as int) =~= x);
    assert forall|i: int| 0 <= i < bl.len() implies (#[trigger] bl[i]).len() > 0 by {
        assert(0 < bl[i].len() <= size);
    }
}

/// Opening a stream with its index, stored in the stream or apart from it, gives a
/// reader of its content from the start.
pub proof fn lemma_open(
    mode: EntropyMode,
    size: int,
    data: Seq<u8>,
    embed: bool,
    padding: int,
    fill: Seq<u8>,
)
    requires
        0 < size,
        reader::all_readable(mode, frames::blocks(data, size)),
        data.len() <= u64::MAX,
        frames::whole(mode, size, data, embed, padding, fill).len() <= u64::MAX,
    ensures
        ({
            let src = frames::whole(mode, size, data, embed, padding, fill);
            let bl = frames::blocks(data, size);
            let e = frames::entries_of(mode, 5, 0, bl);
            &&& streams(src, mode, bl)
            &&& frames::concat(bl) == data
            &&& opened(src, e, data.len() as u64) matches Ok(s) && placed(s, mode, bl) && s.total
                == data.len() && s.abs == 0 && rest_of(s, src) == (data, None::<StreamError>)
        }),
{
    let src = frames::whole(mode, size, data, embed, padding, fill);
    let bl = frames::blocks(data, size);
    let e = frames::entries_of(mode, 5, 0, bl);
    lemma_whole_streams(mode, size, data, embed, padding, fill);
    frames::lemma_entries_len(mode, 5, 0, bl);
    bytes::lemma_holds_split(src, 0, stream::header(), frames::frames(mode, bl));
    assert(src.take(5) =~= src.subrange(0, 5));
    let u = unloaded(e, data.len() as u64);
    let s = if bl.len() == 0 {
        u
    } else {
        lemma_loaded(u, src, mode, bl, 0);
        loaded(u, src, 0).0
    };
    assert(bl.take(0) =~= seq![]);
    assert(placed(s, mode, bl));
    lemma_rest(s, src, mode, bl);
    assert(data.skip(0) =~= data);
    if bl.len() == 0 {
        assert(data =~= seq![]);
    }
}

/// The index stored in a stream is the index of its blocks, as long as its size
/// fits in 32 bits.
pub proof fn lemma_stored_index(
    mode: EntropyMode,
    size: int,
    data: Seq<u8>,
    padding: int,
    fill: Seq<u8>,
)
    requires
        0 < size,
        data.len() <= u64::MAX,
        16 + 16 * frames::blocks(data, size).len() <= u32::MAX,
    ensures
        stored_index(frames::whole(mode, size, data, true, padding, fill)) == Ok::<
            (Seq<(u64, u64)>, u64),
            StreamError,
        >((frames::entries_of(mode, 5, 0, frames::blocks(data, size)), data.len() as u64)),
{
    let bl = frames::blocks(data, size);
    let e = frames::entries_of(mode, 5, 0, bl);
    let src = frames::whole(mode, size, data, true, padding, fill);
    frames::lemma_blocks(data, size);
    frames::lemma_begun_blocks(seq![], mode, bl);
    frames::lemma_entries_len(mode, 5, 0, bl);
    let s = frames::begun(frames::put_blocks(frames::unstarted(seq![]), mode, bl));
    let pad = frames::pad_bytes(fill, frames::pad_len(s.comp + 4, padding));
    let front = s.out + (bytes::le32(0) + pad);
    lemma_regroup(s.out, bytes::le32(0), pad, index::trailer(e, data.len() as u64));
    lemma_trailer(front, e, data.len() as u64);
}

proof fn lemma_regroup(w: Seq<u8>, x: Seq<u8>, y: Seq<u8>, z: Seq<u8>)
    ensures
        w + (x + y + z) == w + (x + y) + z,
{
    assert(w + (x + y + z) =~= w + (x + y) + z);
}

/// The index is read back from behind anything.
proof fn lemma_trailer(front: Seq<u8>, e: Seq<(u64, u64)>, total: u64)
    requires
        16 + 16 * e.len() <= u32::MAX,
    ensures
        stored_index(front + index::trailer(e, total)) == Ok::<
            (Seq<(u64, u64)>, u64),
            StreamError,
        >((e, total)),
{
    let p = index::index_bytes(e, total);
    index::lemma_index_roundtrip(e, total);
    lemma_trailer_parts(front, p);
}

proof fn lemma_trailer_parts(front: Seq<u8>, p: Seq<u8>)
    requires
        p.len() <= u32::MAX,
    ensures
        ({
            let n = p.len() as int;
            let src = front + (p + bytes::le32(n % 0x1_0000_0000) + stream::index_magic());
            let end = src.len() as int;
            &&& end == front.len() + n + 8
            &&& src.skip(end - 8).skip(4) == stream::index_magic()
            &&& bytes::u32_at(src.skip(end - 8), 0) == n
            &&& src.subrange(end - 8 - n, end - 8) == p
        }),
{
    let n = p.len() as int;
    let l = bytes::le32(n % 0x1_0000_0000);
    let m = stream::index_magic();
    assert(n % 0x1_0000_0000 == n);
    let src = front + (p + l + m);
    let end = src.len() as int;
    let k = front.len() as int;
    assert(l.len() == 4 && m.len() == 4);
    assert(src.subrange(0, end) =~= src);
    bytes::lemma_holds_split(src, 0, front, p + l + m);
    bytes::lemma_holds_split(src, k, p + l, m);
    bytes::lemma_holds_split(src, k, p, l);
    assert(src.skip(end - 8).skip(4) =~= src.subrange(end - 4, end));
    assert(src.skip(end - 8).subrange(0, 4) =~= src.subrange(end - 8, end - 4));
    bytes::lemma_read_le32(src.skip(end - 8), 0, n);
}

// ---------------------------------------------------------------------------
// Executable form
// ---------------------------------------------------------------------------
/// The length that the four bytes `b` announce for a frame.
pub fn read_frame_length(b: &[u8]) -> (r: Result<usize, StreamError>)
    ensures
        match r {
            Ok(n) => frame_length(b@) == Ok::<int, StreamError>(n as int),
            Err(e) => frame_length(b@) == Err::<int, StreamError>(e),
        },
{
    if b.len() < 4 {
        return Err(StreamError::UnexpectedEof);
    }
    let c: u32 = get_u32(b, 0);
    if c == 0 || c as usize > MAX_FRAME_LEN {
        return Err(StreamError::BadFrame);
    }
    Ok(c as usize)
}

/// Decides which block of a stream to load, and hands out what was loaded.
pub struct Seeker {
    index: Index,
    block: Vec<u8>,
    entry: usize,
    block_uoff: u64,
    pos: usize,
    abs: u64,
    decoder: Decoder,
}

impl View for Seeker {
    type V = Seeking;

    closed spec fn view(&self) -> Seeking {
        Seeking {
            entries: self.index.entries@,
            total: self.index.total,
            block: self.block@,
            entry: self.entry as int,
            block_uoff: self.block_uoff,
            pos: self.pos as int,
            abs: self.abs,
        }
    }
}

impl Seeker {
    /// A seeker before its first block.
    pub fn new(index: Index) -> (s: Seeker)
        ensures
            s@ == unloaded(index.entries@, index.total),
    {
        let s = Seeker {
            index,
            block: Vec::new(),
            entry: 0,
            block_uoff: 0,
            pos: 0,
            abs: 0,
            decoder: Decoder::new(),
        };
        assert(s.block@ =~= seq![]);
        s
    }

    /// Number of blocks.
    pub fn block_count(&self) -> (n: usize)
        ensures
            n == self@.entries.len(),
    {
        self.index.entries.len()
    }

    /// Length of the content.
    pub fn total_uncompressed(&self) -> (n: u64)
        ensures
            n == self@.total,
    {
        self.index.total
    }

    /// Where in the stream the frame of block number `i` is.
    pub fn frame_offset(&self, i: usize) -> (at: u64)
        requires
            i < self@.entries.len(),
        ensures
            at == self@.entries[i as int].0,
    {
        self.index.entries[i].0
    }

    /// Takes the block number `i`.
    pub fn install(&mut self, i: usize, b: &[u8]) -> (r: Result<(), StreamError>)
        requires
            i < old(self)@.entries.len(),
        ensures
            installed(old(self)@, i as int, b@) == (
                final(self)@,
                match r {
                    Ok(()) => None::<StreamError>,
                    Err(e) => Some(e),
                },
            ),
            final(self)@.entries == old(self)@.entries,
    {
        proof {
            reveal(installed);
        }
        match self.decoder.decompress_into(b, &mut self.block) {
            Ok(()) => {
                self.entry = i;
                self.block_uoff = self.index.entries[i].1;
                self.pos = 0;
                Ok(())
            },
            Err(e) => Err(StreamError::DecodeFailed(e)),
        }
    }

    /// The position `target`, cut to the length of the content.
    pub fn bound(&self, target: u64) -> (t: u64)
        ensures
            t == bounded(self@, target),
    {
        if target < self.index.total {
            target
        } else {
            self.index.total
        }
    }

    /// The block that has to be loaded to go to `t`, if any.
    pub fn wanted_block(&self, t: u64) -> (r: Option<usize>)
        ensures
            match r {
                Some(i) => wanted(self@, t) == Some(i as int) && i < self@.entries.len(),
                None => wanted(self@, t) is None,
            },
    {
        if self.index.entries.len() == 0 {
            return None;
        }
        let i: usize = locate(&self.index.entries, t);
        if self.block.len() == 0 || i != self.entry {
            Some(i)
        } else {
            None
        }
    }

    /// Goes to `t`, the block of which is at hand.
    pub fn settle(&mut self, t: u64)
        ensures
            final(self)@ == settled(old(self)@, t),
    {
        self.abs = t;
        if self.index.entries.len() > 0 {
            let len: usize = self.block.len();
            self.pos = if t < self.block_uoff || t - self.block_uoff > len as u64 {
                len
            } else {
                (t - self.block_uoff) as usize
            };
        }
    }

    /// The block to load next when the one at hand is used up, if there is one.
    pub fn next_block(&self) -> (r: Option<usize>)
        ensures
            match r {
                Some(i) => left(self@) == 0 && i == self@.entry + 1 && i < self@.entries.len(),
                None => left(self@) > 0 || self@.entry + 1 >= self@.entries.len(),
            },
    {
        if self.pos < self.block.len() || self.index.entries.len() == 0 || self.entry
            >= self.index.entries.len() - 1 {
            None
        } else {
            Some(self.entry + 1)
        }
    }

    /// Hands out decoded bytes to the front of `out`; the result is their number.
    pub fn serve(&mut self, out: &mut [u8]) -> (n: usize)
        ensures
            n == if left(old(self)@) < old(out)@.len() {
                left(old(self)@)
            } else {
                old(out)@.len() as int
            },
            final(self)@ == if n == 0 {
                old(self)@
            } else {
                advanced(old(self)@, n as int)
            },
            final(out)@ == (if n == 0 {
                seq![]
            } else {
                old(self)@.block.subrange(old(self)@.pos, old(self)@.pos + n)
            }) + old(out)@.skip(n as int),
    {
        let ghost before = out@;
        let end: usize = self.block.len();
        let from: usize = self.pos;
        let have: usize = if from < end {
            end - from
        } else {
            0
        };
        let n: usize = if have < out.len() {
            have
        } else {
            out.len()
        };
        let mut k: usize = 0;
        while k < n
            invariant
                k <= n <= before.len(),
                n > 0 ==> from + n <= end,
                end == self.block@.len(),
                before.len() == out@.len(),
                self@ == old(self)@,
                from == self.pos,
                forall|i: int| 0 <= i < k ==> out@[i] == self.block@[from + i],
                forall|i: int| k <= i < out@.len() ==> out@[i] == before[i],
            decreases n - k,
        {
            out[k] = self.block[from + k];
            k = k + 1;
        }
        if n > 0 {
            self.pos = from + n;
            self.abs = ((self.abs as u128 + n as u128) % 0x1_0000_0000_0000_0000) as u64;
        }
        assert(out@ =~= (if n == 0 {
            seq![]
        } else {
            old(self)@.block.subrange(old(self)@.pos, old(self)@.pos + n)
        }) + before.skip(n as int));
        n
    }

    /// The content position that `to` stands for.
    pub fn target(&self, to: SeekTo) -> (t: u64)
        ensures
            t == target_of(self@, to),
    {
        match to {
            SeekTo::Start(n) => n,
            SeekTo::End(n) => add_offset(self.index.total, n),
            SeekTo::Current(n) => add_offset(self.abs, n),
        }
    }
}

/// The position `n` away from `base`.
fn add_offset(base: u64, n: i64) -> (t: u64)
    ensures
        t == offset_by(base, n),
{
    let b: i128 = if base <= 0x7fff_ffff_ffff_ffff {
        base as i128
    } else {
        base as i128 - 0x1_0000_0000_0000_0000
    };
    let v: i128 = b + n as i128;
    if v < 0 {
        0
    } else if v > 0x7fff_ffff_ffff_ffff {
        0x7fff_ffff_ffff_ffff
    } else {
        v as u64
    }
}

/// Reads the index stored at the end of the stream `src`.
pub fn load_stored_index(src: &[u8]) -> (r: Result<Index, StreamError>)
    ensures
        match r {
            Ok(i) => stored_index(src@) == Ok::<(Seq<(u64, u64)>, u64), StreamError>(
                (i.entries@, i.total),
            ),
            Err(e) => stored_index(src@) == Err::<(Seq<(u64, u64)>, u64), StreamError>(e),
        },
{
    let end: usize = src.len();
    if end < 13 {
        return Err(StreamError::TooShort);
    }
    assert(src@.skip(end - 8) =~= src@.subrange(end - 8, end as int));
    match read_index_length(end as u64, &src[end - 8..end]) {
        Ok(n) => Index::load(&src[end - 8 - n..end - 8]),
        Err(e) => Err(e),
    }
}

/// The size of the index of a stream of `end` bytes whose last eight are `tail`.
pub fn read_index_length(end: u64, tail: &[u8]) -> (r: Result<usize, StreamError>)
    requires
        tail@.len() == 8,
    ensures
        match r {
            Ok(n) => index_length(end as int, tail@) == Ok::<int, StreamError>(n as int) && n + 8
                <= end,
            Err(e) => index_length(end as int, tail@) == Err::<int, StreamError>(e),
        },
{
    if end < 13 {
        return Err(StreamError::TooShort);
    }
    assert(tail@.skip(4) =~= tail@.subrange(4, 8));
    if !has_index_magic(&tail[4..8]) {
        return Err(StreamError::NoSeekIndex);
    }
    let n: u32 = get_u32(tail, 0);
    if n < 16 || n as u64 > end - 8 {
        return Err(StreamError::BadIndexLength);
    }
    Ok(n as usize)
}

/// Whether the four bytes `b` mark a stored index.
fn has_index_magic(b: &[u8]) -> (r: bool)
    requires
        b@.len() == 4,
    ensures
        r == (b@ == stream::index_magic()),
{
    let r: bool = b[0] == 0x49 && b[1] == 0x47 && b[2] == 0x5a && b[3] == 0x58;
    proof {
        if r {
            assert(b@ =~= stream::index_magic());
        }
    }
    r
}

/// A seeking reader and its stream.
pub struct Sought {
    pub seeker: Seeking,
    pub src: Seq<u8>,
}

/// Random access to a stream in memory.
pub struct SeekReader {
    source: Vec<u8>,
    seeker: Seeker,
}

impl View for SeekReader {
    type V = Sought;

    closed spec fn view(&self) -> Sought {
        Sought { seeker: self.seeker@, src: self.source@ }
    }
}

impl SeekReader {
    /// Opens a stream that holds its index.
    pub fn new(inner: Vec<u8>) -> (r: Result<SeekReader, StreamError>)
        ensures
            match stored_index(inner@) {
                Err(e) => r matches Err(x) && x == e,
                Ok((entries, total)) => match opened(inner@, entries, total) {
                    Err(e) => r matches Err(x) && x == e,
                    Ok(s) => r matches Ok(q) && q@ == (Sought { seeker: s, src: inner@ }),
                },
            },
    {
        match load_stored_index(&inner) {
            Ok(i) => SeekReader::from_index(inner, i),
            Err(e) => Err(e),
        }
    }

    /// Opens a stream whose index is kept apart from it.
    pub fn with_index(inner: Vec<u8>, index: &Index) -> (r: Result<SeekReader, StreamError>)
        ensures
            match opened(inner@, index.entries@, index.total) {
                Err(e) => r matches Err(x) && x == e,
                Ok(s) => r matches Ok(q) && q@ == (Sought { seeker: s, src: inner@ }),
            },
    {
        SeekReader::from_index(inner, index.clone())
    }

    fn from_index(inner: Vec<u8>, index: Index) -> (r: Result<SeekReader, StreamError>)
        ensures
            match opened(inner@, index.entries@, index.total) {
                Err(e) => r matches Err(x) && x == e,
                Ok(s) => r matches Ok(q) && q@ == (Sought { seeker: s, src: inner@ }),
            },
    {
        if inner.len() < 5 {
            return Err(StreamError::UnexpectedEof);
        }
        if !has_header(&inner) {
            return Err(StreamError::NotAStream);
        }
        let count: usize = index.entries.len();
        let mut s = SeekReader { source: inner, seeker: Seeker::new(index) };
        if count > 0 {
            match s.load_entry(0) {
                Ok(()) => {},
                Err(e) => {
                    return Err(e);
                },
            }
        }
        Ok(s)
    }

    /// Length of the content.
    pub fn total_uncompressed(&self) -> (n: u64)
        ensures
            n == self@.seeker.total,
    {
        self.seeker.total_uncompressed()
    }

    /// Loads the block number `i`.
    fn load_entry(&mut self, i: usize) -> (r: Result<(), StreamError>)
        requires
            i < old(self)@.seeker.entries.len(),
        ensures
            final(self)@.src == old(self)@.src,
            final(self)@.seeker.entries == old(self)@.seeker.entries,
            loaded(old(self)@.seeker, old(self)@.src, i as int) == (
                final(self)@.seeker,
                match r {
                    Ok(()) => None::<StreamError>,
                    Err(e) => Some(e),
                },
            ),
    {
        let coff: u64 = self.seeker.frame_offset(i);
        let len: usize = self.source.len();
        if len < 4 || coff > (len - 4) as u64 {
            return Err(StreamError::UnexpectedEof);
        }
        let at: usize = coff as usize;
        let n: usize = match read_frame_length(&self.source[at..at + 4]) {
            Ok(n) => n,
            Err(e) => {
                return Err(e);
            },
        };
        if n > len - at - 4 {
            return Err(StreamError::UnexpectedEof);
        }
        self.seeker.install(i, &self.source[at + 4..at + 4 + n])
    }

    /// Goes to the content position `target`, cut to the length of the content; the
    /// result is the new position.
    pub fn seek_uncompressed(&mut self, target: u64) -> (r: Result<u64, StreamError>)
        ensures
            final(self)@.src == old(self)@.src,
            sought(old(self)@.seeker, old(self)@.src, target) == (final(self)@.seeker, r),
    {
        let t: u64 = self.seeker.bound(target);
        match self.seeker.wanted_block(t) {
            Some(i) => match self.load_entry(i) {
                Ok(()) => {},
                Err(e) => {
                    return Err(e);
                },
            },
            None => {},
        }
        self.seeker.settle(t);
        Ok(t)
    }

    /// Goes to the content position that `to` stands for.
    pub fn seek(&mut self, to: SeekTo) -> (r: Result<u64, StreamError>)
        ensures
            final(self)@.src == old(self)@.src,
            sought(old(self)@.seeker, old(self)@.src, target_of(old(self)@.seeker, to)) == (
                final(self)@.seeker,
                r,
            ),
    {
        let t: u64 = self.seeker.target(to);
        self.seek_uncompressed(t)
    }

    /// Reads bytes to the front of `out`; the result is their number, which is
    /// zero only at the end of the stream or if `out` is empty.
    pub fn read(&mut self, out: &mut [u8]) -> (r: Result<usize, StreamError>)
        ensures
            final(self)@.src == old(self)@.src,
            ({
                let (s1, res) = read_some(
                    old(self)@.seeker,
                    old(self)@.src,
                    old(out)@.len() as int,
                );
                &&& final(self)@.seeker == s1
                &&& match res {
                    Ok(d) => r == Ok::<usize, StreamError>(d.len() as usize) && final(out)@ == d
                        + old(out)@.skip(d.len() as int),
                    Err(e) => r == Err::<usize, StreamError>(e) && final(out)@ == old(out)@,
                }
            }),
    {
        if out.len() == 0 {
            assert(out@ =~= Seq::<u8>::empty() + old(out)@.skip(0));
            return Ok(0);
        }
        let ghost src = self@.src;
        let ghost all = filled(self@.seeker, src);
        let mut next: Option<usize> = self.seeker.next_block();
        while next.is_some()
            invariant
                self@.src == src,
                all == filled(self@.seeker, src),
                match next {
                    Some(i) => left(self@.seeker) == 0 && i == self@.seeker.entry + 1 && i
                        < self@.seeker.entries.len(),
                    None => left(self@.seeker) > 0 || self@.seeker.entry + 1
                        >= self@.seeker.entries.len(),
                },
                src == old(self)@.src,
                all == filled(old(self)@.seeker, src),
                out@ == old(out)@,
                out@.len() > 0,
            decreases
                    (if next is Some {
                        1int
                    } else {
                        0
                    }),
                    self@.seeker.entries.len() - self@.seeker.entry,
        {
            if let Some(i) = next {
                proof {
                    reveal(installed);
                }
                match self.load_entry(i) {
                    Ok(()) => {},
                    Err(e) => {
                        return Err(e);
                    },
                }
                next = self.seeker.next_block();
            }
        }
        Ok(self.seeker.serve(out))
    }
}

} // verus!
