//! The stream reader.
//!
//! [`Unpacker`] decides what to take from a source and what to make of it: it
//! says how many bytes it needs next, and is handed that many, or fewer where
//! the source ends. [`Reader`] runs it on a source in memory.
use crate::bytes;
use crate::bytes::{append, get_u32};
use crate::encoder;
use crate::encoder::EntropyMode;
use crate::error::Error;
use crate::stream;
use crate::stream::frames;
use crate::stream::{has_magic, StreamError, MAX_FRAME_LEN, PASSTHROUGH_CHUNK, STREAM_VERSION};
use crate::structural;
use crate::structural::{block_decoded_len, Decoder};
use vstd::prelude::*;

verus! {

/// Where in a stream a reader is.
#[derive(Debug, Clone, Copy, PartialEq, Eq, Structural)]
pub enum Phase {
    /// Before the header.
    Start,
    /// Before a frame.
    Frames,
    /// Before the block of a frame, of the given length.
    Body(usize),
    /// In a source that is no stream and is passed through.
    Through,
    /// At the end.
    Finished,
}

/// The state of a reader: a decoded block, how much of it was handed out, the
/// place in the stream, and the settings.
pub struct Reading {
    pub block: Seq<u8>,
    pub pos: int,
    pub phase: Phase,
    pub fallback: bool,
    pub ignore_magic: bool,
}

/// A reader before its first byte.
pub open spec fn fresh(fallback: bool, ignore_magic: bool) -> Reading {
    Reading { block: seq![], pos: 0, phase: Phase::Start, fallback, ignore_magic }
}

/// The phase, a reader that ignores the header being past it.
pub open spec fn phase_of(r: Reading) -> Phase {
    if r.phase is Start && r.ignore_magic {
        Phase::Frames
    } else {
        r.phase
    }
}

/// Number of decoded bytes that were not handed out yet.
pub open spec fn left(r: Reading) -> int {
    if r.pos < r.block.len() {
        r.block.len() - r.pos
    } else {
        0
    }
}

/// Number of bytes that the reader needs from its source before it can hand out
/// any.
pub open spec fn need(r: Reading) -> int {
    match phase_of(r) {
        Phase::Start => 5,
        Phase::Frames => if left(r) > 0 {
            0
        } else {
            4
        },
        Phase::Body(c) => if left(r) > 0 {
            0
        } else {
            c as int
        },
        Phase::Through => if left(r) > 0 {
            0
        } else {
            PASSTHROUGH_CHUNK as int
        },
        Phase::Finished => 0,
    }
}

/// The state after the reader was handed `b`, and the error that it found. If `b`
/// is shorter than what the reader needed, the source has ended.
#[verifier::opaque]
pub open spec fn supplied(r: Reading, b: Seq<u8>) -> (Reading, Option<StreamError>) {
    match phase_of(r) {
        Phase::Start => if b.len() >= 4 && b.take(4) == stream::magic() {
            if b.len() < 5 || b[4] != STREAM_VERSION {
                (r, Some(StreamError::UnsupportedVersion))
            } else {
                (Reading { phase: Phase::Frames, ..r }, None)
            }
        } else if r.fallback {
            (Reading { phase: Phase::Through, block: b, pos: 0, ..r }, None)
        } else {
            (r, Some(StreamError::BadMagic))
        },
        Phase::Frames => if b.len() < 4 || bytes::u32_at(b, 0) == 0 {
            (Reading { phase: Phase::Finished, ..r }, None)
        } else if bytes::u32_at(b, 0) > MAX_FRAME_LEN {
            (Reading { phase: Phase::Frames, ..r }, Some(StreamError::FrameTooLarge))
        } else {
            (Reading { phase: Phase::Body(bytes::u32_at(b, 0) as usize), ..r }, None)
        },
        Phase::Body(c) => if b.len() < c {
            (Reading { phase: Phase::Frames, ..r }, Some(StreamError::UnexpectedEof))
        } else {
            match structural::outcome(b) {
                Ok(out) => (Reading { phase: Phase::Frames, block: out, pos: 0, ..r }, None),
                Err((out, e)) => (
                    Reading { phase: Phase::Frames, block: out, ..r },
                    Some(StreamError::DecodeFailed(e)),
                ),
            }
        },
        Phase::Through => (
            Reading {
                phase: if b.len() == 0 {
                    Phase::Finished
                } else {
                    Phase::Through
                },
                block: b,
                pos: 0,
                ..r
            },
            None,
        ),
        Phase::Finished => (r, None),
    }
}

/// What `supplied` does, except that a block of at most `n` content bytes is
/// passed over without being decoded; the number of bytes passed over.
#[verifier::opaque]
pub open spec fn passed(r: Reading, b: Seq<u8>, n: int) -> (Reading, Result<int, StreamError>) {
    let (r1, e) = supplied(r, b);
    let plain = (
        r1,
        match e {
            Some(x) => Err(x),
            None => Ok(0int),
        },
    );
    match phase_of(r) {
        Phase::Body(c) => if b.len() < c {
            plain
        } else {
            match structural::decoded_len(b) {
                Err(x) => (
                    Reading { phase: Phase::Frames, ..r },
                    Err(StreamError::BadBlock(x)),
                ),
                Ok(u) => if n >= u {
                    (Reading { phase: Phase::Frames, block: seq![], pos: 0, ..r }, Ok(u))
                } else {
                    plain
                },
            }
        },
        _ => plain,
    }
}

// ---------------------------------------------------------------------------
// Reading a source in memory
// ---------------------------------------------------------------------------
/// Number of bytes that the source `src` hands to the reader.
pub open spec fn portion(r: Reading, src: Seq<u8>) -> int {
    if need(r) < src.len() {
        need(r)
    } else {
        src.len() as int
    }
}

/// How far a reader is from its end, as far as the source does not say.
pub open spec fn rank(r: Reading) -> int {
    match r.phase {
        Phase::Start => 2,
        Phase::Finished => 0,
        _ => 1,
    }
}

/// Where the source gives nothing, the reader gets closer to its end.
pub proof fn lemma_supplied_rank(r: Reading, b: Seq<u8>)
    requires
        need(r) > 0,
    ensures
        supplied(r, b).1 is None && b.len() == 0 ==> rank(supplied(r, b).0) < rank(r),
{
    reveal(supplied);
}

/// Skipping at the end of the source comes to an end.
pub proof fn lemma_passed_rank(r: Reading, b: Seq<u8>, n: int)
    requires
        need(r) > 0,
    ensures
        passed(r, b, n).1 is Ok && b.len() == 0 ==> rank(passed(r, b, n).0) < rank(r),
{
    reveal(passed);
    lemma_supplied_rank(r, b);
}

/// The reader and the rest of its source once it can hand out bytes, or is at the
/// end, or has found an error.
pub open spec fn filled(r: Reading, src: Seq<u8>) -> (Reading, Seq<u8>, Option<StreamError>)
    decreases src.len(), rank(r),
{
    if need(r) <= 0 {
        (r, src, None)
    } else {
        let k = portion(r, src);
        let (r1, e) = supplied(r, src.take(k));
        if e is Some {
            (r1, src.skip(k), e)
        } else {
            proof {
                lemma_supplied_rank(r, src.take(k));
            }
            filled(r1, src.skip(k))
        }
    }
}

/// What a call that asks for `m` bytes gives.
pub open spec fn read_some(r: Reading, src: Seq<u8>, m: int) -> (
    Reading,
    Seq<u8>,
    Result<Seq<u8>, StreamError>,
) {
    if m <= 0 {
        (r, src, Ok(seq![]))
    } else {
        let (r1, s1, e) = filled(r, src);
        match e {
            Some(x) => (r1, s1, Err(x)),
            None => {
                let n = if left(r1) < m {
                    left(r1)
                } else {
                    m
                };
                (
                    Reading { pos: r1.pos + n, ..r1 },
                    s1,
                    Ok(
                        if n == 0 {
                            seq![]
                        } else {
                            r1.block.subrange(r1.pos, r1.pos + n)
                        },
                    ),
                )
            },
        }
    }
}

/// All that can be read: the bytes up to the end or the first error.
pub struct Delivery {
    pub data: Seq<u8>,
    pub err: Option<StreamError>,
    pub reader: Reading,
    pub src: Seq<u8>,
}

/// All that can be read on.
pub open spec fn delivered(r: Reading, src: Seq<u8>) -> Delivery
    decreases src.len(), rank(r), left(r),
{
    if need(r) <= 0 {
        if left(r) > 0 {
            let d = delivered(Reading { pos: r.block.len() as int, ..r }, src);
            Delivery { data: r.block.skip(r.pos) + d.data, ..d }
        } else {
            Delivery { data: seq![], err: None, reader: r, src }
        }
    } else {
        let k = portion(r, src);
        let (r1, e) = supplied(r, src.take(k));
        if e is Some {
            Delivery { data: seq![], err: e, reader: r1, src: src.skip(k) }
        } else {
            proof {
                lemma_supplied_rank(r, src.take(k));
            }
            delivered(r1, src.skip(k))
        }
    }
}

/// Passing over `n` bytes, `acc` having been passed over.
pub open spec fn skipped(r: Reading, src: Seq<u8>, n: int, acc: int) -> (
    Reading,
    Seq<u8>,
    Result<int, StreamError>,
)
    decreases src.len(), rank(r), left(r),
{
    if n <= 0 {
        (r, src, Ok(acc))
    } else if need(r) <= 0 {
        if left(r) > n {
            (Reading { pos: r.pos + n, ..r }, src, Ok(acc + n))
        } else if left(r) > 0 {
            skipped(Reading { pos: r.block.len() as int, ..r }, src, n - left(r), acc + left(r))
        } else {
            (r, src, Ok(acc))
        }
    } else {
        let k = portion(r, src);
        let (r1, u) = passed(r, src.take(k), n);
        match u {
            Err(x) => (r1, src.skip(k), Err(x)),
            Ok(u) => {
                proof {
                    lemma_passed_rank(r, src.take(k), n);
                }
                skipped(r1, src.skip(k), n - u, acc + u)
            },
        }
    }
}

/// Passing over `n` bytes. The header is read in any case.
pub open spec fn skip_some(r: Reading, src: Seq<u8>, n: int) -> (
    Reading,
    Seq<u8>,
    Result<int, StreamError>,
) {
    if n <= 0 && r.phase is Start {
        if r.ignore_magic {
            (Reading { phase: Phase::Frames, ..r }, src, Ok(0))
        } else {
            let k = portion(r, src);
            let (r1, e) = supplied(r, src.take(k));
            (
                r1,
                src.skip(k),
                match e {
                    Some(x) => Err(x),
                    None => Ok(0),
                },
            )
        }
    } else {
        skipped(r, src, n, 0)
    }
}

// ---------------------------------------------------------------------------
// Properties
// ---------------------------------------------------------------------------
proof fn lemma_filled(r: Reading, src: Seq<u8>)
    ensures
        ({
            let (r1, s1, e) = filled(r, src);
            match e {
                Some(x) => {
                    let d = delivered(r, src);
                    d.data == Seq::<u8>::empty() && d.err == Some(x) && d.reader == r1 && d.src
                        == s1
                },
                None => delivered(r, src) == delivered(r1, s1) && need(r1) <= 0,
            }
        }),
    decreases src.len(), rank(r),
{
    if need(r) > 0 {
        let k = portion(r, src);
        let (r1, e) = supplied(r, src.take(k));
        if e is None {
            lemma_supplied_rank(r, src.take(k));
            lemma_filled(r1, src.skip(k));
        }
    }
}

proof fn lemma_advance(r: Reading, src: Seq<u8>, n: int)
    requires
        need(r) <= 0,
        0 <= r.pos,
        0 < n <= left(r),
    ensures
        delivered(r, src).data == r.block.subrange(r.pos, r.pos + n) + delivered(
            Reading { pos: r.pos + n, ..r },
            src,
        ).data,
        delivered(r, src).err == delivered(Reading { pos: r.pos + n, ..r }, src).err,
{
    let q = Reading { pos: r.pos + n, ..r };
    if n < left(r) {
        assert(need(q) <= 0);
        assert(r.block.skip(r.pos) =~= r.block.subrange(r.pos, r.pos + n) + q.block.skip(q.pos));
        let d = delivered(Reading { pos: r.block.len() as int, ..r }, src);
        assert(r.block.skip(r.pos) + d.data =~= r.block.subrange(r.pos, r.pos + n)
            + (q.block.skip(q.pos) + d.data));
    } else {
        assert(r.block.skip(r.pos) =~= r.block.subrange(r.pos, r.pos + n));
    }
}

/// A call hands out the next bytes of what can be read, and the rest can be read
/// after it; it hands out none only at the end.
pub proof fn lemma_read(r: Reading, src: Seq<u8>, m: int)
    requires
        0 < m,
        0 <= r.pos,
    ensures
        ({
            let (r1, s1, res) = read_some(r, src, m);
            match res {
                Ok(d) => {
                    &&& d.len() <= m
                    &&& delivered(r, src).data == d + delivered(r1, s1).data
                    &&& delivered(r, src).err == delivered(r1, s1).err
                    &&& d.len() == 0 ==> delivered(r, src).data == Seq::<u8>::empty()
                        && delivered(r, src).err is None
                },
                Err(x) => delivered(r, src).data == Seq::<u8>::empty() && delivered(r, src).err
                    == Some(x),
            }
        }),
{
    lemma_filled(r, src);
    lemma_filled_pos(r, src);
    let (r1, s1, e) = filled(r, src);
    if e is None {
        let n = if left(r1) < m {
            left(r1)
        } else {
            m
        };
        if n > 0 {
            lemma_advance(r1, s1, n);
        } else {
            assert(Reading { pos: r1.pos + n, ..r1 } == r1);
            assert(seq![] + delivered(r1, s1).data =~= delivered(r1, s1).data);
        }
    }
}

proof fn lemma_filled_pos(r: Reading, src: Seq<u8>)
    requires
        0 <= r.pos,
    ensures
        0 <= filled(r, src).0.pos,
    decreases src.len(), rank(r),
{
    if need(r) > 0 {
        let k = portion(r, src);
        let (r1, e) = supplied(r, src.take(k));
        reveal(supplied);
        if e is None {
            lemma_supplied_rank(r, src.take(k));
            lemma_filled_pos(r1, src.skip(k));
        }
    }
}

proof fn lemma_deliver_step(r: Reading, src: Seq<u8>, r1: Reading)
    requires
        need(r) > 0,
        supplied(r, src.take(portion(r, src))) == (r1, None::<StreamError>),
    ensures
        delivered(r, src) == delivered(r1, src.skip(portion(r, src))),
{
}

proof fn lemma_skip_step(r: Reading, src: Seq<u8>, n: int, acc: int, r1: Reading, u: int)
    requires
        need(r) > 0,
        n > 0,
        passed(r, src.take(portion(r, src)), n) == (r1, Ok::<int, StreamError>(u)),
    ensures
        skipped(r, src, n, acc) == skipped(r1, src.skip(portion(r, src)), n - u, acc + u),
{
}

/// The frame of the block is one that a reader accepts.
pub open spec fn readable(mode: EntropyMode, b: Seq<u8>) -> bool {
    b.len() <= i32::MAX && encoder::compressed(mode, b).len() <= MAX_FRAME_LEN
}

/// The frames of all blocks are ones that a reader accepts.
pub open spec fn all_readable(mode: EntropyMode, bl: Seq<Seq<u8>>) -> bool {
    forall|i: int| 0 <= i < bl.len() ==> readable(mode, #[trigger] bl[i])
}

/// Two steps take a reader through the frame of a block.
proof fn lemma_frame_steps(r: Reading, mode: EntropyMode, b: Seq<u8>, tail: Seq<u8>)
    requires
        phase_of(r) is Frames,
        left(r) == 0,
        readable(mode, b),
    ensures
        ({
            let src = frames::frame(mode, b) + tail;
            let c = encoder::compressed(mode, b);
            let r1 = Reading { phase: Phase::Body(c.len() as usize), ..r };
            &&& need(r) == 4
            &&& portion(r, src) == 4
            &&& supplied(r, src.take(4)) == (r1, None::<StreamError>)
            &&& src.skip(4) == c + tail
            &&& need(r1) == c.len()
            &&& portion(r1, c + tail) == c.len()
            &&& (c + tail).take(c.len() as int) == c
            &&& (c + tail).skip(c.len() as int) == tail
            &&& supplied(r1, c) == (
                Reading { phase: Phase::Frames, block: b, pos: 0, ..r },
                None::<StreamError>,
            )
            &&& 0 < c.len()
        }),
{
    reveal(supplied);
    let src = frames::frame(mode, b) + tail;
    let c = encoder::compressed(mode, b);
    encoder::lemma_compressed_len(mode, b);
    encoder::lemma_roundtrip(mode, b);
    let h = bytes::le32(c.len() as int);
    assert(src =~= h + (c + tail));
    assert(src.take(4) =~= h);
    assert(h.subrange(0, 4) =~= h);
    bytes::lemma_read_le32(h, 0, c.len() as int);
    assert(src.skip(4) =~= c + tail);
    assert((c + tail).take(c.len() as int) =~= c);
    assert((c + tail).skip(c.len() as int) =~= tail);
}

/// Frames followed by an end marker deliver their blocks.
proof fn lemma_deliver_frames(r: Reading, mode: EntropyMode, bl: Seq<Seq<u8>>, tail: Seq<u8>)
    requires
        phase_of(r) is Frames,
        left(r) == 0,
        all_readable(mode, bl),
    ensures
        delivered(r, frames::frames(mode, bl) + bytes::le32(0) + tail).data == frames::concat(bl),
        delivered(r, frames::frames(mode, bl) + bytes::le32(0) + tail).err is None,
    decreases bl.len(),
{
    let src = frames::frames(mode, bl) + bytes::le32(0) + tail;
    if bl.len() == 0 {
        lemma_end_step(r, tail);
        assert(src =~= bytes::le32(0) + tail);
    } else {
        let b = bl[0];
        let rest = bl.skip(1);
        let more = frames::frames(mode, rest) + bytes::le32(0) + tail;
        assert(readable(mode, b));
        lemma_frame_steps(r, mode, b, more);
        assert(src =~= frames::frame(mode, b) + more);
        let c = encoder::compressed(mode, b);
        let r1 = Reading { phase: Phase::Body(c.len() as usize), ..r };
        let r2 = Reading { phase: Phase::Frames, block: b, pos: 0, ..r };
        lemma_deliver_step(r, src, r1);
        lemma_deliver_step(r1, c + more, r2);
        assert forall|i: int| 0 <= i < rest.len() implies readable(mode, #[trigger] rest[i]) by {
            assert(rest[i] == bl[i + 1]);
        }
        let r3 = Reading { pos: b.len() as int, ..r2 };
        lemma_deliver_frames(r3, mode, rest, tail);
        if b.len() > 0 {
            assert(b.skip(0) =~= b);
        } else {
            assert(r3 == r2);
            assert(b + frames::concat(rest) =~= frames::concat(rest));
        }
    }
}

/// An end marker ends the stream, whatever follows.
proof fn lemma_end_step(r: Reading, tail: Seq<u8>)
    requires
        phase_of(r) is Frames,
        left(r) == 0,
    ensures
        need(r) == 4,
        supplied(r, (bytes::le32(0) + tail).take(portion(r, bytes::le32(0) + tail))) == (
            Reading { phase: Phase::Finished, ..r },
            None::<StreamError>,
        ),
        delivered(r, bytes::le32(0) + tail).data == Seq::<u8>::empty(),
        delivered(r, bytes::le32(0) + tail).err is None,
{
    reveal(supplied);
    let h = bytes::le32(0);
    let src = h + tail;
    assert(src.take(4) =~= h);
    assert(h.subrange(0, 4) =~= h);
    bytes::lemma_read_le32(h, 0, 0);
    let r1 = Reading { phase: Phase::Finished, ..r };
    lemma_deliver_step(r, src, r1);
    assert(delivered(r1, src.skip(4)).data == Seq::<u8>::empty());
}

/// A reader accepts the frame of every block that leaves room for what a frame adds.
pub proof fn lemma_readable(mode: EntropyMode, b: Seq<u8>)
    requires
        b.len() + 141 <= MAX_FRAME_LEN,
    ensures
        readable(mode, b),
{
    encoder::lemma_compressed_len(mode, b);
}

/// A reader accepts the frames of all blocks if the block size, or the content,
/// leaves room for what a frame adds.
pub proof fn lemma_blocks_readable(mode: EntropyMode, data: Seq<u8>, size: int)
    requires
        0 < size,
        size + 141 <= MAX_FRAME_LEN || data.len() + 141 <= MAX_FRAME_LEN,
    ensures
        all_readable(mode, frames::blocks(data, size)),
    decreases data.len(),
{
    let bl = frames::blocks(data, size);
    frames::lemma_blocks(data, size);
    assert forall|i: int| 0 <= i < bl.len() implies readable(mode, #[trigger] bl[i]) by {
        lemma_block_at_most(data, size, i);
        lemma_readable(mode, bl[i]);
    }
}

/// No block is longer than the block size or the data.
pub proof fn lemma_block_at_most(data: Seq<u8>, size: int, i: int)
    requires
        0 < size,
        0 <= i < frames::blocks(data, size).len(),
    ensures
        frames::blocks(data, size)[i].len() <= size,
        frames::blocks(data, size)[i].len() <= data.len(),
    decreases data.len(),
{
    if data.len() > size {
        if i > 0 {
            lemma_block_at_most(data.skip(size), size, i - 1);
        }
    }
}

/// The parts of a whole stream.
pub proof fn lemma_whole(
    mode: EntropyMode,
    size: int,
    data: Seq<u8>,
    embed: bool,
    padding: int,
    fill: Seq<u8>,
) -> (tail: Seq<u8>)
    ensures
        frames::whole(mode, size, data, embed, padding, fill) == stream::header() + (
        frames::frames(mode, frames::blocks(data, size)) + bytes::le32(0) + tail),
{
    let bl = frames::blocks(data, size);
    frames::lemma_begun_blocks(seq![], mode, bl);
    let s = frames::begun(frames::put_blocks(frames::unstarted(seq![]), mode, bl));
    let pad = frames::pad_bytes(fill, frames::pad_len(s.comp + 4, padding));
    let t = if embed {
        stream::index::trailer(s.entries, s.uncomp as u64)
    } else {
        seq![]
    };
    assert(frames::whole(mode, size, data, embed, padding, fill) =~= stream::header() + (
    frames::frames(mode, bl) + bytes::le32(0) + (pad + t)));
    pad + t
}

/// The header takes a reader to the first frame.
proof fn lemma_header_step(r: Reading, tail: Seq<u8>)
    requires
        r.phase is Start,
        !r.ignore_magic,
    ensures
        need(r) == 5,
        portion(r, stream::header() + tail) == 5,
        supplied(r, (stream::header() + tail).take(5)) == (
            Reading { phase: Phase::Frames, ..r },
            None::<StreamError>,
        ),
        (stream::header() + tail).skip(5) == tail,
        delivered(r, stream::header() + tail) == delivered(
            Reading { phase: Phase::Frames, ..r },
            tail,
        ),
{
    reveal(supplied);
    let src = stream::header() + tail;
    assert(src.take(5) =~= stream::header());
    assert(stream::header().take(4) =~= stream::magic());
    assert(src.skip(5) =~= tail);
    lemma_deliver_step(r, src, Reading { phase: Phase::Frames, ..r });
}

/// Reading a whole stream gives its content: with or without index and padding,
/// with pass-through on or off, wherever a reader accepts the frames.
pub proof fn lemma_stream_roundtrip(
    mode: EntropyMode,
    size: int,
    data: Seq<u8>,
    embed: bool,
    padding: int,
    fill: Seq<u8>,
    fallback: bool,
)
    requires
        0 < size,
        all_readable(mode, frames::blocks(data, size)),
    ensures
        delivered(
            fresh(fallback, false),
            frames::whole(mode, size, data, embed, padding, fill),
        ).data == data,
        delivered(
            fresh(fallback, false),
            frames::whole(mode, size, data, embed, padding, fill),
        ).err is None,
{
    let tail = lemma_whole(mode, size, data, embed, padding, fill);
    let bl = frames::blocks(data, size);
    let r = fresh(fallback, false);
    lemma_header_step(r, frames::frames(mode, bl) + bytes::le32(0) + tail);
    lemma_deliver_frames(Reading { phase: Phase::Frames, ..r }, mode, bl, tail);
    frames::lemma_blocks(data, size);
}

/// A reader that ignores the header reads a stream from behind the header.
pub proof fn lemma_headerless_roundtrip(
    mode: EntropyMode,
    size: int,
    data: Seq<u8>,
    embed: bool,
    padding: int,
    fill: Seq<u8>,
    fallback: bool,
)
    requires
        0 < size,
        all_readable(mode, frames::blocks(data, size)),
    ensures
        delivered(
            fresh(fallback, true),
            frames::whole(mode, size, data, embed, padding, fill).skip(5),
        ).data == data,
        delivered(
            fresh(fallback, true),
            frames::whole(mode, size, data, embed, padding, fill).skip(5),
        ).err is None,
{
    let tail = lemma_whole(mode, size, data, embed, padding, fill);
    let bl = frames::blocks(data, size);
    let body = frames::frames(mode, bl) + bytes::le32(0) + tail;
    assert((stream::header() + body).skip(5) =~= body);
    lemma_deliver_frames(fresh(fallback, true), mode, bl, tail);
    frames::lemma_blocks(data, size);
}

proof fn lemma_pass_through(r: Reading, src: Seq<u8>)
    requires
        r.phase is Through,
        0 <= r.pos,
    ensures
        delivered(r, src).data == (if left(r) > 0 {
            r.block.skip(r.pos)
        } else {
            seq![]
        }) + src,
        delivered(r, src).err is None,
    decreases src.len(), left(r),
{
    if left(r) > 0 {
        lemma_pass_through(Reading { pos: r.block.len() as int, ..r }, src);
        assert(seq![] + src =~= src);
    } else {
        reveal(supplied);
        let k = portion(r, src);
        let r1 = supplied(r, src.take(k)).0;
        lemma_deliver_step(r, src, r1);
        if src.len() > 0 {
            lemma_pass_through(r1, src.skip(k));
            assert(src.take(k).skip(0) =~= src.take(k));
            assert(src.take(k) + src.skip(k) =~= src);
        } else {
            assert(delivered(r1, src.skip(k)).data =~= seq![]);
        }
        assert(seq![] + src =~= src);
    }
}

/// With pass-through on, a source that does not start with the magic is read as
/// it is.
pub proof fn lemma_fallback(src: Seq<u8>)
    requires
        src.len() < 4 || src.take(4) != stream::magic(),
    ensures
        delivered(fresh(true, false), src).data == src,
        delivered(fresh(true, false), src).err is None,
{
    reveal(supplied);
    let r = fresh(true, false);
    let k = portion(r, src);
    let b = src.take(k);
    if b.len() >= 4 {
        assert(b.take(4) =~= src.take(4));
    }
    let r1 = supplied(r, b).0;
    lemma_deliver_step(r, src, r1);
    lemma_pass_through(r1, src.skip(k));
    assert(b.skip(0) =~= b);
    assert((if left(r1) > 0 {
        b.skip(0)
    } else {
        seq![]
    }) =~= b);
    assert(b + src.skip(k) =~= src);
}

/// With pass-through off, such a source is refused.
pub proof fn lemma_bad_magic(src: Seq<u8>)
    requires
        src.len() < 4 || src.take(4) != stream::magic(),
    ensures
        delivered(fresh(false, false), src).data == Seq::<u8>::empty(),
        delivered(fresh(false, false), src).err == Some(StreamError::BadMagic),
{
    reveal(supplied);
    let r = fresh(false, false);
    let b = src.take(portion(r, src));
    if b.len() >= 4 {
        assert(b.take(4) =~= src.take(4));
    }
}

/// A source with the magic and without the version of this format is refused, with
/// pass-through on too.
pub proof fn lemma_bad_version(src: Seq<u8>, fallback: bool)
    requires
        src.len() >= 4,
        src.take(4) == stream::magic(),
        src.len() < 5 || src[4] != STREAM_VERSION,
    ensures
        delivered(fresh(fallback, false), src).data == Seq::<u8>::empty(),
        delivered(fresh(fallback, false), src).err == Some(StreamError::UnsupportedVersion),
{
    reveal(supplied);
    let r = fresh(fallback, false);
    let b = src.take(portion(r, src));
    assert(b.take(4) =~= src.take(4));
}

/// Frames with the packed blocks `cs`, whoever packed them.
pub open spec fn framed(cs: Seq<Seq<u8>>) -> Seq<u8>
    decreases cs.len(),
{
    if cs.len() == 0 {
        seq![]
    } else {
        bytes::le32(cs[0].len() as int) + cs[0] + framed(cs.skip(1))
    }
}

/// How a stream can end: with fewer than four bytes or a zero, at a frame that is too
/// large, within a frame, or with a block that cannot be decoded.
pub open spec fn ending(tail: Seq<u8>) -> Option<Option<StreamError>> {
    let c = bytes::u32_at(tail, 0);
    if tail.len() < 4 || c == 0 {
        Some(None)
    } else if c > 268435456 {
        Some(Some(StreamError::FrameTooLarge))
    } else if tail.len() < 4 + c {
        Some(Some(StreamError::UnexpectedEof))
    } else {
        match structural::decoded(tail.subrange(4, 4 + c)) {
            Err(e) => Some(Some(StreamError::DecodeFailed(e))),
            Ok(_) => None,
        }
    }
}

proof fn lemma_ending(r: Reading, tail: Seq<u8>)
    requires
        phase_of(r) is Frames,
        left(r) == 0,
        ending(tail) is Some,
    ensures
        delivered(r, tail).data == Seq::<u8>::empty(),
        delivered(r, tail).err == ending(tail).unwrap(),
{
    reveal(supplied);
    let k = portion(r, tail);
    let b = tail.take(k);
    let (r1, e) = supplied(r, b);
    let c = bytes::u32_at(tail, 0);
    if b.len() >= 4 {
        assert(b[0] == tail[0] && b[1] == tail[1] && b[2] == tail[2] && b[3] == tail[3]);
    }
    if e is None {
        lemma_deliver_step(r, tail, r1);
        if tail.len() < 4 || c == 0 {
            assert(delivered(r1, tail.skip(k)).data =~= seq![]);
        } else {
            let rest = tail.skip(4);
            let j = portion(r1, rest);
            let (r2, e2) = supplied(r1, rest.take(j));
            if tail.len() >= 4 + c {
                assert(rest.take(c) =~= tail.subrange(4, 4 + c));
            }
            assert(e2 is Some);
        }
    }
}

/// The same from any point between two frames, and without a header where that is ignored.
#[verifier::rlimit(30)]
pub proof fn lemma_deliver_framed(r: Reading, cs: Seq<Seq<u8>>, bs: Seq<Seq<u8>>, tail: Seq<u8>)
    requires
        phase_of(r) is Frames,
        left(r) == 0,
        cs.len() == bs.len(),
        forall|i: int|
            0 <= i < cs.len() ==> 0 < (#[trigger] cs[i]).len() <= 268435456 && structural::decoded(
                cs[i],
            ) == Ok::<Seq<u8>, Error>(bs[i]),
        ending(tail) is Some,
    ensures
        delivered(r, framed(cs) + tail).data == frames::concat(bs),
        delivered(r, framed(cs) + tail).err == ending(tail).unwrap(),
    decreases cs.len(),
{
    let src = framed(cs) + tail;
    if cs.len() == 0 {
        assert(src =~= tail);
        lemma_ending(r, tail);
    } else {
        reveal(supplied);
        let c = cs[0];
        let b = bs[0];
        let more = framed(cs.skip(1)) + tail;
        let h = bytes::le32(c.len() as int);
        assert(0 < c.len() <= 268435456);
        assert(structural::decoded(c) == Ok::<Seq<u8>, Error>(b));
        assert(structural::outcome(c) == Ok::<Seq<u8>, (Seq<u8>, Error)>(b));
        assert(src =~= h + (c + more));
        assert(src.take(4) =~= h);
        assert(h.subrange(0, 4) =~= h);
        bytes::lemma_read_le32(h, 0, c.len() as int);
        assert(src.skip(4) =~= c + more);
        assert((c + more).take(c.len() as int) =~= c);
        assert((c + more).skip(c.len() as int) =~= more);
        let r1 = Reading { phase: Phase::Body(c.len() as usize), ..r };
        let r2 = Reading { phase: Phase::Frames, block: b, pos: 0, ..r };
        lemma_deliver_step(r, src, r1);
        lemma_deliver_step(r1, c + more, r2);
        let r3 = Reading { pos: b.len() as int, ..r2 };
        assert forall|i: int| 0 <= i < cs.skip(1).len() implies 0 < (#[trigger] cs.skip(1)[i]).len()
            <= 268435456 && structural::decoded(cs.skip(1)[i]) == Ok::<Seq<u8>, Error>(
            bs.skip(1)[i],
        ) by {
            assert(cs.skip(1)[i] == cs[i + 1] && bs.skip(1)[i] == bs[i + 1]);
        }
        lemma_deliver_framed(r3, cs.skip(1), bs.skip(1), tail);
        if b.len() > 0 {
            assert(b.skip(0) =~= b);
        } else {
            assert(r3 == r2);
            assert(b + frames::concat(bs.skip(1)) =~= frames::concat(bs.skip(1)));
        }
    }
}

/// How a frame is skipped, whoever made it: its block is passed over by the length that it
/// announces, without being decoded, as long as that is not more than what is to be
/// skipped; else it is decoded, and the skip ends in it.
pub proof fn lemma_skip_frame(r: Reading, c: Seq<u8>, rest: Seq<u8>, n: int, acc: int)
    requires
        phase_of(r) is Frames,
        left(r) == 0,
        0 < c.len() <= 268435456,
        0 < n,
    ensures
        ({
            let s = skipped(r, bytes::le32(c.len() as int) + c + rest, n, acc);
            match structural::decoded_len(c) {
                Err(x) => s == (
                    Reading { phase: Phase::Frames, ..r },
                    rest,
                    Err::<int, StreamError>(StreamError::BadBlock(x)),
                ),
                Ok(u) => {
                    &&& u <= n ==> s == skipped(
                        Reading { phase: Phase::Frames, block: seq![], pos: 0, ..r },
                        rest,
                        n - u,
                        acc + u,
                    )
                    &&& u > n ==> match structural::outcome(c) {
                        Err((_, x)) => s.1 == rest && s.2 == Err::<int, StreamError>(
                            StreamError::DecodeFailed(x),
                        ),
                        Ok(b) => b.len() > n ==> s == (
                            Reading { phase: Phase::Frames, block: b, pos: n, ..r },
                            rest,
                            Ok::<int, StreamError>(acc + n),
                        ),
                    }
                },
            }
        }),
{
    reveal(supplied);
    reveal(passed);
    let h = bytes::le32(c.len() as int);
    let src = h + c + rest;
    assert(src.take(4) =~= h);
    assert(h.subrange(0, 4) =~= h);
    bytes::lemma_read_le32(h, 0, c.len() as int);
    assert(src.skip(4) =~= c + rest);
    assert((c + rest).take(c.len() as int) =~= c);
    assert((c + rest).skip(c.len() as int) =~= rest);
    let r1 = Reading { phase: Phase::Body(c.len() as usize), ..r };
    assert(need(r) == 4 && portion(r, src) == 4);
    assert(passed(r, h, n) == (r1, Ok::<int, StreamError>(0)));
    assert(skipped(r, src, n, acc) == skipped(r1, c + rest, n, acc));
    assert(need(r1) == c.len() && portion(r1, c + rest) == c.len());
    let (r2, u) = passed(r1, c, n);
    if u is Ok {
        assert(skipped(r1, c + rest, n, acc) == skipped(r2, rest, n - u->Ok_0, acc + u->Ok_0));
    }
}

/// Reading any stream gives the content of its blocks up to its end: all of it, without
/// an error, if the stream ends with a zero or runs out between frames; else that before
/// the error, which says what is wrong with the frame there.
pub proof fn lemma_read_any(cs: Seq<Seq<u8>>, bs: Seq<Seq<u8>>, tail: Seq<u8>, fallback: bool)
    requires
        cs.len() == bs.len(),
        forall|i: int|
            0 <= i < cs.len() ==> 0 < (#[trigger] cs[i]).len() <= 268435456 && structural::decoded(
                cs[i],
            ) == Ok::<Seq<u8>, Error>(bs[i]),
        ending(tail) is Some,
    ensures
        ({
            let src = seq![0x49u8, 0x47, 0x5a, 0x53, 1] + framed(cs) + tail;
            let d = delivered(fresh(fallback, false), src);
            &&& d.data == frames::concat(bs)
            &&& d.err == ending(tail).unwrap()
            &&& delivered(fresh(fallback, true), src.skip(5)).data == frames::concat(bs)
            &&& delivered(fresh(fallback, true), src.skip(5)).err == ending(tail).unwrap()
        }),
{
    let h = seq![0x49u8, 0x47, 0x5a, 0x53, 1];
    let rest = framed(cs) + tail;
    let src = h + framed(cs) + tail;
    assert(stream::header() =~= h);
    assert(src =~= stream::header() + rest);
    assert(src.skip(5) =~= rest);
    let r = fresh(fallback, false);
    lemma_header_step(r, rest);
    lemma_deliver_framed(Reading { phase: Phase::Frames, ..r }, cs, bs, tail);
    lemma_deliver_framed(fresh(fallback, true), cs, bs, tail);
}

// ---------------------------------------------------------------------------
// Reads and skips in any order
// ---------------------------------------------------------------------------
/// The frames of the blocks `bl`, the end marker, and what follows it.
pub open spec fn body(mode: EntropyMode, bl: Seq<Seq<u8>>, tail: Seq<u8>) -> Seq<u8> {
    frames::frames(mode, bl) + bytes::le32(0) + tail
}

/// The reader is within a stream: `src` goes on with the frames of `bl`, or with
/// the header and these.
pub open spec fn within(
    r: Reading,
    src: Seq<u8>,
    mode: EntropyMode,
    bl: Seq<Seq<u8>>,
    tail: Seq<u8>,
) -> bool {
    &&& all_readable(mode, bl)
    &&& 0 <= r.pos <= r.block.len()
    &&& match phase_of(r) {
        Phase::Frames => src == body(mode, bl, tail),
        Phase::Start => left(r) == 0 && src == stream::header() + body(mode, bl, tail),
        _ => false,
    }
}

/// The reader passes through a source that is no stream, or is about to.
pub open spec fn passing(r: Reading, src: Seq<u8>) -> bool {
    ||| r.phase is Through && 0 <= r.pos <= r.block.len()
    ||| r == fresh(true, false) && (src.len() < 4 || src.take(4) != stream::magic())
}

/// The reader is within a stream, or in a source that it passes through, or at the
/// end, and `rest` is what is left of the content.
pub open spec fn stands(r: Reading, src: Seq<u8>, rest: Seq<u8>) -> bool {
    ||| exists|mode: EntropyMode, bl: Seq<Seq<u8>>, tail: Seq<u8>| #[trigger]
        within(r, src, mode, bl, tail) && rest == r.block.skip(r.pos) + frames::concat(bl)
    ||| passing(r, src) && rest == r.block.skip(r.pos) + src
    ||| at_end(r) && rest.len() == 0
}

/// The reader has come to the end.
pub open spec fn at_end(r: Reading) -> bool {
    r.phase is Finished && 0 <= r.pos && left(r) == 0
}

/// A fresh reader of a stream has all its content before it.
pub proof fn lemma_stands_at_start(
    mode: EntropyMode,
    size: int,
    data: Seq<u8>,
    embed: bool,
    padding: int,
    fill: Seq<u8>,
    fallback: bool,
)
    requires
        0 < size,
        all_readable(mode, frames::blocks(data, size)),
    ensures
        ({
            let src = frames::whole(mode, size, data, embed, padding, fill);
            &&& stands(fresh(fallback, false), src, data)
            &&& stands(fresh(fallback, true), src.skip(5), data)
        }),
{
    let src = frames::whole(mode, size, data, embed, padding, fill);
    let tail = lemma_whole(mode, size, data, embed, padding, fill);
    let bl = frames::blocks(data, size);
    frames::lemma_blocks(data, size);
    assert(src.skip(5) =~= body(mode, bl, tail));
    assert(Seq::<u8>::empty().skip(0) + frames::concat(bl) =~= data);
    assert(within(fresh(fallback, false), src, mode, bl, tail));
    assert(within(fresh(fallback, true), src.skip(5), mode, bl, tail));
}

/// With pass-through on, a fresh reader has all of a source before it that does not
/// start with the magic.
pub proof fn lemma_stands_passing(src: Seq<u8>)
    requires
        src.len() < 4 || src.take(4) != stream::magic(),
    ensures
        stands(fresh(true, false), src, src),
{
    let r = fresh(true, false);
    assert(r.block.skip(r.pos) + src =~= src);
}

/// Reading on gives what is left of the content.
pub proof fn lemma_stands_delivered(r: Reading, src: Seq<u8>, rest: Seq<u8>)
    requires
        stands(r, src, rest),
    ensures
        delivered(r, src).data == rest,
        delivered(r, src).err is None,
{
    if at_end(r) && rest.len() == 0 {
        assert(delivered(r, src).data =~= rest);
    } else if passing(r, src) && rest == r.block.skip(r.pos) + src {
        if r.phase is Through {
            lemma_pass_through(r, src);
            assert(left(r) == 0 ==> r.block.skip(r.pos) =~= seq![]);
        } else {
            lemma_fallback(src);
            assert(rest =~= src);
        }
    } else {
        let (mode, bl, tail) = choose|mode: EntropyMode, bl: Seq<Seq<u8>>, tail: Seq<u8>|
            #[trigger] within(r, src, mode, bl, tail) && rest == r.block.skip(r.pos)
                + frames::concat(bl);
        if phase_of(r) is Start {
            lemma_header_step(r, body(mode, bl, tail));
            lemma_deliver_frames(Reading { phase: Phase::Frames, ..r }, mode, bl, tail);
            assert(rest =~= frames::concat(bl));
        } else if left(r) > 0 {
            lemma_deliver_frames(Reading { pos: r.block.len() as int, ..r }, mode, bl, tail);
        } else {
            lemma_deliver_frames(r, mode, bl, tail);
            assert(rest =~= frames::concat(bl));
        }
    }
}

/// A frame of the stream brings the next block.
#[verifier::rlimit(30)]
proof fn lemma_next_block(
    r: Reading,
    mode: EntropyMode,
    bl: Seq<Seq<u8>>,
    tail: Seq<u8>,
)
    requires
        phase_of(r) is Frames,
        left(r) == 0,
        all_readable(mode, bl),
        0 < bl.len(),
    ensures
        ({
            let b = bl[0];
            let c = encoder::compressed(mode, b);
            let src = body(mode, bl, tail);
            let more = body(mode, bl.skip(1), tail);
            let r1 = Reading { phase: Phase::Body(c.len() as usize), ..r };
            &&& readable(mode, b)
            &&& all_readable(mode, bl.skip(1))
            &&& frames::concat(bl) == b + frames::concat(bl.skip(1))
            &&& need(r) == 4
            &&& portion(r, src) == 4
            &&& supplied(r, src.take(4)) == (r1, None::<StreamError>)
            &&& src.skip(4) == c + more
            &&& need(r1) == c.len()
            &&& portion(r1, c + more) == c.len()
            &&& (c + more).take(c.len() as int) == c
            &&& (c + more).skip(c.len() as int) == more
            &&& supplied(r1, c) == (
                Reading { phase: Phase::Frames, block: b, pos: 0, ..r },
                None::<StreamError>,
            )
            &&& structural::decoded_len(c) == Ok::<int, Error>(b.len() as int)
            &&& 0 < c.len()
        }),
{
    let b = bl[0];
    let rest = bl.skip(1);
    assert(readable(mode, b));
    assert forall|i: int| 0 <= i < rest.len() implies readable(mode, #[trigger] rest[i]) by {
        assert(rest[i] == bl[i + 1]);
    }
    encoder::lemma_roundtrip(mode, b);
    lemma_frame_steps(r, mode, b, body(mode, rest, tail));
    assert(body(mode, bl, tail) =~= frames::frame(mode, b) + body(mode, rest, tail));
}

/// One step of filling.
proof fn lemma_fill_step(r: Reading, src: Seq<u8>, r1: Reading)
    requires
        need(r) > 0,
        supplied(r, src.take(portion(r, src))) == (r1, None::<StreamError>),
    ensures
        filled(r, src) == filled(r1, src.skip(portion(r, src))),
{
}

/// Filling a reader within a stream leaves it there, or at the end.
proof fn lemma_filled_within(
    r: Reading,
    src: Seq<u8>,
    mode: EntropyMode,
    bl: Seq<Seq<u8>>,
    tail: Seq<u8>,
)
    requires
        within(r, src, mode, bl, tail),
    ensures
        filled(r, src).2 is None,
        need(filled(r, src).0) <= 0,
        stands(filled(r, src).0, filled(r, src).1, r.block.skip(r.pos) + frames::concat(bl)),
    decreases bl.len(), rank(r),
{
    let rest = r.block.skip(r.pos) + frames::concat(bl);
    if phase_of(r) is Start {
        let r1 = Reading { phase: Phase::Frames, ..r };
        lemma_header_step(r, body(mode, bl, tail));
        lemma_fill_step(r, src, r1);
        lemma_filled_within(r1, body(mode, bl, tail), mode, bl, tail);
    } else if left(r) > 0 {
    } else if bl.len() == 0 {
        assert(src =~= bytes::le32(0) + tail);
        lemma_end_step(r, tail);
        lemma_fill_step(r, src, Reading { phase: Phase::Finished, ..r });
        assert(rest =~= seq![]);
    } else {
        let b = bl[0];
        let more = body(mode, bl.skip(1), tail);
        let c = encoder::compressed(mode, b);
        lemma_next_block(r, mode, bl, tail);
        let r1 = Reading { phase: Phase::Body(c.len() as usize), ..r };
        let r2 = Reading { phase: Phase::Frames, block: b, pos: 0, ..r };
        lemma_fill_step(r, src, r1);
        lemma_fill_step(r1, c + more, r2);
        assert(rest =~= r2.block.skip(r2.pos) + frames::concat(bl.skip(1)));
        lemma_filled_within(r2, more, mode, bl.skip(1), tail);
    }
}

/// Filling a reader that passes a source through leaves it so, or at the end.
proof fn lemma_filled_passing(r: Reading, src: Seq<u8>)
    requires
        passing(r, src),
    ensures
        filled(r, src).2 is None,
        need(filled(r, src).0) <= 0,
        stands(filled(r, src).0, filled(r, src).1, r.block.skip(r.pos) + src),
    decreases rank(r), src.len(),
{
    let rest = r.block.skip(r.pos) + src;
    if need(r) > 0 {
        let k = portion(r, src);
        let r1 = supplied(r, src.take(k)).0;
        lemma_passing_step(r, src);
        lemma_fill_step(r, src, r1);
        if r1.phase is Through {
            if left(r1) == 0 {
                lemma_filled_passing(r1, src.skip(k));
            }
        }
    }
}

/// One step of passing a source through.
proof fn lemma_passing_step(r: Reading, src: Seq<u8>)
    requires
        passing(r, src),
        need(r) > 0,
    ensures
        ({
            let k = portion(r, src);
            let r1 = supplied(r, src.take(k)).0;
            &&& supplied(r, src.take(k)).1 is None
            &&& left(r) == 0
            &&& r1.pos == 0
            &&& if r1.phase is Through {
                &&& passing(r1, src.skip(k))
                &&& r.block.skip(r.pos) + src == r1.block.skip(0) + src.skip(k)
                &&& left(r1) == k
                &&& r.phase is Through ==> k > 0
            } else {
                at_end(r1) && src.len() == 0 && r.block.skip(r.pos) + src == Seq::<u8>::empty()
            }
        }),
{
    reveal(supplied);
    let k = portion(r, src);
    let b = src.take(k);
    let r1 = supplied(r, b).0;
    if r.phase is Start && b.len() >= 4 {
        assert(b.take(4) =~= src.take(4));
    }
    assert(r.block.skip(r.pos) + src =~= src);
    assert(b.skip(0) + src.skip(k) =~= src);
}

/// Handing out `n` decoded bytes takes them from what is left.
proof fn lemma_handed_out(r: Reading, src: Seq<u8>, rest: Seq<u8>, n: int)
    requires
        stands(r, src, rest),
        need(r) <= 0,
        0 <= n <= left(r),
    ensures
        stands(Reading { pos: r.pos + n, ..r }, src, rest.skip(n)),
        0 <= r.pos,
        left(r) <= rest.len(),
        n > 0 ==> r.block.subrange(r.pos, r.pos + n) == rest.take(n),
{
    let q = Reading { pos: r.pos + n, ..r };
    if at_end(r) && rest.len() == 0 {
        assert(rest.skip(n) =~= rest);
    } else if passing(r, src) && rest == r.block.skip(r.pos) + src {
        assert(rest.skip(n) =~= q.block.skip(q.pos) + src);
        assert(r.block.subrange(r.pos, r.pos + n) =~= rest.take(n));
    } else {
        let (mode, bl, tail) = choose|mode: EntropyMode, bl: Seq<Seq<u8>>, tail: Seq<u8>|
            #[trigger] within(r, src, mode, bl, tail) && rest == r.block.skip(r.pos)
                + frames::concat(bl);
        assert(within(q, src, mode, bl, tail));
        assert(rest.skip(n) =~= q.block.skip(q.pos) + frames::concat(bl));
        assert(r.block.subrange(r.pos, r.pos + n) =~= rest.take(n));
    }
}

/// A read gives the next bytes of the content and leaves the rest to be read; it
/// gives none only if it asks for none or none are left.
pub proof fn lemma_read_on(r: Reading, src: Seq<u8>, rest: Seq<u8>, m: int)
    requires
        stands(r, src, rest),
        0 <= m,
    ensures
        ({
            let (r1, s1, res) = read_some(r, src, m);
            &&& res matches Ok(d)
            &&& d.len() <= m
            &&& d.len() <= rest.len()
            &&& d == rest.take(d.len() as int)
            &&& d.len() == 0 ==> m == 0 || rest.len() == 0
            &&& stands(r1, s1, rest.skip(d.len() as int))
        }),
{
    if m == 0 {
        assert(rest.skip(0) =~= rest);
        assert(rest.take(0) =~= seq![]);
    } else {
        let (r1, s1, e) = filled(r, src);
        if passing(r, src) && rest == r.block.skip(r.pos) + src {
            lemma_filled_passing(r, src);
        } else if !(at_end(r) && rest.len() == 0) {
            let (mode, bl, tail) = choose|mode: EntropyMode, bl: Seq<Seq<u8>>, tail: Seq<u8>|
                #[trigger] within(r, src, mode, bl, tail) && rest == r.block.skip(r.pos)
                    + frames::concat(bl);
            lemma_filled_within(r, src, mode, bl, tail);
        }
        let n = if left(r1) < m {
            left(r1)
        } else {
            m
        };
        lemma_handed_out(r1, s1, rest, n);
        if n == 0 {
            assert(rest.take(0) =~= seq![]);
            assert(rest.len() == 0) by {
                if !(r1.phase is Finished || r1.phase is Through) {
                    let (mode, bl, tail) = choose|
                        mode: EntropyMode,
                        bl: Seq<Seq<u8>>,
                        tail: Seq<u8>,
                    | #[trigger]
                        within(r1, s1, mode, bl, tail) && rest == r1.block.skip(r1.pos)
                            + frames::concat(bl);
                    assert(need(r1) > 0);
                }
            }
        }
    }
}

/// Passing over bytes within the frames of a stream.
proof fn lemma_skip_frames(
    r: Reading,
    mode: EntropyMode,
    bl: Seq<Seq<u8>>,
    tail: Seq<u8>,
    n: int,
    acc: int,
)
    requires
        phase_of(r) is Frames,
        0 <= r.pos <= r.block.len(),
        all_readable(mode, bl),
        0 <= n,
    ensures
        ({
            let all = r.block.skip(r.pos) + frames::concat(bl);
            let (r1, s1, res) = skipped(r, body(mode, bl, tail), n, acc);
            &&& res == Ok::<int, StreamError>(acc + at_most(n, all.len() as int))
            &&& stands(r1, s1, all.skip(at_most(n, all.len() as int)))
        }),
    decreases bl.len(), left(r) + 1,
{
    let src = body(mode, bl, tail);
    let all = r.block.skip(r.pos) + frames::concat(bl);
    let q = Reading { pos: r.block.len() as int, ..r };
    assert(within(r, src, mode, bl, tail));
    if n == 0 {
        assert(all.skip(0) =~= all);
    } else if left(r) > 0 {
        if n < left(r) {
            lemma_handed_out(r, src, all, n);
        } else {
            lemma_skip_frames(q, mode, bl, tail, n - left(r), acc + left(r));
            let k = at_most(n, all.len() as int);
            assert(q.block.skip(q.pos) + frames::concat(bl) =~= frames::concat(bl));
            assert(all.skip(k) =~= frames::concat(bl).skip(k - left(r)));
        }
    } else {
        assert(all =~= frames::concat(bl));
        if bl.len() == 0 {
            assert(src =~= bytes::le32(0) + tail);
            lemma_end_step(r, tail);
            reveal(passed);
            lemma_skip_step(r, src, n, acc, Reading { phase: Phase::Finished, ..r }, 0);
            assert(all.skip(0) =~= seq![]);
        } else {
            lemma_skip_block(r, mode, bl, tail, n, acc);
        }
    }
}

/// `n`, or `most` if that is less.
pub open spec fn at_most(n: int, most: int) -> int {
    if n < most {
        n
    } else {
        most
    }
}

/// Passing over bytes from the border of a block on.
proof fn lemma_skip_block(
    r: Reading,
    mode: EntropyMode,
    bl: Seq<Seq<u8>>,
    tail: Seq<u8>,
    n: int,
    acc: int,
)
    requires
        phase_of(r) is Frames,
        left(r) == 0,
        0 <= r.pos <= r.block.len(),
        all_readable(mode, bl),
        0 < n,
        0 < bl.len(),
    ensures
        ({
            let all = frames::concat(bl);
            let (r1, s1, res) = skipped(r, body(mode, bl, tail), n, acc);
            &&& res == Ok::<int, StreamError>(acc + at_most(n, all.len() as int))
            &&& stands(r1, s1, all.skip(at_most(n, all.len() as int)))
        }),
    decreases bl.len(), 0int,
{
    let b = bl[0];
    let all = frames::concat(bl);
    let later = frames::concat(bl.skip(1));
    let more = body(mode, bl.skip(1), tail);
    let k = at_most(n, all.len() as int);
    lemma_next_block(r, mode, bl, tail);
    lemma_skip_front(r, mode, bl, tail, n, acc);
    if n >= b.len() {
        let r2 = Reading { phase: Phase::Frames, block: seq![], pos: 0, ..r };
        lemma_skip_frames(r2, mode, bl.skip(1), tail, n - b.len(), acc + b.len());
        assert(r2.block.skip(0) + later =~= later);
        assert(all.skip(k) =~= later.skip(k - b.len()));
    } else {
        let r2 = Reading { phase: Phase::Frames, block: b, pos: 0, ..r };
        assert(within(r2, more, mode, bl.skip(1), tail));
        assert(all =~= r2.block.skip(0) + later);
        lemma_handed_out(r2, more, all, n);
    }
}

/// The first two steps of passing over bytes: the block is dropped, or decoded.
proof fn lemma_skip_front(
    r: Reading,
    mode: EntropyMode,
    bl: Seq<Seq<u8>>,
    tail: Seq<u8>,
    n: int,
    acc: int,
)
    requires
        phase_of(r) is Frames,
        left(r) == 0,
        all_readable(mode, bl),
        0 < n,
        0 < bl.len(),
    ensures
        ({
            let b = bl[0];
            let more = body(mode, bl.skip(1), tail);
            skipped(r, body(mode, bl, tail), n, acc) == if n >= b.len() {
                skipped(
                    Reading { phase: Phase::Frames, block: seq![], pos: 0, ..r },
                    more,
                    n - b.len(),
                    acc + b.len(),
                )
            } else {
                skipped(
                    Reading { phase: Phase::Frames, block: b, pos: 0, ..r },
                    more,
                    n,
                    acc,
                )
            }
        }),
{
    let b = bl[0];
    let src = body(mode, bl, tail);
    let more = body(mode, bl.skip(1), tail);
    let c = encoder::compressed(mode, b);
    lemma_next_block(r, mode, bl, tail);
    let r1 = Reading { phase: Phase::Body(c.len() as usize), ..r };
    reveal(passed);
    lemma_skip_step(r, src, n, acc, r1, 0);
    if n >= b.len() {
        let r2 = Reading { phase: Phase::Frames, block: seq![], pos: 0, ..r };
        lemma_skip_step(r1, c + more, n, acc, r2, b.len() as int);
    } else {
        let r2 = Reading { phase: Phase::Frames, block: b, pos: 0, ..r };
        lemma_skip_step(r1, c + more, n, acc, r2, 0);
    }
}

/// Passing over bytes of a source that is passed through.
proof fn lemma_skip_passing(r: Reading, src: Seq<u8>, n: int, acc: int)
    requires
        passing(r, src),
        0 <= n,
    ensures
        ({
            let all = r.block.skip(r.pos) + src;
            let (r1, s1, res) = skipped(r, src, n, acc);
            &&& res == Ok::<int, StreamError>(acc + at_most(n, all.len() as int))
            &&& stands(r1, s1, all.skip(at_most(n, all.len() as int)))
        }),
    decreases rank(r), src.len(), left(r),
{
    let all = r.block.skip(r.pos) + src;
    let k = at_most(n, all.len() as int);
    if n == 0 {
        assert(all.skip(0) =~= all);
    } else if left(r) > 0 {
        if n < left(r) {
            lemma_handed_out(r, src, all, n);
        } else {
            let q = Reading { pos: r.block.len() as int, ..r };
            lemma_skip_passing(q, src, n - left(r), acc + left(r));
            assert(q.block.skip(q.pos) + src =~= src);
            assert(all.skip(k) =~= src.skip(k - left(r)));
        }
    } else {
        let p = portion(r, src);
        let r1 = supplied(r, src.take(p)).0;
        lemma_passing_step(r, src);
        reveal(passed);
        lemma_skip_step(r, src, n, acc, r1, 0);
        if r1.phase is Through {
            lemma_skip_passing(r1, src.skip(p), n, acc);
        } else {
            assert(all.skip(0) =~= seq![]);
        }
    }
}

/// A skip passes over the next `n` bytes of the content, or over all that are left,
/// says how many these were, and leaves the rest to be read.
pub proof fn lemma_skip_on(r: Reading, src: Seq<u8>, rest: Seq<u8>, n: int)
    requires
        stands(r, src, rest),
        0 <= n,
    ensures
        ({
            let k = at_most(n, rest.len() as int);
            let (r1, s1, res) = skip_some(r, src, n);
            &&& res == Ok::<int, StreamError>(k)
            &&& stands(r1, s1, rest.skip(k))
        }),
{
    if at_end(r) && rest.len() == 0 {
        assert(rest.skip(0) =~= rest);
    } else if passing(r, src) && rest == r.block.skip(r.pos) + src {
        if n > 0 || r.phase is Through {
            lemma_skip_passing(r, src, n, 0);
        } else {
            lemma_passing_step(r, src);
            assert(rest.skip(0) =~= rest);
        }
    } else {
        let (mode, bl, tail) = choose|mode: EntropyMode, bl: Seq<Seq<u8>>, tail: Seq<u8>|
            #[trigger] within(r, src, mode, bl, tail) && rest == r.block.skip(r.pos)
                + frames::concat(bl);
        let later = body(mode, bl, tail);
        let r1 = Reading { phase: Phase::Frames, ..r };
        assert(within(r1, later, mode, bl, tail));
        if phase_of(r) is Start {
            lemma_header_step(r, later);
            if n > 0 {
                reveal(passed);
                lemma_skip_step(r, src, n, 0, r1, 0);
                lemma_skip_frames(r1, mode, bl, tail, n, 0);
            } else {
                assert(rest.skip(0) =~= rest);
            }
        } else if n > 0 {
            lemma_skip_frames(r, mode, bl, tail, n, 0);
        } else {
            assert(rest.skip(0) =~= rest);
        }
    }
}

/// Passing over `n` bytes of a stream and reading on gives the content from the
/// `n`-th byte on; the number passed over falls short of `n` only at the end.
pub proof fn lemma_skip_stream(
    mode: EntropyMode,
    size: int,
    data: Seq<u8>,
    embed: bool,
    padding: int,
    fill: Seq<u8>,
    fallback: bool,
    n: int,
)
    requires
        0 < size,
        0 <= n,
        all_readable(mode, frames::blocks(data, size)),
    ensures
        ({
            let src = frames::whole(mode, size, data, embed, padding, fill);
            let k = at_most(n, data.len() as int);
            let (r1, s1, res) = skip_some(fresh(fallback, false), src, n);
            &&& res == Ok::<int, StreamError>(k)
            &&& delivered(r1, s1).data == data.skip(k)
            &&& delivered(r1, s1).err is None
        }),
{
    let src = frames::whole(mode, size, data, embed, padding, fill);
    lemma_stands_at_start(mode, size, data, embed, padding, fill, fallback);
    lemma_skip_on(fresh(fallback, false), src, data, n);
    let (r1, s1, res) = skip_some(fresh(fallback, false), src, n);
    lemma_stands_delivered(r1, s1, data.skip(at_most(n, data.len() as int)));
}

// ---------------------------------------------------------------------------
// Executable form
// ---------------------------------------------------------------------------
/// Takes a stream apart as it is handed its bytes.
pub struct Unpacker {
    block: Vec<u8>,
    pos: usize,
    phase: Phase,
    fallback: bool,
    ignore_magic: bool,
    decoder: Decoder,
}

impl View for Unpacker {
    type V = Reading;

    closed spec fn view(&self) -> Reading {
        Reading {
            block: self.block@,
            pos: self.pos as int,
            phase: self.phase,
            fallback: self.fallback,
            ignore_magic: self.ignore_magic,
        }
    }
}

impl Unpacker {
    /// An unpacker before its first byte.
    pub fn new() -> (u: Unpacker)
        ensures
            u@ == fresh(false, false),
    {
        let u = Unpacker {
            block: Vec::new(),
            pos: 0,
            phase: Phase::Start,
            fallback: false,
            ignore_magic: false,
            decoder: Decoder::new(),
        };
        assert(u.block@ =~= seq![]);
        u
    }

    /// Whether a source that is no stream is passed through.
    pub fn set_fallback(&mut self, yes: bool)
        ensures
            final(self)@ == (Reading { fallback: yes, ..old(self)@ }),
    {
        self.fallback = yes;
    }

    /// Whether the source starts behind the stream header.
    pub fn set_ignore_magic(&mut self, yes: bool)
        ensures
            final(self)@ == (Reading { ignore_magic: yes, ..old(self)@ }),
    {
        self.ignore_magic = yes;
    }

    /// Goes back to before the first byte and keeps the settings.
    pub fn restart(&mut self)
        ensures
            final(self)@ == fresh(old(self)@.fallback, old(self)@.ignore_magic),
    {
        self.block.clear();
        self.pos = 0;
        self.phase = Phase::Start;
        assert(self.block@ =~= seq![]);
    }

    /// Number of decoded bytes that were not handed out yet.
    pub fn left(&self) -> (n: usize)
        ensures
            n == left(self@),
            n > 0 ==> self@.pos + n <= usize::MAX,
    {
        if self.pos < self.block.len() {
            self.block.len() - self.pos
        } else {
            0
        }
    }

    /// Number of bytes needed from the source before any can be handed out; zero
    /// if there are some, or at the end.
    pub fn need(&self) -> (n: usize)
        ensures
            n == need(self@),
    {
        if let Phase::Start = self.phase {
            if !self.ignore_magic {
                return 5;
            }
        }
        if self.left() > 0 {
            return 0;
        }
        match self.phase {
            Phase::Start => 4,
            Phase::Frames => 4,
            Phase::Body(c) => c,
            Phase::Through => PASSTHROUGH_CHUNK,
            Phase::Finished => 0,
        }
    }

    /// Takes the bytes that were needed, or fewer if the source has ended.
    pub fn supply(&mut self, b: &[u8]) -> (r: Result<(), StreamError>)
        ensures
            supplied(old(self)@, b@) == (
                final(self)@,
                match r {
                    Ok(()) => None::<StreamError>,
                    Err(e) => Some(e),
                },
            ),
    {
        proof {
            reveal(supplied);
        }
        let ghost r0 = self@;
        let phase: Phase = if let Phase::Start = self.phase {
            if self.ignore_magic {
                Phase::Frames
            } else {
                Phase::Start
            }
        } else {
            self.phase
        };
        match phase {
            Phase::Start => {
                if has_magic(b) {
                    if b.len() < 5 || b[4] != STREAM_VERSION {
                        return Err(StreamError::UnsupportedVersion);
                    }
                    self.phase = Phase::Frames;
                    Ok(())
                } else if self.fallback {
                    self.take_block(b);
                    self.phase = Phase::Through;
                    Ok(())
                } else {
                    Err(StreamError::BadMagic)
                }
            },
            Phase::Frames => {
                if b.len() < 4 {
                    self.phase = Phase::Finished;
                    return Ok(());
                }
                let c: u32 = get_u32(b, 0);
                if c == 0 {
                    self.phase = Phase::Finished;
                    Ok(())
                } else if c as usize > MAX_FRAME_LEN {
                    self.phase = Phase::Frames;
                    Err(StreamError::FrameTooLarge)
                } else {
                    self.phase = Phase::Body(c as usize);
                    Ok(())
                }
            },
            Phase::Body(c) => {
                self.phase = Phase::Frames;
                if b.len() < c {
                    return Err(StreamError::UnexpectedEof);
                }
                match self.decoder.decompress_into(b, &mut self.block) {
                    Ok(()) => {
                        self.pos = 0;
                        Ok(())
                    },
                    Err(e) => Err(StreamError::DecodeFailed(e)),
                }
            },
            Phase::Through => {
                self.take_block(b);
                if b.len() == 0 {
                    self.phase = Phase::Finished;
                }
                Ok(())
            },
            Phase::Finished => Ok(()),
        }
    }

    /// Makes `b` the bytes to hand out.
    fn take_block(&mut self, b: &[u8])
        ensures
            final(self)@ == (Reading { block: b@, pos: 0, ..old(self)@ }),
    {
        self.block.clear();
        append(&mut self.block, b);
        self.pos = 0;
        assert(self.block@ =~= b@);
    }

    /// Takes the bytes that were needed, and passes over a block of at most `n`
    /// content bytes without decoding it; the result is their number.
    pub fn supply_skipping(&mut self, b: &[u8], n: u64) -> (r: Result<u64, StreamError>)
        ensures
            passed(old(self)@, b@, n as int) == (
                final(self)@,
                match r {
                    Ok(u) => Ok::<int, StreamError>(u as int),
                    Err(e) => Err(e),
                },
            ),
            r matches Ok(u) ==> u <= n,
    {
        proof {
            reveal(passed);
        }
        if let Phase::Body(c) = self.phase {
            if b.len() >= c {
                match block_decoded_len(b) {
                    Err(e) => {
                        self.phase = Phase::Frames;
                        return Err(StreamError::BadBlock(e));
                    },
                    Ok(u) => {
                        if n >= u as u64 {
                            self.phase = Phase::Frames;
                            self.block.clear();
                            self.pos = 0;
                            assert(self.block@ =~= seq![]);
                            return Ok(u as u64);
                        }
                    },
                }
            }
        }
        match self.supply(b) {
            Ok(()) => Ok(0),
            Err(e) => Err(e),
        }
    }

    /// Hands out decoded bytes to the front of `out`; the result is their number.
    pub fn serve(&mut self, out: &mut [u8]) -> (n: usize)
        ensures
            n == if left(old(self)@) < old(out)@.len() {
                left(old(self)@)
            } else {
                old(out)@.len() as int
            },
            final(self)@ == (Reading { pos: old(self)@.pos + n, ..old(self)@ }),
            final(out)@ == (if n == 0 {
                seq![]
            } else {
                old(self)@.block.subrange(old(self)@.pos, old(self)@.pos + n)
            }) + old(out)@.skip(n as int),
    {
        let ghost before = out@;
        let have: usize = self.left();
        let n: usize = if have < out.len() {
            have
        } else {
            out.len()
        };
        let from: usize = self.pos;
        let mut k: usize = 0;
        while k < n
            invariant
                k <= n <= before.len(),
                n > 0 ==> from + n <= self.block@.len() && from + n <= usize::MAX,
                before.len() == out@.len(),
                from == self.pos,
                self@ == old(self)@,
                forall|i: int| 0 <= i < k ==> out@[i] == self.block@[from + i],
                forall|i: int| k <= i < out@.len() ==> out@[i] == before[i],
            decreases n - k,
        {
            out[k] = self.block[from + k];
            k = k + 1;
        }
        if n > 0 {
            self.pos = from + n;
        }
        assert(out@ =~= (if n == 0 {
            seq![]
        } else {
            old(self)@.block.subrange(old(self)@.pos, old(self)@.pos + n)
        }) + before.skip(n as int));
        n
    }

    /// Appends all decoded bytes that were not handed out yet.
    fn serve_all(&mut self, out: &mut Vec<u8>)
        ensures
            left(old(self)@) > 0 ==> final(self)@ == (Reading {
                pos: old(self)@.block.len() as int,
                ..old(self)@
            }) && final(out)@ == old(out)@ + old(self)@.block.skip(old(self)@.pos),
            left(old(self)@) == 0 ==> final(self)@ == old(self)@ && final(out)@ == old(out)@,
    {
        let end: usize = self.block.len();
        if self.pos < end {
            append(out, &self.block[self.pos..end]);
            assert(self.block@.subrange(self.pos as int, end as int) =~= self.block@.skip(
                self.pos as int,
            ));
            self.pos = end;
        }
    }

    /// Passes over up to `n` decoded bytes; the result is their number.
    pub fn drop_left(&mut self, n: u64) -> (k: u64)
        ensures
            k == if left(old(self)@) < n {
                left(old(self)@)
            } else {
                n as int
            },
            final(self)@ == (Reading { pos: old(self)@.pos + k, ..old(self)@ }),
    {
        let have: u64 = self.left() as u64;
        let k: u64 = if have < n {
            have
        } else {
            n
        };
        if k > 0 {
            self.pos = self.pos + k as usize;
        }
        k
    }
}

/// A reader and the rest of its source.
pub struct Open {
    pub reader: Reading,
    pub src: Seq<u8>,
}

/// Reads a stream in memory.
pub struct Reader {
    source: Vec<u8>,
    at: usize,
    unpacker: Unpacker,
}

impl View for Reader {
    type V = Open;

    closed spec fn view(&self) -> Open {
        Open { reader: self.unpacker@, src: self.source@.skip(self.at as int) }
    }
}

impl Reader {
    /// The reader is within its source.
    pub closed spec fn wf(self) -> bool {
        self.at <= self.source@.len()
    }

    /// A reader of `inner`.
    pub fn new(inner: Vec<u8>) -> (r: Reader)
        ensures
            r.wf(),
            r@ == (Open { reader: fresh(false, false), src: inner@ }),
    {
        assert(inner@.skip(0) =~= inner@);
        Reader { source: inner, at: 0, unpacker: Unpacker::new() }
    }

    /// Whether the source starts behind the stream header.
    pub fn ignore_stream_identifier(self, yes: bool) -> (r: Reader)
        ensures
            r.wf() == self.wf(),
            r@ == (Open { reader: Reading { ignore_magic: yes, ..self@.reader }, ..self@ }),
    {
        let mut r = self;
        r.unpacker.set_ignore_magic(yes);
        r
    }

    /// Whether a source that is no stream is passed through instead of refused.
    pub fn fallback(self, yes: bool) -> (r: Reader)
        ensures
            r.wf() == self.wf(),
            r@ == (Open { reader: Reading { fallback: yes, ..self@.reader }, ..self@ }),
    {
        let mut r = self;
        r.unpacker.set_fallback(yes);
        r
    }

    /// Starts on another source and keeps the settings.
    pub fn reset(&mut self, inner: Vec<u8>)
        ensures
            final(self).wf(),
            final(self)@ == (Open {
                reader: fresh(old(self)@.reader.fallback, old(self)@.reader.ignore_magic),
                src: inner@,
            }),
    {
        assert(inner@.skip(0) =~= inner@);
        self.source = inner;
        self.at = 0;
        self.unpacker.restart();
    }

    /// Number of bytes that the source hands over next.
    fn portion(&self) -> (k: usize)
        requires
            self.wf(),
        ensures
            k == portion(self@.reader, self@.src),
            self.at + k <= self.source@.len(),
            self.at + k <= usize::MAX,
    {
        let have: usize = self.source.len() - self.at;
        let need: usize = self.unpacker.need();
        if need < have {
            need
        } else {
            have
        }
    }

    /// Hands over bytes until some can be handed out, or the end is reached.
    fn fill(&mut self) -> (r: Result<(), StreamError>)
        requires
            old(self).wf(),
        ensures
            final(self).wf(),
            filled(old(self)@.reader, old(self)@.src) == (
                final(self)@.reader,
                final(self)@.src,
                match r {
                    Ok(()) => None::<StreamError>,
                    Err(e) => Some(e),
                },
            ),
    {
        let ghost all = filled(self@.reader, self@.src);
        while self.unpacker.need() > 0
            invariant
                self.wf(),
                all == filled(old(self)@.reader, old(self)@.src),
                all == filled(self@.reader, self@.src),
            decreases self@.src.len(), rank(self@.reader),
        {
            let ghost o = self@;
            let k: usize = self.portion();
            let at: usize = self.at;
            proof {
                lemma_supplied_rank(o.reader, o.src.take(k as int));
                assert(self.source@.subrange(at as int, at + k) =~= o.src.take(k as int));
                assert(self.source@.skip(at + k) =~= o.src.skip(k as int));
            }
            let r: Result<(), StreamError> = self.unpacker.supply(&self.source[at..at + k]);
            self.at = at + k;
            match r {
                Ok(()) => {},
                Err(e) => {
                    return Err(e);
                },
            }
        }
        Ok(())
    }

    /// Reads bytes to the front of `out`; the result is their number, which is
    /// zero only at the end of the stream or if `out` is empty.
    pub fn read(&mut self, out: &mut [u8]) -> (r: Result<usize, StreamError>)
        requires
            old(self).wf(),
        ensures
            final(self).wf(),
            ({
                let (r1, s1, res) = read_some(
                    old(self)@.reader,
                    old(self)@.src,
                    old(out)@.len() as int,
                );
                &&& final(self)@ == (Open { reader: r1, src: s1 })
                &&& match res {
                    Ok(d) => r == Ok::<usize, StreamError>(d.len() as usize) && final(out)@ == d
                        + old(out)@.skip(d.len() as int),
                    Err(e) => r == Err::<usize, StreamError>(e) && final(out)@ == old(out)@,
                }
            }),
    {
        if out.len() == 0 {
            assert(out@ =~= Seq::<u8>::empty() + old(out)@.skip(0));
            return Ok(0);
        }
        match self.fill() {
            Ok(()) => Ok(self.unpacker.serve(out)),
            Err(e) => Err(e),
        }
    }

    /// Appends to `out` all that can be read; the result is the number of bytes.
    /// On an error `out` holds what was read before it.
    pub fn read_to_end(&mut self, out: &mut Vec<u8>) -> (r: Result<usize, StreamError>)
        requires
            old(self).wf(),
        ensures
            final(self).wf(),
            ({
                let d = delivered(old(self)@.reader, old(self)@.src);
                &&& final(self)@ == (Open { reader: d.reader, src: d.src })
                &&& final(out)@ == old(out)@ + d.data
                &&& match d.err {
                    None => r matches Ok(n) && n == d.data.len(),
                    Some(e) => r == Err::<usize, StreamError>(e),
                }
            }),
    {
        let start: usize = out.len();
        let ghost d = delivered(self@.reader, self@.src);
        assert(out@ + d.data =~= old(out)@ + d.data);
        let mut more: bool = true;
        while more
            invariant
                self.wf(),
                start == old(out)@.len(),
                d == delivered(old(self)@.reader, old(self)@.src),
                start <= out@.len(),
                more ==> {
                    let c = delivered(self@.reader, self@.src);
                    &&& out@ + c.data == old(out)@ + d.data
                    &&& d == (Delivery { data: d.data, ..c })
                },
                !more ==> {
                    &&& self@ == (Open { reader: d.reader, src: d.src })
                    &&& out@ == old(out)@ + d.data
                    &&& d.err is None
                },
            decreases
                    (if more {
                        1int
                    } else {
                        0
                    }),
                    self@.src.len(),
                    rank(self@.reader),
                    left(self@.reader),
        {
            let ghost o = self@;
            let ghost c = delivered(o.reader, o.src);
            proof {
                lemma_filled(o.reader, o.src);
                lemma_filled_less(o.reader, o.src);
            }
            match self.fill() {
                Ok(()) => {},
                Err(e) => {
                    assert(out@ + Seq::<u8>::empty() =~= out@);
                    return Err(e);
                },
            }
            if self.unpacker.left() == 0 {
                more = false;
                assert(out@ + Seq::<u8>::empty() =~= out@);
            } else {
                let ghost before = out@;
                let ghost q = self@;
                self.unpacker.serve_all(out);
                proof {
                    let rest = delivered(self@.reader, self@.src);
                    assert(before + (q.reader.block.skip(q.reader.pos) + rest.data) =~= out@
                        + rest.data);
                }
            }
        }
        Ok(out.len() - start)
    }

    /// Passes over up to `n` bytes; the result is their number, which is less than
    /// `n` only at the end of the stream. Whole blocks are not decoded.
    pub fn skip(&mut self, n: u64) -> (r: Result<u64, StreamError>)
        requires
            old(self).wf(),
        ensures
            final(self).wf(),
            skip_some(old(self)@.reader, old(self)@.src, n as int) == (
                final(self)@.reader,
                final(self)@.src,
                match r {
                    Ok(k) => Ok::<int, StreamError>(k as int),
                    Err(e) => Err(e),
                },
            ),
    {
        if n == 0 {
            return self.skip_none();
        }
        let ghost all = skipped(self@.reader, self@.src, n as int, 0);
        let mut todo: u64 = n;
        while todo > 0
            invariant
                self.wf(),
                todo <= n,
                n > 0,
                all == skipped(old(self)@.reader, old(self)@.src, n as int, 0),
                all == skipped(self@.reader, self@.src, todo as int, n - todo),
            decreases self@.src.len(), rank(self@.reader), left(self@.reader), todo,
        {
            let ghost o = self@;
            if self.unpacker.need() == 0 {
                let k: u64 = self.unpacker.drop_left(todo);
                if k == 0 {
                    return Ok(n - todo);
                }
                todo = todo - k;
            } else {
                let k: usize = self.portion();
                let at: usize = self.at;
                proof {
                    lemma_passed_rank(o.reader, o.src.take(k as int), todo as int);
                    assert(self.source@.subrange(at as int, at + k) =~= o.src.take(k as int));
                    assert(self.source@.skip(at + k) =~= o.src.skip(k as int));
                }
                let r: Result<u64, StreamError> = self.unpacker.supply_skipping(
                    &self.source[at..at + k],
                    todo,
                );
                self.at = at + k;
                match r {
                    Ok(u) => {
                        todo = todo - u;
                    },
                    Err(e) => {
                        return Err(e);
                    },
                }
            }
        }
        Ok(n)
    }

    /// Reads the header if it was not read yet.
    fn skip_none(&mut self) -> (r: Result<u64, StreamError>)
        requires
            old(self).wf(),
        ensures
            final(self).wf(),
            skip_some(old(self)@.reader, old(self)@.src, 0) == (
                final(self)@.reader,
                final(self)@.src,
                match r {
                    Ok(k) => Ok::<int, StreamError>(k as int),
                    Err(e) => Err(e),
                },
            ),
    {
        let ghost o = self@;
        if self.unpacker.at_start() {
            if self.unpacker.ignores_magic() {
                self.unpacker.pass_header();
                return Ok(0);
            }
            let k: usize = self.portion();
            let at: usize = self.at;
            proof {
                assert(self.source@.subrange(at as int, at + k) =~= o.src.take(k as int));
                assert(self.source@.skip(at + k) =~= o.src.skip(k as int));
            }
            let r: Result<(), StreamError> = self.unpacker.supply(&self.source[at..at + k]);
            self.at = at + k;
            return match r {
                Ok(()) => Ok(0),
                Err(e) => Err(e),
            };
        }
        Ok(0)
    }
}

impl Unpacker {
    /// Whether the header was not read yet.
    pub fn at_start(&self) -> (b: bool)
        ensures
            b == (self@.phase is Start),
    {
        matches!(self.phase, Phase::Start)
    }

    /// Whether the header is ignored.
    pub fn ignores_magic(&self) -> (b: bool)
        ensures
            b == self@.ignore_magic,
    {
        self.ignore_magic
    }

    /// Goes on to the first frame without a header.
    pub fn pass_header(&mut self)
        requires
            old(self)@.phase is Start,
        ensures
            final(self)@ == (Reading { phase: Phase::Frames, ..old(self)@ }),
    {
        self.phase = Phase::Frames;
    }
}

proof fn lemma_filled_less(r: Reading, src: Seq<u8>)
    ensures
        ({
            let (r1, s1, e) = filled(r, src);
            e is None ==> (r1 == r && s1 == src) || s1.len() < src.len() || (s1.len() == src.len()
                && rank(r1) < rank(r))
        }),
    decreases src.len(), rank(r),
{
    if need(r) > 0 {
        let k = portion(r, src);
        let (r1, e) = supplied(r, src.take(k));
        if e is None {
            lemma_supplied_rank(r, src.take(k));
            lemma_filled_less(r1, src.skip(k));
        }
    }
}

} // verus!
