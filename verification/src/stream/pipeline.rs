//! Whole streams at once, block by block.
//!
//! Blocks do not depend on each other: they can be cut, coded and put together in
//! three steps, the middle one in any order, with the same result as a writer or
//! a reader that goes through the stream from its start.
use crate::bytes;
use crate::bytes::{append, get_u32};
use crate::encoder;
use crate::encoder::{Encoder, EntropyMode};
use crate::stream;
use crate::stream::frames;
use crate::stream::frames::Frames;
use crate::stream::reader;
use crate::stream::reader::Reader;
use crate::stream::writer;
use crate::stream::writer::Writer;
use crate::stream::{has_magic, StreamError, MAX_FRAME_LEN, STREAM_VERSION};
use crate::structural;
use crate::structural::{iguana_decompress_simd, contents};
use vstd::prelude::*;

verus! {

/// The block size that `size` stands for.
pub open spec fn block_size_of(size: int) -> int {
    if size < 1 {
        1
    } else {
        size
    }
}

/// A block size is taken as it is, except that zero stands for one; the writer takes it the
/// same way.
pub proof fn lemma_block_size(out: Seq<u8>, mode: EntropyMode, size: int)
    requires
        0 <= size,
    ensures
        size > 0 ==> block_size_of(size) == size,
        block_size_of(0) == 1,
        writer::idle(out, mode, size).size == block_size_of(size),
{
}

/// The stream of `data` can be made: blocks stay within what the encoder takes,
/// and positions within 64 bits, by a simple bound or as it turns out.
pub open spec fn fits(mode: EntropyMode, size: int, data: Seq<u8>) -> bool {
    &&& size <= i32::MAX || data.len() <= i32::MAX
    &&& 146 * data.len() + 9 <= u64::MAX || ends_within(mode, frames::blocks(data, size))
}

/// The stream of the blocks `bl` has positions within 64 bits.
pub open spec fn ends_within(mode: EntropyMode, bl: Seq<Seq<u8>>) -> bool {
    let s = frames::begun(frames::put_blocks(frames::unstarted(seq![]), mode, bl));
    s.comp + 4 <= u64::MAX && s.uncomp <= u64::MAX
}

proof fn lemma_fits(mode: EntropyMode, size: int, data: Seq<u8>)
    requires
        0 < size,
        fits(mode, size, data),
    ensures
        ends_within(mode, frames::blocks(data, size)),
{
    let w = writer::idle(seq![], mode, size);
    assert(w.buf + data =~= data);
    writer::lemma_absorbed_blocks(w.frames, mode, size, data);
    writer::lemma_reach(w, data);
    let w1 = writer::wrote(w, data);
    if 146 * data.len() + 9 <= u64::MAX {
        assert(w1.buf.len() <= i32::MAX) by {
            writer::lemma_left_over(w.frames, mode, size, data);
        }
        writer::lemma_closable(w1);
    }
}

// ---------------------------------------------------------------------------
// Compression
// ---------------------------------------------------------------------------
proof fn lemma_put_blocks_grows(s: frames::Progress, mode: EntropyMode, bl: Seq<Seq<u8>>)
    ensures
        s.comp <= frames::put_blocks(s, mode, bl).comp,
        s.uncomp <= frames::put_blocks(s, mode, bl).uncomp,
    decreases bl.len(),
{
    if bl.len() > 0 {
        lemma_put_blocks_grows(frames::put_block(s, mode, bl[0]), mode, bl.skip(1));
    }
}

/// Cuts `data` into blocks of `size` bytes.
pub fn split_blocks(data: &[u8], size: usize) -> (r: Vec<Vec<u8>>)
    requires
        0 < size,
    ensures
        contents(r@) == frames::blocks(data@, size as int),
{
    let n: usize = data.len();
    let mut r: Vec<Vec<u8>> = Vec::new();
    let mut at: usize = 0;
    proof {
        assert(data@.skip(0) =~= data@);
        assert(contents(r@) + frames::blocks(data@, size as int) =~= frames::blocks(
            data@,
            size as int,
        ));
    }
    while at < n
        invariant
            n == data@.len(),
            at <= n,
            0 < size,
            contents(r@) + frames::blocks(data@.skip(at as int), size as int) == frames::blocks(
                data@,
                size as int,
            ),
        decreases n - at,
    {
        let take: usize = if size < n - at {
            size
        } else {
            n - at
        };
        let mut b: Vec<u8> = Vec::new();
        append(&mut b, &data[at..at + take]);
        let ghost before = contents(r@);
        let ghost rest = data@.skip(at as int);
        let ghost bv = b@;
        r.push(b);
        at = at + take;
        proof {
            let tail = data@.skip(at as int);
            assert(bv =~= rest.take(take as int));
            assert(tail =~= rest.skip(take as int));
            if rest.len() <= size {
                assert(bv =~= rest);
                assert(tail =~= seq![]);
                assert(frames::blocks(tail, size as int) =~= seq![]);
            }
            assert(frames::blocks(rest, size as int) =~= seq![bv] + frames::blocks(
                tail,
                size as int,
            ));
            assert(contents(r@) =~= before.push(bv));
            assert(before + (seq![bv] + frames::blocks(tail, size as int)) =~= contents(r@)
                + frames::blocks(tail, size as int));
        }
    }
    assert(data@.skip(n as int) =~= seq![]);
    assert(contents(r@) + frames::blocks(data@.skip(n as int), size as int) =~= contents(r@));
    r
}

/// The compressed forms of the blocks.
pub open spec fn packed_of(mode: EntropyMode, bl: Seq<Seq<u8>>) -> Seq<Seq<u8>> {
    bl.map_values(|b: Seq<u8>| encoder::compressed(mode, b))
}

/// Compresses each block.
pub fn compress_blocks(blocks: &Vec<Vec<u8>>, entropy: EntropyMode) -> (r: Vec<Vec<u8>>)
    requires
        forall|i: int| 0 <= i < blocks@.len() ==> (#[trigger] blocks@[i])@.len() <= i32::MAX,
    ensures
        contents(r@) == packed_of(entropy, contents(blocks@)),
{
    let mut r: Vec<Vec<u8>> = Vec::new();
    let mut e = Encoder::new();
    let mut i: usize = 0;
    while i < blocks.len()
        invariant
            i <= blocks@.len(),
            i == r@.len(),
            forall|k: int| 0 <= k < blocks@.len() ==> (#[trigger] blocks@[k])@.len() <= i32::MAX,
            forall|k: int|
                0 <= k < i ==> (#[trigger] r@[k])@ == encoder::compressed(entropy, blocks@[k]@),
        decreases blocks.len() - i,
    {
        let mut out: Vec<u8> = Vec::new();
        e.compress_into(&blocks[i], entropy, &mut out);
        r.push(out);
        i = i + 1;
    }
    assert(contents(r@) =~= packed_of(entropy, contents(blocks@)));
    r
}

/// Puts the stream together from its blocks and their compressed forms.
fn assemble(blocks: &Vec<Vec<u8>>, packed: &Vec<Vec<u8>>, Ghost(mode): Ghost<EntropyMode>) -> (
    out: Vec<u8>)
    requires
        contents(packed@) == packed_of(mode, contents(blocks@)),
        forall|i: int| 0 <= i < blocks@.len() ==> (#[trigger] blocks@[i])@.len() <= i32::MAX,
        ends_within(mode, contents(blocks@)),
    ensures
        ({
            let s = frames::begun(
                frames::put_blocks(frames::unstarted(seq![]), mode, contents(blocks@)),
            );
            out@ == s.out + frames::stream_end(s, true, 0, seq![])
        }),
{
    let ghost bl = contents(blocks@);
    let ghost all = frames::put_blocks(frames::unstarted(seq![]), mode, bl);
    let mut f = Frames::new(Vec::new());
    let mut i: usize = 0;
    assert(packed@.len() == contents(packed@).len());
    assert(bl.skip(0) =~= bl);
    while i < blocks.len()
        invariant
            i <= blocks@.len(),
            bl == contents(blocks@),
            packed@.len() == blocks@.len(),
            contents(packed@) == packed_of(mode, bl),
            forall|k: int| 0 <= k < blocks@.len() ==> (#[trigger] blocks@[k])@.len() <= i32::MAX,
            all.comp <= u64::MAX,
            all.uncomp <= u64::MAX,
            all == frames::put_blocks(f@, mode, bl.skip(i as int)),
        decreases blocks.len() - i,
    {
        proof {
            let b = bl[i as int];
            let rest = bl.skip(i as int);
            assert(b == blocks@[i as int]@);
            assert(rest[0] == b);
            assert(rest.skip(1) =~= bl.skip(i + 1));
            assert(packed@[i as int]@ == contents(packed@)[i as int]);
            assert(packed@[i as int]@ == encoder::compressed(mode, b));
            encoder::lemma_compressed_len(mode, b);
            lemma_put_blocks_grows(frames::put_block(f@, mode, b), mode, rest.skip(1));
        }
        f.put_frame(&packed[i], blocks[i].len());
        i = i + 1;
    }
    assert(bl.skip(i as int) =~= seq![]);
    f.write_header();
    let none: Vec<u8> = Vec::new();
    assert(none@ =~= seq![]);
    f.write_stream_end(true, 0, &none);
    f.into_output()
}

/// The stream of `data`, with its index. More than one thread stands for coding
/// block by block, with the same result.
pub fn compress(data: &[u8], threads: usize, entropy: EntropyMode, block_size: usize) -> (r: Result<
    Vec<u8>,
    StreamError,
>)
    requires
        fits(entropy, block_size_of(block_size as int), data@),
    ensures
        r matches Ok(out) && out@ == frames::whole(
            entropy,
            block_size_of(block_size as int),
            data@,
            true,
            0,
            seq![],
        ),
{
    let size: usize = if block_size < 1 {
        1
    } else {
        block_size
    };
    proof {
        lemma_fits(entropy, size as int, data@);
    }
    if threads <= 1 {
        let mut w = Writer::with_options(Vec::new(), entropy, size);
        proof {
            lemma_writer_fits(entropy, size as int, data@);
            let w0 = writer::Writing { padding: 0, fill: seq![], ..writer::idle(
                seq![],
                entropy,
                size as int,
            ) };
            assert(w@ == w0);
            writer::lemma_finished_whole(seq![], entropy, size as int, 0, seq![], data@, true);
            assert(seq![] + frames::whole(entropy, size as int, data@, true, 0, seq![])
                =~= frames::whole(entropy, size as int, data@, true, 0, seq![]));
        }
        match w.write_all(data) {
            Ok(()) => {},
            Err(e) => {
                return Err(e);
            },
        }
        return w.finish();
    }
    let blocks: Vec<Vec<u8>> = split_blocks(data, size);
    proof {
        frames::lemma_blocks(data@, size as int);
        assert forall|i: int| 0 <= i < blocks@.len() implies (#[trigger] blocks@[i])@.len()
            <= i32::MAX by {
            assert(blocks@[i]@ == contents(blocks@)[i]);
            reader::lemma_block_at_most(data@, size as int, i);
        }
    }
    let packed: Vec<Vec<u8>> = compress_blocks(&blocks, entropy);
    Ok(assemble(&blocks, &packed, Ghost(entropy)))
}

/// What [`compress`] gives, for every number of threads, is what a writer with the same
/// mode and block size finishes with, in whatever pieces it was given the data.
pub proof fn lemma_writer_agrees(mode: EntropyMode, block_size: int, pieces: Seq<Seq<u8>>)
    ensures
        writer::finished(
            writer::wrote_all(writer::idle(seq![], mode, block_size), pieces),
            true,
        ).frames.out == frames::whole(
            mode,
            block_size_of(block_size),
            frames::concat(pieces),
            true,
            0,
            seq![],
        ),
{
    let w = writer::idle(seq![], mode, block_size);
    assert(w == (writer::Writing { padding: 0, fill: seq![], ..w }));
    writer::lemma_pieces_whole(mode, block_size, 0, seq![], pieces, true);
}

proof fn lemma_writer_fits(mode: EntropyMode, size: int, data: Seq<u8>)
    requires
        0 < size,
        fits(mode, size, data),
    ensures
        ({
            let w = writer::idle(seq![], mode, size);
            &&& writer::accepts(w, data)
            &&& writer::closable(writer::wrote(w, data))
        }),
{
    let w = writer::idle(seq![], mode, size);
    assert(w.buf + data =~= data);
    writer::lemma_absorbed_blocks(w.frames, mode, size, data);
    lemma_fits(mode, size, data);
}

// ---------------------------------------------------------------------------
// Decompression
// ---------------------------------------------------------------------------
/// The blocks of the frames in `src`, up to an end marker or the end.
pub open spec fn blocks_in(src: Seq<u8>) -> Result<Seq<Seq<u8>>, StreamError>
    decreases src.len(),
{
    match frame_front(src) {
        Err(e) => Err(e),
        Ok(None) => Ok(seq![]),
        Ok(Some(c)) => if 4 + c > src.len() {
            Err(StreamError::UnexpectedEof)
        } else {
            match blocks_in(src.skip(4 + c)) {
                Err(e) => Err(e),
                Ok(r) => Ok(seq![src.subrange(4, 4 + c)] + r),
            }
        },
    }
}

/// What the bytes in front of a frame say: the length of its block, or that the
/// stream ends here.
pub open spec fn frame_front(b: Seq<u8>) -> Result<Option<int>, StreamError> {
    if b.len() < 4 || bytes::u32_at(b, 0) == 0 {
        Ok(None)
    } else if bytes::u32_at(b, 0) > MAX_FRAME_LEN {
        Err(StreamError::FrameTooLarge)
    } else {
        Ok(Some(bytes::u32_at(b, 0)))
    }
}

/// The four bytes in front of a frame: the length of its block, the low byte first. Zero
/// ends the stream, as does the end of the source; a length above 256 MiB is refused.
pub proof fn lemma_frame_front(b: Seq<u8>)
    ensures
        ({
            let n = b[0] + 256 * b[1] + 65536 * b[2] + 16777216 * b[3];
            frame_front(b) == if b.len() < 4 || n == 0 {
                Ok(None)
            } else if n > 268435456 {
                Err(StreamError::FrameTooLarge)
            } else {
                Ok(Some(n))
            }
        }),
{
}

/// What the bytes in front of a frame say: the length of its block, or that the
/// stream ends here.
pub fn next_frame(b: &[u8]) -> (r: Result<Option<usize>, StreamError>)
    ensures
        match r {
            Ok(Some(n)) => frame_front(b@) == Ok::<Option<int>, StreamError>(Some(n as int)),
            Ok(None) => frame_front(b@) == Ok::<Option<int>, StreamError>(None),
            Err(e) => frame_front(b@) == Err::<Option<int>, StreamError>(e),
        },
{
    if b.len() < 4 {
        return Ok(None);
    }
    let c: u32 = get_u32(b, 0);
    if c == 0 {
        Ok(None)
    } else if c as usize > MAX_FRAME_LEN {
        Err(StreamError::FrameTooLarge)
    } else {
        Ok(Some(c as usize))
    }
}

/// The content of blocks, one after the other.
pub open spec fn unpacked_all(bl: Seq<Seq<u8>>) -> Result<Seq<u8>, StreamError>
    decreases bl.len(),
{
    if bl.len() == 0 {
        Ok(seq![])
    } else {
        match structural::decoded(bl[0]) {
            Err(e) => Err(StreamError::DecodeFailed(e)),
            Ok(b) => match unpacked_all(bl.skip(1)) {
                Err(e) => Err(e),
                Ok(r) => Ok(b + r),
            },
        }
    }
}

/// The content of the stream `src`, taken apart first and decoded then.
pub open spec fn taken_apart(src: Seq<u8>) -> Result<Seq<u8>, StreamError> {
    if src.len() < 5 {
        Err(StreamError::UnexpectedEof)
    } else if src.take(4) != stream::magic() {
        Err(StreamError::BadMagic)
    } else if src[4] != STREAM_VERSION {
        Err(StreamError::UnsupportedVersion)
    } else {
        match blocks_in(src.skip(5)) {
            Err(e) => Err(e),
            Ok(bl) => unpacked_all(bl),
        }
    }
}

/// The content of the stream `src`, read from its start.
pub open spec fn read_through(src: Seq<u8>) -> Result<Seq<u8>, StreamError> {
    let d = reader::delivered(reader::fresh(false, false), src);
    match d.err {
        Some(e) => Err(e),
        None => Ok(d.data),
    }
}

/// Cuts the frames of a stream, without its header, into blocks.
pub fn split_frames(src: &[u8]) -> (r: Result<Vec<Vec<u8>>, StreamError>)
    ensures
        match r {
            Ok(bl) => blocks_in(src@) == Ok::<Seq<Seq<u8>>, StreamError>(contents(bl@)),
            Err(e) => blocks_in(src@) == Err::<Seq<Seq<u8>>, StreamError>(e),
        },
{
    let n: usize = src.len();
    let mut r: Vec<Vec<u8>> = Vec::new();
    let mut at: usize = 0;
    let ghost all = blocks_in(src@);
    proof {
        assert(src@.skip(0) =~= src@);
        if let Ok(bl) = all {
            assert(contents(r@) + bl =~= bl);
        }
    }
    while n - at >= 4
        invariant_except_break
            match blocks_in(src@.skip(at as int)) {
                Ok(bl) => all == Ok::<Seq<Seq<u8>>, StreamError>(contents(r@) + bl),
                Err(e) => all == Err::<Seq<Seq<u8>>, StreamError>(e),
            },
        invariant
            n == src@.len(),
            at <= n,
            all == blocks_in(src@),
        ensures
            all == Ok::<Seq<Seq<u8>>, StreamError>(contents(r@)),
        decreases n - at,
    {
        let ghost rest = src@.skip(at as int);
        assert(src@.subrange(at as int, at + 4) =~= rest.take(4));
        assert(frame_front(rest.take(4)) == frame_front(rest));
        assert(contents(r@) + Seq::<Seq<u8>>::empty() =~= contents(r@));
        let len: usize = match next_frame(&src[at..at + 4]) {
            Ok(Some(c)) => c,
            Ok(None) => {
                break;
            },
            Err(e) => {
                return Err(e);
            },
        };
        if len > n - at - 4 {
            return Err(StreamError::UnexpectedEof);
        }
        let mut b: Vec<u8> = Vec::new();
        append(&mut b, &src[at + 4..at + 4 + len]);
        let ghost before = contents(r@);
        let ghost bv = b@;
        r.push(b);
        at = at + 4 + len;
        proof {
            assert(bv =~= rest.subrange(4, 4 + len));
            assert(rest.skip(4 + len) =~= src@.skip(at as int));
            assert(contents(r@) =~= before.push(bv));
            if let Ok(bl) = blocks_in(src@.skip(at as int)) {
                assert(before + (seq![bv] + bl) =~= contents(r@) + bl);
            }
        }
        proof {
            if n - at < 4 {
                assert(contents(r@) + Seq::<Seq<u8>>::empty() =~= contents(r@));
            }
        }
    }
    Ok(r)
}

/// Decodes blocks one after the other.
pub fn decompress_blocks(bl: &Vec<Vec<u8>>) -> (r: Result<Vec<u8>, StreamError>)
    ensures
        match r {
            Ok(out) => unpacked_all(contents(bl@)) == Ok::<Seq<u8>, StreamError>(out@),
            Err(e) => unpacked_all(contents(bl@)) == Err::<Seq<u8>, StreamError>(e),
        },
{
    let ghost list = contents(bl@);
    let ghost all = unpacked_all(list);
    let mut out: Vec<u8> = Vec::new();
    let mut i: usize = 0;
    proof {
        assert(list.skip(0) =~= list);
        if let Ok(d) = all {
            assert(out@ + d =~= d);
        }
    }
    while i < bl.len()
        invariant
            i <= bl@.len(),
            list == contents(bl@),
            all == unpacked_all(list),
            match unpacked_all(list.skip(i as int)) {
                Ok(d) => all == Ok::<Seq<u8>, StreamError>(out@ + d),
                Err(e) => all == Err::<Seq<u8>, StreamError>(e),
            },
        decreases bl.len() - i,
    {
        let ghost rest = list.skip(i as int);
        let ghost before = out@;
        assert(rest[0] == bl@[i as int]@);
        assert(rest.skip(1) =~= list.skip(i + 1));
        let b: Vec<u8> = match iguana_decompress_simd(&bl[i]) {
            Ok(b) => b,
            Err(e) => {
                return Err(StreamError::DecodeFailed(e));
            },
        };
        append(&mut out, &b);
        i = i + 1;
        proof {
            if let Ok(d) = unpacked_all(list.skip(i as int)) {
                assert(before + (b@ + d) =~= out@ + d);
            }
        }
    }
    assert(list.skip(i as int) =~= seq![]);
    assert(out@ + Seq::<u8>::empty() =~= out@);
    Ok(out)
}

/// The content of the stream `framed`. With one thread it is read from its start;
/// with more it is taken apart first, which can make a difference only to the
/// error that is found.
pub fn decompress(framed: &[u8], threads: usize) -> (r: Result<Vec<u8>, StreamError>)
    ensures
        ({
            let d = if threads <= 1 {
                read_through(framed@)
            } else {
                taken_apart(framed@)
            };
            match r {
                Ok(out) => d == Ok::<Seq<u8>, StreamError>(out@),
                Err(e) => d == Err::<Seq<u8>, StreamError>(e),
            }
        }),
{
    if threads <= 1 {
        let mut src: Vec<u8> = Vec::new();
        append(&mut src, framed);
        assert(src@ =~= framed@);
        let mut out: Vec<u8> = Vec::new();
        let mut rd = Reader::new(src);
        return match rd.read_to_end(&mut out) {
            Ok(_) => {
                assert(out@ =~= reader::delivered(reader::fresh(false, false), framed@).data);
                Ok(out)
            },
            Err(e) => Err(e),
        };
    }
    if framed.len() < 5 {
        return Err(StreamError::UnexpectedEof);
    }
    if !has_magic(framed) {
        return Err(StreamError::BadMagic);
    }
    if framed[4] != STREAM_VERSION {
        return Err(StreamError::UnsupportedVersion);
    }
    assert(framed@.skip(5) =~= framed@.subrange(5, framed@.len() as int));
    match split_frames(&framed[5..framed.len()]) {
        Ok(bl) => decompress_blocks(&bl),
        Err(e) => Err(e),
    }
}

proof fn lemma_frames_agree(r: reader::Reading, src: Seq<u8>)
    requires
        r.phase is Frames,
        reader::left(r) == 0,
    ensures
        ({
            let d = reader::delivered(r, src);
            let t = match blocks_in(src) {
                Err(e) => Err(e),
                Ok(bl) => unpacked_all(bl),
            };
            match t {
                Ok(c) => d.err is None && d.data == c,
                Err(e) => d.err is Some,
            }
        }),
    decreases src.len(),
{
    reveal(reader::supplied);
    let k = reader::portion(r, src);
    let (r1, e1) = reader::supplied(r, src.take(k));
    if src.len() < 4 {
        assert(reader::delivered(r1, src.skip(k)).data =~= seq![]);
    } else {
        let c = bytes::u32_at(src, 0);
        assert(bytes::u32_at(src.take(4), 0) == c);
        if c == 0 {
            assert(reader::delivered(r1, src.skip(k)).data =~= seq![]);
        } else if c <= MAX_FRAME_LEN {
            lemma_body_agrees(r1, src.skip(4), c as usize);
            let s1 = src.skip(4);
            if c <= s1.len() {
                assert(s1.take(c) =~= src.subrange(4, 4 + c));
                assert(s1.skip(c) =~= src.skip(4 + c));
                if let Ok(bl) = blocks_in(src.skip(4 + c)) {
                    let all = seq![src.subrange(4, 4 + c)] + bl;
                    assert(all.skip(1) =~= bl);
                    assert(all[0] == src.subrange(4, 4 + c));
                }
            }
        }
    }
}

proof fn lemma_body_agrees(r: reader::Reading, src: Seq<u8>, c: usize)
    requires
        r.phase == reader::Phase::Body(c),
        reader::left(r) == 0,
        0 < c,
    ensures
        ({
            let d = reader::delivered(r, src);
            if c > src.len() {
                d.err is Some
            } else {
                match structural::decoded(src.take(c as int)) {
                    Err(e) => d.err is Some,
                    Ok(b) => match blocks_in(src.skip(c as int)) {
                        Err(e) => d.err is Some,
                        Ok(bl) => match unpacked_all(bl) {
                            Err(e) => d.err is Some,
                            Ok(t) => d.err is None && d.data == b + t,
                        },
                    },
                }
            }
        }),
    decreases src.len(),
{
    reveal(reader::supplied);
    let k = reader::portion(r, src);
    let (r1, e1) = reader::supplied(r, src.take(k));
    if c <= src.len() {
        if let Ok(b) = structural::decoded(src.take(c as int)) {
            let q = reader::Reading { pos: r1.block.len() as int, ..r1 };
            lemma_frames_agree(q, src.skip(c as int));
            let d = reader::delivered(q, src.skip(c as int));
            assert(r1.block == b && r1.pos == 0);
            if b.len() > 0 {
                assert(b.skip(0) =~= b);
                assert(reader::need(r1) <= 0);
                assert(reader::delivered(r1, src.skip(c as int)).data == b + d.data);
            } else {
                assert(q == r1);
                assert(b + d.data =~= d.data);
            }
        }
    }
}

/// Reading a stream through and taking it apart give the same content, and find
/// an error in the same streams.
pub proof fn lemma_threads_agree(src: Seq<u8>)
    ensures
        match taken_apart(src) {
            Ok(d) => read_through(src) == Ok::<Seq<u8>, StreamError>(d),
            Err(e) => read_through(src) is Err,
        },
{
    reveal(reader::supplied);
    let r = reader::fresh(false, false);
    let k = reader::portion(r, src);
    let b = src.take(k);
    let (r1, e1) = reader::supplied(r, b);
    if b.len() >= 4 {
        assert(b.take(4) =~= src.take(4));
    }
    if e1 is None {
        lemma_frames_agree(r1, src.skip(5));
    }
}

/// Decompressing a compressed stream gives back its content, for every number of
/// threads on either side.
pub proof fn lemma_roundtrip(mode: EntropyMode, size: int, data: Seq<u8>)
    requires
        0 < size,
        reader::all_readable(mode, frames::blocks(data, size)),
    ensures
        read_through(frames::whole(mode, size, data, true, 0, seq![])) == Ok::<
            Seq<u8>,
            StreamError,
        >(data),
        taken_apart(frames::whole(mode, size, data, true, 0, seq![])) == Ok::<
            Seq<u8>,
            StreamError,
        >(data),
{
    reader::lemma_stream_roundtrip(mode, size, data, true, 0, seq![], false);
    lemma_threads_agree(frames::whole(mode, size, data, true, 0, seq![]));
}

} // verus!
