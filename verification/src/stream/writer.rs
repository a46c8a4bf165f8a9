//! The stream writer: content goes in, blocks are compressed as they fill up.
use crate::bytes;
use crate::bytes::append;
use crate::encoder;
use crate::encoder::{Encoder, EntropyMode};
use crate::stream;
use crate::stream::frames;
use crate::stream::frames::Frames;
use crate::stream::index;
use crate::stream::index::Index;
use crate::stream::seek;
use crate::stream::{StreamError, DEFAULT_BLOCK_SIZE};
use vstd::prelude::*;

verus! {

/// The state of a writer: the stream so far, the content of the block that is not
/// full yet, and the settings.
pub struct Writing {
    pub frames: frames::Progress,
    pub buf: Seq<u8>,
    pub mode: EntropyMode,
    pub size: int,
    pub padding: int,
    pub fill: Seq<u8>,
}

/// A writer that has written nothing behind `out`.
pub open spec fn idle(out: Seq<u8>, mode: EntropyMode, size: int) -> Writing {
    Writing {
        frames: frames::unstarted(out),
        buf: seq![],
        mode,
        size: if size < 1 {
            1
        } else {
            size
        },
        padding: 0,
        fill: seq![],
    }
}

/// The stream after all full blocks of `all` have been put out, and what is left.
pub open spec fn absorbed(s: frames::Progress, mode: EntropyMode, size: int, all: Seq<u8>) -> (
    frames::Progress,
    Seq<u8>,
)
    decreases all.len(),
{
    if size <= 0 || all.len() < size {
        (s, all)
    } else {
        absorbed(frames::put_block(s, mode, all.take(size)), mode, size, all.skip(size))
    }
}

/// The state after `data` has been written.
pub open spec fn wrote(w: Writing, data: Seq<u8>) -> Writing {
    let (s, rest) = absorbed(w.frames, w.mode, w.size, w.buf + data);
    Writing { frames: s, buf: rest, ..w }
}

/// The state after the pending block has been put out.
pub open spec fn flushed(w: Writing) -> Writing {
    if w.buf.len() == 0 {
        w
    } else {
        Writing { frames: frames::put_block(w.frames, w.mode, w.buf), buf: seq![], ..w }
    }
}

/// The state after the last frame.
pub open spec fn closed(w: Writing) -> Writing {
    Writing { frames: frames::begun(flushed(w).frames), buf: seq![], ..w }
}

/// The state after the end of the stream, and its seek index.
pub open spec fn finished(w: Writing, embed: bool) -> Writing {
    let s = closed(w).frames;
    let pad = frames::pad_len(s.comp + 4, w.padding);
    Writing {
        frames: frames::Progress {
            out: s.out + frames::stream_end(s, embed, w.padding, w.fill),
            entries: seq![],
            ..s
        },
        buf: seq![],
        fill: if pad < w.fill.len() {
            w.fill.skip(pad)
        } else {
            seq![]
        },
        ..w
    }
}

/// The invariant of a writer: its block is not full and can be compressed.
pub open spec fn writable(w: Writing) -> bool {
    w.buf.len() < w.size && w.buf.len() <= i32::MAX
}

/// A bound on the position in the stream once the pending block is out: a frame
/// adds at most 145 bytes to its content.
pub open spec fn reach(w: Writing) -> int {
    w.frames.comp + 146 * w.buf.len() + if w.frames.started {
        0int
    } else {
        5
    }
}

/// The writer can take `data`: blocks stay within what the encoder takes, and
/// positions within 64 bits, by a simple bound or as it turns out.
pub open spec fn accepts(w: Writing, data: Seq<u8>) -> bool {
    &&& w.size <= i32::MAX || w.buf.len() + data.len() <= i32::MAX
    &&& frames::positions_fit(wrote(w, data).frames) || (reach(w) + 146 * data.len() <= u64::MAX
        && w.frames.uncomp + w.buf.len() + data.len() <= u64::MAX)
}

/// The stream can be ended with positions within 64 bits, by a simple bound or as
/// it turns out.
pub open spec fn closable(w: Writing) -> bool {
    ||| reach(w) + 4 <= u64::MAX && w.frames.uncomp + w.buf.len() <= u64::MAX
    ||| closed(w).frames.comp + 4 <= u64::MAX && closed(w).frames.uncomp <= u64::MAX
}

/// What a new writer holds: nothing but what it was given.
pub proof fn lemma_idle(out: Seq<u8>, mode: EntropyMode, size: int)
    ensures
        ({
            let w = idle(out, mode, size);
            &&& w.buf.len() == 0
            &&& w.mode == mode
            &&& w.padding == 0
            &&& w.fill.len() == 0
            &&& w.frames.out == out
            &&& w.frames.comp == 0
            &&& w.frames.uncomp == 0
            &&& w.frames.entries.len() == 0
            &&& !w.frames.started
        }),
{
}

/// What stays as it was while a stream is written, and what the end of the stream takes of
/// the fill: as many bytes as are padded, from the front.
pub proof fn lemma_settings(w: Writing, data: Seq<u8>, embed: bool)
    requires
        0 <= w.padding,
    ensures
        ({
            let a = wrote(w, data);
            let z = finished(w, embed);
            let s = closed(w).frames;
            let pad = finished(w, false).frames.out.len() - s.out.len() - 4;
            &&& a.mode == w.mode && z.mode == w.mode
            &&& a.size == w.size && z.size == w.size
            &&& a.padding == w.padding && z.padding == w.padding
            &&& a.fill == w.fill
            &&& z.buf.len() == 0
            &&& z.frames.entries.len() == 0
            &&& pad <= w.fill.len() ==> z.fill == w.fill.skip(pad)
            &&& pad > w.fill.len() ==> z.fill == Seq::<u8>::empty()
        }),
{
    let s = closed(w).frames;
    if s.comp >= 0 {
        frames::lemma_padding(s.comp + 4, w.padding);
    } else if w.padding > 1 {
        vstd::arithmetic::div_mod::lemma_mod_bound(
            w.padding - (s.comp + 4) % w.padding,
            w.padding,
        );
    }
    let n = frames::pad_len(s.comp + 4, w.padding);
    assert(finished(w, false).frames.out.len() == s.out.len() + 4 + n);
    assert(w.fill.skip(w.fill.len() as int) =~= seq![]);
}

proof fn lemma_absorbed_reach(s: frames::Progress, mode: EntropyMode, size: int, all: Seq<u8>)
    requires
        size <= i32::MAX || all.len() <= i32::MAX,
    ensures
        ({
            let (s1, rest) = absorbed(s, mode, size, all);
            &&& s1.comp + 146 * rest.len() + (if s1.started {
                0int
            } else {
                5
            }) <= s.comp + 146 * all.len() + (if s.started {
                0int
            } else {
                5
            })
            &&& s1.uncomp + rest.len() == s.uncomp + all.len()
        }),
    decreases all.len(),
{
    if 0 < size <= all.len() {
        encoder::lemma_compressed_len(mode, all.take(size));
        lemma_absorbed_reach(
            frames::put_block(s, mode, all.take(size)),
            mode,
            size,
            all.skip(size),
        );
    }
}

/// The simple bound on positions holds on when content is written.
pub proof fn lemma_reach(w: Writing, data: Seq<u8>)
    requires
        w.size <= i32::MAX || w.buf.len() + data.len() <= i32::MAX,
    ensures
        reach(wrote(w, data)) <= reach(w) + 146 * data.len(),
        wrote(w, data).frames.uncomp + wrote(w, data).buf.len() == w.frames.uncomp + w.buf.len()
            + data.len(),
{
    lemma_absorbed_reach(w.frames, w.mode, w.size, w.buf + data);
}

/// A stream that can be ended has positions within 64 bits at its end.
pub proof fn lemma_closable(w: Writing)
    requires
        w.buf.len() <= i32::MAX,
        closable(w),
    ensures
        closed(w).frames.comp + 4 <= u64::MAX,
        closed(w).frames.uncomp <= u64::MAX,
        frames::positions_fit(flushed(w).frames),
{
    encoder::lemma_compressed_len(w.mode, w.buf);
}

/// The writer has the index of the blocks that were written when it is closed.
pub proof fn lemma_closed_index(
    out: Seq<u8>,
    mode: EntropyMode,
    size: int,
    padding: int,
    fill: Seq<u8>,
    data: Seq<u8>,
)
    requires
        0 < size,
    ensures
        ({
            let w = Writing { padding, fill, ..idle(out, mode, size) };
            let s = closed(wrote(w, data)).frames;
            &&& s.entries == frames::entries_of(mode, 5, 0, frames::blocks(data, size))
            &&& s.uncomp == data.len()
        }),
{
    let w = Writing { padding, fill, ..idle(out, mode, size) };
    assert(w.buf + data =~= data);
    lemma_absorbed_blocks(w.frames, mode, size, data);
    frames::lemma_begun_blocks(out, mode, frames::blocks(data, size));
    frames::lemma_blocks(data, size);
}

proof fn lemma_absorbed_grows(s: frames::Progress, mode: EntropyMode, size: int, all: Seq<u8>)
    ensures
        s.comp <= absorbed(s, mode, size, all).0.comp,
        s.uncomp <= absorbed(s, mode, size, all).0.uncomp,
    decreases all.len(),
{
    if 0 < size <= all.len() {
        lemma_absorbed_grows(
            frames::put_block(s, mode, all.take(size)),
            mode,
            size,
            all.skip(size),
        );
    }
}

/// What is left over is shorter than a block, and not longer than what there was.
pub proof fn lemma_left_over(s: frames::Progress, mode: EntropyMode, size: int, all: Seq<u8>)
    requires
        0 < size,
    ensures
        absorbed(s, mode, size, all).1.len() < size,
        absorbed(s, mode, size, all).1.len() <= all.len(),
    decreases all.len(),
{
    if all.len() >= size {
        lemma_left_over(
            frames::put_block(s, mode, all.take(size)),
            mode,
            size,
            all.skip(size),
        );
    }
}

proof fn lemma_absorbed_more(
    s: frames::Progress,
    mode: EntropyMode,
    size: int,
    all: Seq<u8>,
    more: Seq<u8>,
)
    requires
        0 < size,
    ensures
        ({
            let (s1, rest) = absorbed(s, mode, size, all);
            absorbed(s1, mode, size, rest + more) == absorbed(s, mode, size, all + more)
        }),
        absorbed(s, mode, size, all).1.len() < size,
    decreases all.len(),
{
    if all.len() >= size {
        lemma_absorbed_more(
            frames::put_block(s, mode, all.take(size)),
            mode,
            size,
            all.skip(size),
            more,
        );
        assert((all + more).take(size) =~= all.take(size));
        assert((all + more).skip(size) =~= all.skip(size) + more);
    }
}

/// It does not matter in which pieces content is written.
pub proof fn lemma_write_pieces(w: Writing, a: Seq<u8>, b: Seq<u8>)
    requires
        0 < w.size,
    ensures
        wrote(wrote(w, a), b) == wrote(w, a + b),
{
    lemma_absorbed_more(w.frames, w.mode, w.size, w.buf + a, b);
    assert(w.buf + (a + b) =~= w.buf + a + b);
}

/// The state after all `pieces` have been written, one after the other.
pub open spec fn wrote_all(w: Writing, pieces: Seq<Seq<u8>>) -> Writing
    decreases pieces.len(),
{
    if pieces.len() == 0 {
        w
    } else {
        wrote_all(wrote(w, pieces[0]), pieces.skip(1))
    }
}

/// However content is cut into pieces, empty ones too, writing these is writing the
/// content at once.
pub proof fn lemma_write_any_pieces(w: Writing, pieces: Seq<Seq<u8>>)
    requires
        w.buf.len() < w.size,
    ensures
        wrote_all(w, pieces) == wrote(w, frames::concat(pieces)),
    decreases pieces.len(),
{
    if pieces.len() == 0 {
        assert(w.buf + Seq::<u8>::empty() =~= w.buf);
    } else {
        lemma_left_over(w.frames, w.mode, w.size, w.buf + pieces[0]);
        lemma_write_any_pieces(wrote(w, pieces[0]), pieces.skip(1));
        lemma_write_pieces(w, pieces[0], frames::concat(pieces.skip(1)));
    }
}

/// Two writers with the same settings that were given the same content, in any
/// pieces, finish with the same stream: that of the content.
pub proof fn lemma_pieces_whole(
    mode: EntropyMode,
    size: int,
    padding: int,
    fill: Seq<u8>,
    pieces: Seq<Seq<u8>>,
    embed: bool,
)
    ensures
        finished(
            wrote_all(Writing { padding, fill, ..idle(seq![], mode, size) }, pieces),
            embed,
        ).frames.out == frames::whole(
            mode,
            idle(seq![], mode, size).size,
            frames::concat(pieces),
            embed,
            padding,
            fill,
        ),
{
    let w = Writing { padding, fill, ..idle(seq![], mode, size) };
    let data = frames::concat(pieces);
    lemma_write_any_pieces(w, pieces);
    lemma_finished_whole(seq![], mode, w.size, padding, fill, data, embed);
    let s = frames::whole(mode, w.size, data, embed, padding, fill);
    assert(seq![] + s =~= s);
}

/// A finished stream without padding and without its index, and the index that goes
/// with it: the header, the frame of each block where the index says, the end marker.
pub proof fn lemma_finish_index(mode: EntropyMode, size: int, pieces: Seq<Seq<u8>>, i: int)
    requires
        0 < size,
        0 <= i < frames::blocks(frames::concat(pieces), size).len(),
        frames::concat(pieces).len() <= u64::MAX,
        finished(wrote_all(idle(seq![], mode, size), pieces), false).frames.out.len() <= u64::MAX,
    ensures
        ({
            let data = frames::concat(pieces);
            let bl = frames::blocks(data, size);
            let w = wrote_all(idle(seq![], mode, size), pieces);
            let sink = finished(w, false).frames.out;
            let entries = closed(w).frames.entries;
            let (at, from) = entries[i];
            let packed = encoder::compressed(mode, bl[i]);
            &&& closed(w).frames.uncomp == data.len()
            &&& entries.len() == bl.len() == (data.len() + size - 1) / size
            &&& from == i * size
            &&& bl[i] == data.subrange(
                i * size,
                if (i + 1) * size < data.len() {
                    (i + 1) * size
                } else {
                    data.len() as int
                },
            )
            &&& index::located(entries, from) == i
            &&& entries[0].0 == 5
            &&& bytes::holds_at(sink, at as int, bytes::le32(packed.len() as int) + packed)
            &&& i + 1 < bl.len() ==> entries[i + 1].0 == at + 4 + packed.len()
            &&& i + 1 == bl.len() ==> sink.len() == at + 4 + packed.len() + 4
            &&& sink.take(5) == stream::header()
            &&& sink.skip(sink.len() - 4) == bytes::le32(0)
        }),
{
    let data = frames::concat(pieces);
    let bl = frames::blocks(data, size);
    lemma_plain_stream(mode, size, pieces);
    frames::lemma_blocks(data, size);
    frames::lemma_block_borders(data, size, i);
    frames::lemma_block_count(data, size);
    lemma_frame_place(mode, bl, i);
}

/// A finished stream without padding and index is the header, the frames of the blocks
/// and the end marker.
pub proof fn lemma_plain_stream(mode: EntropyMode, size: int, pieces: Seq<Seq<u8>>)
    requires
        0 < size,
    ensures
        ({
            let data = frames::concat(pieces);
            let bl = frames::blocks(data, size);
            let w = wrote_all(idle(seq![], mode, size), pieces);
            &&& finished(w, false).frames.out == stream::header() + frames::frames(mode, bl)
                + bytes::le32(0)
            &&& closed(w).frames.entries == frames::entries_of(mode, 5, 0, bl)
            &&& closed(w).frames.uncomp == data.len()
        }),
{
    let data = frames::concat(pieces);
    let bl = frames::blocks(data, size);
    let w = idle(seq![], mode, size);
    lemma_write_any_pieces(w, pieces);
    lemma_pieces_whole(mode, size, 0, seq![], pieces, false);
    lemma_closed_index(seq![], mode, size, 0, seq![], data);
    assert(w == (Writing { padding: 0, fill: seq![], ..w }));
    frames::lemma_begun_blocks(seq![], mode, bl);
    let s = frames::begun(frames::put_blocks(frames::unstarted(seq![]), mode, bl));
    assert(s.out =~= stream::header() + frames::frames(mode, bl));
    assert(frames::stream_end(s, false, 0, seq![]) =~= bytes::le32(0));
}

/// Where the frame of a block stands in a stream, and how the index leads there.
proof fn lemma_frame_place(mode: EntropyMode, bl: Seq<Seq<u8>>, i: int)
    requires
        0 <= i < bl.len(),
        5 + frames::frames(mode, bl).len() <= u64::MAX,
        frames::total_len(bl) <= u64::MAX,
        forall|k: int| 0 <= k < bl.len() ==> (#[trigger] bl[k]).len() > 0,
    ensures
        ({
            let sink = stream::header() + frames::frames(mode, bl) + bytes::le32(0);
            let e = frames::entries_of(mode, 5, 0, bl);
            let packed = encoder::compressed(mode, bl[i]);
            let at = e[i].0;
            &&& e.len() == bl.len()
            &&& e[i].1 == frames::total_len(bl.take(i))
            &&& index::located(e, e[i].1) == i
            &&& e[0].0 == 5
            &&& bytes::holds_at(sink, at as int, bytes::le32(packed.len() as int) + packed)
            &&& i + 1 < bl.len() ==> e[i + 1].0 == at + 4 + packed.len()
            &&& i + 1 == bl.len() ==> sink.len() == at + 4 + packed.len() + 4
            &&& sink.take(5) == stream::header()
            &&& sink.skip(sink.len() - 4) == bytes::le32(0)
        }),
{
    let e = frames::entries_of(mode, 5, 0, bl);
    lemma_located_at(mode, bl, i);
    frames::lemma_entries(mode, 5, 0, bl, i);
    frames::lemma_entries(mode, 5, 0, bl, 0);
    assert(bl.take(0) =~= seq![]);
    frames::lemma_frames_split(mode, bl, i);
    let h = stream::header();
    let x = frames::frames(mode, bl.take(i));
    let y = frames::frame(mode, bl[i]);
    let z = frames::frames(mode, bl.skip(i + 1));
    lemma_middle(h, x, y, z, bytes::le32(0));
    if i + 1 < bl.len() {
        frames::lemma_entries(mode, 5, 0, bl, i + 1);
        frames::lemma_frames_split(mode, bl.take(i + 1), i);
        assert(bl.take(i + 1).take(i) =~= bl.take(i));
        assert(bl.take(i + 1).skip(i + 1) =~= seq![]);
        frames::lemma_frames_split(mode, bl, i + 1);
    } else {
        assert(bl.skip(i + 1) =~= seq![]);
    }
}

/// The index finds a block by the position where it starts.
proof fn lemma_located_at(mode: EntropyMode, bl: Seq<Seq<u8>>, i: int)
    requires
        0 <= i < bl.len(),
        frames::total_len(bl) <= u64::MAX,
        forall|k: int| 0 <= k < bl.len() ==> (#[trigger] bl[k]).len() > 0,
    ensures
        ({
            let e = frames::entries_of(mode, 5, 0, bl);
            &&& e[i].1 == frames::total_len(bl.take(i))
            &&& index::located(e, e[i].1) == i
        }),
{
    let e = frames::entries_of(mode, 5, 0, bl);
    frames::lemma_entries_len(mode, 5, 0, bl);
    seek::lemma_ascending(mode, bl);
    index::lemma_located(e, e[i].1);
    let k = index::located(e, e[i].1);
    assert(e[i].1 <= e[i].1);
    if k > i {
        assert(e[i].1 < e[k].1);
    }
    if 0 < i {
        assert(e[0].1 < e[i].1);
    }
}

/// One of the parts of a sequence, its front and its end.
proof fn lemma_middle(h: Seq<u8>, x: Seq<u8>, y: Seq<u8>, z: Seq<u8>, t: Seq<u8>)
    ensures
        ({
            let s = h + (x + (y + z)) + t;
            &&& bytes::holds_at(s, (h.len() + x.len()) as int, y)
            &&& s.take(h.len() as int) == h
            &&& s.skip(s.len() - t.len()) == t
        }),
{
    let s = h + (x + (y + z)) + t;
    let at = (h.len() + x.len()) as int;
    assert(s.subrange(at, at + y.len()) =~= y);
    assert(s.take(h.len() as int) =~= h);
    assert(s.skip(s.len() - t.len()) =~= t);
}

/// Absorbing content and writing the rest of it writes all its blocks.
pub proof fn lemma_absorbed_blocks(s: frames::Progress, mode: EntropyMode, size: int, all: Seq<u8>)
    requires
        0 < size,
    ensures
        ({
            let (s1, rest) = absorbed(s, mode, size, all);
            frames::put_blocks(s, mode, frames::blocks(all, size)) == if rest.len() == 0 {
                s1
            } else {
                frames::put_block(s1, mode, rest)
            }
        }),
    decreases all.len(),
{
    let bl = frames::blocks(all, size);
    if all.len() < size {
        if all.len() > 0 {
            assert(bl.skip(1) =~= seq![]);
            let s1 = frames::put_block(s, mode, all);
            assert(frames::put_blocks(s1, mode, bl.skip(1)) == s1);
        }
    } else {
        let s1 = frames::put_block(s, mode, all.take(size));
        let rest = all.skip(size);
        lemma_absorbed_blocks(s1, mode, size, rest);
        if all.len() == size {
            assert(all.take(size) =~= all);
            assert(rest =~= seq![]);
            assert(bl.skip(1) =~= frames::blocks(rest, size));
        } else {
            assert(bl.skip(1) =~= frames::blocks(rest, size));
        }
    }
}

/// Writing content and finishing gives the stream of the content, behind what
/// the sink held.
pub proof fn lemma_finished_whole(
    out: Seq<u8>,
    mode: EntropyMode,
    size: int,
    padding: int,
    fill: Seq<u8>,
    data: Seq<u8>,
    embed: bool,
)
    requires
        0 < size,
    ensures
        finished(
            wrote(Writing { padding, fill, ..idle(out, mode, size) }, data),
            embed,
        ).frames.out == out + frames::whole(mode, size, data, embed, padding, fill),
{
    let w = Writing { padding, fill, ..idle(out, mode, size) };
    let bl = frames::blocks(data, size);
    assert(w.buf + data =~= data);
    lemma_absorbed_blocks(w.frames, mode, size, data);
    frames::lemma_begun_blocks(out, mode, bl);
    frames::lemma_begun_blocks(seq![], mode, bl);
    let s = frames::begun(frames::put_blocks(frames::unstarted(seq![]), mode, bl));
    let e = frames::stream_end(s, embed, padding, fill);
    assert(closed(wrote(w, data)).frames == (frames::Progress { out: out + s.out, ..s })) by {
        assert(out + crate::stream::header() + frames::frames(mode, bl) =~= out + s.out);
    }
    assert(out + s.out + e =~= out + (s.out + e));
}

/// The length of a padded stream without an index is a multiple of the padding.
pub proof fn lemma_padded_multiple(
    mode: EntropyMode,
    size: int,
    data: Seq<u8>,
    padding: int,
    fill: Seq<u8>,
)
    requires
        padding > 1,
    ensures
        frames::whole(mode, size, data, false, padding, fill).len() % (padding as nat) == 0,
{
    let bl = frames::blocks(data, size);
    frames::lemma_begun_blocks(seq![], mode, bl);
    let s = frames::begun(frames::put_blocks(frames::unstarted(seq![]), mode, bl));
    assert(s.out.len() == s.comp);
    frames::lemma_padding(s.comp + 4, padding);
    assert(frames::stream_end(s, false, padding, fill).len() == 4 + frames::pad_len(
        s.comp + 4,
        padding,
    ));
}

/// Writes a stream into a buffer.
pub struct Writer {
    frames: Frames,
    buf: Vec<u8>,
    block_size: usize,
    entropy: EntropyMode,
    padding: usize,
    fill: Vec<u8>,
    encoder: Encoder,
    block_out: Vec<u8>,
}

impl View for Writer {
    type V = Writing;

    closed spec fn view(&self) -> Writing {
        Writing {
            frames: self.frames@,
            buf: self.buf@,
            mode: self.entropy,
            size: self.block_size as int,
            padding: self.padding as int,
            fill: self.fill@,
        }
    }
}

impl Writer {
    /// A writer behind `inner`, with interleaved coding and the default block size.
    pub fn new(inner: Vec<u8>) -> (w: Writer)
        ensures
            w@ == idle(inner@, EntropyMode::Ans32, DEFAULT_BLOCK_SIZE as int),
            writable(w@),
    {
        Writer::with_options(inner, EntropyMode::Ans32, DEFAULT_BLOCK_SIZE)
    }

    /// A writer behind `inner`. A block size of zero stands for one.
    pub fn with_options(inner: Vec<u8>, entropy: EntropyMode, block_size: usize) -> (w: Writer)
        ensures
            w@ == idle(inner@, entropy, block_size as int),
            writable(w@),
    {
        let size: usize = if block_size < 1 {
            1
        } else {
            block_size
        };
        Writer {
            frames: Frames::new(inner),
            buf: Vec::new(),
            block_size: size,
            entropy,
            padding: 0,
            fill: Vec::new(),
            encoder: Encoder::new(),
            block_out: Vec::new(),
        }
    }

    /// Pads the finished stream, without its index, to a multiple of `n` bytes
    /// (not at all if `n` is at most 1).
    pub fn padding(self, n: usize) -> (w: Writer)
        ensures
            w@ == (Writing { padding: n as int, ..self@ }),
    {
        Writer { padding: n, ..self }
    }

    /// The bytes to pad with; zeros follow when they are used up.
    pub fn padding_src(self, fill: Vec<u8>) -> (w: Writer)
        ensures
            w@ == (Writing { fill: fill@, ..self@ }),
    {
        Writer { fill, ..self }
    }

    /// Compresses and puts out the pending block, if there is one.
    fn flush_block(&mut self)
        requires
            old(self)@.buf.len() <= i32::MAX,
            frames::positions_fit(flushed(old(self)@).frames),
        ensures
            final(self)@ == flushed(old(self)@),
    {
        if self.buf.len() == 0 {
            return;
        }
        self.encoder.compress_into(&self.buf, self.entropy, &mut self.block_out);
        proof {
            encoder::lemma_compressed_len(self.entropy, self.buf@);
        }
        self.frames.put_frame(&self.block_out, self.buf.len());
        self.buf.clear();
        assert(self.buf@ =~= seq![]);
    }

    /// Writes `data`; the result is its length.
    pub fn write(&mut self, data: &[u8]) -> (r: Result<usize, StreamError>)
        requires
            writable(old(self)@),
            accepts(old(self)@, data@),
        ensures
            writable(final(self)@),
            final(self)@ == wrote(old(self)@, data@),
            reach(final(self)@) <= reach(old(self)@) + 146 * data@.len(),
            final(self)@.frames.uncomp + final(self)@.buf.len() == old(self)@.frames.uncomp + old(
                self,
            )@.buf.len() + data@.len(),
            r == Ok::<usize, StreamError>(data@.len() as usize),
    {
        let ghost w = self@;
        proof {
            lemma_reach(w, data@);
        }
        let n: usize = data.len();
        let mut at: usize = 0;
        assert(data@.skip(0) =~= data@);
        while at < n
            invariant
                n == data@.len(),
                at <= n,
                w.size > 0,
                writable(self@),
                self@.mode == w.mode,
                self@.size == w.size,
                self@.padding == w.padding,
                self@.fill == w.fill,
                w.size <= i32::MAX || self@.buf.len() + (n - at) <= i32::MAX,
                frames::positions_fit(wrote(w, data@).frames),
                absorbed(w.frames, w.mode, w.size, w.buf + data@) == absorbed(
                    self@.frames,
                    w.mode,
                    w.size,
                    self@.buf + data@.skip(at as int),
                ),
            decreases n - at,
        {
            let room: usize = self.block_size - self.buf.len();
            let take: usize = if room < n - at {
                room
            } else {
                n - at
            };
            let ghost before = self@.buf;
            let ghost rest = data@.skip(at + take);
            append(&mut self.buf, &data[at..at + take]);
            assert(before + data@.skip(at as int) =~= self.buf@ + rest);
            if self.buf.len() >= self.block_size {
                proof {
                    let all = self.buf@ + rest;
                    assert(all.take(w.size) =~= self.buf@);
                    assert(all.skip(w.size) =~= rest);
                    lemma_absorbed_grows(
                        frames::put_block(self@.frames, w.mode, self.buf@),
                        w.mode,
                        w.size,
                        rest,
                    );
                }
                self.flush_block();
                assert(self@.buf + rest =~= rest);
            }
            at = at + take;
        }
        proof {
            assert(self@.buf + data@.skip(n as int) =~= self@.buf);
        }
        Ok(n)
    }

    /// Writes all of `data`.
    pub fn write_all(&mut self, data: &[u8]) -> (r: Result<(), StreamError>)
        requires
            writable(old(self)@),
            accepts(old(self)@, data@),
        ensures
            writable(final(self)@),
            final(self)@ == wrote(old(self)@, data@),
            reach(final(self)@) <= reach(old(self)@) + 146 * data@.len(),
            final(self)@.frames.uncomp + final(self)@.buf.len() == old(self)@.frames.uncomp + old(
                self,
            )@.buf.len() + data@.len(),
            r == Ok::<(), StreamError>(()),
    {
        match self.write(data) {
            Ok(_) => Ok(()),
            Err(e) => Err(e),
        }
    }

    /// Puts out the pending block, and the header if nothing else is out.
    pub fn end_blocks(&mut self)
        requires
            writable(old(self)@),
            closable(old(self)@),
        ensures
            writable(final(self)@),
            final(self)@ == closed(old(self)@),
            final(self)@.frames.comp + 4 <= u64::MAX,
    {
        proof {
            lemma_closable(self@);
        }
        self.flush_block();
        self.frames.write_header();
        assert(self.buf@ =~= seq![]);
    }

    /// Number of padding bytes that the end of the stream will hold.
    pub fn pad_len(&self) -> (n: usize)
        requires
            self@.frames.comp + 4 <= u64::MAX,
        ensures
            n == frames::pad_len(self@.frames.comp + 4, self@.padding),
    {
        self.frames.pad_len(self.padding)
    }

    /// Ends the stream in place; the result is the seek index.
    fn finish_in_place_impl(&mut self, embed: bool) -> (i: Index)
        requires
            writable(old(self)@),
            closable(old(self)@),
        ensures
            writable(final(self)@),
            final(self)@ == finished(old(self)@, embed),
            i.entries@ == closed(old(self)@).frames.entries,
            i.total == closed(old(self)@).frames.uncomp,
    {
        self.end_blocks();
        let n: usize = self.pad_len();
        let i = self.frames.write_stream_end(embed, self.padding, &self.fill);
        let mut rest: Vec<u8> = Vec::new();
        if n < self.fill.len() {
            append(&mut rest, &self.fill[n..self.fill.len()]);
            assert(rest@ =~= self.fill@.skip(n as int));
        }
        self.fill = rest;
        i
    }

    /// Ends the stream, with its index, and gives back the buffer.
    pub fn finish(self) -> (r: Result<Vec<u8>, StreamError>)
        requires
            writable(self@),
            closable(self@),
        ensures
            r matches Ok(out) && out@ == finished(self@, true).frames.out,
    {
        let mut w = self;
        w.finish_in_place_impl(true);
        Ok(w.frames.into_output())
    }

    /// Ends the stream without its index, and gives back the buffer and the index.
    pub fn finish_index(self) -> (r: Result<(Vec<u8>, Index), StreamError>)
        requires
            writable(self@),
            closable(self@),
        ensures
            r matches Ok((out, i)) && out@ == finished(self@, false).frames.out && i.entries@
                == closed(self@).frames.entries && i.total == closed(self@).frames.uncomp,
    {
        let mut w = self;
        let i = w.finish_in_place_impl(false);
        Ok((w.frames.into_output(), i))
    }

    /// Ends the stream, with its index, and keeps the writer for [`Writer::reset`].
    pub fn finish_in_place(&mut self) -> (r: Result<(), StreamError>)
        requires
            writable(old(self)@),
            closable(old(self)@),
        ensures
            writable(final(self)@),
            final(self)@ == finished(old(self)@, true),
            r == Ok::<(), StreamError>(()),
    {
        self.finish_in_place_impl(true);
        Ok(())
    }

    /// Ends the stream with padding filled from `fill`; the result is the index.
    pub fn end_stream(&mut self, fill: Vec<u8>, embed: bool) -> (i: Index)
        requires
            writable(old(self)@),
            closable(old(self)@),
        ensures
            writable(final(self)@),
            final(self)@ == finished(Writing { fill: fill@, ..old(self)@ }, embed),
            i.entries@ == closed(old(self)@).frames.entries,
            i.total == closed(old(self)@).frames.uncomp,
    {
        self.fill = fill;
        self.finish_in_place_impl(embed)
    }

    /// Starts a fresh stream behind `w` and gives back the buffer of the one before.
    pub fn reset(&mut self, w: Vec<u8>) -> (prev: Vec<u8>)
        ensures
            prev@ == old(self)@.frames.out,
            final(self)@ == (Writing {
                frames: frames::unstarted(w@),
                buf: seq![],
                ..old(self)@
            }),
            old(self)@.size > 0 ==> writable(final(self)@),
    {
        self.buf.clear();
        let mut f = Frames::new(w);
        std::mem::swap(&mut f, &mut self.frames);
        assert(self.buf@ =~= seq![]);
        f.into_output()
    }

    /// Takes what was put out so far; the stream goes on behind it.
    pub fn take_output(&mut self) -> (out: Vec<u8>)
        ensures
            out@ == old(self)@.frames.out,
            final(self)@ == (Writing {
                frames: frames::Progress { out: seq![], ..old(self)@.frames },
                ..old(self)@
            }),
    {
        self.frames.take_output()
    }
}

} // verus!
