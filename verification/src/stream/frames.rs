//! The frames of a stream in the making, and the end of a stream.
use crate::bytes;
use crate::bytes::{append, push_u32};
use crate::encoder;
use crate::encoder::EntropyMode;
use crate::stream;
use crate::stream::index;
use crate::stream::index::{serialize_index_trailer, Index};
use crate::stream::push_header;
use vstd::prelude::*;

verus! {

// ---------------------------------------------------------------------------
// Blocks and frames
// ---------------------------------------------------------------------------
/// `data` in pieces of `size` bytes, the last one being what is left.
pub open spec fn blocks(data: Seq<u8>, size: int) -> Seq<Seq<u8>>
    decreases data.len(),
{
    if data.len() == 0 {
        seq![]
    } else if data.len() <= size || size <= 0 {
        seq![data]
    } else {
        seq![data.take(size)] + blocks(data.skip(size), size)
    }
}

/// The frame of the block `b`: its size, then its compressed form.
pub open spec fn frame(mode: EntropyMode, b: Seq<u8>) -> Seq<u8> {
    let c = encoder::compressed(mode, b);
    bytes::le32(c.len() as int) + c
}

/// The frames of the blocks `bl`.
pub open spec fn frames(mode: EntropyMode, bl: Seq<Seq<u8>>) -> Seq<u8>
    decreases bl.len(),
{
    if bl.len() == 0 {
        seq![]
    } else {
        frame(mode, bl[0]) + frames(mode, bl.skip(1))
    }
}

/// A stream in the making: what was put out, the seek index so far, the positions
/// reached in the stream and in the content, and whether the header is out.
pub struct Progress {
    pub out: Seq<u8>,
    pub entries: Seq<(u64, u64)>,
    pub comp: int,
    pub uncomp: int,
    pub started: bool,
}

/// Nothing of a stream yet, behind `out`.
pub open spec fn unstarted(out: Seq<u8>) -> Progress {
    Progress { out, entries: seq![], comp: 0, uncomp: 0, started: false }
}

/// The header is out.
pub open spec fn begun(s: Progress) -> Progress {
    if s.started {
        s
    } else {
        Progress { out: s.out + stream::header(), comp: s.comp + 5, started: true, ..s }
    }
}

/// A frame with the block `packed` of `n` content bytes is out.
pub open spec fn put_packed(s: Progress, packed: Seq<u8>, n: int) -> Progress {
    let b = begun(s);
    Progress {
        out: b.out + bytes::le32(packed.len() as int) + packed,
        entries: b.entries.push((b.comp as u64, b.uncomp as u64)),
        comp: b.comp + 4 + packed.len(),
        uncomp: b.uncomp + n,
        started: true,
    }
}

/// The frame of the block `b` is out.
pub open spec fn put_block(s: Progress, mode: EntropyMode, b: Seq<u8>) -> Progress {
    put_packed(s, encoder::compressed(mode, b), b.len() as int)
}

/// The frames of the blocks `bl` are out.
pub open spec fn put_blocks(s: Progress, mode: EntropyMode, bl: Seq<Seq<u8>>) -> Progress
    decreases bl.len(),
{
    if bl.len() == 0 {
        s
    } else {
        put_blocks(put_block(s, mode, bl[0]), mode, bl.skip(1))
    }
}

/// The positions fit in 64 bits.
pub open spec fn positions_fit(s: Progress) -> bool {
    s.comp <= u64::MAX && s.uncomp <= u64::MAX
}

// ---------------------------------------------------------------------------
// The end of a stream
// ---------------------------------------------------------------------------
/// Number of bytes that take `pos` to the next multiple of `padding`.
pub open spec fn pad_len(pos: int, padding: int) -> int {
    if padding <= 1 {
        0
    } else {
        (padding - pos % padding) % padding
    }
}

/// `n` bytes: those of `fill`, then zeros.
pub open spec fn pad_bytes(fill: Seq<u8>, n: int) -> Seq<u8> {
    Seq::new(
        n as nat,
        |i: int|
            if i < fill.len() {
                fill[i]
            } else {
                0u8
            },
    )
}

/// What follows the frames: the end marker, padding to a multiple of `padding`,
/// and the seek index if `embed`.
pub open spec fn stream_end(s: Progress, embed: bool, padding: int, fill: Seq<u8>) -> Seq<u8> {
    bytes::le32(0) + pad_bytes(fill, pad_len(s.comp + 4, padding)) + if embed {
        index::trailer(s.entries, s.uncomp as u64)
    } else {
        seq![]
    }
}

/// A whole stream with the content `data` in blocks of `size` bytes.
pub open spec fn whole(
    mode: EntropyMode,
    size: int,
    data: Seq<u8>,
    embed: bool,
    padding: int,
    fill: Seq<u8>,
) -> Seq<u8> {
    let s = begun(put_blocks(unstarted(seq![]), mode, blocks(data, size)));
    s.out + stream_end(s, embed, padding, fill)
}

// ---------------------------------------------------------------------------
// Properties
// ---------------------------------------------------------------------------
/// Total length of the blocks `bl`.
pub open spec fn total_len(bl: Seq<Seq<u8>>) -> int
    decreases bl.len(),
{
    if bl.len() == 0 {
        0
    } else {
        bl[0].len() + total_len(bl.skip(1))
    }
}

/// The blocks one after the other.
pub open spec fn concat(bl: Seq<Seq<u8>>) -> Seq<u8>
    decreases bl.len(),
{
    if bl.len() == 0 {
        seq![]
    } else {
        bl[0] + concat(bl.skip(1))
    }
}

/// The seek index of the blocks `bl` whose frames start at `comp`, and whose
/// content starts at `uncomp`.
pub open spec fn entries_of(mode: EntropyMode, comp: int, uncomp: int, bl: Seq<Seq<u8>>) -> Seq<
    (u64, u64),
>
    decreases bl.len(),
{
    if bl.len() == 0 {
        seq![]
    } else {
        seq![(comp as u64, uncomp as u64)] + entries_of(
            mode,
            comp + frame(mode, bl[0]).len(),
            uncomp + bl[0].len(),
            bl.skip(1),
        )
    }
}

/// The pieces of a sequence make up the sequence; each is filled, and only the
/// last one may be short.
pub proof fn lemma_blocks(data: Seq<u8>, size: int)
    requires
        0 < size,
    ensures
        concat(blocks(data, size)) == data,
        total_len(blocks(data, size)) == data.len(),
        forall|i: int|
            0 <= i < blocks(data, size).len() ==> 0 < (#[trigger] blocks(data, size)[i]).len()
                <= size,
        forall|i: int|
            0 <= i < blocks(data, size).len() - 1 ==> (#[trigger] blocks(data, size)[i]).len()
                == size,
    decreases data.len(),
{
    let bl = blocks(data, size);
    if data.len() == 0 {
        assert(data =~= seq![]);
    } else if data.len() <= size {
        assert(bl.skip(1) =~= seq![]);
        assert(concat(bl.skip(1)) =~= seq![]);
        assert(total_len(bl.skip(1)) == 0);
        assert(data + concat(bl.skip(1)) =~= data);
    } else {
        let rest = blocks(data.skip(size), size);
        lemma_blocks(data.skip(size), size);
        assert(bl.skip(1) =~= rest);
        assert(data.take(size) + data.skip(size) =~= data);
        assert forall|i: int| 0 <= i < bl.len() implies 0 < (#[trigger] bl[i]).len() <= size by {
            if i > 0 {
                assert(bl[i] == rest[i - 1]);
            }
        }
        assert forall|i: int| 0 <= i < bl.len() - 1 implies (#[trigger] bl[i]).len() == size by {
            if i > 0 {
                assert(bl[i] == rest[i - 1]);
            }
        }
    }
}

/// Block `i` is what the data holds between two multiples of the block size, and the
/// number of blocks is the length over the block size, rounded up.
pub proof fn lemma_block_borders(data: Seq<u8>, size: int, i: int)
    requires
        0 < size,
        0 <= i < blocks(data, size).len(),
    ensures
        0 <= i * size < data.len(),
        blocks(data, size)[i] == data.subrange(
            i * size,
            if (i + 1) * size < data.len() {
                (i + 1) * size
            } else {
                data.len() as int
            },
        ),
        total_len(blocks(data, size).take(i)) == i * size,
    decreases data.len(),
{
    let bl = blocks(data, size);
    assert((i + 1) * size == i * size + size) by (nonlinear_arith);
    if i == 0 {
        assert(bl.take(0) =~= seq![]);
        if data.len() > size {
            assert(data.take(size) =~= data.subrange(0, size));
        } else {
            assert(data =~= data.subrange(0, data.len() as int));
        }
    } else {
        let rest = data.skip(size);
        let more = blocks(rest, size);
        lemma_block_borders(rest, size, i - 1);
        assert((i - 1) * size == i * size - size) by (nonlinear_arith);
        assert((i - 1 + 1) * size == i * size);
        assert(bl[i] == more[i - 1]);
        assert(bl.take(i).skip(1) =~= more.take(i - 1));
        let end = if (i + 1) * size < data.len() {
            (i + 1) * size
        } else {
            data.len() as int
        };
        assert(rest.subrange(i * size - size, end - size) =~= data.subrange(i * size, end));
    }
}

/// The number of blocks is the length over the block size, rounded up.
pub proof fn lemma_block_count(data: Seq<u8>, size: int)
    requires
        0 < size,
    ensures
        blocks(data, size).len() == (data.len() + size - 1) / size,
    decreases data.len(),
{
    let n = data.len() as int;
    if n == 0 {
        vstd::arithmetic::div_mod::lemma_fundamental_div_mod_converse(size - 1, size, 0, size - 1);
    } else if n <= size {
        vstd::arithmetic::div_mod::lemma_fundamental_div_mod_converse(n + size - 1, size, 1, n - 1);
    } else {
        lemma_block_count(data.skip(size), size);
        let x = n - 1;
        vstd::arithmetic::div_mod::lemma_div_plus_one(x, size);
        assert(n - size + size - 1 == x && n + size - 1 == size + x);
    }
}

/// Frames are put out one after the other, and the index says where.
pub proof fn lemma_put_blocks(s: Progress, mode: EntropyMode, bl: Seq<Seq<u8>>)
    requires
        s.started,
    ensures
        put_blocks(s, mode, bl) == (Progress {
            out: s.out + frames(mode, bl),
            entries: s.entries + entries_of(mode, s.comp, s.uncomp, bl),
            comp: s.comp + frames(mode, bl).len(),
            uncomp: s.uncomp + total_len(bl),
            started: true,
        }),
    decreases bl.len(),
{
    if bl.len() == 0 {
        assert(s.out + frames(mode, bl) =~= s.out);
        assert(s.entries + entries_of(mode, s.comp, s.uncomp, bl) =~= s.entries);
    } else {
        let s1 = put_block(s, mode, bl[0]);
        lemma_put_blocks(s1, mode, bl.skip(1));
        assert(s1.out =~= s.out + frame(mode, bl[0]));
        assert(s1.out + frames(mode, bl.skip(1)) =~= s.out + frames(mode, bl));
        assert(s1.entries + entries_of(mode, s1.comp, s1.uncomp, bl.skip(1)) =~= s.entries
            + entries_of(mode, s.comp, s.uncomp, bl));
    }
}

/// Where the frames of blocks start, and where their content does.
pub proof fn lemma_entries(mode: EntropyMode, comp: int, uncomp: int, bl: Seq<Seq<u8>>, i: int)
    requires
        0 <= i < bl.len(),
    ensures
        entries_of(mode, comp, uncomp, bl).len() == bl.len(),
        entries_of(mode, comp, uncomp, bl)[i] == (
            (comp + frames(mode, bl.take(i)).len()) as u64,
            (uncomp + total_len(bl.take(i))) as u64,
        ),
    decreases bl.len(),
{
    let rest = bl.skip(1);
    let c = comp + frame(mode, bl[0]).len();
    let u = uncomp + bl[0].len();
    lemma_entries_len(mode, c, u, rest);
    if i > 0 {
        lemma_entries(mode, c, u, rest, i - 1);
        let t = bl.take(i);
        assert(t.skip(1) =~= rest.take(i - 1));
        assert(entries_of(mode, comp, uncomp, bl)[i] == entries_of(mode, c, u, rest)[i - 1]);
    }
}

/// There is an entry for each block.
pub proof fn lemma_entries_len(mode: EntropyMode, comp: int, uncomp: int, bl: Seq<Seq<u8>>)
    ensures
        entries_of(mode, comp, uncomp, bl).len() == bl.len(),
    decreases bl.len(),
{
    if bl.len() > 0 {
        lemma_entries_len(
            mode,
            comp + frame(mode, bl[0]).len(),
            uncomp + bl[0].len(),
            bl.skip(1),
        );
    }
}

/// The frame of a block among the frames of all blocks.
pub proof fn lemma_frames_split(mode: EntropyMode, bl: Seq<Seq<u8>>, i: int)
    requires
        0 <= i < bl.len(),
    ensures
        frames(mode, bl) == frames(mode, bl.take(i)) + (frame(mode, bl[i]) + frames(
            mode,
            bl.skip(i + 1),
        )),
    decreases bl.len(),
{
    if i == 0 {
        assert(bl.take(0) =~= seq![]);
        assert(frames(mode, bl) =~= frames(mode, bl.take(0)) + frames(mode, bl));
    } else {
        let rest = bl.skip(1);
        lemma_frames_split(mode, rest, i - 1);
        assert(bl.take(i).skip(1) =~= rest.take(i - 1));
        assert(rest.skip(i) =~= bl.skip(i + 1));
        let x = frame(mode, bl[0]);
        let y = frames(mode, rest.take(i - 1));
        let z = frame(mode, bl[i]) + frames(mode, bl.skip(i + 1));
        assert(x + (y + z) =~= (x + y) + z);
    }
}

/// The content of blocks up to one of them, and from it on.
pub proof fn lemma_concat_split(bl: Seq<Seq<u8>>, i: int)
    requires
        0 <= i <= bl.len(),
    ensures
        concat(bl) == concat(bl.take(i)) + concat(bl.skip(i)),
        concat(bl.take(i)).len() == total_len(bl.take(i)),
        total_len(bl) == total_len(bl.take(i)) + total_len(bl.skip(i)),
        concat(bl).len() == total_len(bl),
    decreases bl.len(),
{
    if bl.len() > 0 {
        lemma_concat_split(bl.skip(1), 0);
    }
    if i == 0 {
        assert(bl.take(0) =~= seq![]);
        assert(bl.skip(0) =~= bl);
        assert(concat(bl) =~= concat(bl.take(0)) + concat(bl));
    } else {
        let rest = bl.skip(1);
        lemma_concat_split(rest, i - 1);
        assert(bl.take(i).skip(1) =~= rest.take(i - 1));
        assert(rest.skip(i - 1) =~= bl.skip(i));
        let x = bl[0];
        let y = concat(rest.take(i - 1));
        let z = concat(bl.skip(i));
        assert(x + (y + z) =~= (x + y) + z);
    }
}

/// A stream with all its blocks, in one piece.
pub proof fn lemma_begun_blocks(out: Seq<u8>, mode: EntropyMode, bl: Seq<Seq<u8>>)
    ensures
        begun(put_blocks(unstarted(out), mode, bl)) == (Progress {
            out: out + stream::header() + frames(mode, bl),
            entries: entries_of(mode, 5, 0, bl),
            comp: 5 + frames(mode, bl).len() as int,
            uncomp: total_len(bl),
            started: true,
        }),
{
    let s = unstarted(out);
    let b = begun(s);
    lemma_put_blocks(b, mode, bl);
    if bl.len() == 0 {
        assert(b.out + frames(mode, bl) =~= b.out);
        assert(b.entries + entries_of(mode, 5, 0, bl) =~= entries_of(mode, 5, 0, bl));
    } else {
        assert(put_block(s, mode, bl[0]) == put_block(b, mode, bl[0]));
        assert(b.entries + entries_of(mode, 5, 0, bl) =~= entries_of(mode, 5, 0, bl));
    }
}

/// What padding and the index add to a stream: behind the end marker as few bytes as take
/// it to a multiple of the padding, those of the fill first and zeros after them; then the
/// index, its size in four bytes, and four letters.
pub proof fn lemma_whole_layout(
    mode: EntropyMode,
    size: int,
    data: Seq<u8>,
    padding: int,
    fill: Seq<u8>,
)
    requires
        0 < size,
        0 <= padding,
        data.len() <= u64::MAX,
    ensures
        ({
            let bl = blocks(data, size);
            let plain = stream::header() + frames(mode, bl) + bytes::le32(0);
            let padded = whole(mode, size, data, false, padding, fill);
            let b = index::index_bytes(entries_of(mode, 5, 0, bl), data.len() as u64);
            &&& plain.len() <= padded.len()
            &&& padded.take(plain.len() as int) == plain
            &&& padding <= 1 ==> padded == plain
            &&& padding > 1 ==> padded.len() < plain.len() + padding && padded.len() as int % padding
                == 0
            &&& forall|i: int|
                plain.len() <= i < padded.len() ==> #[trigger] padded[i] == if i - plain.len()
                    < fill.len() {
                    fill[i - plain.len()]
                } else {
                    0u8
                }
            &&& whole(mode, size, data, true, padding, fill) == padded + b + bytes::le32(
                b.len() as int % 0x1_0000_0000,
            ) + seq![0x49u8, 0x47, 0x5a, 0x58]
        }),
{
    let bl = blocks(data, size);
    let plain = stream::header() + frames(mode, bl) + bytes::le32(0);
    let padded = whole(mode, size, data, false, padding, fill);
    lemma_blocks(data, size);
    lemma_begun_blocks(seq![], mode, bl);
    let s = begun(put_blocks(unstarted(seq![]), mode, bl));
    let n = pad_len(s.comp + 4, padding);
    let pad = pad_bytes(fill, n);
    lemma_padding(s.comp + 4, padding);
    assert(s.out =~= stream::header() + frames(mode, bl));
    assert(plain.len() == s.comp + 4);
    assert(padded =~= plain + pad);
    assert(padded.take(plain.len() as int) =~= plain);
    let b = index::index_bytes(entries_of(mode, 5, 0, bl), data.len() as u64);
    let l = bytes::le32(b.len() as int % 0x1_0000_0000);
    let m = stream::index_magic();
    assert(m =~= seq![0x49u8, 0x47, 0x5a, 0x58]);
    assert(whole(mode, size, data, true, padding, fill) =~= plain + pad + b + l + m);
}

/// Padding takes the stream to a multiple of the padding, whatever it holds.
pub proof fn lemma_padding(pos: int, padding: int)
    requires
        0 <= pos,
        0 <= padding,
    ensures
        0 <= pad_len(pos, padding),
        padding > 1 ==> pad_len(pos, padding) < padding && (pos + pad_len(pos, padding)) % padding
            == 0,
{
    if padding > 1 {
        let r = pos % padding;
        vstd::arithmetic::div_mod::lemma_fundamental_div_mod(pos, padding);
        vstd::arithmetic::div_mod::lemma_mod_bound(pos, padding);
        if r == 0 {
            vstd::arithmetic::div_mod::lemma_mod_self_0(padding);
            assert(pad_len(pos, padding) == 0);
        } else {
            vstd::arithmetic::div_mod::lemma_small_mod((padding - r) as nat, padding as nat);
            let q = pos / padding;
            assert(pos + (padding - r) == padding * (q + 1)) by (nonlinear_arith)
                requires
                    pos == padding * q + r,
            ;
            vstd::arithmetic::div_mod::lemma_mod_multiples_basic(q + 1, padding);
            assert((q + 1) * padding == padding * (q + 1)) by (nonlinear_arith);
        }
    }
}

// ---------------------------------------------------------------------------
// Executable form
// ---------------------------------------------------------------------------
/// The frames of a stream in the making.
pub struct Frames {
    out: Vec<u8>,
    entries: Vec<(u64, u64)>,
    comp_pos: u64,
    uncomp_pos: u64,
    started: bool,
}

impl View for Frames {
    type V = Progress;

    closed spec fn view(&self) -> Progress {
        Progress {
            out: self.out@,
            entries: self.entries@,
            comp: self.comp_pos as int,
            uncomp: self.uncomp_pos as int,
            started: self.started,
        }
    }
}

impl Frames {
    /// A stream that will be appended to `out`.
    pub fn new(out: Vec<u8>) -> (f: Frames)
        ensures
            f@ == unstarted(out@),
    {
        Frames { out, entries: Vec::new(), comp_pos: 0, uncomp_pos: 0, started: false }
    }

    /// Puts out the header unless it is out.
    pub fn write_header(&mut self)
        requires
            positions_fit(begun(old(self)@)),
        ensures
            final(self)@ == begun(old(self)@),
    {
        if !self.started {
            push_header(&mut self.out);
            self.comp_pos = self.comp_pos + 5;
            self.started = true;
        }
    }

    /// Puts out a frame with the block `packed` of `n` content bytes.
    pub fn put_frame(&mut self, packed: &[u8], n: usize)
        requires
            packed@.len() <= u32::MAX,
            positions_fit(put_packed(old(self)@, packed@, n as int)),
        ensures
            final(self)@ == put_packed(old(self)@, packed@, n as int),
    {
        self.write_header();
        self.entries.push((self.comp_pos, self.uncomp_pos));
        push_u32(&mut self.out, packed.len() as u32);
        append(&mut self.out, packed);
        self.comp_pos = self.comp_pos + 4 + packed.len() as u64;
        self.uncomp_pos = self.uncomp_pos + n as u64;
    }

    /// Number of padding bytes behind the end marker.
    pub fn pad_len(&self, padding: usize) -> (n: usize)
        requires
            self@.comp + 4 <= u64::MAX,
        ensures
            n == pad_len(self@.comp + 4, padding as int),
            padding <= 1 ==> n == 0,
            padding > 1 ==> n < padding,
    {
        if padding <= 1 {
            return 0;
        }
        let p: u64 = padding as u64;
        proof {
            lemma_padding(self@.comp + 4, padding as int);
            vstd::arithmetic::div_mod::lemma_mod_bound(self@.comp + 4, padding as int);
        }
        let r: u64 = (self.comp_pos + 4) % p;
        ((p - r) % p) as usize
    }

    /// Puts out the end of the stream, padding being filled with `fill` and zeros
    /// behind it. The result is the seek index.
    pub fn write_stream_end(&mut self, embed: bool, padding: usize, fill: &[u8]) -> (i: Index)
        requires
            old(self)@.comp + 4 <= u64::MAX,
        ensures
            final(self)@ == (Progress {
                out: old(self)@.out + stream_end(old(self)@, embed, padding as int, fill@),
                entries: seq![],
                ..old(self)@
            }),
            i.entries@ == old(self)@.entries,
            i.total == old(self)@.uncomp,
    {
        let ghost s = self@;
        let n: usize = self.pad_len(padding);
        push_u32(&mut self.out, 0);
        let ghost head = self.out@;
        let mut k: usize = 0;
        while k < n
            invariant
                k <= n,
                n == pad_len(s.comp + 4, padding as int),
                self.entries@ == s.entries,
                self.comp_pos == s.comp,
                self.uncomp_pos == s.uncomp,
                self.started == s.started,
                self.out@ =~= head + pad_bytes(fill@, k as int),
            decreases n - k,
        {
            let b: u8 = if k < fill.len() {
                fill[k]
            } else {
                0
            };
            self.out.push(b);
            k = k + 1;
        }
        let mut entries: Vec<(u64, u64)> = Vec::new();
        std::mem::swap(&mut entries, &mut self.entries);
        let i = Index { entries, total: self.uncomp_pos };
        if embed {
            append(&mut self.out, &serialize_index_trailer(&i));
        }
        assert(self.out@ =~= s.out + stream_end(s, embed, padding as int, fill@));
        i
    }

    /// Takes what was put out so far; the stream goes on behind it.
    pub fn take_output(&mut self) -> (out: Vec<u8>)
        ensures
            out@ == old(self)@.out,
            final(self)@ == (Progress { out: seq![], ..old(self)@ }),
    {
        let mut out: Vec<u8> = Vec::new();
        std::mem::swap(&mut out, &mut self.out);
        out
    }

    /// What was put out.
    pub fn into_output(self) -> (out: Vec<u8>)
        ensures
            out@ == self@.out,
    {
        self.out
    }
}

} // verus!
