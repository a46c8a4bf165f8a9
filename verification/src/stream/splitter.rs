//! Cutting content that comes in pieces into blocks.
use crate::bytes::append;
use crate::encoder::EntropyMode;
use crate::stream::frames;
use crate::stream::writer;
use crate::structural;
use vstd::prelude::*;

verus! {

/// The full blocks at the start of `all`, and what is left behind them.
pub open spec fn full_blocks(all: Seq<u8>, size: int) -> (Seq<Seq<u8>>, Seq<u8>)
    decreases all.len(),
{
    if size <= 0 || all.len() < size {
        (seq![], all)
    } else {
        let (b, rest) = full_blocks(all.skip(size), size);
        (seq![all.take(size)] + b, rest)
    }
}

/// The last block, if there is anything left for it.
pub open spec fn last_block(rest: Seq<u8>) -> Seq<Seq<u8>> {
    if rest.len() == 0 {
        seq![]
    } else {
        seq![rest]
    }
}

/// The full blocks of content, and what is left as the last one, are its blocks.
pub proof fn lemma_full_blocks(all: Seq<u8>, size: int)
    requires
        0 < size,
    ensures
        full_blocks(all, size).0 + last_block(full_blocks(all, size).1) == frames::blocks(all, size),
        full_blocks(all, size).1.len() < size,
    decreases all.len(),
{
    if all.len() < size {
        assert(full_blocks(all, size).0 + last_block(all) =~= frames::blocks(all, size));
    } else {
        let rest = all.skip(size);
        lemma_full_blocks(rest, size);
        if all.len() == size {
            assert(rest =~= seq![]);
            assert(all.take(size) =~= all);
        }
        assert(full_blocks(all, size).0 + last_block(full_blocks(all, size).1) =~= seq![
            all.take(size),
        ] + (full_blocks(rest, size).0 + last_block(full_blocks(rest, size).1)));
        assert(frames::blocks(all, size) =~= seq![all.take(size)] + frames::blocks(rest, size));
    }
}

/// Content that comes in two pieces is cut into the same blocks as in one.
pub proof fn lemma_pieces(all: Seq<u8>, more: Seq<u8>, size: int)
    requires
        0 < size,
    ensures
        ({
            let (b, rest) = full_blocks(all, size);
            let (c, left) = full_blocks(rest + more, size);
            full_blocks(all + more, size) == (b + c, left)
        }),
    decreases all.len(),
{
    let (b, rest) = full_blocks(all, size);
    let (c, left) = full_blocks(rest + more, size);
    if all.len() < size {
        assert(b + c =~= c);
    } else {
        let tail = all.skip(size);
        lemma_pieces(tail, more, size);
        assert((all + more).skip(size) =~= tail + more);
        assert((all + more).take(size) =~= all.take(size));
        let d = full_blocks(tail, size).0;
        assert(seq![all.take(size)] + (d + c) =~= seq![all.take(size)] + d + c);
    }
}

/// Framing the blocks of a splitter in order, header first, gives the stream that a
/// writer makes of the same content.
pub proof fn lemma_split_whole(
    mode: EntropyMode,
    size: int,
    data: Seq<u8>,
    embed: bool,
    padding: int,
    fill: Seq<u8>,
)
    requires
        0 < size,
    ensures
        ({
            let (bl, rest) = full_blocks(data, size);
            let s = frames::put_blocks(
                frames::begun(frames::unstarted(seq![])),
                mode,
                bl + last_block(rest),
            );
            s.out + frames::stream_end(s, embed, padding, fill) == frames::whole(
                mode,
                size,
                data,
                embed,
                padding,
                fill,
            )
        }),
{
    let bl = frames::blocks(data, size);
    lemma_full_blocks(data, size);
    frames::lemma_begun_blocks(seq![], mode, bl);
    frames::lemma_put_blocks(frames::begun(frames::unstarted(seq![])), mode, bl);
}

/// The full blocks that come of `pieces`, taken one after the other behind `buf`, and
/// what is left.
pub open spec fn pushed_all(buf: Seq<u8>, pieces: Seq<Seq<u8>>, size: int) -> (
    Seq<Seq<u8>>,
    Seq<u8>,
)
    decreases pieces.len(),
{
    if pieces.len() == 0 {
        (seq![], buf)
    } else {
        let (b, rest) = full_blocks(buf + pieces[0], size);
        let (c, left) = pushed_all(rest, pieces.skip(1), size);
        (b + c, left)
    }
}

/// However content is cut into pieces, the same blocks come out.
pub proof fn lemma_any_pieces(buf: Seq<u8>, pieces: Seq<Seq<u8>>, size: int)
    requires
        0 < size,
        buf.len() < size,
    ensures
        pushed_all(buf, pieces, size) == full_blocks(buf + frames::concat(pieces), size),
    decreases pieces.len(),
{
    if pieces.len() == 0 {
        assert(buf + frames::concat(pieces) =~= buf);
    } else {
        let more = frames::concat(pieces.skip(1));
        let all = buf + pieces[0];
        lemma_full_blocks(all, size);
        lemma_any_pieces(full_blocks(all, size).1, pieces.skip(1), size);
        lemma_pieces(all, more, size);
        assert(all + more =~= buf + frames::concat(pieces));
    }
}

/// Cutting content, given in any pieces, into blocks, and framing these in order,
/// header first, ends in the stream that a writer with the same settings finishes
/// with, given the same content in any other pieces.
pub proof fn lemma_concurrent(
    mode: EntropyMode,
    block_size: int,
    ours: Seq<Seq<u8>>,
    theirs: Seq<Seq<u8>>,
    embed: bool,
    padding: int,
    fill: Seq<u8>,
)
    requires
        frames::concat(ours) == frames::concat(theirs),
    ensures
        ({
            let w = writer::Writing { padding, fill, ..writer::idle(seq![], mode, block_size) };
            let (bl, rest) = pushed_all(seq![], ours, w.size);
            let s = frames::put_blocks(
                frames::begun(frames::unstarted(seq![])),
                mode,
                bl + last_block(rest),
            );
            s.out + frames::stream_end(s, embed, padding, fill) == writer::finished(
                writer::wrote_all(w, theirs),
                embed,
            ).frames.out
        }),
{
    let size = writer::idle(seq![], mode, block_size).size;
    let data = frames::concat(ours);
    lemma_any_pieces(seq![], ours, size);
    assert(seq![] + data =~= data);
    lemma_split_whole(mode, size, data, embed, padding, fill);
    writer::lemma_pieces_whole(mode, block_size, padding, fill, theirs, embed);
}

/// Gathers content into blocks of one size.
pub struct Splitter {
    buf: Vec<u8>,
    size: usize,
}

impl View for Splitter {
    type V = Seq<u8>;

    /// The content of the block that is not full yet.
    closed spec fn view(&self) -> Seq<u8> {
        self.buf@
    }
}

impl Splitter {
    /// Size of the blocks.
    pub closed spec fn block_size(self) -> int {
        self.size as int
    }

    /// The pending block is not full.
    pub open spec fn wf(self) -> bool {
        self@.len() < self.block_size()
    }

    /// A splitter into blocks of `block_size` bytes, one at least.
    pub fn new(block_size: usize) -> (s: Splitter)
        ensures
            s.wf(),
            s@ == Seq::<u8>::empty(),
            s.block_size() == if block_size < 1 {
                1int
            } else {
                block_size as int
            },
    {
        let size: usize = if block_size < 1 {
            1
        } else {
            block_size
        };
        Splitter { buf: Vec::new(), size }
    }

    /// Number of bytes in the pending block.
    pub fn pending(&self) -> (n: usize)
        ensures
            n == self@.len(),
    {
        self.buf.len()
    }

    /// Takes `data`, and gives out the blocks that are full now.
    pub fn push(&mut self, data: &[u8]) -> (r: Vec<Vec<u8>>)
        requires
            old(self).wf(),
        ensures
            final(self).wf(),
            final(self).block_size() == old(self).block_size(),
            (structural::contents(r@), final(self)@) == full_blocks(
                old(self)@ + data@,
                old(self).block_size(),
            ),
    {
        let ghost size = self.size as int;
        let ghost all = self.buf@ + data@;
        let n: usize = data.len();
        let mut at: usize = 0;
        let mut r: Vec<Vec<u8>> = Vec::new();
        assert(data@.skip(0) =~= data@);
        assert(structural::contents(r@) + full_blocks(all, size).0 =~= full_blocks(all, size).0);
        while at < n
            invariant
                n == data@.len(),
                at <= n,
                size == self.size,
                self.buf@.len() < size,
                ({
                    let (b, rest) = full_blocks(self.buf@ + data@.skip(at as int), size);
                    full_blocks(all, size) == (structural::contents(r@) + b, rest)
                }),
            decreases n - at,
        {
            let room: usize = self.size - self.buf.len();
            let take: usize = if room < n - at {
                room
            } else {
                n - at
            };
            let ghost cur = self.buf@ + data@.skip(at as int);
            append(&mut self.buf, &data[at..at + take]);
            at = at + take;
            let ghost buf = self.buf@;
            let ghost tail = data@.skip(at as int);
            assert(buf + tail =~= cur);
            if self.buf.len() >= self.size {
                let ghost before = structural::contents(r@);
                assert(cur.take(size) =~= buf);
                assert(cur.skip(size) =~= tail);
                let mut b: Vec<u8> = Vec::new();
                append(&mut b, &self.buf);
                self.buf.clear();
                r.push(b);
                proof {
                    assert(structural::contents(r@) =~= before.push(buf));
                    assert(self.buf@ + tail =~= tail);
                    let c = full_blocks(tail, size).0;
                    assert(before + (seq![buf] + c) =~= structural::contents(r@) + c);
                }
            }
        }
        assert(self.buf@ + data@.skip(n as int) =~= self.buf@);
        assert(structural::contents(r@) + Seq::<Seq<u8>>::empty() =~= structural::contents(r@));
        r
    }

    /// Takes the pending block out, if there is anything in it.
    pub fn finish(&mut self) -> (r: Option<Vec<u8>>)
        requires
            old(self).wf(),
        ensures
            final(self).wf(),
            final(self).block_size() == old(self).block_size(),
            final(self)@ == Seq::<u8>::empty(),
            match r {
                None => last_block(old(self)@) == Seq::<Seq<u8>>::empty(),
                Some(b) => last_block(old(self)@) == seq![b@],
            },
    {
        if self.buf.len() == 0 {
            assert(self.buf@ =~= Seq::<u8>::empty());
            return None;
        }
        let mut b: Vec<u8> = Vec::new();
        append(&mut b, &self.buf);
        self.buf.clear();
        Some(b)
    }
}

} // verus!
