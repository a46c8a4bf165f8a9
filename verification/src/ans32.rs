//! The interleaved byte coder: 32 rANS states, symbol `i` on lane `i % 32`.
//!
//! Lanes 0 to 15 put their words into a forward buffer, which is stored back to
//! front after the states of those lanes; lanes 16 to 31 put theirs into a
//! reverse buffer, which is followed by the states of those lanes.
use crate::ans1;
use crate::bytes;
use crate::bytes::{get_u16, get_u32, push_u16, push_u32};
use crate::error::Error;
use crate::model;
use crate::rans;
use crate::rans::{take, Stats};
use crate::table;
use crate::table::{ans_decode_table, encode_marked_table};
use vstd::prelude::*;

verus! {

// ---------------------------------------------------------------------------
// Encoding
// ---------------------------------------------------------------------------
/// States and words after lane `l` has put its symbol of `chunk`, if it has one.
pub open spec fn put_lane(
    f: Seq<u32>,
    st: Seq<u32>,
    w: Seq<u16>,
    chunk: Seq<u8>,
    l: int,
) -> (Seq<u32>, Seq<u16>) {
    if l < chunk.len() {
        let s = chunk[l] as int;
        let x = st[l] as int;
        (
            st.update(l, rans::put(x, f[s] as int, model::sum(f, s)) as u32),
            w + rans::words_of(x, f[s] as int),
        )
    } else {
        (st, w)
    }
}

/// States and words after the lanes `lo..hi` have put their symbols of `chunk`,
/// the last lane first.
pub open spec fn put_lanes(
    f: Seq<u32>,
    st: Seq<u32>,
    w: Seq<u16>,
    chunk: Seq<u8>,
    lo: int,
    hi: int,
) -> (Seq<u32>, Seq<u16>)
    decreases hi - lo,
{
    if hi <= lo {
        (st, w)
    } else {
        let (st1, w1) = put_lanes(f, st, w, chunk, lo + 1, hi);
        put_lane(f, st1, w1, chunk, lo)
    }
}

/// The states of all lanes and the two word buffers.
pub struct Lanes {
    pub st: Seq<u32>,
    pub fwd: Seq<u16>,
    pub rev: Seq<u16>,
}

/// The lanes after a chunk of at most 32 symbols has been put.
pub open spec fn put_chunk(f: Seq<u32>, e: Lanes, chunk: Seq<u8>) -> Lanes {
    let (st1, fwd) = put_lanes(f, e.st, e.fwd, chunk, 0, 16);
    let (st2, rev) = put_lanes(f, st1, e.rev, chunk, 16, 32);
    Lanes { st: st2, fwd, rev }
}

/// The lanes before any symbol.
pub open spec fn fresh() -> Lanes {
    Lanes { st: Seq::new(32, |i: int| 65536u32), fwd: seq![], rev: seq![] }
}

/// Length of the first chunk: one symbol for each lane, or what is left.
pub open spec fn chunk_len(src: Seq<u8>) -> int {
    if src.len() < 32 {
        src.len() as int
    } else {
        32
    }
}

/// The lanes after `src` has been put, last chunk first.
pub open spec fn encoded(f: Seq<u32>, src: Seq<u8>) -> Lanes
    decreases src.len(),
{
    if src.len() == 0 {
        fresh()
    } else {
        let n = chunk_len(src);
        put_chunk(f, encoded(f, src.skip(n)), src.take(n))
    }
}

/// The states of the lanes `lo..hi` as bytes.
pub open spec fn state_bytes(st: Seq<u32>, lo: int, hi: int) -> Seq<u8>
    decreases hi - lo,
{
    if hi <= lo {
        seq![]
    } else {
        state_bytes(st, lo, hi - 1) + bytes::le32(st[hi - 1] as int)
    }
}

/// States and words of `src` under the frequencies `f`.
pub open spec fn stream_of(f: Seq<u32>, src: Seq<u8>) -> Seq<u8> {
    let e = encoded(f, src);
    state_bytes(e.st, 0, 16) + ans1::word_bytes(e.fwd.reverse()) + ans1::word_bytes(e.rev)
        + state_bytes(e.st, 16, 32)
}

/// The coded form of `src`: stream, table, marker.
pub open spec fn coded(src: Seq<u8>) -> Seq<u8> {
    let f = model::frequencies(model::counts(src, 256));
    stream_of(f, src) + table::table_bytes(f) + seq![0u8]
}

// ---------------------------------------------------------------------------
// Decoding
// ---------------------------------------------------------------------------
/// The symbols at the states of the first `n` lanes.
pub open spec fn row(tab: Seq<u32>, st: Seq<u32>, n: int) -> Seq<u8> {
    Seq::new(n as nat, |l: int| rans::entry_sym(tab[st[l] as int % 4096]))
}

/// The states after all lanes have given up their symbols.
pub open spec fn taken(tab: Seq<u32>, st: Seq<u32>) -> Seq<u32> {
    Seq::new(32, |l: int| rans::get(tab[st[l] as int % 4096], st[l] as int) as u32)
}

/// The states after the lanes `l..16` that are too low have read a word each of
/// `s`, forwards from `c`; also the cursor after that.
pub open spec fn refill_fwd(st: Seq<u32>, s: Seq<u8>, c: int, l: int) -> Option<(Seq<u32>, int)>
    decreases 16 - l,
{
    if l >= 16 {
        Some((st, c))
    } else if st[l] >= 65536 {
        refill_fwd(st, s, c, l + 1)
    } else if c + 2 > s.len() {
        None
    } else {
        refill_fwd(
            st.update(l, (st[l] * 65536 + bytes::u16_at(s, c)) as u32),
            s,
            c + 2,
            l + 1,
        )
    }
}

/// The states after the lanes `l..32` that are too low have read a word each of
/// `s`, backwards from `c`; also the cursor after that.
pub open spec fn refill_rev(st: Seq<u32>, s: Seq<u8>, c: int, l: int) -> Option<(Seq<u32>, int)>
    decreases 32 - l,
{
    if l >= 32 {
        Some((st, c))
    } else if st[l] >= 65536 {
        refill_rev(st, s, c, l + 1)
    } else if c < 2 {
        None
    } else {
        refill_rev(
            st.update(l, (st[l] * 65536 + bytes::u16_at(s, c - 2)) as u32),
            s,
            c - 2,
            l + 1,
        )
    }
}

/// The next `n` symbols from the states `st`; `None` if the words run out.
pub open spec fn symbols(
    tab: Seq<u32>,
    s: Seq<u8>,
    st: Seq<u32>,
    cf: int,
    cr: int,
    n: int,
) -> Option<Seq<u8>>
    decreases n,
{
    if n <= 0 {
        Some(seq![])
    } else if n < 32 {
        Some(row(tab, st, n))
    } else {
        match refill_fwd(taken(tab, st), s, cf, 0) {
            None => None,
            Some((st1, cf1)) => match refill_rev(st1, s, cr, 16) {
                None => None,
                Some((st2, cr1)) => match symbols(tab, s, st2, cf1, cr1, n - 32) {
                    None => None,
                    Some(r) => Some(row(tab, st, 32) + r),
                },
            },
        }
    }
}

/// The states stored at both ends of the stream `s`.
pub open spec fn stored_states(s: Seq<u8>) -> Seq<u32> {
    Seq::new(
        32,
        |l: int|
            if l < 16 {
                bytes::u32_at(s, 4 * l) as u32
            } else {
                bytes::u32_at(s, s.len() - 128 + 4 * l) as u32
            },
    )
}

/// What the coded block `src` holds, if it holds `n` symbols.
pub open spec fn decoded(src: Seq<u8>, n: int) -> Result<Seq<u8>, Error> {
    match table::split(src) {
        Err(e) => Err(e),
        Ok((f, s)) => if s.len() < 128 {
            Err(Error::WrongSourceSize)
        } else {
            match symbols(rans::dense(f), s, stored_states(s), 64, s.len() - 64, n) {
                None => Err(Error::OutOfInputData),
                Some(r) => Ok(r),
            }
        },
    }
}

// ---------------------------------------------------------------------------
// Decoding undoes encoding
// ---------------------------------------------------------------------------
/// All lanes hold states of the coder.
pub open spec fn all_states(st: Seq<u32>) -> bool {
    st.len() == 32 && forall|l: int| 0 <= l < 32 ==> rans::is_state(#[trigger] st[l] as int)
}

/// What lane `l` puts depends on its own state only.
proof fn lemma_put_lanes(
    f: Seq<u32>,
    st: Seq<u32>,
    w: Seq<u16>,
    chunk: Seq<u8>,
    lo: int,
    hi: int,
)
    requires
        ans1::codable(f, chunk),
        all_states(st),
        0 <= lo <= hi <= 32,
    ensures
        all_states(put_lanes(f, st, w, chunk, lo, hi).0),
        forall|l: int|
            0 <= l < 32 ==> #[trigger] put_lanes(f, st, w, chunk, lo, hi).0[l] == if lo <= l < hi
                && l < chunk.len() {
                rans::put(
                    st[l] as int,
                    f[chunk[l] as int] as int,
                    model::sum(f, chunk[l] as int),
                ) as u32
            } else {
                st[l]
            },
    decreases hi - lo,
{
    if lo < hi {
        lemma_put_lanes(f, st, w, chunk, lo + 1, hi);
        let (st1, w1) = put_lanes(f, st, w, chunk, lo + 1, hi);
        assert(st1[lo] == st[lo]);
        if lo < chunk.len() {
            assert(chunk[lo] < f.len());
            rans::lemma_put_get(f, chunk[lo] as int, st[lo] as int);
        }
    }
}

proof fn lemma_put_chunk(f: Seq<u32>, e: Lanes, chunk: Seq<u8>)
    requires
        ans1::codable(f, chunk),
        all_states(e.st),
        chunk.len() <= 32,
    ensures
        all_states(put_chunk(f, e, chunk).st),
        forall|l: int|
            0 <= l < 32 ==> #[trigger] put_chunk(f, e, chunk).st[l] == if l < chunk.len() {
                rans::put(
                    e.st[l] as int,
                    f[chunk[l] as int] as int,
                    model::sum(f, chunk[l] as int),
                ) as u32
            } else {
                e.st[l]
            },
{
    lemma_put_lanes(f, e.st, e.fwd, chunk, 0, 16);
    let st1 = put_lanes(f, e.st, e.fwd, chunk, 0, 16).0;
    lemma_put_lanes(f, st1, e.rev, chunk, 16, 32);
    assert forall|l: int| 0 <= l < 32 implies #[trigger] put_chunk(f, e, chunk).st[l] == if l
        < chunk.len() {
        rans::put(e.st[l] as int, f[chunk[l] as int] as int, model::sum(f, chunk[l] as int)) as u32
    } else {
        e.st[l]
    } by {
        assert(put_chunk(f, e, chunk).st[l] == put_lanes(f, st1, e.rev, chunk, 16, 32).0[l]);
        assert(st1[l] == put_lanes(f, e.st, e.fwd, chunk, 0, 16).0[l]);
    }
}

/// A part of what can be coded can be coded.
pub proof fn lemma_codable_part(f: Seq<u32>, src: Seq<u8>, a: int, b: int)
    requires
        ans1::codable(f, src),
        0 <= a <= b <= src.len(),
    ensures
        ans1::codable(f, src.subrange(a, b)),
{
    let t = src.subrange(a, b);
    assert forall|i: int| 0 <= i < t.len() implies t[i] < f.len() && f[t[i] as int] != 0 by {
        assert(t[i] == src[a + i]);
    }
}

proof fn lemma_encoded_states(f: Seq<u32>, src: Seq<u8>)
    requires
        ans1::codable(f, src),
    ensures
        all_states(encoded(f, src).st),
    decreases src.len(),
{
    if src.len() > 0 {
        let n = chunk_len(src);
        lemma_codable_part(f, src, n, src.len() as int);
        lemma_codable_part(f, src, 0, n);
        assert(src.skip(n) =~= src.subrange(n, src.len() as int));
        assert(src.take(n) =~= src.subrange(0, n));
        lemma_encoded_states(f, src.skip(n));
        lemma_put_chunk(f, encoded(f, src.skip(n)), src.take(n));
    }
}

/// The states of `a` on the lanes below `l`, of `b` on the others.
spec fn mixed(a: Seq<u32>, b: Seq<u32>, l: int) -> Seq<u32> {
    Seq::new(
        32,
        |i: int|
            if i < l {
                a[i]
            } else {
                b[i]
            },
    )
}

/// Taking a full chunk off leaves each lane with its earlier state, up to the
/// word that had left it.
proof fn lemma_taken(f: Seq<u32>, e: Lanes, chunk: Seq<u8>)
    requires
        ans1::codable(f, chunk),
        all_states(e.st),
        chunk.len() <= 32,
    ensures
        row(rans::dense(f), put_chunk(f, e, chunk).st, chunk.len() as int) == chunk,
        forall|l: int|
            0 <= l < chunk.len() ==> #[trigger] taken(rans::dense(f), put_chunk(f, e, chunk).st)[l]
                == rans::shifted(e.st[l] as int, f[chunk[l] as int] as int),
{
    let st = put_chunk(f, e, chunk).st;
    let tab = rans::dense(f);
    lemma_put_chunk(f, e, chunk);
    assert forall|l: int| 0 <= l < chunk.len() implies row(tab, st, chunk.len() as int)[l]
        == chunk[l] && #[trigger] taken(tab, st)[l] == rans::shifted(
        e.st[l] as int,
        f[chunk[l] as int] as int,
    ) by {
        assert(chunk[l] < f.len());
        assert(rans::is_state(e.st[l] as int));
        assert(rans::is_state(st[l] as int));
        rans::lemma_put_get(f, chunk[l] as int, e.st[l] as int);
    }
    assert forall|l: int| 0 <= l < chunk.len() implies row(tab, st, chunk.len() as int)[l]
        == chunk[l] by {
        let _ = taken(tab, st)[l];
    }
    assert(row(tab, st, chunk.len() as int) =~= chunk);
}

/// Words read forwards come back in the order in which they were put.
proof fn lemma_refill_fwd(
    f: Seq<u32>,
    e: Lanes,
    chunk: Seq<u8>,
    low: Seq<u32>,
    s: Seq<u8>,
    c: int,
    l: int,
)
    requires
        ans1::codable(f, chunk),
        chunk.len() == 32,
        all_states(e.st),
        low.len() == 32,
        forall|i: int|
            0 <= i < 32 ==> #[trigger] low[i] == rans::shifted(
                e.st[i] as int,
                f[chunk[i] as int] as int,
            ),
        0 <= l <= 16,
        bytes::holds_at(
            s,
            c,
            ans1::word_bytes(put_lanes(f, e.st, e.fwd, chunk, l, 16).1.reverse()),
        ),
    ensures
        refill_fwd(mixed(e.st, low, l), s, c, l) matches Some((st, d)) && st == mixed(
            e.st,
            low,
            16,
        ) && bytes::holds_at(s, d, ans1::word_bytes(e.fwd.reverse())) && d == c + 2 * (put_lanes(
            f,
            e.st,
            e.fwd,
            chunk,
            l,
            16,
        ).1.len() - e.fwd.len()),
    decreases 16 - l,
{
    if l < 16 {
        let x = e.st[l] as int;
        let fl = f[chunk[l] as int] as int;
        assert(chunk[l] < f.len());
        assert(rans::is_state(x));
        assert(low[l] == rans::shifted(x, fl));
        rans::lemma_put_get(f, chunk[l] as int, x);
        lemma_put_lanes(f, e.st, e.fwd, chunk, l + 1, 16);
        let (st1, w1) = put_lanes(f, e.st, e.fwd, chunk, l + 1, 16);
        assert(st1[l] == e.st[l]);
        let w = put_lanes(f, e.st, e.fwd, chunk, l, 16).1;
        let m = mixed(e.st, low, l);
        if rans::emits(x, fl) {
            let v = (x % 65536) as u16;
            assert(w == w1 + seq![v]);
            assert(w.reverse() =~= seq![v] + w1.reverse());
            let wb = ans1::word_bytes(w.reverse());
            let wb1 = ans1::word_bytes(w1.reverse());
            assert(wb =~= bytes::le16(v as int) + wb1);
            assert(s.subrange(c, c + 2) =~= bytes::le16(v as int)) by {
                assert forall|i: int| 0 <= i < 2 implies s[c + i] == wb[i] by {
                    assert(s.subrange(c, c + wb.len())[i] == wb[i]);
                }
            }
            bytes::lemma_read_le16(s, c, v as int);
            assert(s.subrange(c + 2, c + 2 + wb1.len()) =~= wb1) by {
                assert forall|i: int| 0 <= i < wb1.len() implies s[c + 2 + i] == wb1[i] by {
                    assert(s.subrange(c, c + wb.len())[i + 2] == wb[i + 2]);
                }
            }
            assert(m.update(l, e.st[l]) =~= mixed(e.st, low, l + 1));
            lemma_refill_fwd(f, e, chunk, low, s, c + 2, l + 1);
        } else {
            assert(w =~= w1);
            assert(m =~= mixed(e.st, low, l + 1));
            lemma_refill_fwd(f, e, chunk, low, s, c, l + 1);
        }
    }
}

/// The words `w` stand before position `c` of `s`.
spec fn words_before(s: Seq<u8>, c: int, w: Seq<u16>) -> bool {
    bytes::holds_at(s, c - 2 * w.len(), ans1::word_bytes(w))
}

/// Words read backwards come back in the order in which they were put.
proof fn lemma_refill_rev(
    f: Seq<u32>,
    st0: Seq<u32>,
    e: Lanes,
    chunk: Seq<u8>,
    low: Seq<u32>,
    s: Seq<u8>,
    c: int,
    l: int,
)
    requires
        ans1::codable(f, chunk),
        chunk.len() == 32,
        all_states(e.st),
        all_states(st0),
        forall|i: int| 16 <= i < 32 ==> #[trigger] st0[i] == e.st[i],
        low.len() == 32,
        forall|i: int|
            0 <= i < 32 ==> #[trigger] low[i] == rans::shifted(
                e.st[i] as int,
                f[chunk[i] as int] as int,
            ),
        16 <= l <= 32,
        words_before(s, c, put_lanes(f, st0, e.rev, chunk, l, 32).1),
    ensures
        refill_rev(mixed(e.st, low, l), s, c, l) matches Some((st, d)) && st == mixed(
            e.st,
            low,
            32,
        ) && words_before(s, d, e.rev) && d == c - 2 * (put_lanes(
            f,
            st0,
            e.rev,
            chunk,
            l,
            32,
        ).1.len() - e.rev.len()),
    decreases 32 - l,
{
    if l < 32 {
        let x = e.st[l] as int;
        let fl = f[chunk[l] as int] as int;
        assert(chunk[l] < f.len());
        assert(rans::is_state(x));
        assert(low[l] == rans::shifted(x, fl));
        assert(st0[l] == e.st[l]);
        rans::lemma_put_get(f, chunk[l] as int, x);
        lemma_put_lanes(f, st0, e.rev, chunk, l + 1, 32);
        let (st1, w1) = put_lanes(f, st0, e.rev, chunk, l + 1, 32);
        assert(st1[l] == e.st[l]);
        let w = put_lanes(f, st0, e.rev, chunk, l, 32).1;
        let m = mixed(e.st, low, l);
        if rans::emits(x, fl) {
            let v = (x % 65536) as u16;
            assert(w =~= w1.push(v));
            ans1::lemma_word_bytes_push(w1, v);
            let wb = ans1::word_bytes(w);
            let wb1 = ans1::word_bytes(w1);
            let a = c - 2 * w.len();
            assert(s.subrange(c - 2, c) =~= bytes::le16(v as int)) by {
                assert forall|i: int| 0 <= i < 2 implies s[c - 2 + i] == bytes::le16(v as int)[i] by {
                    assert(s.subrange(a, a + wb.len())[wb1.len() + i] == wb[wb1.len() + i]);
                }
            }
            bytes::lemma_read_le16(s, c - 2, v as int);
            assert(s.subrange(a, a + wb1.len()) =~= wb1) by {
                assert forall|i: int| 0 <= i < wb1.len() implies s[a + i] == wb1[i] by {
                    assert(s.subrange(a, a + wb.len())[i] == wb[i]);
                }
            }
            assert(m.update(l, e.st[l]) =~= mixed(e.st, low, l + 1));
            lemma_refill_rev(f, st0, e, chunk, low, s, c - 2, l + 1);
        } else {
            assert(w =~= w1);
            assert(m =~= mixed(e.st, low, l + 1));
            lemma_refill_rev(f, st0, e, chunk, low, s, c, l + 1);
        }
    }
}

proof fn lemma_symbols_of_encoded(f: Seq<u32>, src: Seq<u8>, s: Seq<u8>, cf: int, cr: int)
    requires
        ans1::codable(f, src),
        bytes::holds_at(s, cf, ans1::word_bytes(encoded(f, src).fwd.reverse())),
        words_before(s, cr, encoded(f, src).rev),
    ensures
        symbols(rans::dense(f), s, encoded(f, src).st, cf, cr, src.len() as int) == Some(src),
    decreases src.len(),
{
    if src.len() == 0 {
        assert(src =~= seq![]);
    } else {
        let n = chunk_len(src);
        let rest = src.skip(n);
        let chunk = src.take(n);
        let e = encoded(f, rest);
        lemma_codable_part(f, src, n, src.len() as int);
        lemma_codable_part(f, src, 0, n);
        assert(rest =~= src.subrange(n, src.len() as int));
        assert(chunk =~= src.subrange(0, n));
        lemma_encoded_states(f, rest);
        lemma_taken(f, e, chunk);
        let st = encoded(f, src).st;
        assert(st == put_chunk(f, e, chunk).st);
        if n < 32 {
            assert(chunk =~= src);
        } else {
            let low = taken(rans::dense(f), st);
            assert(mixed(e.st, low, 0) =~= low);
            lemma_refill_fwd(f, e, chunk, low, s, cf, 0);
            let (st1, cf1) = refill_fwd(low, s, cf, 0).unwrap();
            lemma_put_lanes(f, e.st, e.fwd, chunk, 0, 16);
            let st0 = put_lanes(f, e.st, e.fwd, chunk, 0, 16).0;
            lemma_refill_rev(f, st0, e, chunk, low, s, cr, 16);
            assert(mixed(e.st, low, 32) =~= e.st);
            let cr1 = refill_rev(st1, s, cr, 16).unwrap().1;
            lemma_symbols_of_encoded(f, rest, s, cf1, cr1);
            assert(chunk + rest =~= src);
        }
    }
}

proof fn lemma_state_bytes(st: Seq<u32>, lo: int, hi: int, l: int)
    requires
        0 <= lo <= l < hi,
    ensures
        state_bytes(st, lo, hi).len() == 4 * (hi - lo),
        bytes::holds_at(state_bytes(st, lo, hi), 4 * (l - lo), bytes::le32(st[l] as int)),
    decreases hi,
{
    let p = state_bytes(st, lo, hi - 1);
    if l < hi - 1 {
        lemma_state_bytes(st, lo, hi - 1, l);
        assert(state_bytes(st, lo, hi).subrange(4 * (l - lo), 4 * (l - lo) + 4) =~= p.subrange(
            4 * (l - lo),
            4 * (l - lo) + 4,
        ));
    } else {
        if lo < l {
            lemma_state_bytes(st, lo, l, lo);
        }
        assert(p.len() == 4 * (l - lo));
        assert(state_bytes(st, lo, hi).subrange(4 * (l - lo), 4 * (l - lo) + 4) =~= bytes::le32(
            st[l] as int,
        ));
    }
}

/// The states are read back from both ends of the stream.
proof fn lemma_stored_states(st: Seq<u32>, mid: Seq<u8>)
    requires
        st.len() == 32,
    ensures
        stored_states(state_bytes(st, 0, 16) + mid + state_bytes(st, 16, 32)) == st,
        state_bytes(st, 0, 16).len() == 64,
        state_bytes(st, 16, 32).len() == 64,
{
    let a = state_bytes(st, 0, 16);
    let b = state_bytes(st, 16, 32);
    let s = a + mid + b;
    lemma_state_bytes(st, 0, 16, 0);
    lemma_state_bytes(st, 16, 32, 16);
    assert forall|l: int| 0 <= l < 32 implies stored_states(s)[l] == st[l] by {
        if l < 16 {
            lemma_state_bytes(st, 0, 16, l);
            assert(s.subrange(4 * l, 4 * l + 4) =~= a.subrange(4 * l, 4 * l + 4));
            bytes::lemma_read_le32(s, 4 * l, st[l] as int);
        } else {
            lemma_state_bytes(st, 16, 32, l);
            let o = s.len() - 64;
            let k = 4 * (l - 16);
            assert(s.subrange(o + k, o + k + 4) =~= b.subrange(k, k + 4));
            bytes::lemma_read_le32(s, o + k, st[l] as int);
        }
    }
    assert(stored_states(s) =~= st);
}

/// Decoding the coded form of a sequence gives back the sequence.
pub proof fn lemma_roundtrip(src: Seq<u8>)
    requires
        src.len() <= u32::MAX,
    ensures
        decoded(coded(src), src.len() as int) == Ok::<Seq<u8>, Error>(src),
{
    let f = model::frequencies(model::counts(src, 256));
    ans1::lemma_model_codable(src, 256);
    let e = encoded(f, src);
    lemma_encoded_states(f, src);
    let s = stream_of(f, src);
    table::lemma_split(s, f);
    let a = state_bytes(e.st, 0, 16);
    let b = state_bytes(e.st, 16, 32);
    let wf = ans1::word_bytes(e.fwd.reverse());
    let wr = ans1::word_bytes(e.rev);
    lemma_stored_states(e.st, wf + wr);
    assert(s =~= a + (wf + wr) + b);
    assert(s.subrange(64, 64 + wf.len() as int) =~= wf);
    let cr = s.len() - 64;
    assert(s.subrange(cr - wr.len(), cr) =~= wr);
    lemma_symbols_of_encoded(f, src, s, 64, cr);
}

// ---------------------------------------------------------------------------
// What a coded block says, lane by lane
// ---------------------------------------------------------------------------
/// State `x` holds the symbol `b`, and `y` is the state after it. Where what is left
/// falls below 65536, the two bytes of `s` behind `c` come in below it, or those
/// before `c` if the lane reads backwards.
pub open spec fn leads(
    f: Seq<u32>,
    s: Seq<u8>,
    x: u32,
    b: u8,
    y: u32,
    c: int,
    d: int,
    forwards: bool,
) -> bool {
    exists|z: int| #[trigger]
        rans::holds_symbol(f, x as int, b as int, z) && if z >= 65536 {
            y == z && d == c
        } else if forwards {
            c + 2 <= s.len() && d == c + 2 && y == z * 65536 + s[c] + 256 * s[c + 1]
        } else {
            c >= 2 && d == c - 2 && y == z * 65536 + s[c - 2] + 256 * s[c - 1]
        }
}

/// The 32 states `st` hold the symbols `b`, one each, and `su` are the states after
/// them. The lanes below 16 read forwards, one after the other, the places between
/// them being `front`; the others read backwards, the places being `back`.
pub open spec fn round_leads(
    f: Seq<u32>,
    s: Seq<u8>,
    b: Seq<u8>,
    st: Seq<u32>,
    su: Seq<u32>,
    front: Seq<int>,
    back: Seq<int>,
) -> bool {
    &&& st.len() == 32
    &&& su.len() == 32
    &&& b.len() == 32
    &&& front.len() == 17
    &&& back.len() == 17
    &&& forall|l: int|
        0 <= l < 16 ==> leads(f, s, #[trigger] st[l], b[l], su[l], front[l], front[l + 1], true)
    &&& forall|l: int|
        16 <= l < 32 ==> leads(
            f,
            s,
            #[trigger] st[l],
            b[l],
            su[l],
            back[l - 16],
            back[l - 15],
            false,
        )
}

/// A round with the places before and after it.
pub open spec fn round(
    f: Seq<u32>,
    s: Seq<u8>,
    b: Seq<u8>,
    st: Seq<u32>,
    su: Seq<u32>,
    p: (int, int),
    q: (int, int),
) -> bool {
    exists|front: Seq<int>, back: Seq<int>| #[trigger]
        round_leads(f, s, b, st, su, front, back) && front[0] == p.0 && front[16] == q.0 && back[0]
            == p.1 && back[16] == q.1
}

/// The states and places before each round lead from round to round of `r`: symbol
/// `i` is the one that lane `i % 32` holds before round `i / 32`.
pub open spec fn trace(
    f: Seq<u32>,
    s: Seq<u8>,
    r: Seq<u8>,
    states: Seq<Seq<u32>>,
    places: Seq<(int, int)>,
) -> bool {
    let n = r.len() as int / 32;
    &&& states.len() == n + 1
    &&& places.len() == n + 1
    &&& forall|k: int|
        0 <= k < n ==> round(
            f,
            s,
            r.subrange(32 * k, 32 * k + 32),
            #[trigger] states[k],
            states[k + 1],
            places[k],
            places[k + 1],
        )
    &&& forall|i: int|
        32 * n <= i < r.len() ==> rans::holds(
            f,
            states[n][i - 32 * n] as int,
            (#[trigger] r[i]) as int,
        )
}

/// The state of lane `l` before the first round, as it stands in the stream `s`: at the
/// front for the lanes below 16, at the end for the others.
pub open spec fn first_state(s: Seq<u8>, l: int) -> int {
    let at = if l < 16 {
        4 * l
    } else {
        s.len() - 128 + 4 * l
    };
    s[at] + 256 * s[at + 1] + 65536 * s[at + 2] + 16777216 * s[at + 3]
}

proof fn lemma_front_places(st: Seq<u32>, s: Seq<u8>, c: int, l: int) -> (p: Seq<int>)
    requires
        st.len() == 32,
        0 <= l <= 16,
        refill_fwd(st, s, c, l) is Some,
    ensures
        ({
            let (su, d) = refill_fwd(st, s, c, l).unwrap();
            &&& p.len() == 17 - l
            &&& p[0] == c
            &&& p[16 - l] == d
            &&& su.len() == 32
            &&& forall|i: int| 0 <= i < l || 16 <= i < 32 ==> #[trigger] su[i] == st[i]
            &&& forall|i: int|
                l <= i < 16 ==> if (#[trigger] st[i]) >= 65536 {
                    su[i] == st[i] && p[i - l + 1] == p[i - l]
                } else {
                    &&& p[i - l] + 2 <= s.len()
                    &&& p[i - l + 1] == p[i - l] + 2
                    &&& su[i] == (st[i] * 65536 + bytes::u16_at(s, p[i - l])) as u32
                }
        }),
    decreases 16 - l,
{
    if l >= 16 {
        seq![c]
    } else if st[l] >= 65536 {
        let q = lemma_front_places(st, s, c, l + 1);
        let p = seq![c] + q;
        assert(forall|j: int| 0 <= j < q.len() ==> p[j + 1] == q[j]);
        p
    } else {
        let x = (st[l] * 65536 + bytes::u16_at(s, c)) as u32;
        let st1 = st.update(l, x);
        let q = lemma_front_places(st1, s, c + 2, l + 1);
        let p = seq![c] + q;
        let su = refill_fwd(st, s, c, l).unwrap().0;
        assert(forall|j: int| 0 <= j < q.len() ==> p[j + 1] == q[j]);
        assert(su[l] == st1[l]);
        assert forall|i: int| l < i < 16 implies if (#[trigger] st[i]) >= 65536 {
            su[i] == st[i] && p[i - l + 1] == p[i - l]
        } else {
            &&& p[i - l] + 2 <= s.len()
            &&& p[i - l + 1] == p[i - l] + 2
            &&& su[i] == (st[i] * 65536 + bytes::u16_at(s, p[i - l])) as u32
        } by {
            assert(st1[i] == st[i]);
            assert(p[i - l] == q[i - l - 1] && p[i - l + 1] == q[i - l]);
        }
        assert forall|i: int| 0 <= i < l || 16 <= i < 32 implies #[trigger] su[i] == st[i] by {
            assert(st1[i] == st[i]);
        }
        p
    }
}

proof fn lemma_back_places(st: Seq<u32>, s: Seq<u8>, c: int, l: int) -> (p: Seq<int>)
    requires
        st.len() == 32,
        16 <= l <= 32,
        refill_rev(st, s, c, l) is Some,
    ensures
        ({
            let (su, d) = refill_rev(st, s, c, l).unwrap();
            &&& p.len() == 33 - l
            &&& p[0] == c
            &&& p[32 - l] == d
            &&& su.len() == 32
            &&& forall|i: int| 0 <= i < l ==> #[trigger] su[i] == st[i]
            &&& forall|i: int|
                l <= i < 32 ==> if (#[trigger] st[i]) >= 65536 {
                    su[i] == st[i] && p[i - l + 1] == p[i - l]
                } else {
                    &&& p[i - l] >= 2
                    &&& p[i - l + 1] == p[i - l] - 2
                    &&& su[i] == (st[i] * 65536 + bytes::u16_at(s, p[i - l] - 2)) as u32
                }
        }),
    decreases 32 - l,
{
    if l >= 32 {
        seq![c]
    } else if st[l] >= 65536 {
        let q = lemma_back_places(st, s, c, l + 1);
        let p = seq![c] + q;
        assert(forall|j: int| 0 <= j < q.len() ==> p[j + 1] == q[j]);
        p
    } else {
        let x = (st[l] * 65536 + bytes::u16_at(s, c - 2)) as u32;
        let st1 = st.update(l, x);
        let q = lemma_back_places(st1, s, c - 2, l + 1);
        let p = seq![c] + q;
        let su = refill_rev(st, s, c, l).unwrap().0;
        assert(forall|j: int| 0 <= j < q.len() ==> p[j + 1] == q[j]);
        assert(su[l] == st1[l]);
        assert forall|i: int| l < i < 32 implies if (#[trigger] st[i]) >= 65536 {
            su[i] == st[i] && p[i - l + 1] == p[i - l]
        } else {
            &&& p[i - l] >= 2
            &&& p[i - l + 1] == p[i - l] - 2
            &&& su[i] == (st[i] * 65536 + bytes::u16_at(s, p[i - l] - 2)) as u32
        } by {
            assert(st1[i] == st[i]);
            assert(p[i - l] == q[i - l - 1] && p[i - l + 1] == q[i - l]);
        }
        assert forall|i: int| 0 <= i < l implies #[trigger] su[i] == st[i] by {
            assert(st1[i] == st[i]);
        }
        p
    }
}

proof fn lemma_lane(f: Seq<u32>, x: u32) -> (z: int)
    requires
        model::usable(f),
        f.len() <= 256,
    ensures
        ({
            let t = rans::dense(f)[x as int % 4096];
            &&& z == rans::get(t, x as int)
            &&& 0 <= z < 0x1_0000_0000
            &&& rans::holds_symbol(f, x as int, rans::entry_sym(t) as int, z)
        }),
{
    let t = rans::dense(f)[x as int % 4096];
    let z = rans::get(t, x as int);
    rans::lemma_get_bound(t, x as int);
    rans::lemma_holds_symbol(f, x as int, rans::entry_sym(t) as int, z);
    z
}

/// One round of taking symbols.
proof fn lemma_round(f: Seq<u32>, s: Seq<u8>, st: Seq<u32>, cf: int, cr: int)
    requires
        model::usable(f),
        f.len() <= 256,
        st.len() == 32,
        refill_fwd(taken(rans::dense(f), st), s, cf, 0) is Some,
        refill_rev(refill_fwd(taken(rans::dense(f), st), s, cf, 0).unwrap().0, s, cr, 16) is Some,
    ensures
        ({
            let tab = rans::dense(f);
            let (s1, cf1) = refill_fwd(taken(tab, st), s, cf, 0).unwrap();
            let (s2, cr1) = refill_rev(s1, s, cr, 16).unwrap();
            round(f, s, row(tab, st, 32), st, s2, (cf, cr), (cf1, cr1)) && s2.len() == 32
        }),
{
    let tab = rans::dense(f);
    let low = taken(tab, st);
    let front = lemma_front_places(low, s, cf, 0);
    let (s1, cf1) = refill_fwd(low, s, cf, 0).unwrap();
    let back = lemma_back_places(s1, s, cr, 16);
    let (s2, cr1) = refill_rev(s1, s, cr, 16).unwrap();
    let b = row(tab, st, 32);
    assert forall|l: int| 0 <= l < 16 implies leads(
        f,
        s,
        #[trigger] st[l],
        b[l],
        s2[l],
        front[l],
        front[l + 1],
        true,
    ) by {
        let z = lemma_lane(f, st[l]);
        assert(low[l] == z);
        assert(s2[l] == s1[l]);
        assert(rans::holds_symbol(f, st[l] as int, b[l] as int, z));
    }
    assert forall|l: int| 16 <= l < 32 implies leads(
        f,
        s,
        #[trigger] st[l],
        b[l],
        s2[l],
        back[l - 16],
        back[l - 15],
        false,
    ) by {
        let z = lemma_lane(f, st[l]);
        assert(low[l] == z);
        assert(s1[l] == low[l]);
        assert(rans::holds_symbol(f, st[l] as int, b[l] as int, z));
    }
    assert(round_leads(f, s, b, st, s2, front, back));
}

/// A round in front of a trace.
proof fn lemma_prepend(
    f: Seq<u32>,
    s: Seq<u8>,
    b: Seq<u8>,
    st: Seq<u32>,
    p: (int, int),
    r: Seq<u8>,
    states: Seq<Seq<u32>>,
    places: Seq<(int, int)>,
)
    requires
        b.len() == 32,
        trace(f, s, r, states, places),
        round(f, s, b, st, states[0], p, places[0]),
    ensures
        trace(f, s, b + r, seq![st] + states, seq![p] + places),
{
    let q = b + r;
    let n = r.len() as int / 32;
    let us = seq![st] + states;
    let ps = seq![p] + places;
    assert(q.len() as int / 32 == n + 1);
    assert forall|k: int| 0 <= k < n + 1 implies round(
        f,
        s,
        q.subrange(32 * k, 32 * k + 32),
        #[trigger] us[k],
        us[k + 1],
        ps[k],
        ps[k + 1],
    ) by {
        if k == 0 {
            assert(q.subrange(0, 32) =~= b);
        } else {
            let j = k - 1;
            assert(q.subrange(32 * k, 32 * k + 32) =~= r.subrange(32 * j, 32 * j + 32));
            assert(round(
                f,
                s,
                r.subrange(32 * j, 32 * j + 32),
                states[j],
                states[j + 1],
                places[j],
                places[j + 1],
            ));
        }
    }
    assert forall|i: int| 32 * (n + 1) <= i < q.len() implies rans::holds(
        f,
        us[n + 1][i - 32 * (n + 1)] as int,
        (#[trigger] q[i]) as int,
    ) by {
        assert(q[i] == r[i - 32]);
        assert(us[n + 1] == states[n]);
    }
}

proof fn lemma_symbols_trace(f: Seq<u32>, s: Seq<u8>, st: Seq<u32>, cf: int, cr: int, n: int) -> (r:
    (Seq<Seq<u32>>, Seq<(int, int)>))
    requires
        model::usable(f),
        f.len() <= 256,
        st.len() == 32,
        0 <= n,
        symbols(rans::dense(f), s, st, cf, cr, n) is Some,
    ensures
        symbols(rans::dense(f), s, st, cf, cr, n).unwrap().len() == n,
        trace(f, s, symbols(rans::dense(f), s, st, cf, cr, n).unwrap(), r.0, r.1),
        r.0[0] == st,
        r.1[0] == (cf, cr),
    decreases n,
{
    let tab = rans::dense(f);
    let all = symbols(tab, s, st, cf, cr, n).unwrap();
    if n < 32 {
        assert forall|i: int| 0 <= i < all.len() implies rans::holds(
            f,
            st[i] as int,
            (#[trigger] all[i]) as int,
        ) by {
            let z = lemma_lane(f, st[i]);
            assert(rans::holds_symbol(f, st[i] as int, all[i] as int, z));
        }
        (seq![st], seq![(cf, cr)])
    } else {
        let (s1, cf1) = refill_fwd(taken(tab, st), s, cf, 0).unwrap();
        let (s2, cr1) = refill_rev(s1, s, cr, 16).unwrap();
        lemma_round(f, s, st, cf, cr);
        let (us, ps) = lemma_symbols_trace(f, s, s2, cf1, cr1, n - 32);
        let rest = symbols(tab, s, s2, cf1, cr1, n - 32).unwrap();
        lemma_prepend(f, s, row(tab, st, 32), st, (cf, cr), rest, us, ps);
        (seq![st] + us, seq![(cf, cr)] + ps)
    }
}

/// What a decoded block says: with the frequencies `f` and the stream `s` in front of
/// them, symbol `i` of what decoding gives is the one that lane `i % 32` holds before
/// round `i / 32`. The first states stand at both ends of `s`, and the lanes use up the
/// words between them from both sides.
pub proof fn lemma_decoded_lanes(src: Seq<u8>, f: Seq<u32>, s: Seq<u8>, n: int) -> (r: (
    Seq<Seq<u32>>,
    Seq<(int, int)>,
))
    requires
        table::split(src) == Ok::<(Seq<u32>, Seq<u8>), Error>((f, s)),
        forall|i: int| 0 <= i < f.len() ==> f[i] <= 4095,
        0 <= n,
        decoded(src, n) is Ok,
    ensures
        128 <= s.len(),
        decoded(src, n)->Ok_0.len() == n,
        trace(f, s, decoded(src, n)->Ok_0, r.0, r.1),
        r.1[0] == (64int, s.len() - 64),
        r.0[0].len() == 32,
        forall|l: int| 0 <= l < 32 ==> #[trigger] r.0[0][l] == first_state(s, l),
{
    table::lemma_parse_shape(src.drop_last(), 256);
    let st = stored_states(s);
    assert forall|l: int| 0 <= l < 32 implies #[trigger] st[l] == first_state(s, l) by {
        assert(0 <= first_state(s, l) < 0x1_0000_0000);
    }
    lemma_symbols_trace(f, s, st, 64, s.len() - 64, n)
}

proof fn lemma_symbols_prefix(
    tab: Seq<u32>,
    s: Seq<u8>,
    st: Seq<u32>,
    cf: int,
    cr: int,
    m: int,
    n: int,
)
    requires
        0 <= m <= n,
    ensures
        symbols(tab, s, st, cf, cr, n) matches Some(r) ==> r.len() == n && symbols(
            tab,
            s,
            st,
            cf,
            cr,
            m,
        ) == Some(r.take(m)),
    decreases n,
{
    if n < 32 {
        if n > 0 {
            assert(row(tab, st, n).take(m) =~= row(tab, st, m));
            assert(row(tab, st, 0) =~= seq![]);
        } else {
            assert(Seq::<u8>::empty().take(0) =~= seq![]);
        }
    } else if let Some((s1, cf1)) = refill_fwd(taken(tab, st), s, cf, 0) {
        if let Some((s2, cr1)) = refill_rev(s1, s, cr, 16) {
            let b = row(tab, st, 32);
            if m >= 32 {
                lemma_symbols_prefix(tab, s, s2, cf1, cr1, m - 32, n - 32);
                if let Some(r) = symbols(tab, s, s2, cf1, cr1, n - 32) {
                    assert((b + r).take(m) =~= b + r.take(m - 32));
                }
            } else {
                lemma_symbols_prefix(tab, s, s2, cf1, cr1, 0, n - 32);
                if let Some(r) = symbols(tab, s, s2, cf1, cr1, n - 32) {
                    assert((b + r).take(m) =~= row(tab, st, m));
                    assert(row(tab, st, 0) =~= seq![]);
                }
            }
        }
    }
}

/// Decoding fewer symbols of a block gives the first of those that decoding more gives.
pub proof fn lemma_decoded_prefix(src: Seq<u8>, m: int, n: int)
    requires
        0 <= m <= n,
    ensures
        decoded(src, n) matches Ok(r) ==> r.len() == n && decoded(src, m) == Ok::<Seq<u8>, Error>(
            r.take(m),
        ),
{
    if let Ok((f, s)) = table::split(src) {
        if s.len() >= 128 {
            lemma_symbols_prefix(rans::dense(f), s, stored_states(s), 64, s.len() - 64, m, n);
        }
    }
}

/// The first chunk that is put sends no words.
proof fn lemma_no_words(f: Seq<u32>, st: Seq<u32>, w: Seq<u16>, chunk: Seq<u8>, lo: int, hi: int)
    requires
        ans1::codable(f, chunk),
        st.len() == 32,
        0 <= lo <= hi <= 32,
        forall|l: int| lo <= l < hi ==> #[trigger] st[l] == 65536,
    ensures
        put_lanes(f, st, w, chunk, lo, hi).1 == w,
        put_lanes(f, st, w, chunk, lo, hi).0.len() == 32,
        forall|l: int|
            0 <= l < 32 && !(lo <= l < hi) ==> #[trigger] put_lanes(f, st, w, chunk, lo, hi).0[l]
                == st[l],
    decreases hi - lo,
{
    if lo < hi {
        lemma_no_words(f, st, w, chunk, lo + 1, hi);
        let (st1, w1) = put_lanes(f, st, w, chunk, lo + 1, hi);
        assert(st1[lo] == st[lo]);
        if lo < chunk.len() {
            assert(chunk[lo] < f.len() && f[chunk[lo] as int] != 0);
            assert(w + Seq::<u16>::empty() =~= w);
        }
    }
}

proof fn lemma_encoded_trace(f: Seq<u32>, src: Seq<u8>, s: Seq<u8>, cf: int, cr: int) -> (r: (
    Seq<Seq<u32>>,
    Seq<(int, int)>,
))
    requires
        ans1::codable(f, src),
        bytes::holds_at(s, cf, ans1::word_bytes(encoded(f, src).fwd.reverse())),
        words_before(s, cr, encoded(f, src).rev),
        cr - cf == 2 * (encoded(f, src).fwd.len() + encoded(f, src).rev.len()),
    ensures
        trace(f, s, src, r.0, r.1),
        r.0[0] == encoded(f, src).st,
        r.1[0] == (cf, cr),
        ({
            let n = src.len() as int / 32;
            &&& r.1[n].0 == r.1[n].1
            &&& r.0[n].len() == 32
            &&& forall|l: int|
                0 <= l < 32 ==> if l < src.len() % 32 {
                    rans::holds_symbol(f, (#[trigger] r.0[n][l]) as int, src[32 * n + l] as int, 65536)
                } else {
                    r.0[n][l] == 65536
                }
        }),
    decreases src.len(),
{
    let st = encoded(f, src).st;
    lemma_encoded_states(f, src);
    if src.len() == 0 {
        (seq![st], seq![(cf, cr)])
    } else {
        let n = chunk_len(src);
        let rest = src.skip(n);
        let chunk = src.take(n);
        let e = encoded(f, rest);
        lemma_codable_part(f, src, n, src.len() as int);
        lemma_codable_part(f, src, 0, n);
        assert(rest =~= src.subrange(n, src.len() as int));
        assert(chunk =~= src.subrange(0, n));
        lemma_encoded_states(f, rest);
        lemma_taken(f, e, chunk);
        lemma_put_chunk(f, e, chunk);
        assert(st == put_chunk(f, e, chunk).st);
        if n < 32 {
            assert(chunk =~= src);
            assert(rest =~= seq![]);
            lemma_no_words(f, e.st, e.fwd, chunk, 0, 16);
            let st1 = put_lanes(f, e.st, e.fwd, chunk, 0, 16).0;
            lemma_no_words(f, st1, e.rev, chunk, 16, 32);
            assert forall|l: int| 0 <= l < 32 implies if l < src.len() {
                rans::holds_symbol(f, (#[trigger] st[l]) as int, src[l] as int, 65536)
            } else {
                st[l] == 65536
            } by {
                if l < src.len() {
                    let z = lemma_lane(f, st[l]);
                    assert(taken(rans::dense(f), st)[l] == rans::shifted(
                        e.st[l] as int,
                        f[chunk[l] as int] as int,
                    ));
                    assert(row(rans::dense(f), st, n)[l] == chunk[l]);
                    assert(chunk[l] < f.len() && f[chunk[l] as int] != 0);
                    assert(z == 65536);
                }
            }
            assert forall|i: int| 0 <= i < src.len() implies rans::holds(
                f,
                st[i] as int,
                (#[trigger] src[i]) as int,
            ) by {
                assert(rans::holds_symbol(f, st[i] as int, src[i] as int, 65536));
            }
            (seq![st], seq![(cf, cr)])
        } else {
            let low = taken(rans::dense(f), st);
            assert(mixed(e.st, low, 0) =~= low);
            lemma_refill_fwd(f, e, chunk, low, s, cf, 0);
            let (st1, cf1) = refill_fwd(low, s, cf, 0).unwrap();
            lemma_put_lanes(f, e.st, e.fwd, chunk, 0, 16);
            let st0 = put_lanes(f, e.st, e.fwd, chunk, 0, 16).0;
            lemma_refill_rev(f, st0, e, chunk, low, s, cr, 16);
            assert(mixed(e.st, low, 32) =~= e.st);
            let cr1 = refill_rev(st1, s, cr, 16).unwrap().1;
            lemma_round(f, s, st, cf, cr);
            let (us, ps) = lemma_encoded_trace(f, rest, s, cf1, cr1);
            lemma_prepend(f, s, chunk, st, (cf, cr), rest, us, ps);
            assert(chunk + rest =~= src);
            let k = src.len() as int / 32;
            let vs = seq![st] + us;
            let qs = seq![(cf, cr)] + ps;
            assert(rest.len() as int / 32 == k - 1 && rest.len() % 32 == src.len() % 32);
            assert(vs[k] == us[k - 1] && qs[k] == ps[k - 1]);
            assert forall|l: int| 0 <= l < 32 implies if l < src.len() % 32 {
                rans::holds_symbol(f, (#[trigger] vs[k][l]) as int, src[32 * k + l] as int, 65536)
            } else {
                vs[k][l] == 65536
            } by {
                assert(us[k - 1][l] == vs[k][l]);
                if l < src.len() % 32 {
                    assert(rest[32 * (k - 1) + l] == src[32 * k + l]);
                }
            }
            (vs, qs)
        }
    }
}

/// A coded text is the one block that its model gives. The model is that of its own
/// histogram, each symbol that occurs having its share of the slots; the lanes use up
/// all words, and each leads to the lowest state.
pub proof fn lemma_coded_lanes(src: Seq<u8>, b: u8) -> (r: (
    Seq<u32>,
    Seq<u8>,
    Seq<Seq<u32>>,
    Seq<(int, int)>,
))
    requires
        src.len() <= u32::MAX,
    ensures
        ({
            let (f, s, states, places) = r;
            let len = src.len() as int;
            let n = len / 32;
            let share = src.to_multiset().count(b) as int;
            &&& table::split(coded(src)) == Ok::<(Seq<u32>, Seq<u8>), Error>((f, s))
            &&& f == model::frequencies(model::multiplicities(src, 256))
            &&& len > 0 ==> (share == 0 <==> f[b as int] == 0)
            &&& (forall|a: u8| #[trigger] src.to_multiset().count(a) < len) ==> {
                &&& f[b as int] == 1 || len * f[b as int] < 4096 * share + len
                &&& len * f[b as int] > 4096 * share - len * (1 + model::rare(
                    model::multiplicities(src, 256),
                    256,
                ))
            }
            &&& 128 <= s.len()
            &&& trace(f, s, src, states, places)
            &&& places[0] == (64int, s.len() - 64)
            &&& states[0].len() == 32
            &&& forall|l: int| 0 <= l < 32 ==> #[trigger] states[0][l] == first_state(s, l)
            &&& places[n].0 == places[n].1
            &&& states[n].len() == 32
            &&& forall|l: int|
                0 <= l < 32 ==> if l < len % 32 {
                    rans::holds_symbol(
                        f,
                        (#[trigger] states[n][l]) as int,
                        src[32 * n + l] as int,
                        65536,
                    )
                } else {
                    states[n][l] == 65536
                }
        }),
{
    let f = model::frequencies(model::counts(src, 256));
    ans1::lemma_model_codable(src, 256);
    model::lemma_model_of(src, 256, b);
    let e = encoded(f, src);
    lemma_encoded_states(f, src);
    let s = stream_of(f, src);
    table::lemma_split(s, f);
    let x = state_bytes(e.st, 0, 16);
    let y = state_bytes(e.st, 16, 32);
    let wf = ans1::word_bytes(e.fwd.reverse());
    let wr = ans1::word_bytes(e.rev);
    lemma_stored_states(e.st, wf + wr);
    assert(s =~= x + (wf + wr) + y);
    assert(s.subrange(64, 64 + wf.len() as int) =~= wf);
    let cr = s.len() - 64;
    assert(s.subrange(cr - wr.len(), cr) =~= wr);
    let (states, places) = lemma_encoded_trace(f, src, s, 64, cr);
    assert forall|l: int| 0 <= l < 32 implies #[trigger] states[0][l] == first_state(s, l) by {
        assert(stored_states(s)[l] == e.st[l]);
        assert(0 <= first_state(s, l) < 0x1_0000_0000);
    }
    (f, s, states, places)
}

// ---------------------------------------------------------------------------
// Executable coder
// ---------------------------------------------------------------------------
/// Puts the symbols of `chunk` that belong to the lanes `lo..hi`.
fn ans32_put(
    state: &mut Vec<u32>,
    words: &mut Vec<u16>,
    chunk: &[u8],
    stats: &Stats,
    lo: usize,
    hi: usize,
)
    requires
        all_states(old(state)@),
        stats.wf(256),
        ans1::codable(stats.freq@, chunk@),
        lo <= hi <= 32,
    ensures
        all_states(final(state)@),
        (final(state)@, final(words)@) == put_lanes(
            stats.freq@,
            old(state)@,
            old(words)@,
            chunk@,
            lo as int,
            hi as int,
        ),
{
    let ghost f = stats.freq@;
    let mut l: usize = hi;
    while l > lo
        invariant
            lo <= l <= hi <= 32,
            stats.wf(256),
            stats.freq@ == f,
            ans1::codable(f, chunk@),
            all_states(old(state)@),
            all_states(state@),
            (state@, words@) == put_lanes(f, old(state)@, old(words)@, chunk@, l as int, hi as int),
        decreases l,
    {
        l = l - 1;
        if l < chunk.len() {
            let x: u32 = state[l];
            proof {
                assert(rans::is_state(state@[l as int] as int));
                assert(chunk@[l as int] < f.len());
            }
            let (y, e): (u32, bool) = stats.put(x, chunk[l]);
            let ghost before = words@;
            if e {
                words.push((x % 65536) as u16);
            }
            assert(words@ =~= before + rans::words_of(x as int, f[chunk@[l as int] as int] as int));
            state[l] = y;
        }
        proof {
            lemma_put_lanes(f, old(state)@, old(words)@, chunk@, l as int, hi as int);
        }
    }
}

/// Appends the states of the lanes `lo..hi`.
fn push_states(state: &Vec<u32>, lo: usize, hi: usize, dst: &mut Vec<u8>)
    requires
        lo <= hi <= state@.len(),
    ensures
        final(dst)@ == old(dst)@ + state_bytes(state@, lo as int, hi as int),
{
    let mut l: usize = lo;
    assert(dst@ =~= old(dst)@ + state_bytes(state@, lo as int, lo as int));
    while l < hi
        invariant
            lo <= l <= hi <= state@.len(),
            dst@ == old(dst)@ + state_bytes(state@, lo as int, l as int),
        decreases hi - l,
    {
        push_u32(dst, state[l]);
        l = l + 1;
        assert(dst@ =~= old(dst)@ + state_bytes(state@, lo as int, l as int));
    }
}

/// The stream of `src` under the model `stats`.
fn ans32_compress(src: &[u8], stats: &Stats) -> (out: Vec<u8>)
    requires
        stats.wf(256),
        ans1::codable(stats.freq@, src@),
    ensures
        out@ == stream_of(stats.freq@, src@),
{
    let ghost f = stats.freq@;
    let n: usize = src.len();
    let mut state: Vec<u32> = vec![rans::STATE_LOW; 32];
    let mut fwd: Vec<u16> = Vec::new();
    let mut rev: Vec<u16> = Vec::new();
    let mut k: usize = n - n % 32;
    let last: &[u8] = &src[k..n];
    assert(state@ =~= fresh().st);
    assert(fwd@ =~= fresh().fwd && rev@ =~= fresh().rev);
    proof {
        lemma_codable_part(f, src@, k as int, n as int);
    }
    ans32_put(&mut state, &mut fwd, last, stats, 0, 16);
    ans32_put(&mut state, &mut rev, last, stats, 16, 32);
    proof {
        let t = src@.skip(k as int);
        assert(last@ =~= t);
        if t.len() == 0 {
            lemma_put_none(f, fresh().st, seq![], t, 0, 16);
            lemma_put_none(f, fresh().st, seq![], t, 16, 32);
        } else {
            assert(t.skip(chunk_len(t)) =~= seq![]);
            assert(t.take(chunk_len(t)) =~= t);
            assert(encoded(f, t.skip(chunk_len(t))) == fresh());
            assert(encoded(f, t) == put_chunk(f, fresh(), t));
        }
    }
    while k > 0
        invariant
            n == src@.len(),
            k <= n,
            k % 32 == 0,
            stats.wf(256),
            stats.freq@ == f,
            ans1::codable(f, src@),
            all_states(state@),
            encoded(f, src@.skip(k as int)) == (Lanes { st: state@, fwd: fwd@, rev: rev@ }),
        decreases k,
    {
        let ghost rest = src@.skip(k as int);
        let a: usize = k - 32;
        let chunk: &[u8] = &src[a..k];
        proof {
            lemma_codable_part(f, src@, a as int, k as int);
            let t = src@.skip(a as int);
            assert(t.skip(32) =~= rest);
            assert(t.take(32) =~= chunk@);
        }
        ans32_put(&mut state, &mut fwd, chunk, stats, 0, 16);
        ans32_put(&mut state, &mut rev, chunk, stats, 16, 32);
        k = a;
    }
    assert(src@.skip(0) =~= src@);
    let mut out: Vec<u8> = Vec::new();
    push_states(&state, 0, 16, &mut out);
    let ghost head = out@;
    let mut i: usize = fwd.len();
    assert(head + ans1::word_bytes(fwd@.reverse().take(0)) =~= head);
    while i > 0
        invariant
            i <= fwd@.len(),
            out@ == head + ans1::word_bytes(fwd@.reverse().take(fwd@.len() - i)),
        decreases i,
    {
        i = i - 1;
        push_u16(&mut out, fwd[i]);
        proof {
            let r = fwd@.reverse();
            let m = fwd@.len() - i;
            ans1::lemma_word_bytes_push(r.take(m - 1), fwd@[i as int]);
            assert(r.take(m) =~= r.take(m - 1).push(fwd@[i as int]));
            assert(out@ =~= head + ans1::word_bytes(r.take(m)));
        }
    }
    assert(fwd@.reverse().take(fwd@.len() as int) =~= fwd@.reverse());
    let ghost mid = out@;
    assert(mid + ans1::word_bytes(rev@.take(0)) =~= mid);
    while i < rev.len()
        invariant
            i <= rev@.len(),
            out@ == mid + ans1::word_bytes(rev@.take(i as int)),
        decreases rev.len() - i,
    {
        push_u16(&mut out, rev[i]);
        proof {
            ans1::lemma_word_bytes_push(rev@.take(i as int), rev@[i as int]);
            assert(rev@.take(i + 1) =~= rev@.take(i as int).push(rev@[i as int]));
            assert(out@ =~= mid + ans1::word_bytes(rev@.take(i + 1)));
        }
        i = i + 1;
    }
    assert(rev@.take(rev@.len() as int) =~= rev@);
    push_states(&state, 16, 32, &mut out);
    assert(out@ =~= stream_of(f, src@));
    out
}

proof fn lemma_put_none(f: Seq<u32>, st: Seq<u32>, w: Seq<u16>, chunk: Seq<u8>, lo: int, hi: int)
    requires
        chunk.len() == 0,
        0 <= lo,
    ensures
        put_lanes(f, st, w, chunk, lo, hi) == (st, w),
    decreases hi - lo,
{
    if lo < hi {
        lemma_put_none(f, st, w, chunk, lo + 1, hi);
    }
}

/// Encodes `src` on 32 interleaved lanes. The length is not stored.
pub fn ans32_encode(src: &[u8]) -> (out: Vec<u8>)
    requires
        src@.len() <= u32::MAX,
    ensures
        out@ == coded(src@),
{
    let stats = Stats::observe(src, 256);
    proof {
        ans1::lemma_model_codable(src@, 256);
    }
    let mut out: Vec<u8> = ans32_compress(src, &stats);
    encode_marked_table(&stats.freq, &mut out);
    out
}

/// Encodes `src` exactly as [`ans32_encode`] does.
pub fn ans32_encode_simd(src: &[u8]) -> (out: Vec<u8>)
    requires
        src@.len() <= u32::MAX,
    ensures
        out@ == coded(src@),
{
    ans32_encode(src)
}

/// Refills the lanes 0 to 15, reading forwards; the result is the new cursor.
fn refill_front(state: &mut Vec<u32>, s: &[u8], start: usize) -> (r: Option<usize>)
    requires
        old(state)@.len() == 32,
        start <= s@.len(),
    ensures
        final(state)@.len() == 32,
        match r {
            None => refill_fwd(old(state)@, s@, start as int, 0) is None,
            Some(d) => d <= s@.len() && refill_fwd(old(state)@, s@, start as int, 0) == Some(
                (final(state)@, d as int),
            ),
        },
{
    let ghost all = refill_fwd(state@, s@, start as int, 0);
    let mut c: usize = start;
    let mut l: usize = 0;
    while l < 16
        invariant
            all == refill_fwd(old(state)@, s@, start as int, 0),
            l <= 16,
            state@.len() == 32,
            c <= s@.len(),
            all == refill_fwd(state@, s@, c as int, l as int),
        decreases 16 - l,
    {
        if state[l] < rans::STATE_LOW {
            if s.len() - c < 2 {
                return None;
            }
            state[l] = state[l] * 65536 + get_u16(s, c) as u32;
            c = c + 2;
        }
        l = l + 1;
    }
    Some(c)
}

/// Refills the lanes 16 to 31, reading backwards; the result is the new cursor.
fn refill_back(state: &mut Vec<u32>, s: &[u8], start: usize) -> (r: Option<usize>)
    requires
        old(state)@.len() == 32,
        start <= s@.len(),
    ensures
        final(state)@.len() == 32,
        match r {
            None => refill_rev(old(state)@, s@, start as int, 16) is None,
            Some(d) => d <= s@.len() && refill_rev(old(state)@, s@, start as int, 16) == Some(
                (final(state)@, d as int),
            ),
        },
{
    let ghost all = refill_rev(state@, s@, start as int, 16);
    let mut c: usize = start;
    let mut l: usize = 16;
    while l < 32
        invariant
            all == refill_rev(old(state)@, s@, start as int, 16),
            16 <= l <= 32,
            state@.len() == 32,
            c <= s@.len(),
            all == refill_rev(state@, s@, c as int, l as int),
        decreases 32 - l,
    {
        if state[l] < rans::STATE_LOW {
            if c < 2 {
                return None;
            }
            c = c - 2;
            state[l] = state[l] * 65536 + get_u16(s, c) as u32;
        }
        l = l + 1;
    }
    Some(c)
}

/// Takes one symbol off each of the first `n` lanes.
fn take_row(tab: &Vec<u32>, state: &mut Vec<u32>, n: usize, dst: &mut Vec<u8>)
    requires
        tab@.len() == 4096,
        old(state)@.len() == 32,
        n <= 32,
    ensures
        final(state)@.len() == 32,
        final(dst)@ == old(dst)@ + row(tab@, old(state)@, n as int),
        n == 32 ==> final(state)@ == taken(tab@, old(state)@),
{
    let mut l: usize = 0;
    assert(dst@ =~= old(dst)@ + row(tab@, old(state)@, 0));
    while l < n
        invariant
            l <= n <= 32,
            tab@.len() == 4096,
            old(state)@.len() == 32,
            state@.len() == 32,
            forall|i: int| l <= i < 32 ==> state@[i] == old(state)@[i],
            forall|i: int| 0 <= i < l ==> state@[i] == taken(tab@, old(state)@)[i],
            dst@ == old(dst)@ + row(tab@, old(state)@, l as int),
        decreases n - l,
    {
        let x: u32 = state[l];
        let (b, y): (u8, u32) = take(tab[(x % 4096) as usize], x);
        state[l] = y;
        dst.push(b);
        l = l + 1;
        assert(dst@ =~= old(dst)@ + row(tab@, old(state)@, l as int));
    }
    if n == 32 {
        assert(state@ =~= taken(tab@, old(state)@));
    }
}

/// Decodes `dst_len` symbols.
pub fn ans32_decode(src: &[u8], dst_len: usize) -> (r: Result<Vec<u8>, Error>)
    ensures
        match r {
            Ok(out) => decoded(src@, dst_len as int) == Ok::<Seq<u8>, Error>(out@),
            Err(e) => decoded(src@, dst_len as int) == Err::<Seq<u8>, Error>(e),
        },
{
    let (tab, stream): (Vec<u32>, &[u8]) = match ans_decode_table(src) {
        Ok(p) => p,
        Err(e) => {
            return Err(e);
        },
    };
    let len: usize = stream.len();
    if len < 128 {
        return Err(Error::WrongSourceSize);
    }
    let mut state: Vec<u32> = Vec::new();
    let mut l: usize = 0;
    while l < 32
        invariant
            l <= 32,
            len == stream@.len(),
            len >= 128,
            state@.len() == l,
            forall|i: int| 0 <= i < l ==> state@[i] == stored_states(stream@)[i],
        decreases 32 - l,
    {
        let at: usize = if l < 16 {
            4 * l
        } else {
            len - 128 + 4 * l
        };
        state.push(get_u32(stream, at));
        l = l + 1;
    }
    assert(state@ =~= stored_states(stream@));
    let mut cf: usize = 64;
    let mut cr: usize = len - 64;
    let mut dst: Vec<u8> = Vec::new();
    let mut left: usize = dst_len;
    let ghost all = symbols(
        tab@,
        stream@,
        stored_states(stream@),
        64,
        len - 64,
        dst_len as int,
    );
    proof {
        match all {
            None => {},
            Some(r) => {
                assert(dst@ + r =~= r);
            },
        }
    }
    while left >= 32
        invariant
            left <= dst_len,
            tab@.len() == 4096,
            state@.len() == 32,
            cf <= stream@.len(),
            cr <= stream@.len(),
            match symbols(tab@, stream@, state@, cf as int, cr as int, left as int) {
                None => all is None,
                Some(r) => all == Some(dst@ + r),
            },
            table::split(src@) matches Ok((f, s)) && tab@ == rans::dense(f) && stream@ == s,
            len == stream@.len(),
            len >= 128,
            all == symbols(
                tab@,
                stream@,
                stored_states(stream@),
                64,
                len - 64,
                dst_len as int,
            ),
        decreases left,
    {
        let ghost before = dst@;
        let ghost st = state@;
        take_row(&tab, &mut state, 32, &mut dst);
        cf =
        match refill_front(&mut state, stream, cf) {
            None => {
                return Err(Error::OutOfInputData);
            },
            Some(c) => c,
        };
        cr =
        match refill_back(&mut state, stream, cr) {
            None => {
                return Err(Error::OutOfInputData);
            },
            Some(c) => c,
        };
        left = left - 32;
        proof {
            match symbols(tab@, stream@, state@, cf as int, cr as int, left as int) {
                None => {},
                Some(r) => {
                    assert(before + (row(tab@, st, 32) + r) =~= dst@ + r);
                },
            }
        }
    }
    let ghost before = dst@;
    let ghost st = state@;
    take_row(&tab, &mut state, left, &mut dst);
    proof {
        if left == 0 {
            assert(before + Seq::<u8>::empty() =~= before);
            assert(row(tab@, st, 0) =~= Seq::<u8>::empty());
        }
    }
    Ok(dst)
}

/// Decodes exactly as [`ans32_decode`] does.
pub fn ans32_decode_simd(src: &[u8], dst_len: usize) -> (r: Result<Vec<u8>, Error>)
    ensures
        match r {
            Ok(out) => decoded(src@, dst_len as int) == Ok::<Seq<u8>, Error>(out@),
            Err(e) => decoded(src@, dst_len as int) == Err::<Seq<u8>, Error>(e),
        },
{
    ans32_decode(src, dst_len)
}

} // verus!
