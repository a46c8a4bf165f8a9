//! The nibble coder: one rANS state over sixteen symbols. Every byte is two
//! symbols, its low nibble and then its high nibble.
use crate::ans1;
use crate::ans1::{encode_stream, next_symbol};
use crate::bytes;
use crate::bytes::get_u32;
use crate::error::Error;
use crate::model;
use crate::rans;
use crate::rans::Stats;
use crate::table;
use crate::table::{decode_table, encode_table};
use vstd::prelude::*;

verus! {

/// The nibbles of `src`: of each byte the low one and then the high one.
pub open spec fn nibbles(src: Seq<u8>) -> Seq<u8> {
    Seq::new(
        2 * src.len(),
        |i: int|
            if i % 2 == 0 {
                (src[i / 2] as int % 16) as u8
            } else {
                (src[i / 2] as int / 16) as u8
            },
    )
}

/// Nibbles joined to bytes, the low one first.
pub open spec fn joined(n: Seq<u8>) -> Seq<u8> {
    Seq::new((n.len() / 2) as nat, |i: int| (n[2 * i] + 16 * n[2 * i + 1]) as u8)
}

/// The coded form of `src`: stream, table.
pub open spec fn coded(src: Seq<u8>) -> Seq<u8> {
    let s = nibbles(src);
    let f = model::frequencies(model::counts(s, 16));
    ans1::stream_of(f, s) + table::table_bytes(f)
}

/// What the coded block `src` holds, if it holds `n` bytes.
pub open spec fn decoded(src: Seq<u8>, n: int) -> Result<Seq<u8>, Error> {
    match table::parse(src, 16) {
        Err(e) => Err(e),
        Ok((f, p)) => if p < 4 {
            Err(Error::WrongSourceSize)
        } else {
            let s = src.take(p);
            match ans1::symbols(rans::dense(f), s, p - 4, bytes::u32_at(s, p - 4), 2 * n) {
                None => Err(Error::OutOfInputData),
                Some(r) => Ok(joined(r)),
            }
        },
    }
}

/// Decoding the coded form of a sequence gives back the sequence.
pub proof fn lemma_roundtrip(src: Seq<u8>)
    requires
        2 * src.len() <= u32::MAX,
    ensures
        decoded(coded(src), src.len() as int) == Ok::<Seq<u8>, Error>(src),
{
    let s = nibbles(src);
    let f = model::frequencies(model::counts(s, 16));
    ans1::lemma_model_codable(s, 16);
    let (x, w) = ans1::encoded(f, s);
    let t = ans1::stream_of(f, s);
    let at = ans1::word_bytes(w).len() as int;
    table::lemma_table_roundtrip(t, f);
    ans1::lemma_encoded_state(f, s);
    assert(coded(src).take(t.len() as int) =~= t);
    assert(t.subrange(at, at + 4) =~= bytes::le32(x));
    bytes::lemma_read_le32(t, at, x);
    assert(t.take(at) =~= ans1::word_bytes(w));
    ans1::lemma_symbols_of_encoded(f, s, t);
    assert(joined(s) =~= src);
}

/// What a decoded block says. With the frequencies `f` behind the first `p` bytes,
/// decoding gives `r` exactly if states lead through the nibbles of `r`, of each byte
/// the low one first, the first state standing in the last four of these bytes.
pub proof fn lemma_decoded_symbols(src: Seq<u8>, f: Seq<u32>, p: int, r: Seq<u8>)
    requires
        table::parse(src, 16) == Ok::<(Seq<u32>, int), Error>((f, p)),
        forall|i: int| 0 <= i < f.len() ==> f[i] <= 4095,
        4 <= p <= src.len(),
    ensures
        ({
            let s = src.take(p);
            let q = Seq::new(
                2 * r.len(),
                |i: int|
                    (if i % 2 == 0 {
                        r[i / 2] % 16
                    } else {
                        r[i / 2] / 16
                    }) as u8,
            );
            decoded(src, r.len() as int) == Ok::<Seq<u8>, Error>(r) <==> exists|
                xs: Seq<int>,
                cs: Seq<int>,
            | #[trigger]
                ans1::trace(f, s, q, xs, cs) && cs[0] == p - 4 && xs[0] == s[p - 4] + 256 * s[p - 3]
                    + 65536 * s[p - 2] + 16777216 * s[p - 1]
        }),
{
    let s = src.take(p);
    let n = r.len() as int;
    let at = p - 4;
    let x = bytes::u32_at(s, at);
    let q = Seq::new(
        2 * r.len(),
        |i: int|
            (if i % 2 == 0 {
                r[i / 2] % 16
            } else {
                r[i / 2] / 16
            }) as u8,
    );
    table::lemma_parse_shape(src, 16);
    let all = ans1::symbols(rans::dense(f), s, at, x, 2 * n);
    if decoded(src, n) == Ok::<Seq<u8>, Error>(r) {
        let (xs, cs) = ans1::lemma_symbols_trace(f, s, at, x, 2 * n);
        let t = all.unwrap();
        ans1::lemma_symbols_prefix(rans::dense(f), s, at, x, 2 * n, 2 * n);
        lemma_all_small(f, s, t, xs, cs);
        assert(t =~= q) by {
            assert forall|i: int| 0 <= i < 2 * n implies t[i] == q[i] by {
                let k = i / 2;
                assert(r[k] == (t[2 * k] + 16 * t[2 * k + 1]) as u8);
                assert(t[2 * k] < 16 && t[2 * k + 1] < 16);
            }
        }
        assert(ans1::trace(f, s, q, xs, cs));
    }
    if exists|xs: Seq<int>, cs: Seq<int>| #[trigger]
        ans1::trace(f, s, q, xs, cs) && cs[0] == at && xs[0] == x {
        let (xs, cs) = choose|xs: Seq<int>, cs: Seq<int>| #[trigger]
            ans1::trace(f, s, q, xs, cs) && cs[0] == at && xs[0] == x;
        ans1::lemma_trace_symbols(f, s, q, xs, cs);
        assert(joined(q) =~= r);
    }
}

proof fn lemma_all_small(f: Seq<u32>, s: Seq<u8>, t: Seq<u8>, xs: Seq<int>, cs: Seq<int>)
    requires
        f.len() == 16,
        ans1::trace(f, s, t, xs, cs),
    ensures
        forall|i: int| 0 <= i < t.len() ==> #[trigger] t[i] < 16,
{
    assert forall|i: int| 0 <= i < t.len() implies #[trigger] t[i] < 16 by {
        assert(ans1::leads(f, s, xs[i], cs[i], t[i] as int, xs[i + 1], cs[i + 1]));
    }
}

/// Decoding fewer bytes of a block gives the first of those that decoding more gives.
pub proof fn lemma_decoded_prefix(src: Seq<u8>, m: int, n: int)
    requires
        0 <= m <= n,
    ensures
        decoded(src, n) matches Ok(r) ==> r.len() == n && decoded(src, m) == Ok::<Seq<u8>, Error>(
            r.take(m),
        ),
{
    if let Ok((f, p)) = table::parse(src, 16) {
        if p >= 4 {
            let s = src.take(p);
            let x = bytes::u32_at(s, p - 4);
            ans1::lemma_symbols_prefix(rans::dense(f), s, p - 4, x, 2 * m, 2 * n);
            if let Some(r) = ans1::symbols(rans::dense(f), s, p - 4, x, 2 * n) {
                assert(joined(r.take(2 * m)) =~= joined(r).take(m));
            }
        }
    }
}

/// The model that is stored with a text is that of the histogram of its nibbles, and
/// the stream is the one that it gives.
pub proof fn lemma_coded_model(src: Seq<u8>, b: u8) -> (r: (
    Seq<u32>,
    Seq<u8>,
    Seq<int>,
    Seq<int>,
))
    requires
        2 * src.len() <= u32::MAX,
        b < 16,
    ensures
        ({
            let (f, s, xs, cs) = r;
            let q = Seq::new(
                2 * src.len(),
                |i: int|
                    (if i % 2 == 0 {
                        src[i / 2] % 16
                    } else {
                        src[i / 2] / 16
                    }) as u8,
            );
            let n = q.len() as int;
            let k = s.len() as int;
            let share = q.to_multiset().count(b) as int;
            &&& table::parse(coded(src), 16) == Ok::<(Seq<u32>, int), Error>((f, k))
            &&& coded(src).take(k) == s
            &&& f == model::frequencies(model::multiplicities(q, 16))
            &&& n > 0 ==> (share == 0 <==> f[b as int] == 0)
            &&& (forall|a: u8| #[trigger] q.to_multiset().count(a) < n) ==> {
                &&& f[b as int] == 1 || n * f[b as int] < 4096 * share + n
                &&& n * f[b as int] > 4096 * share - n * (1 + model::rare(
                    model::multiplicities(q, 16),
                    16,
                ))
            }
            &&& 4 <= k
            &&& ans1::trace(f, s, q, xs, cs)
            &&& cs[0] == k - 4
            &&& xs[0] == s[k - 4] + 256 * s[k - 3] + 65536 * s[k - 2] + 16777216 * s[k - 1]
            &&& xs[n] == 65536
            &&& cs[n] == 0
        }),
{
    let q = nibbles(src);
    assert(q =~= Seq::new(
        2 * src.len(),
        |i: int|
            (if i % 2 == 0 {
                src[i / 2] % 16
            } else {
                src[i / 2] / 16
            }) as u8,
    ));
    let f = model::frequencies(model::counts(q, 16));
    ans1::lemma_model_codable(q, 16);
    model::lemma_model_of(q, 16, b);
    let (x, w) = ans1::encoded(f, q);
    let t = ans1::stream_of(f, q);
    let at = ans1::word_bytes(w).len() as int;
    table::lemma_table_roundtrip(t, f);
    ans1::lemma_encoded_state(f, q);
    assert(coded(src).take(t.len() as int) =~= t);
    assert(t.subrange(at, at + 4) =~= bytes::le32(x));
    bytes::lemma_read_le32(t, at, x);
    assert(t.take(at) =~= ans1::word_bytes(w));
    let (xs, cs) = ans1::lemma_encoded_trace(f, q, t);
    (f, t, xs, cs)
}

/// A coded text is as short as its model allows: its stream has no more bits than its
/// nibbles cost, an eighth of a bit for each, and 32 for the final state. The table takes
/// at most 30 bytes.
pub proof fn lemma_coded_size(src: Seq<u8>)
    requires
        2 * src.len() <= u32::MAX,
    ensures
        table::parse(coded(src), 16) matches Ok((f, k)) && {
            let q = Seq::new(
                2 * src.len(),
                |i: int|
                    (if i % 2 == 0 {
                        src[i / 2] % 16
                    } else {
                        src[i / 2] / 16
                    }) as u8,
            );
            &&& 8 * k <= ans1::bits(f, q) + (q.len() + 7) / 8 + 32
            &&& coded(src).len() <= k + 30
        },
{
    let q = nibbles(src);
    assert(q =~= Seq::new(
        2 * src.len(),
        |i: int|
            (if i % 2 == 0 {
                src[i / 2] % 16
            } else {
                src[i / 2] / 16
            }) as u8,
    ));
    let f = model::frequencies(model::counts(q, 16));
    ans1::lemma_model_codable(q, 16);
    table::lemma_table_roundtrip(ans1::stream_of(f, q), f);
    table::lemma_table_bound(f);
    ans1::lemma_stream_size(f, q);
}

/// Symbols taken from a table of sixteen are nibbles.
proof fn lemma_symbols_small(f: Seq<u32>, s: Seq<u8>, cursor: int, x: int)
    requires
        f.len() == 16,
        model::total(f) <= 4096,
        0 <= x,
        ans1::step(rans::dense(f), s, cursor, x) is Some,
    ensures
        ans1::step(rans::dense(f), s, cursor, x).unwrap().0 < 16,
{
    let slot = x % 4096;
    if slot < model::total(f) {
        rans::lemma_owner_exists(f, slot, 16);
        let o = choose|o: int| rans::owns(f, o, slot);
        rans::lemma_dense_at(f, o, slot);
        model::lemma_sum_monotone(f, 0, o);
        model::lemma_sum_monotone(f, o + 1, 16);
        rans::lemma_pack_sym(o as u32, (slot - model::sum(f, o)) as u32, f[o]);
    }
}

/// Splits bytes into nibbles.
fn unpack(src: &[u8]) -> (n: Vec<u8>)
    ensures
        n@ == nibbles(src@),
{
    let mut n: Vec<u8> = Vec::new();
    let mut i: usize = 0;
    while i < src.len()
        invariant
            i <= src@.len(),
            n@ =~= nibbles(src@.take(i as int)),
        decreases src.len() - i,
    {
        n.push(src[i] % 16);
        n.push(src[i] / 16);
        i = i + 1;
    }
    assert(src@.take(i as int) =~= src@);
    n
}

/// Encodes `src` nibble by nibble. The length is not stored.
pub fn ans_nibble_encode(src: &[u8]) -> (out: Vec<u8>)
    requires
        2 * src@.len() <= u32::MAX,
    ensures
        out@ == coded(src@),
{
    let symbols: Vec<u8> = unpack(src);
    let stats = Stats::observe(&symbols, 16);
    proof {
        ans1::lemma_model_codable(symbols@, 16);
    }
    let mut out: Vec<u8> = Vec::new();
    encode_stream(&stats, &symbols, &mut out);
    encode_table(&stats.freq, &mut out);
    assert(out@ =~= coded(src@));
    out
}

/// Decodes `dst_len` bytes.
pub fn ans_nibble_decode(src: &[u8], dst_len: usize) -> (r: Result<Vec<u8>, Error>)
    ensures
        match r {
            Ok(out) => decoded(src@, dst_len as int) == Ok::<Seq<u8>, Error>(out@),
            Err(e) => decoded(src@, dst_len as int) == Err::<Seq<u8>, Error>(e),
        },
{
    let (tab, p): (Vec<u32>, usize) = match decode_table(src, 16) {
        Ok(q) => q,
        Err(e) => {
            return Err(e);
        },
    };
    if p < 4 {
        return Err(Error::WrongSourceSize);
    }
    let stream: &[u8] = &src[0..p];
    assert(stream@ =~= src@.take(p as int));
    let ghost f = table::parse(src@, 16).unwrap().0;
    proof {
        table::lemma_parse_shape(src@, 16);
    }
    let mut cursor: usize = p - 4;
    let mut x: u32 = get_u32(stream, cursor);
    let mut dst: Vec<u8> = Vec::new();
    let ghost all = ans1::symbols(tab@, stream@, cursor as int, x as int, 2 * dst_len);
    let ghost mut got: Seq<u8> = seq![];
    while dst.len() < dst_len
        invariant
            dst@.len() <= dst_len,
            tab@ == rans::dense(f),
            f.len() == 16,
            model::total(f) <= 4096,
            cursor <= stream@.len(),
            got.len() == 2 * dst@.len(),
            dst@ == joined(got),
            match ans1::symbols(
                tab@,
                stream@,
                cursor as int,
                x as int,
                2 * dst_len - 2 * dst@.len(),
            ) {
                None => all is None,
                Some(r) => all == Some(got + r),
            },
            p >= 4,
            stream@ == src@.take(p as int),
            table::parse(src@, 16) == Ok::<(Seq<u32>, int), Error>((f, p as int)),
            all == ans1::symbols(
                rans::dense(f),
                stream@,
                p - 4,
                bytes::u32_at(stream@, p - 4),
                2 * dst_len,
            ),
        decreases dst_len - dst.len(),
    {
        let ghost n = 2 * dst_len - 2 * dst@.len();
        let (lo, c, y): (u8, usize, u32) = match next_symbol(&tab, stream, cursor, x) {
            None => {
                return Err(Error::OutOfInputData);
            },
            Some(q) => q,
        };
        let (hi, d, z): (u8, usize, u32) = match next_symbol(&tab, stream, c, y) {
            None => {
                proof {
                    assert(ans1::symbols(tab@, stream@, c as int, y as int, n - 1) is None);
                }
                return Err(Error::OutOfInputData);
            },
            Some(q) => q,
        };
        proof {
            lemma_symbols_small(f, stream@, cursor as int, x as int);
            lemma_symbols_small(f, stream@, c as int, y as int);
            match ans1::symbols(tab@, stream@, d as int, z as int, n - 2) {
                None => {
                    assert(ans1::symbols(tab@, stream@, c as int, y as int, n - 1) is None);
                },
                Some(r) => {
                    assert(ans1::symbols(tab@, stream@, c as int, y as int, n - 1) == Some(
                        seq![hi] + r,
                    ));
                    assert(got + (seq![lo] + (seq![hi] + r)) =~= got + seq![lo, hi] + r);
                },
            }
            got = got + seq![lo, hi];
        }
        cursor = d;
        x = z;
        dst.push(lo + 16 * hi);
        assert(dst@ =~= joined(got));
    }
    assert(got + Seq::<u8>::empty() =~= got);
    Ok(dst)
}

} // verus!
