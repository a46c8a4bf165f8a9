//! The one-way byte coder: one rANS state, symbols put back to front.
use crate::bytes;
use crate::bytes::{get_u16, get_u32, push_u16, push_u32};
use crate::error::Error;
use crate::model;
use crate::rans;
use crate::rans::{take, Stats};
use crate::table;
use crate::table::{ans_decode_table, encode_marked_table};
use vstd::arithmetic::power::*;
use vstd::prelude::*;

verus! {

// ---------------------------------------------------------------------------
// Encoding
// ---------------------------------------------------------------------------
/// The state and the emitted words after `src` has been put, last symbol first.
pub open spec fn encoded(f: Seq<u32>, src: Seq<u8>) -> (int, Seq<u16>)
    decreases src.len(),
{
    if src.len() == 0 {
        (65536, seq![])
    } else {
        let (x, w) = encoded(f, src.drop_first());
        let s = src[0] as int;
        (rans::put(x, f[s] as int, model::sum(f, s)), w + rans::words_of(x, f[s] as int))
    }
}

/// Words as bytes, the low byte first.
pub open spec fn word_bytes(w: Seq<u16>) -> Seq<u8> {
    Seq::new(
        2 * w.len(),
        |i: int|
            if i % 2 == 0 {
                (w[i / 2] as int % 256) as u8
            } else {
                (w[i / 2] as int / 256) as u8
            },
    )
}

/// Words and final state of `src` under the frequencies `f`.
pub open spec fn stream_of(f: Seq<u32>, src: Seq<u8>) -> Seq<u8> {
    let (x, w) = encoded(f, src);
    word_bytes(w) + bytes::le32(x)
}

/// The coded form of `src`: stream, table, marker.
pub open spec fn coded(src: Seq<u8>) -> Seq<u8> {
    let f = model::frequencies(model::counts(src, 256));
    stream_of(f, src) + table::table_bytes(f) + seq![0u8]
}

// ---------------------------------------------------------------------------
// Decoding
// ---------------------------------------------------------------------------
/// The symbol at state `x`, with the cursor and the state after it; a word of
/// `s` before `cursor` is read where the state has become too low. `None` if the
/// words have run out.
pub open spec fn step(tab: Seq<u32>, s: Seq<u8>, cursor: int, x: int) -> Option<(u8, int, int)> {
    let t = tab[x % 4096];
    let y = rans::get(t, x);
    if y >= 65536 {
        Some((rans::entry_sym(t), cursor, y))
    } else if cursor < 2 {
        None
    } else {
        Some((rans::entry_sym(t), cursor - 2, y * 65536 + bytes::u16_at(s, cursor - 2)))
    }
}

/// The next `n` symbols from state `x`, reading words of `s` backwards from
/// `cursor`; `None` if the words run out.
pub open spec fn symbols(tab: Seq<u32>, s: Seq<u8>, cursor: int, x: int, n: int) -> Option<Seq<u8>>
    decreases n,
{
    if n <= 0 {
        Some(seq![])
    } else {
        match step(tab, s, cursor, x) {
            None => None,
            Some((b, c, y)) => match symbols(tab, s, c, y, n - 1) {
                None => None,
                Some(r) => Some(seq![b] + r),
            },
        }
    }
}

/// What the coded block `src` holds, if it holds `n` symbols.
pub open spec fn decoded(src: Seq<u8>, n: int) -> Result<Seq<u8>, Error> {
    match table::split(src) {
        Err(e) => Err(e),
        Ok((f, s)) => if s.len() < 4 {
            Err(Error::WrongSourceSize)
        } else {
            let at = s.len() - 4;
            match symbols(rans::dense(f), s, at, bytes::u32_at(s, at), n) {
                None => Err(Error::OutOfInputData),
                Some(r) => Ok(r),
            }
        },
    }
}

// ---------------------------------------------------------------------------
// Decoding undoes encoding
// ---------------------------------------------------------------------------
/// Every symbol of `src` has a slot.
pub open spec fn codable(f: Seq<u32>, src: Seq<u8>) -> bool {
    &&& model::usable(f)
    &&& f.len() <= 256
    &&& forall|i: int| 0 <= i < src.len() ==> src[i] < f.len() && f[src[i] as int] != 0
}

/// The model of a sequence can code the sequence.
pub proof fn lemma_model_codable(src: Seq<u8>, n: int)
    requires
        2 <= n <= 256,
        src.len() <= u32::MAX,
        forall|i: int| 0 <= i < src.len() ==> src[i] < n,
    ensures
        codable(model::frequencies(model::counts(src, n)), src),
        model::frequencies(model::counts(src, n)).len() == n,
{
    let f = model::frequencies(model::counts(src, n));
    model::lemma_frequencies(model::counts(src, n));
    assert forall|i: int| 0 <= i < src.len() implies src[i] < f.len() && f[src[i] as int] != 0 by {
        rans::lemma_model_covers(src, n, i);
    }
}

/// A table for a text is one for the rest of it.
pub proof fn lemma_codable_rest(f: Seq<u32>, src: Seq<u8>)
    requires
        codable(f, src),
        src.len() > 0,
    ensures
        codable(f, src.drop_first()),
{
    assert forall|i: int| 0 <= i < src.drop_first().len() implies src.drop_first()[i] < f.len()
        && f[src.drop_first()[i] as int] != 0 by {
        assert(src.drop_first()[i] == src[i + 1]);
    }
}

/// Encoding ends in a state of the coder.
pub proof fn lemma_encoded_state(f: Seq<u32>, src: Seq<u8>)
    requires
        codable(f, src),
    ensures
        rans::is_state(encoded(f, src).0),
    decreases src.len(),
{
    if src.len() > 0 {
        lemma_codable_rest(f, src);
        lemma_encoded_state(f, src.drop_first());
        assert(src[0] < f.len());
        rans::lemma_put_get(f, src[0] as int, encoded(f, src.drop_first()).0);
    }
}

/// The bytes of one more word come last.
pub proof fn lemma_word_bytes_push(w: Seq<u16>, v: u16)
    ensures
        word_bytes(w.push(v)) == word_bytes(w) + bytes::le16(v as int),
{
    assert(word_bytes(w.push(v)) =~= word_bytes(w) + bytes::le16(v as int));
}

/// Taking symbols from what was encoded gives them back.
pub proof fn lemma_symbols_of_encoded(f: Seq<u32>, src: Seq<u8>, s: Seq<u8>)
    requires
        codable(f, src),
        word_bytes(encoded(f, src).1).len() <= s.len(),
        s.take(word_bytes(encoded(f, src).1).len() as int) == word_bytes(encoded(f, src).1),
    ensures
        symbols(
            rans::dense(f),
            s,
            2 * encoded(f, src).1.len() as int,
            encoded(f, src).0,
            src.len() as int,
        ) == Some(src),
    decreases src.len(),
{
    if src.len() == 0 {
        assert(src =~= seq![]);
    } else {
        let rest = src.drop_first();
        let (x, w) = encoded(f, rest);
        let b = src[0] as int;
        let (z, w2) = encoded(f, src);
        lemma_codable_rest(f, src);
        lemma_encoded_state(f, rest);
        assert(src[0] < f.len());
        rans::lemma_put_get(f, b, x);
        let wb = word_bytes(w);
        let k = wb.len() as int;
        if rans::emits(x, f[b] as int) {
            let v = (x % 65536) as u16;
            assert(w2 =~= w.push(v));
            lemma_word_bytes_push(w, v);
            assert(s.take(k) =~= wb) by {
                assert forall|i: int| 0 <= i < k implies s[i] == wb[i] by {
                    assert(s.take(k + 2)[i] == word_bytes(w2)[i]);
                }
            }
            assert(bytes::u16_at(s, k) == v) by {
                assert(s.take(k + 2)[k] == word_bytes(w2)[k]);
                assert(s.take(k + 2)[k + 1] == word_bytes(w2)[k + 1]);
            }
        } else {
            assert(w2 =~= w);
        }
        lemma_symbols_of_encoded(f, rest, s);
        assert(seq![src[0]] + rest =~= src);
    }
}

/// Decoding the coded form of a sequence gives back the sequence.
pub proof fn lemma_roundtrip(src: Seq<u8>)
    requires
        src.len() <= u32::MAX,
    ensures
        decoded(coded(src), src.len() as int) == Ok::<Seq<u8>, Error>(src),
{
    let f = model::frequencies(model::counts(src, 256));
    model::lemma_frequencies(model::counts(src, 256));
    lemma_model_codable(src, 256);
    let (x, w) = encoded(f, src);
    let s = stream_of(f, src);
    let at = word_bytes(w).len() as int;
    table::lemma_split(s, f);
    lemma_encoded_state(f, src);
    assert(s.subrange(at, at + 4) =~= bytes::le32(x));
    bytes::lemma_read_le32(s, at, x);
    assert(s.take(at) =~= word_bytes(w));
    lemma_symbols_of_encoded(f, src, s);
}

// ---------------------------------------------------------------------------
// What a coded block says, symbol by symbol
// ---------------------------------------------------------------------------
/// State `x` holds the symbol `b`, and `y` is the state after it. Where what is left
/// falls below 65536, the two bytes of `s` before `c` come in below it.
pub open spec fn leads(f: Seq<u32>, s: Seq<u8>, x: int, c: int, b: int, y: int, d: int) -> bool {
    exists|z: int| #[trigger]
        rans::holds_symbol(f, x, b, z) && if z >= 65536 {
            y == z && d == c
        } else {
            c >= 2 && d == c - 2 && y == z * 65536 + s[c - 2] + 256 * s[c - 1]
        }
}

/// The states `xs` and the places `cs`, of which there is one more than of symbols,
/// lead from symbol to symbol of `r`.
pub open spec fn trace(f: Seq<u32>, s: Seq<u8>, r: Seq<u8>, xs: Seq<int>, cs: Seq<int>) -> bool {
    &&& xs.len() == r.len() + 1
    &&& cs.len() == r.len() + 1
    &&& forall|i: int|
        0 <= i < r.len() ==> leads(f, s, xs[i], cs[i], (#[trigger] r[i]) as int, xs[i + 1], cs[i + 1])
}

proof fn lemma_leads(f: Seq<u32>, s: Seq<u8>, x: int, c: int, b: u8, y: int, d: int)
    requires
        model::usable(f),
        f.len() <= 256,
        0 <= x < 0x1_0000_0000,
        c <= s.len(),
    ensures
        leads(f, s, x, c, b as int, y, d) <==> step(rans::dense(f), s, c, x) == Some((b, d, y)),
        leads(f, s, x, c, b as int, y, d) ==> 0 <= y < 0x1_0000_0000 && d <= s.len(),
{
    let t = rans::dense(f)[x % 4096];
    let z = rans::get(t, x);
    rans::lemma_get_bound(t, x);
    rans::lemma_holds_symbol(f, x, b as int, z);
    if leads(f, s, x, c, b as int, y, d) {
        let w = choose|w: int| #[trigger]
            rans::holds_symbol(f, x, b as int, w) && if w >= 65536 {
                y == w && d == c
            } else {
                c >= 2 && d == c - 2 && y == w * 65536 + s[c - 2] + 256 * s[c - 1]
            };
        rans::lemma_holds_symbol(f, x, b as int, w);
    }
}

/// Symbols that can be taken leave a trace.
pub proof fn lemma_symbols_trace(f: Seq<u32>, s: Seq<u8>, c: int, x: int, n: int) -> (r: (
    Seq<int>,
    Seq<int>,
))
    requires
        model::usable(f),
        f.len() <= 256,
        0 <= x < 0x1_0000_0000,
        c <= s.len(),
        0 <= n,
        symbols(rans::dense(f), s, c, x, n) is Some,
    ensures
        r.0.len() == n + 1,
        r.0[0] == x,
        r.1[0] == c,
        trace(f, s, symbols(rans::dense(f), s, c, x, n).unwrap(), r.0, r.1),
    decreases n,
{
    let all = symbols(rans::dense(f), s, c, x, n).unwrap();
    if n == 0 {
        (seq![x], seq![c])
    } else {
        let (b, d, y) = step(rans::dense(f), s, c, x).unwrap();
        lemma_leads(f, s, x, c, b, y, d);
        let (xs, cs) = lemma_symbols_trace(f, s, d, y, n - 1);
        let rest = symbols(rans::dense(f), s, d, y, n - 1).unwrap();
        let us = seq![x] + xs;
        let vs = seq![c] + cs;
        assert forall|i: int| 0 <= i < all.len() implies leads(
            f,
            s,
            us[i],
            vs[i],
            (#[trigger] all[i]) as int,
            us[i + 1],
            vs[i + 1],
        ) by {
            if i > 0 {
                assert(all[i] == rest[i - 1]);
            }
        }
        (us, vs)
    }
}

/// A trace gives the symbols that can be taken.
pub proof fn lemma_trace_symbols(f: Seq<u32>, s: Seq<u8>, r: Seq<u8>, xs: Seq<int>, cs: Seq<int>)
    requires
        model::usable(f),
        f.len() <= 256,
        trace(f, s, r, xs, cs),
        0 <= xs[0] < 0x1_0000_0000,
        cs[0] <= s.len(),
    ensures
        symbols(rans::dense(f), s, cs[0], xs[0], r.len() as int) == Some(r),
    decreases r.len(),
{
    if r.len() == 0 {
        assert(r =~= seq![]);
    } else {
        assert(leads(f, s, xs[0], cs[0], r[0] as int, xs[1], cs[1]));
        lemma_leads(f, s, xs[0], cs[0], r[0], xs[1], cs[1]);
        let t = r.drop_first();
        let us = xs.drop_first();
        let vs = cs.drop_first();
        assert forall|i: int| 0 <= i < t.len() implies leads(
            f,
            s,
            us[i],
            vs[i],
            (#[trigger] t[i]) as int,
            us[i + 1],
            vs[i + 1],
        ) by {
            assert(t[i] == r[i + 1]);
        }
        lemma_trace_symbols(f, s, t, us, vs);
        assert(seq![r[0]] + t =~= r);
    }
}

/// What a decoded block says. With the frequencies `f` and the stream `s` in front of
/// them, decoding gives `r` exactly if states lead from one symbol of `r` to the
/// next, the first state standing in the last four bytes of `s` and the words before
/// it being used up from the end.
pub proof fn lemma_decoded_symbols(src: Seq<u8>, f: Seq<u32>, s: Seq<u8>, r: Seq<u8>)
    requires
        table::split(src) == Ok::<(Seq<u32>, Seq<u8>), Error>((f, s)),
        forall|i: int| 0 <= i < f.len() ==> f[i] <= 4095,
        4 <= s.len(),
    ensures
        decoded(src, r.len() as int) == Ok::<Seq<u8>, Error>(r) <==> exists|
            xs: Seq<int>,
            cs: Seq<int>,
        | #[trigger]
            trace(f, s, r, xs, cs) && cs[0] == s.len() - 4 && xs[0] == s[s.len() - 4] + 256 * s[
                s.len() - 3] + 65536 * s[s.len() - 2] + 16777216 * s[s.len() - 1],
{
    let at = s.len() - 4;
    let x = bytes::u32_at(s, at);
    table::lemma_parse_shape(src.drop_last(), 256);
    if decoded(src, r.len() as int) == Ok::<Seq<u8>, Error>(r) {
        let (xs, cs) = lemma_symbols_trace(f, s, at, x, r.len() as int);
        assert(trace(f, s, r, xs, cs));
    }
    if exists|xs: Seq<int>, cs: Seq<int>| #[trigger]
        trace(f, s, r, xs, cs) && cs[0] == at && xs[0] == x {
        let (xs, cs) = choose|xs: Seq<int>, cs: Seq<int>| #[trigger]
            trace(f, s, r, xs, cs) && cs[0] == at && xs[0] == x;
        lemma_trace_symbols(f, s, r, xs, cs);
    }
}

/// The first symbols that can be taken do not depend on how many are.
pub proof fn lemma_symbols_prefix(tab: Seq<u32>, s: Seq<u8>, c: int, x: int, m: int, n: int)
    requires
        0 <= m <= n,
    ensures
        symbols(tab, s, c, x, n) matches Some(r) ==> r.len() == n && symbols(tab, s, c, x, m)
            == Some(r.take(m)),
    decreases n,
{
    if n > 0 {
        if let Some((b, d, y)) = step(tab, s, c, x) {
            if m > 0 {
                lemma_symbols_prefix(tab, s, d, y, m - 1, n - 1);
                if let Some(r) = symbols(tab, s, d, y, n - 1) {
                    assert((seq![b] + r).take(m) =~= seq![b] + r.take(m - 1));
                }
            } else {
                lemma_symbols_prefix(tab, s, d, y, 0, n - 1);
                if let Some(r) = symbols(tab, s, d, y, n - 1) {
                    assert((seq![b] + r).take(0) =~= seq![]);
                }
            }
        }
    } else {
        assert(Seq::<u8>::empty().take(0) =~= seq![]);
    }
}

/// Decoding fewer symbols of a block gives the first of those that decoding more gives.
pub proof fn lemma_decoded_prefix(src: Seq<u8>, m: int, n: int)
    requires
        0 <= m <= n,
    ensures
        decoded(src, n) matches Ok(r) ==> r.len() == n && decoded(src, m) == Ok::<Seq<u8>, Error>(
            r.take(m),
        ),
{
    if let Ok((f, s)) = table::split(src) {
        if s.len() >= 4 {
            let at = s.len() - 4;
            lemma_symbols_prefix(rans::dense(f), s, at, bytes::u32_at(s, at), m, n);
        }
    }
}

/// The words of an encoded text are used up by its symbols, which end in the first
/// state.
pub proof fn lemma_encoded_trace(f: Seq<u32>, src: Seq<u8>, s: Seq<u8>) -> (r: (Seq<int>, Seq<int>))
    requires
        codable(f, src),
        word_bytes(encoded(f, src).1).len() <= s.len(),
        s.take(word_bytes(encoded(f, src).1).len() as int) == word_bytes(encoded(f, src).1),
    ensures
        trace(f, s, src, r.0, r.1),
        r.0[0] == encoded(f, src).0,
        r.1[0] == 2 * encoded(f, src).1.len(),
        r.0[src.len() as int] == 65536,
        r.1[src.len() as int] == 0,
    decreases src.len(),
{
    if src.len() == 0 {
        (seq![65536int], seq![0int])
    } else {
        let rest = src.drop_first();
        let (x, w) = encoded(f, rest);
        let b = src[0] as int;
        let (z, w2) = encoded(f, src);
        lemma_codable_rest(f, src);
        lemma_encoded_state(f, rest);
        lemma_encoded_state(f, src);
        assert(b < f.len() && f[b] != 0);
        rans::lemma_put_get(f, b, x);
        let wb = word_bytes(w);
        let k = wb.len() as int;
        if rans::emits(x, f[b] as int) {
            let v = (x % 65536) as u16;
            assert(w2 =~= w.push(v));
            lemma_word_bytes_push(w, v);
            assert(s.take(k) =~= wb) by {
                assert forall|i: int| 0 <= i < k implies s[i] == wb[i] by {
                    assert(s.take(k + 2)[i] == word_bytes(w2)[i]);
                }
            }
            assert(bytes::u16_at(s, k) == v) by {
                assert(s.take(k + 2)[k] == word_bytes(w2)[k]);
                assert(s.take(k + 2)[k + 1] == word_bytes(w2)[k + 1]);
            }
        } else {
            assert(w2 =~= w);
        }
        let (xs, cs) = lemma_encoded_trace(f, rest, s);
        let c = 2 * w2.len() as int;
        lemma_leads(f, s, z, c, src[0], x, 2 * w.len() as int);
        let us = seq![z] + xs;
        let vs = seq![c] + cs;
        assert forall|i: int| 0 <= i < src.len() implies leads(
            f,
            s,
            us[i],
            vs[i],
            (#[trigger] src[i]) as int,
            us[i + 1],
            vs[i + 1],
        ) by {
            if i > 0 {
                assert(src[i] == rest[i - 1]);
            }
        }
        (us, vs)
    }
}

/// The model that is stored with a text is that of its own histogram: whatever the
/// length, each symbol that occurs has its share of the slots.
pub proof fn lemma_coded_model(src: Seq<u8>, b: u8)
    requires
        src.len() <= u32::MAX,
    ensures
        table::split(coded(src)) matches Ok((f, s)) && {
            let n = src.len() as int;
            let c = model::multiplicities(src, 256);
            let share = src.to_multiset().count(b) as int;
            &&& f == model::frequencies(c)
            &&& f.len() == 256
            &&& n > 0 ==> (share == 0 <==> f[b as int] == 0)
            &&& share == n > 0 ==> f[b as int] == 4095
            &&& (forall|a: u8| #[trigger] src.to_multiset().count(a) < n) ==> {
                &&& model::total(f) == 4096
                &&& f[b as int] == 1 || n * f[b as int] < 4096 * share + n
                &&& n * f[b as int] > 4096 * share - n * (1 + model::rare(c, 256))
            }
        },
{
    let f = model::frequencies(model::counts(src, 256));
    lemma_model_codable(src, 256);
    table::lemma_split(stream_of(f, src), f);
    model::lemma_model_of(src, 256, b);
}

/// A coded text is the one stream that its model gives: its symbols use up all words,
/// and lead to the lowest state.
pub proof fn lemma_coded_stream(src: Seq<u8>) -> (r: (Seq<u32>, Seq<u8>, Seq<int>, Seq<int>))
    requires
        src.len() <= u32::MAX,
    ensures
        ({
            let (f, s, xs, cs) = r;
            let n = s.len() as int;
            &&& table::split(coded(src)) == Ok::<(Seq<u32>, Seq<u8>), Error>((f, s))
            &&& 4 <= n
            &&& trace(f, s, src, xs, cs)
            &&& cs[0] == n - 4
            &&& xs[0] == s[n - 4] + 256 * s[n - 3] + 65536 * s[n - 2] + 16777216 * s[n - 1]
            &&& xs[src.len() as int] == 65536
            &&& cs[src.len() as int] == 0
        }),
{
    let f = model::frequencies(model::counts(src, 256));
    lemma_model_codable(src, 256);
    let (x, w) = encoded(f, src);
    let s = stream_of(f, src);
    let at = word_bytes(w).len() as int;
    table::lemma_split(s, f);
    lemma_encoded_state(f, src);
    assert(s.subrange(at, at + 4) =~= bytes::le32(x));
    bytes::lemma_read_le32(s, at, x);
    assert(s.take(at) =~= word_bytes(w));
    let (xs, cs) = lemma_encoded_trace(f, src, s);
    (f, s, xs, cs)
}

/// What a symbol with `f` of 4096 slots costs in bits, rounded up.
pub open spec fn price(f: int) -> nat
    decreases 8192 - f,
{
    if f <= 0 || f >= 4096 {
        0
    } else {
        1 + price(2 * f)
    }
}

/// What a text costs in bits under the frequencies `f`, each symbol rounded up.
pub open spec fn bits(f: Seq<u32>, src: Seq<u8>) -> nat
    decreases src.len(),
{
    if src.len() == 0 {
        0
    } else {
        price(f[src[0] as int] as int) + bits(f, src.drop_first())
    }
}

proof fn lemma_price(f: int)
    requires
        0 < f,
    ensures
        4096 <= f * pow(2, price(f)),
    decreases 8192 - f,
{
    if f >= 4096 {
        lemma_pow0(2);
    } else {
        lemma_price(2 * f);
        let k = price(2 * f);
        reveal(pow);
        let p = pow(2, k);
        assert(pow(2, k + 1) == 2 * p);
        assert(f * (2 * p) == 2 * f * p) by (nonlinear_arith);
    }
}

proof fn lemma_put_growth(x: int, f: int, c: int, p: int)
    requires
        rans::is_state(x),
        1 <= f <= 4095,
        0 <= c,
        c + f <= 4096,
        4096 <= f * p,
        0 < p,
    ensures
        ({
            let z = rans::put(x, f, c);
            let e = if rans::emits(x, f) {
                65536int
            } else {
                1
            };
            &&& 0 <= z
            &&& 16 * z * e <= 17 * p * x
        }),
{
    let y = rans::shifted(x, f);
    let q = y / f;
    let r = y % f;
    vstd::arithmetic::div_mod::lemma_fundamental_div_mod(y, f);
    vstd::arithmetic::div_mod::lemma_mod_bound(y, f);
    vstd::arithmetic::div_mod::lemma_div_pos_is_pos(y, f);
    let z = rans::put(x, f, c);
    assert(y >= 16 * f);
    assert(16 * z <= 17 * (p * y)) by {
        assert(z * f == 4096 * (f * q) + (r + c) * f) by (nonlinear_arith)
            requires
                z == q * 4096 + r + c,
        ;
        assert((r + c) * f <= 4096 * f) by (nonlinear_arith)
            requires
                r + c <= 4096,
                f >= 1,
        ;
        assert(16 * (z * f) <= 17 * (4096 * y));
        assert(4096 * y <= (f * p) * y) by (nonlinear_arith)
            requires
                4096 <= f * p,
                0 <= y,
        ;
        assert((f * p) * y == f * (p * y)) by (nonlinear_arith);
        assert(16 * (z * f) <= 17 * (f * (p * y)));
        let a = p * y;
        assert(16 * z <= 17 * a) by (nonlinear_arith)
            requires
                16 * (z * f) <= 17 * (f * a),
                f >= 1,
        ;
    }
    assert(0 <= z);
    if rans::emits(x, f) {
        assert(p * (y * 65536) <= p * x) by (nonlinear_arith)
            requires
                y * 65536 <= x,
                0 < p,
        ;
        assert(p * (y * 65536) == p * y * 65536) by (nonlinear_arith);
    }
    assert(17 * p * x == 17 * (p * x)) by (nonlinear_arith);
}

proof fn lemma_words_step(a: int, x: int, u: int, v: int, z: int, e: int, p: int)
    requires
        0 <= a,
        0 <= u,
        0 <= p,
        a * x * u <= 65536 * v,
        16 * z * e <= 17 * p * x,
    ensures
        (a * e) * z * (16 * u) <= 65536 * (17 * v * p),
{
    let b = a * u;
    assert(0 <= b) by (nonlinear_arith)
        requires
            0 <= a,
            0 <= u,
            b == a * u,
    ;
    assert((a * e) * z * (16 * u) == b * (16 * z * e)) by (nonlinear_arith)
        requires
            b == a * u,
    ;
    assert(b * (16 * z * e) <= b * (17 * p * x)) by (nonlinear_arith)
        requires
            16 * z * e <= 17 * p * x,
            0 <= b,
    ;
    assert(b * (17 * p * x) == 17 * p * (a * x * u)) by (nonlinear_arith)
        requires
            b == a * u,
    ;
    let w = a * x * u;
    assert(17 * p * w <= 17 * p * (65536 * v)) by (nonlinear_arith)
        requires
            w <= 65536 * v,
            0 <= p,
    ;
    assert(17 * p * (65536 * v) == 65536 * (17 * v * p)) by (nonlinear_arith);
}

proof fn lemma_words_growth(f: Seq<u32>, src: Seq<u8>)
    requires
        codable(f, src),
    ensures
        ({
            let (x, w) = encoded(f, src);
            let n = src.len();
            pow(2, 16 * w.len()) * x * pow(16, n) <= 65536 * (pow(17, n) * pow(2, bits(f, src)))
        }),
    decreases src.len(),
{
    reveal(pow);
    if src.len() > 0 {
        let rest = src.drop_first();
        lemma_codable_rest(f, src);
        lemma_words_growth(f, rest);
        lemma_encoded_state(f, rest);
        let (x, w) = encoded(f, rest);
        let s = src[0] as int;
        let fs = f[s] as int;
        let c = model::sum(f, s);
        model::lemma_sum_monotone(f, s + 1, f.len() as int);
        model::lemma_sum_monotone(f, 0, s);
        let k = price(fs);
        let p = pow(2, k);
        lemma_price(fs);
        lemma_pow_positive(2, k);
        lemma_put_growth(x, fs, c, p);
        let a = pow(2, 16 * w.len());
        let n = rest.len();
        let v = pow(17, n) * pow(2, bits(f, rest));
        lemma_pow_positive(2, 16 * w.len());
        lemma_pow_positive(16, n);
        let e = if rans::emits(x, fs) {
            65536int
        } else {
            1
        };
        let z = rans::put(x, fs, c);
        lemma_words_step(a, x, pow(16, n), v, z, e, p);
        let w1 = encoded(f, src).1;
        assert(pow(2, 16 * w1.len()) == a * e) by {
            if rans::emits(x, fs) {
                assert(w1.len() == w.len() + 1);
                lemma_pow_adds(2, 16 * w.len(), 16);
                assert(pow(2, 16) == 65536) by {
                    reveal_with_fuel(pow, 17);
                }
            }
        }
        lemma_pow_adds(2, k, bits(f, rest));
        let h = pow(2, bits(f, rest));
        let g = pow(17, n);
        assert(17 * (g * h) * p == 17 * g * (p * h)) by (nonlinear_arith);
        assert(pow(17, n + 1) == 17 * g);
        assert(pow(16, n + 1) == 16 * pow(16, n));
    }
}

proof fn lemma_growth_ratio(n: nat)
    ensures
        pow(17, n) <= pow(16, n) * pow(2, (n + 7) / 8),
    decreases n,
{
    if n <= 8 {
        reveal_with_fuel(pow, 9);
        assert(pow(2, 0) == 1 && pow(2, 1) == 2);
        assert(n == 0 || n == 1 || n == 2 || n == 3 || n == 4 || n == 5 || n == 6 || n == 7 || n
            == 8);
        assert(n == 0 ==> (n + 7) / 8 == 0);
        assert(n > 0 ==> (n + 7) / 8 == 1);
        assert(n > 0 ==> pow(17, n) <= pow(16, n) * 2);
    } else {
        let m = (n - 8) as nat;
        lemma_growth_ratio(m);
        lemma_pow_adds(17, 8, m);
        lemma_pow_adds(16, 8, m);
        lemma_pow_adds(2, 1, (m + 7) / 8);
        assert(pow(17, 8) == 6975757441 && pow(16, 8) == 4294967296 && pow(2, 1) == 2) by {
            reveal_with_fuel(pow, 9);
        }
        let g = pow(16, m);
        let h = pow(2, (m + 7) / 8);
        lemma_pow_positive(17, m);
        assert(1 + (m + 7) / 8 == (n + 7) / 8);
        assert(8 + m == n);
        assert(4294967296 * g * (2 * h) == 8589934592 * (g * h)) by (nonlinear_arith);
    }
}

/// A stream is as short as its model allows: it has no more bits than the symbols cost, an
/// eighth of a bit for each symbol, and 32 for the final state.
pub proof fn lemma_stream_size(f: Seq<u32>, src: Seq<u8>)
    requires
        codable(f, src),
    ensures
        8 * stream_of(f, src).len() <= bits(f, src) + (src.len() + 7) / 8 + 32,
{
    let (x, w) = encoded(f, src);
    let n = src.len();
    lemma_encoded_state(f, src);
    lemma_words_growth(f, src);
    lemma_growth_ratio(n);
    let a = pow(2, 16 * w.len());
    let u = pow(16, n);
    let b = pow(2, bits(f, src));
    let d = pow(2, (n + 7) / 8);
    lemma_pow_positive(16, n);
    lemma_pow_positive(2, bits(f, src));
    lemma_pow_positive(2, 16 * w.len());
    let g = pow(17, n);
    assert(a <= b * d) by (nonlinear_arith)
        requires
            a * x * u <= 65536 * (g * b),
            g <= u * d,
            65536 <= x,
            0 < u,
            0 < a,
            0 < b,
    {
        assert(a * 65536 * u <= a * x * u);
        assert(g * b <= u * d * b);
        assert(u * d * b == u * (b * d));
        assert(u * a <= u * (b * d));
    }
    lemma_pow_adds(2, bits(f, src), (n + 7) / 8);
    lemma_pow_increases_converse(2, 16 * w.len(), bits(f, src) + (n + 7) / 8);
}

/// A coded text is as short as its model allows: its stream has no more bits than the
/// symbols cost, an eighth of a bit for each symbol, and 32 for the final state. The table
/// takes at most 480 bytes, the marker one.
pub proof fn lemma_coded_size(src: Seq<u8>)
    requires
        src.len() <= u32::MAX,
    ensures
        table::split(coded(src)) matches Ok((f, s)) && {
            &&& 8 * s.len() <= bits(f, src) + (src.len() + 7) / 8 + 32
            &&& coded(src).len() <= s.len() + 481
        },
{
    let f = model::frequencies(model::counts(src, 256));
    lemma_model_codable(src, 256);
    table::lemma_split(stream_of(f, src), f);
    table::lemma_table_bound(f);
    lemma_stream_size(f, src);
}

// ---------------------------------------------------------------------------
// Executable coder
// ---------------------------------------------------------------------------
/// Appends words and final state of `src` under the model `stats`.
pub fn encode_stream(stats: &Stats, src: &[u8], dst: &mut Vec<u8>)
    requires
        stats.wf(stats.freq@.len() as int),
        codable(stats.freq@, src@),
    ensures
        final(dst)@ == old(dst)@ + stream_of(stats.freq@, src@),
{
    let ghost f = stats.freq@;
    let mut x: u32 = rans::STATE_LOW;
    let mut i: usize = src.len();
    assert(src@.skip(i as int) =~= seq![]);
    assert(dst@ =~= old(dst)@ + word_bytes(seq![]));
    while i > 0
        invariant
            i <= src@.len(),
            codable(f, src@),
            stats.wf(f.len() as int),
            stats.freq@ == f,
            rans::is_state(x as int),
            x == encoded(f, src@.skip(i as int)).0,
            dst@ == old(dst)@ + word_bytes(encoded(f, src@.skip(i as int)).1),
        decreases i,
    {
        let ghost rest = src@.skip(i as int);
        i = i - 1;
        proof {
            assert(src@[i as int] < f.len());
            assert(src@.skip(i as int).drop_first() =~= rest);
        }
        let (y, e): (u32, bool) = stats.put(x, src[i]);
        if e {
            push_u16(dst, (x % 65536) as u16);
            proof {
                let w = encoded(f, rest).1;
                lemma_word_bytes_push(w, (x % 65536) as u16);
                assert(encoded(f, src@.skip(i as int)).1 =~= w.push((x % 65536) as u16));
                assert(dst@ =~= old(dst)@ + word_bytes(encoded(f, src@.skip(i as int)).1));
            }
        } else {
            assert(encoded(f, src@.skip(i as int)).1 =~= encoded(f, rest).1);
        }
        x = y;
    }
    assert(src@.skip(0) =~= src@);
    push_u32(dst, x);
    assert(dst@ =~= old(dst)@ + stream_of(f, src@));
}

/// Takes the symbol at state `x`; the results are those of [`step`].
pub fn next_symbol(tab: &Vec<u32>, stream: &[u8], cursor: usize, x: u32) -> (r: Option<
    (u8, usize, u32),
>)
    requires
        tab@.len() == 4096,
        cursor <= stream@.len(),
    ensures
        match r {
            None => step(tab@, stream@, cursor as int, x as int) is None,
            Some((b, c, y)) => c <= cursor && step(tab@, stream@, cursor as int, x as int) == Some(
                (b, c as int, y as int),
            ),
        },
{
    let t: u32 = tab[(x % 4096) as usize];
    let (b, y): (u8, u32) = take(t, x);
    if y >= rans::STATE_LOW {
        return Some((b, cursor, y));
    }
    if cursor < 2 {
        return None;
    }
    let w: u32 = get_u16(stream, cursor - 2) as u32;
    Some((b, cursor - 2, y * 65536 + w))
}

/// Appends the coded form of `src` to `dst`.
pub fn encode_ans1_into(src: &[u8], dst: &mut Vec<u8>)
    requires
        src@.len() <= u32::MAX,
    ensures
        final(dst)@ == old(dst)@ + coded(src@),
{
    let stats = Stats::observe(src, 256);
    proof {
        lemma_model_codable(src@, 256);
    }
    encode_stream(&stats, src, dst);
    encode_marked_table(&stats.freq, dst);
    assert(dst@ =~= old(dst)@ + coded(src@));
}

/// Encodes `src` with one rANS state. The length is not stored.
pub fn ans1_encode(src: &[u8]) -> (out: Vec<u8>)
    requires
        src@.len() <= u32::MAX,
    ensures
        out@ == coded(src@),
{
    let mut out: Vec<u8> = Vec::new();
    encode_ans1_into(src, &mut out);
    assert(out@ =~= coded(src@));
    out
}

/// Decodes `dst_len` symbols.
pub fn ans1_decode(src: &[u8], dst_len: usize) -> (r: Result<Vec<u8>, Error>)
    ensures
        match r {
            Ok(out) => decoded(src@, dst_len as int) == Ok::<Seq<u8>, Error>(out@),
            Err(e) => decoded(src@, dst_len as int) == Err::<Seq<u8>, Error>(e),
        },
{
    let (tab, stream): (Vec<u32>, &[u8]) = match ans_decode_table(src) {
        Ok(p) => p,
        Err(e) => {
            return Err(e);
        },
    };
    if stream.len() < 4 {
        return Err(Error::WrongSourceSize);
    }
    let mut cursor: usize = stream.len() - 4;
    let mut x: u32 = get_u32(stream, cursor);
    let mut dst: Vec<u8> = Vec::new();
    let ghost all = symbols(tab@, stream@, cursor as int, x as int, dst_len as int);
    assert(dst@ =~= seq![]);
    while dst.len() < dst_len
        invariant
            dst@.len() <= dst_len,
            tab@.len() == 4096,
            cursor <= stream@.len(),
            match symbols(tab@, stream@, cursor as int, x as int, dst_len - dst@.len()) {
                None => all is None,
                Some(r) => all == Some(dst@ + r),
            },
            table::split(src@) matches Ok((f, s)) && tab@ == rans::dense(f) && stream@ == s,
            stream@.len() >= 4,
            all == symbols(
                tab@,
                stream@,
                stream@.len() - 4,
                bytes::u32_at(stream@, stream@.len() - 4),
                dst_len as int,
            ),
        decreases dst_len - dst.len(),
    {
        let ghost before = dst@;
        let ghost n = dst_len - dst@.len();
        let (sym, c, y): (u8, usize, u32) = match next_symbol(&tab, stream, cursor, x) {
            None => {
                return Err(Error::OutOfInputData);
            },
            Some(p) => p,
        };
        cursor = c;
        x = y;
        dst.push(sym);
        proof {
            match symbols(tab@, stream@, cursor as int, x as int, n - 1) {
                None => {},
                Some(r) => {
                    assert(before + (seq![sym] + r) =~= dst@ + r);
                },
            }
        }
    }
    assert(dst@ + Seq::<u8>::empty() =~= dst@);
    Ok(dst)
}

// ---------------------------------------------------------------------------
// With the length in front
// ---------------------------------------------------------------------------
/// `src` coded, with its length in four bytes in front.
pub open spec fn framed(src: Seq<u8>) -> Seq<u8> {
    bytes::le32(src.len() as int) + coded(src)
}

/// What a framed block holds.
pub open spec fn unframed(s: Seq<u8>) -> Result<Seq<u8>, Error> {
    if s.len() < 4 {
        Err(Error::WrongSourceSize)
    } else {
        decoded(s.skip(4), bytes::u32_at(s, 0))
    }
}

/// Encodes `src` and stores its length in front, so that [`decompress`] needs
/// nothing else.
pub fn compress(src: &[u8]) -> (out: Vec<u8>)
    requires
        src@.len() <= u32::MAX,
    ensures
        out@ == framed(src@),
{
    let mut out: Vec<u8> = Vec::new();
    push_u32(&mut out, src.len() as u32);
    encode_ans1_into(src, &mut out);
    assert(out@ =~= framed(src@));
    out
}

/// Decodes what [`compress`] produced.
pub fn decompress(framed: &[u8]) -> (r: Result<Vec<u8>, Error>)
    ensures
        match r {
            Ok(out) => unframed(framed@) == Ok::<Seq<u8>, Error>(out@),
            Err(e) => unframed(framed@) == Err::<Seq<u8>, Error>(e),
        },
{
    if framed.len() < 4 {
        return Err(Error::WrongSourceSize);
    }
    let n: usize = get_u32(framed, 0) as usize;
    let body: &[u8] = &framed[4..framed.len()];
    assert(body@ =~= framed@.skip(4));
    ans1_decode(body, n)
}

/// A framed block is the length of the text in four bytes, low byte first, and its
/// coded form; it is read as it is written, whatever it holds.
pub proof fn lemma_framed_parts(src: Seq<u8>, t: Seq<u8>)
    ensures
        framed(src).skip(4) == coded(src),
        src.len() <= u32::MAX ==> framed(src)[0] + 256 * framed(src)[1] + 65536 * framed(src)[2]
            + 16777216 * framed(src)[3] == src.len(),
        t.len() < 4 ==> unframed(t) == Err::<Seq<u8>, Error>(Error::WrongSourceSize),
        t.len() >= 4 ==> unframed(t) == decoded(
            t.skip(4),
            t[0] + 256 * t[1] + 65536 * t[2] + 16777216 * t[3],
        ),
{
    let s = framed(src);
    assert(s.skip(4) =~= coded(src));
    assert(s.subrange(0, 4) =~= bytes::le32(src.len() as int));
    if src.len() <= u32::MAX {
        bytes::lemma_read_le32(s, 0, src.len() as int);
    }
}

/// Decompressing what was compressed gives back the bytes.
pub proof fn lemma_framed_roundtrip(src: Seq<u8>)
    requires
        src.len() <= u32::MAX,
    ensures
        unframed(framed(src)) == Ok::<Seq<u8>, Error>(src),
{
    let s = framed(src);
    assert(s.skip(4) =~= coded(src));
    assert(s.subrange(0, 4) =~= bytes::le32(src.len() as int));
    bytes::lemma_read_le32(s, 0, src.len() as int);
    lemma_roundtrip(src);
}

} // verus!
