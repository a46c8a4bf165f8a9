//! The arithmetic of a range asymmetric numeral system (rANS) with 12-bit
//! frequencies, 32-bit states and 16-bit renormalisation words.
use crate::model;
use crate::model::{frequencies_of, histogram};
use vstd::prelude::*;

verus! {

/// The lowest state of a coder between two symbols.
pub const STATE_LOW: u32 = 65536;

/// A state that a coder can have between two symbols.
pub open spec fn is_state(x: int) -> bool {
    65536 <= x < 0x1_0000_0000
}

// ---------------------------------------------------------------------------
// Encoding
// ---------------------------------------------------------------------------
/// Whether a word has to leave state `x` before a symbol of frequency `f` is put.
pub open spec fn emits(x: int, f: int) -> bool {
    x >= 0x10_0000 * f
}

/// State `x` after that word has left.
pub open spec fn shifted(x: int, f: int) -> int {
    if emits(x, f) {
        x / 65536
    } else {
        x
    }
}

/// State `x` after a symbol with frequency `f` and first slot `c` has been put.
pub open spec fn put(x: int, f: int, c: int) -> int {
    let y = shifted(x, f);
    (y / f) * 4096 + y % f + c
}

/// The words that leave state `x` when a symbol of frequency `f` is put.
pub open spec fn words_of(x: int, f: int) -> Seq<u16> {
    if emits(x, f) {
        seq![(x % 65536) as u16]
    } else {
        seq![]
    }
}

// ---------------------------------------------------------------------------
// Decoding
// ---------------------------------------------------------------------------
/// A slot of the decode table: symbol, index within the symbol, frequency.
pub open spec fn pack(sym: u32, j: u32, f: u32) -> u32 {
    (sym << 24) | (j << 12) | f
}

/// Frequency in a table entry.
pub open spec fn entry_freq(t: u32) -> int {
    t as int % 4096
}

/// Index within the symbol in a table entry.
pub open spec fn entry_bias(t: u32) -> int {
    t as int / 4096 % 4096
}

/// Symbol in a table entry.
pub open spec fn entry_sym(t: u32) -> u8 {
    (t as int / 16777216) as u8
}

/// State `x` after the symbol of table entry `t` has been taken.
pub open spec fn get(t: u32, x: int) -> int {
    entry_freq(t) * (x / 4096) + entry_bias(t)
}

/// Symbol `s` owns `slot`.
pub open spec fn owns(f: Seq<u32>, s: int, slot: int) -> bool {
    0 <= s < f.len() && model::sum(f, s) <= slot < model::sum(f, s + 1)
}

/// The decode table for the frequencies `f`: the entry of each slot.
pub open spec fn dense(f: Seq<u32>) -> Seq<u32> {
    Seq::new(
        4096,
        |slot: int|
            if slot < model::total(f) {
                let s = choose|s: int| owns(f, s, slot);
                pack(s as u32, (slot - model::sum(f, s)) as u32, f[s])
            } else {
                0u32
            },
    )
}

/// A slot has one owner at most.
pub proof fn lemma_owner_unique(f: Seq<u32>, a: int, b: int, slot: int)
    requires
        owns(f, a, slot),
        owns(f, b, slot),
    ensures
        a == b,
{
    if a < b {
        model::lemma_sum_monotone(f, a + 1, b);
    } else if b < a {
        model::lemma_sum_monotone(f, b + 1, a);
    }
}

/// The entry of a slot that symbol `s` owns.
pub proof fn lemma_dense_at(f: Seq<u32>, s: int, slot: int)
    requires
        owns(f, s, slot),
        model::total(f) <= 4096,
    ensures
        0 <= slot < 4096,
        dense(f)[slot] == pack(s as u32, (slot - model::sum(f, s)) as u32, f[s]),
{
    model::lemma_sum_monotone(f, s + 1, f.len() as int);
    model::lemma_sum_monotone(f, 0, s);
    let t = choose|t: int| owns(f, t, slot);
    lemma_owner_unique(f, s, t, slot);
}

proof fn lemma_pack(sym: u32, j: u32, f: u32)
    requires
        sym < 256,
        j < 4096,
        f < 4096,
    ensures
        entry_sym(pack(sym, j, f)) == sym,
        entry_bias(pack(sym, j, f)) == j,
        entry_freq(pack(sym, j, f)) == f,
{
    let t = pack(sym, j, f);
    assert(t % 4096 == f && t / 4096 % 4096 == j && t / 16777216 == sym) by (bit_vector)
        requires
            sym < 256,
            j < 4096,
            f < 4096,
            t == (sym << 24) | (j << 12) | f,
    ;
}

/// The symbol of a table entry, whatever the other fields hold.
pub proof fn lemma_pack_sym(sym: u32, j: u32, f: u32)
    requires
        sym < 256,
        j < 4096,
        f <= 4096,
    ensures
        entry_sym(pack(sym, j, f)) == sym,
{
    let t = pack(sym, j, f);
    assert(t / 16777216 == sym) by (bit_vector)
        requires
            sym < 256,
            j < 4096,
            f <= 4096,
            t == (sym << 24) | (j << 12) | f,
    ;
}

/// Every slot below the sum of the first `k` frequencies has an owner.
pub proof fn lemma_owner_exists(f: Seq<u32>, slot: int, k: int)
    requires
        0 <= k <= f.len(),
        0 <= slot < model::sum(f, k),
    ensures
        exists|s: int| owns(f, s, slot),
    decreases k,
{
    if slot >= model::sum(f, k - 1) {
        assert(owns(f, k - 1, slot));
    } else {
        lemma_owner_exists(f, slot, k - 1);
    }
}

/// Putting a symbol keeps the state in range, and getting it back undoes the
/// put up to the word that left.
proof fn lemma_put_arith(x: int, f: int, c: int)
    requires
        is_state(x),
        1 <= f <= 4095,
        0 <= c,
        c + f <= 4096,
    ensures
        is_state(put(x, f, c)),
        ({
            let y = shifted(x, f);
            let z = put(x, f, c);
            &&& c <= z % 4096 < c + f
            &&& z % 4096 - c == y % f
            &&& z / 4096 == y / f
            &&& f * (y / f) + y % f == y
            &&& 0 <= y
            &&& emits(x, f) ==> y < 65536 && x == y * 65536 + x % 65536
            &&& !emits(x, f) ==> y == x
        }),
{
    let y = shifted(x, f);
    let q = y / f;
    let r = y % f;
    vstd::arithmetic::div_mod::lemma_fundamental_div_mod(y, f);
    vstd::arithmetic::div_mod::lemma_mod_bound(y, f);
    assert(f * q == q * f) by (nonlinear_arith);
    if emits(x, f) {
        assert(y >= 16 * f);
    }
    assert(y < 0x10_0000 * f);
    assert(y >= 16 * f);
    assert(q >= 16) by (nonlinear_arith)
        requires
            y == f * q + r,
            r < f,
            y >= 16 * f,
            f >= 1,
    ;
    assert(q < 0x10_0000) by (nonlinear_arith)
        requires
            y == f * q + r,
            0 <= r,
            y < 0x10_0000 * f,
            f >= 1,
    ;
    let z = put(x, f, c);
    assert(z == q * 4096 + r + c);
}

/// Taking the symbol at the state that a put left behind gives back the symbol
/// and the state before the put, up to the word that left it.
pub proof fn lemma_put_get(f: Seq<u32>, s: int, x: int)
    requires
        model::usable(f),
        f.len() <= 256,
        0 <= s < f.len(),
        f[s] != 0,
        is_state(x),
    ensures
        is_state(put(x, f[s] as int, model::sum(f, s))),
        ({
            let z = put(x, f[s] as int, model::sum(f, s));
            let t = dense(f)[z % 4096];
            &&& entry_sym(t) == s
            &&& get(t, z) == shifted(x, f[s] as int)
        }),
        emits(x, f[s] as int) ==> {
            &&& shifted(x, f[s] as int) < 65536
            &&& x == shifted(x, f[s] as int) * 65536 + x % 65536
        },
        !emits(x, f[s] as int) ==> shifted(x, f[s] as int) == x,
{
    let fs = f[s] as int;
    let c = model::sum(f, s);
    model::lemma_sum_monotone(f, s + 1, f.len() as int);
    model::lemma_sum_monotone(f, 0, s);
    lemma_put_arith(x, fs, c);
    let z = put(x, fs, c);
    lemma_dense_at(f, s, z % 4096);
    lemma_pack(s as u32, (z % 4096 - c) as u32, f[s]);
}

/// Taking a symbol keeps a state within 32 bits, whatever the entry.
pub proof fn lemma_get_bound(t: u32, x: int)
    requires
        0 <= x < 0x1_0000_0000,
    ensures
        0 <= get(t, x) < 0x1_0000_0000,
        0 <= entry_freq(t) * (x / 4096) < 0x1_0000_0000,
{
    let f = entry_freq(t);
    let q = x / 4096;
    assert(0 <= f * q <= 4095 * 0xf_ffff) by (nonlinear_arith)
        requires
            0 <= f <= 4095,
            0 <= q <= 0xf_ffff,
    ;
}

/// Slot `x % 4096` belongs to symbol `b`, and `z` is what is left of state `x`
/// without it: `b` has the slots from the sum of the frequencies before it on. A
/// slot that no symbol has counts as one of the first, and leaves nothing.
pub open spec fn holds_symbol(f: Seq<u32>, x: int, b: int, z: int) -> bool {
    let slot = x % 4096;
    if slot < model::total(f) {
        &&& 0 <= b < f.len()
        &&& model::sum(f, b) <= slot < model::sum(f, b) + f[b]
        &&& z == f[b] * (x / 4096) + slot - model::sum(f, b)
    } else {
        b == 0 && z == 0
    }
}

/// Slot `x % 4096` belongs to symbol `b`.
pub open spec fn holds(f: Seq<u32>, x: int, b: int) -> bool {
    exists|z: int| #[trigger] holds_symbol(f, x, b, z)
}

/// The decode table gives the one symbol that a state holds, and what is left of it.
pub proof fn lemma_holds_symbol(f: Seq<u32>, x: int, b: int, z: int)
    requires
        model::usable(f),
        f.len() <= 256,
        0 <= x < 0x1_0000_0000,
    ensures
        ({
            let t = dense(f)[x % 4096];
            holds_symbol(f, x, b, z) <==> b == entry_sym(t) && z == get(t, x)
        }),
{
    let slot = x % 4096;
    if slot < model::total(f) {
        lemma_owner_exists(f, slot, f.len() as int);
        let o = choose|o: int| owns(f, o, slot);
        lemma_dense_at(f, o, slot);
        model::lemma_sum_monotone(f, 0, o);
        lemma_pack(o as u32, (slot - model::sum(f, o)) as u32, f[o]);
        if 0 <= b < f.len() && model::sum(f, b) <= slot < model::sum(f, b) + f[b] {
            assert(owns(f, b, slot));
            lemma_owner_unique(f, b, o, slot);
        }
    } else {
        let t = dense(f)[slot];
        assert(t == 0);
        assert(entry_freq(t) == 0 && entry_bias(t) == 0 && entry_sym(t) == 0);
        assert(0 * (x / 4096) == 0);
    }
}

// ---------------------------------------------------------------------------
// Executable steps
// ---------------------------------------------------------------------------
/// The frequencies of the symbols of a model, and the first slot of each.
pub struct Stats {
    pub freq: Vec<u32>,
    pub start: Vec<u32>,
}

impl Stats {
    /// The model codes symbols below `n`.
    pub open spec fn wf(&self, n: int) -> bool {
        &&& self.freq@.len() == n
        &&& self.start@.len() == n
        &&& model::usable(self.freq@)
        &&& forall|i: int| 0 <= i < n ==> self.start@[i] == model::sum(self.freq@, i)
    }

    /// The model for a sequence of symbols below `n`.
    pub fn observe(src: &[u8], n: usize) -> (s: Stats)
        requires
            2 <= n <= 256,
            src@.len() <= u32::MAX,
            forall|i: int| 0 <= i < src@.len() ==> src@[i] < n,
        ensures
            s.wf(n as int),
            s.freq@ == model::frequencies(model::counts(src@, n as int)),
    {
        let c = histogram(src, n);
        proof {
            model::lemma_counts_total(src@, n as int);
            model::lemma_frequencies(c@);
        }
        let freq = frequencies_of(&c);
        Stats::set(freq)
    }

    /// The model with the frequencies `freq`.
    pub fn set(freq: Vec<u32>) -> (s: Stats)
        requires
            model::usable(freq@),
        ensures
            s.wf(freq@.len() as int),
            s.freq == freq,
    {
        let mut start: Vec<u32> = Vec::new();
        let mut acc: u32 = 0;
        let mut i: usize = 0;
        while i < freq.len()
            invariant
                i <= freq.len(),
                model::usable(freq@),
                acc == model::sum(freq@, i as int),
                start@.len() == i,
                forall|k: int| 0 <= k < i ==> start@[k] == model::sum(freq@, k),
            decreases freq.len() - i,
        {
            proof {
                model::lemma_sum_monotone(freq@, i + 1, freq@.len() as int);
            }
            start.push(acc);
            acc = acc + freq[i];
            i = i + 1;
        }
        Stats { freq, start }
    }

    /// Puts symbol `s` onto state `x`; the second result tells whether the low
    /// word of `x` has to be emitted.
    pub fn put(&self, x: u32, s: u8) -> (r: (u32, bool))
        requires
            self.wf(self.freq@.len() as int),
            self.freq@.len() <= 256,
            (s as int) < self.freq@.len(),
            self.freq@[s as int] != 0,
            is_state(x as int),
        ensures
            r.0 == put(x as int, self.freq@[s as int] as int, model::sum(self.freq@, s as int)),
            is_state(r.0 as int),
            r.1 == emits(x as int, self.freq@[s as int] as int),
    {
        let f: u32 = self.freq[s as usize];
        let c: u32 = self.start[s as usize];
        proof {
            model::lemma_sum_monotone(self.freq@, s + 1, self.freq@.len() as int);
            lemma_put_arith(x as int, f as int, c as int);
        }
        let e: bool = x >= 0x10_0000 * f;
        let y: u32 = if e {
            x / 65536
        } else {
            x
        };
        ((y / f) * 4096 + (y % f) + c, e)
    }
}

/// Takes the symbol of table entry `t` off state `x`.
pub fn take(t: u32, x: u32) -> (r: (u8, u32))
    ensures
        r.0 == entry_sym(t),
        r.1 == get(t, x as int),
{
    let f: u32 = t % 4096;
    let b: u32 = t / 4096 % 4096;
    proof {
        lemma_get_bound(t, x as int);
    }
    ((t / 16777216) as u8, f * (x / 4096) + b)
}

/// The model of a sequence covers each symbol of the sequence.
pub proof fn lemma_model_covers(src: Seq<u8>, n: int, i: int)
    requires
        2 <= n <= 256,
        src.len() <= u32::MAX,
        0 <= i < src.len(),
        src[i] < n,
    ensures
        model::frequencies(model::counts(src, n))[src[i] as int] != 0,
        model::frequencies(model::counts(src, n)).len() == n,
        model::usable(model::frequencies(model::counts(src, n))),
{
    let c = model::counts(src, n);
    model::lemma_frequencies(c);
    model::lemma_count_occurs(src, i);
    model::lemma_count_bound(src, src[i] as int);
    assert(c[src[i] as int] != 0);
}

/// Builds the decode table for the frequencies `f`.
pub fn build_dense(f: &Vec<u32>) -> (tab: Vec<u32>)
    requires
        f@.len() <= 256,
        model::total(f@) <= 4096,
    ensures
        tab@ == dense(f@),
{
    let mut tab: Vec<u32> = Vec::new();
    let mut s: usize = 0;
    while s < f.len()
        invariant
            s <= f@.len() <= 256,
            model::total(f@) <= 4096,
            tab@.len() == model::sum(f@, s as int),
            forall|i: int| 0 <= i < tab@.len() ==> tab@[i] == dense(f@)[i],
        decreases f.len() - s,
    {
        let fs: u32 = f[s];
        let mut j: u32 = 0;
        proof {
            model::lemma_sum_monotone(f@, s + 1, f@.len() as int);
            model::lemma_sum_monotone(f@, 0, s as int);
        }
        while j < fs
            invariant
                s < f@.len() <= 256,
                fs == f@[s as int],
                j <= fs,
                model::total(f@) <= 4096,
                model::sum(f@, s + 1) <= 4096,
                tab@.len() == model::sum(f@, s as int) + j,
                forall|i: int| 0 <= i < tab@.len() ==> tab@[i] == dense(f@)[i],
            decreases fs - j,
        {
            proof {
                lemma_dense_at(f@, s as int, tab@.len() as int);
            }
            tab.push(((s as u32) << 24) | (j << 12) | fs);
            j = j + 1;
        }
        s = s + 1;
    }
    let done: usize = tab.len();
    while tab.len() < 4096
        invariant
            done == model::total(f@),
            done <= tab@.len() <= 4096,
            model::total(f@) <= 4096,
            forall|i: int| 0 <= i < tab@.len() ==> tab@[i] == dense(f@)[i],
        decreases 4096 - tab.len(),
    {
        tab.push(0);
    }
    assert(tab@ =~= dense(f@));
    tab
}

} // verus!
