//! Symbol statistics: how often each symbol occurs, and the frequencies out of
//! 4096 slots that the rANS coders give the symbols.
use vstd::prelude::*;

verus! {

/// The number of slots that the frequencies of a model share.
pub const SLOTS: u32 = 4096;

// ---------------------------------------------------------------------------
// Sums
// ---------------------------------------------------------------------------
/// The sum of the first `k` numbers of `f`.
pub open spec fn sum(f: Seq<u32>, k: int) -> int
    decreases k,
{
    if k <= 0 {
        0
    } else {
        sum(f, k - 1) + f[k - 1]
    }
}

/// The sum of all numbers of `f`.
pub open spec fn total(f: Seq<u32>) -> int {
    sum(f, f.len() as int)
}

/// A sum grows by one number at a time, from zero.
pub proof fn lemma_sum_step(f: Seq<u32>, k: int)
    requires
        0 <= k < f.len(),
    ensures
        sum(f, 0) == 0,
        sum(f, k + 1) == sum(f, k) + f[k],
        total(f) == sum(f, f.len() as int),
{
}

/// Longer prefixes have no smaller sums.
pub proof fn lemma_sum_monotone(f: Seq<u32>, a: int, b: int)
    requires
        a <= b,
    ensures
        0 <= sum(f, a) <= sum(f, b),
    decreases b,
{
    if a < b && b > 0 {
        lemma_sum_monotone(f, a, b - 1);
    } else if a == b && a > 0 {
        lemma_sum_monotone(f, a - 1, a - 1);
    }
}

/// Equal prefixes have equal sums.
pub proof fn lemma_sum_prefix(f: Seq<u32>, g: Seq<u32>, k: int)
    requires
        forall|i: int| 0 <= i < k ==> f[i] == g[i],
    ensures
        sum(f, k) == sum(g, k),
    decreases k,
{
    if k > 0 {
        lemma_sum_prefix(f, g, k - 1);
    }
}

proof fn lemma_sum_update(f: Seq<u32>, i: int, v: u32, k: int)
    requires
        0 <= i < f.len(),
        k <= f.len(),
    ensures
        sum(f.update(i, v), k) == sum(f, k) + if i < k {
            v - f[i]
        } else {
            0
        },
    decreases k,
{
    if k > 0 {
        lemma_sum_update(f, i, v, k - 1);
    }
}

proof fn lemma_sum_bounded(f: Seq<u32>, k: int, m: int)
    requires
        k <= f.len(),
        m >= 0,
        forall|i: int| 0 <= i < k ==> f[i] <= m,
    ensures
        sum(f, k) <= m * if k < 0 {
            0
        } else {
            k
        },
    decreases k,
{
    if k > 0 {
        lemma_sum_bounded(f, k - 1, m);
        assert(m * k == m * (k - 1) + m) by (nonlinear_arith);
    }
}

proof fn lemma_sum_two(f: Seq<u32>, i: int, j: int, k: int)
    requires
        0 <= i < j < k <= f.len(),
    ensures
        sum(f, k) >= f[i] + f[j],
{
    lemma_sum_monotone(f, 0, i);
    lemma_sum_monotone(f, i + 1, j);
    lemma_sum_monotone(f, j + 1, k);
}

proof fn lemma_sum_one(f: Seq<u32>, i: int, k: int)
    requires
        0 <= i < k <= f.len(),
    ensures
        sum(f, k) >= f[i],
{
    lemma_sum_monotone(f, 0, i);
    lemma_sum_monotone(f, i + 1, k);
}

// ---------------------------------------------------------------------------
// Counting
// ---------------------------------------------------------------------------
/// How many elements of `s` equal `b`.
pub open spec fn count(s: Seq<u8>, b: int) -> int
    decreases s.len(),
{
    if s.len() == 0 {
        0
    } else {
        count(s.drop_last(), b) + if s.last() == b {
            1int
        } else {
            0
        }
    }
}

/// The counts of the symbols `0..n` in `s`.
pub open spec fn counts(s: Seq<u8>, n: int) -> Seq<u32> {
    Seq::new(n as nat, |b: int| count(s, b) as u32)
}

/// No symbol occurs more often than there are symbols.
pub proof fn lemma_count_bound(s: Seq<u8>, b: int)
    ensures
        0 <= count(s, b) <= s.len(),
    decreases s.len(),
{
    if s.len() > 0 {
        lemma_count_bound(s.drop_last(), b);
    }
}

/// A symbol that occurs is counted.
pub proof fn lemma_count_occurs(s: Seq<u8>, i: int)
    requires
        0 <= i < s.len(),
    ensures
        count(s, s[i] as int) >= 1,
    decreases s.len(),
{
    lemma_count_bound(s.drop_last(), s[i] as int);
    if i < s.len() - 1 {
        lemma_count_occurs(s.drop_last(), i);
        assert(s.drop_last()[i] == s[i]);
    }
}

proof fn lemma_counts_push(s: Seq<u8>, b: u8, n: int, k: int)
    requires
        0 <= k <= n,
        s.len() < u32::MAX,
    ensures
        sum(counts(s.push(b), n), k) == sum(counts(s, n), k) + if b < k {
            1int
        } else {
            0
        },
    decreases k,
{
    if k > 0 {
        lemma_counts_push(s, b, n, k - 1);
        assert(s.push(b).drop_last() =~= s);
        lemma_count_bound(s, k - 1);
    }
}

/// The counts of all symbols add up to the length.
pub proof fn lemma_counts_total(s: Seq<u8>, n: int)
    requires
        s.len() <= u32::MAX,
        n >= 0,
        forall|i: int| 0 <= i < s.len() ==> s[i] < n,
    ensures
        total(counts(s, n)) == s.len(),
    decreases s.len(),
{
    if s.len() == 0 {
        lemma_sum_bounded(counts(s, n), n, 0);
        lemma_sum_monotone(counts(s, n), 0, n);
    } else {
        let t = s.drop_last();
        assert(t.push(s.last()) =~= s);
        assert forall|i: int| 0 <= i < t.len() implies t[i] < n by {
            assert(t[i] == s[i]);
        }
        lemma_counts_total(t, n);
        assert(s[s.len() - 1] < n);
        lemma_counts_push(t, s.last(), n, n);
    }
}

// ---------------------------------------------------------------------------
// Normalisation
// ---------------------------------------------------------------------------
/// Where symbol `k` starts when the counts `c` are scaled to 4096 slots,
/// rounding down.
pub open spec fn scaled(c: Seq<u32>, k: int) -> int {
    4096 * sum(c, k) / total(c)
}

/// The scaled share of each symbol; the shares add up to 4096.
pub open spec fn shares(c: Seq<u32>) -> Seq<u32> {
    Seq::new(c.len(), |i: int| (scaled(c, i + 1) - scaled(c, i)) as u32)
}

/// Symbol `j` has the smallest frequency above one, and is the first such.
pub open spec fn is_donor(f: Seq<u32>, j: int) -> bool {
    &&& 0 <= j < f.len()
    &&& f[j] > 1
    &&& forall|k: int| 0 <= k < f.len() && f[k] > 1 ==> f[j] < f[k] || (f[j] == f[k] && j <= k)
}

/// The symbol that gives up a slot.
pub open spec fn donor(f: Seq<u32>) -> int {
    choose|j: int| is_donor(f, j)
}

/// `f` after the donor has given one of its slots to symbol `i`.
pub open spec fn lend(f: Seq<u32>, i: int) -> Seq<u32> {
    let j = donor(f);
    f.update(j, (f[j] - 1) as u32).update(i, 1u32)
}

/// `f` after every symbol below `k` that occurs has at least one slot.
pub open spec fn restore(f: Seq<u32>, c: Seq<u32>, k: int) -> Seq<u32>
    decreases k,
{
    if k <= 0 {
        f
    } else {
        let g = restore(f, c, k - 1);
        if c[k - 1] != 0 && g[k - 1] == 0 {
            lend(g, k - 1)
        } else {
            g
        }
    }
}

/// The counts `c` resampled to 4096 slots, each symbol that occurs keeping one.
pub open spec fn normalized(c: Seq<u32>) -> Seq<u32> {
    restore(shares(c), c, c.len() as int)
}

/// All occurrences are of symbol `i`.
pub open spec fn only_symbol(c: Seq<u32>, i: int) -> bool {
    0 <= i < c.len() && c[i] == total(c)
}

/// The frequencies of a model for the counts `c`.
///
/// With no occurrence at all the last two symbols share the slots. A symbol
/// that occurs alone gets all slots but one, so that its frequency fits in
/// twelve bits.
pub open spec fn frequencies(c: Seq<u32>) -> Seq<u32> {
    if total(c) == 0 {
        Seq::new(
            c.len(),
            |i: int|
                if i >= c.len() - 2 {
                    2048u32
                } else {
                    0u32
                },
        )
    } else if exists|i: int| only_symbol(c, i) {
        Seq::new(
            c.len(),
            |i: int|
                if c[i] == total(c) {
                    4095u32
                } else {
                    0u32
                },
        )
    } else {
        normalized(c)
    }
}

/// Frequencies that a coder can use: they fit in the slots and in twelve bits.
pub open spec fn usable(f: Seq<u32>) -> bool {
    &&& total(f) <= 4096
    &&& forall|i: int| 0 <= i < f.len() ==> f[i] <= 4095
}

/// Every symbol that occurs can be coded.
pub open spec fn covers(f: Seq<u32>, c: Seq<u32>) -> bool {
    f.len() == c.len() && forall|i: int| 0 <= i < c.len() && c[i] != 0 ==> f[i] != 0
}

proof fn lemma_scaled_monotone(c: Seq<u32>, a: int, b: int)
    requires
        0 <= a <= b <= c.len(),
        total(c) > 0,
    ensures
        0 <= scaled(c, a) <= scaled(c, b) <= 4096,
        scaled(c, 0) == 0,
        scaled(c, c.len() as int) == 4096,
{
    lemma_sum_monotone(c, a, b);
    lemma_sum_monotone(c, b, c.len() as int);
    let t = total(c);
    let x = 4096 * sum(c, a);
    let y = 4096 * sum(c, b);
    vstd::arithmetic::div_mod::lemma_div_is_ordered(x, y, t);
    vstd::arithmetic::div_mod::lemma_div_is_ordered(y, 4096 * t, t);
    vstd::arithmetic::div_mod::lemma_div_is_ordered(0, x, t);
    assert(4096 * t / t == 4096) by {
        vstd::arithmetic::div_mod::lemma_div_multiples_vanish(4096, t);
        assert(4096 * t == t * 4096);
    }
    assert(0int / t == 0) by {
        vstd::arithmetic::div_mod::lemma_div_basics(t);
    }
}

/// The shares below `k` add up to the scaled start of symbol `k`.
proof fn lemma_shares_sum(c: Seq<u32>, k: int)
    requires
        0 <= k <= c.len(),
        total(c) > 0,
    ensures
        sum(shares(c), k) == scaled(c, k),
    decreases k,
{
    lemma_scaled_monotone(c, 0, k);
    if k > 0 {
        lemma_shares_sum(c, k - 1);
        lemma_scaled_monotone(c, k - 1, k);
    }
}

/// Symbol `j` would be the donor if there were only the symbols below `k`.
spec fn donor_below(f: Seq<u32>, k: int, j: int) -> bool {
    &&& 0 <= j < k
    &&& f[j] > 1
    &&& forall|i: int| 0 <= i < k && f[i] > 1 ==> f[j] < f[i] || (f[j] == f[i] && j <= i)
}

/// Where some frequency below `k` exceeds one there is a donor below `k`.
proof fn lemma_donor_exists(f: Seq<u32>, k: int, w: int) -> (j: int)
    requires
        0 <= w < k <= f.len(),
        f[w] > 1,
    ensures
        donor_below(f, k, j),
    decreases k,
{
    let l = k - 1;
    if exists|v: int| 0 <= v < l && f[v] > 1 {
        let v = choose|v: int| 0 <= v < l && f[v] > 1;
        let j = lemma_donor_exists(f, l, v);
        if f[l] > 1 && f[l] < f[j] {
            l
        } else {
            j
        }
    } else {
        w
    }
}

/// Frequencies over at most 256 symbols that add up to 4096 have a donor.
pub proof fn lemma_donor(f: Seq<u32>)
    requires
        f.len() <= 256,
        total(f) == 4096,
    ensures
        is_donor(f, donor(f)),
{
    if forall|i: int| 0 <= i < f.len() ==> f[i] <= 1 {
        lemma_sum_bounded(f, f.len() as int, 1);
    } else {
        let w = choose|i: int| 0 <= i < f.len() && f[i] > 1;
        let j = lemma_donor_exists(f, f.len() as int, w);
        assert(is_donor(f, j));
    }
}

/// There is one donor at most.
pub proof fn lemma_donor_unique(f: Seq<u32>, i: int, j: int)
    requires
        is_donor(f, i),
        is_donor(f, j),
    ensures
        i == j,
{
    assert(f[i] > 1 && f[j] > 1);
}

/// What holds of the frequencies while they are being restored.
proof fn lemma_restore(c: Seq<u32>, k: int)
    requires
        0 <= k <= c.len() <= 256,
        total(c) > 0,
    ensures
        restore(shares(c), c, k).len() == c.len(),
        total(restore(shares(c), c, k)) == 4096,
        forall|i: int|
            0 <= i < k && c[i] != 0 ==> #[trigger] restore(shares(c), c, k)[i] != 0,
    decreases k,
{
    let n = c.len() as int;
    if k == 0 {
        lemma_shares_sum(c, n);
        lemma_scaled_monotone(c, 0, n);
    } else {
        lemma_restore(c, k - 1);
        let g = restore(shares(c), c, k - 1);
        if c[k - 1] != 0 && g[k - 1] == 0 {
            lemma_donor(g);
            let j = donor(g);
            let h = g.update(j, (g[j] - 1) as u32);
            lemma_sum_update(g, j, (g[j] - 1) as u32, n);
            lemma_sum_update(h, k - 1, 1u32, n);
            assert(restore(shares(c), c, k) == h.update(k - 1, 1u32));
        }
    }
}

/// The frequencies of a model are usable and cover all symbols that occur.
pub proof fn lemma_frequencies(c: Seq<u32>)
    requires
        2 <= c.len() <= 256,
    ensures
        frequencies(c).len() == c.len(),
        usable(frequencies(c)),
        covers(frequencies(c), c),
{
    let n = c.len() as int;
    let f = frequencies(c);
    if total(c) == 0 {
        assert forall|i: int| 0 <= i < n implies c[i] == 0 by {
            lemma_sum_one(c, i, n);
        }
        lemma_sum_bounded(f, n - 2, 0);
        assert(f[n - 1] == 2048 && f[n - 2] == 2048);
        assert(sum(f, n - 1) == sum(f, n - 2) + f[n - 2]);
    } else if exists|i: int| only_symbol(c, i) {
        let i = choose|i: int| only_symbol(c, i);
        assert forall|j: int| 0 <= j < n && j != i implies c[j] == 0 by {
            if i < j {
                lemma_sum_two(c, i, j, n);
            } else {
                lemma_sum_two(c, j, i, n);
            }
        }
        lemma_sum_bounded(f, i, 0);
        let g = f.update(i, 0);
        assert forall|j: int| 0 <= j < n implies g[j] <= 0 by {
            assert(c[j] == 0 || j == i);
        }
        lemma_sum_bounded(g, n, 0);
        lemma_sum_update(f, i, 0, n);
    } else {
        assert(total(c) > 0) by {
            lemma_sum_monotone(c, 0, n);
        }
        lemma_restore(c, n);
        assert forall|i: int| 0 <= i < n implies f[i] <= 4095 by {
            lemma_sum_one(f, i, n);
            if f[i] == 4096 {
                // Some other symbol occurs, and holds a slot as well.
                assert(!only_symbol(c, i));
                let g = c.update(i, 0);
                lemma_sum_update(c, i, 0, n);
                lemma_sum_one(c, i, n);
                if forall|j: int| 0 <= j < n ==> g[j] <= 0 {
                    lemma_sum_bounded(g, n, 0);
                    assert(false);
                }
                let j = choose|j: int| 0 <= j < n && g[j] > 0;
                assert(c[j] != 0 && j != i);
                assert(f[j] != 0);
                if i < j {
                    lemma_sum_two(f, i, j, n);
                } else {
                    lemma_sum_two(f, j, i, n);
                }
            }
        }
    }
}

// ---------------------------------------------------------------------------
// How a model follows from what it is a model of
// ---------------------------------------------------------------------------
/// Counting is counting: the count of a symbol is its multiplicity.
pub proof fn lemma_count_multiplicity(s: Seq<u8>, b: u8)
    ensures
        count(s, b as int) == s.to_multiset().count(b),
    decreases s.len(),
{
    broadcast use vstd::seq_lib::group_to_multiset_ensures;

    if s.len() == 0 {
        assert(!s.contains(b));
        assert(s.to_multiset().count(b) == 0);
    } else {
        lemma_count_multiplicity(s.drop_last(), b);
        assert(s.drop_last().push(s.last()) =~= s);
        assert(s.to_multiset() =~= s.drop_last().to_multiset().insert(s.last()));
    }
}

/// How often each of the symbols `0..n` occurs in `s`.
pub open spec fn multiplicities(s: Seq<u8>, n: int) -> Seq<u32> {
    Seq::new(n as nat, |b: int| s.to_multiset().count(b as u8) as u32)
}

/// The counts of a text are the multiplicities of its symbols.
pub proof fn lemma_counts_multiplicities(s: Seq<u8>, n: int)
    requires
        0 <= n <= 256,
        s.len() <= u32::MAX,
    ensures
        counts(s, n) == multiplicities(s, n),
        forall|b: u8| b < n ==> counts(s, n)[b as int] == #[trigger] s.to_multiset().count(b),
        forall|i: int| 0 <= i < n ==> #[trigger] counts(s, n)[i] <= s.len(),
{
    assert forall|i: int| 0 <= i < n implies counts(s, n)[i] == multiplicities(s, n)[i] by {
        lemma_count_multiplicity(s, i as u8);
    }
    assert(counts(s, n) =~= multiplicities(s, n));
    assert forall|b: u8| b < n implies counts(s, n)[b as int] == #[trigger] s.to_multiset().count(
        b,
    ) by {
        lemma_count_multiplicity(s, b);
        lemma_count_bound(s, b as int);
    }
    assert forall|i: int| 0 <= i < n implies #[trigger] counts(s, n)[i] <= s.len() by {
        lemma_count_bound(s, i);
    }
}

/// Two different symbols do not occur more often together than there are symbols.
pub proof fn lemma_count_two(s: Seq<u8>, a: int, b: int)
    requires
        a != b,
    ensures
        count(s, a) + count(s, b) <= s.len(),
    decreases s.len(),
{
    if s.len() > 0 {
        lemma_count_two(s.drop_last(), a, b);
    }
}

/// Number of symbols below `k` that occur, but in less than one of 4096 places.
pub open spec fn rare(c: Seq<u32>, k: int) -> int
    decreases k,
{
    if k <= 0 {
        0
    } else {
        rare(c, k - 1) + if 0 < c[k - 1] && 4096 * c[k - 1] < total(c) {
            1int
        } else {
            0
        }
    }
}

proof fn lemma_share(c: Seq<u32>, i: int)
    requires
        0 <= i < c.len(),
        total(c) > 0,
    ensures
        ({
            let t = total(c);
            let s = shares(c)[i] as int;
            &&& s == 4096 * sum(c, i + 1) / t - 4096 * sum(c, i) / t
            &&& 4096 * c[i] - t < t * s < 4096 * c[i] + t
        }),
        c[i] == 0 ==> shares(c)[i] == 0,
{
    let t = total(c);
    lemma_scaled_monotone(c, i, i + 1);
    let x = 4096 * sum(c, i);
    let y = 4096 * sum(c, i + 1);
    vstd::arithmetic::div_mod::lemma_fundamental_div_mod(x, t);
    vstd::arithmetic::div_mod::lemma_fundamental_div_mod(y, t);
    vstd::arithmetic::div_mod::lemma_mod_bound(x, t);
    vstd::arithmetic::div_mod::lemma_mod_bound(y, t);
    assert(t * (y / t - x / t) == t * (y / t) - t * (x / t)) by (nonlinear_arith);
}

/// What restoring leaves of the shares.
proof fn lemma_restore_close(c: Seq<u32>, k: int)
    requires
        0 <= k <= c.len() <= 256,
        total(c) > 0,
    ensures
        ({
            let f = restore(shares(c), c, k);
            &&& f.len() == c.len()
            &&& forall|i: int|
                0 <= i < c.len() ==> {
                    &&& shares(c)[i] - rare(c, k) <= #[trigger] f[i]
                    &&& f[i] <= shares(c)[i] || (f[i] == 1 && c[i] != 0)
                    &&& f[i] == 0 ==> shares(c)[i] == 0
                    &&& c[i] == 0 ==> f[i] == 0
                }
            &&& 0 <= rare(c, k)
        }),
    decreases k,
{
    let t = total(c);
    assert forall|i: int| 0 <= i < c.len() && c[i] == 0 implies shares(c)[i] == 0 by {
        lemma_share(c, i);
    }
    if k > 0 {
        lemma_restore_close(c, k - 1);
        lemma_restore(c, k - 1);
        let g = restore(shares(c), c, k - 1);
        if c[k - 1] != 0 && g[k - 1] == 0 {
            lemma_donor(g);
            lemma_share(c, k - 1);
            assert(4096 * c[k - 1] < t) by {
                assert(shares(c)[k - 1] == 0);
                assert(t * 0 == 0);
            }
            let f = restore(shares(c), c, k);
            let j = donor(g);
            assert(f == g.update(j, (g[j] - 1) as u32).update(k - 1, 1u32));
        }
    }
}

/// The frequencies of a model are the shares of the symbols in 4096 slots. Every
/// symbol that occurs has a slot, and only those; the slots are all given out; and
/// a symbol has its share of them, rounded, up to the slots that rare symbols need.
/// Without rare symbols it has exactly its share.
pub proof fn lemma_proportional(c: Seq<u32>, i: int)
    requires
        2 <= c.len() <= 256,
        0 <= i < c.len(),
        forall|j: int| 0 <= j < c.len() ==> #[trigger] c[j] < total(c),
    ensures
        ({
            let t = total(c);
            let f = frequencies(c);
            &&& f.len() == c.len()
            &&& total(f) == 4096
            &&& c[i] == 0 <==> f[i] == 0
            &&& f[i] == 1 || t * f[i] < 4096 * c[i] + t
            &&& t * f[i] > 4096 * c[i] - t * (1 + rare(c, c.len() as int))
            &&& rare(c, c.len() as int) == 0 ==> f[i] == 4096 * sum(c, i + 1) / t - 4096 * sum(
                c,
                i,
            ) / t
        }),
{
    let n = c.len() as int;
    let t = total(c);
    let f = frequencies(c);
    assert(t > 0) by {
        assert(c[0] < t);
    }
    assert(f == normalized(c));
    lemma_restore(c, n);
    lemma_restore_close(c, n);
    lemma_share(c, i);
    let s = shares(c)[i] as int;
    let r = rare(c, n);
    assert(f[i] >= s - r);
    assert(t * f[i] >= t * s - t * r) by (nonlinear_arith)
        requires
            f[i] >= s - r,
            t > 0,
    ;
    assert(t * (1 + r) == t + t * r) by (nonlinear_arith);
    if f[i] <= s {
        assert(t * f[i] <= t * s) by (nonlinear_arith)
            requires
                f[i] <= s,
                t > 0,
        ;
    }
    if r == 0 && f[i] > s {
        assert(c[i] != 0 && s == 0);
        assert(t * s == 0);
        lemma_not_rare(c, n, i);
    }
}

proof fn lemma_not_rare(c: Seq<u32>, k: int, i: int)
    requires
        0 <= i < k <= c.len(),
    ensures
        0 <= rare(c, k),
        rare(c, k) == 0 ==> c[i] == 0 || 4096 * c[i] >= total(c),
    decreases k,
{
    if i < k - 1 {
        lemma_not_rare(c, k - 1, i);
    } else {
        lemma_rare_positive(c, k - 1);
    }
}

proof fn lemma_rare_positive(c: Seq<u32>, k: int)
    ensures
        0 <= rare(c, k),
    decreases k,
{
    if k > 0 {
        lemma_rare_positive(c, k - 1);
    }
}

/// `h` is `g` after symbol `j` has given one of its slots to symbol `k`, `j` being the
/// first of those with the fewest slots above one.
pub open spec fn gives(g: Seq<u32>, h: Seq<u32>, j: int, k: int) -> bool {
    &&& 0 <= j < g.len()
    &&& g[j] > 1
    &&& forall|i: int|
        0 <= i < g.len() && #[trigger] g[i] > 1 ==> g[j] < g[i] || (g[j] == g[i] && j <= i)
    &&& h == g.update(j, (g[j] - 1) as u32).update(k, 1u32)
}

/// `h` is `g` after symbol `k` has been given a slot.
pub open spec fn given(g: Seq<u32>, h: Seq<u32>, k: int) -> bool {
    exists|j: int| #[trigger] gives(g, h, j, k)
}

/// How rare symbols get their slots: going through the symbols in order, one that
/// occurs and has none is given one.
pub proof fn lemma_lending(c: Seq<u32>) -> (g: Seq<Seq<u32>>)
    requires
        2 <= c.len() <= 256,
        forall|j: int| 0 <= j < c.len() ==> #[trigger] c[j] < total(c),
    ensures
        g.len() == c.len() + 1,
        g[c.len() as int] == frequencies(c),
        g[0].len() == c.len(),
        forall|i: int|
            0 <= i < c.len() ==> #[trigger] g[0][i] == 4096 * sum(c, i + 1) / total(c) - 4096 * sum(
                c,
                i,
            ) / total(c),
        forall|k: int|
            #![trigger c[k]]
            0 <= k < c.len() ==> if c[k] == 0 || g[k][k] != 0 {
                g[k + 1] == g[k]
            } else {
                given(g[k], g[k + 1], k)
            },
{
    let n = c.len() as int;
    assert(c[0] < total(c));
    let g = Seq::new((n + 1) as nat, |k: int| restore(shares(c), c, k));
    assert(frequencies(c) == normalized(c));
    assert forall|i: int| 0 <= i < n implies #[trigger] g[0][i] == 4096 * sum(c, i + 1) / total(c)
        - 4096 * sum(c, i) / total(c) by {
        lemma_share(c, i);
    }
    assert forall|k: int|
        #![trigger c[k]]
        0 <= k < n implies if c[k] == 0 || g[k][k] != 0 {
        g[k + 1] == g[k]
    } else {
        given(g[k], g[k + 1], k)
    } by {
        lemma_restore(c, k);
        if c[k] != 0 && g[k][k] == 0 {
            lemma_donor(g[k]);
            assert(gives(g[k], g[k + 1], donor(g[k]), k));
        }
    }
    g
}

/// A symbol that occurs alone has all slots but one; if none occurs, the last two
/// share them.
pub proof fn lemma_one_symbol(c: Seq<u32>, i: int)
    requires
        2 <= c.len() <= 256,
        0 <= i < c.len(),
        c[i] == total(c),
    ensures
        ({
            let f = frequencies(c);
            &&& f.len() == c.len()
            &&& forall|j: int|
                0 <= j < c.len() ==> #[trigger] f[j] == if total(c) == 0 {
                    if j >= c.len() - 2 {
                        2048int
                    } else {
                        0
                    }
                } else if j == i {
                    4095
                } else {
                    0
                }
        }),
{
    let n = c.len() as int;
    let f = frequencies(c);
    assert(only_symbol(c, i));
    assert forall|j: int| 0 <= j < n && j != i implies c[j] == 0 by {
        if i < j {
            lemma_sum_two(c, i, j, n);
        } else {
            lemma_sum_two(c, j, i, n);
        }
    }
}

/// The frequencies of the model of a text, told from the text.
pub proof fn lemma_model_of(s: Seq<u8>, n: int, b: u8)
    requires
        2 <= n <= 256,
        b < n,
        s.len() <= u32::MAX,
        forall|i: int| 0 <= i < s.len() ==> s[i] < n,
    ensures
        ({
            let f = frequencies(counts(s, n));
            let len = s.len() as int;
            let share = s.to_multiset().count(b) as int;
            &&& counts(s, n) == multiplicities(s, n)
            &&& f.len() == n
            &&& len > 0 ==> (share == 0 <==> f[b as int] == 0)
            &&& share == len > 0 ==> f[b as int] == 4095
            &&& (forall|a: u8| #[trigger] s.to_multiset().count(a) < len) ==> {
                &&& total(f) == 4096
                &&& f[b as int] == 1 || len * f[b as int] < 4096 * share + len
                &&& len * f[b as int] > 4096 * share - len * (1 + rare(
                    multiplicities(s, n),
                    n,
                ))
            }
        }),
{
    let c = counts(s, n);
    let len = s.len() as int;
    let f = frequencies(c);
    lemma_counts_multiplicities(s, n);
    lemma_counts_total(s, n);
    let share = s.to_multiset().count(b) as int;
    assert(c[b as int] == share);
    if exists|i: int| 0 <= i < n && c[i] == len {
        let i = choose|i: int| 0 <= i < n && c[i] == len;
        lemma_one_symbol(c, i);
        assert(c[i] == s.to_multiset().count(i as u8));
        assert(f[b as int] == if len == 0 {
            if b >= n - 2 {
                2048int
            } else {
                0
            }
        } else if b == i {
            4095
        } else {
            0
        });
        if b != i {
            lemma_count_two(s, b as int, i);
            lemma_count_bound(s, b as int);
            lemma_count_bound(s, i);
        }
    } else {
        assert forall|j: int| 0 <= j < n implies #[trigger] c[j] < total(c) by {
            assert(c[j] <= s.len());
        }
        lemma_proportional(c, b as int);
    }
}

proof fn lemma_sum_scaled(c: Seq<u32>, d: Seq<u32>, m: int, k: int)
    requires
        0 <= k <= c.len(),
        c.len() == d.len(),
        forall|j: int| 0 <= j < c.len() ==> #[trigger] d[j] == m * c[j],
    ensures
        sum(d, k) == m * sum(c, k),
    decreases k,
{
    if k > 0 {
        lemma_sum_scaled(c, d, m, k - 1);
        assert(d[k - 1] == m * c[k - 1]);
        assert(m * (sum(c, k - 1) + c[k - 1]) == m * sum(c, k - 1) + m * c[k - 1])
            by (nonlinear_arith);
    } else {
        assert(m * 0 == 0);
    }
}

proof fn lemma_quotient_scaled(x: int, t: int, m: int)
    requires
        0 < t,
        0 < m,
    ensures
        (m * x) / (m * t) == x / t,
{
    let q = x / t;
    let r = x % t;
    vstd::arithmetic::div_mod::lemma_fundamental_div_mod(x, t);
    vstd::arithmetic::div_mod::lemma_mod_bound(x, t);
    assert(m * x == q * (m * t) + m * r) by (nonlinear_arith)
        requires
            x == t * q + r,
    ;
    assert(0 <= m * r < m * t) by (nonlinear_arith)
        requires
            0 <= r < t,
            0 < m,
    ;
    vstd::arithmetic::div_mod::lemma_fundamental_div_mod_converse(m * x, m * t, q, m * r);
}

proof fn lemma_restore_same(f: Seq<u32>, c: Seq<u32>, d: Seq<u32>, k: int)
    requires
        k <= c.len(),
        c.len() == d.len(),
        forall|j: int| 0 <= j < c.len() ==> (#[trigger] c[j] == 0 <==> d[j] == 0),
    ensures
        restore(f, c, k) == restore(f, d, k),
    decreases k,
{
    if k > 0 {
        lemma_restore_same(f, c, d, k - 1);
        assert(c[k - 1] == 0 <==> d[k - 1] == 0);
    }
}

/// A model depends on the proportions only: counting everything `m` times over gives
/// the same frequencies.
pub proof fn lemma_scale_free(c: Seq<u32>, d: Seq<u32>, m: int)
    requires
        0 < m,
        c.len() == d.len(),
        forall|j: int| 0 <= j < c.len() ==> #[trigger] d[j] == m * c[j],
    ensures
        frequencies(d) == frequencies(c),
{
    let n = c.len() as int;
    let t = total(c);
    lemma_sum_scaled(c, d, m, n);
    lemma_sum_monotone(c, 0, n);
    assert(total(d) == m * t);
    assert(m * t == 0 <==> t == 0) by (nonlinear_arith)
        requires
            0 < m,
            0 <= t,
    ;
    if t > 0 {
        assert forall|j: int| 0 <= j < n implies (#[trigger] c[j] == 0 <==> d[j] == 0) && (c[j] == t
            <==> d[j] == total(d)) by {
            let a = c[j] as int;
            assert(d[j] == m * a);
            assert((m * a == 0 <==> a == 0) && (m * a == m * t <==> a == t)) by (nonlinear_arith)
                requires
                    0 < m,
                    0 <= a,
            ;
        }
        assert((exists|i: int| only_symbol(c, i)) <==> (exists|i: int| only_symbol(d, i))) by {
            if exists|i: int| only_symbol(c, i) {
                let i = choose|i: int| only_symbol(c, i);
                assert(c[i] == t);
                assert(only_symbol(d, i));
            }
            if exists|i: int| only_symbol(d, i) {
                let i = choose|i: int| only_symbol(d, i);
                assert(c[i] == 0 <==> d[i] == 0);
                assert(only_symbol(c, i));
            }
        }
        assert(shares(d) =~= shares(c)) by {
            assert forall|i: int| 0 <= i < n implies shares(d)[i] == shares(c)[i] by {
                lemma_sum_scaled(c, d, m, i);
                lemma_sum_scaled(c, d, m, i + 1);
                lemma_quotient_scaled(4096 * sum(c, i), t, m);
                lemma_quotient_scaled(4096 * sum(c, i + 1), t, m);
                assert(4096 * (m * sum(c, i)) == m * (4096 * sum(c, i))) by (nonlinear_arith);
                assert(4096 * (m * sum(c, i + 1)) == m * (4096 * sum(c, i + 1)))
                    by (nonlinear_arith);
            }
        }
        lemma_restore_same(shares(c), c, d, n);
        assert(frequencies(d) =~= frequencies(c));
    } else {
        assert(frequencies(d) =~= frequencies(c));
    }
}

// ---------------------------------------------------------------------------
// Executable statistics
// ---------------------------------------------------------------------------
/// Counts the symbols `0..n` in `src`.
pub fn histogram(src: &[u8], n: usize) -> (c: Vec<u32>)
    requires
        n <= 256,
        src@.len() <= u32::MAX,
        forall|i: int| 0 <= i < src@.len() ==> src@[i] < n,
    ensures
        c@ == counts(src@, n as int),
{
    let mut c: Vec<u32> = vec![0u32; n];
    let mut i: usize = 0;
    assert(c@ =~= counts(src@.take(0), n as int));
    while i < src.len()
        invariant
            i <= src.len(),
            src@.len() <= u32::MAX,
            forall|j: int| 0 <= j < src@.len() ==> src@[j] < n,
            c@ == counts(src@.take(i as int), n as int),
        decreases src.len() - i,
    {
        let b: usize = src[i] as usize;
        proof {
            let s = src@.take(i as int);
            let t = src@.take(i + 1);
            assert(t.drop_last() =~= s);
            assert(t.last() == src@[i as int]);
            lemma_count_bound(s, b as int);
            assert forall|j: int| 0 <= j < n implies counts(t, n as int)[j] == if j == b {
                (c@[j] + 1) as u32
            } else {
                c@[j]
            } by {
                lemma_count_bound(s, j);
            }
        }
        c[b] = c[b] + 1;
        i = i + 1;
        assert(c@ =~= counts(src@.take(i as int), n as int));
    }
    assert(src@.take(src.len() as int) =~= src@);
    c
}

/// Sums `f`.
fn sum_of(f: &Vec<u32>) -> (t: u64)
    requires
        f@.len() <= 256,
    ensures
        t == total(f@),
{
    let mut t: u64 = 0;
    let mut i: usize = 0;
    while i < f.len()
        invariant
            i <= f.len() <= 256,
            t == sum(f@, i as int),
            t <= 0xffff_ffff * (i as int),
        decreases f.len() - i,
    {
        t = t + f[i] as u64;
        i = i + 1;
    }
    t
}

/// Finds the symbol that gives up a slot.
fn find_donor(f: &Vec<u32>) -> (j: usize)
    requires
        f@.len() <= 256,
        total(f@) == 4096,
    ensures
        j == donor(f@),
        is_donor(f@, j as int),
{
    let mut best: usize = 0;
    let mut found: bool = false;
    let mut i: usize = 0;
    while i < f.len()
        invariant
            i <= f.len(),
            found ==> best < i && f@[best as int] > 1,
            found ==> forall|k: int|
                0 <= k < i && f@[k] > 1 ==> f@[best as int] < f@[k] || (f@[best as int] == f@[k]
                    && best <= k),
            !found ==> forall|k: int| 0 <= k < i ==> f@[k] <= 1,
        decreases f.len() - i,
    {
        if f[i] > 1 && (!found || f[i] < f[best]) {
            best = i;
            found = true;
        }
        i = i + 1;
    }
    proof {
        lemma_donor(f@);
        let d = donor(f@);
        assert(f@[d] > 1);
        assert(is_donor(f@, best as int));
        lemma_donor_unique(f@, best as int, d);
    }
    best
}

/// Resamples the counts `c` so that they add up to 4096, taking slots from
/// other symbols to keep every symbol that occurs.
pub fn normalize(c: &Vec<u32>) -> (f: Vec<u32>)
    requires
        c@.len() <= 256,
        0 < total(c@) <= u32::MAX,
    ensures
        f@ == normalized(c@),
{
    let t: u64 = sum_of(c);
    let n: usize = c.len();
    let mut f: Vec<u32> = Vec::new();
    let mut acc: u64 = 0;
    let mut prev: u64 = 0;
    let mut i: usize = 0;
    while i < n
        invariant
            i <= n == c@.len(),
            t == total(c@),
            0 < t <= u32::MAX,
            acc == sum(c@, i as int),
            prev == scaled(c@, i as int),
            f@.len() == i,
            forall|k: int| 0 <= k < i ==> f@[k] == shares(c@)[k],
        decreases n - i,
    {
        proof {
            lemma_sum_monotone(c@, i + 1, n as int);
            lemma_scaled_monotone(c@, i as int, i + 1);
        }
        acc = acc + c[i] as u64;
        let next: u64 = 4096 * acc / t;
        f.push((next - prev) as u32);
        prev = next;
        i = i + 1;
    }
    assert(f@ =~= shares(c@));
    i = 0;
    while i < n
        invariant
            i <= n == c@.len() <= 256,
            total(c@) > 0,
            f@ == restore(shares(c@), c@, i as int),
            f@.len() == n,
        decreases n - i,
    {
        if c[i] != 0 && f[i] == 0 {
            proof {
                lemma_restore(c@, i as int);
            }
            let j: usize = find_donor(&f);
            f[j] = f[j] - 1;
            f[i] = 1;
        }
        i = i + 1;
    }
    f
}

/// The frequencies of a model for the counts `c`.
pub fn frequencies_of(c: &Vec<u32>) -> (f: Vec<u32>)
    requires
        2 <= c@.len() <= 256,
        total(c@) <= u32::MAX,
    ensures
        f@ == frequencies(c@),
{
    let n: usize = c.len();
    let t: u64 = sum_of(c);
    if t == 0 {
        let mut f: Vec<u32> = vec![0u32; n];
        f[n - 2] = SLOTS / 2;
        f[n - 1] = SLOTS / 2;
        assert(f@ =~= frequencies(c@));
        return f;
    }
    let mut i: usize = 0;
    while i < n
        invariant
            i <= n == c@.len(),
            t == total(c@),
            t != 0,
            t <= u32::MAX,
            forall|j: int| 0 <= j < i ==> !only_symbol(c@, j),
        decreases n - i,
    {
        if c[i] as u64 == t {
            let mut f: Vec<u32> = vec![0u32; n];
            f[i] = SLOTS - 1;
            proof {
                assert(only_symbol(c@, i as int));
                assert forall|j: int| 0 <= j < n && j != i implies c@[j] != total(c@) by {
                    if i < j {
                        lemma_sum_two(c@, i as int, j, n as int);
                    } else {
                        lemma_sum_two(c@, j, i as int, n as int);
                    }
                }
                assert(f@ =~= frequencies(c@));
            }
            return f;
        }
        i = i + 1;
    }
    assert(!exists|j: int| only_symbol(c@, j));
    proof {
        lemma_sum_monotone(c@, 0, n as int);
    }
    normalize(c)
}

} // verus!
