//! Variable-length integers: base 128 in the control area, which is read from
//! the end of a block backwards, and base 254 in the length streams.
use crate::error::Error;
use vstd::arithmetic::div_mod::*;
use vstd::arithmetic::power::*;
use vstd::prelude::*;

verus! {

// ---------------------------------------------------------------------------
// Control integers
// ---------------------------------------------------------------------------
/// Number of 7-bit groups of a control integer.
pub open spec fn group_count(v: int) -> int
    decreases v,
{
    if v < 64 {
        1
    } else {
        1 + group_count(v / 128)
    }
}

/// The low `k` groups of `v`, most significant first.
pub open spec fn groups(v: int, k: int) -> Seq<u8>
    decreases k,
{
    if k <= 0 {
        seq![]
    } else {
        groups(v / 128, k - 1).push((v % 128) as u8)
    }
}

/// A control integer in the order in which it is read; the top bit marks its
/// last byte.
pub open spec fn control_bytes(v: int) -> Seq<u8> {
    groups(v / 128, group_count(v) - 1).push((128 + v % 128) as u8)
}

/// The control integer read backwards from before position `end`, behind the
/// groups that `acc` holds, and the position before which reading goes on.
/// Values wrap at 64 bits.
pub open spec fn control_from(s: Seq<u8>, end: int, acc: int) -> Option<(int, int)>
    decreases end,
{
    if end <= 0 {
        None
    } else {
        let b = s[end - 1] as int;
        let v = (acc % 0x200_0000_0000_0000) * 128 + b % 128;
        if b >= 128 {
            Some((v, end - 1))
        } else {
            control_from(s, end - 1, v)
        }
    }
}

/// The control integer that ends before position `end`.
pub open spec fn control_at(s: Seq<u8>, end: int) -> Option<(int, int)> {
    control_from(s, end, 0)
}

/// `p` is what reading `s` backwards from before `end` meets first.
pub open spec fn precedes(s: Seq<u8>, end: int, p: Seq<u8>) -> bool {
    &&& p.len() <= end <= s.len()
    &&& forall|i: int| 0 <= i < p.len() ==> s[end - 1 - i] == #[trigger] p[i]
}

spec fn fits(v: int, k: int) -> bool
    decreases k,
{
    if k <= 0 {
        v == 0
    } else {
        fits(v / 128, k - 1)
    }
}

proof fn lemma_group_count(v: int)
    requires
        0 <= v,
    ensures
        group_count(v) >= 1,
        fits(v, group_count(v)),
    decreases v,
{
    if v < 64 {
        assert(fits(v / 128, 0));
    } else {
        lemma_group_count(v / 128);
    }
}

proof fn lemma_groups(s: Seq<u8>, end: int, v: int, k: int)
    requires
        0 <= v < 0x1_0000_0000_0000_0000,
        0 <= k,
        fits(v, k),
        precedes(s, end, groups(v, k)),
    ensures
        groups(v, k).len() == k,
        control_from(s, end, 0) == control_from(s, end - k, v),
    decreases k,
{
    if k > 0 {
        let g = groups(v / 128, k - 1);
        assert forall|i: int| 0 <= i < g.len() implies s[end - 1 - i] == #[trigger] g[i] by {
            assert(groups(v, k)[i] == g[i]);
        }
        lemma_groups(s, end, v / 128, k - 1);
        assert(s[end - k] == groups(v, k)[k - 1]);
    }
}

/// The bounds of what a control read gives.
pub proof fn lemma_control_bounds(s: Seq<u8>, end: int, acc: int)
    requires
        end <= s.len(),
        0 <= acc,
    ensures
        control_from(s, end, acc) matches Some((v, e)) ==> 0 <= e < end && 0 <= v
            < 0x1_0000_0000_0000_0000,
    decreases end,
{
    if end > 0 {
        lemma_control_bounds(s, end - 1, (acc % 0x200_0000_0000_0000) * 128 + s[end - 1] % 128);
    }
}

/// Reading gives back a control integer that was written, and stops behind it.
pub proof fn lemma_control_roundtrip(s: Seq<u8>, end: int, v: int)
    requires
        0 <= v < 0x1_0000_0000_0000_0000,
        precedes(s, end, control_bytes(v)),
    ensures
        control_at(s, end) == Some((v, end - control_bytes(v).len())),
{
    lemma_group_count(v);
    let k = group_count(v) - 1;
    let g = groups(v / 128, k);
    let c = control_bytes(v);
    if k == 0 {
        assert(fits(v / 128, 0));
    }
    assert forall|i: int| 0 <= i < g.len() implies s[end - 1 - i] == #[trigger] g[i] by {
        assert(c[i] == g[i]);
    }
    lemma_groups(s, end, v / 128, k);
    assert(s[end - 1 - k] == c[k]);
}

/// A control integer has one byte for each group.
pub proof fn lemma_control_len(v: int)
    requires
        0 <= v,
    ensures
        control_bytes(v).len() == group_count(v),
        group_count(v) >= 1,
{
    lemma_group_count(v);
    lemma_groups_len(v / 128, group_count(v) - 1);
}

proof fn lemma_groups_len(v: int, k: int)
    requires
        0 <= k,
    ensures
        groups(v, k).len() == k,
    decreases k,
{
    if k > 0 {
        lemma_groups_len(v / 128, k - 1);
    }
}

/// The digits of a control integer: base 128, the highest first, as few as leave room
/// for a bit above the highest; only the last has its top bit set.
pub proof fn lemma_control_digits(v: int, i: int)
    requires
        0 <= v,
        0 <= i < control_bytes(v).len(),
    ensures
        ({
            let c = control_bytes(v);
            let n = c.len() as int;
            &&& c[i] as int % 128 == v / pow(128, (n - 1 - i) as nat) % 128
            &&& c[i] >= 128 <==> i == n - 1
            &&& v < 64 * pow(128, (n - 1) as nat)
            &&& n > 1 ==> v >= 64 * pow(128, (n - 2) as nat)
        }),
{
    lemma_control_len(v);
    lemma_group_range(v);
    let n = group_count(v);
    let k = n - 1;
    lemma_groups_len(v / 128, k);
    if i < k {
        lemma_group_digits(v / 128, k, i);
        lemma_pow_positive(128, (k - 1 - i) as nat);
        lemma_pow1(128);
        lemma_pow_adds(128, 1, (k - 1 - i) as nat);
        lemma_div_denominator(v, 128, pow(128, (k - 1 - i) as nat));
    } else {
        lemma_pow0(128);
    }
}

proof fn lemma_group_digits(v: int, k: int, i: int)
    requires
        0 <= v,
        0 <= i < k,
    ensures
        groups(v, k).len() == k,
        groups(v, k)[i] == v / pow(128, (k - 1 - i) as nat) % 128,
    decreases k,
{
    lemma_groups_len(v / 128, k - 1);
    if i < k - 1 {
        lemma_group_digits(v / 128, k - 1, i);
        lemma_pow_positive(128, (k - 2 - i) as nat);
        lemma_pow1(128);
        lemma_pow_adds(128, 1, (k - 2 - i) as nat);
        lemma_div_denominator(v, 128, pow(128, (k - 2 - i) as nat));
    } else {
        lemma_pow0(128);
    }
}

proof fn lemma_group_range(v: int)
    requires
        0 <= v,
    ensures
        v < 64 * pow(128, (group_count(v) - 1) as nat),
        group_count(v) >= 1,
        group_count(v) > 1 ==> v >= 64 * pow(128, (group_count(v) - 2) as nat),
    decreases v,
{
    lemma_pow0(128);
    if v >= 64 {
        let n = group_count(v / 128);
        lemma_group_range(v / 128);
        lemma_pow1(128);
        lemma_pow_adds(128, 1, (n - 1) as nat);
        if n > 1 {
            lemma_pow_adds(128, 1, (n - 2) as nat);
        }
    }
}

/// What reading a control integer takes in: the bytes before `end`, back to the first
/// with its top bit set, each adding a digit below those before it; 64 bits are kept.
pub proof fn lemma_control_read(s: Seq<u8>, end: int) -> (acc: Seq<int>)
    requires
        end <= s.len(),
        control_at(s, end) is Some,
    ensures
        ({
            let (v, e) = control_at(s, end).unwrap();
            &&& 0 <= e < end
            &&& s[e] >= 128
            &&& forall|j: int| e < j < end ==> #[trigger] s[j] < 128
            &&& acc.len() == end - e + 1
            &&& acc[0] == 0
            &&& acc[end - e] == v
            &&& forall|j: int|
                e <= j < end ==> acc[end - j] == (acc[end - 1 - j] % 0x200_0000_0000_0000) * 128 + (
                #[trigger] s[j]) % 128
        }),
{
    lemma_control_read_from(s, end, 0)
}

proof fn lemma_control_read_from(s: Seq<u8>, end: int, a: int) -> (acc: Seq<int>)
    requires
        end <= s.len(),
        control_from(s, end, a) is Some,
    ensures
        ({
            let (v, e) = control_from(s, end, a).unwrap();
            &&& 0 <= e < end
            &&& s[e] >= 128
            &&& forall|j: int| e < j < end ==> #[trigger] s[j] < 128
            &&& acc.len() == end - e + 1
            &&& acc[0] == a
            &&& acc[end - e] == v
            &&& forall|j: int|
                e <= j < end ==> acc[end - j] == (acc[end - 1 - j] % 0x200_0000_0000_0000) * 128 + (
                #[trigger] s[j]) % 128
        }),
    decreases end,
{
    let b = s[end - 1] as int;
    let v = (a % 0x200_0000_0000_0000) * 128 + b % 128;
    if b >= 128 {
        seq![a, v]
    } else {
        let r = lemma_control_read_from(s, end - 1, v);
        let acc = seq![a] + r;
        let e = control_from(s, end, a).unwrap().1;
        assert forall|j: int| e <= j < end implies acc[end - j] == (acc[end - 1 - j]
            % 0x200_0000_0000_0000) * 128 + (#[trigger] s[j]) % 128 by {
            if j < end - 1 {
                assert(acc[end - j] == r[end - 1 - j]);
                assert(acc[end - 1 - j] == r[end - 1 - 1 - j]);
            }
        }
        acc
    }
}

/// A value of 64 bits takes at most ten groups.
pub proof fn lemma_group_count_bound(v: int)
    requires
        0 <= v < 0x1_0000_0000_0000_0000,
    ensures
        1 <= group_count(v) <= 10,
{
    reveal_with_fuel(group_count, 11);
}

/// Number of bytes of the control integer `v`.
pub fn control_varuint_len(v: u64) -> (n: usize)
    ensures
        n == control_bytes(v as int).len(),
        n == group_count(v as int),
        1 <= n <= 10,
{
    proof {
        lemma_control_len(v as int);
        lemma_group_count_bound(v as int);
    }
    let mut n: usize = 1;
    let mut r: u64 = v;
    while r >= 64
        invariant
            group_count(v as int) == n - 1 + group_count(r as int),
            group_count(v as int) <= 10,
            n <= 10,
        decreases r,
    {
        proof {
            lemma_group_count(r as int / 128);
        }
        r = r / 128;
        n = n + 1;
    }
    n
}

/// Appends the low `k` groups of `v`, most significant first.
fn push_groups(dst: &mut Vec<u8>, v: u64, k: usize)
    ensures
        final(dst)@ == old(dst)@ + groups(v as int, k as int),
    decreases k,
{
    if k > 0 {
        push_groups(dst, v / 128, k - 1);
        dst.push((v % 128) as u8);
    }
    assert(dst@ =~= old(dst)@ + groups(v as int, k as int));
}

/// Appends the control integer `v`.
pub fn append_control_varuint(ctrl: &mut Vec<u8>, v: u64)
    ensures
        final(ctrl)@ == old(ctrl)@ + control_bytes(v as int),
{
    let n: usize = control_varuint_len(v);
    push_groups(ctrl, v / 128, n - 1);
    ctrl.push((128 + v % 128) as u8);
    assert(ctrl@ =~= old(ctrl)@ + control_bytes(v as int));
}

/// Reads the control integer that ends before position `end`; the second
/// component is the position before which reading goes on.
pub fn read_control_varuint(src: &[u8], end: usize) -> (r: Result<(u64, usize), Error>)
    requires
        end <= src@.len(),
    ensures
        match r {
            Ok((v, e)) => control_at(src@, end as int) == Some((v as int, e as int)) && e < end,
            Err(e) => e == Error::OutOfInputData && control_at(src@, end as int) is None,
        },
{
    let ghost all = control_at(src@, end as int);
    let mut at: usize = end;
    let mut r: u64 = 0;
    while at > 0
        invariant
            at <= end <= src@.len(),
            all == control_from(src@, at as int, r as int),
            all == control_at(src@, end as int),
        decreases at,
    {
        at = at - 1;
        let b: u8 = src[at];
        r = (r % 0x200_0000_0000_0000) * 128 + (b % 128) as u64;
        if b >= 128 {
            return Ok((r, at));
        }
    }
    Err(Error::OutOfInputData)
}

// ---------------------------------------------------------------------------
// Lengths in the streams
// ---------------------------------------------------------------------------
/// Values from here on cannot be written as a stream integer.
pub const VARUINT_LIMIT: u32 = 16516096;

/// A stream integer: one byte below 254, else two or three base-254 digits
/// behind a marker, low digit first. A value below [`VARUINT_LIMIT`] leaves a byte for
/// the top digit; of a larger one, which no block holds, the digit is cut.
pub open spec fn varuint_bytes(v: int) -> Seq<u8> {
    if v < 254 {
        seq![v as u8]
    } else if v < 254 * 254 {
        seq![254u8, (v % 254) as u8, (v / 254) as u8]
    } else {
        seq![255u8, (v % 254) as u8, (v / 254 % 254) as u8, (v / 254 / 254 % 256) as u8]
    }
}

/// The stream integer at the front of `s` and what follows it.
pub open spec fn varuint_front(s: Seq<u8>) -> Option<(int, Seq<u8>)> {
    if s.len() < 1 {
        None
    } else if s[0] < 254 {
        Some((s[0] as int, s.skip(1)))
    } else if s[0] == 254 {
        if s.len() < 3 {
            None
        } else {
            Some((s[1] + 254 * s[2], s.skip(3)))
        }
    } else if s.len() < 4 {
        None
    } else {
        Some((s[1] + 254 * s[2] + 254 * 254 * s[3], s.skip(4)))
    }
}

/// Reading gives back a stream integer that was written.
pub proof fn lemma_varuint_roundtrip(v: int, rest: Seq<u8>)
    requires
        0 <= v < VARUINT_LIMIT,
    ensures
        varuint_front(varuint_bytes(v) + rest) == Some((v, rest)),
        varuint_bytes(v).len() == if v < 254 {
            1int
        } else if v < 254 * 254 {
            3
        } else {
            4
        },
{
    let p = varuint_bytes(v);
    let s = p + rest;
    assert(s.skip(p.len() as int) =~= rest);
    assert(forall|i: int| 0 <= i < p.len() ==> s[i] == p[i]);
    if v >= 254 * 254 {
        assert(v / 254 / 254 < 256);
    }
}

/// The digits of a stream integer: one byte, or a marker and base-254 digits, the low
/// one first; and what any bytes read as.
pub proof fn lemma_varuint_digits(v: int, s: Seq<u8>)
    requires
        0 <= v < VARUINT_LIMIT,
    ensures
        ({
            let p = varuint_bytes(v);
            if v < 254 {
                p.len() == 1 && p[0] == v
            } else if v < 64516 {
                p.len() == 3 && p[0] == 254 && p[1] < 254 && v == p[1] + 254 * p[2]
            } else {
                p.len() == 4 && p[0] == 255 && p[1] < 254 && p[2] < 254 && v == p[1] + 254 * p[2]
                    + 64516 * p[3]
            }
        }),
        varuint_front(s) is None <==> s.len() < 1 || (s[0] == 254 && s.len() < 3) || (s[0] == 255
            && s.len() < 4),
        varuint_front(s) matches Some((x, rest)) ==> if s[0] < 254 {
            x == s[0] && rest == s.skip(1)
        } else if s[0] == 254 {
            x == s[1] + 254 * s[2] && rest == s.skip(3)
        } else {
            x == s[1] + 254 * s[2] + 64516 * s[3] && rest == s.skip(4)
        },
{
    if v >= 64516 {
        assert(v / 254 / 254 < 256);
    }
}

/// Appends the stream integer `v`.
pub fn append_varuint(s: &mut Vec<u8>, v: u32)
    ensures
        final(s)@ == old(s)@ + varuint_bytes(v as int),
{
    if v < 254 {
        s.push(v as u8);
    } else if v < 254 * 254 {
        s.push(254);
        s.push((v % 254) as u8);
        s.push((v / 254) as u8);
    } else {
        s.push(255);
        s.push((v % 254) as u8);
        let t: u32 = v / 254;
        s.push((t % 254) as u8);
        s.push((t / 254 % 256) as u8);
    }
    assert(s@ =~= old(s)@ + varuint_bytes(v as int));
}

} // verus!
