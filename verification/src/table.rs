//! The serialised form of a frequency table.
//!
//! Every symbol has a three-bit control code; the codes stand at the end, eight
//! to three bytes. A code below five is the frequency itself. Codes five, six
//! and seven announce one, two and three nibbles, which stand before the codes,
//! the first one last.
use crate::bytes;
use crate::bytes::{append_reversed, get_u24, push_u24};
use crate::error::Error;
use crate::model;
use crate::rans;
use crate::rans::build_dense;
use vstd::arithmetic::div_mod::*;
use vstd::arithmetic::power::*;
use vstd::prelude::*;

verus! {

// ---------------------------------------------------------------------------
// Writing
// ---------------------------------------------------------------------------
/// The control code of frequency `f`.
pub open spec fn code_of(f: int) -> int {
    if f < 5 {
        f
    } else if f < 21 {
        5
    } else if f < 277 {
        6
    } else {
        7
    }
}

/// The nibbles of frequency `f`, least significant first.
pub open spec fn nibbles_of(f: int) -> Seq<u8> {
    if f < 5 {
        seq![]
    } else if f < 21 {
        seq![(f - 5) as u8]
    } else if f < 277 {
        seq![((f - 21) % 16) as u8, ((f - 21) / 16) as u8]
    } else {
        seq![((f - 277) % 16) as u8, ((f - 277) / 16 % 16) as u8, ((f - 277) / 256) as u8]
    }
}

/// The nibbles of the first `k` frequencies.
pub open spec fn nibbles(f: Seq<u32>, k: int) -> Seq<u8>
    decreases k,
{
    if k <= 0 {
        seq![]
    } else {
        nibbles(f, k - 1) + nibbles_of(f[k - 1] as int)
    }
}

/// Nibbles packed two to a byte, the first one low.
pub open spec fn packed(n: Seq<u8>) -> Seq<u8> {
    Seq::new(
        ((n.len() + 1) / 2) as nat,
        |i: int|
            (n[2 * i] + 16 * if 2 * i + 1 < n.len() {
                n[2 * i + 1] as int
            } else {
                0
            }) as u8,
    )
}

/// The control codes of the `m` frequencies from `i` on, as octal digits.
pub open spec fn group(f: Seq<u32>, i: int, m: int) -> int
    decreases m,
{
    if m <= 0 {
        0
    } else {
        code_of(f[i] as int) + 8 * group(f, i + 1, m - 1)
    }
}

/// The first `g` groups of eight control codes.
pub open spec fn control(f: Seq<u32>, g: int) -> Seq<u8>
    decreases g,
{
    if g <= 0 {
        seq![]
    } else {
        control(f, g - 1) + bytes::le24(group(f, 8 * (g - 1), 8))
    }
}

/// The serialised form of the frequencies `f`.
pub open spec fn table_bytes(f: Seq<u32>) -> Seq<u8> {
    packed(nibbles(f, f.len() as int)).reverse() + control(f, f.len() as int / 8)
}

// ---------------------------------------------------------------------------
// Reading
// ---------------------------------------------------------------------------
/// `x` without its `j` lowest octal digits.
pub open spec fn drop_digits(x: int, j: int) -> int
    decreases j,
{
    if j <= 0 {
        x
    } else {
        drop_digits(x, j - 1) / 8
    }
}

/// The control code of symbol `k` in the control block `ctrl`.
pub open spec fn code_at(ctrl: Seq<u8>, k: int) -> int {
    drop_digits(bytes::u24_at(ctrl, 3 * (k / 8)), k % 8) % 8
}

/// The nibble with number `i`; the high nibble of a byte comes before the low one.
#[verifier::opaque]
pub open spec fn nibble_at(src: Seq<u8>, i: int) -> int {
    if i % 2 == 1 {
        src[i / 2] as int % 16
    } else {
        src[i / 2] as int / 16
    }
}

/// The frequency with control code `v`, read from the last of the `left` first
/// nibbles of `src`, and how many nibbles are left after it.
pub open spec fn freq_at(src: Seq<u8>, v: int, left: int) -> Option<(u32, int)> {
    if v == 7 {
        if left < 3 {
            None
        } else {
            Some(
                (
                    (nibble_at(src, left - 1) + 16 * nibble_at(src, left - 2) + 256 * nibble_at(
                        src,
                        left - 3,
                    ) + 277) as u32,
                    left - 3,
                ),
            )
        }
    } else if v == 6 {
        if left < 2 {
            None
        } else {
            Some(
                (
                    (nibble_at(src, left - 1) + 16 * nibble_at(src, left - 2) + 21) as u32,
                    left - 2,
                ),
            )
        }
    } else if v == 5 {
        if left < 1 {
            None
        } else {
            Some(((nibble_at(src, left - 1) + 5) as u32, left - 1))
        }
    } else {
        Some((v as u32, left))
    }
}

/// The length of the control block for `n` symbols.
pub open spec fn control_len(n: int) -> int {
    3 * (n / 8)
}

/// The frequencies of the first `k` of `n` symbols, and how many nibbles are left.
pub open spec fn freqs_upto(src: Seq<u8>, n: int, k: int) -> Option<(Seq<u32>, int)>
    decreases k,
{
    let at = src.len() - control_len(n);
    if k <= 0 {
        Some((seq![], 2 * at))
    } else {
        match freqs_upto(src, n, k - 1) {
            None => None,
            Some((fs, left)) => match freq_at(src, code_at(src.skip(at), k - 1), left) {
                None => None,
                Some((f, rest)) => Some((fs.push(f), rest)),
            },
        }
    }
}

/// The frequency table of `n` symbols at the end of `src`, and the length of
/// what stands before it.
///
/// A table whose frequencies need more than the 4096 slots is refused.
pub open spec fn parse(src: Seq<u8>, n: int) -> Result<(Seq<u32>, int), Error> {
    if src.len() < control_len(n) {
        Err(Error::WrongSourceSize)
    } else {
        match freqs_upto(src, n, n) {
            None => Err(Error::OutOfInputData),
            Some((f, left)) => if model::total(f) > 4096 {
                Err(Error::UnsupportedTable)
            } else {
                Ok((f, left / 2))
            },
        }
    }
}

// ---------------------------------------------------------------------------
// Reading gives back what was written
// ---------------------------------------------------------------------------
proof fn lemma_group_bound(f: Seq<u32>, i: int, m: int)
    requires
        0 <= m <= 8,
    ensures
        0 <= group(f, i, m),
        m == 8 ==> group(f, i, m) < 16777216,
{
    reveal_with_fuel(group, 9);
}

proof fn lemma_group_digits(f: Seq<u32>, i: int, m: int, j: int)
    requires
        0 <= j <= m,
    ensures
        drop_digits(group(f, i, m), j) == group(f, i + j, m - j),
    decreases j,
{
    if j > 0 {
        lemma_group_digits(f, i, m, j - 1);
    }
}

proof fn lemma_control_len(f: Seq<u32>, g: int)
    requires
        0 <= g,
    ensures
        control(f, g).len() == 3 * g,
    decreases g,
{
    if g > 0 {
        lemma_control_len(f, g - 1);
    }
}

proof fn lemma_control_at(f: Seq<u32>, g: int, h: int)
    requires
        0 <= h < g,
    ensures
        bytes::holds_at(control(f, g), 3 * h, bytes::le24(group(f, 8 * h, 8))),
    decreases g,
{
    lemma_control_len(f, g);
    lemma_control_len(f, g - 1);
    let p = bytes::le24(group(f, 8 * h, 8));
    if h < g - 1 {
        lemma_control_at(f, g - 1, h);
        assert(control(f, g).subrange(3 * h, 3 * h + 3) =~= control(f, g - 1).subrange(
            3 * h,
            3 * h + 3,
        ));
    } else {
        assert(control(f, g).subrange(3 * h, 3 * h + 3) =~= p);
    }
}

proof fn lemma_code_at(f: Seq<u32>, g: int, k: int)
    requires
        0 <= k < 8 * g,
    ensures
        code_at(control(f, g), k) == code_of(f[k] as int),
{
    let h = k / 8;
    let j = k % 8;
    lemma_control_at(f, g, h);
    lemma_group_bound(f, 8 * h, 8);
    bytes::lemma_read_le24(control(f, g), 3 * h, group(f, 8 * h, 8));
    lemma_group_digits(f, 8 * h, 8, j);
    assert(group(f, k, 8 - j) == code_of(f[k] as int) + 8 * group(f, k + 1, 7 - j));
}

proof fn lemma_nibbles_prefix(f: Seq<u32>, k: int, n: int)
    requires
        0 <= k <= n,
    ensures
        nibbles(f, k).len() <= nibbles(f, n).len(),
        forall|i: int|
            0 <= i < nibbles(f, k).len() ==> nibbles(f, k)[i] == #[trigger] nibbles(f, n)[i],
    decreases n,
{
    if k < n {
        lemma_nibbles_prefix(f, k, n - 1);
    }
}

proof fn lemma_nibbles_small(f: Seq<u32>, k: int)
    requires
        0 <= k <= f.len(),
        forall|i: int| 0 <= i < f.len() ==> f[i] <= 4095,
    ensures
        forall|i: int| 0 <= i < nibbles(f, k).len() ==> #[trigger] nibbles(f, k)[i] < 16,
    decreases k,
{
    if k > 0 {
        lemma_nibbles_small(f, k - 1);
        assert(f[k - 1] <= 4095);
        let own = nibbles_of(f[k - 1] as int);
        assert forall|i: int| 0 <= i < nibbles(f, k).len() implies #[trigger] nibbles(f, k)[i]
            < 16 by {
            if i < nibbles(f, k - 1).len() {
                assert(nibbles(f, k)[i] == nibbles(f, k - 1)[i]);
            } else {
                assert(nibbles(f, k)[i] == own[i - nibbles(f, k - 1).len()]);
            }
        }
    }
}

/// Where the packed nibbles end up in the serialised form.
proof fn lemma_nibble_placed(head: Seq<u8>, n: Seq<u8>, tail: Seq<u8>, m: int)
    requires
        0 <= m < n.len(),
        forall|i: int| 0 <= i < n.len() ==> n[i] < 16,
    ensures
        nibble_at(
            head + packed(n).reverse() + tail,
            2 * (head.len() + packed(n).len()) - 1 - m,
        ) == n[m],
{
    reveal(nibble_at);
    let p = packed(n);
    let s = head + p.reverse() + tail;
    let i = m / 2;
    let at = head.len() + p.len() - 1 - i;
    assert(s[at] == p.reverse()[p.len() - 1 - i]);
    assert(s[at] == p[i]);
    assert(n[2 * i] < 16);
    let idx = 2 * (head.len() + p.len()) - 1 - m;
    if m % 2 == 0 {
        assert(idx == 2 * at + 1);
    } else {
        assert(n[2 * i + 1] < 16);
        assert(idx == 2 * at);
    }
}

/// The nibbles of a frequency make up the frequency.
proof fn lemma_nibble_sum(x: int)
    requires
        0 <= x <= 4095,
    ensures
        5 <= x < 21 ==> nibbles_of(x)[0] + 5 == x,
        21 <= x < 277 ==> nibbles_of(x)[0] + 16 * nibbles_of(x)[1] + 21 == x,
        277 <= x ==> nibbles_of(x)[0] + 16 * nibbles_of(x)[1] + 256 * nibbles_of(x)[2] + 277 == x,
{
    let y = x - 277;
    assert(y / 16 / 16 == y / 256);
}

/// A frequency is read back from its own nibbles.
proof fn lemma_freq_read(src: Seq<u8>, x: int, left: int)
    requires
        0 <= x <= 4095,
        nibbles_of(x).len() <= left,
        forall|i: int|
            0 <= i < nibbles_of(x).len() ==> nibble_at(src, left - 1 - i) == #[trigger] nibbles_of(
                x,
            )[i],
    ensures
        freq_at(src, code_of(x), left) == Some((x as u32, left - nibbles_of(x).len())),
{
    let own = nibbles_of(x);
    lemma_nibble_sum(x);
    if x >= 277 {
        assert(nibble_at(src, left - 1) == own[0]);
        assert(nibble_at(src, left - 1 - 1) == own[1]);
        assert(nibble_at(src, left - 1 - 2) == own[2]);
    } else if x >= 21 {
        assert(nibble_at(src, left - 1) == own[0]);
        assert(nibble_at(src, left - 1 - 1) == own[1]);
    } else if x >= 5 {
        assert(nibble_at(src, left - 1) == own[0]);
    }
}

/// The nibbles of symbol `k` stand where they are looked for.
proof fn lemma_own_nibbles(head: Seq<u8>, f: Seq<u32>, tail: Seq<u8>, k: int)
    requires
        0 <= k < f.len(),
        forall|i: int| 0 <= i < f.len() ==> f[i] <= 4095,
    ensures
        ({
            let all = nibbles(f, f.len() as int);
            let left = 2 * (head.len() + packed(all).len()) - nibbles(f, k).len();
            let own = nibbles_of(f[k] as int);
            &&& own.len() <= left
            &&& forall|i: int|
                0 <= i < own.len() ==> nibble_at(
                    head + packed(all).reverse() + tail,
                    left - 1 - i,
                ) == #[trigger] own[i]
        }),
{
    let n = f.len() as int;
    let all = nibbles(f, n);
    let own = nibbles_of(f[k] as int);
    let done = nibbles(f, k);
    lemma_nibbles_small(f, n);
    lemma_nibbles_prefix(f, k + 1, n);
    assert(nibbles(f, k + 1) == done + own);
    assert(all.len() >= done.len() + own.len());
    let left = 2 * (head.len() + packed(all).len()) - done.len();
    assert forall|i: int| 0 <= i < own.len() implies nibble_at(
        head + packed(all).reverse() + tail,
        left - 1 - i,
    ) == #[trigger] own[i] by {
        assert(nibbles(f, k + 1)[done.len() + i] == own[i]);
        lemma_nibble_placed(head, all, tail, done.len() + i);
        assert(left - 1 - i == 2 * (head.len() + packed(all).len()) - 1 - (done.len() + i));
    }
}

proof fn lemma_freqs_read(head: Seq<u8>, f: Seq<u32>, k: int)
    requires
        0 <= k <= f.len(),
        f.len() % 8 == 0,
        forall|i: int| 0 <= i < f.len() ==> f[i] <= 4095,
    ensures
        ({
            let n = f.len() as int;
            let all = nibbles(f, n);
            freqs_upto(head + table_bytes(f), n, k) == Some(
                (f.take(k), 2 * (head.len() + packed(all).len()) - nibbles(f, k).len()),
            )
        }),
    decreases k,
{
    let n = f.len() as int;
    let all = nibbles(f, n);
    let p = packed(all).reverse();
    let c = control(f, n / 8);
    let src = head + table_bytes(f);
    lemma_control_len(f, n / 8);
    assert(src =~= head + p + c);
    let at = src.len() - control_len(n);
    if k == 0 {
        assert(f.take(0) =~= seq![]);
    } else {
        lemma_freqs_read(head, f, k - 1);
        assert(src.skip(at) =~= c);
        lemma_code_at(f, n / 8, k - 1);
        lemma_own_nibbles(head, f, c, k - 1);
        let x = f[k - 1] as int;
        let left = 2 * (head.len() + packed(all).len()) - nibbles(f, k - 1).len();
        lemma_freq_read(src, x, left);
        assert(f.take(k) =~= f.take(k - 1).push(f[k - 1]));
    }
}

/// A serialised table is read back, together with the length of what was
/// written before it.
pub proof fn lemma_table_roundtrip(head: Seq<u8>, f: Seq<u32>)
    requires
        f.len() % 8 == 0,
        model::usable(f),
    ensures
        parse(head + table_bytes(f), f.len() as int) == Ok::<(Seq<u32>, int), Error>(
            (f, head.len() as int),
        ),
{
    let n = f.len() as int;
    lemma_control_len(f, n / 8);
    lemma_freqs_read(head, f, n);
    assert(f.take(n) =~= f);
}

// ---------------------------------------------------------------------------
// Executable writing and reading
// ---------------------------------------------------------------------------
/// Appends the serialised form of the frequencies `f`.
pub fn encode_table(f: &Vec<u32>, dst: &mut Vec<u8>)
    requires
        f@.len() % 8 == 0,
        f@.len() <= 256,
        forall|i: int| 0 <= i < f@.len() ==> f@[i] <= 4095,
    ensures
        final(dst)@ == old(dst)@ + table_bytes(f@),
{
    let n: usize = f.len();
    let mut nibs: Vec<u8> = Vec::new();
    let mut ctrl: Vec<u8> = Vec::new();
    let mut g: usize = 0;
    while g < n / 8
        invariant
            n == f@.len(),
            n % 8 == 0,
            g <= n / 8,
            forall|i: int| 0 <= i < f@.len() ==> f@[i] <= 4095,
            ctrl@ == control(f@, g as int),
            nibs@ == nibbles(f@, 8 * g as int),
        decreases n / 8 - g,
    {
        let mut x: u32 = 0;
        let mut j: usize = 8;
        proof {
            lemma_group_bound(f@, 8 * g as int, 8);
        }
        while j > 0
            invariant
                n == f@.len(),
                g < n / 8,
                j <= 8,
                x == group(f@, 8 * g + j, 8 - j),
                group(f@, 8 * g as int, 8) < 16777216,
            decreases j,
        {
            j = j - 1;
            proof {
                reveal_with_fuel(group, 9);
            }
            let v: u32 = f[8 * g + j];
            let code: u32 = if v < 5 {
                v
            } else if v < 21 {
                5
            } else if v < 277 {
                6
            } else {
                7
            };
            x = code + 8 * x;
        }
        push_u24(&mut ctrl, x);
        while j < 8
            invariant
                n == f@.len(),
                g < n / 8,
                j <= 8,
                forall|i: int| 0 <= i < f@.len() ==> f@[i] <= 4095,
                nibs@ == nibbles(f@, 8 * g + j),
            decreases 8 - j,
        {
            let v: u32 = f[8 * g + j];
            let ghost before = nibs@;
            if v >= 277 {
                nibs.push(((v - 277) % 16) as u8);
                nibs.push(((v - 277) / 16 % 16) as u8);
                nibs.push(((v - 277) / 256) as u8);
            } else if v >= 21 {
                nibs.push(((v - 21) % 16) as u8);
                nibs.push(((v - 21) / 16) as u8);
            } else if v >= 5 {
                nibs.push((v - 5) as u8);
            }
            assert(nibs@ =~= before + nibbles_of(v as int));
            j = j + 1;
        }
        g = g + 1;
    }
    proof {
        lemma_nibbles_small(f@, n as int);
    }
    let len: usize = nibs.len();
    let m: usize = len / 2 + len % 2;
    let mut data: Vec<u8> = Vec::new();
    let mut i: usize = 0;
    while i < m
        invariant
            len == nibs@.len(),
            m == (len + 1) / 2,
            i <= m,
            data@.len() == i,
            forall|k: int| 0 <= k < nibs@.len() ==> nibs@[k] < 16,
            forall|k: int| 0 <= k < i ==> data@[k] == packed(nibs@)[k],
        decreases m - i,
    {
        assert(nibs@[2 * i as int] < 16);
        let hi: u8 = if 2 * i < len - 1 {
            nibs[2 * i + 1]
        } else {
            0
        };
        data.push(nibs[2 * i] + 16 * hi);
        i = i + 1;
    }
    assert(data@ =~= packed(nibs@));
    append_reversed(dst, &data);
    crate::bytes::append(dst, &ctrl);
    assert(dst@ =~= old(dst)@ + table_bytes(f@));
}

proof fn lemma_drop_digits(x: int, j: int)
    requires
        0 <= x,
        0 <= j,
    ensures
        drop_digits(x, j) == x / pow(8, j as nat),
    decreases j,
{
    lemma_pow0(8);
    if j > 0 {
        lemma_drop_digits(x, j - 1);
        lemma_pow_positive(8, (j - 1) as nat);
        lemma_pow1(8);
        lemma_pow_adds(8, (j - 1) as nat, 1);
        lemma_div_denominator(x, pow(8, (j - 1) as nat), 8);
    }
}

/// The control code of symbol `k` of `n`: an octal digit of the 24 bits for its group of
/// eight, which stand in three bytes at the end of `src`, the low one first.
pub open spec fn digit(src: Seq<u8>, n: int, k: int) -> int {
    let at = src.len() - 3 * (n / 8) + 3 * (k / 8);
    (src[at] + 256 * src[at + 1] + 65536 * src[at + 2]) / pow(8, (k % 8) as nat) % 8
}

/// Half byte `i` of `src`, the high half of a byte coming first.
pub open spec fn half(src: Seq<u8>, i: int) -> int {
    if i % 2 == 0 {
        src[i / 2] as int / 16
    } else {
        src[i / 2] as int % 16
    }
}

/// Frequency `x` has the code `c` and stands in the last of the first `e` half bytes, of
/// which `d` are left before it: a code below five is the frequency; the codes five, six
/// and seven stand for one, two and three half bytes, the low one last, over 5, 21
/// and 277.
pub open spec fn reads(src: Seq<u8>, c: int, e: int, x: int, d: int) -> bool {
    if c == 7 {
        d == e - 3 && x == half(src, e - 1) + 16 * half(src, e - 2) + 256 * half(src, e - 3) + 277
    } else if c == 6 {
        d == e - 2 && x == half(src, e - 1) + 16 * half(src, e - 2) + 21
    } else if c == 5 {
        d == e - 1 && x == half(src, e - 1) + 5
    } else {
        d == e && x == c
    }
}

/// The first frequencies `f` of the table of `n` symbols at the end of `src` are read one
/// after the other, `left` half bytes being left before each.
pub open spec fn laid_out(src: Seq<u8>, n: int, f: Seq<u32>, left: Seq<int>) -> bool {
    &&& left.len() == f.len() + 1
    &&& left[0] == 2 * (src.len() - 3 * (n / 8))
    &&& forall|k: int|
        #![trigger f[k]]
        0 <= k < f.len() ==> reads(src, digit(src, n, k), left[k], f[k] as int, left[k + 1])
    &&& forall|k: int| 0 <= k <= f.len() ==> #[trigger] left[k] >= 0
}

/// What a serialised table says, symbol by symbol; `left` tells how many half bytes are
/// left before each.
pub proof fn lemma_parse_layout(src: Seq<u8>, n: int) -> (left: Seq<int>)
    requires
        0 <= n,
        n % 8 == 0,
        parse(src, n) is Ok,
    ensures
        ({
            let (f, p) = parse(src, n)->Ok_0;
            &&& 3 * (n / 8) <= src.len()
            &&& f.len() == n
            &&& model::total(f) <= 4096
            &&& laid_out(src, n, f, left)
            &&& p == left[n] / 2
        }),
{
    let (fs, left) = lemma_freqs_layout(src, n, n);
    left
}

proof fn lemma_half(src: Seq<u8>, i: int)
    ensures
        nibble_at(src, i) == half(src, i),
        0 <= half(src, i) < 16,
{
    reveal(nibble_at);
}

proof fn lemma_one_layout(src: Seq<u8>, c: int, e: int)
    requires
        0 <= c < 8,
        freq_at(src, c, e) is Some,
        0 <= e,
    ensures
        ({
            let (x, d) = freq_at(src, c, e).unwrap();
            reads(src, c, e, x as int, d) && 0 <= d
        }),
{
    lemma_half(src, e - 1);
    lemma_half(src, e - 2);
    lemma_half(src, e - 3);
}

proof fn lemma_code_digit(src: Seq<u8>, n: int, k: int)
    requires
        0 <= k < n,
        n % 8 == 0,
        3 * (n / 8) <= src.len(),
    ensures
        code_at(src.skip(src.len() - control_len(n)), k) == digit(src, n, k),
        0 <= digit(src, n, k) < 8,
{
    let at = src.len() - control_len(n);
    let ctrl = src.skip(at);
    let g = 3 * (k / 8);
    assert(g + 3 <= 3 * (n / 8));
    assert(ctrl[g] == src[at + g] && ctrl[g + 1] == src[at + g + 1] && ctrl[g + 2] == src[at + g
        + 2]);
    lemma_drop_digits(bytes::u24_at(ctrl, g), k % 8);
}

proof fn lemma_laid_push(
    src: Seq<u8>,
    n: int,
    fs: Seq<u32>,
    ls: Seq<int>,
    x: u32,
    d: int,
    f: Seq<u32>,
    left: Seq<int>,
)
    requires
        laid_out(src, n, fs, ls),
        f == fs.push(x),
        left == ls.push(d),
        0 <= d,
        reads(src, digit(src, n, fs.len() as int), ls[fs.len() as int], x as int, d),
    ensures
        laid_out(src, n, f, left),
{
    assert forall|j: int| 0 <= j <= f.len() implies #[trigger] left[j] >= 0 by {
        if j <= fs.len() {
            assert(left[j] == ls[j]);
        }
    }
    assert forall|j: int| 0 <= j < f.len() implies reads(
        src,
        digit(src, n, j),
        left[j],
        (#[trigger] f[j]) as int,
        left[j + 1],
    ) by {
        if j < fs.len() {
            assert(f[j] == fs[j]);
            assert(left[j] == ls[j] && left[j + 1] == ls[j + 1]);
        }
    }
}

proof fn lemma_freqs_layout(src: Seq<u8>, n: int, k: int) -> (r: (Seq<u32>, Seq<int>))
    requires
        0 <= k <= n,
        n % 8 == 0,
        3 * (n / 8) <= src.len(),
        freqs_upto(src, n, k) is Some,
    ensures
        freqs_upto(src, n, k) == Some((r.0, r.1[k])),
        r.0.len() == k,
        r.1[k] >= 0,
        laid_out(src, n, r.0, r.1),
    decreases k,
{
    let at = src.len() - control_len(n);
    if k == 0 {
        let none: Seq<u32> = seq![];
        let left = seq![2 * at];
        assert(laid_out(src, n, none, left));
        (none, left)
    } else {
        let (fs, ls) = lemma_freqs_layout(src, n, k - 1);
        let c = digit(src, n, k - 1);
        lemma_code_digit(src, n, k - 1);
        lemma_one_layout(src, c, ls[k - 1]);
        let (x, rest) = freq_at(src, c, ls[k - 1]).unwrap();
        let f = fs.push(x);
        let left = ls.push(rest);
        lemma_laid_push(src, n, fs, ls, x, rest, f, left);
        (f, left)
    }
}

/// The size of a serialised table: three bytes for eight symbols, and half a byte for
/// each half byte of a frequency, rounded up.
pub proof fn lemma_table_size(f: Seq<u32>, k: int)
    requires
        f.len() % 8 == 0,
        0 <= k < f.len(),
    ensures
        table_bytes(f).len() == 3 * (f.len() / 8) + (nibbles(f, f.len() as int).len() + 1) / 2,
        nibbles(f, k + 1).len() == nibbles(f, k).len() + if f[k] < 5 {
            0int
        } else if f[k] < 21 {
            1
        } else if f[k] < 277 {
            2
        } else {
            3
        },
        nibbles(f, 0).len() == 0,
{
    lemma_control_len(f, f.len() as int / 8);
}

proof fn lemma_nibble_bound(f: Seq<u32>, k: int)
    requires
        f.len() % 8 == 0,
        0 <= k <= f.len(),
    ensures
        nibbles(f, k).len() <= 3 * k,
    decreases k,
{
    if k > 0 {
        lemma_nibble_bound(f, k - 1);
        lemma_table_size(f, k - 1);
    } else {
        assert(nibbles(f, 0).len() == 0);
    }
}

/// A serialised table takes at most 15 bits for a symbol.
pub proof fn lemma_table_bound(f: Seq<u32>)
    requires
        f.len() % 8 == 0,
    ensures
        table_bytes(f).len() <= 15 * f.len() / 8,
{
    lemma_nibble_bound(f, f.len() as int);
    if f.len() > 0 {
        lemma_table_size(f, 0);
    } else {
        lemma_control_len(f, 0);
    }
}

/// A block taken apart: a zero marker at the end, the table of 256 symbols before it, and
/// the stream before that.
pub proof fn lemma_split_parts(src: Seq<u8>)
    ensures
        src.len() == 0 ==> split(src) == Err::<(Seq<u32>, Seq<u8>), Error>(Error::OutOfInputData),
        src.len() > 0 && src[src.len() - 1] != 0 ==> split(src) == Err::<
            (Seq<u32>, Seq<u8>),
            Error,
        >(Error::UnsupportedTable),
        src.len() > 0 && src[src.len() - 1] == 0 ==> match parse(src.take(src.len() - 1), 256) {
            Ok((f, p)) => split(src) == Ok::<(Seq<u32>, Seq<u8>), Error>((f, src.take(p))),
            Err(e) => split(src) == Err::<(Seq<u32>, Seq<u8>), Error>(e),
        },
{
    if src.len() > 0 {
        assert(src.take(src.len() - 1) =~= src.drop_last());
    }
}

/// Reads the nibble with number `i`.
fn fetch_nibble(src: &[u8], i: u128) -> (v: u32)
    requires
        i < 2 * src@.len(),
    ensures
        v == nibble_at(src@, i as int),
        v < 16,
{
    proof {
        reveal(nibble_at);
    }
    let b: u8 = src[(i / 2) as usize];
    if i % 2 == 1 {
        (b % 16) as u32
    } else {
        (b / 16) as u32
    }
}

/// Reads the frequencies of `n` symbols from the end of `src`; the second
/// result is the length of what stands before them.
pub fn decode_freqs(src: &[u8], n: usize) -> (r: Result<(Vec<u32>, usize), Error>)
    requires
        n % 8 == 0,
        n <= 256,
    ensures
        match r {
            Ok((f, p)) => parse(src@, n as int) == Ok::<(Seq<u32>, int), Error>((f@, p as int))
                && f@.len() == n && p <= src@.len(),
            Err(e) => parse(src@, n as int) == Err::<(Seq<u32>, int), Error>(e),
        },
{
    let ctrl_len: usize = 3 * (n / 8);
    if src.len() < ctrl_len {
        return Err(Error::WrongSourceSize);
    }
    let at: usize = src.len() - ctrl_len;
    let ctrl: &[u8] = &src[at..src.len()];
    assert(ctrl@ =~= src@.skip(at as int));
    let mut left: u128 = 2 * (at as u128);
    let mut f: Vec<u32> = Vec::new();
    let mut k: usize = 0;
    let mut x: u32 = 0;
    let mut slots: u64 = 0;
    while k < n
        invariant
            n % 8 == 0,
            n <= 256,
            k <= n,
            at == src@.len() - control_len(n as int),
            ctrl@ == src@.skip(at as int),
            ctrl@.len() == control_len(n as int),
            left <= 2 * at,
            freqs_upto(src@, n as int, k as int) == Some((f@, left as int)),
            f@.len() == k,
            k % 8 != 0 ==> x == drop_digits(
                bytes::u24_at(ctrl@, 3 * (k as int / 8)),
                k as int % 8,
            ),
            slots == model::total(f@),
            slots <= 4372 * k,
        decreases n - k,
    {
        if k % 8 == 0 {
            x = get_u24(ctrl, 3 * (k / 8));
        }
        let v: u32 = x % 8;
        assert(v == code_at(ctrl@, k as int));
        x = x / 8;
        let ghost fs = f@;
        let need: u128 = if v >= 5 {
            (v - 4) as u128
        } else {
            0
        };
        if left < need {
            proof {
                assert(freqs_upto(src@, n as int, k + 1) is None);
                lemma_none_stays(src@, n as int, k + 1, n as int);
            }
            return Err(Error::OutOfInputData);
        }
        let val: u32 = if v == 7 {
            fetch_nibble(src, left - 1) + 16 * fetch_nibble(src, left - 2) + 256 * fetch_nibble(
                src,
                left - 3,
            ) + 277
        } else if v == 6 {
            fetch_nibble(src, left - 1) + 16 * fetch_nibble(src, left - 2) + 21
        } else if v == 5 {
            fetch_nibble(src, left - 1) + 5
        } else {
            v
        };
        f.push(val);
        proof {
            model::lemma_sum_prefix(f@, fs, k as int);
        }
        slots = slots + val as u64;
        left = left - need;
        k = k + 1;
    }
    if slots > 4096 {
        return Err(Error::UnsupportedTable);
    }
    Ok((f, (left / 2) as usize))
}

proof fn lemma_freqs_len(src: Seq<u8>, n: int, k: int)
    requires
        0 <= k,
    ensures
        freqs_upto(src, n, k) matches Some((f, left)) ==> f.len() == k,
    decreases k,
{
    if k > 0 {
        lemma_freqs_len(src, n, k - 1);
    }
}

/// A table that was read has one frequency for each symbol, and fits.
pub proof fn lemma_parse_shape(src: Seq<u8>, n: int)
    requires
        0 <= n,
    ensures
        parse(src, n) matches Ok((f, p)) ==> f.len() == n && model::total(f) <= 4096,
{
    lemma_freqs_len(src, n, n);
}

proof fn lemma_none_stays(src: Seq<u8>, n: int, k: int, m: int)
    requires
        0 <= k <= m,
        freqs_upto(src, n, k) is None,
    ensures
        freqs_upto(src, n, m) is None,
    decreases m,
{
    if k < m {
        lemma_none_stays(src, n, k, m - 1);
    }
}

/// Reads the decode table of `n` symbols from the end of `src`; the second
/// result is the length of what stands before it.
pub fn decode_table(src: &[u8], n: usize) -> (r: Result<(Vec<u32>, usize), Error>)
    requires
        n % 8 == 0,
        n <= 256,
    ensures
        match r {
            Ok((tab, p)) => {
                &&& parse(src@, n as int) matches Ok((f, q))
                &&& tab@ == rans::dense(f)
                &&& p == q
                &&& p <= src@.len()
            },
            Err(e) => parse(src@, n as int) == Err::<(Seq<u32>, int), Error>(e),
        },
{
    match decode_freqs(src, n) {
        Ok((f, p)) => Ok((build_dense(&f), p)),
        Err(e) => Err(e),
    }
}

/// A byte-wise entropy coded block taken apart: a frequency table of 256 symbols
/// stands at the end, followed by a marker byte, which is zero for a full table.
pub open spec fn split(src: Seq<u8>) -> Result<(Seq<u32>, Seq<u8>), Error> {
    if src.len() == 0 {
        Err(Error::OutOfInputData)
    } else if src.last() != 0 {
        Err(Error::UnsupportedTable)
    } else {
        match parse(src.drop_last(), 256) {
            Ok((f, p)) => Ok((f, src.take(p))),
            Err(e) => Err(e),
        }
    }
}

/// Takes a byte-wise entropy coded block apart into its decode table and the
/// stream of words and states before it.
pub fn ans_decode_table<'a>(src: &'a [u8]) -> (r: Result<(Vec<u32>, &'a [u8]), Error>)
    ensures
        match r {
            Ok((tab, stream)) => {
                &&& split(src@) matches Ok((f, s))
                &&& tab@ == rans::dense(f)
                &&& stream@ == s
            },
            Err(e) => split(src@) == Err::<(Seq<u32>, Seq<u8>), Error>(e),
        },
{
    if src.len() == 0 {
        return Err(Error::OutOfInputData);
    }
    let last: usize = src.len() - 1;
    if src[last] != 0 {
        return Err(Error::UnsupportedTable);
    }
    let body: &[u8] = &src[0..last];
    assert(body@ =~= src@.drop_last());
    match decode_table(body, 256) {
        Ok((tab, p)) => {
            let stream: &[u8] = &body[0..p];
            assert(stream@ =~= src@.take(p as int));
            Ok((tab, stream))
        },
        Err(e) => Err(e),
    }
}

/// Appends the serialised form of the frequencies `f` and the full-table marker.
pub fn encode_marked_table(f: &Vec<u32>, dst: &mut Vec<u8>)
    requires
        f@.len() == 256,
        forall|i: int| 0 <= i < f@.len() ==> f@[i] <= 4095,
    ensures
        final(dst)@ == old(dst)@ + table_bytes(f@) + seq![0u8],
{
    encode_table(f, dst);
    dst.push(0);
    assert(dst@ =~= old(dst)@ + table_bytes(f@) + seq![0u8]);
}

/// What was written before a table and its marker is split off again.
pub proof fn lemma_split(stream: Seq<u8>, f: Seq<u32>)
    requires
        f.len() == 256,
        model::usable(f),
    ensures
        split(stream + table_bytes(f) + seq![0u8]) == Ok::<(Seq<u32>, Seq<u8>), Error>((f, stream)),
{
    let src = stream + table_bytes(f) + seq![0u8];
    assert(src.drop_last() =~= stream + table_bytes(f));
    lemma_table_roundtrip(stream, f);
    assert(src.take(stream.len() as int) =~= stream);
}

} // verus!
