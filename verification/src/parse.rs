//! The parse of a buffer into literal runs and matches.
//!
//! Positions are entered into hash chains of four; a match is looked for at the
//! distance of the match before it and along the chain, one position ahead as
//! well, and cut where a copy in whole 32-byte stores would pass the end.
use crate::bytes;
use crate::bytes::get_u64;
use crate::matcher;
use crate::matcher::{best_match, lcp, Match, HISTSIZE};
use vstd::prelude::*;

verus! {

/// Number of hash chains.
pub const CHAINS: usize = 131072;

/// Number of entries of a chain table.
pub const TABLE_LEN: usize = 524288;

/// Bytes at the end of a buffer in which no match starts.
pub const MIN_OFFSET: usize = 32;

/// Shortest match.
pub const MIN_MATCH: i32 = 4;

/// Distance of the positions that are entered into the chains.
pub const SKIP_STEP: i32 = 2;

// ---------------------------------------------------------------------------
// Hash chains
// ---------------------------------------------------------------------------
/// The chain of a position: a hash of the five bytes there.
pub open spec fn chain_of(s: Seq<u8>, pos: int) -> int {
    bytes::u64_at(s, pos) % 0x100_0000_0000 * 0x100_0000 * 889_523_592_379
        % 0x1_0000_0000_0000_0000 / 0x8000_0000_0000
}

/// The candidates of chain `h`, newest first.
pub open spec fn row(t: Seq<i32>, h: int) -> Seq<i32> {
    seq![t[4 * h], t[4 * h + 1], t[4 * h + 2], t[4 * h + 3]]
}

/// The table after `pos` has been entered; the oldest candidate of its chain is
/// dropped.
pub open spec fn entered(t: Seq<i32>, s: Seq<u8>, pos: int) -> Seq<i32> {
    let b = 4 * chain_of(s, pos);
    t.update(b + 3, t[b + 2]).update(b + 2, t[b + 1]).update(b + 1, t[b]).update(b, pos as i32)
}

/// The table after every other position from `i` to before `end` has been entered.
pub open spec fn entered_range(t: Seq<i32>, s: Seq<u8>, i: int, end: int) -> Seq<i32>
    decreases end + 1 - i,
{
    if i >= end {
        t
    } else {
        entered_range(entered(t, s, i), s, i + 2, end)
    }
}

/// A table of the right length without negative positions.
pub open spec fn table_ok(t: Seq<i32>) -> bool {
    t.len() == TABLE_LEN && forall|k: int| 0 <= k < t.len() ==> 0 <= #[trigger] t[k]
}

/// The chain of a position is one of the table.
pub proof fn lemma_chain_of(s: Seq<u8>, pos: int)
    requires
        0 <= pos,
        pos + 8 <= s.len(),
    ensures
        0 <= chain_of(s, pos) < CHAINS,
{
    let x = bytes::u64_at(s, pos) % 0x100_0000_0000 * 0x100_0000 * 889_523_592_379;
    assert(0 <= x % 0x1_0000_0000_0000_0000 < 0x1_0000_0000_0000_0000);
}

/// The chain of a position depends on the five bytes there and on nothing else.
pub proof fn lemma_chain_bytes(s: Seq<u8>, t: Seq<u8>, a: int, b: int)
    requires
        forall|i: int| 0 <= i < 5 ==> #[trigger] s[a + i] == t[b + i],
    ensures
        chain_of(s, a) == chain_of(t, b),
{
    assert(s[a + 0] == t[b + 0] && s[a + 1] == t[b + 1] && s[a + 2] == t[b + 2] && s[a + 3] == t[b
        + 3] && s[a + 4] == t[b + 4]);
    lemma_low_bytes(s, a);
    lemma_low_bytes(t, b);
    lemma_same_hash(
        bytes::u64_at(s, a) % 0x100_0000_0000,
        bytes::u64_at(t, b) % 0x100_0000_0000,
    );
}

/// The chain of a position: the five bytes there as a number, low byte first, times a prime,
/// of which 17 of 64 bits are kept.
pub proof fn lemma_chain_exact(s: Seq<u8>, a: int)
    ensures
        ({
            let v = s[a] + 256 * s[a + 1] + 65536 * s[a + 2] + 16777216 * s[a + 3] + 0x1_0000_0000
                * s[a + 4];
            chain_of(s, a) == v * 0x100_0000 * 889_523_592_379 % 0x1_0000_0000_0000_0000
                / 0x8000_0000_0000
        }),
{
    lemma_low_bytes(s, a);
    let v = s[a] + 256 * s[a + 1] + 65536 * s[a + 2] + 16777216 * s[a + 3] + 0x1_0000_0000 * s[a
        + 4];
    lemma_same_hash(bytes::u64_at(s, a) % 0x100_0000_0000, v);
}

proof fn lemma_same_hash(x: int, y: int)
    requires
        x == y,
    ensures
        x * 0x100_0000 * 889_523_592_379 % 0x1_0000_0000_0000_0000 / 0x8000_0000_0000 == y
            * 0x100_0000 * 889_523_592_379 % 0x1_0000_0000_0000_0000 / 0x8000_0000_0000,
{
}

proof fn lemma_low_bytes(s: Seq<u8>, a: int)
    ensures
        bytes::u64_at(s, a) % 0x100_0000_0000 == s[a] + 256 * s[a + 1] + 65536 * s[a + 2] + 16777216
            * s[a + 3] + 0x1_0000_0000 * s[a + 4],
{
    let low = s[a] + 256 * s[a + 1] + 65536 * s[a + 2] + 16777216 * s[a + 3] + 0x1_0000_0000 * s[a
        + 4];
    let high = s[a + 5] + 256 * s[a + 6] + 65536 * s[a + 7];
    assert(bytes::u64_at(s, a) == low + 0x100_0000_0000 * high);
}

/// Entering a position puts it in front of its chain, drops the oldest candidate, and
/// leaves the other chains alone.
pub proof fn lemma_entered(t: Seq<i32>, s: Seq<u8>, pos: int, h: int)
    requires
        t.len() == TABLE_LEN,
        0 <= pos <= i32::MAX,
        pos + 8 <= s.len(),
        0 <= h < CHAINS,
    ensures
        ({
            let u = entered(t, s, pos);
            &&& u.len() == t.len()
            &&& if h == chain_of(s, pos) {
                &&& u[4 * h] == pos
                &&& u[4 * h + 1] == t[4 * h]
                &&& u[4 * h + 2] == t[4 * h + 1]
                &&& u[4 * h + 3] == t[4 * h + 2]
            } else {
                forall|k: int| 4 * h <= k < 4 * h + 4 ==> #[trigger] u[k] == t[k]
            }
        }),
{
    lemma_chain_of(s, pos);
}

/// Every other position of a stretch is entered, in order.
pub proof fn lemma_entered_range(t: Seq<i32>, s: Seq<u8>, i: int, end: int)
    ensures
        i >= end ==> entered_range(t, s, i, end) == t,
        i < end ==> entered_range(t, s, i, end) == entered_range(
            entered(t, s, i),
            s,
            i + 2,
            end,
        ),
{
}

/// The chain of a position.
fn hash_chain(src: &[u8], pos: usize) -> (h: usize)
    requires
        pos + 8 <= src@.len(),
    ensures
        h == chain_of(src@, pos as int),
        h < CHAINS,
{
    proof {
        lemma_chain_of(src@, pos as int);
    }
    let u: u128 = get_u64(src, pos) as u128;
    let x: u128 = u % 0x100_0000_0000 * 0x100_0000 * 889_523_592_379;
    (x % 0x1_0000_0000_0000_0000 / 0x8000_0000_0000) as usize
}

/// Enters `pos` into its chain.
pub fn chain_insert(table: &mut Vec<i32>, src: &[u8], pos: i32)
    requires
        table_ok(old(table)@),
        0 <= pos,
        pos + 8 <= src@.len(),
    ensures
        table_ok(final(table)@),
        final(table)@ == entered(old(table)@, src@, pos as int),
{
    let b: usize = 4 * hash_chain(src, pos as usize);
    table[b + 3] = table[b + 2];
    table[b + 2] = table[b + 1];
    table[b + 1] = table[b];
    table[b] = pos;
    assert(table@ =~= entered(old(table)@, src@, pos as int));
}

/// Enters every other position from `from` to before `end`.
pub fn chain_insert_range(table: &mut Vec<i32>, src: &[u8], from: i32, end: i32)
    requires
        table_ok(old(table)@),
        0 <= from,
        end + 8 <= src@.len(),
        end < i32::MAX,
    ensures
        table_ok(final(table)@),
        final(table)@ == entered_range(old(table)@, src@, from as int, end as int),
{
    let mut i: i32 = from;
    while i < end
        invariant
            table_ok(table@),
            0 <= from <= i,
            end + 8 <= src@.len(),
            end < i32::MAX,
            entered_range(old(table)@, src@, from as int, end as int) == entered_range(
                table@,
                src@,
                i as int,
                end as int,
            ),
        decreases end + 1 - i,
    {
        chain_insert(table, src, i);
        i = i + SKIP_STEP;
    }
}

/// A table with all chains empty.
pub fn new_table() -> (t: Vec<i32>)
    ensures
        t@ == Seq::new(TABLE_LEN as nat, |k: int| 0i32),
        table_ok(t@),
{
    let t: Vec<i32> = vec![0i32;TABLE_LEN];
    assert(t@ =~= Seq::new(TABLE_LEN as nat, |k: int| 0i32));
    t
}

/// Makes `table` a table without entries, in the memory that it has.
pub fn clear_table(table: &mut Vec<i32>)
    ensures
        final(table)@ == Seq::new(TABLE_LEN as nat, |k: int| 0i32),
        table_ok(final(table)@),
{
    table.clear();
    table.resize(TABLE_LEN, 0);
    assert(table@ =~= Seq::new(TABLE_LEN as nat, |k: int| 0i32));
}

// ---------------------------------------------------------------------------
// The choice of a match
// ---------------------------------------------------------------------------
/// The length to which a match of `len` bytes at `pos` with distance `off` is
/// cut in a buffer of `n` bytes: as it is if it ends before the last 32 bytes,
/// or if whole stores of 32 bytes (of `off` bytes, if that is less) fit.
pub open spec fn clamped(n: int, pos: int, off: int, len: int) -> int {
    if pos + len <= n - 32 {
        len
    } else if off >= 32 {
        if pos + (len + 31) / 32 * 32 > n {
            len / 32 * 32
        } else {
            len
        }
    } else if pos + (len - len % off) + 32 > n {
        if n - 32 - pos < 0 {
            0
        } else {
            (n - 32 - pos) / off * off
        }
    } else {
        len
    }
}

/// The match at `pos` with the distance `off` of the match before it.
pub open spec fn repeated(s: Seq<u8>, off: int, pos: int) -> matcher::Found {
    if off != 0 && pos - off >= 0 {
        matcher::Found {
            target: pos,
            pos: pos - off,
            len: matcher::common_prefix(s, pos - off, pos),
        }
    } else {
        matcher::Found { target: pos, pos: 0, len: 0 }
    }
}

/// The match at `pos`: with the distance of the match before it unless the chain
/// gives one that is longer by more than a byte; then cut at the end.
pub open spec fn match_at(s: Seq<u8>, t: Seq<i32>, off: int, litpos: int, pos: int) -> matcher::Found {
    let near = repeated(s, off, pos);
    let chain = matcher::best_of(s, litpos, pos, row(t, chain_of(s, pos)));
    let m = if chain.len - near.len > 1 {
        chain
    } else {
        near
    };
    matcher::Found {
        target: m.target,
        pos: m.pos,
        len: clamped(s.len() as int, m.target, m.target - m.pos, m.len),
    }
}

/// The match at `pos`, or at the next position if that one is longer.
pub open spec fn chosen(s: Seq<u8>, t: Seq<i32>, off: int, litpos: int, pos: int) -> matcher::Found {
    let m = match_at(s, t, off, litpos, pos);
    let ahead = match_at(s, t, off, litpos, pos + 1);
    if pos < s.len() - 32 && ahead.len > m.len {
        ahead
    } else {
        m
    }
}

/// A chosen match can be replayed and written down.
pub open spec fn replayable(s: Seq<u8>, off: int, litpos: int, m: matcher::Found) -> bool {
    &&& matcher::sound(s, litpos, m)
    &&& m.target - m.pos < 65536 || m.len == 0 || m.len > 15 || m.target - m.pos == off
}

/// Cutting a match makes it no longer, and a far one no shorter than one store
/// unless it goes.
pub proof fn lemma_clamped(n: int, pos: int, off: int, len: int)
    requires
        0 <= len,
        0 < off || pos + len <= n - 32,
    ensures
        0 <= clamped(n, pos, off, len) <= len,
        off >= 32 && clamped(n, pos, off, len) != len ==> clamped(n, pos, off, len) == 0
            || clamped(n, pos, off, len) >= 32,
{
    if pos + len > n - 32 && off < 32 && pos + (len - len % off) + 32 > n && n - 32 - pos >= 0 {
        let d = n - 32 - pos;
        vstd::arithmetic::div_mod::lemma_fundamental_div_mod(d, off);
        vstd::arithmetic::div_mod::lemma_div_pos_is_pos(d, off);
        assert(off * (d / off) == d / off * off) by (nonlinear_arith);
        assert(0 <= d / off * off) by (nonlinear_arith)
            requires
                0 <= d / off,
                0 < off,
        ;
        assert(0 <= d % off < off && 0 <= len % off < off);
    }
}

/// How far a match is cut: not at all if it ends 32 bytes before the end of the buffer, or
/// if copying it in whole stores stays within; else to whole stores of 32 bytes, or, at a
/// distance below that, to as many whole distances as end 32 bytes before the end.
pub proof fn lemma_clamped_exact(n: int, pos: int, off: int, len: int)
    requires
        0 < off,
        0 <= len,
    ensures
        ({
            let r = clamped(n, pos, off, len);
            let fits = pos + len <= n - 32 || (off >= 32 && pos + (len + 31) / 32 * 32 <= n) || (off
                < 32 && pos + (len - len % off) + 32 <= n);
            &&& fits ==> r == len
            &&& !fits && off >= 32 ==> r % 32 == 0 && r <= len < r + 32
            &&& !fits && off < 32 && n - 32 - pos < 0 ==> r == 0
            &&& !fits && off < 32 && n - 32 - pos >= 0 ==> r % off == 0 && r <= n - 32 - pos < r
                + off
        }),
{
    let d = n - 32 - pos;
    if d >= 0 && off < 32 {
        vstd::arithmetic::div_mod::lemma_fundamental_div_mod(d, off);
        vstd::arithmetic::div_mod::lemma_mod_bound(d, off);
        vstd::arithmetic::div_mod::lemma_mod_multiples_basic(d / off, off);
        assert(off * (d / off) == d / off * off) by (nonlinear_arith);
    }
}

/// The match at a position: the distance of the match before it is kept, unless the chain
/// gives a match that is at least two bytes longer. It is cut after that.
pub proof fn lemma_match_choice(s: Seq<u8>, t: Seq<i32>, off: int, litpos: int, pos: int)
    ensures
        ({
            let m = match_at(s, t, off, litpos, pos);
            let h = chain_of(s, pos);
            let far = matcher::best_of(
                s,
                litpos,
                pos,
                seq![t[4 * h], t[4 * h + 1], t[4 * h + 2], t[4 * h + 3]],
            );
            let near = if off != 0 && off <= pos {
                matcher::common_prefix(s, pos - off, pos)
            } else {
                0
            };
            if far.len >= near + 2 {
                &&& m.target == far.target
                &&& m.pos == far.pos
                &&& m.len == clamped(s.len() as int, far.target, far.target - far.pos, far.len)
            } else {
                &&& m.target == pos
                &&& off != 0 && off <= pos ==> m.pos == pos - off
                &&& off == 0 || off > pos ==> m.pos == 0
                &&& m.len == clamped(s.len() as int, pos, pos - m.pos, near)
            }
        }),
{
}

/// A match that was cut can be copied in whole stores: those of 32 bytes, or of as
/// many bytes as its distance with 32 bytes written each time, stay in the buffer.
pub proof fn lemma_clamp_safe(n: int, pos: int, off: int, len: int)
    requires
        0 <= pos,
        0 < off,
        0 <= len,
        pos + len <= n,
    ensures
        ({
            let r = clamped(n, pos, off, len);
            ||| r == 0
            ||| pos + r <= n - 32
            ||| off >= 32 && pos + (r + 31) / 32 * 32 <= n
            ||| off < 32 && pos + (r - r % off) + 32 <= n
        }),
{
    if off < 32 && pos + len > n - 32 && pos + (len - len % off) + 32 > n && n - 32 - pos >= 0 {
        let d = n - 32 - pos;
        vstd::arithmetic::div_mod::lemma_fundamental_div_mod(d, off);
        assert(off * (d / off) == d / off * off) by (nonlinear_arith);
        assert(0 <= d % off < off);
    }
}

/// The match at a position can be replayed.
pub proof fn lemma_match_at(s: Seq<u8>, t: Seq<i32>, off: int, litpos: int, pos: int)
    requires
        table_ok(t),
        0 <= off,
        0 <= litpos <= pos <= s.len() - 32,
        0 < pos,
    ensures
        replayable(s, off, litpos, match_at(s, t, off, litpos, pos)),
        match_at(s, t, off, litpos, pos).target <= pos,
{
    let near = repeated(s, off, pos);
    let h = chain_of(s, pos);
    lemma_chain_of(s, pos);
    let chain = matcher::best_of(s, litpos, pos, row(t, h));
    assert forall|k: int| 0 <= k < 4 implies 0 <= #[trigger] row(t, h)[k] by {
        assert(0 <= t[4 * h + k]);
    }
    matcher::lemma_best_from(s, litpos, pos, row(t, h), 0, matcher::nothing());
    matcher::lemma_best_target(s, litpos, pos, row(t, h), 0, matcher::nothing());
    if off != 0 && pos - off >= 0 {
        matcher::lemma_common_prefix(s, pos - off, pos);
    }
    let m = if chain.len - near.len > 1 {
        chain
    } else {
        near
    };
    assert(matcher::sound(s, litpos, m));
    assert(m.len == 0 ==> m.target == pos);
    lemma_clamped(s.len() as int, m.target, m.target - m.pos, m.len);
}

/// The match that is chosen can be replayed.
pub proof fn lemma_chosen(s: Seq<u8>, t: Seq<i32>, off: int, litpos: int, pos: int)
    requires
        table_ok(t),
        0 <= off,
        0 <= litpos <= pos <= s.len() - 32,
        0 < pos,
    ensures
        replayable(s, off, litpos, chosen(s, t, off, litpos, pos)),
{
    lemma_match_at(s, t, off, litpos, pos);
    if pos < s.len() - 32 {
        lemma_match_at(s, t, off, litpos, pos + 1);
    }
}

/// The length to which a match at `pos` is cut; see [`clamped`].
pub fn clamp_match_end(n: usize, pos: usize, off: u32, len: usize) -> (r: usize)
    requires
        n <= i64::MAX,
        pos + len + 63 <= i64::MAX,
        0 < off || pos + len <= n - 32,
    ensures
        r == clamped(n as int, pos as int, off as int, len as int),
        r <= len,
{
    proof {
        lemma_clamped(n as int, pos as int, off as int, len as int);
    }
    let end: u64 = n as u64;
    let at: u64 = pos as u64;
    let size: u64 = len as u64;
    let step: u64 = off as u64;
    proof {
        if off > 0 {
            vstd::arithmetic::div_mod::lemma_mod_decreases(len as nat, off as nat);
        }
    }
    if at + size + 32 <= end {
        len
    } else if off >= 32 {
        if at + (size + 31) / 32 * 32 > end {
            len / 32 * 32
        } else {
            len
        }
    } else if at + (size - size % step) + 32 > end {
        if end < at + 32 {
            0
        } else {
            let d: u64 = end - 32 - at;
            proof {
                vstd::arithmetic::div_mod::lemma_fundamental_div_mod(d as int, step as int);
                assert(step * (d as int / step as int) == d as int / step as int * step)
                    by (nonlinear_arith);
            }
            (d / step * step) as usize
        }
    } else {
        len
    }
}

/// The match at `pos`; see [`match_at`].
pub fn best_match_at(
    src: &[u8],
    table: &Vec<i32>,
    last_encoded_offset: u32,
    litpos: i32,
    pos: i32,
) -> (m: Match)
    requires
        table_ok(table@),
        src@.len() <= i32::MAX,
        last_encoded_offset <= i32::MAX,
        0 <= litpos <= pos <= src@.len() - 32,
        0 < pos,
    ensures
        m@ == match_at(
            src@,
            table@,
            last_encoded_offset as int,
            litpos as int,
            pos as int,
        ),
{
    let ghost s = src@;
    let n: usize = src.len();
    let mut m: Match = Match { target: pos, pos: 0, len: 0 };
    if last_encoded_offset != 0 {
        let p: i32 = pos - last_encoded_offset as i32;
        if p >= 0 {
            m = Match { target: pos, pos: p, len: lcp(src, p as usize, pos as usize) as i32 };
        }
    }
    assert(m@ == repeated(s, last_encoded_offset as int, pos as int));
    let b: usize = 4 * hash_chain(src, pos as usize);
    let hist: [i32; HISTSIZE] = [table[b], table[b + 1], table[b + 2], table[b + 3]];
    assert(hist@ =~= row(table@, chain_of(s, pos as int)));
    let chain: Match = best_match(src, litpos, pos, &hist);
    proof {
        matcher::lemma_best_from(s, litpos as int, pos as int, hist@, 0, matcher::nothing());
    }
    if chain.len - m.len > 1 {
        m = chain;
    }
    let off: u32 = (m.target - m.pos) as u32;
    m.len = clamp_match_end(n, m.target as usize, off, m.len as usize) as i32;
    m
}

/// The match chosen at `pos`; see [`chosen`].
pub fn choose_match(src: &[u8], table: &Vec<i32>, off: u32, litpos: i32, pos: i32) -> (m: Match)
    requires
        table_ok(table@),
        src@.len() <= i32::MAX,
        off <= i32::MAX,
        0 <= litpos <= pos <= src@.len() - 32,
        0 < pos,
    ensures
        m@ == chosen(src@, table@, off as int, litpos as int, pos as int),
{
    let m: Match = best_match_at(src, table, off, litpos, pos);
    if pos < src.len() as i32 - 32 {
        let ahead: Match = best_match_at(src, table, off, litpos, pos + 1);
        if ahead.len > m.len {
            return ahead;
        }
    }
    m
}

// ---------------------------------------------------------------------------
// The parse
// ---------------------------------------------------------------------------
/// A match of `len` bytes at `target` with distance `off`; what lies between the
/// match before it and `target` is a literal run.
pub struct Step {
    pub target: int,
    pub off: int,
    pub len: int,
}

/// The matches that the parse goes on with: literals are pending from `litpos`,
/// the search is at `pos`, and `off` is the distance of the match before.
pub open spec fn parsed(s: Seq<u8>, t: Seq<i32>, off: int, litpos: int, pos: int) -> Seq<Step>
    decreases s.len() - litpos, s.len() - pos,
{
    if !(table_ok(t) && 0 <= off && 0 <= litpos <= pos <= s.len() - 32 && 0 < pos) {
        seq![]
    } else {
        let m = chosen(s, t, off, litpos, pos);
        if m.len >= MIN_MATCH {
            proof {
                lemma_chosen(s, t, off, litpos, pos);
            }
            let next = m.target + m.len;
            let end = if next < s.len() - 32 {
                next
            } else {
                s.len() - 32
            };
            seq![Step { target: m.target, off: m.target - m.pos, len: m.len }] + parsed(
                s,
                entered_range(t, s, m.target, end),
                m.target - m.pos,
                next,
                next,
            )
        } else {
            parsed(s, entered(t, s, pos), off, litpos, pos + SKIP_STEP)
        }
    }
}

/// The parse of a whole buffer.
pub open spec fn steps(s: Seq<u8>) -> Seq<Step> {
    parsed(s, entered(Seq::new(TABLE_LEN as nat, |k: int| 0i32), s, 0), 0, 0, 5)
}

/// How the parse goes on from a position: with the match there, or with that at the next
/// position if it is longer, if it has four bytes or more; every other position of the
/// match is entered, and the search goes on behind it. Else the position is entered, and
/// the search goes on two bytes further. The last 32 bytes are not searched.
pub proof fn lemma_parse_on(s: Seq<u8>, t: Seq<i32>, off: int, litpos: int, pos: int)
    requires
        table_ok(t),
        0 <= off,
        0 <= litpos <= pos,
        0 < pos,
    ensures
        ({
            let a = match_at(s, t, off, litpos, pos);
            let b = match_at(s, t, off, litpos, pos + 1);
            let m = if pos + 32 < s.len() && b.len > a.len {
                b
            } else {
                a
            };
            let next = m.target + m.len;
            let end = if next + 32 < s.len() {
                next
            } else {
                s.len() - 32
            };
            parsed(s, t, off, litpos, pos) == if pos + 32 > s.len() {
                seq![]
            } else if m.len >= 4 {
                seq![Step { target: m.target, off: m.target - m.pos, len: m.len }] + parsed(
                    s,
                    entered_range(t, s, m.target, end),
                    m.target - m.pos,
                    next,
                    next,
                )
            } else {
                parsed(s, entered(t, s, pos), off, litpos, pos + 2)
            }
        }),
{
}

/// The parse of a buffer starts at position 5, with position 0 entered in an empty table.
pub proof fn lemma_parse_start(s: Seq<u8>)
    ensures
        steps(s) == parsed(
            s,
            entered(Seq::new(524288, |k: int| 0i32), s, 0),
            0,
            0,
            5,
        ),
{
}

proof fn lemma_first_candidate(s: Seq<u8>, t: Seq<i32>, pos: int)
    requires
        table_ok(t),
        forall|k: int| 0 <= k < t.len() ==> #[trigger] t[k] == 0,
        s.len() >= 64,
        5 <= pos <= 6,
    ensures
        ({
            let m = match_at(s, t, 0, 0, pos);
            let k = matcher::common_prefix(s, 0, pos);
            &&& k >= 2 ==> m.target == pos && m.pos == 0 && m.len == clamped(
                s.len() as int,
                pos,
                pos,
                k,
            )
            &&& k < 2 ==> m.len <= 1
        }),
{
    let h = chain_of(s, pos);
    lemma_chain_of(s, pos);
    let hist = row(t, h);
    assert(hist[0] == t[4 * h] && hist[1] == t[4 * h + 1]);
    let m = matcher::extended(s, 0, pos, 0);
    let none = matcher::nothing();
    matcher::lemma_common_prefix(s, 0, pos);
    assert(m.len == matcher::common_prefix(s, 0, pos));
    assert(matcher::best_from(s, 0, pos, hist, 1, m) == m);
    assert(matcher::best_from(s, 0, pos, hist, 1, none) == none);
    assert(matcher::best_of(s, 0, pos, hist) == if m.len > 0 {
        m
    } else {
        none
    });
    lemma_clamped(s.len() as int, pos, pos, 0);
}

/// The first match of a buffer that repeats itself with period five, as a run of one byte
/// does: it starts at the fifth or sixth byte and leaves at most 41 bytes.
pub proof fn lemma_periodic_steps(s: Seq<u8>)
    requires
        s.len() >= 64,
        forall|i: int| 5 <= i < s.len() ==> #[trigger] s[i] == s[i - 5],
    ensures
        ({
            let q = steps(s);
            &&& q.len() > 0
            &&& 5 <= q[0].target <= 6
            &&& q[0].len >= s.len() - 41
        }),
{
    let n = s.len() as int;
    let e = Seq::new(TABLE_LEN as nat, |k: int| 0i32);
    let t = entered(e, s, 0);
    lemma_chain_of(s, 0);
    lemma_first_candidate(s, t, 5);
    lemma_first_candidate(s, t, 6);
    matcher::lemma_prefix_exact(s, 0, 5, n - 5);
    lemma_clamped_exact(n, 5, 5, n - 5);
    lemma_parse_on(s, t, 0, 0, 5);
}

/// The steps `q` replay `s` from `litpos` on, `off` being the distance before
/// them.
pub open spec fn replays(s: Seq<u8>, off: int, litpos: int, q: Seq<Step>) -> bool
    decreases q.len(),
{
    &&& 0 <= litpos <= s.len()
    &&& q.len() > 0 ==> {
        let m = q[0];
        &&& m.len >= MIN_MATCH
        &&& 0 < m.off
        &&& replayable(
            s,
            off,
            litpos,
            matcher::Found { target: m.target, pos: m.target - m.off, len: m.len },
        )
        &&& replays(s, m.off, m.target + m.len, q.skip(1))
    }
}

/// The steps of a parse can be replayed one after the other.
pub proof fn lemma_parsed(s: Seq<u8>, t: Seq<i32>, off: int, litpos: int, pos: int)
    requires
        0 <= litpos <= s.len(),
    ensures
        replays(s, off, litpos, parsed(s, t, off, litpos, pos)),
    decreases s.len() - litpos, s.len() - pos,
{
    if table_ok(t) && 0 <= off && 0 <= litpos <= pos <= s.len() - 32 && 0 < pos {
        let m = chosen(s, t, off, litpos, pos);
        lemma_chosen(s, t, off, litpos, pos);
        if m.len >= MIN_MATCH {
            let next = m.target + m.len;
            let end = if next < s.len() - 32 {
                next
            } else {
                s.len() - 32
            };
            let t1 = entered_range(t, s, m.target, end);
            lemma_parsed(s, t1, m.target - m.pos, next, next);
            let q = parsed(s, t, off, litpos, pos);
            assert(q.skip(1) =~= parsed(s, t1, m.target - m.pos, next, next));
        } else {
            lemma_parsed(s, entered(t, s, pos), off, litpos, pos + SKIP_STEP);
        }
    }
}

/// The matches of a parse repeat earlier bytes of the buffer, one after the
/// other and each with room for its description.
pub proof fn lemma_steps(s: Seq<u8>)
    ensures
        replays(s, 0, 0, steps(s)),
{
    lemma_parsed(s, entered(Seq::new(TABLE_LEN as nat, |k: int| 0i32), s, 0), 0, 0, 5);
}

} // verus!
