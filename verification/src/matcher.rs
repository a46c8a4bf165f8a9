//! The match finder: the longest legal match for a position among the
//! candidates of a hash chain.
use vstd::prelude::*;

verus! {

/// Number of candidates in a hash chain.
pub const HISTSIZE: usize = 4;

/// `len` bytes at position `target` that also stand at position `pos`. All zero
/// if there is no legal match.
#[derive(Clone, Copy, Debug, PartialEq, Eq, Structural)]
pub struct Match {
    pub target: i32,
    pub pos: i32,
    pub len: i32,
}

impl Default for Match {
    /// No match.
    fn default() -> (m: Match)
        ensures
            m.target == 0,
            m.pos == 0,
            m.len == 0,
    {
        Match { target: 0, pos: 0, len: 0 }
    }
}

/// The same as integers.
pub struct Found {
    pub target: int,
    pub pos: int,
    pub len: int,
}

impl View for Match {
    type V = Found;

    open spec fn view(&self) -> Found {
        Found { target: self.target as int, pos: self.pos as int, len: self.len as int }
    }
}

/// Number of equal bytes of `s` from `a` and from `b` on, up to the end of `s`.
pub open spec fn common_prefix(s: Seq<u8>, a: int, b: int) -> int
    decreases s.len() - b,
{
    if b >= s.len() || s[a] != s[b] {
        0
    } else {
        1 + common_prefix(s, a + 1, b + 1)
    }
}

/// Number of equal bytes of `s` before `a` and before `b`, as long as `a` stays
/// within `s` and `b` does not pass `floor`.
pub open spec fn common_suffix(s: Seq<u8>, a: int, b: int, floor: int) -> int
    decreases a,
{
    if a <= 0 || b <= floor || s[a - 1] != s[b - 1] {
        0
    } else {
        1 + common_suffix(s, a - 1, b - 1, floor)
    }
}

/// The match of `pos` with the earlier position `cand`, extended both ways.
pub open spec fn extended(s: Seq<u8>, floor: int, pos: int, cand: int) -> Found {
    let back = common_suffix(s, cand, pos, floor);
    Found { target: pos - back, pos: cand - back, len: common_prefix(s, cand, pos) + back }
}

/// A distance of 65536 or more pays off for more than 15 bytes only.
pub open spec fn legal(m: Found) -> bool {
    m.target - m.pos < 65536 || m.len > 15
}

/// The better of `best` and what the candidates `hist[i..]` give: a longer match
/// wins, an earlier candidate among equals. A zero behind the first slot ends
/// the chain; a candidate that is not before `pos` does not count.
pub open spec fn best_from(
    s: Seq<u8>,
    floor: int,
    pos: int,
    hist: Seq<i32>,
    i: int,
    best: Found,
) -> Found
    decreases hist.len() - i,
{
    if i >= hist.len() || (i > 0 && hist[i] == 0) {
        best
    } else {
        let m = extended(s, floor, pos, hist[i] as int);
        if hist[i] < pos && legal(m) && m.len > best.len {
            best_from(s, floor, pos, hist, i + 1, m)
        } else {
            best_from(s, floor, pos, hist, i + 1, best)
        }
    }
}

/// No match.
pub open spec fn nothing() -> Found {
    Found { target: 0, pos: 0, len: 0 }
}

/// The longest legal match of `pos` with a candidate of `hist`.
pub open spec fn best_of(s: Seq<u8>, floor: int, pos: int, hist: Seq<i32>) -> Found {
    best_from(s, floor, pos, hist, 0, nothing())
}

/// `m` lies within `s`, not before `floor`, and its bytes repeat with its
/// distance.
pub open spec fn sound(s: Seq<u8>, floor: int, m: Found) -> bool {
    &&& 0 <= m.len
    &&& m.len > 0 ==> {
        &&& 0 <= m.pos < m.target
        &&& floor <= m.target
        &&& m.target + m.len <= s.len()
        &&& forall|i: int|
            m.target <= i < m.target + m.len ==> #[trigger] s[i] == s[i - (m.target - m.pos)]
    }
}

/// The common prefix lies within the text, and its bytes agree.
pub proof fn lemma_common_prefix(s: Seq<u8>, a: int, b: int)
    requires
        0 <= a < b <= s.len(),
    ensures
        0 <= common_prefix(s, a, b) <= s.len() - b,
        forall|i: int| b <= i < b + common_prefix(s, a, b) ==> #[trigger] s[i] == s[i - (b - a)],
    decreases s.len() - b,
{
    if b < s.len() && s[a] == s[b] {
        lemma_common_prefix(s, a + 1, b + 1);
    }
}

proof fn lemma_common_suffix(s: Seq<u8>, a: int, b: int, floor: int)
    requires
        0 <= a < b <= s.len(),
        floor <= b,
    ensures
        0 <= common_suffix(s, a, b, floor) <= a,
        common_suffix(s, a, b, floor) <= b - floor,
        forall|i: int| b - common_suffix(s, a, b, floor) <= i < b ==> #[trigger] s[i] == s[i - (b
            - a)],
    decreases a,
{
    if !(a <= 0 || b <= floor || s[a - 1] != s[b - 1]) {
        lemma_common_suffix(s, a - 1, b - 1, floor);
    }
}

/// An extended candidate is a sound match.
pub proof fn lemma_extended(s: Seq<u8>, floor: int, pos: int, cand: int)
    requires
        0 <= cand < pos <= s.len(),
        floor <= pos,
    ensures
        sound(s, floor, extended(s, floor, pos, cand)),
        extended(s, floor, pos, cand).len <= s.len(),
{
    lemma_common_prefix(s, cand, pos);
    lemma_common_suffix(s, cand, pos, floor);
}

/// The best match is sound and legal.
pub proof fn lemma_best_from(
    s: Seq<u8>,
    floor: int,
    pos: int,
    hist: Seq<i32>,
    i: int,
    best: Found,
)
    requires
        0 <= i,
        0 <= floor <= pos <= s.len(),
        forall|k: int| 0 <= k < hist.len() ==> 0 <= #[trigger] hist[k],
        sound(s, floor, best),
        legal(best),
    ensures
        sound(s, floor, best_from(s, floor, pos, hist, i, best)),
        legal(best_from(s, floor, pos, hist, i, best)),
    decreases hist.len() - i,
{
    if !(i >= hist.len() || (i > 0 && hist[i] == 0)) {
        let m = extended(s, floor, pos, hist[i] as int);
        if hist[i] < pos {
            lemma_extended(s, floor, pos, hist[i] as int);
        }
        if hist[i] < pos && legal(m) && m.len > best.len {
            lemma_best_from(s, floor, pos, hist, i + 1, m);
        } else {
            lemma_best_from(s, floor, pos, hist, i + 1, best);
        }
    }
}

/// The best match starts at `pos` or before.
pub proof fn lemma_best_target(
    s: Seq<u8>,
    floor: int,
    pos: int,
    hist: Seq<i32>,
    i: int,
    best: Found,
)
    requires
        0 <= i,
        0 <= floor <= pos <= s.len(),
        forall|k: int| 0 <= k < hist.len() ==> 0 <= #[trigger] hist[k],
        best.target <= pos,
    ensures
        best_from(s, floor, pos, hist, i, best).target <= pos,
    decreases hist.len() - i,
{
    if !(i >= hist.len() || (i > 0 && hist[i] == 0)) {
        let m = extended(s, floor, pos, hist[i] as int);
        if hist[i] < pos {
            lemma_common_suffix(s, hist[i] as int, pos, floor);
        }
        if hist[i] < pos && legal(m) && m.len > best.len {
            lemma_best_target(s, floor, pos, hist, i + 1, m);
        } else {
            lemma_best_target(s, floor, pos, hist, i + 1, best);
        }
    }
}

proof fn lemma_best_longest_from(
    s: Seq<u8>,
    floor: int,
    pos: int,
    hist: Seq<i32>,
    i: int,
    best: Found,
    k: int,
)
    requires
        0 <= i,
        k < hist.len(),
        forall|j: int| 0 < j <= k ==> #[trigger] hist[j] != 0,
    ensures
        best.len <= best_from(s, floor, pos, hist, i, best).len,
        i <= k && hist[k] < pos && legal(extended(s, floor, pos, hist[k] as int)) ==> extended(
            s,
            floor,
            pos,
            hist[k] as int,
        ).len <= best_from(s, floor, pos, hist, i, best).len,
    decreases hist.len() - i,
{
    if !(i >= hist.len() || (i > 0 && hist[i] == 0)) {
        let m = extended(s, floor, pos, hist[i] as int);
        if hist[i] < pos && legal(m) && m.len > best.len {
            lemma_best_longest_from(s, floor, pos, hist, i + 1, m, k);
        } else {
            lemma_best_longest_from(s, floor, pos, hist, i + 1, best, k);
        }
    }
}

/// No candidate before the end of the chain gives a longer legal match than the
/// one that is found.
pub proof fn lemma_best_longest(s: Seq<u8>, floor: int, pos: int, hist: Seq<i32>, k: int)
    requires
        0 <= k < hist.len(),
        forall|j: int| 0 < j <= k ==> #[trigger] hist[j] != 0,
        hist[k] < pos,
        legal(extended(s, floor, pos, hist[k] as int)),
    ensures
        extended(s, floor, pos, hist[k] as int).len <= best_of(s, floor, pos, hist).len,
{
    lemma_best_longest_from(s, floor, pos, hist, 0, nothing(), k);
}

/// The common prefix ends at the end of the text or where two bytes differ.
pub proof fn lemma_prefix_exact(s: Seq<u8>, a: int, b: int, k: int)
    requires
        0 <= a < b,
        0 <= k,
        b + k <= s.len(),
        forall|i: int| b <= i < b + k ==> #[trigger] s[i] == s[i - (b - a)],
        b + k == s.len() || s[a + k] != s[b + k],
    ensures
        common_prefix(s, a, b) == k,
    decreases k,
{
    if k > 0 {
        assert(s[b] == s[b - (b - a)]);
        lemma_prefix_exact(s, a + 1, b + 1, k - 1);
    }
}

/// The common suffix ends at the start of the text, at the floor, or where two bytes
/// differ.
pub proof fn lemma_suffix_exact(s: Seq<u8>, a: int, b: int, floor: int, k: int)
    requires
        0 <= k <= a < b <= s.len(),
        k <= b - floor,
        forall|i: int| b - k <= i < b ==> #[trigger] s[i] == s[i - (b - a)],
        a == k || b - k == floor || s[a - k - 1] != s[b - k - 1],
    ensures
        common_suffix(s, a, b, floor) == k,
    decreases k,
{
    if k > 0 {
        assert(s[b - 1] == s[b - 1 - (b - a)]);
        lemma_suffix_exact(s, a - 1, b - 1, floor, k - 1);
    }
}

/// Candidate `k` counts for `pos`: it is before `pos`, no zero ends the chain up to it,
/// and its match is legal.
pub open spec fn counts(s: Seq<u8>, floor: int, pos: int, hist: Seq<i32>, k: int) -> bool {
    &&& 0 <= k < hist.len()
    &&& hist[k] < pos
    &&& forall|j: int| 0 < j <= k ==> #[trigger] hist[j] != 0
    &&& {
        let m = extended(s, floor, pos, hist[k] as int);
        m.target - m.pos < 65536 || m.len > 15
    }
}

proof fn lemma_best_which(
    s: Seq<u8>,
    floor: int,
    pos: int,
    hist: Seq<i32>,
    i: int,
    best: Found,
) -> (k: int)
    requires
        0 <= i <= hist.len(),
        forall|j: int| 0 < j < i ==> #[trigger] hist[j] != 0,
    ensures
        ({
            let m = best_from(s, floor, pos, hist, i, best);
            &&& k == -1 ==> m == best
            &&& k != -1 ==> i <= k && counts(s, floor, pos, hist, k) && m == extended(
                s,
                floor,
                pos,
                hist[k] as int,
            ) && m.len > best.len
            &&& best.len <= m.len
            &&& forall|j: int|
                i <= j && #[trigger] counts(s, floor, pos, hist, j) ==> extended(
                    s,
                    floor,
                    pos,
                    hist[j] as int,
                ).len <= m.len && (k != -1 && j < k ==> extended(
                    s,
                    floor,
                    pos,
                    hist[j] as int,
                ).len < m.len)
        }),
    decreases hist.len() - i,
{
    if i >= hist.len() {
        -1
    } else if i > 0 && hist[i] == 0 {
        assert forall|j: int| i <= j implies !#[trigger] counts(s, floor, pos, hist, j) by {
            if counts(s, floor, pos, hist, j) {
                assert(hist[i] != 0);
            }
        }
        -1
    } else {
        let m = extended(s, floor, pos, hist[i] as int);
        assert(counts(s, floor, pos, hist, i) <==> hist[i] < pos && legal(m));
        if hist[i] < pos && legal(m) && m.len > best.len {
            let k = lemma_best_which(s, floor, pos, hist, i + 1, m);
            if k == -1 {
                i
            } else {
                k
            }
        } else {
            lemma_best_which(s, floor, pos, hist, i + 1, best)
        }
    }
}

/// The match that is found is that of a candidate that counts, extended both ways as
/// far as it goes; none that counts gives a longer one, and none before it one that is
/// as long. Nothing is found only if no candidate that counts gives anything.
pub proof fn lemma_best_exact(s: Seq<u8>, floor: int, pos: int, hist: Seq<i32>) -> (k: int)
    ensures
        ({
            let m = best_of(s, floor, pos, hist);
            &&& k == -1 ==> m.len == 0 && m.target == 0 && m.pos == 0
            &&& k != -1 ==> counts(s, floor, pos, hist, k) && m == extended(
                s,
                floor,
                pos,
                hist[k] as int,
            ) && m.len > 0
            &&& forall|j: int| #[trigger]
                counts(s, floor, pos, hist, j) ==> extended(s, floor, pos, hist[j] as int).len
                    <= m.len && (k != -1 && j < k ==> extended(s, floor, pos, hist[j] as int).len
                    < m.len)
        }),
{
    lemma_best_which(s, floor, pos, hist, 0, nothing())
}

/// A candidate is extended backwards and forwards.
pub proof fn lemma_extended_parts(s: Seq<u8>, floor: int, pos: int, cand: int)
    ensures
        ({
            let m = extended(s, floor, pos, cand);
            &&& m.target == pos - common_suffix(s, cand, pos, floor)
            &&& m.pos == cand - common_suffix(s, cand, pos, floor)
            &&& m.target + m.len == pos + common_prefix(s, cand, pos)
        }),
{
}

/// Number of equal bytes from `lo` and from `hi` on, up to the end of `src`.
pub fn lcp(src: &[u8], lo: usize, hi: usize) -> (n: usize)
    requires
        lo < hi <= src@.len(),
    ensures
        n == common_prefix(src@, lo as int, hi as int),
        n <= src@.len() - hi,
{
    let len: usize = src.len();
    let max: usize = len - hi;
    let mut n: usize = 0;
    while n < max && src[lo + n] == src[hi + n]
        invariant
            lo < hi <= src@.len(),
            len == src@.len(),
            max == len - hi,
            n <= max,
            common_prefix(src@, lo as int, hi as int) == n + common_prefix(
                src@,
                lo + n,
                hi + n,
            ),
        decreases max - n,
    {
        n = n + 1;
    }
    n
}

/// Number of equal bytes before `lo` and before `hi`, not passing `floor`.
fn lcs(src: &[u8], lo: usize, hi: usize, floor: usize) -> (n: usize)
    requires
        lo < hi <= src@.len(),
    ensures
        n == common_suffix(src@, lo as int, hi as int, floor as int),
        n <= lo,
{
    let mut n: usize = 0;
    while n < lo && hi - n > floor && src[lo - n - 1] == src[hi - n - 1]
        invariant
            lo < hi <= src@.len(),
            n <= lo,
            common_suffix(src@, lo as int, hi as int, floor as int) == n + common_suffix(
                src@,
                lo - n,
                hi - n,
                floor as int,
            ),
        decreases lo - n,
    {
        n = n + 1;
    }
    n
}

/// The longest legal match of `pos` with a candidate of `hist`, extended back at
/// most to `litmin`.
pub fn best_match_scalar(src: &[u8], litmin: i32, pos: i32, hist: &[i32; HISTSIZE]) -> (m: Match)
    requires
        0 <= litmin <= pos <= src@.len() <= i32::MAX,
        forall|k: int| 0 <= k < 4 ==> 0 <= #[trigger] hist@[k],
    ensures
        m@ == best_of(src@, litmin as int, pos as int, hist@),
{
    let ghost s = src@;
    let mut best: Match = Match { target: 0, pos: 0, len: 0 };
    let mut i: usize = 0;
    while i < HISTSIZE
        invariant_except_break
            i <= 4,
            s == src@,
            0 <= litmin <= pos <= src@.len() <= i32::MAX,
            forall|k: int| 0 <= k < 4 ==> 0 <= #[trigger] hist@[k],
            best_of(s, litmin as int, pos as int, hist@) == best_from(
                s,
                litmin as int,
                pos as int,
                hist@,
                i as int,
                best@,
            ),
        ensures
            best@ == best_of(s, litmin as int, pos as int, hist@),
        decreases 4 - i,
    {
        let cand: i32 = hist[i];
        if i > 0 && cand == 0 {
            break;
        }
        if cand < pos {
            proof {
                lemma_extended(s, litmin as int, pos as int, cand as int);
                lemma_common_suffix(s, cand as int, pos as int, litmin as int);
            }
            let ahead: usize = lcp(src, cand as usize, pos as usize);
            let back: usize = lcs(src, cand as usize, pos as usize, litmin as usize);
            let m: Match = Match {
                target: pos - back as i32,
                pos: cand - back as i32,
                len: (ahead + back) as i32,
            };
            if (m.target - m.pos < 65536 || m.len > 15) && m.len > best.len {
                best = m;
            }
        }
        i = i + 1;
    }
    best
}

/// The longest legal match; see [`best_match_scalar`].
pub fn best_match(src: &[u8], litmin: i32, pos: i32, hist: &[i32; HISTSIZE]) -> (m: Match)
    requires
        0 <= litmin <= pos <= src@.len() <= i32::MAX,
        forall|k: int| 0 <= k < 4 ==> 0 <= #[trigger] hist@[k],
    ensures
        m@ == best_of(src@, litmin as int, pos as int, hist@),
{
    best_match_scalar(src, litmin, pos, hist)
}

} // verus!
