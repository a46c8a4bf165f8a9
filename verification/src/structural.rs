//! The structural decoder: from blocks to bytes.
//!
//! A block is a data area followed by a control area that is read from the end
//! of the block backwards. A structural command names six streams (tokens,
//! 16-bit offsets, 24-bit offsets, literal lengths, match lengths, literals),
//! each stored as it is or entropy-coded, from which literal runs and copies of
//! earlier output are replayed.
use crate::ans1;
use crate::ans1::ans1_decode;
use crate::ans32;
use crate::ans32::ans32_decode_simd;
use crate::bytes;
use crate::bytes::{append, get_u16, get_u24};
use crate::error::Error;
use crate::nibble;
use crate::nibble::ans_nibble_decode;
use crate::varint;
use crate::varint::read_control_varuint;
use vstd::prelude::*;

verus! {

// ---------------------------------------------------------------------------
// Tokens
// ---------------------------------------------------------------------------
/// Token flag: the literal length goes on in its stream.
pub const VAR_LIT_LEN: u8 = 0x02;

/// Token flag: the match length goes on in its stream.
pub const VAR_MATCH_LEN: u8 = 0x04;

/// Token flag: a 24-bit offset follows.
pub const OFFSET24: u8 = 0x08;

/// Token flag: a 16-bit offset follows.
pub const OFFSET16: u8 = 0x10;

/// The literal length within token `t`.
pub open spec fn lit_base(t: u8) -> int {
    if t >= 32 {
        t as int % 8
    } else {
        0
    }
}

/// The match length within token `t`.
pub open spec fn match_base(t: u8) -> int {
    if t >= 32 {
        t as int / 8 % 16
    } else {
        t + 16
    }
}

/// The literal length of token `t` goes on in its stream.
pub open spec fn has_var_lit(t: u8) -> bool {
    t >= 32 && t % 8 == 7
}

/// The match length of token `t` goes on in its stream.
pub open spec fn has_var_match(t: u8) -> bool {
    t == 31 || (t >= 32 && t / 8 % 16 == 15)
}

/// Token `t` has a distance of 24 bits.
pub open spec fn has_offset24(t: u8) -> bool {
    t < 32
}

/// Token `t` has a distance of 16 bits.
pub open spec fn has_offset16(t: u8) -> bool {
    32 <= t < 128
}

/// The flags of token `t` as one byte.
pub open spec fn token_flags(t: u8) -> int {
    (if has_var_lit(t) {
        VAR_LIT_LEN as int
    } else {
        0
    }) + (if has_var_match(t) {
        VAR_MATCH_LEN as int
    } else {
        0
    }) + (if has_offset24(t) {
        OFFSET24 as int
    } else {
        0
    }) + (if has_offset16(t) {
        OFFSET16 as int
    } else {
        0
    })
}

/// `s` with its first elements replaced by the values of `f` on the tokens.
pub open spec fn filled(s: Seq<u8>, tokens: Seq<u8>, f: spec_fn(u8) -> int) -> Seq<u8> {
    Seq::new(
        s.len(),
        |i: int|
            if i < tokens.len() {
                f(tokens[i]) as u8
            } else {
                s[i]
            },
    )
}

/// Each token has its place: the value of token `i` stands at `i`, and what lies behind the
/// tokens stays as it was.
pub proof fn lemma_filled(s: Seq<u8>, tokens: Seq<u8>, f: spec_fn(u8) -> int, i: int)
    requires
        0 <= i < s.len(),
    ensures
        filled(s, tokens, f).len() == s.len(),
        i < tokens.len() && 0 <= f(tokens[i]) < 256 ==> filled(s, tokens, f)[i] == f(tokens[i]),
        i >= tokens.len() ==> filled(s, tokens, f)[i] == s[i],
{
}

/// The flags and both lengths of one token.
pub fn token_fields(t: u8) -> (r: (u8, u8, u8))
    ensures
        r.0 == token_flags(t),
        r.1 == lit_base(t),
        r.2 == match_base(t),
{
    if t >= 32 {
        let ll: u8 = t % 8;
        let ml: u8 = t / 8 % 16;
        let mut fl: u8 = 0;
        if ll == 7 {
            fl = fl + VAR_LIT_LEN;
        }
        if ml == 15 {
            fl = fl + VAR_MATCH_LEN;
        }
        if t < 128 {
            fl = fl + OFFSET16;
        }
        (fl, ll, ml)
    } else if t < 31 {
        (OFFSET24, 0, t + 16)
    } else {
        (VAR_MATCH_LEN + OFFSET24, 0, 47)
    }
}

/// Writes flags, literal length and match length of each token to the fronts of
/// the three slices.
fn decode_tokens_scalar(tokens: &[u8], flags: &mut [u8], litlen: &mut [u8], matchlen: &mut [u8])
    requires
        tokens@.len() <= old(flags)@.len(),
        tokens@.len() <= old(litlen)@.len(),
        tokens@.len() <= old(matchlen)@.len(),
    ensures
        final(flags)@ == filled(old(flags)@, tokens@, |t: u8| token_flags(t)),
        final(litlen)@ == filled(old(litlen)@, tokens@, |t: u8| lit_base(t)),
        final(matchlen)@ == filled(old(matchlen)@, tokens@, |t: u8| match_base(t)),
{
    let mut i: usize = 0;
    while i < tokens.len()
        invariant
            i <= tokens@.len(),
            tokens@.len() <= old(flags)@.len(),
            tokens@.len() <= old(litlen)@.len(),
            tokens@.len() <= old(matchlen)@.len(),
            flags@ =~= filled(old(flags)@, tokens@.take(i as int), |t: u8| token_flags(t)),
            litlen@ =~= filled(old(litlen)@, tokens@.take(i as int), |t: u8| lit_base(t)),
            matchlen@ =~= filled(old(matchlen)@, tokens@.take(i as int), |t: u8| match_base(t)),
        decreases tokens.len() - i,
    {
        let (fl, ll, ml): (u8, u8, u8) = token_fields(tokens[i]);
        flags[i] = fl;
        litlen[i] = ll;
        matchlen[i] = ml;
        i = i + 1;
    }
    assert(tokens@.take(tokens@.len() as int) =~= tokens@);
}

/// Writes flags, literal length and match length of each token to the fronts of
/// the three slices.
pub fn decode_tokens_ref(tokens: &[u8], flags: &mut [u8], litlen: &mut [u8], matchlen: &mut [u8])
    requires
        tokens@.len() <= old(flags)@.len(),
        tokens@.len() <= old(litlen)@.len(),
        tokens@.len() <= old(matchlen)@.len(),
    ensures
        final(flags)@ == filled(old(flags)@, tokens@, |t: u8| token_flags(t)),
        final(litlen)@ == filled(old(litlen)@, tokens@, |t: u8| lit_base(t)),
        final(matchlen)@ == filled(old(matchlen)@, tokens@, |t: u8| match_base(t)),
{
    decode_tokens_scalar(tokens, flags, litlen, matchlen);
}

/// Does exactly what [`decode_tokens_ref`] does.
pub fn decode_tokens_simd(tokens: &[u8], flags: &mut [u8], litlen: &mut [u8], matchlen: &mut [u8])
    requires
        tokens@.len() <= old(flags)@.len(),
        tokens@.len() <= old(litlen)@.len(),
        tokens@.len() <= old(matchlen)@.len(),
    ensures
        final(flags)@ == filled(old(flags)@, tokens@, |t: u8| token_flags(t)),
        final(litlen)@ == filled(old(litlen)@, tokens@, |t: u8| lit_base(t)),
        final(matchlen)@ == filled(old(matchlen)@, tokens@, |t: u8| match_base(t)),
{
    decode_tokens_scalar(tokens, flags, litlen, matchlen);
}

// ---------------------------------------------------------------------------
// Replaying streams
// ---------------------------------------------------------------------------
/// What is left of the six streams.
pub struct Pack {
    pub tokens: Seq<u8>,
    pub off16: Seq<u8>,
    pub off24: Seq<u8>,
    pub var_lit: Seq<u8>,
    pub var_match: Seq<u8>,
    pub lits: Seq<u8>,
}

/// The streams in the order in which a block lists them.
pub open spec fn pack_of(s: Seq<Seq<u8>>) -> Pack {
    Pack {
        tokens: s[0],
        off16: s[1],
        off24: s[2],
        var_lit: s[3],
        var_match: s[4],
        lits: s[5],
    }
}

/// `dst` followed by `n` bytes, each a copy of the byte `off` before it.
pub open spec fn copied(dst: Seq<u8>, off: int, n: int) -> Seq<u8>
    decreases n,
{
    if n <= 0 {
        dst
    } else {
        copied(dst.push(dst[dst.len() - off]), off, n - 1)
    }
}

/// A length that starts with `base` and, if `var`, goes on in the stream `s`.
pub open spec fn length_front(s: Seq<u8>, base: int, var: bool) -> Option<(int, Seq<u8>)> {
    if var {
        match varint::varuint_front(s) {
            None => None,
            Some((v, rest)) => Some((base + v, rest)),
        }
    } else {
        Some((base, s))
    }
}

/// The offset that token `t` uses, and what is left of both offset streams.
pub open spec fn offset_front(p: Pack, t: u8, last: int) -> Option<(int, Seq<u8>, Seq<u8>)> {
    if has_offset24(t) {
        if p.off24.len() < 3 {
            None
        } else {
            Some((bytes::u24_at(p.off24, 0), p.off16, p.off24.skip(3)))
        }
    } else if has_offset16(t) {
        if p.off16.len() < 2 {
            None
        } else {
            Some((bytes::u16_at(p.off16, 0), p.off16.skip(2), p.off24))
        }
    } else {
        Some((last, p.off16, p.off24))
    }
}

/// Replays one token onto `dst`: the streams, the offset in use and the output
/// after it. An error comes with the output produced until then.
pub open spec fn step(p: Pack, last: int, dst: Seq<u8>) -> Result<
    (Pack, int, Seq<u8>),
    (Seq<u8>, Error),
> {
    let t = p.tokens[0];
    match length_front(p.var_lit, lit_base(t), has_var_lit(t)) {
        None => Err((dst, Error::OutOfInputData)),
        Some((ll, var_lit)) => if ll > p.lits.len() {
            Err((dst, Error::OutOfInputData))
        } else {
            let d = dst + p.lits.take(ll);
            match offset_front(p, t, last) {
                None => Err((d, Error::OutOfInputData)),
                Some((off, off16, off24)) => match length_front(
                    p.var_match,
                    match_base(t),
                    has_var_match(t),
                ) {
                    None => Err((d, Error::OutOfInputData)),
                    Some((ml, var_match)) => if off > d.len() || (off == 0 && ml > 0) {
                        Err((d, Error::CorruptOffset))
                    } else {
                        Ok(
                            (
                                Pack {
                                    tokens: p.tokens.skip(1),
                                    off16,
                                    off24,
                                    var_lit,
                                    var_match,
                                    lits: p.lits.skip(ll),
                                },
                                off,
                                copied(d, off, ml),
                            ),
                        )
                    },
                },
            }
        },
    }
}

/// Replays all tokens and the literals left over onto `dst`.
pub open spec fn replay(p: Pack, last: int, dst: Seq<u8>) -> Result<Seq<u8>, (Seq<u8>, Error)>
    decreases p.tokens.len(),
{
    if p.tokens.len() == 0 {
        Ok(dst + p.lits)
    } else {
        match step(p, last, dst) {
            Err(e) => Err(e),
            Ok((p1, l1, d1)) => replay(p1, l1, d1),
        }
    }
}

/// Replaying a token whose fields are known.
pub proof fn lemma_replay_token(
    p: Pack,
    last: int,
    dst: Seq<u8>,
    lit: Seq<u8>,
    off: int,
    ml: int,
    rest: Pack,
)
    requires
        p.tokens.len() > 0,
        p.tokens.skip(1) == rest.tokens,
        length_front(p.var_lit, lit_base(p.tokens[0]), has_var_lit(p.tokens[0])) == Some(
            (lit.len() as int, rest.var_lit),
        ),
        p.lits == lit + rest.lits,
        offset_front(p, p.tokens[0], last) == Some((off, rest.off16, rest.off24)),
        length_front(p.var_match, match_base(p.tokens[0]), has_var_match(p.tokens[0])) == Some(
            (ml, rest.var_match),
        ),
        off <= dst.len() + lit.len(),
        off > 0 || ml <= 0,
    ensures
        replay(p, last, dst) == replay(rest, off, copied(dst + lit, off, ml)),
{
    assert(p.lits.take(lit.len() as int) =~= lit);
    assert(p.lits.skip(lit.len() as int) =~= rest.lits);
    assert(step(p, last, dst) == Ok::<(Pack, int, Seq<u8>), (Seq<u8>, Error)>(
        (rest, off, copied(dst + lit, off, ml)),
    ));
}

/// Copying a stretch that repeats with distance `off` continues it.
pub proof fn lemma_copied(s: Seq<u8>, a: int, off: int, n: int)
    requires
        0 < off <= a,
        0 <= n,
        a + n <= s.len(),
        forall|i: int| a <= i < a + n ==> #[trigger] s[i] == s[i - off],
    ensures
        copied(s.take(a), off, n) == s.take(a + n),
    decreases n,
{
    if n > 0 {
        assert(s[a] == s[a - off]);
        assert(s.take(a).push(s.take(a)[a - off]) =~= s.take(a + 1));
        lemma_copied(s, a + 1, off, n - 1);
    }
}

/// What a copy is: the bytes that were there, and as many more as asked for, each equal to
/// the one at the distance before it.
pub proof fn lemma_copied_exact(dst: Seq<u8>, off: int, n: int)
    requires
        0 < off <= dst.len(),
        0 <= n,
    ensures
        ({
            let r = copied(dst, off, n);
            &&& r.len() == dst.len() + n
            &&& r.take(dst.len() as int) == dst
            &&& forall|i: int| dst.len() <= i < r.len() ==> #[trigger] r[i] == r[i - off]
        }),
    decreases n,
{
    if n > 0 {
        let d = dst.push(dst[dst.len() - off]);
        let k = dst.len() as int;
        lemma_copied_exact(d, off, n - 1);
        let r = copied(dst, off, n);
        assert(r.take(k) =~= dst) by {
            assert(r.take(k + 1) == d);
            assert forall|i: int| 0 <= i < k implies r[i] == dst[i] by {
                assert(r.take(k + 1)[i] == d[i]);
            }
        }
        assert forall|i: int| k <= i < r.len() implies #[trigger] r[i] == r[i - off] by {
            if i == k {
                assert(r.take(k + 1)[k] == d[k]);
                assert(r.take(k + 1)[k - off] == d[k - off]);
            }
        }
    } else {
        assert(dst.take(dst.len() as int) =~= dst);
    }
}

/// How a token is made up. From 32 on it holds a literal length below 8, a match length
/// below 16 and a bit that repeats the distance; 7 and 15 go on in their streams. Below 32
/// it holds a match length of 16 or more with a distance of 24 bits, and no literals; 31
/// goes on.
pub proof fn lemma_token_parts(t: u8)
    ensures
        t >= 32 ==> {
            &&& 0 <= lit_base(t) < 8
            &&& 0 <= match_base(t) < 16
            &&& t == lit_base(t) + 8 * match_base(t) + if has_offset16(t) {
                0int
            } else {
                128
            }
            &&& !has_offset24(t)
            &&& has_var_lit(t) <==> lit_base(t) == 7
            &&& has_var_match(t) <==> match_base(t) == 15
        },
        t < 32 ==> {
            &&& lit_base(t) == 0
            &&& match_base(t) == 16 + t
            &&& has_offset24(t)
            &&& !has_offset16(t)
            &&& !has_var_lit(t)
            &&& has_var_match(t) <==> t == 31
        },
        token_flags(t) == (if has_var_lit(t) {
            2int
        } else {
            0
        }) + (if has_var_match(t) {
            4int
        } else {
            0
        }) + (if has_offset24(t) {
            8int
        } else {
            0
        }) + (if has_offset16(t) {
            16int
        } else {
            0
        }),
{
}

/// Where replaying stops: at the end of the tokens, with the literals that are left; at a
/// stream that runs out; and at a distance that reaches before the output, or is zero.
/// An error keeps what was put out before it.
pub proof fn lemma_replay_stops(p: Pack, last: int, dst: Seq<u8>)
    ensures
        p.tokens.len() == 0 ==> replay(p, last, dst) == Ok::<Seq<u8>, (Seq<u8>, Error)>(
            dst + p.lits,
        ),
        p.tokens.len() > 0 ==> {
            let t = p.tokens[0];
            match length_front(p.var_lit, lit_base(t), has_var_lit(t)) {
                None => replay(p, last, dst) == Err::<Seq<u8>, (Seq<u8>, Error)>(
                    (dst, Error::OutOfInputData),
                ),
                Some((ll, _)) => if ll > p.lits.len() {
                    replay(p, last, dst) == Err::<Seq<u8>, (Seq<u8>, Error)>(
                        (dst, Error::OutOfInputData),
                    )
                } else {
                    let d = dst + p.lits.take(ll);
                    let ml = length_front(p.var_match, match_base(t), has_var_match(t));
                    &&& (t < 32 && p.off24.len() < 3) || (32 <= t < 128 && p.off16.len() < 2)
                        || ml is None ==> replay(p, last, dst) == Err::<
                        Seq<u8>,
                        (Seq<u8>, Error),
                    >((d, Error::OutOfInputData))
                    &&& match (offset_front(p, t, last), ml) {
                        (Some((off, _, _)), Some((n, _))) => off > d.len() || (off == 0 && n > 0)
                            ==> replay(p, last, dst) == Err::<Seq<u8>, (Seq<u8>, Error)>(
                            (d, Error::CorruptOffset),
                        ),
                        _ => true,
                    }
                },
            }
        },
{
}

/// Which distance a token uses, and where it comes from.
pub proof fn lemma_offset_parts(p: Pack, t: u8, last: int)
    ensures
        t < 32 && p.off24.len() >= 3 ==> offset_front(p, t, last) == Some(
            (
                p.off24[0] + 256 * p.off24[1] + 65536 * p.off24[2],
                p.off16,
                p.off24.skip(3),
            ),
        ),
        32 <= t < 128 && p.off16.len() >= 2 ==> offset_front(p, t, last) == Some(
            (p.off16[0] + 256 * p.off16[1], p.off16.skip(2), p.off24),
        ),
        t >= 128 ==> offset_front(p, t, last) == Some((last, p.off16, p.off24)),
{
}

/// The value of three base-254 digits that are packed as bytes.
spec fn digits_value(b: int) -> int {
    b % 256 + 254 * (b / 256 % 256) + 64516 * (b / 65536)
}

proof fn lemma_digits(x: u8, y: u8, z: u8)
    ensures
        digits_value(x + 256 * y + 65536 * z) == x + 254 * y + 64516 * z,
{
    let b = x + 256 * y + 65536 * z;
    assert(b / 256 == y + 256 * z);
    assert(b / 65536 == z);
}

/// The value of three base-254 digits that are packed as bytes.
fn from_digits(b: u32) -> (v: usize)
    requires
        b < 16777216,
    ensures
        v == digits_value(b as int),
        v < 16777216,
{
    let z: u32 = b / 65536;
    assert(z < 256);
    let v: u32 = b % 256 + 254 * (b / 256 % 256) + 64516 * z;
    v as usize
}

/// A cursor into a byte stream.
pub struct Reader<'a> {
    data: &'a [u8],
    cursor: usize,
}

impl<'a> Reader<'a> {
    /// The cursor is within the stream.
    pub closed spec fn wf(self) -> bool {
        self.cursor <= self.data@.len()
    }

    /// What has not been read yet.
    pub closed spec fn rest(self) -> Seq<u8> {
        self.data@.skip(self.cursor as int)
    }

    /// A cursor at the start of `data`.
    pub fn new(data: &'a [u8]) -> (r: Reader<'a>)
        ensures
            r.wf(),
            r.rest() == data@,
    {
        assert(data@.skip(0) =~= data@);
        Reader { data, cursor: 0 }
    }

    /// Number of bytes that are left.
    pub fn remaining(&self) -> (n: usize)
        requires
            self.wf(),
        ensures
            n == self.rest().len(),
    {
        self.data.len() - self.cursor
    }

    /// Whether no bytes are left.
    pub fn empty(&self) -> (b: bool)
        requires
            self.wf(),
        ensures
            b == (self.rest().len() == 0),
    {
        self.cursor >= self.data.len()
    }

    /// Reads one byte.
    pub fn fetch8(&mut self) -> (r: Result<u8, Error>)
        requires
            old(self).wf(),
        ensures
            final(self).wf(),
            match r {
                Ok(b) => old(self).rest().len() >= 1 && b == old(self).rest()[0]
                    && final(self).rest() == old(self).rest().skip(1),
                Err(e) => e == Error::OutOfInputData && old(self).rest().len() < 1
                    && final(self).rest() == old(self).rest(),
            },
    {
        if self.data.len() - self.cursor < 1 {
            return Err(Error::OutOfInputData);
        }
        let b: u8 = self.data[self.cursor];
        self.cursor = self.cursor + 1;
        assert(self.rest() =~= old(self).rest().skip(1));
        Ok(b)
    }

    /// Reads two bytes, the low one first.
    pub fn fetch16(&mut self) -> (r: Result<u16, Error>)
        requires
            old(self).wf(),
        ensures
            final(self).wf(),
            match r {
                Ok(v) => old(self).rest().len() >= 2 && v == bytes::u16_at(old(self).rest(), 0)
                    && final(self).rest() == old(self).rest().skip(2),
                Err(e) => e == Error::OutOfInputData && old(self).rest().len() < 2
                    && final(self).rest() == old(self).rest(),
            },
    {
        if self.data.len() - self.cursor < 2 {
            return Err(Error::OutOfInputData);
        }
        let v: u16 = get_u16(self.data, self.cursor);
        self.cursor = self.cursor + 2;
        assert(self.rest() =~= old(self).rest().skip(2));
        Ok(v)
    }

    /// Reads three bytes, the low one first.
    pub fn fetch24(&mut self) -> (r: Result<u32, Error>)
        requires
            old(self).wf(),
        ensures
            final(self).wf(),
            match r {
                Ok(v) => old(self).rest().len() >= 3 && v == bytes::u24_at(old(self).rest(), 0)
                    && v < 16777216 && final(self).rest() == old(self).rest().skip(3),
                Err(e) => e == Error::OutOfInputData && old(self).rest().len() < 3
                    && final(self).rest() == old(self).rest(),
            },
    {
        if self.data.len() - self.cursor < 3 {
            return Err(Error::OutOfInputData);
        }
        let v: u32 = get_u24(self.data, self.cursor);
        self.cursor = self.cursor + 3;
        assert(self.rest() =~= old(self).rest().skip(3));
        Ok(v)
    }

    /// Reads a stream integer. If it is cut off, its first byte has been read.
    pub fn fetch_varuint(&mut self) -> (r: Result<usize, Error>)
        requires
            old(self).wf(),
        ensures
            final(self).wf(),
            match r {
                Ok(v) => v < 16777216 && varint::varuint_front(old(self).rest()) == Some(
                    (v as int, final(self).rest()),
                ),
                Err(e) => e == Error::OutOfInputData && varint::varuint_front(
                    old(self).rest(),
                ) is None && final(self).rest() == if old(self).rest().len() == 0 {
                    old(self).rest()
                } else {
                    old(self).rest().skip(1)
                },
            },
    {
        let ghost all = self.rest();
        let a: u8 = match self.fetch8() {
            Ok(a) => a,
            Err(e) => {
                return Err(e);
            },
        };
        if a < 254 {
            Ok(a as usize)
        } else if a == 254 {
            match self.fetch16() {
                Ok(b) => {
                    proof {
                        assert(all.skip(1).skip(2) =~= all.skip(3));
                        lemma_digits(all[1], all[2], 0);
                    }
                    Ok(from_digits(b as u32))
                },
                Err(e) => Err(e),
            }
        } else {
            match self.fetch24() {
                Ok(b) => {
                    proof {
                        assert(all.skip(1).skip(3) =~= all.skip(4));
                        lemma_digits(all[1], all[2], all[3]);
                    }
                    Ok(from_digits(b))
                },
                Err(e) => Err(e),
            }
        }
    }

    /// Takes the next `n` bytes.
    pub fn fetch_sequence(&mut self, n: usize) -> (r: Result<&'a [u8], Error>)
        requires
            old(self).wf(),
        ensures
            final(self).wf(),
            match r {
                Ok(s) => n <= old(self).rest().len() && s@ == old(self).rest().take(n as int)
                    && final(self).rest() == old(self).rest().skip(n as int),
                Err(e) => e == Error::OutOfInputData && n > old(self).rest().len()
                    && final(self).rest() == old(self).rest(),
            },
    {
        if n > self.data.len() - self.cursor {
            return Err(Error::OutOfInputData);
        }
        let at: usize = self.cursor;
        let data: &'a [u8] = self.data;
        let s: &'a [u8] = &data[at..at + n];
        self.cursor = at + n;
        assert(s@ =~= old(self).rest().take(n as int));
        assert(self.rest() =~= old(self).rest().skip(n as int));
        Ok(s)
    }
}

/// Reads a length that starts with `base` and, if `var`, goes on in `s`.
fn fetch_length(s: &mut Reader<'_>, base: u8, var: bool) -> (r: Result<usize, Error>)
    requires
        old(s).wf(),
    ensures
        final(s).wf(),
        match r {
            Ok(v) => v < 16777472 && length_front(old(s).rest(), base as int, var) == Some(
                (v as int, final(s).rest()),
            ),
            Err(e) => e == Error::OutOfInputData && length_front(
                old(s).rest(),
                base as int,
                var,
            ) is None,
        },
{
    if var {
        match s.fetch_varuint() {
            Ok(v) => Ok(base as usize + v),
            Err(e) => Err(e),
        }
    } else {
        Ok(base as usize)
    }
}

/// Appends `n` bytes, each a copy of the byte `off` before it.
fn wild_copy(dst: &mut Vec<u8>, off: usize, n: usize) -> (r: Result<(), Error>)
    ensures
        match r {
            Ok(()) => off <= old(dst)@.len() && (off > 0 || n == 0) && final(dst)@ == copied(
                old(dst)@,
                off as int,
                n as int,
            ),
            Err(e) => e == Error::CorruptOffset && (off > old(dst)@.len() || (off == 0 && n > 0))
                && final(dst)@ == old(dst)@,
        },
{
    if off > dst.len() || (off == 0 && n > 0) {
        return Err(Error::CorruptOffset);
    }
    let mut left: usize = n;
    while left > 0
        invariant
            left <= n,
            left == 0 || 0 < off <= dst@.len(),
            copied(dst@, off as int, left as int) == copied(old(dst)@, off as int, n as int),
        decreases left,
    {
        let b: u8 = dst[dst.len() - off];
        dst.push(b);
        left = left - 1;
    }
    Ok(())
}

/// Replays the six streams onto `dst`.
pub fn decompress_block(dst: &mut Vec<u8>, streams: &Vec<Vec<u8>>) -> (r: Result<(), Error>)
    requires
        streams@.len() == 6,
    ensures
        match r {
            Ok(()) => replay(pack_of(contents(streams@)), 0, old(dst)@) == Ok::<
                Seq<u8>,
                (Seq<u8>, Error),
            >(final(dst)@),
            Err(e) => replay(pack_of(contents(streams@)), 0, old(dst)@) == Err::<
                Seq<u8>,
                (Seq<u8>, Error),
            >((final(dst)@, e)),
        },
{
    let mut tokens = Reader::new(&streams[0]);
    let mut off16 = Reader::new(&streams[1]);
    let mut off24 = Reader::new(&streams[2]);
    let mut var_lit = Reader::new(&streams[3]);
    let mut var_match = Reader::new(&streams[4]);
    let mut lits = Reader::new(&streams[5]);
    let mut last: usize = 0;
    let ghost all = replay(pack_of(contents(streams@)), 0, dst@);
    while !tokens.empty()
        invariant
            all == replay(pack_of(contents(streams@)), 0, old(dst)@),
            tokens.wf(),
            off16.wf(),
            off24.wf(),
            var_lit.wf(),
            var_match.wf(),
            lits.wf(),
            all == replay(
                (Pack {
                    tokens: tokens.rest(),
                    off16: off16.rest(),
                    off24: off24.rest(),
                    var_lit: var_lit.rest(),
                    var_match: var_match.rest(),
                    lits: lits.rest(),
                }),
                last as int,
                dst@,
            ),
        decreases tokens.rest().len(),
    {
        let t: u8 = match tokens.fetch8() {
            Ok(t) => t,
            Err(e) => {
                return Err(e);
            },
        };
        let (fl, ll0, ml0): (u8, u8, u8) = token_fields(t);
        let ll: usize = match fetch_length(&mut var_lit, ll0, t >= 32 && ll0 == 7) {
            Ok(v) => v,
            Err(e) => {
                return Err(e);
            },
        };
        let run: &[u8] = match lits.fetch_sequence(ll) {
            Ok(s) => s,
            Err(e) => {
                return Err(e);
            },
        };
        append(dst, run);
        if t < 32 {
            last =
            match off24.fetch24() {
                Ok(v) => v as usize,
                Err(e) => {
                    return Err(e);
                },
            };
        } else if t < 128 {
            last =
            match off16.fetch16() {
                Ok(v) => v as usize,
                Err(e) => {
                    return Err(e);
                },
            };
        }
        let ml: usize = match fetch_length(
            &mut var_match,
            ml0,
            t == 31 || (t >= 32 && ml0 == 15),
        ) {
            Ok(v) => v,
            Err(e) => {
                return Err(e);
            },
        };
        match wild_copy(dst, last, ml) {
            Ok(()) => {},
            Err(e) => {
                return Err(e);
            },
        }
    }
    let n: usize = lits.remaining();
    assert(lits.rest().take(n as int) =~= lits.rest());
    let tail: &[u8] = match lits.fetch_sequence(n) {
        Ok(s) => s,
        Err(e) => {
            return Err(e);
        },
    };
    append(dst, tail);
    Ok(())
}

// ---------------------------------------------------------------------------
// Blocks
// ---------------------------------------------------------------------------
/// The contents of each of the vectors.
pub open spec fn contents(v: Seq<Vec<u8>>) -> Seq<Seq<u8>> {
    v.map_values(|s: Vec<u8>| s@)
}

/// A 64-bit length as a length in memory.
#[verifier::opaque]
pub open spec fn size(v: int) -> int {
    v % (usize::MAX + 1)
}

/// The next `k` control integers before `end`, as lengths.
pub open spec fn lengths_at(src: Seq<u8>, end: int, k: int) -> Option<(Seq<int>, int)>
    decreases k,
{
    if k <= 0 {
        Some((seq![], end))
    } else {
        match varint::control_at(src, end) {
            None => None,
            Some((v, e)) => match lengths_at(src, e, k - 1) {
                None => None,
                Some((r, f)) => Some((seq![size(v)] + r, f)),
            },
        }
    }
}

/// The `n` bytes that `c` codes in the entropy mode `mode`.
pub open spec fn unpacked(mode: int, c: Seq<u8>, n: int) -> Result<Seq<u8>, Error> {
    if mode == 1 {
        ans32::decoded(c, n)
    } else if mode == 2 {
        ans1::decoded(c, n)
    } else if mode == 3 {
        nibble::decoded(c, n)
    } else {
        Err(Error::Unsupported)
    }
}

/// Streams of the given lengths taken off the data area from `data` on, the low
/// four bits of `hdr` being the mode of the first; also where the control area
/// and the data area go on.
pub open spec fn streams_at(
    src: Seq<u8>,
    end: int,
    data: int,
    hdr: int,
    lens: Seq<int>,
) -> Result<(Seq<Seq<u8>>, int, int), Error>
    decreases lens.len(),
{
    if lens.len() == 0 {
        Ok((seq![], end, data))
    } else {
        match stream_at(src, end, data, hdr % 16, lens[0]) {
            Err(e) => Err(e),
            Ok((s, e, d)) => match streams_at(src, e, d, hdr / 16, lens.skip(1)) {
                Err(x) => Err(x),
                Ok((r, f, g)) => Ok((seq![s] + r, f, g)),
            },
        }
    }
}

/// One stream of `n` bytes in the entropy mode `mode`.
#[verifier::opaque]
pub open spec fn stream_at(src: Seq<u8>, end: int, data: int, mode: int, n: int) -> Result<
    (Seq<u8>, int, int),
    Error,
> {
    if mode == 0 {
        if data + n > src.len() {
            Err(Error::OutOfInputData)
        } else {
            Ok((src.subrange(data, data + n), end, data + n))
        }
    } else {
        match varint::control_at(src, end) {
            None => Err(Error::OutOfInputData),
            Some((v, e)) => if data + size(v) > src.len() {
                Err(Error::OutOfInputData)
            } else {
                match unpacked(mode, src.subrange(data, data + size(v)), n) {
                    Err(x) => Err(x),
                    Ok(s) => Ok((s, e, data + size(v))),
                }
            },
        }
    }
}

/// What the command `c` makes of `dst`, with the positions in the control area
/// and the data area after it.
pub open spec fn command(src: Seq<u8>, c: int, end: int, data: int, dst: Seq<u8>) -> Result<
    (int, int, Seq<u8>),
    (Seq<u8>, Error),
> {
    if c == 0 {
        match varint::control_at(src, end) {
            None => Err((dst, Error::OutOfInputData)),
            Some((v, e)) => if data + size(v) > src.len() {
                Err((dst, Error::OutOfInputData))
            } else {
                Ok((e, data + size(v), dst + src.subrange(data, data + size(v))))
            },
        }
    } else if c == 1 {
        match varint::control_at(src, end) {
            None => Err((dst, Error::OutOfInputData)),
            Some((hdr, e)) => match lengths_at(src, e, 6) {
                None => Err((dst, Error::OutOfInputData)),
                Some((lens, f)) => match streams_at(src, f, data, hdr, lens) {
                    Err(x) => Err((dst, x)),
                    Ok((s, g, d)) => match replay(pack_of(s), 0, dst) {
                        Err(x) => Err(x),
                        Ok(out) => Ok((g, d, out)),
                    },
                },
            },
        }
    } else if c <= 4 {
        Err((dst, Error::Unsupported))
    } else {
        Err((dst, Error::UnrecognizedCommand))
    }
}

/// Runs the commands up to and with the first that is marked as the last one.
pub open spec fn commands(src: Seq<u8>, end: int, data: int, dst: Seq<u8>) -> Result<
    Seq<u8>,
    (Seq<u8>, Error),
>
    decreases end,
{
    if end <= 0 || end > src.len() {
        Err((dst, Error::OutOfInputData))
    } else {
        let c = src[end - 1] as int;
        match command(src, c % 128, end - 1, data, dst) {
            Err(x) => Err(x),
            Ok((e, d, out)) => {
                proof {
                    lemma_command_end(src, c % 128, end - 1, data, dst);
                }
                if c >= 128 {
                    Ok(out)
                } else {
                    commands(src, e, d, out)
                }
            },
        }
    }
}

/// What decoding the block `src` gives: its content, or an error with what had
/// been produced until then.
#[verifier::opaque]
pub open spec fn outcome(src: Seq<u8>) -> Result<Seq<u8>, (Seq<u8>, Error)> {
    match varint::control_at(src, src.len() as int) {
        None => Err((seq![], Error::OutOfInputData)),
        Some((n, end)) => if n == 0 {
            Ok(seq![])
        } else {
            commands(src, end, 0, seq![])
        },
    }
}

/// The content of the block `src`.
pub open spec fn decoded(src: Seq<u8>) -> Result<Seq<u8>, Error> {
    match outcome(src) {
        Ok(s) => Ok(s),
        Err((_, e)) => Err(e),
    }
}

/// The content length that the block `src` announces.
pub open spec fn decoded_len(src: Seq<u8>) -> Result<int, Error> {
    match varint::control_at(src, src.len() as int) {
        None => Err(Error::OutOfInputData),
        Some((n, _)) => Ok(size(n)),
    }
}

proof fn lemma_lengths_end(src: Seq<u8>, end: int, k: int)
    requires
        0 <= end <= src.len(),
    ensures
        lengths_at(src, end, k) matches Some((r, e)) ==> 0 <= e <= end && r.len() == if k <= 0 {
            0
        } else {
            k
        },
    decreases k,
{
    if k > 0 {
        varint::lemma_control_bounds(src, end, 0);
        if let Some((v, e)) = varint::control_at(src, end) {
            lemma_lengths_end(src, e, k - 1);
        }
    }
}

proof fn lemma_streams_end(src: Seq<u8>, end: int, data: int, hdr: int, lens: Seq<int>)
    requires
        0 <= end <= src.len(),
    ensures
        streams_at(src, end, data, hdr, lens) matches Ok((r, e, d)) ==> 0 <= e <= end && r.len()
            == lens.len(),
    decreases lens.len(),
{
    if lens.len() > 0 {
        reveal(stream_at);
        varint::lemma_control_bounds(src, end, 0);
        if let Ok((s, e, d)) = stream_at(src, end, data, hdr % 16, lens[0]) {
            lemma_streams_end(src, e, d, hdr / 16, lens.skip(1));
        }
    }
}

/// Commands read the control area backwards.
pub proof fn lemma_command_end(src: Seq<u8>, c: int, end: int, data: int, dst: Seq<u8>)
    requires
        0 <= end <= src.len(),
    ensures
        command(src, c, end, data, dst) matches Ok((e, d, out)) ==> 0 <= e <= end,
{
    varint::lemma_control_bounds(src, end, 0);
    if let Some((hdr, e)) = varint::control_at(src, end) {
        lemma_lengths_end(src, e, 6);
        if let Some((lens, f)) = lengths_at(src, e, 6) {
            lemma_streams_end(src, f, data, hdr, lens);
        }
    }
}

/// A length that fits in memory stays what it is.
pub proof fn lemma_size(v: int)
    requires
        0 <= v <= usize::MAX,
    ensures
        size(v) == v,
{
    reveal(size);
    vstd::arithmetic::div_mod::lemma_small_mod(v as nat, (usize::MAX + 1) as nat);
}

/// A block that announces no content has none.
pub proof fn lemma_no_content(src: Seq<u8>, end: int)
    requires
        varint::control_at(src, src.len() as int) == Some((0int, end)),
    ensures
        decoded(src) == Ok::<Seq<u8>, Error>(seq![]),
{
    reveal(outcome);
}

/// Reading the first stream, then the others.
pub proof fn lemma_streams_at(
    src: Seq<u8>,
    end: int,
    data: int,
    mode: int,
    hdr: int,
    lens: Seq<int>,
)
    requires
        lens.len() > 0,
        0 <= mode < 16,
        0 <= hdr,
    ensures
        streams_at(src, end, data, mode + 16 * hdr, lens) == match stream_at(
            src,
            end,
            data,
            mode,
            lens[0],
        ) {
            Err(e) => Err(e),
            Ok((s, e, d)) => match streams_at(src, e, d, hdr, lens.skip(1)) {
                Err(x) => Err(x),
                Ok((r, f, g)) => Ok((seq![s] + r, f, g)),
            },
        },
{
    assert((mode + 16 * hdr) % 16 == mode);
    assert((mode + 16 * hdr) / 16 == hdr);
}

/// A block whose only command yields `out`.
pub proof fn lemma_single_command(src: Seq<u8>, n: int, end: int, e: int, d: int, out: Seq<u8>)
    requires
        0 < n,
        0 < end <= src.len(),
        varint::control_at(src, src.len() as int) == Some((n, end)),
        src[end - 1] >= 128,
        command(src, src[end - 1] as int % 128, end - 1, 0, seq![]) == Ok::<
            (int, int, Seq<u8>),
            (Seq<u8>, Error),
        >((e, d, out)),
    ensures
        decoded(src) == Ok::<Seq<u8>, Error>(out),
{
    reveal(outcome);
}

/// How a stream is read: as it stands, or decoded by the coder that its mode names, from as
/// many bytes as the next control integer says.
pub proof fn lemma_stream_read(src: Seq<u8>, end: int, data: int, mode: int, n: int)
    requires
        0 <= end <= src.len(),
    ensures
        mode == 0 ==> stream_at(src, end, data, mode, n) == if data + n > src.len() {
            Err(Error::OutOfInputData)
        } else {
            Ok((src.subrange(data, data + n), end, data + n))
        },
        mode != 0 ==> match varint::control_at(src, end) {
            None => stream_at(src, end, data, mode, n) == Err::<(Seq<u8>, int, int), Error>(
                Error::OutOfInputData,
            ),
            Some((k, e)) => k <= usize::MAX ==> if data + k > src.len() {
                stream_at(src, end, data, mode, n) == Err::<(Seq<u8>, int, int), Error>(
                    Error::OutOfInputData,
                )
            } else {
                let c = src.subrange(data, data + k);
                let r = if mode == 1 {
                    ans32::decoded(c, n)
                } else if mode == 2 {
                    ans1::decoded(c, n)
                } else if mode == 3 {
                    nibble::decoded(c, n)
                } else {
                    Err(Error::Unsupported)
                };
                match r {
                    Ok(s) => stream_at(src, end, data, mode, n) == Ok::<
                        (Seq<u8>, int, int),
                        Error,
                    >((s, e, data + k)),
                    Err(x) => stream_at(src, end, data, mode, n) == Err::<
                        (Seq<u8>, int, int),
                        Error,
                    >(x),
                }
            },
        },
{
    reveal(stream_at);
    varint::lemma_control_bounds(src, end, 0);
    if let Some((k, e)) = varint::control_at(src, end) {
        if k <= usize::MAX {
            lemma_size(k);
        }
    }
}

/// How a structural command is run: the modes, six lengths, six streams, and the replay of
/// these behind what was put out before.
pub proof fn lemma_structural_command(
    src: Seq<u8>,
    end: int,
    data: int,
    dst: Seq<u8>,
    hdr: int,
    e: int,
    lens: Seq<int>,
    f: int,
)
    requires
        0 < end <= src.len(),
        src[end - 1] % 128 == 1,
        varint::control_at(src, end - 1) == Some((hdr, e)),
        lengths_at(src, e, 6) == Some((lens, f)),
    ensures
        match streams_at(src, f, data, hdr, lens) {
            Err(x) => commands(src, end, data, dst) == Err::<Seq<u8>, (Seq<u8>, Error)>((dst, x)),
            Ok((s, g, d)) => {
                let p = Pack {
                    tokens: s[0],
                    off16: s[1],
                    off24: s[2],
                    var_lit: s[3],
                    var_match: s[4],
                    lits: s[5],
                };
                match replay(p, 0, dst) {
                    Err(x) => commands(src, end, data, dst) == Err::<Seq<u8>, (Seq<u8>, Error)>(x),
                    Ok(out) => commands(src, end, data, dst) == if src[end - 1] >= 128 {
                        Ok(out)
                    } else {
                        commands(src, g, d, out)
                    },
                }
            },
        },
{
}

/// Lengths are read one after the other, and so are streams; four bits of the modes are for
/// each, the low ones for the first.
pub proof fn lemma_in_order(
    src: Seq<u8>,
    end: int,
    k: int,
    data: int,
    hdr: int,
    lens: Seq<int>,
)
    ensures
        lengths_at(src, end, 0) == Some((Seq::<int>::empty(), end)),
        k > 0 ==> match varint::control_at(src, end) {
            None => lengths_at(src, end, k) is None,
            Some((v, e)) => match lengths_at(src, e, k - 1) {
                None => lengths_at(src, end, k) is None,
                Some((r, f)) => 0 <= v <= usize::MAX ==> lengths_at(src, end, k) == Some(
                    (seq![v] + r, f),
                ),
            },
        },
        lens.len() == 0 ==> streams_at(src, end, data, hdr, lens) == Ok::<
            (Seq<Seq<u8>>, int, int),
            Error,
        >((seq![], end, data)),
        lens.len() > 0 ==> match stream_at(src, end, data, hdr % 16, lens[0]) {
            Err(x) => streams_at(src, end, data, hdr, lens) == Err::<
                (Seq<Seq<u8>>, int, int),
                Error,
            >(x),
            Ok((s, e, d)) => match streams_at(src, e, d, hdr / 16, lens.skip(1)) {
                Err(x) => streams_at(src, end, data, hdr, lens) == Err::<
                    (Seq<Seq<u8>>, int, int),
                    Error,
                >(x),
                Ok((r, f, g)) => streams_at(src, end, data, hdr, lens) == Ok::<
                    (Seq<Seq<u8>>, int, int),
                    Error,
                >((seq![s] + r, f, g)),
            },
        },
{
    if let Some((v, e)) = varint::control_at(src, end) {
        if 0 <= v <= usize::MAX {
            lemma_size(v);
        }
    }
}

/// How the commands of a block are run: from the end backwards, a stored stretch being put
/// out as it is, until one is marked by its top bit. Codes above one are refused.
pub proof fn lemma_commands_on(src: Seq<u8>, end: int, data: int, dst: Seq<u8>)
    ensures
        end <= 0 || end > src.len() ==> commands(src, end, data, dst) == Err::<
            Seq<u8>,
            (Seq<u8>, Error),
        >((dst, Error::OutOfInputData)),
        0 < end <= src.len() ==> {
            let c = src[end - 1];
            &&& 2 <= c % 128 <= 4 ==> commands(src, end, data, dst) == Err::<
                Seq<u8>,
                (Seq<u8>, Error),
            >((dst, Error::Unsupported))
            &&& 4 < c % 128 ==> commands(src, end, data, dst) == Err::<Seq<u8>, (Seq<u8>, Error)>(
                (dst, Error::UnrecognizedCommand),
            )
            &&& c % 128 == 0 ==> match varint::control_at(src, end - 1) {
                None => commands(src, end, data, dst) == Err::<Seq<u8>, (Seq<u8>, Error)>(
                    (dst, Error::OutOfInputData),
                ),
                Some((n, e)) => n <= usize::MAX ==> if data + n > src.len() {
                    commands(src, end, data, dst) == Err::<Seq<u8>, (Seq<u8>, Error)>(
                        (dst, Error::OutOfInputData),
                    )
                } else {
                    let out = dst + src.subrange(data, data + n);
                    commands(src, end, data, dst) == if c >= 128 {
                        Ok(out)
                    } else {
                        commands(src, e, data + n, out)
                    }
                },
            }
        },
{
    if 0 < end <= src.len() {
        varint::lemma_control_bounds(src, end - 1, 0);
        if let Some((n, e)) = varint::control_at(src, end - 1) {
            if n <= usize::MAX {
                lemma_size(n);
            }
        }
    }
}

/// A block starts, at its end, with its content length; without content nothing else is
/// read, and without a length there is no block.
pub proof fn lemma_outcome_start(src: Seq<u8>)
    ensures
        match varint::control_at(src, src.len() as int) {
            None => outcome(src) == Err::<Seq<u8>, (Seq<u8>, Error)>(
                (seq![], Error::OutOfInputData),
            ) && decoded_len(src) == Err::<int, Error>(Error::OutOfInputData),
            Some((n, e)) => {
                &&& n == 0 ==> outcome(src) == Ok::<Seq<u8>, (Seq<u8>, Error)>(seq![])
                &&& n != 0 ==> outcome(src) == commands(src, e, 0, seq![])
                &&& n <= usize::MAX ==> decoded_len(src) == Ok::<int, Error>(n)
            },
        },
        match outcome(src) {
            Ok(s) => decoded(src) == Ok::<Seq<u8>, Error>(s),
            Err((_, e)) => decoded(src) == Err::<Seq<u8>, Error>(e),
        },
{
    reveal(outcome);
    varint::lemma_control_bounds(src, src.len() as int, 0);
    if let Some((n, e)) = varint::control_at(src, src.len() as int) {
        if n <= usize::MAX {
            lemma_size(n);
        }
    }
}

/// A 64-bit length as a length in memory.
fn to_size(v: u64) -> (n: usize)
    ensures
        n == size(v as int),
{
    proof {
        reveal(size);
    }
    (v as u128 % (usize::MAX as u128 + 1)) as usize
}

/// Takes one stream of `n` bytes off the data area.
fn read_stream(src: &[u8], end: usize, data: usize, mode: u64, n: usize) -> (r: Result<
    (Vec<u8>, usize, usize),
    Error,
>)
    requires
        end <= src@.len(),
        data <= src@.len(),
    ensures
        match r {
            Ok((s, e, d)) => e <= end && d <= src@.len() && stream_at(
                src@,
                end as int,
                data as int,
                mode as int,
                n as int,
            ) == Ok::<(Seq<u8>, int, int), Error>((s@, e as int, d as int)),
            Err(x) => stream_at(src@, end as int, data as int, mode as int, n as int) == Err::<
                (Seq<u8>, int, int),
                Error,
            >(x),
        },
{
    proof {
        reveal(stream_at);
    }
    let len: usize = src.len();
    if mode == 0 {
        if n > len - data {
            return Err(Error::OutOfInputData);
        }
        let mut s: Vec<u8> = Vec::new();
        append(&mut s, &src[data..data + n]);
        assert(s@ =~= src@.subrange(data as int, data + n));
        return Ok((s, end, data + n));
    }
    let (v, e): (u64, usize) = match read_control_varuint(src, end) {
        Ok(p) => p,
        Err(x) => {
            return Err(x);
        },
    };
    let clen: usize = to_size(v);
    if clen > len - data {
        return Err(Error::OutOfInputData);
    }
    let c: &[u8] = &src[data..data + clen];
    let s: Result<Vec<u8>, Error> = if mode == 1 {
        ans32_decode_simd(c, n)
    } else if mode == 2 {
        ans1_decode(c, n)
    } else if mode == 3 {
        ans_nibble_decode(c, n)
    } else {
        Err(Error::Unsupported)
    };
    match s {
        Ok(s) => Ok((s, e, data + clen)),
        Err(x) => Err(x),
    }
}

/// Reads six lengths backwards from before `end`.
fn read_lengths(src: &[u8], end: usize) -> (r: Result<(Vec<usize>, usize), Error>)
    requires
        end <= src@.len(),
    ensures
        match r {
            Ok((lens, e)) => e <= end && lengths_at(src@, end as int, 6) == Some(
                (lens@.map_values(|n: usize| n as int), e as int),
            ) && lens@.len() == 6,
            Err(x) => x == Error::OutOfInputData && lengths_at(src@, end as int, 6) is None,
        },
{
    let ghost all = lengths_at(src@, end as int, 6);
    let mut lens: Vec<usize> = Vec::new();
    let mut at: usize = end;
    let mut k: usize = 0;
    proof {
        if let Some((r, e)) = all {
            assert(lens@.map_values(|n: usize| n as int) + r =~= r);
        }
    }
    while k < 6
        invariant
            k <= 6,
            k == lens@.len(),
            at <= end <= src@.len(),
            all == lengths_at(src@, end as int, 6),
            match lengths_at(src@, at as int, 6 - k) {
                None => all is None,
                Some((r, e)) => all == Some((lens@.map_values(|n: usize| n as int) + r, e)),
            },
        decreases 6 - k,
    {
        let ghost before = lens@;
        let (v, e): (u64, usize) = match read_control_varuint(src, at) {
            Ok(p) => p,
            Err(x) => {
                return Err(x);
            },
        };
        let n: usize = to_size(v);
        lens.push(n);
        at = e;
        k = k + 1;
        proof {
            if let Some((r, f)) = lengths_at(src@, at as int, 6 - k) {
                assert(before.map_values(|n: usize| n as int) + (seq![n as int] + r)
                    =~= lens@.map_values(|n: usize| n as int) + r);
            }
        }
    }
    assert(lens@.map_values(|n: usize| n as int) + Seq::<int>::empty() =~= lens@.map_values(
        |n: usize| n as int,
    ));
    Ok((lens, at))
}

/// Reads the six streams of a structural command.
fn read_streams(src: &[u8], end: usize, data: usize, hdr: u64, lens: &Vec<usize>) -> (r: Result<
    (Vec<Vec<u8>>, usize, usize),
    Error,
>)
    requires
        end <= src@.len(),
        data <= src@.len(),
    ensures
        match r {
            Ok((s, e, d)) => e <= end && d <= src@.len() && s@.len() == lens@.len() && streams_at(
                src@,
                end as int,
                data as int,
                hdr as int,
                lens@.map_values(|n: usize| n as int),
            ) == Ok::<(Seq<Seq<u8>>, int, int), Error>((contents(s@), e as int, d as int)),
            Err(x) => streams_at(
                src@,
                end as int,
                data as int,
                hdr as int,
                lens@.map_values(|n: usize| n as int),
            ) == Err::<(Seq<Seq<u8>>, int, int), Error>(x),
        },
{
    let ghost ns = lens@.map_values(|n: usize| n as int);
    let ghost all = streams_at(src@, end as int, data as int, hdr as int, ns);
    let mut out: Vec<Vec<u8>> = Vec::new();
    let mut e: usize = end;
    let mut d: usize = data;
    let mut h: u64 = hdr;
    let mut k: usize = 0;
    proof {
        assert(ns.skip(0) =~= ns);
        if let Ok((r, f, g)) = all {
            assert(contents(out@) + r =~= r);
        }
    }
    while k < lens.len()
        invariant
            k <= lens@.len(),
            k == out@.len(),
            e <= end <= src@.len(),
            d <= src@.len(),
            ns == lens@.map_values(|n: usize| n as int),
            all == streams_at(src@, end as int, data as int, hdr as int, ns),
            match streams_at(src@, e as int, d as int, h as int, ns.skip(k as int)) {
                Err(x) => all == Err::<(Seq<Seq<u8>>, int, int), Error>(x),
                Ok((r, f, g)) => all == Ok::<(Seq<Seq<u8>>, int, int), Error>(
                    (contents(out@) + r, f, g),
                ),
            },
        decreases lens.len() - k,
    {
        let ghost before = out@;
        assert(ns.skip(k as int)[0] == lens@[k as int]);
        assert(ns.skip(k as int).skip(1) =~= ns.skip(k + 1));
        let (s, e1, d1): (Vec<u8>, usize, usize) = match read_stream(src, e, d, h % 16, lens[k]) {
            Ok(p) => p,
            Err(x) => {
                return Err(x);
            },
        };
        let ghost sv = s@;
        out.push(s);
        e = e1;
        d = d1;
        h = h / 16;
        k = k + 1;
        proof {
            if let Ok((r, f, g)) = streams_at(
                src@,
                e as int,
                d as int,
                h as int,
                ns.skip(k as int),
            ) {
                assert(contents(before) + (seq![sv] + r) =~= contents(out@) + r);
            }
        }
    }
    assert(contents(out@) + Seq::<Seq<u8>>::empty() =~= contents(out@));
    Ok((out, e, d))
}

/// Runs the command `c` on `dst`.
fn run_command(src: &[u8], c: u8, end: usize, data: usize, dst: &mut Vec<u8>) -> (r: Result<
    (usize, usize),
    Error,
>)
    requires
        end <= src@.len(),
        data <= src@.len(),
    ensures
        match r {
            Ok((e, d)) => e <= end && d <= src@.len() && command(
                src@,
                c as int,
                end as int,
                data as int,
                old(dst)@,
            ) == Ok::<(int, int, Seq<u8>), (Seq<u8>, Error)>((e as int, d as int, final(dst)@)),
            Err(x) => command(src@, c as int, end as int, data as int, old(dst)@) == Err::<
                (int, int, Seq<u8>),
                (Seq<u8>, Error),
            >((final(dst)@, x)),
        },
{
    if c == 0 {
        let (v, e): (u64, usize) = match read_control_varuint(src, end) {
            Ok(p) => p,
            Err(x) => {
                return Err(x);
            },
        };
        let n: usize = to_size(v);
        if n > src.len() - data {
            return Err(Error::OutOfInputData);
        }
        append(dst, &src[data..data + n]);
        Ok((e, data + n))
    } else if c == 1 {
        let (hdr, e): (u64, usize) = match read_control_varuint(src, end) {
            Ok(p) => p,
            Err(x) => {
                return Err(x);
            },
        };
        let (lens, f): (Vec<usize>, usize) = match read_lengths(src, e) {
            Ok(p) => p,
            Err(x) => {
                return Err(x);
            },
        };
        let (streams, g, d): (Vec<Vec<u8>>, usize, usize) = match read_streams(
            src,
            f,
            data,
            hdr,
            &lens,
        ) {
            Ok(p) => p,
            Err(x) => {
                return Err(x);
            },
        };
        match decompress_block(dst, &streams) {
            Ok(()) => Ok((g, d)),
            Err(x) => Err(x),
        }
    } else if c <= 4 {
        Err(Error::Unsupported)
    } else {
        Err(Error::UnrecognizedCommand)
    }
}

/// Decodes the block `src` into `out`, which is cleared first. On an error `out`
/// holds what had been produced until then.
fn decompress_impl_into(src: &[u8], out: &mut Vec<u8>) -> (r: Result<(), Error>)
    ensures
        match r {
            Ok(()) => outcome(src@) == Ok::<Seq<u8>, (Seq<u8>, Error)>(final(out)@),
            Err(e) => outcome(src@) == Err::<Seq<u8>, (Seq<u8>, Error)>((final(out)@, e)),
        },
{
    proof {
        reveal(outcome);
    }
    out.clear();
    let (n, c): (u64, usize) = match read_control_varuint(src, src.len()) {
        Ok(p) => p,
        Err(x) => {
            return Err(x);
        },
    };
    if n == 0 {
        return Ok(());
    }
    let mut end: usize = c;
    let mut data: usize = 0;
    while end > 0
        invariant
            end <= src@.len(),
            data <= src@.len(),
            outcome(src@) == commands(src@, end as int, data as int, out@),
        decreases end,
    {
        let cmd: u8 = src[end - 1];
        let (e, d): (usize, usize) = match run_command(src, cmd % 128, end - 1, data, out) {
            Ok(p) => p,
            Err(x) => {
                return Err(x);
            },
        };
        if cmd >= 128 {
            return Ok(());
        }
        end = e;
        data = d;
    }
    Err(Error::OutOfInputData)
}

fn decompress_impl(src: &[u8]) -> (r: Result<Vec<u8>, Error>)
    ensures
        match r {
            Ok(out) => decoded(src@) == Ok::<Seq<u8>, Error>(out@),
            Err(e) => decoded(src@) == Err::<Seq<u8>, Error>(e),
        },
{
    let mut out: Vec<u8> = Vec::new();
    match decompress_impl_into(src, &mut out) {
        Ok(()) => Ok(out),
        Err(e) => Err(e),
    }
}

/// Decodes a block.
pub fn iguana_decompress(src: &[u8]) -> (r: Result<Vec<u8>, Error>)
    ensures
        match r {
            Ok(out) => decoded(src@) == Ok::<Seq<u8>, Error>(out@),
            Err(e) => decoded(src@) == Err::<Seq<u8>, Error>(e),
        },
{
    decompress_impl(src)
}

/// Decodes exactly as [`iguana_decompress`] does.
pub fn iguana_decompress_simd(src: &[u8]) -> (r: Result<Vec<u8>, Error>)
    ensures
        match r {
            Ok(out) => decoded(src@) == Ok::<Seq<u8>, Error>(out@),
            Err(e) => decoded(src@) == Err::<Seq<u8>, Error>(e),
        },
{
    decompress_impl(src)
}

/// The content length that the block `src` announces, without decoding it.
pub fn block_decoded_len(src: &[u8]) -> (r: Result<usize, Error>)
    ensures
        match r {
            Ok(n) => decoded_len(src@) == Ok::<int, Error>(n as int),
            Err(e) => decoded_len(src@) == Err::<int, Error>(e),
        },
{
    match read_control_varuint(src, src.len()) {
        Ok((n, _)) => Ok(to_size(n)),
        Err(e) => Err(e),
    }
}

/// The content length and the six streams of a block that is one structural
/// command with its streams stored as they are.
pub open spec fn stored_streams(src: Seq<u8>) -> Option<(int, Seq<Seq<u8>>)> {
    match varint::control_at(src, src.len() as int) {
        None => None,
        Some((n, end)) => if end <= 0 || src[end - 1] != 129 {
            None
        } else {
            match varint::control_at(src, end - 1) {
                None => None,
                Some((hdr, e)) => if hdr != 0 {
                    None
                } else {
                    match lengths_at(src, e, 6) {
                        None => None,
                        Some((lens, f)) => match streams_at(src, f, 0, 0, lens) {
                            Err(_) => None,
                            Ok((s, _, _)) => Some((size(n), s)),
                        },
                    }
                },
            }
        },
    }
}

/// Replaying the stored streams of a block decodes it.
pub proof fn lemma_stored_streams(src: Seq<u8>)
    requires
        stored_streams(src) is Some,
        varint::control_at(src, src.len() as int).unwrap().0 > 0,
    ensures
        outcome(src) == replay(pack_of(stored_streams(src).unwrap().1), 0, seq![]),
{
    reveal(outcome);
    varint::lemma_control_bounds(src, src.len() as int, 0);
}

/// The content length and the six streams of a block that is one structural
/// command with its streams stored as they are.
pub fn raw_streams(src: &[u8]) -> (r: Option<(usize, Vec<Vec<u8>>)>)
    ensures
        match r {
            Some((n, s)) => stored_streams(src@) == Some((n as int, contents(s@))) && s@.len()
                == 6,
            None => stored_streams(src@) is None,
        },
{
    let (n, end): (u64, usize) = match read_control_varuint(src, src.len()) {
        Ok(p) => p,
        Err(_) => {
            return None;
        },
    };
    if end == 0 || src[end - 1] != 129 {
        return None;
    }
    let (hdr, e): (u64, usize) = match read_control_varuint(src, end - 1) {
        Ok(p) => p,
        Err(_) => {
            return None;
        },
    };
    if hdr != 0 {
        return None;
    }
    let (lens, f): (Vec<usize>, usize) = match read_lengths(src, e) {
        Ok(p) => p,
        Err(_) => {
            return None;
        },
    };
    match read_streams(src, f, 0, 0, &lens) {
        Ok((s, _, _)) => Some((to_size(n), s)),
        Err(_) => None,
    }
}

/// A decoder that writes into a buffer of the caller.
pub struct Decoder {}

impl Default for Decoder {
    /// The same as [`Decoder::new`].
    fn default() -> (d: Decoder)
        ensures
            d == (Decoder {  }),
    {
        Decoder::new()
    }
}

impl Decoder {
    /// A decoder; it can be used for any number of blocks.
    pub fn new() -> (d: Decoder)
        ensures
            d == (Decoder {  }),
    {
        Decoder {  }
    }

    /// Decodes the block `src` into `out`, which is cleared first. On an error
    /// `out` holds what had been produced until then.
    pub fn decompress_into(&mut self, src: &[u8], out: &mut Vec<u8>) -> (r: Result<(), Error>)
        ensures
            match r {
                Ok(()) => outcome(src@) == Ok::<Seq<u8>, (Seq<u8>, Error)>(final(out)@),
                Err(e) => outcome(src@) == Err::<Seq<u8>, (Seq<u8>, Error)>((final(out)@, e)),
            },
    {
        decompress_impl_into(src, out)
    }
}

} // verus!
