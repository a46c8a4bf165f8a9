//! The encoder: from bytes to blocks.
//!
//! The parse of a buffer is written into six streams; each is entropy-coded
//! where that makes it shorter. A buffer that does not get shorter is stored.
use crate::ans1;
use crate::ans1::ans1_encode;
use crate::ans32;
use crate::ans32::ans32_encode_simd;
use crate::bytes;
use crate::bytes::{append, append_reversed, push_u16, push_u24};
use crate::error::Error;
use crate::matcher::Match;
use crate::nibble;
use crate::nibble::ans_nibble_encode;
use crate::parse;
use crate::parse::{chain_insert, chain_insert_range, choose_match, clear_table, new_table};
use crate::structural;
use crate::varint;
use crate::varint::{append_control_varuint, append_varuint, VARUINT_LIMIT};
use vstd::prelude::*;

verus! {

/// The entropy coder to try on each stream.
#[derive(Debug, Clone, Copy, PartialEq, Eq, Structural)]
pub enum EntropyMode {
    /// No entropy coding.
    Off,
    /// One rANS state over bytes.
    Ans1,
    /// 32 interleaved rANS states over bytes.
    Ans32,
    /// One rANS state over nibbles.
    AnsNibble,
}

impl EntropyMode {
    /// The mode for a compression level: levels up to 1 do without entropy
    /// coding, levels from 2 on interleave.
    pub fn from_minlz_level(level: i32) -> (m: EntropyMode)
        ensures
            m == if level <= 1 {
                EntropyMode::Off
            } else {
                EntropyMode::Ans32
            },
    {
        if level <= 1 {
            EntropyMode::Off
        } else {
            EntropyMode::Ans32
        }
    }

    /// The number of the mode in a block header.
    pub open spec fn code(self) -> int {
        match self {
            EntropyMode::Off => 0,
            EntropyMode::Ans32 => 1,
            EntropyMode::Ans1 => 2,
            EntropyMode::AnsNibble => 3,
        }
    }

    fn header_code(self) -> (c: u64)
        ensures
            c == self.code(),
    {
        match self {
            EntropyMode::Off => 0,
            EntropyMode::Ans32 => 1,
            EntropyMode::Ans1 => 2,
            EntropyMode::AnsNibble => 3,
        }
    }
}

// ---------------------------------------------------------------------------
// Streams
// ---------------------------------------------------------------------------
/// Each stream of `a` followed by that of `b`.
pub open spec fn joined(a: structural::Pack, b: structural::Pack) -> structural::Pack {
    structural::Pack {
        tokens: a.tokens + b.tokens,
        off16: a.off16 + b.off16,
        off24: a.off24 + b.off24,
        var_lit: a.var_lit + b.var_lit,
        var_match: a.var_match + b.var_match,
        lits: a.lits + b.lits,
    }
}

/// The part of a length that a token holds, if `cap` stands for "at least".
pub open spec fn short_part(len: int, cap: int) -> int {
    if len < cap {
        len
    } else {
        cap
    }
}

/// The part of a length that goes to its stream.
pub open spec fn long_part(len: int, cap: int) -> Seq<u8> {
    if len < cap {
        seq![]
    } else {
        varint::varuint_bytes(len - cap)
    }
}

/// A literal run and a match whose distance is the one before (`off == last`) or
/// takes 16 bits.
pub open spec fn short_piece(last: int, lit: Seq<u8>, off: int, len: int) -> structural::Pack {
    let near: int = if off == last {
        128
    } else {
        0
    };
    structural::Pack {
        tokens: seq![(near + short_part(lit.len() as int, 7) + 8 * short_part(len, 15)) as u8],
        off16: if off == last {
            seq![]
        } else {
            bytes::le16(off)
        },
        off24: seq![],
        var_lit: long_part(lit.len() as int, 7),
        var_match: long_part(len, 15),
        lits: lit,
    }
}

/// A literal run alone, in a token that copies nothing.
pub open spec fn literal_piece(lit: Seq<u8>) -> structural::Pack {
    structural::Pack {
        tokens: if lit.len() == 0 {
            seq![]
        } else {
            seq![(128 + short_part(lit.len() as int, 7)) as u8]
        },
        off16: seq![],
        off24: seq![],
        var_lit: if lit.len() == 0 {
            seq![]
        } else {
            long_part(lit.len() as int, 7)
        },
        var_match: seq![],
        lits: lit,
    }
}

/// A match alone, whose distance takes 24 bits.
pub open spec fn far_piece(off: int, len: int) -> structural::Pack {
    structural::Pack {
        tokens: if len < 47 {
            seq![(len - 16) as u8]
        } else {
            seq![31u8]
        },
        off16: seq![],
        off24: bytes::le24(off),
        var_lit: seq![],
        var_match: if len < 47 {
            seq![]
        } else {
            varint::varuint_bytes(len - 47)
        },
        lits: seq![],
    }
}

/// A literal run and a match.
pub open spec fn piece(last: int, lit: Seq<u8>, off: int, len: int) -> structural::Pack {
    if off == last || off < 65536 {
        short_piece(last, lit, off, len)
    } else {
        joined(literal_piece(lit), far_piece(off, len))
    }
}

/// The streams that describe `s` from `litpos` on by the steps `q`.
pub open spec fn written(s: Seq<u8>, last: int, litpos: int, q: Seq<parse::Step>) -> structural::Pack
    decreases q.len(),
{
    if q.len() == 0 {
        structural::Pack {
            tokens: seq![],
            off16: seq![],
            off24: seq![],
            var_lit: seq![],
            var_match: seq![],
            lits: s.skip(litpos),
        }
    } else {
        let m = q[0];
        joined(
            piece(last, s.subrange(litpos, m.target), m.off, m.len),
            written(s, m.off, m.target + m.len, q.skip(1)),
        )
    }
}

/// The streams of a buffer.
#[verifier::opaque]
pub open spec fn streams(s: Seq<u8>) -> structural::Pack {
    written(s, 0, 0, parse::steps(s))
}

// ---------------------------------------------------------------------------
// Replaying what was written
// ---------------------------------------------------------------------------
/// The fields of the step have room for its values: a length that goes to a
/// stream stays below the limit of stream integers, a new distance below 24 bits.
pub open spec fn representable(last: int, lit_len: int, off: int, len: int) -> bool {
    &&& lit_len < varint::VARUINT_LIMIT + 7
    &&& if off == last || off < 65536 {
        len < varint::VARUINT_LIMIT + 15
    } else {
        off < 16777216 && len < varint::VARUINT_LIMIT + 47
    }
}

/// The fields of all steps have room for their values.
pub open spec fn all_representable(last: int, litpos: int, q: Seq<parse::Step>) -> bool
    decreases q.len(),
{
    q.len() == 0 || {
        let m = q[0];
        &&& representable(last, m.target - litpos, m.off, m.len)
        &&& all_representable(m.off, m.target + m.len, q.skip(1))
    }
}

proof fn lemma_long_part(len: int, cap: int, rest: Seq<u8>)
    requires
        0 <= len < varint::VARUINT_LIMIT + cap,
        0 < cap,
    ensures
        structural::length_front(long_part(len, cap) + rest, short_part(len, cap), len >= cap)
            == Some((len, rest)),
{
    if len < cap {
        assert(long_part(len, cap) + rest =~= rest);
    } else {
        varint::lemma_varuint_roundtrip(len - cap, rest);
    }
}

proof fn lemma_front(a: Seq<u8>, b: Seq<u8>)
    ensures
        (a + b).take(a.len() as int) == a,
        (a + b).skip(a.len() as int) == b,
{
    assert((a + b).take(a.len() as int) =~= a);
    assert((a + b).skip(a.len() as int) =~= b);
}

/// The fields of the token of a short piece.
proof fn lemma_short_token(near: int, a: int, b: int)
    requires
        near == 0 || near == 128,
        0 <= a <= 7,
        4 <= b <= 15,
    ensures
        ({
            let t = (near + a + 8 * b) as u8;
            &&& 32 <= t
            &&& t >= 128 <==> near == 128
            &&& structural::lit_base(t) == a
            &&& structural::has_var_lit(t) <==> a == 7
            &&& structural::match_base(t) == b
            &&& structural::has_var_match(t) <==> b == 15
        }),
{
    let t = (near + a + 8 * b) as u8;
    assert(t == near + a + 8 * b);
    assert(t as int % 8 == a);
    assert(t as int / 8 == near / 8 + b);
    assert(near / 8 == 0 || near / 8 == 16);
    assert(t as int / 8 % 16 == b);
}

/// Replaying a short piece appends its literals and its match.
proof fn lemma_short_piece(
    last: int,
    lit: Seq<u8>,
    off: int,
    len: int,
    rest: structural::Pack,
    dst: Seq<u8>,
)
    requires
        0 < off <= dst.len() + lit.len(),
        4 <= len,
        off == last || off < 65536,
        representable(last, lit.len() as int, off, len),
    ensures
        structural::replay(joined(short_piece(last, lit, off, len), rest), last, dst)
            == structural::replay(rest, off, structural::copied(dst + lit, off, len)),
{
    let p = joined(short_piece(last, lit, off, len), rest);
    let a = short_part(lit.len() as int, 7);
    let b = short_part(len, 15);
    let near: int = if off == last {
        128
    } else {
        0
    };
    lemma_short_token(near, a, b);
    assert(p.tokens[0] == (near + a + 8 * b) as u8);
    lemma_long_part(lit.len() as int, 7, rest.var_lit);
    lemma_long_part(len, 15, rest.var_match);
    assert(p.off24 =~= rest.off24);
    assert(p.tokens.skip(1) =~= rest.tokens);
    lemma_short_offset(last, off, p, rest);
    structural::lemma_replay_token(p, last, dst, lit, off, len, rest);
}

proof fn lemma_short_offset(last: int, off: int, p: structural::Pack, rest: structural::Pack)
    requires
        0 < off,
        off == last || off < 65536,
        p.tokens.len() > 0,
        off == last ==> p.tokens[0] >= 128,
        off != last ==> 32 <= p.tokens[0] < 128,
        p.off24 == rest.off24,
        p.off16 == (if off == last {
            Seq::<u8>::empty()
        } else {
            bytes::le16(off)
        }) + rest.off16,
    ensures
        structural::offset_front(p, p.tokens[0], last) == Some((off, rest.off16, rest.off24)),
{
    if off != last {
        lemma_front(bytes::le16(off), rest.off16);
        assert(p.off16.subrange(0, 2) =~= bytes::le16(off));
        bytes::lemma_read_le16(p.off16, 0, off);
    } else {
        assert(p.off16 =~= rest.off16);
    }
}

/// Replaying a literal piece appends its literals.
proof fn lemma_literal_piece(lit: Seq<u8>, last: int, rest: structural::Pack, dst: Seq<u8>)
    requires
        0 <= last <= dst.len(),
        lit.len() < varint::VARUINT_LIMIT + 7,
    ensures
        structural::replay(joined(literal_piece(lit), rest), last, dst) == structural::replay(
            rest,
            last,
            dst + lit,
        ),
{
    let p = joined(literal_piece(lit), rest);
    assert(p.off16 =~= rest.off16);
    assert(p.off24 =~= rest.off24);
    assert(p.var_match =~= rest.var_match);
    if lit.len() == 0 {
        assert(p.tokens =~= rest.tokens);
        assert(p.var_lit =~= rest.var_lit);
        assert(p.lits =~= rest.lits);
        assert(dst + lit =~= dst);
    } else {
        lemma_long_part(lit.len() as int, 7, rest.var_lit);
        assert(p.tokens.skip(1) =~= rest.tokens);
        structural::lemma_replay_token(p, last, dst, lit, last, 0, rest);
    }
}

/// Replaying a far piece appends its match.
proof fn lemma_far_piece(off: int, len: int, last: int, rest: structural::Pack, dst: Seq<u8>)
    requires
        0 < off <= dst.len(),
        off < 16777216,
        16 <= len < varint::VARUINT_LIMIT + 47,
    ensures
        structural::replay(joined(far_piece(off, len), rest), last, dst) == structural::replay(
            rest,
            off,
            structural::copied(dst, off, len),
        ),
{
    let p = joined(far_piece(off, len), rest);
    lemma_front(bytes::le24(off), rest.off24);
    assert(p.off24.subrange(0, 3) =~= bytes::le24(off));
    bytes::lemma_read_le24(p.off24, 0, off);
    assert(p.off16 =~= rest.off16);
    assert(p.var_lit =~= rest.var_lit);
    assert(p.tokens.skip(1) =~= rest.tokens);
    assert(dst + seq![] =~= dst);
    if len < 47 {
        assert(p.var_match =~= rest.var_match);
    } else {
        varint::lemma_varuint_roundtrip(len - 47, rest.var_match);
    }
    structural::lemma_replay_token(p, last, dst, seq![], off, len, rest);
}

proof fn lemma_joined_assoc(a: structural::Pack, b: structural::Pack, c: structural::Pack)
    ensures
        joined(joined(a, b), c) == joined(a, joined(b, c)),
{
    let l = joined(joined(a, b), c);
    let r = joined(a, joined(b, c));
    assert(l.tokens =~= r.tokens);
    assert(l.off16 =~= r.off16);
    assert(l.off24 =~= r.off24);
    assert(l.var_lit =~= r.var_lit);
    assert(l.var_match =~= r.var_match);
    assert(l.lits =~= r.lits);
}

/// Replaying the streams of steps that replay `s` gives `s`.
proof fn lemma_written(s: Seq<u8>, last: int, litpos: int, q: Seq<parse::Step>)
    requires
        parse::replays(s, last, litpos, q),
        all_representable(last, litpos, q),
        0 <= last <= litpos,
    ensures
        structural::replay(written(s, last, litpos, q), last, s.take(litpos)) == Ok::<
            Seq<u8>,
            (Seq<u8>, Error),
        >(s),
    decreases q.len(),
{
    if q.len() == 0 {
        assert(s.take(litpos) + s.skip(litpos) =~= s);
    } else {
        let m = q[0];
        let lit = s.subrange(litpos, m.target);
        let rest = written(s, m.off, m.target + m.len, q.skip(1));
        let dst = s.take(litpos);
        assert(dst + lit =~= s.take(m.target));
        structural::lemma_copied(s, m.target, m.off, m.len);
        if m.off == last || m.off < 65536 {
            lemma_short_piece(last, lit, m.off, m.len, rest, dst);
        } else {
            lemma_joined_assoc(literal_piece(lit), far_piece(m.off, m.len), rest);
            lemma_literal_piece(lit, last, joined(far_piece(m.off, m.len), rest), dst);
            lemma_far_piece(m.off, m.len, last, rest, dst + lit);
        }
        lemma_written(s, m.off, m.target + m.len, q.skip(1));
    }
}

// ---------------------------------------------------------------------------
// Blocks
// ---------------------------------------------------------------------------
/// `s` in the coder of the mode, if that is shorter.
#[verifier::opaque]
pub open spec fn shrunk(mode: EntropyMode, s: Seq<u8>) -> Option<Seq<u8>> {
    let c = match mode {
        EntropyMode::Off => s,
        EntropyMode::Ans1 => ans1::coded(s),
        EntropyMode::Ans32 => ans32::coded(s),
        EntropyMode::AnsNibble => nibble::coded(s),
    };
    if c.len() < s.len() {
        Some(c)
    } else {
        None
    }
}

/// The form in which a block holds the stream `s`.
pub open spec fn stored_form(mode: EntropyMode, s: Seq<u8>) -> Seq<u8> {
    match shrunk(mode, s) {
        Some(c) => c,
        None => s,
    }
}

/// The mode that a block gives for the stream `s`.
pub open spec fn mode_field(mode: EntropyMode, s: Seq<u8>) -> int {
    if shrunk(mode, s) is Some {
        mode.code()
    } else {
        0
    }
}

/// The length of the coded form of `s`, if there is one, as a control integer.
pub open spec fn coded_length_field(mode: EntropyMode, s: Seq<u8>) -> Seq<u8> {
    match shrunk(mode, s) {
        Some(c) => varint::control_bytes(c.len() as int),
        None => seq![],
    }
}

/// The streams in the order in which a block lists them.
pub open spec fn listed(p: structural::Pack) -> Seq<Seq<u8>> {
    seq![p.tokens, p.off16, p.off24, p.var_lit, p.var_match, p.lits]
}

/// The modes of the streams, four bits each, those of the first lowest.
pub open spec fn header(mode: EntropyMode, list: Seq<Seq<u8>>) -> int
    decreases list.len(),
{
    if list.len() == 0 {
        0
    } else {
        mode_field(mode, list[0]) + 16 * header(mode, list.skip(1))
    }
}

/// The stored forms of the streams, one after the other.
pub open spec fn data_area(mode: EntropyMode, list: Seq<Seq<u8>>) -> Seq<u8>
    decreases list.len(),
{
    if list.len() == 0 {
        seq![]
    } else {
        stored_form(mode, list[0]) + data_area(mode, list.skip(1))
    }
}

/// The lengths of the streams as control integers.
pub open spec fn length_fields(list: Seq<Seq<u8>>) -> Seq<u8>
    decreases list.len(),
{
    if list.len() == 0 {
        seq![]
    } else {
        varint::control_bytes(list[0].len() as int) + length_fields(list.skip(1))
    }
}

/// The lengths of the coded forms, where there are any, as control integers.
pub open spec fn coded_length_fields(mode: EntropyMode, list: Seq<Seq<u8>>) -> Seq<u8>
    decreases list.len(),
{
    if list.len() == 0 {
        seq![]
    } else {
        coded_length_field(mode, list[0]) + coded_length_fields(mode, list.skip(1))
    }
}

/// The control area of a structural block, in the order in which it is read.
pub open spec fn control_area(n: int, mode: EntropyMode, list: Seq<Seq<u8>>) -> Seq<u8> {
    varint::control_bytes(n) + seq![129u8] + varint::control_bytes(header(mode, list))
        + length_fields(list) + coded_length_fields(mode, list)
}

/// A block that stores `s` as it is.
pub open spec fn raw_block(s: Seq<u8>) -> Seq<u8> {
    let n = varint::control_bytes(s.len() as int);
    s + (n + seq![128u8] + n).reverse()
}

/// Whether `s` is stored as it is: it is short, its parse has a value that is too
/// large for its field, or nothing is gained.
pub open spec fn kept_raw(mode: EntropyMode, s: Seq<u8>) -> bool {
    ||| s.len() < 64
    ||| !all_representable(0, 0, parse::steps(s))
    ||| data_area(mode, listed(streams(s))).len() + 7 >= s.len()
}

/// The block of `s`.
#[verifier::opaque]
pub open spec fn compressed(mode: EntropyMode, s: Seq<u8>) -> Seq<u8> {
    if s.len() == 0 {
        varint::control_bytes(0).reverse()
    } else if kept_raw(mode, s) {
        raw_block(s)
    } else {
        let list = listed(streams(s));
        data_area(mode, list) + control_area(s.len() as int, mode, list).reverse()
    }
}

// ---------------------------------------------------------------------------
// Decoding undoes encoding
// ---------------------------------------------------------------------------
proof fn lemma_precedes(d: Seq<u8>, c: Seq<u8>)
    ensures
        varint::precedes(d + c.reverse(), (d.len() + c.len()) as int, c),
{
    let s = d + c.reverse();
    let end = s.len() as int;
    assert forall|i: int| 0 <= i < c.len() implies s[end - 1 - i] == #[trigger] c[i] by {
        assert(c.reverse()[c.len() - 1 - i] == c[i]);
    }
}

proof fn lemma_precedes_split(s: Seq<u8>, end: int, x: Seq<u8>, y: Seq<u8>)
    requires
        varint::precedes(s, end, x + y),
    ensures
        varint::precedes(s, end, x),
        varint::precedes(s, end - x.len(), y),
{
    assert forall|i: int| 0 <= i < x.len() implies s[end - 1 - i] == #[trigger] x[i] by {
        assert((x + y)[i] == x[i]);
    }
    assert forall|i: int| 0 <= i < y.len() implies s[end - x.len() - 1 - i]
        == #[trigger] y[i] by {
        assert((x + y)[x.len() + i] == y[i]);
    }
}

/// Decoding a stored block gives back its content.
pub proof fn lemma_raw_roundtrip(s: Seq<u8>)
    requires
        s.len() <= usize::MAX,
    ensures
        structural::decoded(raw_block(s)) == Ok::<Seq<u8>, Error>(s),
        structural::decoded_len(raw_block(s)) == Ok::<int, Error>(s.len() as int),
{
    let n = varint::control_bytes(s.len() as int);
    let c = n + seq![128u8] + n;
    let b = raw_block(s);
    let end = b.len() as int;
    assert(usize::MAX < 0x1_0000_0000_0000_0000int);
    lemma_precedes(s, c);
    lemma_precedes_split(b, end, n + seq![128u8], n);
    lemma_precedes_split(b, end, n, seq![128u8]);
    varint::lemma_control_roundtrip(b, end, s.len() as int);
    let e = end - n.len();
    assert(b[e - 1] == seq![128u8][0]);
    varint::lemma_control_roundtrip(b, e - 1, s.len() as int);
    structural::lemma_size(s.len() as int);
    assert(b.subrange(0, s.len() as int) =~= s);
    assert(Seq::<u8>::empty() + b.subrange(0, s.len() as int) =~= s);
    if s.len() == 0 {
        assert(s =~= seq![]);
        structural::lemma_no_content(b, e);
    } else {
        structural::lemma_single_command(b, s.len() as int, e, e - 1 - n.len(), s.len() as int, s);
    }
}

spec fn lengths(list: Seq<Seq<u8>>) -> Seq<int> {
    list.map_values(|s: Seq<u8>| s.len() as int)
}

spec fn lengths_fit(list: Seq<Seq<u8>>) -> bool {
    forall|i: int| 0 <= i < list.len() ==> (#[trigger] list[i]).len() <= i32::MAX
}

proof fn lemma_lengths_roundtrip(src: Seq<u8>, end: int, list: Seq<Seq<u8>>)
    requires
        lengths_fit(list),
        varint::precedes(src, end, length_fields(list)),
    ensures
        structural::lengths_at(src, end, list.len() as int) == Some(
            (lengths(list), end - length_fields(list).len()),
        ),
    decreases list.len(),
{
    if list.len() == 0 {
        assert(lengths(list) =~= seq![]);
    } else {
        let n = list[0].len() as int;
        let x = varint::control_bytes(n);
        let rest = list.skip(1);
        lemma_precedes_split(src, end, x, length_fields(rest));
        varint::lemma_control_roundtrip(src, end, n);
        assert forall|i: int| 0 <= i < rest.len() implies (#[trigger] rest[i]).len() <= i32::MAX by {
            assert(rest[i] == list[i + 1]);
        }
        lemma_lengths_roundtrip(src, end - x.len(), rest);
        structural::lemma_size(n);
        assert(seq![n] + lengths(rest) =~= lengths(list));
    }
}

/// Each coder gives back what it coded.
proof fn lemma_shrunk(mode: EntropyMode, s: Seq<u8>)
    requires
        s.len() <= i32::MAX,
    ensures
        shrunk(mode, s) matches Some(c) ==> c.len() < s.len() && mode.code() != 0
            && structural::unpacked(mode.code(), c, s.len() as int) == Ok::<Seq<u8>, Error>(s),
{
    reveal(shrunk);
    match mode {
        EntropyMode::Off => {},
        EntropyMode::Ans1 => {
            ans1::lemma_roundtrip(s);
        },
        EntropyMode::Ans32 => {
            ans32::lemma_roundtrip(s);
        },
        EntropyMode::AnsNibble => {
            nibble::lemma_roundtrip(s);
        },
    }
}

proof fn lemma_stream_roundtrip(
    src: Seq<u8>,
    end: int,
    data: int,
    mode: EntropyMode,
    s: Seq<u8>,
)
    requires
        s.len() <= i32::MAX,
        bytes::holds_at(src, data, stored_form(mode, s)),
        varint::precedes(src, end, coded_length_field(mode, s)),
    ensures
        structural::stream_at(src, end, data, mode_field(mode, s), s.len() as int) == Ok::<
            (Seq<u8>, int, int),
            Error,
        >(
            (
                s,
                end - coded_length_field(mode, s).len(),
                data + stored_form(mode, s).len(),
            ),
        ),
{
    reveal(structural::stream_at);
    lemma_shrunk(mode, s);
    match shrunk(mode, s) {
        Some(c) => {
            varint::lemma_control_roundtrip(src, end, c.len() as int);
            structural::lemma_size(c.len() as int);
        },
        None => {},
    }
}

proof fn lemma_streams_roundtrip(
    src: Seq<u8>,
    end: int,
    data: int,
    mode: EntropyMode,
    list: Seq<Seq<u8>>,
)
    requires
        lengths_fit(list),
        bytes::holds_at(src, data, data_area(mode, list)),
        varint::precedes(src, end, coded_length_fields(mode, list)),
    ensures
        structural::streams_at(src, end, data, header(mode, list), lengths(list)) == Ok::<
            (Seq<Seq<u8>>, int, int),
            Error,
        >(
            (
                list,
                end - coded_length_fields(mode, list).len(),
                data + data_area(mode, list).len(),
            ),
        ),
    decreases list.len(),
{
    if list.len() == 0 {
        assert(list =~= seq![]);
    } else {
        let s = list[0];
        let rest = list.skip(1);
        let stored = stored_form(mode, s);
        let field = coded_length_field(mode, s);
        bytes::lemma_holds_split(src, data, stored, data_area(mode, rest));
        let d = data + stored.len();
        lemma_precedes_split(src, end, field, coded_length_fields(mode, rest));
        lemma_stream_roundtrip(src, end, data, mode, s);
        assert forall|i: int| 0 <= i < rest.len() implies (#[trigger] rest[i]).len() <= i32::MAX by {
            assert(rest[i] == list[i + 1]);
        }
        lemma_streams_roundtrip(src, end - field.len(), d, mode, rest);
        assert(lengths(list)[0] == s.len());
        assert(lengths(list).skip(1) =~= lengths(rest));
        assert(seq![s] + rest =~= list);
        lemma_header_digits(mode, rest);
        structural::lemma_streams_at(
            src,
            end,
            data,
            mode_field(mode, s),
            header(mode, rest),
            lengths(list),
        );
    }
}

proof fn lemma_header_digits(mode: EntropyMode, list: Seq<Seq<u8>>)
    ensures
        0 <= header(mode, list),
    decreases list.len(),
{
    if list.len() > 0 {
        lemma_header_digits(mode, list.skip(1));
    }
}

proof fn lemma_header(mode: EntropyMode, list: Seq<Seq<u8>>)
    requires
        list.len() <= 6,
    ensures
        0 <= header(mode, list) < 16777216,
{
    reveal_with_fuel(header, 7);
}

/// Every stream of a parse is at most as long as what it describes.
proof fn lemma_written_lengths(s: Seq<u8>, last: int, litpos: int, q: Seq<parse::Step>)
    requires
        parse::replays(s, last, litpos, q),
    ensures
        ({
            let p = written(s, last, litpos, q);
            &&& p.tokens.len() <= s.len() - litpos
            &&& p.off16.len() <= s.len() - litpos
            &&& p.off24.len() <= s.len() - litpos
            &&& p.var_lit.len() <= s.len() - litpos
            &&& p.var_match.len() <= s.len() - litpos
            &&& p.lits.len() <= s.len() - litpos
        }),
    decreases q.len(),
{
    if q.len() > 0 {
        lemma_written_lengths(s, q[0].off, q[0].target + q[0].len, q.skip(1));
    }
}

proof fn lemma_stream_lengths(s: Seq<u8>)
    ensures
        forall|i: int|
            0 <= i < 6 ==> (#[trigger] listed(streams(s))[i]).len() <= s.len(),
{
    reveal(streams);
    parse::lemma_steps(s);
    lemma_written_lengths(s, 0, 0, parse::steps(s));
}

/// Decoding the block of a buffer gives back the buffer.
pub proof fn lemma_roundtrip(mode: EntropyMode, s: Seq<u8>)
    requires
        s.len() <= i32::MAX,
    ensures
        structural::decoded(compressed(mode, s)) == Ok::<Seq<u8>, Error>(s),
        structural::decoded_len(compressed(mode, s)) == Ok::<int, Error>(s.len() as int),
{
    reveal(compressed);
    if s.len() == 0 {
        let c = varint::control_bytes(0);
        assert(Seq::<u8>::empty() + c.reverse() =~= c.reverse());
        lemma_precedes(seq![], c);
        varint::lemma_control_roundtrip(c.reverse(), c.len() as int, 0);
        structural::lemma_no_content(c.reverse(), 0);
        structural::lemma_size(0);
        assert(s =~= seq![]);
    } else if kept_raw(mode, s) {
        lemma_raw_roundtrip(s);
    } else {
        lemma_structural_roundtrip(mode, s);
    }
}

proof fn lemma_structural_roundtrip(mode: EntropyMode, s: Seq<u8>)
    requires
        0 < s.len() <= i32::MAX,
        !kept_raw(mode, s),
    ensures
        structural::decoded(compressed(mode, s)) == Ok::<Seq<u8>, Error>(s),
        structural::decoded_len(compressed(mode, s)) == Ok::<int, Error>(s.len() as int),
{
    reveal(compressed);
    let list = listed(streams(s));
    let d = data_area(mode, list);
    let n = varint::control_bytes(s.len() as int);
    let h = varint::control_bytes(header(mode, list));
    let l = length_fields(list);
    let k = coded_length_fields(mode, list);
    let c = control_area(s.len() as int, mode, list);
    let b = d + c.reverse();
    let end = b.len() as int;
    lemma_precedes(d, c);
    lemma_precedes_split(b, end, n + seq![129u8] + h + l, k);
    lemma_precedes_split(b, end, n + seq![129u8] + h, l);
    lemma_precedes_split(b, end, n + seq![129u8], h);
    lemma_precedes_split(b, end, n, seq![129u8]);
    varint::lemma_control_roundtrip(b, end, s.len() as int);
    let e0 = end - n.len();
    assert(b[e0 - 1] == seq![129u8][0]);
    lemma_header(mode, list);
    varint::lemma_control_roundtrip(b, e0 - 1, header(mode, list));
    let e1 = e0 - 1 - h.len();
    lemma_stream_lengths(s);
    assert(lengths_fit(list));
    lemma_lengths_roundtrip(b, e1, list);
    let e2 = e1 - l.len();
    assert(b.subrange(0, d.len() as int) =~= d);
    lemma_streams_roundtrip(b, e2, 0, mode, list);
    lemma_streams_replay(s);
    structural::lemma_size(s.len() as int);
    structural::lemma_single_command(b, s.len() as int, e0, e2 - k.len(), d.len() as int, s);
}

/// A block that lists six streams decodes to what replaying these gives, in every mode
/// and for every content length that it announces but zero.
pub proof fn lemma_block_replays(mode: EntropyMode, n: int, list: Seq<Seq<u8>>)
    requires
        list.len() == 6,
        forall|i: int| 0 <= i < 6 ==> (#[trigger] list[i]).len() <= i32::MAX,
        0 < n <= i32::MAX,
    ensures
        ({
            let b = data_area(mode, list) + control_area(n, mode, list).reverse();
            let p = structural::Pack {
                tokens: list[0],
                off16: list[1],
                off24: list[2],
                var_lit: list[3],
                var_match: list[4],
                lits: list[5],
            };
            &&& structural::outcome(b) == structural::replay(p, 0, seq![])
            &&& structural::decoded_len(b) == Ok::<int, Error>(n)
        }),
{
    let d = data_area(mode, list);
    let k0 = varint::control_bytes(n);
    let h = varint::control_bytes(header(mode, list));
    let l = length_fields(list);
    let k = coded_length_fields(mode, list);
    let c = control_area(n, mode, list);
    let b = d + c.reverse();
    let end = b.len() as int;
    lemma_precedes(d, c);
    lemma_precedes_split(b, end, k0 + seq![129u8] + h + l, k);
    lemma_precedes_split(b, end, k0 + seq![129u8] + h, l);
    lemma_precedes_split(b, end, k0 + seq![129u8], h);
    lemma_precedes_split(b, end, k0, seq![129u8]);
    varint::lemma_control_roundtrip(b, end, n);
    let e0 = end - k0.len();
    assert(b[e0 - 1] == seq![129u8][0]);
    lemma_header(mode, list);
    varint::lemma_control_roundtrip(b, e0 - 1, header(mode, list));
    let e1 = e0 - 1 - h.len();
    assert(lengths_fit(list));
    lemma_lengths_roundtrip(b, e1, list);
    let e2 = e1 - l.len();
    assert(b.subrange(0, d.len() as int) =~= d);
    lemma_streams_roundtrip(b, e2, 0, mode, list);
    structural::lemma_size(n);
    reveal(structural::outcome);
}

/// The streams of a block that lists six streams, none of them coded, can be taken from it
/// as they are; those of a block that holds a coded one cannot.
pub proof fn lemma_block_streams(mode: EntropyMode, n: int, list: Seq<Seq<u8>>)
    requires
        list.len() == 6,
        forall|i: int| 0 <= i < 6 ==> (#[trigger] list[i]).len() <= i32::MAX,
        0 < n <= i32::MAX,
    ensures
        ({
            let b = data_area(mode, list) + control_area(n, mode, list).reverse();
            structural::stored_streams(b) == if header(mode, list) == 0 {
                Some((n, list))
            } else {
                None
            }
        }),
        mode is Off ==> header(mode, list) == 0,
{
    let d = data_area(mode, list);
    let k0 = varint::control_bytes(n);
    let h = varint::control_bytes(header(mode, list));
    let l = length_fields(list);
    let k = coded_length_fields(mode, list);
    let c = control_area(n, mode, list);
    let b = d + c.reverse();
    let end = b.len() as int;
    lemma_precedes(d, c);
    lemma_precedes_split(b, end, k0 + seq![129u8] + h + l, k);
    lemma_precedes_split(b, end, k0 + seq![129u8] + h, l);
    lemma_precedes_split(b, end, k0 + seq![129u8], h);
    lemma_precedes_split(b, end, k0, seq![129u8]);
    varint::lemma_control_roundtrip(b, end, n);
    let e0 = end - k0.len();
    assert(b[e0 - 1] == seq![129u8][0]);
    lemma_header(mode, list);
    varint::lemma_control_roundtrip(b, e0 - 1, header(mode, list));
    let e1 = e0 - 1 - h.len();
    assert(lengths_fit(list));
    lemma_lengths_roundtrip(b, e1, list);
    let e2 = e1 - l.len();
    assert(b.subrange(0, d.len() as int) =~= d);
    lemma_streams_roundtrip(b, e2, 0, mode, list);
    structural::lemma_size(n);
    if mode is Off {
        lemma_off_header(list);
    }
}

proof fn lemma_off_header(list: Seq<Seq<u8>>)
    ensures
        header(EntropyMode::Off, list) == 0,
    decreases list.len(),
{
    reveal(shrunk);
    if list.len() > 0 {
        lemma_off_header(list.skip(1));
    }
}

/// The control area of a block, as it is read: the content length, the command, the modes
/// of its streams, their lengths, and the lengths of those that are coded.
pub proof fn lemma_control_parts(n: int, mode: EntropyMode, list: Seq<Seq<u8>>)
    ensures
        control_area(n, mode, list) == varint::control_bytes(n) + seq![129u8]
            + varint::control_bytes(header(mode, list)) + length_fields(list)
            + coded_length_fields(mode, list),
{
}

/// The fields of each stream, first stream first: four bits for its mode, the low ones for
/// the first; its length; and the length of its coded form if that is what stands for it.
pub proof fn lemma_field_parts(mode: EntropyMode, list: Seq<Seq<u8>>)
    ensures
        list.len() == 0 ==> header(mode, list) == 0 && length_fields(list).len() == 0
            && coded_length_fields(mode, list).len() == 0,
        list.len() > 0 ==> {
            let s = list[0];
            let rest = list.skip(1);
            let coded = stored_form(mode, s).len() < s.len();
            let m = match mode {
                EntropyMode::Off => 0int,
                EntropyMode::Ans32 => 1,
                EntropyMode::Ans1 => 2,
                EntropyMode::AnsNibble => 3,
            };
            &&& header(mode, list) == 16 * header(mode, rest) + if coded {
                m
            } else {
                0
            }
            &&& length_fields(list) == varint::control_bytes(s.len() as int) + length_fields(rest)
            &&& coded_length_fields(mode, list) == (if coded {
                varint::control_bytes(stored_form(mode, s).len() as int)
            } else {
                seq![]
            }) + coded_length_fields(mode, rest)
        },
{
    reveal(shrunk);
}

/// Which parses the fields have room for: all runs of literals and all matches are short
/// enough, and all distances that are new.
pub proof fn lemma_representable_step(last: int, litpos: int, q: Seq<parse::Step>)
    ensures
        q.len() == 0 ==> all_representable(last, litpos, q),
        q.len() > 0 ==> {
            let m = q[0];
            let far = m.off != last && m.off >= 65536;
            all_representable(last, litpos, q) <==> m.target - litpos < 16516096 + 7 && m.len < 16516096
                + (if far {
                47int
            } else {
                15
            }) && (far ==> m.off < 16777216) && all_representable(
                m.off,
                m.target + m.len,
                q.skip(1),
            )
        },
{
}

/// What stands for a stream: its coded form if that is shorter, else the stream.
pub proof fn lemma_stored_form(mode: EntropyMode, s: Seq<u8>)
    ensures
        ({
            let c = match mode {
                EntropyMode::Off => s,
                EntropyMode::Ans1 => ans1::coded(s),
                EntropyMode::Ans32 => ans32::coded(s),
                EntropyMode::AnsNibble => nibble::coded(s),
            };
            stored_form(mode, s) == if c.len() < s.len() {
                c
            } else {
                s
            }
        }),
        stored_form(mode, s).len() <= s.len(),
{
    reveal(shrunk);
}

/// The data area is what stands for each stream, one after the other.
pub proof fn lemma_data_area(mode: EntropyMode, list: Seq<Seq<u8>>)
    requires
        list.len() == 6,
    ensures
        data_area(mode, list) == stored_form(mode, list[0]) + stored_form(mode, list[1])
            + stored_form(mode, list[2]) + stored_form(mode, list[3]) + stored_form(mode, list[4])
            + stored_form(mode, list[5]),
{
    assert(list.skip(0) =~= list);
    lemma_data_tail(mode, list, 0);
    lemma_data_tail(mode, list, 1);
    lemma_data_tail(mode, list, 2);
    lemma_data_tail(mode, list, 3);
    lemma_data_tail(mode, list, 4);
    lemma_data_tail(mode, list, 5);
    assert(data_area(mode, list.skip(6)) =~= seq![]);
    lemma_in_line(
        stored_form(mode, list[0]),
        stored_form(mode, list[1]),
        stored_form(mode, list[2]),
        stored_form(mode, list[3]),
        stored_form(mode, list[4]),
        stored_form(mode, list[5]),
    );
}

proof fn lemma_data_tail(mode: EntropyMode, list: Seq<Seq<u8>>, i: int)
    requires
        0 <= i < list.len(),
    ensures
        data_area(mode, list.skip(i)) == stored_form(mode, list[i]) + data_area(
            mode,
            list.skip(i + 1),
        ),
{
    assert(list.skip(i).skip(1) =~= list.skip(i + 1));
    assert(list.skip(i)[0] == list[i]);
}

proof fn lemma_in_line(
    a: Seq<u8>,
    b: Seq<u8>,
    c: Seq<u8>,
    d: Seq<u8>,
    e: Seq<u8>,
    f: Seq<u8>,
)
    ensures
        a + (b + (c + (d + (e + (f + seq![]))))) == a + b + c + d + e + f,
{
    assert(f + seq![] =~= f);
    assert(a + (b + (c + (d + (e + f)))) =~= a + b + c + d + e + f);
}

/// A stored block is the content, and behind it, backwards, its length, a zero command
/// with the top bit set, and its length again.
pub proof fn lemma_raw_parts(s: Seq<u8>)
    ensures
        ({
            let b = raw_block(s);
            let n = varint::control_bytes(s.len() as int);
            &&& b.len() == s.len() + 2 * n.len() + 1
            &&& b.take(s.len() as int) == s
            &&& b[b.len() - 1 - n.len()] == 128
            &&& varint::precedes(b, b.len() as int, n)
            &&& varint::precedes(b, b.len() - 1 - n.len(), n)
        }),
{
    let n = varint::control_bytes(s.len() as int);
    let c = n + seq![128u8] + n;
    let b = raw_block(s);
    lemma_precedes(s, c);
    lemma_precedes_split(b, b.len() as int, n + seq![128u8], n);
    lemma_precedes_split(b, b.len() as int, n, seq![128u8]);
    assert(b[b.len() - n.len() - 1] == seq![128u8][0]);
    assert(b.take(s.len() as int) =~= s);
}

/// A buffer of 64 bytes or more whose streams take less room than it does, by more than
/// seven bytes, is compressed: its block is the stored forms of its six streams and a
/// control area of at most 141 bytes, and is not the stored block. Up to 16516096 bytes
/// there is no other condition. All other buffers are stored.
#[verifier::rlimit(30)]
pub proof fn lemma_compressed_form(mode: EntropyMode, s: Seq<u8>)
    requires
        s.len() <= i32::MAX,
    ensures
        ({
            let p = streams(s);
            let d = stored_form(mode, p.tokens) + stored_form(mode, p.off16) + stored_form(
                mode,
                p.off24,
            ) + stored_form(mode, p.var_lit) + stored_form(mode, p.var_match) + stored_form(
                mode,
                p.lits,
            );
            let c = compressed(mode, s);
            let fits = s.len() <= 16516096 || all_representable(0, 0, parse::steps(s));
            &&& 64 <= s.len() && fits && d.len() + 7 < s.len() ==> {
                &&& c.take(d.len() as int) == d
                &&& d.len() < c.len() <= d.len() + 141
                &&& c == d + control_area(
                    s.len() as int,
                    mode,
                    seq![p.tokens, p.off16, p.off24, p.var_lit, p.var_match, p.lits],
                ).reverse()
                &&& c != raw_block(s)
            }
            &&& s.len() > 0 && !(64 <= s.len() && fits && d.len() + 7 < s.len()) ==> c == raw_block(s)
            &&& s.len() == 0 ==> c == seq![128u8]
        }),
{
    reveal(compressed);
    let p = streams(s);
    let list = listed(p);
    let n = s.len() as int;
    lemma_data_area(mode, list);
    let d = data_area(mode, list);
    if n <= 16516096 {
        lemma_fields_suffice(mode, s);
    }
    let c = compressed(mode, s);
    if n == 0 {
        assert(varint::control_bytes(0) =~= seq![128u8]);
        assert(seq![128u8].reverse() =~= seq![128u8]);
    } else if !kept_raw(mode, s) {
        let a = control_area(n, mode, list);
        lemma_stream_lengths(s);
        lemma_field_lengths(mode, list);
        lemma_header(mode, list);
        varint::lemma_control_len(header(mode, list));
        varint::lemma_group_count_bound(header(mode, list));
        varint::lemma_control_len(n);
        varint::lemma_group_count_bound(n);
        assert(c.take(d.len() as int) =~= d);
        let k = varint::control_bytes(n);
        lemma_raw_parts(s);
        lemma_precedes(d, a);
        lemma_precedes_split(
            c,
            c.len() as int,
            k + seq![129u8],
            varint::control_bytes(header(mode, list)) + length_fields(list) + coded_length_fields(
                mode,
                list,
            ),
        );
        lemma_precedes_split(c, c.len() as int, k, seq![129u8]);
        assert(c[c.len() - k.len() - 1] == seq![129u8][0]);
    }
}

/// Total length of the matches of a parse.
pub open spec fn matched(q: Seq<parse::Step>) -> int
    decreases q.len(),
{
    if q.len() == 0 {
        0
    } else {
        q[0].len + matched(q.skip(1))
    }
}

proof fn lemma_written_sizes(s: Seq<u8>, last: int, litpos: int, q: Seq<parse::Step>)
    requires
        parse::replays(s, last, litpos, q),
    ensures
        ({
            let p = written(s, last, litpos, q);
            &&& p.lits.len() == s.len() - litpos - matched(q)
            &&& q.len() <= p.tokens.len() <= 2 * q.len()
            &&& p.off16.len() + p.off24.len() <= 3 * q.len()
            &&& p.var_lit.len() <= 4 * q.len()
            &&& p.var_match.len() <= 4 * q.len()
        }),
    decreases q.len(),
{
    if q.len() > 0 {
        lemma_written_sizes(s, q[0].off, q[0].target + q[0].len, q.skip(1));
    }
}

/// What the streams of a buffer cost: a literal for each byte outside the matches, and for
/// each match at most two tokens, three bytes of distance and four of each length.
pub proof fn lemma_stream_sizes(s: Seq<u8>)
    ensures
        ({
            let q = parse::steps(s);
            let p = streams(s);
            &&& p.lits.len() == s.len() - matched(q)
            &&& q.len() <= p.tokens.len() <= 2 * q.len()
            &&& p.off16.len() + p.off24.len() <= 3 * q.len()
            &&& p.var_lit.len() <= 4 * q.len()
            &&& p.var_match.len() <= 4 * q.len()
        }),
{
    reveal(streams);
    parse::lemma_steps(s);
    lemma_written_sizes(s, 0, 0, parse::steps(s));
}

proof fn lemma_step_count(s: Seq<u8>, last: int, litpos: int, q: Seq<parse::Step>)
    requires
        parse::replays(s, last, litpos, q),
    ensures
        4 * q.len() <= matched(q) <= s.len() - litpos,
    decreases q.len(),
{
    if q.len() > 0 {
        lemma_step_count(s, q[0].off, q[0].target + q[0].len, q.skip(1));
    }
}

/// A buffer that repeats itself with period five, as a run of one byte does, takes at most
/// 312 bytes, however long it is and whatever the mode.
pub proof fn lemma_periodic_size(mode: EntropyMode, s: Seq<u8>)
    requires
        200 <= s.len() <= 16516096,
        forall|i: int| 5 <= i < s.len() ==> #[trigger] s[i] == s[i - 5],
    ensures
        compressed(mode, s).len() <= 312,
{
    let q = parse::steps(s);
    parse::lemma_steps(s);
    parse::lemma_periodic_steps(s);
    lemma_step_count(s, q[0].off, q[0].target + q[0].len, q.skip(1));
    lemma_stream_sizes(s);
    let p = streams(s);
    lemma_stored_form(mode, p.tokens);
    lemma_stored_form(mode, p.off16);
    lemma_stored_form(mode, p.off24);
    lemma_stored_form(mode, p.var_lit);
    lemma_stored_form(mode, p.var_match);
    lemma_stored_form(mode, p.lits);
    lemma_compressed_form(mode, s);
}

/// The streams of a parse are those of its first step and those of the others: the
/// literals before the match, one token, and a second one only if the distance is new and
/// takes more than 16 bits.
pub proof fn lemma_written_step(s: Seq<u8>, last: int, litpos: int, q: Seq<parse::Step>)
    requires
        q.len() > 0,
        parse::replays(s, last, litpos, q),
    ensures
        ({
            let m = q[0];
            let n = m.target - litpos;
            let p = written(s, last, litpos, q);
            let r = written(s, m.off, m.target + m.len, q.skip(1));
            let far = m.off != last && m.off >= 65536;
            &&& p.lits == s.subrange(litpos, m.target) + r.lits
            &&& p.tokens.len() == r.tokens.len() + if far && n > 0 {
                2int
            } else {
                1
            }
            &&& p.off16 == (if m.off == last || far {
                seq![]
            } else {
                bytes::le16(m.off)
            }) + r.off16
            &&& p.off24 == (if far {
                bytes::le24(m.off)
            } else {
                seq![]
            }) + r.off24
            &&& p.var_lit == (if n < 7 {
                seq![]
            } else {
                varint::varuint_bytes(n - 7)
            }) + r.var_lit
            &&& p.var_match == (if m.len < if far {
                47int
            } else {
                15
            } {
                seq![]
            } else {
                varint::varuint_bytes(
                    m.len - if far {
                        47int
                    } else {
                        15
                    },
                )
            }) + r.var_match
        }),
{
    let m = q[0];
    let lit = s.subrange(litpos, m.target);
    let r = written(s, m.off, m.target + m.len, q.skip(1));
    let a = literal_piece(lit);
    let b = far_piece(m.off, m.len);
    assert(a.off16 + b.off16 =~= seq![]);
    assert(a.off24 + b.off24 =~= b.off24);
    assert(a.var_lit + b.var_lit =~= a.var_lit);
    assert(a.var_match + b.var_match =~= b.var_match);
    assert(a.lits + b.lits =~= lit);
}

proof fn lemma_field_lengths(mode: EntropyMode, list: Seq<Seq<u8>>)
    requires
        lengths_fit(list),
    ensures
        length_fields(list).len() <= 10 * list.len(),
        coded_length_fields(mode, list).len() <= 10 * list.len(),
    decreases list.len(),
{
    if list.len() > 0 {
        let rest = list.skip(1);
        let n = list[0].len() as int;
        assert forall|i: int| 0 <= i < rest.len() implies (#[trigger] rest[i]).len() <= i32::MAX by {
            assert(rest[i] == list[i + 1]);
        }
        varint::lemma_control_len(n);
        varint::lemma_group_count_bound(n);
        lemma_shrunk(mode, list[0]);
        if let Some(c) = shrunk(mode, list[0]) {
            varint::lemma_control_len(c.len() as int);
            varint::lemma_group_count_bound(c.len() as int);
        }
        lemma_field_lengths(mode, rest);
    }
}

/// A block is at most a few bytes longer than its content.
pub proof fn lemma_compressed_len(mode: EntropyMode, s: Seq<u8>)
    requires
        s.len() <= i32::MAX,
    ensures
        0 < compressed(mode, s).len() <= s.len() + 141,
{
    reveal(compressed);
    let n = s.len() as int;
    varint::lemma_control_len(n);
    varint::lemma_group_count_bound(n);
    varint::lemma_control_len(0);
    if n > 0 && !kept_raw(mode, s) {
        let list = listed(streams(s));
        lemma_stream_lengths(s);
        lemma_field_lengths(mode, list);
        lemma_header(mode, list);
        varint::lemma_control_len(header(mode, list));
        varint::lemma_group_count_bound(header(mode, list));
    }
}

proof fn lemma_representable(s: Seq<u8>, last: int, litpos: int, q: Seq<parse::Step>)
    requires
        s.len() <= varint::VARUINT_LIMIT,
        parse::replays(s, last, litpos, q),
    ensures
        all_representable(last, litpos, q),
    decreases q.len(),
{
    if q.len() > 0 {
        lemma_representable(s, q[0].off, q[0].target + q[0].len, q.skip(1));
    }
}

/// The fields have room for every parse of up to 16516096 bytes, so that such a
/// buffer is stored only if it is short or nothing is gained.
pub proof fn lemma_fields_suffice(mode: EntropyMode, s: Seq<u8>)
    requires
        s.len() <= varint::VARUINT_LIMIT,
    ensures
        all_representable(0, 0, parse::steps(s)),
        kept_raw(mode, s) == (s.len() < 64 || data_area(mode, listed(streams(s))).len() + 7
            >= s.len()),
{
    parse::lemma_steps(s);
    lemma_representable(s, 0, 0, parse::steps(s));
}

/// Replaying the streams of a buffer gives back the buffer, if the fields have room
/// for its parse.
pub proof fn lemma_streams_replay(s: Seq<u8>)
    requires
        all_representable(0, 0, parse::steps(s)),
    ensures
        structural::replay(streams(s), 0, seq![]) == Ok::<Seq<u8>, (Seq<u8>, Error)>(s),
        structural::pack_of(listed(streams(s))) == streams(s),
{
    reveal(streams);
    parse::lemma_steps(s);
    lemma_written(s, 0, 0, parse::steps(s));
    assert(s.take(0) =~= seq![]);
}

// ---------------------------------------------------------------------------
// Executable encoder
// ---------------------------------------------------------------------------
/// The six streams that are being written, and the distance in use.
pub struct Streams {
    pub tokens: Vec<u8>,
    pub offsets16: Vec<u8>,
    pub offsets24: Vec<u8>,
    pub var_lit_len: Vec<u8>,
    pub var_match_len: Vec<u8>,
    pub literals: Vec<u8>,
    pub last_offset: u32,
}

impl Streams {
    /// The six streams as they will be read.
    pub open spec fn pack(self) -> structural::Pack {
        structural::Pack {
            tokens: self.tokens@,
            off16: self.offsets16@,
            off24: self.offsets24@,
            var_lit: self.var_lit_len@,
            var_match: self.var_match_len@,
            lits: self.literals@,
        }
    }

    /// Nothing has been written.
    pub open spec fn is_clear(self) -> bool {
        &&& self.tokens@.len() == 0
        &&& self.offsets16@.len() == 0
        &&& self.offsets24@.len() == 0
        &&& self.var_lit_len@.len() == 0
        &&& self.var_match_len@.len() == 0
        &&& self.literals@.len() == 0
        &&& self.last_offset == 0
    }

    /// Streams with nothing in them.
    pub fn new() -> (s: Streams)
        ensures
            s.is_clear(),
    {
        Streams {
            tokens: Vec::new(),
            offsets16: Vec::new(),
            offsets24: Vec::new(),
            var_lit_len: Vec::new(),
            var_match_len: Vec::new(),
            literals: Vec::new(),
            last_offset: 0,
        }
    }

    /// Empties all streams.
    pub fn clear(&mut self)
        ensures
            final(self).is_clear(),
    {
        self.tokens.clear();
        self.offsets16.clear();
        self.offsets24.clear();
        self.var_lit_len.clear();
        self.var_match_len.clear();
        self.literals.clear();
        self.last_offset = 0;
    }

    /// Writes a literal run and a match.
    pub fn emit(&mut self, lit: &[u8], offs: u32, match_len: u32)
        requires
            lit@.len() <= u32::MAX,
            offs == old(self).last_offset || offs < 65536 || match_len >= 16,
        ensures
            final(self).pack() == joined(
                old(self).pack(),
                piece(old(self).last_offset as int, lit@, offs as int, match_len as int),
            ),
            final(self).last_offset == offs,
    {
        let ghost p = piece(self.last_offset as int, lit@, offs as int, match_len as int);
        append(&mut self.literals, lit);
        let lit_len: u32 = lit.len() as u32;
        if offs == self.last_offset || offs < 65536 {
            let mut token: u8 = 128;
            if offs != self.last_offset {
                token = 0;
                push_u16(&mut self.offsets16, offs as u16);
            }
            let a: u8 = short_len(&mut self.var_lit_len, lit_len, 7);
            let b: u8 = short_len(&mut self.var_match_len, match_len, 15);
            self.tokens.push(token + a + 8 * b);
        } else {
            if lit_len > 0 {
                let a: u8 = short_len(&mut self.var_lit_len, lit_len, 7);
                self.tokens.push(128 + a);
            }
            push_u24(&mut self.offsets24, offs);
            if match_len < 47 {
                self.tokens.push((match_len - 16) as u8);
            } else {
                append_varuint(&mut self.var_match_len, match_len - 47);
                self.tokens.push(31);
            }
        }
        self.last_offset = offs;
        proof {
            let q = joined(old(self).pack(), p);
            assert(self.tokens@ =~= q.tokens);
            assert(self.offsets16@ =~= q.off16);
            assert(self.offsets24@ =~= q.off24);
            assert(self.var_lit_len@ =~= q.var_lit);
            assert(self.var_match_len@ =~= q.var_match);
            assert(self.literals@ =~= q.lits);
        }
    }

    /// The stream with number `i`.
    fn stream(&self, i: usize) -> (s: &Vec<u8>)
        requires
            i < 6,
        ensures
            s@ == listed(self.pack())[i as int],
    {
        if i == 0 {
            &self.tokens
        } else if i == 1 {
            &self.offsets16
        } else if i == 2 {
            &self.offsets24
        } else if i == 3 {
            &self.var_lit_len
        } else if i == 4 {
            &self.var_match_len
        } else {
            &self.literals
        }
    }
}

/// Writes what a token cannot hold of `len` to `var`; the result is what it holds.
fn short_len(var: &mut Vec<u8>, len: u32, cap: u32) -> (r: u8)
    requires
        cap < 16,
    ensures
        r == short_part(len as int, cap as int),
        final(var)@ == old(var)@ + long_part(len as int, cap as int),
{
    if len < cap {
        assert(var@ =~= old(var)@ + long_part(len as int, cap as int));
        len as u8
    } else {
        append_varuint(var, len - cap);
        cap as u8
    }
}

/// Whether the fields have room for a literal run and a match.
fn step_fits(last: u32, lit_len: u32, off: u32, len: u32) -> (r: bool)
    ensures
        r == representable(last as int, lit_len as int, off as int, len as int),
{
    lit_len < VARUINT_LIMIT + 7 && if off == last || off < 65536 {
        len < VARUINT_LIMIT + 15
    } else {
        off < 16777216 && len < VARUINT_LIMIT + 47
    }
}

/// Parses `src` into the streams `s`. The result is whether the fields have room
/// for the parse; if not, the parse stops there and the streams are of no use.
pub fn compress_src_into(src: &[u8], table: &mut Vec<i32>, s: &mut Streams) -> (fits: bool)
    requires
        64 <= src@.len() <= i32::MAX,
        old(table)@ == Seq::new(parse::TABLE_LEN as nat, |k: int| 0i32),
        parse::table_ok(old(table)@),
        old(s).is_clear(),
    ensures
        fits == all_representable(0, 0, parse::steps(src@)),
        fits ==> final(s).pack() == streams(src@),
        parse::table_ok(final(table)@),
{
    let ghost v = src@;
    let n: usize = src.len();
    let last: i32 = n as i32 - 32;
    let mut pos: i32 = 5;
    let mut litpos: i32 = 0;
    chain_insert(table, src, 0);
    proof {
        reveal(streams);
        let p = joined(s.pack(), streams(v));
        assert(p.tokens =~= streams(v).tokens);
        assert(p.off16 =~= streams(v).off16);
        assert(p.off24 =~= streams(v).off24);
        assert(p.var_lit =~= streams(v).var_lit);
        assert(p.var_match =~= streams(v).var_match);
        assert(p.lits =~= streams(v).lits);
    }
    while pos <= last
        invariant
            v == src@,
            n == src@.len(),
            64 <= n <= i32::MAX,
            last == n - 32,
            parse::table_ok(table@),
            0 <= litpos <= pos <= n,
            0 < pos,
            s.last_offset <= i32::MAX,
            all_representable(0, 0, parse::steps(v)) == all_representable(
                s.last_offset as int,
                litpos as int,
                parse::parsed(
                    v,
                    table@,
                    s.last_offset as int,
                    litpos as int,
                    pos as int,
                ),
            ),
            streams(v) == joined(
                s.pack(),
                written(
                    v,
                    s.last_offset as int,
                    litpos as int,
                    parse::parsed(
                        v,
                        table@,
                        s.last_offset as int,
                        litpos as int,
                        pos as int,
                    ),
                ),
            ),
        decreases n - litpos, n - pos,
    {
        let off: u32 = s.last_offset;
        let ghost q = parse::parsed(v, table@, off as int, litpos as int, pos as int);
        let m: Match = choose_match(src, table, off, litpos, pos);
        proof {
            parse::lemma_chosen(v, table@, off as int, litpos as int, pos as int);
        }
        if m.len >= 4 {
            let ghost before = s.pack();
            let dist: u32 = (m.target - m.pos) as u32;
            if !step_fits(off, (m.target - litpos) as u32, dist, m.len as u32) {
                return false;
            }
            s.emit(&src[litpos as usize..m.target as usize], dist, m.len as u32);
            let next: i32 = m.target + m.len;
            let end: i32 = if next < last {
                next
            } else {
                last
            };
            let ghost lit = v.subrange(litpos as int, m.target as int);
            chain_insert_range(table, src, m.target, end);
            proof {
                let rest = parse::parsed(v, table@, dist as int, next as int, next as int);
                assert(q.skip(1) =~= rest);
                lemma_joined_assoc(
                    before,
                    piece(off as int, lit, dist as int, m.len as int),
                    written(v, dist as int, next as int, rest),
                );
            }
            pos = next;
            litpos = next;
        } else {
            chain_insert(table, src, pos);
            pos = pos + 2;
        }
    }
    append(&mut s.literals, &src[litpos as usize..n]);
    proof {
        let p = s.pack();
        let w = streams(v);
        assert(v.skip(litpos as int) =~= v.subrange(litpos as int, n as int));
        assert(p.tokens =~= w.tokens);
        assert(p.off16 =~= w.off16);
        assert(p.off24 =~= w.off24);
        assert(p.var_lit =~= w.var_lit);
        assert(p.var_match =~= w.var_match);
        assert(p.lits =~= w.lits);
    }
    true
}

/// The coded form of a stream, if it is shorter than the stream.
fn entropy_encode(stream: &[u8], mode: EntropyMode) -> (r: Option<Vec<u8>>)
    requires
        stream@.len() <= i32::MAX,
    ensures
        match r {
            Some(c) => shrunk(mode, stream@) == Some(c@),
            None => shrunk(mode, stream@) is None,
        },
{
    proof {
        reveal(shrunk);
    }
    let c: Vec<u8> = match mode {
        EntropyMode::Off => {
            return None;
        },
        EntropyMode::Ans1 => ans1_encode(stream),
        EntropyMode::Ans32 => ans32_encode_simd(stream),
        EntropyMode::AnsNibble => ans_nibble_encode(stream),
    };
    if c.len() < stream.len() {
        Some(c)
    } else {
        None
    }
}

/// Appends the command `v` and marks it as the last one, in place of the command
/// at `last` if there is one.
fn append_control_command(ctrl: &mut Vec<u8>, last: Option<usize>, v: u8) -> (at: usize)
    requires
        v < 128,
        last matches Some(i) ==> i < old(ctrl)@.len(),
    ensures
        at == old(ctrl)@.len(),
        final(ctrl)@ == (match last {
            Some(i) => old(ctrl)@.update(i as int, old(ctrl)@[i as int] % 128),
            None => old(ctrl)@,
        }).push((128 + v) as u8),
{
    match last {
        Some(i) => {
            ctrl[i] = ctrl[i] % 128;
        },
        None => {},
    }
    let at: usize = ctrl.len();
    ctrl.push(128 + v);
    at
}

/// Appends the control area `ctrl`, which is read from the end backwards.
fn emit_reversed(dst: &mut Vec<u8>, ctrl: &[u8])
    ensures
        final(dst)@ == old(dst)@ + ctrl@.reverse(),
{
    append_reversed(dst, ctrl);
}

/// Writes the block that stores `src` to `out`, which is cleared first.
fn raw_block_into(src: &[u8], out: &mut Vec<u8>)
    ensures
        final(out)@ == raw_block(src@),
{
    out.clear();
    let mut ctrl: Vec<u8> = Vec::new();
    append_control_varuint(&mut ctrl, src.len() as u64);
    append_control_command(&mut ctrl, None, 0);
    append_control_varuint(&mut ctrl, src.len() as u64);
    append(out, src);
    emit_reversed(out, &ctrl);
    proof {
        let n = varint::control_bytes(src@.len() as int);
        assert(ctrl@ =~= n + seq![128u8] + n);
        assert(out@ =~= raw_block(src@));
    }
}

/// The block that stores `src`.
pub fn encode_raw_block(src: &[u8]) -> (out: Vec<u8>)
    ensures
        out@ == raw_block(src@),
{
    let mut out: Vec<u8> = Vec::new();
    raw_block_into(src, &mut out);
    out
}

/// The coded forms of the streams.
fn code_streams(s: &Streams, mode: EntropyMode) -> (r: Vec<Option<Vec<u8>>>)
    requires
        lengths_fit(listed(s.pack())),
    ensures
        r@.len() == 6,
        coded_forms(mode, listed(s.pack()), r@),
{
    let ghost list = listed(s.pack());
    let mut r: Vec<Option<Vec<u8>>> = Vec::new();
    let mut i: usize = 0;
    while i < 6
        invariant
            i <= 6,
            i == r@.len(),
            list == listed(s.pack()),
            list.len() == 6,
            lengths_fit(list),
            coded_forms(mode, list.take(i as int), r@),
        decreases 6 - i,
    {
        assert(list[i as int].len() <= i32::MAX);
        let c: Option<Vec<u8>> = entropy_encode(s.stream(i), mode);
        r.push(c);
        i = i + 1;
    }
    assert(list.take(6) =~= list);
    r
}

/// `r` holds the coded form of each stream that has one.
spec fn coded_forms(mode: EntropyMode, list: Seq<Seq<u8>>, r: Seq<Option<Vec<u8>>>) -> bool {
    &&& r.len() == list.len()
    &&& forall|i: int|
        #![trigger r[i]]
        0 <= i < list.len() ==> match r[i] {
            Some(c) => shrunk(mode, list[i]) == Some(c@),
            None => shrunk(mode, list[i]) is None,
        }
}

proof fn lemma_data_bound(mode: EntropyMode, list: Seq<Seq<u8>>)
    requires
        lengths_fit(list),
    ensures
        data_area(mode, list).len() <= i32::MAX * list.len(),
    decreases list.len(),
{
    if list.len() > 0 {
        let rest = list.skip(1);
        assert forall|i: int| 0 <= i < rest.len() implies (#[trigger] rest[i]).len() <= i32::MAX by {
            assert(rest[i] == list[i + 1]);
        }
        assert(list[0].len() <= i32::MAX);
        lemma_shrunk(mode, list[0]);
        lemma_data_bound(mode, rest);
    }
}

/// The modes of the streams and the size of the data area.
fn measure(s: &Streams, mode: EntropyMode, coded: &Vec<Option<Vec<u8>>>) -> (r: (u64, u64))
    requires
        lengths_fit(listed(s.pack())),
        coded_forms(mode, listed(s.pack()), coded@),
    ensures
        r.0 == header(mode, listed(s.pack())),
        r.1 == data_area(mode, listed(s.pack())).len(),
        r.1 <= 6 * i32::MAX,
{
    let ghost list = listed(s.pack());
    let mut hdr: u64 = 0;
    let mut total: u64 = 0;
    let mut i: usize = 6;
    assert(list.skip(6) =~= seq![]);
    while i > 0
        invariant
            i <= 6,
            list == listed(s.pack()),
            lengths_fit(list),
            coded_forms(mode, list, coded@),
            hdr == header(mode, list.skip(i as int)),
            total == data_area(mode, list.skip(i as int)).len(),
        decreases i,
    {
        i = i - 1;
        let ghost tail = list.skip(i as int);
        proof {
            assert(tail.skip(1) =~= list.skip(i + 1));
            assert(tail[0] == list[i as int]);
            assert forall|k: int| 0 <= k < tail.len() implies (#[trigger] tail[k]).len()
                <= i32::MAX by {
                assert(tail[k] == list[i + k]);
            }
            lemma_header(mode, tail.skip(1));
            lemma_header(mode, tail);
            lemma_data_bound(mode, tail);
            lemma_shrunk(mode, list[i as int]);
        }
        match &coded[i] {
            Some(c) => {
                hdr = mode.header_code() + 16 * hdr;
                total = c.len() as u64 + total;
            },
            None => {
                hdr = 16 * hdr;
                total = s.stream(i).len() as u64 + total;
            },
        }
    }
    assert(list.skip(0) =~= list);
    proof {
        lemma_data_bound(mode, list);
    }
    (hdr, total)
}

/// A reusable encoder. It owns the table of the match finder, of about 2 MiB, and
/// the streams, so that they are allocated once for any number of blocks.
pub struct Encoder {
    table: Vec<i32>,
    streams: Streams,
    ctrl: Vec<u8>,
}

impl Default for Encoder {
    /// The same as [`Encoder::new`].
    fn default() -> (e: Encoder)
        ensures
            e.is_fresh(),
    {
        Encoder::new()
    }
}

impl Encoder {
    /// Nothing is kept of a block before.
    pub closed spec fn is_fresh(self) -> bool {
        &&& self.table@ == Seq::new(parse::TABLE_LEN as nat, |k: int| 0i32)
        &&& self.streams.is_clear()
        &&& self.ctrl@.len() == 0
    }

    /// An encoder; it can be used for any number of blocks.
    pub fn new() -> (e: Encoder)
        ensures
            e.is_fresh(),
    {
        Encoder { table: new_table(), streams: Streams::new(), ctrl: Vec::new() }
    }

    /// Writes the block of `src` to `out`, which is cleared first.
    pub fn compress_into(&mut self, src: &[u8], entropy: EntropyMode, out: &mut Vec<u8>)
        requires
            src@.len() <= i32::MAX,
        ensures
            final(out)@ == compressed(entropy, src@),
    {
        proof {
            reveal(compressed);
        }
        out.clear();
        self.ctrl.clear();
        append_control_varuint(&mut self.ctrl, src.len() as u64);
        if src.len() == 0 {
            emit_reversed(out, &self.ctrl);
            assert(self.ctrl@ =~= varint::control_bytes(0));
            assert(out@ =~= compressed(entropy, src@));
            return;
        }
        if src.len() < 64 {
            raw_block_into(src, out);
            return;
        }
        self.streams.clear();
        clear_table(&mut self.table);
        if !compress_src_into(src, &mut self.table, &mut self.streams) {
            raw_block_into(src, out);
            return;
        }
        let ghost list = listed(streams(src@));
        proof {
            lemma_stream_lengths(src@);
            assert(lengths_fit(list));
        }
        let coded: Vec<Option<Vec<u8>>> = code_streams(&self.streams, entropy);
        let (hdr, total): (u64, u64) = measure(&self.streams, entropy, &coded);
        if total + 7 >= src.len() as u64 {
            raw_block_into(src, out);
            return;
        }
        append_control_command(&mut self.ctrl, None, 1);
        append_control_varuint(&mut self.ctrl, hdr);
        let ghost head = self.ctrl@;
        assert(head =~= varint::control_bytes(src@.len() as int) + seq![129u8]
            + varint::control_bytes(header(entropy, list)));
        self.write_lengths();
        self.write_streams(entropy, &coded, out);
        emit_reversed(out, &self.ctrl);
        assert(self.ctrl@ =~= control_area(src@.len() as int, entropy, list));
        assert(out@ =~= compressed(entropy, src@));
    }

    /// Appends the lengths of the streams to the control area.
    fn write_lengths(&mut self)
        ensures
            final(self).streams == old(self).streams,
            final(self).ctrl@ == old(self).ctrl@ + length_fields(listed(old(self).streams.pack())),
    {
        let ghost list = listed(self.streams.pack());
        let mut i: usize = 0;
        assert(list.skip(0) =~= list);
        while i < 6
            invariant
                i <= 6,
                list == listed(self.streams.pack()),
                self.streams == old(self).streams,
                self.ctrl@ + length_fields(list.skip(i as int)) == old(self).ctrl@
                    + length_fields(list),
            decreases 6 - i,
        {
            let ghost before = self.ctrl@;
            let ghost tail = list.skip(i as int);
            let n: usize = self.streams.stream(i).len();
            append_control_varuint(&mut self.ctrl, n as u64);
            proof {
                assert(tail.skip(1) =~= list.skip(i + 1));
                assert(tail[0] == list[i as int]);
                assert(before + (varint::control_bytes(n as int) + length_fields(tail.skip(1)))
                    =~= self.ctrl@ + length_fields(tail.skip(1)));
            }
            i = i + 1;
        }
        assert(list.skip(6) =~= seq![]);
        assert(self.ctrl@ + Seq::<u8>::empty() =~= self.ctrl@);
    }

    /// Appends the stored forms of the streams to `out`, and the lengths of the
    /// coded ones to the control area.
    fn write_streams(
        &mut self,
        mode: EntropyMode,
        coded: &Vec<Option<Vec<u8>>>,
        out: &mut Vec<u8>,
    )
        requires
            coded_forms(mode, listed(old(self).streams.pack()), coded@),
        ensures
            final(self).streams == old(self).streams,
            final(self).ctrl@ == old(self).ctrl@ + coded_length_fields(
                mode,
                listed(old(self).streams.pack()),
            ),
            final(out)@ == old(out)@ + data_area(mode, listed(old(self).streams.pack())),
    {
        let ghost list = listed(self.streams.pack());
        let mut i: usize = 0;
        assert(list.skip(0) =~= list);
        while i < 6
            invariant
                i <= 6,
                list == listed(self.streams.pack()),
                coded_forms(mode, list, coded@),
                self.streams == old(self).streams,
                self.ctrl@ + coded_length_fields(mode, list.skip(i as int)) == old(self).ctrl@
                    + coded_length_fields(mode, list),
                out@ + data_area(mode, list.skip(i as int)) == old(out)@ + data_area(mode, list),
            decreases 6 - i,
        {
            let ghost before = self.ctrl@;
            let ghost area = out@;
            let ghost tail = list.skip(i as int);
            let ghost s = list[i as int];
            match &coded[i] {
                Some(c) => {
                    append_control_varuint(&mut self.ctrl, c.len() as u64);
                    append(out, c);
                },
                None => {
                    append(out, self.streams.stream(i));
                },
            }
            proof {
                assert(tail.skip(1) =~= list.skip(i + 1));
                assert(tail[0] == s);
                assert(self.ctrl@ =~= before + coded_length_field(mode, s));
                assert(out@ =~= area + stored_form(mode, s));
                assert(before + (coded_length_field(mode, s) + coded_length_fields(
                    mode,
                    tail.skip(1),
                )) =~= self.ctrl@ + coded_length_fields(mode, tail.skip(1)));
                assert(area + (stored_form(mode, s) + data_area(mode, tail.skip(1))) =~= out@
                    + data_area(mode, tail.skip(1)));
            }
            i = i + 1;
        }
        assert(list.skip(6) =~= seq![]);
        assert(self.ctrl@ + Seq::<u8>::empty() =~= self.ctrl@);
        assert(out@ + Seq::<u8>::empty() =~= out@);
    }
}

/// The block of `src`, its streams coded in the mode `entropy` where that helps.
pub fn iguana_compress(src: &[u8], entropy: EntropyMode) -> (out: Vec<u8>)
    requires
        src@.len() <= i32::MAX,
    ensures
        out@ == compressed(entropy, src@),
{
    let mut out: Vec<u8> = Vec::new();
    let mut e = Encoder::new();
    e.compress_into(src, entropy, &mut out);
    out
}

} // verus!
