//! Parse, blocks and the structural decoder.
use iguana::encoder::{compress_src_into, encode_raw_block, Encoder, Streams};
use iguana::matcher::{best_match, best_match_scalar, lcp, Match, HISTSIZE};
use iguana::parse::{clamp_match_end, clear_table, new_table};
use iguana::structural::{decompress_block, raw_streams, token_fields, Reader, OFFSET16,
    OFFSET24, VAR_LIT_LEN, VAR_MATCH_LEN};
use iguana::varint::{append_control_varuint, append_varuint, control_varuint_len,
    read_control_varuint};
use iguana::{
    block, decode_tokens_ref, decode_tokens_simd, iguana_compress, iguana_decompress,
    iguana_decompress_simd, EntropyMode, Error,
};

const MODES: [EntropyMode; 4] =
    [EntropyMode::Off, EntropyMode::Ans1, EntropyMode::Ans32, EntropyMode::AnsNibble];

fn roundtrip(src: &[u8], mode: EntropyMode) {
    let enc = iguana_compress(src, mode);
    let dec = iguana_decompress(&enc).expect("decompress");
    assert_eq!(dec, src, "round-trip mismatch ({:?}, {} bytes)", mode, src.len());
}

fn unhex(s: &str) -> Vec<u8> {
    (0..s.len() / 2).map(|i| u8::from_str_radix(&s[2 * i..2 * i + 2], 16).expect("hex")).collect()
}

fn fnv(b: &[u8]) -> u64 {
    b.iter().fold(0xcbf29ce484222325u64, |h, &x| (h ^ x as u64).wrapping_mul(0x100000001b3))
}

fn xorshift(seed: u32, n: usize, f: impl Fn(u32) -> u32) -> Vec<u8> {
    let mut x = seed;
    (0..n)
        .map(|_| {
            x ^= x << 13;
            x ^= x >> 17;
            x ^= x << 5;
            f(x) as u8
        })
        .collect()
}

#[test]
fn clamp_end_safety() {
    assert_eq!(clamp_match_end(1000, 100, 50, 20), 20);
    assert_eq!(clamp_match_end(100, 50, 40, 40), 32);
    assert_eq!(clamp_match_end(100, 50, 10, 45), 10);
    assert_eq!(clamp_match_end(40, 35, 33, 20), 0);
}

#[test]
fn roundtrips() {
    let cases: Vec<Vec<u8>> = vec![
        b"".to_vec(),
        b"a".to_vec(),
        b"hello".to_vec(),
        b"the quick brown fox jumps over the lazy dog. ".repeat(20),
        b"abcabcabcabcabc".repeat(50),
        vec![0u8; 5000],
        (0..20000u32).map(|i| (i.wrapping_mul(2654435761) >> 24) as u8).collect(),
    ];
    for mode in MODES {
        for c in &cases {
            roundtrip(c, mode);
        }
    }
}

#[test]
fn ans_nibble_composition() {
    let src: Vec<u8> = (0..30000u32).map(|i| (i % 13) as u8).collect();
    let enc = iguana_compress(&src, EntropyMode::AnsNibble);
    assert_eq!(iguana_decompress(&enc).expect("decompress"), src);
}

struct Rng(u32);

impl Rng {
    fn next(&mut self) -> u32 {
        let mut x = self.0;
        x ^= x << 13;
        x ^= x >> 17;
        x ^= x << 5;
        self.0 = x;
        x
    }

    fn below(&mut self, n: u32) -> u32 {
        if n == 0 {
            0
        } else {
            self.next() % n
        }
    }
}

/// The longest legal match, found the long way.
fn longest(src: &[u8], litmin: usize, pos: usize, hist: &[i32; HISTSIZE]) -> Match {
    let mut best = Match { target: 0, pos: 0, len: 0 };
    for (i, &c) in hist.iter().enumerate() {
        let c = c as usize;
        if i > 0 && c == 0 {
            break;
        }
        let ahead = (0..src.len() - pos).take_while(|&k| src[c + k] == src[pos + k]).count();
        let room = c.min(pos - litmin);
        let back = (1..=room).take_while(|&k| src[c - k] == src[pos - k]).count();
        let len = ahead + back;
        if (pos - c < 65536 || len > 15) && len as i32 > best.len {
            best = Match {
                target: (pos - back) as i32,
                pos: (c - back) as i32,
                len: len as i32,
            };
        }
    }
    best
}

fn check(src: &[u8], litmin: i32, pos: i32, hist: &[i32; HISTSIZE]) {
    let a = best_match(src, litmin, pos, hist);
    let s = best_match_scalar(src, litmin, pos, hist);
    assert_eq!(
        a,
        s,
        "kernel != scalar: len={} litmin={litmin} pos={pos} hist={hist:?}",
        src.len()
    );
    assert_eq!(a, longest(src, litmin as usize, pos as usize, hist));
}

#[test]
fn diff_fuzz_small_alphabet() {
    let mut rng = Rng(0x9e3779b9);
    for _ in 0..20000 {
        let len = 64 + rng.below(4096) as usize;
        let alpha = 2 + rng.below(6);
        let src: Vec<u8> = (0..len).map(|_| (rng.below(alpha)) as u8).collect();
        let pos = rng.below((len - 32 + 1) as u32) as i32;
        if pos == 0 {
            continue;
        }
        let litmin = rng.below(pos as u32 + 1) as i32;
        let mut hist = [0i32; HISTSIZE];
        for h in hist.iter_mut() {
            if rng.below(4) == 0 {
                *h = 0;
            } else {
                *h = rng.below(pos as u32) as i32;
            }
        }
        check(&src, litmin, pos, &hist);
    }
}

#[test]
fn diff_large_offsets() {
    for &(plant_len, _name) in &[(10usize, "short/illegal"), (40usize, "long/legal")] {
        let mut rng = Rng(0x1234_abcd ^ plant_len as u32);
        let len = 80_000usize;
        let mut src: Vec<u8> = (0..len).map(|_| (rng.below(3)) as u8).collect();
        let far = 1000usize;
        let pos = far + 66_000;
        let pat: Vec<u8> = (0..plant_len).map(|i| 100 + (i % 20) as u8).collect();
        src[far..far + plant_len].copy_from_slice(&pat);
        src[pos..pos + plant_len].copy_from_slice(&pat);
        let hist = [far as i32, 0, 0, 0];
        check(&src, 0, pos as i32, &hist);
        let m = best_match(&src, 0, pos as i32, &hist);
        assert_eq!(m.len >= 40, plant_len == 40);
        assert_eq!(m.len == 0, plant_len == 10);
    }
}

#[test]
fn diff_edge_cases() {
    let src = vec![7u8; 5000];
    check(&src, 0, 1000, &[1, 0, 0, 0]);
    check(&src, 990, 1000, &[1, 500, 999, 0]);
    check(&src, 0, 100, &[0, 0, 0, 0]);
    let mut s2 = vec![1u8; 2000];
    for (i, b) in s2.iter_mut().enumerate() {
        *b = (i % 251) as u8;
    }
    check(&s2, 0, 500, &[10, 20, 30, 40]);
}

#[test]
fn best_match_takes_the_longest_and_passes_over_later_candidates() {
    //           0123456789012345678901234567890123456789
    let src = b"abcdXabcdefYabcdefghZ...................abcdefgh............................";
    let pos = 40;
    assert_eq!(
        best_match(src, 40, pos, &[0, 5, 12, 0]),
        Match { target: 40, pos: 12, len: 8 + lcp(src, 20, 48) as i32 }
    );
    // A zero behind the first slot ends the chain.
    assert_eq!(best_match(src, 40, pos, &[0, 0, 12, 5]), Match { target: 40, pos: 0, len: 4 });
    // A candidate at or behind the position does not count.
    assert_eq!(best_match(src, 40, pos, &[40, 5, 60, 0]), Match { target: 40, pos: 5, len: 6 });
    assert_eq!(best_match(src, 40, pos, &[41, 0, 0, 0]), Match { target: 0, pos: 0, len: 0 });
}

#[test]
fn decode_tokens_spec_anchors() {
    let cases: &[(u8, u8, u8, u8)] = &[
        (0, OFFSET24, 0, 16),
        (30, OFFSET24, 0, 46),
        (31, VAR_MATCH_LEN | OFFSET24, 0, 47),
        (32, OFFSET16, 0, 4),
        (39, VAR_LIT_LEN | OFFSET16, 7, 4),
        (0xff, VAR_LIT_LEN | VAR_MATCH_LEN, 7, 15),
    ];
    let (mut f, mut l, mut m) = ([0u8; 1], [0u8; 1], [0u8; 1]);
    for &(t, ef, el, em) in cases {
        decode_tokens_ref(&[t], &mut f, &mut l, &mut m);
        assert_eq!((f[0], l[0], m[0]), (ef, el, em), "token {t:#04x}");
        assert_eq!(token_fields(t), (ef, el, em));
    }
}

#[test]
fn decode_tokens_simd_matches_scalar() {
    let run = |toks: &[u8]| {
        let n = toks.len();
        let (mut sf, mut sl, mut sm) = (vec![0u8; n], vec![0u8; n], vec![0u8; n]);
        let (mut kf, mut kl, mut km) = (vec![0u8; n], vec![0u8; n], vec![0u8; n]);
        decode_tokens_ref(toks, &mut sf, &mut sl, &mut sm);
        decode_tokens_simd(toks, &mut kf, &mut kl, &mut km);
        assert_eq!((kf, kl, km), (sf, sl, sm), "len {n}");
    };
    let all: Vec<u8> = (0..=255u8).collect();
    run(&all);
    let mut x = 0xc0ff_ee00_1234_5678u64;
    for &len in &[1usize, 7, 15, 16, 17, 33, 64, 65, 129, 1000] {
        let toks: Vec<u8> = (0..len)
            .map(|_| {
                x ^= x << 13;
                x ^= x >> 7;
                x ^= x << 17;
                x as u8
            })
            .collect();
        run(&toks);
    }
    // Output beyond the tokens stays as it is.
    let (mut f, mut l, mut m) = ([9u8; 3], [9u8; 3], [9u8; 3]);
    decode_tokens_simd(&[0, 32], &mut f, &mut l, &mut m);
    assert_eq!((f, l, m), ([OFFSET24, OFFSET16, 9], [0, 0, 9], [16, 4, 9]));
}

#[test]
fn garbage_does_not_panic() {
    let cases: &[&[u8]] = &[
        &[],
        &[0x00],
        &[0xff],
        &[0x81, 0x00],
        &[0x01, 0x80, 0xff],
        &[1, 2, 3, 4, 5, 6, 7, 8],
        &[0x7f; 32],
        &[0x80; 32],
    ];
    for &c in cases {
        let _ = iguana_decompress(c);
    }
}

fn check_decode(input: &[u8]) {
    let framed = iguana_compress(input, EntropyMode::Off);
    let scalar = iguana_decompress(&framed).expect("scalar decode");
    assert_eq!(scalar, input, "scalar round-trip failed ({} B)", input.len());
    let simd = iguana_decompress_simd(&framed).expect("simd decode");
    assert_eq!(simd, input, "SVE2 decode != input ({} B)", input.len());
    assert_eq!(simd, scalar, "SVE2 decode != scalar ({} B)", input.len());
}

#[test]
fn sve2_decompress_matches_scalar() {
    check_decode(&b"the quick brown fox jumps over the lazy dog. ".repeat(64));
    check_decode(&b"abcabcabcabcabcd".repeat(400));
    check_decode(&vec![0u8; 9000]);
    check_decode(&[0x5au8; 1]);
    check_decode(&[0xa5u8; 33]);
    let pseudo: Vec<u8> =
        (0..20000u32).map(|i| (i.wrapping_mul(2654435761) >> 24) as u8).collect();
    check_decode(&pseudo);
    let mut big = Vec::new();
    for i in 0..40000u32 {
        big.extend_from_slice(&i.to_le_bytes());
        if i % 7 == 0 {
            big.extend_from_slice(b"PATTERN-MARKER-");
        }
    }
    check_decode(&big);
    check_decode(&[]);
    for n in [1usize, 2, 7, 8, 15, 16, 64, 65, 127, 128, 200, 511, 512, 1000, 4096, 4097] {
        let data: Vec<u8> = (0..n).map(|i| b"lorem ipsum dolor sit amet "[i % 27]).collect();
        check_decode(&data);
    }
}

#[test]
fn known_blocks() {
    assert_eq!(iguana_compress(b"", EntropyMode::Ans32), [0x80]);
    assert_eq!(iguana_compress(b"hello", EntropyMode::Ans32), b"hello\x85\x80\x85");
    assert_eq!(encode_raw_block(&[7; 64])[64..], [0xc0, 0x00, 0x80, 0xc0, 0x00]);
    let text = b"the quick brown fox jumps over the lazy dog. ".repeat(4);
    assert_eq!(
        iguana_compress(&text, EntropyMode::Off),
        unhex(
            "277f1f002d0018037174686520717569636b2062726f776e20666f78206a756d7073206f766572206c61\
             7a7920646f672e207920646f672e20b081828084828081b401"
        )
    );
}

#[test]
fn known_sums_of_blocks() {
    let ramp: Vec<u8> = (0..20000u64).map(|i| (i * i / 7 % 251) as u8).collect();
    let few = xorshift(0x9e3779b9, 30000, |x| (x >> 9) % 5);
    let small = xorshift(12345, 20000, |x| if x % 4 == 0 { x >> 8 } else { x % 12 });
    // Distances beyond 16 bits, long matches and a cut at the end.
    let mut far = xorshift(77, 70000, |x| x >> 11);
    let copy = [&far[100..400], &[b'q'; 100][..], &far[5000..5040], &[0u8; 200][..]].concat();
    far.extend(copy);
    for (src, sums) in [
        (
            &ramp,
            [(1780, 0x453019046d4adb59u64); 4],
        ),
        (
            &few,
            [
                (16614, 0x2357c824fbfb63b),
                (11570, 0x85f354a5a849ac8a),
                (11846, 0x58cf40984d479656),
                (13134, 0x2fd506ec232cc0e9),
            ],
        ),
        (
            &small,
            [
                (19971, 0xed1ba607852e4aa2),
                (13249, 0xc9dc4ad979781cfe),
                (13343, 0x37ca483314437c94),
                (16240, 0xa9a3743cef745b7d),
            ],
        ),
        (&far, [(70071, 0x7847038b4b28b288); 4]),
    ] {
        for (mode, want) in MODES.iter().zip(sums) {
            let c = iguana_compress(src, *mode);
            assert_eq!((c.len(), fnv(&c)), want, "{:?}", mode);
            assert_eq!(iguana_decompress(&c).unwrap(), *src);
            assert_eq!(block::decoded_len(&c).unwrap(), src.len());
        }
    }
}

#[test]
fn control_integers() {
    for (v, bytes) in [
        (0u64, vec![0x80u8]),
        (63, vec![0xbf]),
        (64, vec![0x00, 0xc0]),
        (127, vec![0x00, 0xff]),
        (128, vec![0x01, 0x80]),
        (300, vec![0x02, 0xac]),
        (u64::MAX, vec![0x01, 0x7f, 0x7f, 0x7f, 0x7f, 0x7f, 0x7f, 0x7f, 0x7f, 0xff]),
    ] {
        let mut c = Vec::new();
        append_control_varuint(&mut c, v);
        assert_eq!(c, bytes, "{v}");
        assert_eq!(control_varuint_len(v), bytes.len());
        c.reverse();
        c.insert(0, 0x55);
        assert_eq!(read_control_varuint(&c, c.len()), Ok((v, 1)));
    }
    assert_eq!(read_control_varuint(&[], 0), Err(Error::OutOfInputData));
    assert_eq!(read_control_varuint(&[0x7f, 0x7f], 2), Err(Error::OutOfInputData));
}

#[test]
fn stream_integers() {
    for (v, bytes) in [
        (0u32, vec![0u8]),
        (253, vec![253]),
        (254, vec![254, 0, 1]),
        (64515, vec![254, 253, 253]),
        (64516, vec![255, 0, 0, 1]),
        (16516095, vec![255, 253, 253, 255]),
    ] {
        let mut c = Vec::new();
        append_varuint(&mut c, v);
        assert_eq!(c, bytes, "{v}");
        c.push(77);
        let mut r = Reader::new(&c);
        assert_eq!(r.fetch_varuint(), Ok(v as usize));
        assert_eq!(r.remaining(), 1);
        assert_eq!(r.fetch8(), Ok(77));
        assert!(r.empty());
    }
    assert_eq!(Reader::new(&[]).fetch_varuint(), Err(Error::OutOfInputData));
    let mut r = Reader::new(&[255, 1, 2]);
    assert_eq!(r.fetch_varuint(), Err(Error::OutOfInputData));
    assert_eq!(r.remaining(), 2);
    assert_eq!(r.fetch24(), Err(Error::OutOfInputData));
    assert_eq!(r.fetch16(), Ok(0x0201));
    assert_eq!(Reader::new(&[1, 2, 3]).fetch24(), Ok(0x030201));
    assert_eq!(Reader::new(b"abc").fetch_sequence(2), Ok(&b"ab"[..]));
    assert_eq!(Reader::new(b"abc").fetch_sequence(4), Err(Error::OutOfInputData));
}

/// A block of one structural command with streams stored as they are.
fn structural_block(n: u64, streams: [&[u8]; 6]) -> Vec<u8> {
    let mut ctrl = Vec::new();
    append_control_varuint(&mut ctrl, n);
    ctrl.push(0x81);
    append_control_varuint(&mut ctrl, 0);
    let mut out = Vec::new();
    for s in streams {
        append_control_varuint(&mut ctrl, s.len() as u64);
        out.extend_from_slice(s);
    }
    ctrl.reverse();
    out.extend(ctrl);
    out
}

#[test]
fn tokens_are_replayed() {
    // Two literals, then four bytes at distance 1; then one literal and five bytes
    // at the same distance; the rest are literals.
    let b = structural_block(15, [&[0x22, 0xa9], &[1, 0], &[], &[], &[], b"abcxyz"]);
    assert_eq!(iguana_decompress(&b).unwrap(), b"abbbbbccccccxyz");
    // Literal length 7 + 1, match length 15 + 2 at distance 8.
    let b = structural_block(25, [&[0x7f], &[8, 0], &[], &[1], &[2], b"abcdefgh"]);
    assert_eq!(iguana_decompress(&b).unwrap(), b"abcdefghabcdefghabcdefgha");
    // A 24-bit distance, match length 16; then the long form, 47 + 3.
    let b = structural_block(70, [&[0x84, 0, 31], &[], &[4, 0, 0, 2, 0, 0], &[], &[3], b"wxyz"]);
    let mut want = b"wxyz".repeat(5);
    want.extend(b"yz".repeat(25));
    assert_eq!(iguana_decompress(&b).unwrap(), want);
}

#[test]
fn decoder_names_the_error() {
    let err = |b: &[u8]| iguana_decompress(b).unwrap_err();
    assert_eq!(err(&[]), Error::OutOfInputData);
    assert_eq!(err(&[0x01]), Error::OutOfInputData);
    // A content length, but no command.
    assert_eq!(err(&[0x81]), Error::OutOfInputData);
    // Commands that are known and not handled, and one that is not known.
    for c in 2..=4u8 {
        assert_eq!(err(&[0x80 | c, 0x81]), Error::Unsupported);
    }
    assert_eq!(err(&[0x85, 0x81]), Error::UnrecognizedCommand);
    // More stored bytes than there are.
    assert_eq!(err(&[0x90, 0x80, 0x81]), Error::OutOfInputData);
    // A distance beyond the output, and a distance of zero.
    let far = structural_block(9, [&[0x21], &[2, 0], &[], &[], &[], b"a"]);
    assert_eq!(err(&far), Error::CorruptOffset);
    let zero = structural_block(9, [&[0xa1], &[], &[], &[], &[], b"a"]);
    assert_eq!(err(&zero), Error::CorruptOffset);
    // Each stream running out.
    for s in [
        [&[0x21][..], &[], &[], &[], &[], b"a"],
        [&[0x22], &[1, 0], &[], &[], &[], b"a"],
        [&[0x00], &[], &[1, 0], &[], &[], b"a"],
        [&[0x27], &[1, 0], &[], &[], &[], b"abcdefgh"],
        [&[0x79], &[1, 0], &[], &[], &[254, 0], b"a"],
    ] {
        assert_eq!(err(&structural_block(9, s)), Error::OutOfInputData);
    }
    // An entropy mode that is not known.
    assert_eq!(
        err(&[0x80, 0x80, 0x80, 0x80, 0x80, 0x80, 0x80, 0x84, 0x81, 0x81]),
        Error::Unsupported
    );
}

#[test]
fn commands_are_run_in_turn() {
    // "abc" stored, then "de" stored; the second command is the last one.
    let b = b"abcde\x82\x80\x83\x00\x85".to_vec();
    assert_eq!(iguana_decompress(&b).unwrap(), b"abcde");
    // Content length zero: nothing else is read.
    assert_eq!(iguana_decompress(&[0xff, 0x80]).unwrap(), b"");
}

#[test]
fn stored_streams_replay_to_the_content() {
    let b = structural_block(15, [&[0x22, 0xa9], &[1, 0], &[], &[], &[], b"abcxyz"]);
    let (n, streams) = raw_streams(&b).unwrap();
    assert_eq!(n, 15);
    let want: [&[u8]; 6] = [&[0x22, 0xa9], &[1, 0], &[], &[], &[], b"abcxyz"];
    assert_eq!(streams, want);
    let mut dst = Vec::new();
    decompress_block(&mut dst, &streams).unwrap();
    assert_eq!(dst, b"abbbbbccccccxyz");
    assert_eq!(dst, iguana_decompress(&b).unwrap());
    // Stored content, coded streams and broken blocks have no such streams.
    assert!(raw_streams(&iguana_compress(b"short", EntropyMode::Off)).is_none());
    let coded = [0x80, 0x80, 0x80, 0x80, 0x80, 0x80, 0x84, 0x81, 0x81];
    assert!(raw_streams(&coded).is_none());
    let mut stored = coded;
    stored[6] = 0x80;
    assert_eq!(raw_streams(&stored).unwrap(), (1, vec![Vec::new(); 6]));
    assert!(raw_streams(&[]).is_none());
    // Content that compresses, without entropy coding.
    let src = b"abcdefgh".repeat(99);
    let (n, streams) = raw_streams(&iguana_compress(&src, EntropyMode::Off)).unwrap();
    assert_eq!(n, src.len());
    let mut dst = Vec::new();
    decompress_block(&mut dst, &streams).unwrap();
    assert_eq!(dst, src);
}

#[test]
fn clamped_matches_fit_whole_stores() {
    for n in 64..100usize {
        for pos in 1..n {
            for off in [1u32, 3, 7, 31, 32, 33, 50] {
                for len in 0..=n - pos {
                    let r = clamp_match_end(n, pos, off, len);
                    let step = off as usize;
                    assert!(r <= len);
                    assert!(
                        r == 0
                            || pos + r + 32 <= n
                            || (step >= 32 && pos + r.div_ceil(32) * 32 <= n)
                            || (step < 32 && pos + (r - r % step) + 32 <= n),
                        "{n} {pos} {off} {len} {r}"
                    );
                }
            }
        }
    }
}

#[test]
fn blocks_beyond_the_fields_are_stored() {
    // One match of more than 16.5 million bytes has no place in its field.
    let data = vec![0u8; 17 << 20];
    for mode in MODES {
        let enc = iguana_compress(&data, mode);
        assert!(enc == encode_raw_block(&data), "{mode:?}");
        assert!(iguana_decompress(&enc).unwrap() == data, "{mode:?}");
        assert_eq!(block::decoded_len(&enc), Ok(data.len()));
    }
    // About the longest run of zeros that has one: five literals, one match, and
    // literals at the end.
    let fits = 16_516_096 + 15 + 5;
    for (n, small) in [(fits, true), (fits + 100, false)] {
        let enc = iguana_compress(&data[..n], EntropyMode::Off);
        assert_eq!(enc.len() < 100, small, "{n}");
        assert!(iguana_decompress(&enc).unwrap() == data[..n], "{n}");
    }
}

#[test]
fn blocks_with_distances_beyond_the_field_are_stored() {
    // A repeat at a distance of 18 MB; the runs between are matches of 9 MB each.
    let text = xorshift(3, 48, |x| x);
    for (run, stored) in [(9_000_000, true), (8_000_000, false)] {
        let mut data = text.clone();
        data.extend(vec![b'a'; run]);
        data.extend(vec![b'b'; run]);
        data.extend(&text);
        data.extend([b'c'; 64]);
        let enc = iguana_compress(&data, EntropyMode::Off);
        assert_eq!(enc.len() > data.len(), stored, "{run}");
        assert!(iguana_decompress(&enc).unwrap() == data, "{run}");
    }
}

#[test]
fn parse_says_whether_it_fits() {
    let src = b"abcdefgh".repeat(99);
    let mut table = new_table();
    let mut s = Streams::new();
    assert!(compress_src_into(&src, &mut table, &mut s));
    let streams = vec![
        s.tokens.clone(),
        s.offsets16.clone(),
        s.offsets24.clone(),
        s.var_lit_len.clone(),
        s.var_match_len.clone(),
        s.literals.clone(),
    ];
    let mut d = Vec::new();
    decompress_block(&mut d, &streams).unwrap();
    assert_eq!(d, src);
    clear_table(&mut table);
    s.clear();
    assert!(!compress_src_into(&vec![0u8; 17 << 20], &mut table, &mut s));
}

#[test]
fn encoder_keeps_nothing_of_earlier_blocks() {
    let inputs = [b"abcdefgh".repeat(99), xorshift(7, 5000, |x| x & 31), vec![9; 300]];
    let mut e = Encoder::default();
    let mut out = vec![1, 2, 3];
    for mode in MODES {
        for src in &inputs {
            e.compress_into(src, mode, &mut out);
            assert_eq!(out, iguana_compress(src, mode), "{mode:?} {}", src.len());
        }
    }
}
