//! The entropy coders.
use iguana::{
    ans1_decode, ans1_encode, ans32_decode, ans32_decode_simd, ans32_encode, ans32_encode_simd,
    ans_nibble_decode, ans_nibble_encode, byte_sum, compress, decompress, Error,
};

fn roundtrip(src: &[u8]) {
    let enc = compress(src);
    let dec = decompress(&enc).expect("decompress");
    assert_eq!(dec.as_slice(), src, "round-trip mismatch (len {})", src.len());
}

fn unhex(s: &str) -> Vec<u8> {
    assert!(s.len() % 2 == 0, "odd hex length");
    (0..s.len() / 2).map(|i| u8::from_str_radix(&s[2 * i..2 * i + 2], 16).expect("hex")).collect()
}

fn fnv(b: &[u8]) -> u64 {
    b.iter().fold(0xcbf29ce484222325u64, |h, &x| (h ^ x as u64).wrapping_mul(0x100000001b3))
}

fn xorshift(seed: u32, n: usize, f: impl Fn(u32) -> u32) -> Vec<u8> {
    let mut x = seed;
    (0..n)
        .map(|_| {
            x ^= x << 13;
            x ^= x >> 17;
            x ^= x << 5;
            f(x) as u8
        })
        .collect()
}

#[test]
fn byte_sum_matches_scalar() {
    for len in [0usize, 1, 7, 31, 63, 64, 65, 127, 128, 200, 1000, 4096, 5001] {
        let v: Vec<u8> = (0..len).map(|i| (i.wrapping_mul(31).wrapping_add(7)) as u8).collect();
        let (got, used) = byte_sum(&v);
        assert_eq!(got, v.iter().map(|&b| b as u64).sum::<u64>(), "len {len}");
        assert!(!used);
    }
    assert_eq!(byte_sum(&[1, 2, 3, 4, 5]), (15, false));
}

#[test]
fn ans32_decode_simd_matches_scalar() {
    let mut x = 0x1234_5678_9abc_def0u64;
    let mut next = |m: u32| {
        x ^= x << 13;
        x ^= x >> 7;
        x ^= x << 17;
        (x % m as u64) as u32
    };
    for &len in &[1usize, 31, 32, 33, 63, 64, 65, 127, 200, 1000, 4097, 20_001, 65_537] {
        for &alpha in &[2u32, 7, 64, 256] {
            let src: Vec<u8> = (0..len).map(|_| next(alpha) as u8).collect();
            let enc = ans32_encode(&src);
            let scalar = ans32_decode(&enc, len).expect("scalar decode");
            assert_eq!(scalar, src, "scalar oracle wrong: len={len} alpha={alpha}");
            let simd = ans32_decode_simd(&enc, len).expect("simd decode");
            assert_eq!(simd, scalar, "kernel != scalar: len={len} alpha={alpha}");
        }
    }
}

#[test]
fn ans32_encode_simd_matches_scalar() {
    let mut x = 0x0f1e_2d3c_4b5a_6978u64;
    let mut next = |m: u32| {
        x ^= x << 13;
        x ^= x >> 7;
        x ^= x << 17;
        (x % m as u64) as u32
    };
    for &len in &[0usize, 1, 31, 32, 33, 63, 64, 65, 127, 200, 1000, 4097, 20_001, 65_537] {
        for &alpha in &[2u32, 7, 64, 256] {
            let src: Vec<u8> = (0..len).map(|_| next(alpha) as u8).collect();
            let scalar = ans32_encode(&src);
            let simd = ans32_encode_simd(&src);
            assert_eq!(simd, scalar, "encode kernel != scalar: len={len} alpha={alpha}");
            assert_eq!(ans32_decode(&simd, len).unwrap(), src, "roundtrip len={len}");
        }
    }
}

#[test]
fn empty() {
    roundtrip(b"");
}

#[test]
fn single_byte() {
    roundtrip(b"a");
    roundtrip(&[0u8; 1000]);
}

#[test]
fn small_texts() {
    roundtrip(b"the quick brown fox jumps over the lazy dog");
    roundtrip(b"aaaaaaaabbbbbbbbccccccccdddddddd");
    roundtrip(b"\x00\x01\x02\x03\xfe\xff");
}

#[test]
fn skewed_distribution_compresses() {
    let mut src = Vec::new();
    for i in 0..10_000u32 {
        src.push(if i % 10 == 0 { (i & 0xff) as u8 } else { b'a' });
    }
    roundtrip(&src);
    let ratio = src.len() as f64 / compress(&src).len() as f64;
    assert!(ratio > 2.0, "expected >2x on skewed data, got {ratio:.2}x");
}

#[test]
fn pseudo_random_roundtrips() {
    let mut x = 0x2545_f491_4f6c_dd1du64;
    let mut src = vec![0u8; 5000];
    for b in src.iter_mut() {
        x ^= x << 13;
        x ^= x >> 7;
        x ^= x << 17;
        *b = x as u8;
    }
    roundtrip(&src);
}

#[test]
fn all_byte_values() {
    let src: Vec<u8> = (0..=255u8).cycle().take(4096).collect();
    roundtrip(&src);
}

#[test]
fn ans_nibble_roundtrips() {
    let mut cases: Vec<Vec<u8>> = vec![
        b"".to_vec(),
        b"a".to_vec(),
        vec![0u8; 1000],
        vec![0x10u8; 777],
        b"the quick brown fox jumps over the lazy dog".to_vec(),
        (0..=255u8).cycle().take(4096).collect(),
    ];
    let mut x = 0x1234_5678_9abc_def0u64;
    let mut skew = Vec::new();
    for _ in 0..8000 {
        x ^= x << 13;
        x ^= x >> 7;
        x ^= x << 17;
        skew.push(if x & 3 == 0 { (x >> 8) as u8 } else { (x & 0x0f) as u8 });
    }
    cases.push(skew);
    for c in &cases {
        let enc = ans_nibble_encode(c);
        let dec = ans_nibble_decode(&enc, c.len()).expect("nibble decode");
        assert_eq!(dec, *c, "ans-nibble round-trip mismatch (len {})", c.len());
    }
}

fn check_ans32(input: &[u8]) {
    let scalar = ans32_encode(input);
    let simd = ans32_encode_simd(input);
    assert_eq!(
        simd,
        scalar,
        "kernel encode != scalar encode ({} B): lens {} vs {}",
        input.len(),
        simd.len(),
        scalar.len()
    );
    let back = ans32_decode(&simd, input.len()).expect("decode kernel output");
    assert_eq!(back, input, "kernel encode did not round-trip ({} B)", input.len());
}

#[test]
fn avx512_ans32_encode_matches_scalar() {
    for n in [0usize, 1, 7, 31, 32, 33, 63, 64, 65, 100, 255, 256, 257, 1000, 4096, 4097] {
        let data: Vec<u8> = (0..n).map(|i| b"lorem ipsum dolor sit amet "[i % 27]).collect();
        check_ans32(&data);
    }
    let mut state = 0x12345u32;
    let mut next = || {
        state ^= state << 13;
        state ^= state >> 17;
        state ^= state << 5;
        state
    };
    for _ in 0..200 {
        let n = 32 + (next() as usize % 8000);
        let data: Vec<u8> = (0..n)
            .map(|_| {
                let r = next();
                if r % 4 == 0 {
                    (r >> 8) as u8
                } else {
                    (r % 12) as u8
                }
            })
            .collect();
        check_ans32(&data);
    }
    let uniform: Vec<u8> =
        (0..5000u64).map(|i| (i.wrapping_mul(2654435761) >> 13) as u8).collect();
    check_ans32(&uniform);
    check_ans32(&[0xABu8; 3000]);
    check_ans32(&[7u8; 33]);
}

/// The control block of a byte table in which the given symbols have the given
/// three-bit codes.
fn control(codes: &[(usize, u32)]) -> Vec<u8> {
    let mut c = vec![0u8; 96];
    for &(sym, code) in codes {
        for k in 0..3 {
            if code >> k & 1 == 1 {
                let bit = 3 * sym + k;
                c[bit / 8] |= 1 << (bit % 8);
            }
        }
    }
    c
}

#[test]
fn empty_input_splits_the_slots_over_the_last_two_symbols() {
    // State 65536; both frequencies are 2048 = 277 + 0x6eb.
    let mut want = unhex("000001006eb6eb");
    want.extend(control(&[(254, 7), (255, 7)]));
    want.push(0);
    assert_eq!(ans1_encode(b""), want);
    assert_eq!(ans_nibble_encode(b""), unhex("000001006eb6eb0000000000fc"));
    assert_eq!(ans32_encode(b"").len(), 128 + 3 + 96 + 1);
}

#[test]
fn single_symbol_takes_all_slots_but_one() {
    // 65536 / 4095 = 16 rest 16; the frequency is 4095 = 277 + 0xeea.
    let mut want = unhex("100001000eea");
    want.extend(control(&[(97, 7)]));
    want.push(0);
    assert_eq!(ans1_encode(b"a"), want);
    assert_eq!(ans_nibble_encode(b"a"), unhex("001004006eb6eb38001c000000"));
}

#[test]
fn known_bytes_of_a_short_word() {
    let word = b"abracadabra";
    let mut tab = unhex("01d406005f1d4630");
    tab.extend(control(&[(97, 7), (98, 7), (99, 7), (100, 7), (114, 7)]));
    tab.push(0);
    let mut want = unhex("1c4b9b555500");
    want.extend(&tab[..]);
    assert_eq!(ans1_encode(word), want);
    assert_eq!(ans1_decode(&want, 11).unwrap(), word);
    let mut want = Vec::new();
    for s in [
        0x23191u32, 0x57a16, 0x57fe8, 0x23191, 0xb0a6e, 0x23191, 0xafca7, 0x23191, 0x57a16, 0x57fe8,
        0x23191,
    ] {
        want.extend(s.to_le_bytes());
    }
    for _ in 11..32 {
        want.extend(65536u32.to_le_bytes());
    }
    want.extend(&tab[..]);
    assert_eq!(ans32_encode(word), want);
    assert_eq!(ans32_decode(&want, 11).unwrap(), word);
    assert_eq!(
        ans_nibble_encode(word),
        unhex("85491c07e4f012fc060576a6a51d428df86dfc000000")
    );
}

#[test]
fn known_sums_of_longer_inputs() {
    let text = b"the quick brown fox jumps over the lazy dog. ".repeat(40);
    let few = xorshift(0x9e3779b9, 30000, |x| (x >> 9) % 5);
    let small = xorshift(12345, 20000, |x| if x % 4 == 0 { x >> 8 } else { x % 12 });
    for (src, one, wide, nib) in [
        (
            &text,
            (1118, 0x73719f382980625cu64),
            (1212, 0xd2520eda01ef85a1u64),
            (1506, 0xa6e3e1261518f1b2u64),
        ),
        (
            &few,
            (8815, 0x9c4359d5fdce896b),
            (8911, 0x2f81d175886b93ef),
            (13272, 0xb32f43f929f6498),
        ),
        (
            &small,
            (13039, 0xaef47d07c57c3e9e),
            (13133, 0xcbec9bb3b25f3dd7),
            (16165, 0xd4af72444c533bc6),
        ),
    ] {
        let c = ans1_encode(src);
        assert_eq!((c.len(), fnv(&c)), one);
        assert_eq!(ans1_decode(&c, src.len()).unwrap(), *src);
        let c = ans32_encode(src);
        assert_eq!((c.len(), fnv(&c)), wide);
        assert_eq!(ans32_decode(&c, src.len()).unwrap(), *src);
        let c = ans_nibble_encode(src);
        assert_eq!((c.len(), fnv(&c)), nib);
        assert_eq!(ans_nibble_decode(&c, src.len()).unwrap(), *src);
    }
}

#[test]
fn framed_form_starts_with_the_length() {
    let c = compress(b"abracadabra");
    assert_eq!(&c[..4], &[11, 0, 0, 0]);
    assert_eq!(&c[4..], &ans1_encode(b"abracadabra")[..]);
    assert_eq!(decompress(&c[..3]), Err(Error::WrongSourceSize));
}

#[test]
fn coders_refuse_what_they_cannot_read() {
    assert_eq!(ans1_decode(&[], 1), Err(Error::OutOfInputData));
    assert_eq!(ans1_decode(&[1], 1), Err(Error::UnsupportedTable));
    assert_eq!(ans1_decode(&[0], 1), Err(Error::WrongSourceSize));
    assert_eq!(ans_nibble_decode(&[0; 5], 1), Err(Error::WrongSourceSize));
    // A table that announces nibbles that are not there.
    let mut t = control(&[(3, 5)]);
    t.push(0);
    assert_eq!(ans1_decode(&t, 1), Err(Error::OutOfInputData));
    // Tables that are there, but no state.
    let mut t = control(&[(3, 4)]);
    t.push(0);
    assert_eq!(ans1_decode(&t, 1), Err(Error::WrongSourceSize));
    assert_eq!(ans32_decode(&t, 1), Err(Error::WrongSourceSize));
    assert_eq!(ans_nibble_decode(&[0; 6], 1), Err(Error::WrongSourceSize));
    // More slots than there are.
    let mut t = vec![0xff, 0xff, 0xff];
    t.extend(control(&[(1, 7), (2, 7)]));
    t.push(0);
    assert_eq!(ans1_decode(&t, 1), Err(Error::UnsupportedTable));
    // Words that run out.
    let c = ans1_encode(&[1, 2, 3, 4, 5, 6, 7, 8]);
    assert_eq!(ans1_decode(&c, 100), Err(Error::OutOfInputData));
    let c = ans32_encode(&xorshift(9, 64, |x| x >> 5));
    assert_eq!(ans32_decode(&c, 1000), Err(Error::OutOfInputData));
    let c = ans_nibble_encode(&[0x12, 0x34, 0x56]);
    assert_eq!(ans_nibble_decode(&c, 100), Err(Error::OutOfInputData));
}

#[test]
fn fewer_symbols_can_be_decoded_than_were_coded() {
    let src = xorshift(77, 500, |x| (x >> 7) % 40);
    for n in [0usize, 1, 31, 32, 33, 250] {
        assert_eq!(ans1_decode(&ans1_encode(&src), n).unwrap(), &src[..n]);
        assert_eq!(ans32_decode(&ans32_encode(&src), n).unwrap(), &src[..n]);
        assert_eq!(ans_nibble_decode(&ans_nibble_encode(&src), n).unwrap(), &src[..n]);
    }
}
