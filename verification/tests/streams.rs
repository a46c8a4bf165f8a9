//! Blocks with a bound, streams, indexes and random access.
use iguana::stream::frames::Frames;
use iguana::stream::pipeline::compress_blocks;
use iguana::stream::splitter::Splitter;
use iguana::stream::{
    compress, decompress, Index, Reader, SeekReader, SeekTo, StreamError, Writer,
    DEFAULT_BLOCK_SIZE, HEADER_LEN,
};
use iguana::{block, iguana_compress, EntropyMode, Error};

const STREAM_MAGIC: &[u8; 4] = b"IGZS";

fn corpus(n: usize) -> Vec<u8> {
    let base = b"the quick brown fox jumps over the lazy dog. ";
    let mut v = Vec::with_capacity(n);
    let mut i = 0u32;
    while v.len() < n {
        v.extend_from_slice(base);
        v.extend_from_slice(&i.to_le_bytes());
        i += 1;
    }
    v.truncate(n);
    v
}

fn incompressible(n: usize) -> Vec<u8> {
    let mut x: u32 = 0x9e3779b9;
    (0..n)
        .map(|_| {
            x ^= x << 13;
            x ^= x >> 17;
            x ^= x << 5;
            (x >> 9) as u8
        })
        .collect()
}

fn written(data: &[u8], entropy: EntropyMode, block_size: usize) -> Vec<u8> {
    let mut w = Writer::with_options(Vec::new(), entropy, block_size);
    w.write_all(data).unwrap();
    w.finish().unwrap()
}

fn read_all(stream: &[u8]) -> Result<Vec<u8>, StreamError> {
    let mut out = Vec::new();
    Reader::new(stream.to_vec()).read_to_end(&mut out)?;
    Ok(out)
}

fn read_exact(sr: &mut SeekReader, n: usize) -> Vec<u8> {
    let mut out = Vec::new();
    while out.len() < n {
        let mut b = vec![0u8; n - out.len()];
        let k = sr.read(&mut b).unwrap();
        assert!(k > 0, "stream too short");
        out.extend_from_slice(&b[..k]);
    }
    out
}

fn roundtrip(data: &[u8], entropy: EntropyMode, block_size: usize, write_chunk: usize) {
    let mut w = Writer::with_options(Vec::new(), entropy, block_size);
    for piece in data.chunks(write_chunk.max(1)) {
        w.write_all(piece).unwrap();
    }
    let framed = w.finish().unwrap();
    assert_eq!(&framed[..4], STREAM_MAGIC, "missing stream magic");

    let out = read_all(&framed).unwrap();
    assert_eq!(
        out,
        data,
        "stream round-trip mismatch ({:?}, {} B, block {}, chunk {})",
        entropy,
        data.len(),
        block_size,
        write_chunk
    );

    let mut r = Reader::new(framed);
    let mut out2 = Vec::new();
    let mut b = [0u8; 1];
    loop {
        let n = r.read(&mut b).unwrap();
        if n == 0 {
            break;
        }
        out2.push(b[0]);
    }
    assert_eq!(out2, data, "byte-at-a-time read mismatch");
}

#[test]
fn roundtrips_sizes_modes_blocks() {
    let mut rng = 0x9e3779b9u32;
    let mut next = || {
        rng ^= rng << 13;
        rng ^= rng >> 17;
        rng ^= rng << 5;
        rng
    };
    let make = |n: usize| -> Vec<u8> {
        (0..n).map(|i| b"the quick brown fox jumps over "[i % 31]).collect()
    };
    let sizes = [0usize, 1, 63, 64, 100, 4096, 65536, 65537, 200_000];
    for &bs in &[64usize, 4096, 65536, DEFAULT_BLOCK_SIZE] {
        for &n in &sizes {
            let data = make(n);
            for mode in
                [EntropyMode::Off, EntropyMode::Ans32, EntropyMode::Ans1, EntropyMode::AnsNibble]
            {
                roundtrip(&data, mode, bs, 7919);
            }
        }
    }
    let rnd: Vec<u8> = (0..150_000).map(|_| next() as u8).collect();
    roundtrip(&rnd, EntropyMode::Ans32, 16 * 1024, 4096);
    roundtrip(&rnd, EntropyMode::Off, 8 * 1024, 1);
}

#[test]
fn empty_stream_is_valid() {
    let framed = Writer::new(Vec::new()).finish().unwrap();
    assert_eq!(framed.len(), HEADER_LEN + 4 + 24);
    let out = read_all(&framed).unwrap();
    assert!(out.is_empty());
    let mut sr = SeekReader::new(framed).unwrap();
    assert_eq!(sr.total_uncompressed(), 0);
    assert_eq!(sr.read(&mut [0u8; 4]).unwrap(), 0);
}

#[test]
fn bad_magic_errors() {
    let mut out = Vec::new();
    let err = Reader::new(b"NOPEx\x00\x00\x00\x00".to_vec()).read_to_end(&mut out).unwrap_err();
    assert_eq!(err, StreamError::BadMagic);
}

#[test]
fn mt_output_is_identical_to_st() {
    let data: Vec<u8> = (0..500_000u32).map(|i| (i % 67) as u8).collect();
    let bs = 64 * 1024;
    let st_out = written(&data, EntropyMode::Ans32, bs);
    for threads in [2usize, 3, 4, 8] {
        let mt = compress(&data, threads, EntropyMode::Ans32, bs).unwrap();
        assert_eq!(mt, st_out, "MT({threads}) output != ST output");
    }
}

#[test]
fn mt_cross_roundtrips() {
    let data: Vec<u8> =
        (0..400_000u32).map(|i| b"the quick brown fox "[(i as usize) % 20]).collect();
    let bs = 32 * 1024;
    let comp = compress(&data, 4, EntropyMode::Ans32, bs).unwrap();
    let out = decompress(&comp, 4).unwrap();
    assert_eq!(out, data, "MT->MT round-trip");
    let out2 = read_all(&comp).unwrap();
    assert_eq!(out2, data, "MT->ST round-trip");
    let st_comp = written(&data, EntropyMode::Ans32, bs);
    let out3 = decompress(&st_comp, 4).unwrap();
    assert_eq!(out3, data, "ST->MT round-trip");
}

#[test]
fn mt_threads_one_falls_back() {
    let data = vec![42u8; 200_000];
    let a = compress(&data, 1, EntropyMode::Ans32, 4096).unwrap();
    let b = decompress(&a, 1).unwrap();
    assert_eq!(b, data);
}

#[test]
fn seek_random_access() {
    let data: Vec<u8> = (0..500_000u32).map(|i| (i % 251) as u8).collect();
    let bs = 16 * 1024;
    let framed = written(&data, EntropyMode::Ans32, bs);

    let mut sr = SeekReader::new(framed).unwrap();
    assert_eq!(sr.total_uncompressed(), data.len() as u64);
    for &off in &[
        0usize,
        1,
        12_345,
        bs - 1,
        bs,
        bs + 7,
        250_000,
        data.len() - 100,
        data.len() - 1,
    ] {
        sr.seek(SeekTo::Start(off as u64)).unwrap();
        let buf = read_exact(&mut sr, 1000.min(data.len() - off));
        assert_eq!(buf, &data[off..off + buf.len()], "mismatch at offset {off}");
    }

    sr.seek(SeekTo::End(-500)).unwrap();
    let tail = read_exact(&mut sr, 500);
    assert_eq!(tail, &data[data.len() - 500..]);
    assert_eq!(sr.read(&mut [0u8; 8]).unwrap(), 0);

    sr.seek(SeekTo::Start(data.len() as u64 + 100)).unwrap();
    assert_eq!(sr.read(&mut [0u8; 8]).unwrap(), 0);

    let mt = compress(&data, 4, EntropyMode::Ans32, bs).unwrap();
    let mut sr2 = SeekReader::new(mt).unwrap();
    sr2.seek(SeekTo::Start(123_456)).unwrap();
    let b = read_exact(&mut sr2, 2000);
    assert_eq!(b, &data[123_456..123_456 + 2000]);
}

#[test]
fn seek_no_index_errors() {
    assert!(SeekReader::new(vec![0u8; 64]).is_err());
}

#[test]
fn mt_decompress_propagates_corruption() {
    let data: Vec<u8> = (0..100_000u32).map(|i| (i % 13) as u8).collect();
    let mut comp = compress(&data, 4, EntropyMode::Ans32, 8192).unwrap();
    comp[20] ^= 0xff;
    match decompress(&comp, 4) {
        Ok(out) => assert_ne!(out, data, "corruption silently produced original"),
        Err(_) => {}
    }
}

#[test]
fn small_blocks_force_many_frames() {
    let data: Vec<u8> = (0..100_000u32).map(|i| (i % 17) as u8).collect();
    let framed = written(&data, EntropyMode::Ans32, 1024);
    assert_eq!(read_all(&framed).unwrap(), data);
    assert!(framed.len() < data.len());
}

#[test]
fn block_roundtrip_and_reported_decoded_len() {
    for &len in &[0usize, 1, 63, 64, 500, 5000] {
        let data = corpus(len);
        let enc = block::encode(&data, EntropyMode::Ans32);
        assert_eq!(block::decoded_len(&enc).unwrap(), len, "decoded_len {len}");
        assert_eq!(block::decode(&enc).unwrap(), data, "roundtrip {len}");
    }
}

#[test]
fn block_encode_output_stays_within_max_encoded_len() {
    for &len in &[64usize, 100, 1000, 9000, 65536] {
        let data = incompressible(len);
        let enc = block::encode(&data, EntropyMode::Ans32);
        assert!(
            enc.len() <= block::max_encoded_len(len),
            "len={len}: encoded {} > bound {}",
            enc.len(),
            block::max_encoded_len(len)
        );
        assert_eq!(block::decode(&enc).unwrap(), data);
    }
}

#[test]
fn block_try_encode_returns_none_when_compression_does_not_help() {
    // A twentieth of 8192 bytes, rounded up.
    let min_saved = 410;
    let rnd = incompressible(8192);
    assert!(block::try_encode(&rnd, EntropyMode::Ans32, min_saved).is_none());
    let text = corpus(8192);
    let enc = block::try_encode(&text, EntropyMode::Ans32, min_saved).expect("should compress");
    assert!(enc.len() < text.len());
    assert_eq!(block::decode(&enc).unwrap(), text);
}

fn write_with_detached_index(data: &[u8], block_size: usize) -> (Vec<u8>, Index) {
    let mut w = Writer::with_options(Vec::new(), EntropyMode::Ans32, block_size);
    w.write_all(data).unwrap();
    w.finish_index().unwrap()
}

#[test]
fn seek_reader_with_external_index_reads_correct_bytes() {
    let data = corpus(4000);
    let (stream, index) = write_with_detached_index(&data, 256);

    let restored = Index::load(&index.to_bytes()).unwrap();
    assert_eq!(restored, index);
    assert_eq!(index.total_uncompressed(), data.len() as u64);
    assert!(index.len() > 1, "expected multiple blocks");
    assert!(!index.is_empty());

    assert!(SeekReader::new(stream.clone()).is_err());

    let mut sr = SeekReader::with_index(stream, &index).unwrap();
    for &off in &[0u64, 100, 255, 256, 1000, 3999, 4000, 9999] {
        sr.seek(SeekTo::Start(off)).unwrap();
        let mut got = vec![0u8; 64];
        let n = sr.read(&mut got).unwrap();
        let start = (off as usize).min(data.len());
        assert_eq!(&got[..n], &data[start..start + n], "seek to {off}");
        assert_eq!(n == 0, off >= 4000);
    }
}

#[test]
fn index_find_locates_block_containing_offset() {
    let data = corpus(4000);
    let (_stream, index) = write_with_detached_index(&data, 256);
    for &off in &[0u64, 300, 1234, 3999] {
        let (_comp, uncomp) = index.find(off);
        assert!(uncomp <= off, "find({off}) uncomp {uncomp} must be <= offset");
        assert!(off < uncomp + 256);
        assert_eq!(uncomp % 256, 0);
    }
}

#[test]
fn reader_fallback_returns_uncompressed_input_unchanged() {
    let plain = b"this is not an iguana stream, just raw bytes \x00\x01\x02".repeat(50);
    let mut out = Vec::new();
    Reader::new(plain.clone()).fallback(true).read_to_end(&mut out).unwrap();
    assert_eq!(out, plain);

    let mut tiny_out = Vec::new();
    Reader::new(b"hi".to_vec()).fallback(true).read_to_end(&mut tiny_out).unwrap();
    assert_eq!(tiny_out, b"hi");
}

#[test]
fn reader_decodes_compressed_with_fallback_on_and_errors_with_it_off() {
    let data = corpus(3000);
    let stream = written(&data, EntropyMode::Ans32, 512);

    let mut out = Vec::new();
    Reader::new(stream).fallback(true).read_to_end(&mut out).unwrap();
    assert_eq!(out, data);

    let mut sink = Vec::new();
    assert!(Reader::new(b"not a stream".to_vec()).read_to_end(&mut sink).is_err());
}

#[test]
fn reader_skip_advances_to_offset_then_reads_the_rest() {
    let data = corpus(5000);
    let stream = written(&data, EntropyMode::Ans32, 256);

    for &k in &[0u64, 50, 255, 256, 257, 1000, 4999, 5000, 99999] {
        let mut r = Reader::new(stream.clone());
        let skipped = r.skip(k).unwrap();
        assert_eq!(skipped, k.min(data.len() as u64), "skip({k}) count");
        let mut rest = Vec::new();
        r.read_to_end(&mut rest).unwrap();
        let start = (k as usize).min(data.len());
        assert_eq!(rest, &data[start..], "skip({k}) remainder");
    }
}

#[test]
fn reader_read_then_skip_then_read_returns_correct_bytes() {
    let data = corpus(4096);
    let stream = written(&data, EntropyMode::Ans32, 300);

    let mut r = Reader::new(stream);
    let mut head = vec![0u8; 100];
    assert_eq!(r.read(&mut head).unwrap(), 100);
    assert_eq!(head, &data[..100]);
    let skipped = r.skip(900).unwrap();
    assert_eq!(skipped, 900);
    let mut rest = Vec::new();
    r.read_to_end(&mut rest).unwrap();
    assert_eq!(rest, &data[1000..]);
}

#[test]
fn reader_reset_decodes_a_second_stream() {
    let (d1, d2) = (corpus(2000), corpus(3500));
    let s1 = written(&d1, EntropyMode::Ans32, 256);
    let s2 = written(&d2, EntropyMode::Ans32, 256);

    let mut r = Reader::new(s1);
    let mut out = Vec::new();
    r.read_to_end(&mut out).unwrap();
    assert_eq!(out, d1);

    r.reset(s2);
    out.clear();
    r.read_to_end(&mut out).unwrap();
    assert_eq!(out, d2);
}

#[test]
fn writer_finish_in_place_then_reset_writes_two_streams() {
    let (d1, d2) = (corpus(2000), corpus(3000));
    let mut w = Writer::with_options(Vec::new(), EntropyMode::Ans32, 256);

    w.write_all(&d1).unwrap();
    w.finish_in_place().unwrap();
    let s1 = w.reset(Vec::new());

    w.write_all(&d2).unwrap();
    w.finish_in_place().unwrap();
    let s2 = w.reset(Vec::new());

    for (s, d) in [(s1, d1), (s2, d2)] {
        assert_eq!(read_all(&s).unwrap(), d);
        assert_eq!(s, written(&d, EntropyMode::Ans32, 256));
    }
}

#[test]
fn padding_rounds_detached_stream_length_to_a_multiple() {
    let data = corpus(5000);
    let pad = 512usize;
    let mut w = Writer::with_options(Vec::new(), EntropyMode::Ans32, 1024)
        .padding(pad)
        .padding_src(vec![0x5a; pad]);
    w.write_all(&data).unwrap();
    let (stream, _index) = w.finish_index().unwrap();

    assert_eq!(stream.len() % pad, 0, "detached stream not padded to multiple");
    assert_eq!(stream[stream.len() - 1], 0x5a);
    let out = read_all(&stream).unwrap();
    assert_eq!(out, data, "padded stream must still decode");
}

#[test]
fn ignore_stream_identifier_reads_a_headerless_body() {
    let data = corpus(2000);
    let stream = written(&data, EntropyMode::Ans32, 256);

    let body = stream[5..].to_vec();
    let mut out = Vec::new();
    Reader::new(body).ignore_stream_identifier(true).read_to_end(&mut out).unwrap();
    assert_eq!(out, data);
}

#[test]
fn entropy_mode_from_minlz_level_maps_as_documented() {
    assert_eq!(EntropyMode::from_minlz_level(-1), EntropyMode::Off);
    assert_eq!(EntropyMode::from_minlz_level(0), EntropyMode::Off);
    assert_eq!(EntropyMode::from_minlz_level(1), EntropyMode::Off);
    assert_eq!(EntropyMode::from_minlz_level(2), EntropyMode::Ans32);
    assert_eq!(EntropyMode::from_minlz_level(3), EntropyMode::Ans32);
}

#[test]
fn known_stream() {
    // Header, two frames, end marker, index of two entries, its length, its magic.
    let mut w = Writer::with_options(b"sink:".to_vec(), EntropyMode::Ans32, 4);
    w.write_all(b"hel").unwrap();
    w.write_all(b"lo").unwrap();
    let out = w.finish().unwrap();
    let mut want = b"sink:IGZS\x01\x07\x00\x00\x00hell\x84\x80\x84".to_vec();
    want.extend(b"\x04\x00\x00\x00o\x81\x80\x81\x00\x00\x00\x00");
    for v in [5u64, 2, 5, 0, 16, 4] {
        want.extend(v.to_le_bytes());
    }
    want.extend(b"\x30\x00\x00\x00IGZX");
    assert_eq!(out, want);
}

#[test]
fn pieces_do_not_matter() {
    let data = corpus(1000);
    let whole = written(&data, EntropyMode::Ans1, 300);
    for step in [1usize, 7, 299, 300, 301, 1000] {
        let mut w = Writer::with_options(Vec::new(), EntropyMode::Ans1, 300);
        for p in data.chunks(step) {
            assert_eq!(w.write(p).unwrap(), p.len());
        }
        assert_eq!(w.finish().unwrap(), whole, "{step}");
    }
    // A block size of zero stands for one.
    assert_eq!(
        written(b"ab", EntropyMode::Off, 0),
        written(b"ab", EntropyMode::Off, 1)
    );
    assert_eq!(
        compress(b"ab", 2, EntropyMode::Off, 0).unwrap(),
        written(b"ab", EntropyMode::Off, 1)
    );
}

#[test]
fn padding_is_filled_from_its_source_and_then_with_zeros() {
    let mut w = Writer::with_options(Vec::new(), EntropyMode::Off, 8)
        .padding(16)
        .padding_src(vec![1, 2, 3, 4, 5, 6, 7, 8, 9]);
    // 5 + 4 bytes leave 7 to 16.
    w.finish_in_place().unwrap();
    let s = w.reset(Vec::new());
    assert_eq!(s[9..16], [1, 2, 3, 4, 5, 6, 7]);
    // The source goes on where it was.
    let (s, i) = w.finish_index().unwrap();
    assert_eq!(s[9..], [8, 9, 0, 0, 0, 0, 0]);
    assert!(i.is_empty());
    // No padding if the length fits already, or if it is at most one.
    for n in [0usize, 1, 3, 9] {
        let w = Writer::new(Vec::new()).padding(n);
        assert_eq!(w.finish_index().unwrap().0.len(), 9, "{n}");
    }
}

#[test]
fn taking_the_output_keeps_the_stream_going() {
    let data = corpus(900);
    let mut w = Writer::with_options(Vec::new(), EntropyMode::Ans32, 100);
    let mut out = Vec::new();
    for p in data.chunks(130) {
        w.write_all(p).unwrap();
        out.extend(w.take_output());
    }
    out.extend(w.finish().unwrap());
    assert_eq!(out, written(&data, EntropyMode::Ans32, 100));
}

#[test]
fn readers_name_the_error() {
    let good = written(&corpus(300), EntropyMode::Off, 100);
    let err = |s: &[u8]| read_all(s).unwrap_err();
    assert_eq!(err(b""), StreamError::BadMagic);
    assert_eq!(err(b"IGZ"), StreamError::BadMagic);
    assert_eq!(err(b"IGZS"), StreamError::UnsupportedVersion);
    assert_eq!(err(b"IGZS\x02"), StreamError::UnsupportedVersion);
    assert_eq!(err(b"IGZS\x01\x01\x00\x00\x10"), StreamError::FrameTooLarge);
    assert_eq!(err(b"IGZS\x01\x05\x00\x00\x00abc"), StreamError::UnexpectedEof);
    assert_eq!(
        err(b"IGZS\x01\x02\x00\x00\x00\x85\x81"),
        StreamError::DecodeFailed(Error::UnrecognizedCommand)
    );
    // A marker that is cut off ends the stream.
    assert_eq!(read_all(b"IGZS\x01\x00\x00").unwrap(), b"");
    assert_eq!(read_all(b"IGZS\x01").unwrap(), b"");
    // What comes before an error is handed out.
    let mut bad = good.clone();
    let second = Index::load(&good[good.len() - 8 - 64..good.len() - 8]).unwrap().find(100).0;
    bad[second as usize + 3] = 0xff;
    let mut out = Vec::new();
    let mut r = Reader::new(bad.clone());
    assert_eq!(r.read_to_end(&mut out), Err(StreamError::FrameTooLarge));
    assert_eq!(out, &corpus(300)[..100]);
    // Skipping reads the length of a block without decoding it.
    let mut r = Reader::new(b"IGZS\x01\x02\x00\x00\x00\x85\x81\x00\x00\x00\x00".to_vec());
    assert_eq!(r.skip(5), Ok(1));
    let mut r = Reader::new(b"IGZS\x01\x01\x00\x00\x00\x01".to_vec());
    assert_eq!(r.skip(5), Err(StreamError::BadBlock(Error::OutOfInputData)));
    // Taken apart, a stream needs all of its header.
    assert_eq!(decompress(b"IGZS", 2), Err(StreamError::UnexpectedEof));
    assert_eq!(decompress(b"NOPE\x01", 2), Err(StreamError::BadMagic));
    assert_eq!(decompress(b"IGZS\x02", 2), Err(StreamError::UnsupportedVersion));
    assert_eq!(decompress(b"IGZS\x01\x01\x00\x00\x10", 2), Err(StreamError::FrameTooLarge));
    assert_eq!(
        decompress(b"IGZS\x01\x05\x00\x00\x00abc", 2),
        Err(StreamError::UnexpectedEof)
    );
    assert_eq!(
        decompress(b"IGZS\x01\x02\x00\x00\x00\x85\x81", 2),
        Err(StreamError::DecodeFailed(Error::UnrecognizedCommand))
    );
    for threads in [0usize, 1, 2] {
        assert_eq!(decompress(&good, threads).unwrap(), corpus(300));
    }
}

#[test]
fn skipping_nothing_reads_the_header() {
    let mut r = Reader::new(b"NOPE!".to_vec());
    assert_eq!(r.skip(0), Err(StreamError::BadMagic));
    let mut r = Reader::new(written(b"abc", EntropyMode::Off, 2));
    assert_eq!(r.skip(0), Ok(0));
    assert_eq!(r.skip(1), Ok(1));
    let mut out = Vec::new();
    r.read_to_end(&mut out).unwrap();
    assert_eq!(out, b"bc");
    let mut r = Reader::new(b"just text".to_vec()).fallback(true);
    assert_eq!(r.skip(5), Ok(5));
    out.clear();
    r.read_to_end(&mut out).unwrap();
    assert_eq!(out, b"text");
}

#[test]
fn seek_readers_name_the_error() {
    let good = written(&corpus(300), EntropyMode::Off, 100);
    let err = |s: Vec<u8>| SeekReader::new(s).err().unwrap();
    assert_eq!(err(vec![0; 12]), StreamError::TooShort);
    assert_eq!(err(vec![0; 64]), StreamError::NoSeekIndex);
    let mut s = good.clone();
    let n = s.len();
    s[n - 8] = 15;
    assert_eq!(err(s), StreamError::BadIndexLength);
    let mut s = good.clone();
    s[n - 8] = 48;
    assert_eq!(err(s), StreamError::IndexSizeMismatch);
    let mut s = good.clone();
    s[0] = 0;
    assert_eq!(err(s), StreamError::NotAStream);
    let mut s = good.clone();
    s[5..9].fill(0);
    assert_eq!(err(s), StreamError::BadFrame);
    assert_eq!(Index::load(&[0; 15]), Err(StreamError::IndexTooShort));
    assert_eq!(Index::load(&[1; 16]), Err(StreamError::IndexSizeMismatch));
    let i = Index { entries: vec![(5, 0)], total: 1 };
    let with = |s: &[u8]| SeekReader::with_index(s.to_vec(), &i).err().unwrap();
    assert_eq!(with(b"IGZS"), StreamError::UnexpectedEof);
    assert_eq!(with(b"IGZS\x01"), StreamError::UnexpectedEof);
    assert_eq!(with(b"IGZS\x01\x05\x00\x00\x00abc"), StreamError::UnexpectedEof);
    assert_eq!(
        with(b"IGZS\x01\x02\x00\x00\x00\x85\x81"),
        StreamError::DecodeFailed(Error::UnrecognizedCommand)
    );
}

#[test]
fn seeking_is_relative_to_start_end_and_place() {
    let data = corpus(1000);
    let mut sr = SeekReader::new(written(&data, EntropyMode::Ans32, 64)).unwrap();
    assert_eq!(sr.seek(SeekTo::Start(10)), Ok(10));
    assert_eq!(read_exact(&mut sr, 100), &data[10..110]);
    assert_eq!(sr.seek(SeekTo::Current(-50)), Ok(60));
    assert_eq!(read_exact(&mut sr, 5), &data[60..65]);
    assert_eq!(sr.seek(SeekTo::Current(-1000)), Ok(0));
    assert_eq!(sr.seek(SeekTo::End(-1)), Ok(999));
    assert_eq!(read_exact(&mut sr, 1), &data[999..]);
    assert_eq!(sr.seek(SeekTo::End(i64::MAX)), Ok(1000));
    assert_eq!(sr.seek(SeekTo::End(i64::MIN)), Ok(0));
    assert_eq!(sr.seek_uncompressed(u64::MAX), Ok(1000));
    assert_eq!(read_exact(&mut SeekReader::new(written(&data, EntropyMode::Off, 7)).unwrap(), 1000), data);
}

#[test]
fn index_bytes_and_search() {
    let i = Index { entries: vec![(5, 0), (50, 10), (99, 20)], total: 25 };
    let b = i.to_bytes();
    let mut want = Vec::new();
    for v in [25u64, 3, 5, 0, 50, 10, 99, 20] {
        want.extend(v.to_le_bytes());
    }
    assert_eq!(b, want);
    assert_eq!(Index::load(&b).unwrap(), i);
    assert_eq!(i.clone(), i);
    for (t, r) in [(0, (5, 0)), (9, (5, 0)), (10, (50, 10)), (19, (50, 10)), (20, (99, 20))] {
        assert_eq!(i.find(t), r);
    }
    assert_eq!(i.find(1000), (99, 20));
    assert_eq!(Index::empty().find(3), (0, 0));
}

#[test]
fn try_encode_counts_what_is_saved() {
    let text = corpus(1000);
    let n = block::encode(&text, EntropyMode::Off).len();
    assert!(block::try_encode(&text, EntropyMode::Off, 1000 - n).is_some());
    assert!(block::try_encode(&text, EntropyMode::Off, 1000 - n + 1).is_none());
    // Nothing has to be saved: the block is encoded even if it grows.
    assert_eq!(
        block::try_encode(b"hello", EntropyMode::Off, 0).unwrap(),
        b"hello\x85\x80\x85"
    );
    assert!(block::try_encode(b"hello", EntropyMode::Off, 1).is_none());
}

#[test]
fn block_bound_is_that_of_the_stored_form() {
    assert_eq!(block::max_encoded_len(0), 3);
    assert_eq!(block::max_encoded_len(63), 66);
    assert_eq!(block::max_encoded_len(64), 69);
    assert_eq!(block::max_encoded_len(block::MAX_BLOCK_SIZE), 8388608 + 9);
    // Repetitive content whose control area alone would be longer than it saves.
    for n in 64..200usize {
        for k in 1..8u8 {
            let data: Vec<u8> = (0..n).map(|i| (i % 37) as u8 % (k * 5)).collect();
            let enc = block::encode(&data, EntropyMode::Ans1);
            assert!(enc.len() <= block::max_encoded_len(n));
            assert_eq!(block::decode(&enc).unwrap(), data);
            assert!(enc.len() <= iguana_compress(&data, EntropyMode::Ans1).len());
        }
    }
}

/// Splits `data`, given in pieces, compresses the blocks and frames them.
fn framed_by_parts(data: &[u8], block_size: usize, piece: usize, embed: bool) -> (Vec<u8>, Index) {
    let mut splitter = Splitter::new(block_size);
    let mut blocks = Vec::new();
    for chunk in data.chunks(piece) {
        blocks.extend(splitter.push(chunk));
    }
    blocks.extend(splitter.finish());
    let packed = compress_blocks(&blocks, EntropyMode::Ans32);
    let mut frames = Frames::new(Vec::new());
    frames.write_header();
    for (p, b) in packed.iter().zip(&blocks) {
        frames.put_frame(p, b.len());
    }
    let index = frames.write_stream_end(embed, 0, &[]);
    (frames.into_output(), index)
}

#[test]
fn concurrent_writer_output_is_byte_identical_to_single_threaded() {
    let data = corpus(100_000);
    let st = written(&data, EntropyMode::Ans32, 4096);
    for piece in [777usize, 1, 4096, 100_000] {
        let (mt, _) = framed_by_parts(&data, 4096, piece, true);
        assert_eq!(mt, st, "piece={piece}: MT output != ST output");
        assert_eq!(read_all(&mt).unwrap(), data, "piece={piece}: decode mismatch");
    }
}

#[test]
fn concurrent_writer_detached_index_seeks() {
    let data = corpus(50_000);
    let (stream, index) = framed_by_parts(&data, 1024, data.len(), false);
    assert_eq!(index.total_uncompressed(), data.len() as u64);
    let mut sr = SeekReader::with_index(stream, &index).unwrap();
    sr.seek(SeekTo::Start(40_000)).unwrap();
    let mut got = vec![0u8; 64];
    let n = sr.read(&mut got).unwrap();
    assert!(n > 0);
    assert_eq!(&got[..n], &data[40_000..40_000 + n]);
}

#[test]
fn splitter_gives_out_full_blocks() {
    let mut s = Splitter::new(3);
    assert!(s.push(b"ab").is_empty());
    assert_eq!(s.pending(), 2);
    assert_eq!(s.push(b"cdefgh"), [b"abc", b"def"]);
    assert_eq!(s.finish().unwrap(), b"gh");
    assert!(s.finish().is_none());
    // Blocks have one byte at least.
    let mut s = Splitter::new(0);
    assert_eq!(s.push(b"xy"), [b"x", b"y"]);
    assert_eq!(s.pending(), 0);
}

#[test]
fn frame_fronts_are_told_apart() {
    check_front(&[], Ok(None));
    check_front(&[5, 0, 0], Ok(None));
    check_front(&[0, 0, 0, 0], Ok(None));
    check_front(&[5, 0, 0, 0], Ok(Some(5)));
    check_front(&[5, 1, 0, 0, 9], Ok(Some(261)));
    check_front(&[0xff, 0xff, 0xff, 0xff], Err(StreamError::FrameTooLarge));
}

fn check_front(b: &[u8], want: Result<Option<usize>, StreamError>) {
    let got = iguana::stream::pipeline::next_frame(b);
    assert_eq!(format!("{got:?}"), format!("{want:?}"));
}

#[test]
fn streams_with_huge_blocks_come_back() {
    let data = vec![0u8; 17 << 20];
    let s = written(&data, EntropyMode::Off, data.len());
    assert!(read_all(&s).unwrap() == data);
    let mut out = Vec::new();
    Reader::new(s.clone()).fallback(true).read_to_end(&mut out).unwrap();
    assert!(out == data);
    let mut out = Vec::new();
    let mut r = Reader::new(s[5..].to_vec()).ignore_stream_identifier(true);
    r.read_to_end(&mut out).unwrap();
    assert!(out == data);
    let mut sr = SeekReader::new(s).unwrap();
    let p = data.len() as u64 - 10;
    assert_eq!(sr.seek_uncompressed(p).unwrap(), p);
    let mut buf = [1u8; 64];
    assert_eq!(sr.read(&mut buf).unwrap(), 10);
    assert_eq!(sr.read(&mut buf).unwrap(), 0);
    assert_eq!(sr.seek_uncompressed(0).unwrap(), 0);
    assert!(read_exact(&mut sr, data.len()) == data);
}

#[test]
fn reads_and_skips_take_turns() {
    let data = corpus(20_000);
    let stream = written(&data, EntropyMode::Ans32, 1024);
    let plain = b"no stream at all, but long enough to be read in turns".repeat(9);
    for (src, want, fallback) in [(stream, &data, false), (plain.clone(), &plain, true)] {
        let mut r = Reader::new(src).fallback(fallback);
        let mut at = 0usize;
        let mut step = 1usize;
        while at < want.len() {
            let mut buf = vec![0u8; step];
            let n = r.read(&mut buf).unwrap();
            assert!(n > 0);
            assert_eq!(buf[..n], want[at..at + n]);
            at += n;
            let k = r.skip(step as u64).unwrap() as usize;
            assert_eq!(k, step.min(want.len() - at));
            at += k;
            step = step * 5 % 2003 + 1;
        }
        assert_eq!(r.read(&mut [0; 9]).unwrap(), 0);
        assert_eq!(r.skip(9).unwrap(), 0);
    }
}

#[test]
fn reads_and_seeks_take_turns() {
    let data = corpus(20_000);
    let mut sr = SeekReader::new(written(&data, EntropyMode::Ans1, 700)).unwrap();
    let mut at = 0usize;
    for step in 1..200usize {
        let mut buf = vec![0u8; step * 7];
        let n = sr.read(&mut buf).unwrap();
        assert_eq!(buf[..n], data[at..at + n]);
        let to = step * 7919 % (data.len() + 50);
        at = to.min(data.len());
        assert_eq!(sr.seek_uncompressed(to as u64).unwrap(), at as u64);
        assert_eq!(sr.seek(SeekTo::Current(0)).unwrap(), at as u64);
    }
}

#[test]
fn index_leads_to_every_frame() {
    let data = corpus(5000);
    let mut w = Writer::with_options(Vec::new(), EntropyMode::Ans32, 512);
    for piece in [&data[..100], &[], &data[100..3000], &data[3000..]] {
        assert_eq!(w.write(piece).unwrap(), piece.len());
    }
    let (sink, index) = w.finish_index().unwrap();
    assert_eq!(index.total_uncompressed(), 5000);
    assert_eq!(index.len(), 10);
    let mut c = 5usize;
    for (i, b) in data.chunks(512).enumerate() {
        assert_eq!(index.find(i as u64 * 512), (c as u64, i as u64 * 512));
        let packed = iguana_compress(b, EntropyMode::Ans32);
        assert_eq!(sink[c..c + 4], (packed.len() as u32).to_le_bytes());
        assert_eq!(sink[c + 4..c + 4 + packed.len()], packed);
        c += 4 + packed.len();
    }
    assert_eq!(sink[..5], *b"IGZS\x01");
    assert_eq!(sink[c..], [0; 4]);
}
