//! The buffer pool and the MinLZ pieces.
use iguana::minlz;
use iguana::pool::BufferPool;

#[test]
fn pool_gives_empty_buffers_and_keeps_a_bounded_number() {
    let mut p = BufferPool::new(2, 64);
    assert!(p.acquire().is_empty());
    for _ in 0..3 {
        p.release(vec![1, 2, 3]);
    }
    // Two were kept, with what they had allocated; the third is new.
    for _ in 0..2 {
        let b = p.acquire();
        assert!(b.is_empty());
        assert!(b.capacity() >= 3);
    }
    let b = p.acquire();
    assert!(b.is_empty());
    assert!(b.capacity() >= 64);
}

#[test]
fn minlz_errors_have_texts_and_causes() {
    let all: Vec<(minlz::Error<u8, &str>, &str)> = vec![
        (minlz::Error::Corrupt, "minlz: corrupt stream"),
        (minlz::Error::Crc, "minlz: CRC mismatch"),
        (minlz::Error::TooLarge, "minlz: block too large"),
        (minlz::Error::Unsupported, "minlz: unsupported chunk or stream"),
        (minlz::Error::Block(7), "minlz: block decode failed: "),
        (minlz::Error::Io("broken"), "minlz: I/O error: "),
    ];
    for (e, text) in all {
        assert_eq!(e.message(), text);
        match e.source() {
            Some(minlz::Cause::Block(b)) => assert_eq!(*b, 7),
            Some(minlz::Cause::Io(i)) => assert_eq!(*i, "broken"),
            None => assert!(!text.ends_with(": ")),
        }
        match e.into_io() {
            Ok(i) => assert_eq!(i, "broken"),
            Err(e) => assert_eq!(e.message(), text),
        }
    }
}

#[test]
fn minlz_blocks_are_told_by_flag_or_name() {
    assert!(minlz::is_block(true, None));
    assert!(minlz::is_block(false, Some(b"mzb")));
    assert!(!minlz::is_block(false, Some(b"mz")));
    assert!(!minlz::is_block(false, Some(b"mzbx")));
    assert!(!minlz::is_block(false, None));
}
