//! Streams of blocks.
//!
//! A stream is a header, then frames (the length of a block as four bytes, the
//! block), then four zero bytes. Padding and a seek index may follow.
pub mod frames;
pub mod index;
pub mod pipeline;
pub mod reader;
pub mod seek;
pub mod splitter;
pub mod writer;

pub use crate::stream::index::Index;
pub use crate::stream::pipeline::{compress, decompress};
pub use crate::stream::reader::Reader;
pub use crate::stream::seek::{SeekReader, SeekTo};
pub use crate::stream::writer::Writer;

use crate::error::Error;
use vstd::prelude::*;

verus! {

/// Block size of a writer that is not told another one (1 MiB).
pub const DEFAULT_BLOCK_SIZE: usize = 1048576;

/// Length of the stream header.
pub const HEADER_LEN: usize = 5;

/// Longest frame that a reader accepts (256 MiB).
pub const MAX_FRAME_LEN: usize = 268435456;

/// Bytes taken at a time from a source that is passed through (64 KiB).
pub const PASSTHROUGH_CHUNK: usize = 65536;

/// What went wrong with a stream.
#[derive(Debug, Clone, Copy, PartialEq, Eq, Structural)]
pub enum StreamError {
    /// The source does not start with the stream magic.
    BadMagic,
    /// The version of the stream is not supported.
    UnsupportedVersion,
    /// A frame announces more than [`MAX_FRAME_LEN`] bytes.
    FrameTooLarge,
    /// The source ended within a frame or a header.
    UnexpectedEof,
    /// A block could not be decoded.
    DecodeFailed(Error),
    /// The content length of a block could not be read.
    BadBlock(Error),
    /// The bytes of an index are too few.
    IndexTooShort,
    /// The bytes of an index do not match its number of entries.
    IndexSizeMismatch,
    /// The stream is too short to hold a seek index.
    TooShort,
    /// The stream does not end with a seek index.
    NoSeekIndex,
    /// The announced length of the seek index cannot be right.
    BadIndexLength,
    /// The source does not start with a stream header.
    NotAStream,
    /// There is no frame where the index says.
    BadFrame,
}

/// The first four bytes of a stream.
pub open spec fn magic() -> Seq<u8> {
    seq![0x49u8, 0x47, 0x5a, 0x53]
}

/// The version of the format.
pub const STREAM_VERSION: u8 = 1;

/// The header of a stream.
pub open spec fn header() -> Seq<u8> {
    magic().push(STREAM_VERSION)
}

/// The last four bytes of a stream that holds its index.
pub open spec fn index_magic() -> Seq<u8> {
    seq![0x49u8, 0x47, 0x5a, 0x58]
}

/// Whether `b` starts with the stream magic.
pub fn has_magic(b: &[u8]) -> (r: bool)
    ensures
        r == (b@.len() >= 4 && b@.take(4) == magic()),
{
    if b.len() < 4 {
        return false;
    }
    let r: bool = b[0] == 0x49 && b[1] == 0x47 && b[2] == 0x5a && b[3] == 0x53;
    proof {
        let t = b@.take(4);
        if r {
            assert(t =~= magic());
        } else {
            assert(t[0] == b@[0] && t[1] == b@[1] && t[2] == b@[2] && t[3] == b@[3]);
        }
    }
    r
}

/// Whether `b` starts with the header of a stream.
pub fn has_header(b: &[u8]) -> (r: bool)
    ensures
        r == (b@.len() >= 5 && b@.take(5) == header()),
{
    if b.len() < 5 {
        return false;
    }
    let r: bool = b[0] == 0x49 && b[1] == 0x47 && b[2] == 0x5a && b[3] == 0x53 && b[4]
        == STREAM_VERSION;
    proof {
        let t = b@.take(5);
        if r {
            assert(t =~= header());
        } else {
            assert(t[0] == b@[0] && t[1] == b@[1] && t[2] == b@[2] && t[3] == b@[3] && t[4]
                == b@[4]);
        }
    }
    r
}

/// Appends the header of a stream.
pub fn push_header(dst: &mut Vec<u8>)
    ensures
        final(dst)@ == old(dst)@ + header(),
{
    dst.push(0x49);
    dst.push(0x47);
    dst.push(0x5a);
    dst.push(0x53);
    dst.push(STREAM_VERSION);
    assert(dst@ =~= old(dst)@ + header());
}

} // verus!
