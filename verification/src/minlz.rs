//! Pieces around the MinLZ codec: its stream error, and how its files are told
//! apart.
use vstd::prelude::*;

verus! {

/// What went wrong with a MinLZ stream, `B` being an error of the block codec and
/// `I` one of the source or sink.
#[derive(Debug)]
#[non_exhaustive]
pub enum Error<B, I> {
    /// The stream is malformed.
    Corrupt,
    /// A checksum does not match.
    Crc,
    /// A block is larger than allowed.
    TooLarge,
    /// The stream uses a feature that is not supported.
    Unsupported,
    /// A block could not be decoded.
    Block(B),
    /// The source or sink failed.
    Io(I),
}

/// The error behind an [`Error`].
pub enum Cause<'a, B, I> {
    Block(&'a B),
    Io(&'a I),
}

impl<B, I> Error<B, I> {
    /// The text of the error, which its cause follows if it has one.
    pub open spec fn text(self) -> &'static str {
        match self {
            Error::Corrupt => "minlz: corrupt stream",
            Error::Crc => "minlz: CRC mismatch",
            Error::TooLarge => "minlz: block too large",
            Error::Unsupported => "minlz: unsupported chunk or stream",
            Error::Block(_) => "minlz: block decode failed: ",
            Error::Io(_) => "minlz: I/O error: ",
        }
    }

    /// The text of the error, which its cause follows if it has one.
    pub fn message(&self) -> (t: &'static str)
        ensures
            t@ == self.text()@,
    {
        match self {
            Error::Corrupt => "minlz: corrupt stream",
            Error::Crc => "minlz: CRC mismatch",
            Error::TooLarge => "minlz: block too large",
            Error::Unsupported => "minlz: unsupported chunk or stream",
            Error::Block(_) => "minlz: block decode failed: ",
            Error::Io(_) => "minlz: I/O error: ",
        }
    }

    /// The error behind this one.
    pub fn source(&self) -> (c: Option<Cause<'_, B, I>>)
        ensures
            match *self {
                Error::Block(b) => c matches Some(Cause::Block(x)) && *x == b,
                Error::Io(i) => c matches Some(Cause::Io(x)) && *x == i,
                _ => c is None,
            },
    {
        match self {
            Error::Block(b) => Some(Cause::Block(b)),
            Error::Io(i) => Some(Cause::Io(i)),
            _ => None,
        }
    }

    /// The error of the source or sink, if it is one; else the error itself, to be
    /// reported as invalid data.
    pub fn into_io(self) -> (r: Result<I, Error<B, I>>)
        ensures
            match self {
                Error::Io(i) => r == Ok::<I, Error<B, I>>(i),
                _ => r == Err::<I, Error<B, I>>(self),
            },
    {
        match self {
            Error::Io(i) => Ok(i),
            e => Err(e),
        }
    }
}

/// The texts of the errors.
pub proof fn lemma_texts<B, I>(b: B, i: I)
    ensures
        Error::<B, I>::Corrupt.text()@ == "minlz: corrupt stream"@,
        Error::<B, I>::Crc.text()@ == "minlz: CRC mismatch"@,
        Error::<B, I>::TooLarge.text()@ == "minlz: block too large"@,
        Error::<B, I>::Unsupported.text()@ == "minlz: unsupported chunk or stream"@,
        Error::<B, I>::Block(b).text()@ == "minlz: block decode failed: "@,
        Error::<B, I>::Io(i).text()@ == "minlz: I/O error: "@,
{
}

/// Whether a file holds a single block rather than a stream: it was said to, or
/// its name ends in `.mzb`.
pub fn is_block(block: bool, extension: Option<&[u8]>) -> (r: bool)
    ensures
        r == (block || (extension matches Some(e) && e@ == seq![0x6du8, 0x7a, 0x62])),
{
    match extension {
        Some(e) => {
            let mzb: bool = e.len() == 3 && e[0] == 0x6d && e[1] == 0x7a && e[2] == 0x62;
            proof {
                if mzb {
                    assert(e@ =~= seq![0x6du8, 0x7a, 0x62]);
                }
            }
            block || mzb
        },
        None => block,
    }
}

} // verus!
