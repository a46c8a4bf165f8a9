//! Errors returned by the decoders.
use vstd::prelude::*;

verus! {

/// What a decoder found wrong with its input.
#[derive(Debug, Clone, Copy, PartialEq, Eq, Structural)]
pub enum Error {
    /// The input ended before a required byte or nibble could be read.
    OutOfInputData,
    /// The input is shorter than the minimum framing requires.
    WrongSourceSize,
    /// The frequency table cannot be used: its form is not supported, or its
    /// frequencies add up to more slots than there are.
    UnsupportedTable,
    /// An unrecognized top-level command byte.
    UnrecognizedCommand,
    /// A recognized feature that this decoder does not handle.
    Unsupported,
    /// A back-reference points outside the produced output.
    CorruptOffset,
}

} // verus!
