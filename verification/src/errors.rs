//! The error taxonomy of the conversion engine.

use vstd::prelude::*;

verus! {

/// Why a conversion step failed. Every failure is fatal: the engine never
/// recovers, retries or masks an error.
#[derive(Clone, Copy, Debug, PartialEq, Eq, Structural)]
pub enum Hex2BinError {
    /// A byte outside the hex character set was encountered during decoding.
    MalformedHex,
    /// The input, after prefix trimming, does not hold a whole number of
    /// two-character hex pairs.
    OddLength,
    /// The input file is missing, unreadable, or could not be mapped.
    InputAccess,
    /// The output file could not be created, resized or written.
    OutputAccess,
    /// A write committed fewer bytes than requested.
    ShortWrite,
}

} // verus!
