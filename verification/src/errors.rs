//! The typed failures of the codec.

use vstd::prelude::*;

verus! {

/// Everything that can go wrong while encoding or decoding a contract
/// class.  Decoding never substitutes a default for bad input: every
/// failure is reported as one of these values, so a truncated or corrupted
/// record is distinguishable from a legitimately absent one.
#[derive(Clone, Copy, Debug, PartialEq, Eq, Structural)]
pub enum CodecError {
    /// Fewer bytes remain than a fixed-width field requires.
    TruncatedInput,
    /// Fewer than the 16 header bytes of a program frame are available.
    FrameTooShort,
    /// A program frame announces more body bytes than are available.
    FrameBodyTruncated,
    /// The bytes inside a program frame are not a valid program body.
    MalformedProgramBody,
    /// An entry-point-type byte matches none of the known discriminants.
    UnrecognizedDiscriminant,
    /// The leading version byte matches no known contract-class version.
    UnknownContractClassVersion,
    /// A string field holds bytes that are not valid UTF-8.
    InvalidStringEncoding,
    /// The encoded class would exceed the storage size ceiling.
    ContractTooLarge,
}

} // verus!
