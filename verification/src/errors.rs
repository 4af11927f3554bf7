//! Error taxonomy for malformed inputs.

use vstd::prelude::*;

verus! {

/// Errors that the codecs can report. Header-level "not present" cases
/// (wrong magic, unknown container version on decode) are not errors; they
/// yield an absent result instead.
#[derive(Debug, Clone, PartialEq, Eq)]
pub enum EarsError {
    /// A magic-pixel cell index fell outside the image.
    InvalidMagicPixelLocation(u32),
    /// An Alfalfa pixel coordinate fell outside the image.
    InvalidAlfalfaPixelPosition(u32, u32),
    /// A pixel coordinate fell outside the image.
    InvalidPixelLocation(u32, u32),
    /// A bit read went past the supplied length.
    TruncatedBitStream,
    /// `read_long`/`write_long` was called with an unsupported bit width.
    NotEnoughSpaceInLongForBitsError(u8),
    /// `read` was called with a bit width over 32.
    NotEnoughSpaceInIntForBitsError(u8),
    /// An Alfalfa record carried a version that the encoder does not know.
    InvalidAlfalfaVersion(u8),
    /// A custom Alfalfa key's first byte was below `'@'` (0x40).
    InvalidAlfalfaEntryName(Vec<u8>),
    /// An Alfalfa key held a byte over 0x7F.
    InvalidAlfalfaEntryNameAscii(Vec<u8>),
    /// The framed Alfalfa payload exceeded the 1428-byte projection bound.
    AlfalfaDataTooLarge(usize),
}

} // verus!
