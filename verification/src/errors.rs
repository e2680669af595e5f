//! Error kinds shared by the padding codec, the mode engine, the
//! structural detector and the recovery attack.

use vstd::prelude::*;

verus! {

/// Everything that can go wrong in this crate.
///
/// - `InvalidLength`: input to a mode operation is not a positive multiple
///   of the block size, or a key or IV has the wrong length.
/// - `MisalignedInput`: the structural detector was given a ciphertext whose
///   length is not a multiple of the probed block size.
/// - `MalformedPadding`: padding removal found inconsistent trailing bytes.
/// - `ModeNotEcb`: the attack's precondition check failed: no repeated
///   ciphertext block was observed for any probed block size.
#[derive(Clone, Copy, Debug, PartialEq, Eq, Structural)]
pub enum CryptoError {
    InvalidLength,
    MisalignedInput,
    MalformedPadding,
    ModeNotEcb,
}

impl CryptoError {
    /// A human-readable description of the error.
    pub fn message(&self) -> (r: &'static str)
    {
        match self {
            CryptoError::InvalidLength => "input length is not a positive multiple of the block size",
            CryptoError::MisalignedInput => "the length of the ciphertext must be a multiple of the blocksize",
            CryptoError::MalformedPadding => "trailing bytes are not well-formed padding",
            CryptoError::ModeNotEcb => "ECB or blocksize could not be detected",
        }
    }
}

} // verus!
