//! yespower: the yespower proof-of-work hash, versions 0.5 and 1.0,
//! computed from a byte input and a parameter set, with its specification.
//!
//! - [`sha256`] holds the SHA-256, HMAC-SHA256 and PBKDF2-HMAC-SHA256 calls
//!   and the word/byte layout helpers.
//! - [`yespower`](crate::yespower) holds the algorithm: SMix, pwxform,
//!   Salsa20 and the finalization, each stated against a spec function.

use vstd::prelude::*;

pub mod sha256;
mod yespower;

// The entry point, so that callers write `yespower::yespower(...)`, and
// the algorithm's building blocks.
pub use crate::yespower::index::{integerify, p2floor, wrap};
pub use crate::yespower::pwxform::{pwxform, PwxformCtx};
pub use crate::yespower::salsa::salsa20;
pub use crate::yespower::smix::smix2;
pub use crate::yespower::{new_pwxform_ctx, yespower, yespower_mix};

verus! {

/// yespower algorithm version (upstream codes 5 and 10).
#[derive(Debug, Clone, Copy, PartialEq, Eq, Structural)]
pub enum Version {
    /// yespower 0.5: the input is the PBKDF2 salt; an optional final
    /// HMAC + SHA-256 personalization step.
    V0_5,
    /// yespower 1.0: the personalization (or nothing) is the PBKDF2 salt;
    /// finishes with HMAC-SHA256 over the mixed state.
    V1_0,
}

impl Version {
    /// The numeric code of the version (`YESPOWER_0_5` = 5,
    /// `YESPOWER_1_0` = 10), as written in the published test vectors.
    pub fn code(&self) -> (c: u32)
        ensures
            c == match self {
                Version::V0_5 => 5u32,
                Version::V1_0 => 10u32,
            },
    {
        match self {
            Version::V0_5 => 5,
            Version::V1_0 => 10,
        }
    }
}

/// Parameters for one yespower invocation.
#[derive(Debug, Clone, Copy)]
pub struct Params<'a> {
    /// Algorithm flavour.
    pub version: Version,
    /// Main memory cost parameter (a power of two).
    pub n: u32,
    /// Block-size factor (the working block is `128 r` bytes).
    pub r: u32,
    /// Optional personalization ("Client Key") bytes.
    pub pers: Option<&'a [u8]>,
}

/// Error returned when parameters are invalid.
#[derive(Debug, Clone, Copy, PartialEq, Eq, Structural)]
pub enum Error {
    /// `n` / `r` outside the accepted ranges (power-of-two `n` in `1024..=512 * 1024`, `r` in `8..=32`).
    InvalidParams,
}

impl Error {
    /// The human-readable message of this error.
    pub fn message(&self) -> (m: String)
        ensures
            m@ == "invalid yespower parameters"@,
    {
        match self {
            Error::InvalidParams => "invalid yespower parameters".to_owned(),
        }
    }
}

} // verus!
