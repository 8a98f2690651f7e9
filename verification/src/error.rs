//! Errors of the codec.

use vstd::prelude::*;

verus! {

/// Why a file could not be read, encoded or decoded.
#[derive(Debug, PartialEq, Eq)]
pub enum Error {
    /// The bytes are not what the format requires.
    Format(&'static str),
    /// A valid file that this codec does not handle.
    Unsupported(&'static str),
    /// The data ends before a structure it announces.
    Truncated,
    /// The compressor or decompressor reported a failure.
    Zstd(String),
    /// The decoded file does not match the size or digest recorded with it.
    Integrity(&'static str),
}

/// The result type of the codec.
pub type Result<T> = core::result::Result<T, Error>;

/// The message of an error: a prefix naming its kind, then its detail.
pub open spec fn spec_message(e: Error) -> Seq<char> {
    match e {
        Error::Format(m) => "invalid ARW: "@ + m@,
        Error::Unsupported(m) => "unsupported ARW: "@ + m@,
        Error::Truncated => "truncated file"@,
        Error::Zstd(m) => "zstd: "@ + m@,
        Error::Integrity(m) => "integrity check failed: "@ + m@,
    }
}

impl Error {
    /// The message of the error, as the command line prints it.
    pub fn message(&self) -> (s: String)
        ensures
            s@ == spec_message(*self),
    {
        match self {
            Error::Format(m) => {
                let mut s = String::from_str("invalid ARW: ");
                s.append(m);
                s
            },
            Error::Unsupported(m) => {
                let mut s = String::from_str("unsupported ARW: ");
                s.append(m);
                s
            },
            Error::Truncated => String::from_str("truncated file"),
            Error::Zstd(m) => {
                let mut s = String::from_str("zstd: ");
                s.append(m.as_str());
                s
            },
            Error::Integrity(m) => {
                let mut s = String::from_str("integrity check failed: ");
                s.append(m);
                s
            },
        }
    }
}

} // verus!
