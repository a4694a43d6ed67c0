//! The errors of the store.

use vstd::prelude::*;

verus! {

/// What went wrong when the operating system was asked for something.
#[derive(Debug, Clone)]
pub struct IoFailure {
    /// The input ended before everything asked for had been read.
    pub unexpected_eof: bool,
    /// What the system said.
    pub detail: String,
}

#[derive(Debug)]
pub enum Error {
    Io(IoFailure),
    Uuid,
    InvalidIndex(String),
    PathError(String),
    CorruptChunk(String),
    CorruptPool(String),
    PropertyError(String),
    Utf8Error,
    ParseBoolError,
    ParseIntError,
    NonAsciiKind,
    BadKindLength,
    MissingChunk,
    NotAPool,
}

impl Error {
    /// The error of input that stopped short.
    pub fn unexpected_eof() -> (e: Error)
        ensures
            e matches Error::Io(f) && f.unexpected_eof && f.detail@ == "unexpected end of input"@,
    {
        Error::Io(IoFailure { unexpected_eof: true, detail: "unexpected end of input".to_owned() })
    }

    /// Is this the error of input that stopped short?
    pub fn is_unexpected_eof(&self) -> (b: bool)
        ensures
            b == (*self matches Error::Io(f) && f.unexpected_eof),
    {
        match self {
            Error::Io(f) => f.unexpected_eof,
            _ => false,
        }
    }
}

} // verus!
