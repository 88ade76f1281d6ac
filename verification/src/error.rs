//! The error values that every fallible operation of the library returns.

use vstd::prelude::*;

verus! {

/// Why a virtual-filesystem operation failed.
#[derive(Clone, Copy, Debug, PartialEq, Eq, Structural)]
pub enum VfsError {
    /// The path resolves in no store.
    NotFound,
    /// The path resolves to a file where a directory was required.
    NotADirectory,
    /// The path resolves to a directory where a file was required.
    IsADirectory,
    /// The path bytes are not well-formed text.
    InvalidEncoding,
    /// The requested seek would land on an unrepresentable position.
    InvalidSeek,
    /// The stream ended before an exact read was satisfied.
    UnexpectedEof,
    /// The backing store failed (permissions, device errors, exhaustion).
    Io,
}

impl VfsError {
    /// A short human-readable name for the error.
    pub fn describe(&self) -> (r: &'static str)
        ensures
            r@.len() > 0,
    {
        proof {
            reveal_strlit("entry not found");
            reveal_strlit("not a directory");
            reveal_strlit("is a directory");
            reveal_strlit("invalid encoding");
            reveal_strlit("invalid seek position");
            reveal_strlit("unexpected end of stream");
            reveal_strlit("i/o failure");
        }
        match self {
            VfsError::NotFound => "entry not found",
            VfsError::NotADirectory => "not a directory",
            VfsError::IsADirectory => "is a directory",
            VfsError::InvalidEncoding => "invalid encoding",
            VfsError::InvalidSeek => "invalid seek position",
            VfsError::UnexpectedEof => "unexpected end of stream",
            VfsError::Io => "i/o failure",
        }
    }
}

} // verus!
