//! The typed failures of the codec.
use vstd::prelude::*;

verus! {

/// Everything that can go wrong while writing or reading a container.
#[derive(Debug, Clone, Copy, PartialEq, Eq, Structural)]
pub enum Error {
    /// The input ended before a record or section was complete.
    Io,
    /// An integer did not fit the width the wire format gives it.
    SizeError,
    /// The stream does not begin with the container magic.
    WrongMagic,
    /// The flags word holds bits outside the recognized set; carries the raw word.
    WrongFlags(u16),
    /// A module declares zero segments.
    EmptyModule,
    /// A structural inconsistency not caught by a narrower kind.
    MalformedBinary,
    /// A path was not NUL-terminated inside the paths chunk.
    PathReadError,
    /// A path holds a byte outside printable ASCII.
    PathEncodingError,
    /// The LZMA2 decoder rejected a compressed section.
    DecompressError,
}

impl Error {
    /// A short name for the error, for log lines.
    pub fn describe(&self) -> (r: &'static str)
        ensures
            r@.len() > 0,
    {
        let r = match self {
            Error::Io => "truncated input",
            Error::SizeError => "integer out of range",
            Error::WrongMagic => "wrong magic",
            Error::WrongFlags(_) => "unknown flag bits",
            Error::EmptyModule => "module without segments",
            Error::MalformedBinary => "malformed binary",
            Error::PathReadError => "unterminated path",
            Error::PathEncodingError => "path is not ascii",
            Error::DecompressError => "lzma2 decode failure",
        };
        proof {
            reveal_strlit("truncated input");
            reveal_strlit("integer out of range");
            reveal_strlit("wrong magic");
            reveal_strlit("unknown flag bits");
            reveal_strlit("module without segments");
            reveal_strlit("malformed binary");
            reveal_strlit("unterminated path");
            reveal_strlit("path is not ascii");
            reveal_strlit("lzma2 decode failure");
        }
        r
    }
}

} // verus!
