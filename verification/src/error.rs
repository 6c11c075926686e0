//! The error kinds shared by the decoders and encoders.

use vstd::prelude::*;

verus! {

/// Why a decode or an encode was abandoned.
#[derive(Debug, Clone, Copy, PartialEq, Eq, Structural, Hash)]
pub enum Error {
    /// A header field, an offset or a reference does not have the shape the
    /// format demands (this includes the reserved offset `0`).
    InvalidHeader,
    /// The opcode table has no entry for a decoded opcode.
    UnknownOpcode,
    /// An expression node has an unrecognized tag or is cut short.
    InvalidExpr,
    /// The byte stream ended before a complete item could be read.
    TruncatedStream,
}

impl Error {
    /// A short human-readable description of the error.
    pub fn message(&self) -> (text: &'static str)
        ensures
            text@ == spec_message(*self),
    {
        match self {
            Error::InvalidHeader => "invalid stage header",
            Error::UnknownOpcode => "unknown opcode",
            Error::InvalidExpr => "invalid expression",
            Error::TruncatedStream => "unexpected end of stream",
        }
    }
}

/// The text that [`Error::message`] returns.
pub open spec fn spec_message(e: Error) -> Seq<char> {
    match e {
        Error::InvalidHeader => "invalid stage header"@,
        Error::UnknownOpcode => "unknown opcode"@,
        Error::InvalidExpr => "invalid expression"@,
        Error::TruncatedStream => "unexpected end of stream"@,
    }
}

} // verus!
