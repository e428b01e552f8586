//! Error type of the codec.
use vstd::prelude::*;
use vstd::string::StringExecFns;

verus! {

/// Error raised by the codec.
#[derive(Debug)]
pub enum Error {
    /// Invalid input parameter or data.
    InvalidInput(String),
    /// Output buffer is too small.
    BufferTooSmall,
    /// Unexpected end of stream.
    EndOfStream,
    /// I/O error.
    IoError(String),
}

/// Result type with the codec's [`Error`].
pub type Result<T> = core::result::Result<T, Error>;

impl Error {
    /// Human-readable description of the error.
    pub fn to_string(&self) -> (r: String)
        ensures
            match self {
                Error::InvalidInput(m) => r@ == "invalid input: "@ + m@,
                Error::BufferTooSmall => r@ == "buffer too small"@,
                Error::EndOfStream => r@ == "end of stream"@,
                Error::IoError(m) => r@ == "I/O error: "@ + m@,
            },
    {
        match self {
            Error::InvalidInput(msg) => String::from_str("invalid input: ").concat(msg.as_str()),
            Error::BufferTooSmall => String::from_str("buffer too small"),
            Error::EndOfStream => String::from_str("end of stream"),
            Error::IoError(msg) => String::from_str("I/O error: ").concat(msg.as_str()),
        }
    }
}

/// Builds an [`Error::InvalidInput`] carrying the given message.
pub fn invalid(msg: &str) -> (e: Error)
    ensures
        e matches Error::InvalidInput(m) && m@ == msg@,
{
    Error::InvalidInput(msg.to_owned())
}

} // verus!
