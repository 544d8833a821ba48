//! Error kinds reported by the library.
use vstd::prelude::*;

verus! {

/// Failures surfaced by the image pipeline.
#[derive(Debug, Clone)]
pub enum Error {
    /// A sink write failed; the payload carries the description supplied
    /// by the surrounding runtime.
    IOError(String),
    /// An encoder was handed input it cannot represent (for example a
    /// zero-sized image for a protocol that needs at least one pixel).
    EncodingInvariant(String),
    /// A color or face literal could not be parsed.
    ParseError(String),
    /// The terminal rejected a previously transferred image id.
    ProtocolRejected(u32),
}

impl Error {
    /// True for the parse-failure variant; lets callers sort errors
    /// without a derived equality over the payload strings.
    pub fn is_parse_error(&self) -> (r: bool)
        ensures
            r == self is ParseError,
    {
        match self {
            Error::ParseError(_) => true,
            _ => false,
        }
    }
}

} // verus!
