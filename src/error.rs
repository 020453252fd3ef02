//! Errors returned by construction and parsing.
use vstd::prelude::*;

verus! {

/// Errors returned by construction and parsing operations.
#[derive(Clone, Copy, Debug, PartialEq, Eq, Structural)]
pub enum Error {
    /// The IP address or prefix couldn't be parsed.
    AddrParse,
    /// The IP prefix length, or a range's length bounds, were out of bounds.
    PrefixLen,
    /// The IP prefix range couldn't be parsed.
    RangeParse,
}

impl Error {
    /// A short description of the error.
    pub fn message(&self) -> (r: &'static str) {
        match self {
            Error::AddrParse => "invalid IP address syntax",
            Error::PrefixLen => "invalid IP prefix length",
            Error::RangeParse => "invalid IP prefix range",
        }
    }
}

} // verus!
