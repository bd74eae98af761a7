//! The error kinds the address engine reports.

use vstd::prelude::*;
use vstd::string::StringExecFns;

verus! {

/// Why an address, prefix or range expression was rejected.
#[derive(Clone, Copy, Debug, PartialEq, Eq, Structural)]
pub enum AddrError {
    /// The expected separator is missing.
    InvalidFormat,
    /// The address portion is not a well-formed address literal.
    InvalidAddress,
    /// The prefix portion is not a number, or lies outside the width.
    InvalidPrefix,
    /// The end of a range precedes its start.
    RangeOrder,
}

/// The display text of each error kind.
pub open spec fn spec_error_text(e: AddrError) -> Seq<char> {
    match e {
        AddrError::InvalidFormat => "invalid format: missing separator"@,
        AddrError::InvalidAddress => "invalid address"@,
        AddrError::InvalidPrefix => "invalid prefix"@,
        AddrError::RangeOrder => "range end precedes range start"@,
    }
}

impl AddrError {
    /// A short description of the error.
    pub fn message(&self) -> (r: String)
        ensures
            r@ == spec_error_text(*self),
    {
        match self {
            AddrError::InvalidFormat => String::from_str("invalid format: missing separator"),
            AddrError::InvalidAddress => String::from_str("invalid address"),
            AddrError::InvalidPrefix => String::from_str("invalid prefix"),
            AddrError::RangeOrder => String::from_str("range end precedes range start"),
        }
    }
}

} // verus!
