//! The errors that the library reports.

use vstd::prelude::*;

verus! {

/// What went wrong, with a reason for the caller.
#[derive(Debug)]
pub enum Error {
    /// A raw domain that cannot be normalised.
    InvalidDomain(String),
    /// A required configuration value is missing.
    Config(String),
    /// A malformed request: an empty query, or too many queries at once.
    BadRequest(String),
    /// Input that cannot be read, such as a file that is not UTF-8.
    Io(String),
}

impl Error {
    /// The reason carried by the error.
    pub fn message(&self) -> (r: String)
        ensures
            r@ == self.reason(),
    {
        match self {
            Error::InvalidDomain(m) => m.clone(),
            Error::Config(m) => m.clone(),
            Error::BadRequest(m) => m.clone(),
            Error::Io(m) => m.clone(),
        }
    }

    /// The reason carried by the error.
    pub open spec fn reason(&self) -> Seq<char> {
        match self {
            Error::InvalidDomain(m) => m@,
            Error::Config(m) => m@,
            Error::BadRequest(m) => m@,
            Error::Io(m) => m@,
        }
    }
}

} // verus!
