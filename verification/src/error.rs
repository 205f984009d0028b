//! The ways in which an operation on a configuration store can fail.

use vstd::prelude::*;

verus! {

/// Why an operation failed.
#[derive(Clone, Copy, Debug, PartialEq, Eq, Structural)]
pub enum Error {
    /// No source of the store defines the requested name, or the source
    /// that a removal addresses does not define it.
    NotFound,
    /// The stored bytes are not a value of the requested type, or the number
    /// they spell does not fit the requested width.
    TypeMismatch,
    /// Text was requested and the stored bytes are not valid UTF-8.
    InvalidEncoding,
    /// A backing file could not be read or understood.
    IoError,
    /// A write was attempted on a store without any source.
    NoWritableSource,
}

impl Error {
    /// A short description, suitable for showing to a user.
    pub fn message(&self) -> (text: &'static str)
        ensures
            text@ == self.spec_message()@,
    {
        match self {
            Error::NotFound => "configuration variable not found",
            Error::TypeMismatch => "configuration value has the wrong type",
            Error::InvalidEncoding => "configuration value is not valid utf8",
            Error::IoError => "configuration source could not be loaded",
            Error::NoWritableSource => "configuration has no writable source",
        }
    }

    /// The description that `message` returns.
    pub open spec fn spec_message(&self) -> &'static str {
        match self {
            Error::NotFound => "configuration variable not found",
            Error::TypeMismatch => "configuration value has the wrong type",
            Error::InvalidEncoding => "configuration value is not valid utf8",
            Error::IoError => "configuration source could not be loaded",
            Error::NoWritableSource => "configuration has no writable source",
        }
    }
}

} // verus!
