//! The error type shared by every fallible operation of the crate.

use vstd::prelude::*;

verus! {

/// `std::io::Error`, carried as it is: nothing is known of what it holds.
#[verifier::external_type_specification]
#[verifier::external_body]
pub struct ExIoError(std::io::Error);

/// Why reading or decoding failed.
#[derive(Debug)]
pub enum Error {
    /// The bytes do not have the structure the format prescribes.
    InvalidFormat,
    /// The underlying byte source failed.
    IoError(std::io::Error),
    /// A failure described by its message alone.
    Custom(String),
}

/// Formats a `std::io::Error` with `{}`. The text may come from the operating
/// system, so nothing is claimed of it.
#[verifier::external_body]
fn io_error_text(err: &std::io::Error) -> String {
    format!("{}", err)
}

impl Error {
    /// The message of `InvalidFormat`.
    pub open spec fn invalid_format_text() -> Seq<char> {
        "Invalid format"@
    }

    /// A human-readable description of the error: a fixed text for
    /// `InvalidFormat`, the stored message for `Custom`, and the transport's
    /// own description for `IoError`.
    pub fn message(&self) -> (text: String)
        ensures
            self is InvalidFormat ==> text@ == Self::invalid_format_text(),
            self matches Error::Custom(m) ==> text@ == m@,
    {
        match self {
            Error::InvalidFormat => "Invalid format".to_owned(),
            Error::IoError(err) => io_error_text(err),
            Error::Custom(m) => m.clone(),
        }
    }
}

impl From<std::io::Error> for Error {
    fn from(value: std::io::Error) -> (e: Error) {
        Error::IoError(value)
    }
}

impl vstd::std_specs::convert::FromSpecImpl<std::io::Error> for Error {
    open spec fn obeys_from_spec() -> bool {
        true
    }

    open spec fn from_spec(value: std::io::Error) -> Error {
        Error::IoError(value)
    }
}

} // verus!
