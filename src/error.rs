use crate::de::DeserializeError;
use crate::ser::SerializeError;
use vstd::prelude::*;

verus! {

/// Declares `std::io::Error`, which the crate's error type carries, to the verifier; its
/// contents are not looked at.
#[verifier::external_type_specification]
#[verifier::external_body]
pub struct ExIoError(std::io::Error);

/// An error of this library.
#[derive(Debug)]
pub enum Error {
    /// Reading or writing the underlying stream failed.
    IOError(std::io::Error),
    /// A record could not be turned into text.
    FormatError,
    /// Reading a record failed.
    DeserializeError(DeserializeError),
    /// Writing a record failed.
    SerializeError(SerializeError),
}

impl From<DeserializeError> for Error {
    fn from(e: DeserializeError) -> (r: Error) {
        Error::DeserializeError(e)
    }
}

impl vstd::std_specs::convert::FromSpecImpl<DeserializeError> for Error {
    open spec fn obeys_from_spec() -> bool {
        true
    }

    open spec fn from_spec(e: DeserializeError) -> Error {
        Error::DeserializeError(e)
    }
}

impl From<SerializeError> for Error {
    fn from(e: SerializeError) -> (r: Error) {
        Error::SerializeError(e)
    }
}

impl vstd::std_specs::convert::FromSpecImpl<SerializeError> for Error {
    open spec fn obeys_from_spec() -> bool {
        true
    }

    open spec fn from_spec(e: SerializeError) -> Error {
        Error::SerializeError(e)
    }
}

} // verus!
