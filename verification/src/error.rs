//! The ways in which handling a message can fail.

use vstd::prelude::*;
use vstd::std_specs::convert::FromSpecImpl;

verus! {

/// `std::io::Error`: what a socket reports when sending or receiving fails.
/// Nothing is known of what it holds; it is only carried along.
#[verifier::external_type_specification]
#[verifier::external_body]
pub struct ExIoError(std::io::Error);

/// Why a message could not be handled.
#[derive(Debug)]
pub enum Error {
    /// The bytes given for a header are not exactly twelve.
    InvalidHeader,
    /// The bytes of the question section are no questions: a label or a
    /// pointer is malformed, or the message ends too early.
    InvalidQuestion,
    /// The reply of the upstream resolver holds no answer record where one
    /// is expected.
    InvalidResponse,
    /// Sending to the upstream resolver or receiving from it failed.
    Io(std::io::Error),
}

impl From<std::io::Error> for Error {
    /// A failure of the transport, as an error of this library.
    fn from(source: std::io::Error) -> (error: Error)
        ensures
            error == Error::Io(source),
    {
        Error::Io(source)
    }
}

impl FromSpecImpl<std::io::Error> for Error {
    open spec fn obeys_from_spec() -> bool {
        true
    }

    open spec fn from_spec(source: std::io::Error) -> Error {
        Error::Io(source)
    }
}

} // verus!
