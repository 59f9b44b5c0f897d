//! The error vocabulary shared across the protocol stack.
//!
//! This crate itself produces only `Error::ParseOidError` and
//! `Error::InvalidLine`; the remaining variants belong to the transport
//! and PDU layers that embed these parsing errors in their own failures.

use vstd::prelude::*;

verus! {

#[verifier::external_type_specification]
#[verifier::external_body]
pub struct ExFromUtf8Error(std::string::FromUtf8Error);

/// Relies on `std::string::FromUtf8Error`'s `Clone`; nothing about the
/// error value is claimed of the result.
pub assume_specification[ <std::string::FromUtf8Error as Clone>::clone ](
    e: &std::string::FromUtf8Error,
) -> std::string::FromUtf8Error;

/// Failures of the surrounding I/O layer.
#[derive(Debug, Clone, PartialEq)]
pub enum NetGraphError {
    IoError(String),
    UnknownError,
}

/// One error type for the whole stack. `ParseOidError` carries the
/// offending dotted-decimal text verbatim; `InvalidLine` carries the
/// whole walk-output line that had no `=` separator.
#[derive(Debug, Clone, PartialEq)]
pub enum Error {
    Unspecified,
    NoSuchObject(rasn::types::ObjectIdentifier),
    NoSuchInstance,
    EndOfMibView,
    ParseOidError(String),
    ParseOctectError(std::string::FromUtf8Error),
    InvalidPacket,
    IoError(NetGraphError),
    Unreachable,
    InvalidLine(String),
}

impl From<NetGraphError> for Error {
    fn from(e: NetGraphError) -> (r: Error) {
        Error::IoError(e)
    }
}

impl vstd::std_specs::convert::FromSpecImpl<NetGraphError> for Error {
    open spec fn obeys_from_spec() -> bool {
        true
    }

    open spec fn from_spec(e: NetGraphError) -> Error {
        Error::IoError(e)
    }
}

impl From<std::string::FromUtf8Error> for Error {
    fn from(e: std::string::FromUtf8Error) -> (r: Error) {
        Error::ParseOctectError(e)
    }
}

impl vstd::std_specs::convert::FromSpecImpl<std::string::FromUtf8Error> for Error {
    open spec fn obeys_from_spec() -> bool {
        true
    }

    open spec fn from_spec(e: std::string::FromUtf8Error) -> Error {
        Error::ParseOctectError(e)
    }
}

} // verus!
