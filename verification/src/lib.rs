//! Conversion between the two textual forms used by SNMP tooling:
//! dotted-decimal object identifiers, and the `OID = TYPE: VALUE` lines
//! that walk utilities print.
//!
//! `types` holds the OID codec and its laws, `parser` the walk-line
//! parser, `error` the shared error vocabulary, and `asn1` the trusted
//! interface to the protocol stack's identifier representation.

pub mod asn1;
pub mod error;
pub mod parser;
pub mod types;
