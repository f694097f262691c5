//! A schema-less codec between a small value model (booleans, integers,
//! characters, byte strings, absence, sequences, records and tagged variants)
//! and a length-prefixed, CRLF-terminated wire format of bulk strings and
//! array headers.
//!
//! The caller describes the expected structure of a value with a [`shape::Shape`]
//! declaration; the decode engine consumes exactly the matching wire bytes and
//! builds a [`value::Value`], reporting a precise [`error::Error`] on any
//! mismatch. Encoding is the structural mirror: a value already knows its own
//! shape, so [`ser::to_bytes`] is total over the value model.

pub mod de;
pub mod error;
pub mod grammar;
pub mod laws;
pub mod ser;
pub mod shape;
pub mod value;
