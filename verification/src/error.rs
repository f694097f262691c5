//! The error taxonomy of the codec.
//!
//! Every error is fatal to the decode or encode call that raised it: nothing
//! is retried internally, and a caller is expected to treat any error as
//! terminal for the stream it came from.

use vstd::prelude::*;

verus! {

/// Everything that can go wrong while decoding or encoding one value.
#[derive(Clone, Copy, Debug, PartialEq, Eq, Structural)]
pub enum Error {
    /// Fewer bytes were available than the current step required.
    Eof,
    /// A boolean frame matched neither of the two closed literal encodings.
    ExpectedBoolean,
    /// An array header was required but its length hint was the null marker.
    ExpectedArray,
    /// The sigil `$` of a bulk string was missing.
    ExpectedDollarSign,
    /// The sigil `*` of an array header was missing.
    ExpectedStarSign,
    /// An array header declared fewer elements than the declared shape needs.
    ExpectedMoreBulkString,
    /// A unit shape was requested but the wire held a present bulk string.
    ExpectedNone,
    /// A bulk string did not hold the UTF-8 encoding of exactly one character.
    ExpectedChar,
    /// The byte after a bulk string's payload was not LF.
    ExpectedLF,
    /// A record or variant tag on the wire differed from the declared name.
    MismatchedName,
    /// An array header's count differed from the declared arity.
    MismatchedLengthHint,
    /// A length-hint line held something other than digits or the null marker,
    /// or a value too large for this machine.
    BadLengthHint,
    /// A numeric bulk string held a non-digit, was null, or overflowed the
    /// target integer width.
    BadNumContent,
    /// A line did not end with CR immediately before its LF.
    UnbalancedCRLF,
    /// A one-shot buffer decode succeeded but left unconsumed bytes behind.
    TrailingBytes,
}

} // verus!
