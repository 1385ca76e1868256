//! The error taxonomy of the library.

use vstd::prelude::*;

verus! {

/// A named datapoint or a weather code could not be resolved.
#[derive(Clone, Copy, PartialEq, Eq, Structural, Debug)]
pub enum LookupError {
    /// No datapoint of the requested name is present in the event.
    MissingParameter,
    /// The numeric weather code lies outside the valid range.
    InvalidCode,
}

/// An event index lay outside the report's sequence of events.
#[derive(Clone, Copy, PartialEq, Eq, Structural, Debug)]
pub struct IndexError {
    pub index: usize,
    pub len: usize,
}

/// A document could not be decoded: where it went wrong, and why.
#[derive(PartialEq, Eq, Debug)]
pub struct DecodeError {
    /// Path of the field being read when decoding failed.
    pub path: String,
    /// What was wrong there.
    pub reason: String,
}

impl DecodeError {
    /// A human-readable cause: the field path and the reason.
    pub fn message(&self) -> (r: String)
        ensures
            r@ == self.path@ + ": "@ + self.reason@,
    {
        let mut m = self.path.clone();
        m.append(": ");
        m.append(self.reason.as_str());
        m
    }
}

/// Resolving a location to coordinates failed.
#[derive(Clone, Copy, PartialEq, Eq, Structural, Debug)]
pub enum ResolveError {
    /// The geocoding response lacks the expected result path.
    MissingField,
    /// The geocoding response is not well-formed.
    Decode,
    /// A raw coordinate argument does not follow the coordinate grammar.
    InvalidFormat,
    /// The geocoding call itself failed; raised by the caller that performs
    /// the network request.
    Transport,
}

} // verus!
