//! The closed set of decode failures, surfaced uniformly by every mode.

use vstd::prelude::*;

verus! {

/// What went wrong. Every failure of the pipeline is one of these four kinds;
/// they are terminal: a single bad field aborts the whole decode.
#[derive(Clone, Copy, Debug, PartialEq, Eq, Structural)]
pub enum ErrorKind {
    /// A `%` escape was not followed by two hex digits.
    InvalidEncoding,
    /// A value's text cannot be coerced to the requested shape, or a
    /// sequence was requested where only a scalar exists (or the reverse).
    InvalidType,
    /// A fixed-arity sequence target received the wrong number of elements.
    InvalidLength,
    /// A failure raised by the driving consumer (e.g. an unknown field).
    Custom,
}

/// A decode failure: its kind, plus the offending bytes where the failing
/// function has them at hand (diagnostic only; contracts pin the kind).
#[derive(Debug)]
pub struct Error {
    pub kind: ErrorKind,
    pub context: Vec<u8>,
}

impl Error {
    /// Builds an error of the given kind carrying the offending bytes.
    pub fn new(kind: ErrorKind, context: Vec<u8>) -> (r: Error)
        ensures
            r.kind == kind,
            r.context@ == context@,
    {
        Error { kind, context }
    }
}

} // verus!
