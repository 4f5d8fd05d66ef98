//! The closed set of error kinds raised at the crate's boundaries.
use vstd::prelude::*;

verus! {

/// The kind of a failure.
#[derive(Clone, Copy, Debug, PartialEq, Eq, Structural)]
pub enum AccumulatorErrorKind {
    /// A value cannot be interpreted as a big integer or prime of the
    /// required size.
    InvalidType,
    /// Reserved for strict insertion interfaces; insertion here is
    /// idempotent and never raises it.
    DuplicateValueSupplied,
    /// Removal of an absent element, a membership witness for an absent
    /// element, or a non-membership witness for a present element.
    InvalidMemberSupplied,
    /// Malformed bytes at a protocol boundary.
    SerializationError,
}

/// An error with its kind and a short description.
#[derive(Clone, Copy, Debug)]
pub struct AccumulatorError {
    /// The kind of failure.
    pub kind: AccumulatorErrorKind,
    /// A short description for the caller.
    pub message: &'static str,
}

impl AccumulatorError {
    /// Build an error from a kind and a message.
    pub fn from_msg(kind: AccumulatorErrorKind, message: &'static str) -> (r: AccumulatorError)
        ensures
            r.kind == kind,
            r.message == message,
    {
        AccumulatorError { kind, message }
    }

    /// The kind of this error.
    pub fn kind(&self) -> (r: AccumulatorErrorKind)
        ensures
            r == self.kind,
    {
        self.kind
    }
}

} // verus!
