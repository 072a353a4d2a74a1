//! The errors that the library's operations report.

use vstd::prelude::*;

verus! {

/// What went wrong.
#[derive(Clone, Copy, Debug, PartialEq, Eq, Structural)]
pub enum ErrorKind {
    /// An argument is outside what the operation accepts.
    InvalidInput,
    /// Stored data contradicts itself.
    InvalidData,
    /// The thing asked for does not exist.
    NotFound,
    /// The thing to be made exists already.
    AlreadyExists,
    /// There is no room left.
    StorageFull,
    /// The operation is not offered for this kind of object.
    Unsupported,
}

/// An error: its kind, and a message for the log.
#[derive(Clone, Copy, Debug)]
pub struct Error {
    /// What went wrong.
    pub kind: ErrorKind,
    /// The message for the log.
    pub message: &'static str,
}

impl Error {
    /// An error of `kind` that says `message`.
    pub fn new(kind: ErrorKind, message: &'static str) -> (r: Self)
        ensures
            r.kind == kind,
            r.message == message,
    {
        Error { kind, message }
    }
}

} // verus!
