//! The failures that the storage engine reports.

use vstd::prelude::*;

verus! {

#[derive(Debug, Copy, Clone, PartialEq, Eq, Structural)]
pub enum Error {
    /// A read or write on the underlying bytes could not be completed.
    Io,
    /// The roots log does not end in a whole pair that the diary covers.
    CorruptRootsLog,
    /// Stored data or an argument breaks a rule that the engine relies on.
    InvariantViolation,
    /// The engine has stopped and takes no further requests.
    QueueClosed,
}

impl Error {
    /// A short description for messages.
    pub fn message(&self) -> (s: &'static str)
        ensures
            s@ == (match *self {
                Error::Io => "i/o failure"@,
                Error::CorruptRootsLog => "corrupt roots log"@,
                Error::InvariantViolation => "invariant violation"@,
                Error::QueueClosed => "queue closed"@,
            }),
    {
        match self {
            Error::Io => "i/o failure",
            Error::CorruptRootsLog => "corrupt roots log",
            Error::InvariantViolation => "invariant violation",
            Error::QueueClosed => "queue closed",
        }
    }
}

} // verus!
