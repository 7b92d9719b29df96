//! Errors reported by pattern registration.
//!
//! All errors are detected synchronously during insertion; recognition
//! never fails.

use vstd::prelude::*;

verus! {

/// The reason a registration was rejected.
#[derive(Clone, Copy, Debug, PartialEq, Eq, Structural)]
pub enum ErrorKind {
    /// A `:` or `*` marker stood somewhere other than immediately after `/`.
    InvalidPatternSyntax,
    /// The same literal or parameterized pattern was registered twice with
    /// two different identifiers.
    DuplicateRoute,
    /// The same wildcard slug was registered twice at one position with two
    /// different identifiers.
    DuplicateWildcard,
}

/// An error raised while registering a pattern.
#[derive(Clone, Copy, Debug, PartialEq, Eq, Structural)]
pub struct Error {
    /// What went wrong.
    pub kind: ErrorKind,
}

impl Error {
    /// The reason this registration failed.
    pub fn kind(&self) -> (k: ErrorKind)
        ensures
            k == self.kind,
    {
        self.kind
    }
}

} // verus!
