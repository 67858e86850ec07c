//! The failure taxonomy of a reconciliation run.  The first four kinds abort
//! the whole run; ordering findings are not errors but diagnostics recorded
//! on the aggregate.
use vstd::prelude::*;

verus! {

/// A fatal failure of a reconciliation run.
#[derive(Clone, Debug, PartialEq, Eq)]
pub enum Error {
    /// A transfer failed or answered with a non-success status.
    Transport(String),
    /// A fetched listing had invalid framing or was not valid text.
    Decode(String),
    /// A stanza repeated a recognized key, or a manifest was malformed.
    Parse(String),
    /// A second source record arrived for a slot that must be unique.
    Invariant(String),
}

impl Error {
    /// The human-readable description carried by the error.
    pub fn message(&self) -> (r: &String)
        ensures
            r@ == self.spec_message(),
    {
        match self {
            Error::Transport(m) => m,
            Error::Decode(m) => m,
            Error::Parse(m) => m,
            Error::Invariant(m) => m,
        }
    }

    pub open spec fn spec_message(&self) -> Seq<char> {
        match self {
            Error::Transport(m) => m@,
            Error::Decode(m) => m@,
            Error::Parse(m) => m@,
            Error::Invariant(m) => m@,
        }
    }
}

} // verus!
