use vstd::prelude::*;

verus! {

/// The kinds of failure the library reports.
#[derive(Clone, Copy, Debug, PartialEq, Eq, Structural)]
pub enum ErrorKind {
    /// An argument is outside what the operation accepts.
    InvalidArgument,
    /// The element type cannot be stored (for example, it has size zero).
    UnsupportedDtype,
    /// A buffer does not have the size the operation needs.
    InvalidBufferSize,
}

/// An error, by kind.
#[derive(Clone, Copy, Debug, PartialEq, Eq, Structural)]
pub struct Error {
    pub kind: ErrorKind,
}

impl Error {
    pub fn new(kind: ErrorKind) -> (r: Self)
        ensures
            r.kind == kind,
    {
        Error { kind }
    }

    /// The kind of the error.
    pub fn kind(&self) -> (r: ErrorKind)
        ensures
            r == self.kind,
    {
        self.kind
    }
}

} // verus!
