use vstd::prelude::*;

verus! {

/// The kinds of failure that an operation on the project tree can end in.
#[derive(Clone, Copy, Debug, PartialEq, Eq, Structural)]
pub enum FsErrorKind {
    InvalidRoot,
    PathTraversal,
    NotADirectory,
    IoError,
    InvalidUtf8,
    EditNotFound,
    AmbiguousEdit,
    InvalidPattern,
}

/// A failure, with a message fit to be shown to a person as it stands.
#[derive(Debug)]
pub struct FsError {
    pub kind: FsErrorKind,
    pub message: String,
}

impl FsError {
    pub fn new(kind: FsErrorKind, message: &str) -> (r: FsError)
        ensures
            r.kind == kind,
            r.message@ == message@,
    {
        FsError { kind, message: String::from_str(message) }
    }

    /// The human-readable message.
    pub fn describe(&self) -> (r: String)
        ensures
            r@ == self.message@,
    {
        self.message.clone()
    }
}

} // verus!
