//! The error taxonomy shared by every filesystem operation.

use vstd::prelude::*;

verus! {

/// Why an operation on the tree was refused.  A refused operation leaves the
/// tree exactly as it found it.
#[derive(Clone, Copy, Debug, PartialEq, Eq, Structural)]
pub enum FsError {
    /// A segment of the path names nothing.  `matched` counts the leading
    /// segments that did lead through existing directories.
    NotFound { matched: usize },
    /// The name to create is already taken by a file or a directory.
    AlreadyExists,
    /// A directory that still holds entries was to be removed without the
    /// recursive flag.
    NotEmpty,
    /// A file was expected and a directory was found.
    IsADirectory,
    /// A directory was expected and a file was found.  The operations of the
    /// tree do not tell this case apart: where a path needs a directory and a
    /// file bears the name, no directory of that name exists, and they answer
    /// `NotFound`.  The kind is here for hosts that do tell it apart.
    NotADirectory,
    /// The request is structurally disallowed, whatever the tree holds.
    InvalidArgument,
}

} // verus!
