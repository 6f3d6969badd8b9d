//! Errors that filesystem operations report.
use vstd::prelude::*;

verus! {

/// A POSIX error, as the transport reports it.
#[derive(Clone, Copy, Debug, PartialEq, Eq, Structural)]
pub enum Errno {
    /// No such inode or directory entry.
    NoEnt,
    /// The name is already present in the directory.
    Exist,
    /// The parent is not a directory.
    NotDir,
    /// A record could not be decoded, or the store failed.
    Io,
    /// An allocator is exhausted.
    NoSpc,
    /// A malformed request or an unsupported node type.
    Inval,
    /// An operation that is not implemented.
    NoSys,
}

} // verus!
