//! POSIX file mode bits.
use vstd::prelude::*;
use crate::errno::Errno;
use crate::inode::FileType;

verus! {

/// The bits of a mode that give the file type.
pub const S_IFMT: u32 = 0o170000;
pub const S_IFSOCK: u32 = 0o140000;
pub const S_IFLNK: u32 = 0o120000;
pub const S_IFREG: u32 = 0o100000;
pub const S_IFBLK: u32 = 0o060000;
pub const S_IFDIR: u32 = 0o040000;
pub const S_IFCHR: u32 = 0o020000;
pub const S_IFIFO: u32 = 0o010000;

/// The kind of node that `mknod` makes for `mode`: a regular file; `NoSys`
/// for devices, pipes and sockets; `Inval` for anything else.
pub open spec fn node_kind_spec(mode: u32) -> Result<FileType, Errno> {
    let t = mode & S_IFMT;
    if t == S_IFREG {
        Ok(FileType::RegularFile)
    } else if t == S_IFCHR || t == S_IFBLK || t == S_IFIFO || t == S_IFSOCK {
        Err(Errno::NoSys)
    } else {
        Err(Errno::Inval)
    }
}

pub fn node_kind(mode: u32) -> (r: Result<FileType, Errno>)
    ensures
        r == node_kind_spec(mode),
{
    let t = mode & S_IFMT;
    if t == S_IFREG {
        Ok(FileType::RegularFile)
    } else if t == S_IFCHR || t == S_IFBLK || t == S_IFIFO || t == S_IFSOCK {
        Err(Errno::NoSys)
    } else {
        Err(Errno::Inval)
    }
}

/// The permission and special bits of a mode.
pub const S_IALLUGO: u32 = 0o7777;

/// The permission and special bits that `mode` keeps under `umask`.
pub open spec fn masked_perm(mode: u32, umask: u32) -> u16 {
    (mode & !umask & S_IALLUGO) as u16
}

pub fn mask_perm(mode: u32, umask: u32) -> (r: u16)
    ensures
        r == masked_perm(mode, umask),
{
    (mode & !umask & S_IALLUGO) as u16
}

} // verus!
