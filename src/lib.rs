//! A userspace POSIX-like filesystem core: inode records kept in a key-value
//! store behind a write-back inode cache, file contents kept in fixed-size
//! blocks behind a write-back block cache, and bitmap allocators for block
//! and inode numbers.
use vstd::prelude::*;

pub mod bitmap;
pub mod cache;
pub mod dirent;
pub mod errno;
pub mod inode;
pub mod laws;
pub mod mode;
pub mod extent;
pub mod fs;

verus! {

} // verus!
