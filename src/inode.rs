//! Inode records, directory entries and extents.
use vstd::prelude::*;
use crate::bitmap::CAPACITY;

verus! {

/// The kind of a filesystem object.
#[derive(Clone, Copy, Debug, PartialEq, Eq, Structural)]
pub enum FileType {
    RegularFile,
    Directory,
    Symlink,
}

/// One directory entry: the child's inode number and kind.
#[derive(Clone, Copy, Debug, PartialEq, Eq, Structural)]
pub struct DirEntry {
    pub ino: u64,
    pub kind: FileType,
}

/// A half-open range of block ids `start..end`.
#[derive(Clone, Copy, Debug, PartialEq, Eq, Structural)]
pub struct Extent {
    pub start: u64,
    pub end: u64,
}

/// A named entry of a directory.
#[derive(Clone, Debug)]
pub struct NamedEntry {
    pub name: Vec<u8>,
    pub entry: DirEntry,
}

/// The persisted record of one inode. Times are nanoseconds since the Unix
/// epoch.
#[derive(Clone, Debug)]
pub struct Attrs {
    pub ino: u64,
    pub size: u64,
    pub extents: Vec<Extent>,
    pub atime: u64,
    pub mtime: u64,
    pub ctime: u64,
    pub crtime: u64,
    pub kind: FileType,
    pub perm: u16,
    pub nlink: u32,
    pub uid: u32,
    pub gid: u32,
    pub rdev: u32,
    pub flags: u32,
    pub entries: Vec<NamedEntry>,
    pub link: Vec<u8>,
}

pub open spec fn extent_len(e: Extent) -> int {
    e.end - e.start
}

/// Total number of blocks in a list of extents.
pub open spec fn sum_lengths(exts: Seq<Extent>) -> int
    decreases exts.len(),
{
    if exts.len() == 0 {
        0
    } else {
        sum_lengths(exts.drop_last()) + extent_len(exts.last())
    }
}

/// The block ids of one extent, in order.
pub open spec fn extent_blocks(e: Extent) -> Seq<u64> {
    Seq::new((e.end - e.start) as nat, |i: int| (e.start + i) as u64)
}

/// The file's blocks: the concatenation of its extents.
pub open spec fn block_list(exts: Seq<Extent>) -> Seq<u64>
    decreases exts.len(),
{
    if exts.len() == 0 {
        Seq::empty()
    } else {
        block_list(exts.drop_last()) + extent_blocks(exts.last())
    }
}

/// Each extent is a non-empty range inside the allocator's capacity, and the
/// blocks of a record are at most `CAPACITY` in number.
pub open spec fn extents_wf(exts: Seq<Extent>) -> bool {
    &&& forall|i: int| 0 <= i < exts.len() ==> #[trigger] exts[i].start < exts[i].end <= CAPACITY
    &&& sum_lengths(exts) <= CAPACITY
}

pub proof fn lemma_sum_lengths_prefix(exts: Seq<Extent>, k: int)
    requires
        0 <= k <= exts.len(),
        forall|i: int| 0 <= i < exts.len() ==> #[trigger] exts[i].start <= exts[i].end,
    ensures
        0 <= sum_lengths(exts.subrange(0, k)) <= sum_lengths(exts),
    decreases exts.len(),
{
    if k < exts.len() {
        assert(exts.drop_last() =~= exts.subrange(0, exts.len() - 1));
        lemma_sum_lengths_prefix(exts.drop_last(), k);
        assert(exts.drop_last().subrange(0, k) =~= exts.subrange(0, k));
    } else {
        assert(exts.subrange(0, k) =~= exts);
        if exts.len() > 0 {
            lemma_sum_lengths_prefix(exts.drop_last(), k - 1);
            assert(exts.drop_last().subrange(0, k - 1) =~= exts.drop_last());
        }
    }
}

pub proof fn lemma_block_list_len(exts: Seq<Extent>)
    requires
        forall|i: int| 0 <= i < exts.len() ==> #[trigger] exts[i].start <= exts[i].end,
    ensures
        block_list(exts).len() == sum_lengths(exts),
    decreases exts.len(),
{
    if exts.len() > 0 {
        lemma_block_list_len(exts.drop_last());
    }
}

impl Attrs {
    /// Number of blocks that the record's extents hold.
    pub fn blocks(&self) -> (r: u64)
        requires
            extents_wf(self.extents@),
        ensures
            r == sum_lengths(self.extents@),
    {
        let mut total: u64 = 0;
        let mut i: usize = 0;
        while i < self.extents.len()
            invariant
                extents_wf(self.extents@),
                i <= self.extents.len(),
                total == sum_lengths(self.extents@.subrange(0, i as int)),
            decreases self.extents.len() - i,
        {
            let e = self.extents[i];
            proof {
                let s = self.extents@.subrange(0, i + 1);
                assert(s.drop_last() =~= self.extents@.subrange(0, i as int));
                lemma_sum_lengths_prefix(self.extents@, i + 1);
            }
            total = total + (e.end - e.start);
            i = i + 1;
        }
        proof {
            assert(self.extents@.subrange(0, i as int) =~= self.extents@);
        }
        total
    }
}

} // verus!
