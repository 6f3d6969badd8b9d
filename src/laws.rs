//! Properties that relate several operations of the filesystem core.
use vstd::prelude::*;
use crate::bitmap::{CAPACITY, range_set, run_free};
use crate::errno::Errno;
use crate::extent::merged_block;
use crate::fs::{
    CyanFS, Fetched, FsError, Stat, ROOT_INO, extent_set, grown, outbox_inode, record_wf, records_blocks,
    records_inos, ceil_div,
};
use crate::inode::{Attrs, Extent, FileType, sum_lengths};
use crate::dirent::entry_of;

verus! {

proof fn lemma_extent_set_bounded(exts: Seq<Extent>)
    requires
        forall|i: int| 0 <= i < exts.len() ==> #[trigger] exts[i].start < exts[i].end <= CAPACITY,
    ensures
        extent_set(exts).subset_of(range_set(0, CAPACITY as int)),
    decreases exts.len(),
{
    if exts.len() > 0 {
        lemma_extent_set_bounded(exts.drop_last());
    }
}

proof fn lemma_records_bounded(rs: Seq<Attrs>)
    requires
        forall|k: int| 0 <= k < rs.len() ==> record_wf(#[trigger] rs[k]),
    ensures
        records_blocks(rs).subset_of(range_set(0, CAPACITY as int)),
        records_inos(rs).subset_of(range_set(1, CAPACITY as int)),
    decreases rs.len(),
{
    if rs.len() > 0 {
        lemma_records_bounded(rs.drop_last());
        assert(record_wf(rs.last()));
        lemma_extent_set_bounded(rs.last().extents@);
        assert forall|x: int| records_inos(rs).contains(x) implies range_set(1, CAPACITY as int).contains(x) by {
            let k = choose|k: int| 0 <= k < rs.len() && #[trigger] rs[k].ino == x;
            assert(record_wf(rs[k]));
        }
    }
}

/// Mounting rebuilds the allocators from the store: starting from the
/// allocators of a new core, after `init` over the store's records a block
/// is used if and only if some record holds it, and an inode number is used
/// if and only if it is the root's or a record is stored under it.
pub proof fn lemma_mount_used_sets(pre: CyanFS, post: CyanFS, uid: u32, gid: u32, now: u64, recs: Seq<(u64, Attrs)>, r: Result<(), FsError>)
    requires
        pre.free_blocks() == range_set(0, CAPACITY as int),
        pre.free_inodes() == range_set(1, CAPACITY as int),
        pre.load_result(ROOT_INO) is Ok || pre.load_result(ROOT_INO) == Err::<Attrs, FsError>(FsError::Errno(Errno::NoEnt)),
        forall|k: int| 0 <= k < recs.len() ==> record_wf(#[trigger] recs[k].1) && recs[k].1.ino == recs[k].0,
        CyanFS::init_spec(pre, post, uid, gid, now, recs, r),
    ensures
        r is Ok,
        forall|b: int| 0 <= b < CAPACITY ==> (!post.free_blocks().contains(b) <==> records_blocks(
            recs.map_values(|p: (u64, Attrs)| p.1),
        ).contains(b)),
        forall|i: int| 1 <= i < CAPACITY ==> (!post.free_inodes().contains(i) <==> (i == ROOT_INO || exists|k: int|
            0 <= k < recs.len() && #[trigger] recs[k].0 == i)),
{
    let rs = recs.map_values(|p: (u64, Attrs)| p.1);
    assert forall|k: int| 0 <= k < rs.len() implies record_wf(#[trigger] rs[k]) by {
        assert(rs[k] == recs[k].1);
    }
    lemma_records_bounded(rs);
    assert forall|i: int| 1 <= i < CAPACITY implies (!post.free_inodes().contains(i) <==> (i == ROOT_INO || exists|k: int|
        0 <= k < recs.len() && #[trigger] recs[k].0 == i)) by {
        if !post.free_inodes().contains(i) && i != ROOT_INO {
            assert(records_inos(rs).contains(i));
            let k = choose|k: int| 0 <= k < rs.len() && #[trigger] rs[k].ino == i;
            assert(recs[k].0 == i);
        }
        if exists|k: int| 0 <= k < recs.len() && #[trigger] recs[k].0 == i {
            let k = choose|k: int| 0 <= k < recs.len() && #[trigger] recs[k].0 == i;
            assert(rs[k].ino == i);
            assert(records_inos(rs).contains(i));
        }
    }
}

/// Two mounts of new cores over the same records end with the same
/// allocators.
pub proof fn lemma_remount_same_allocators(
    pre1: CyanFS,
    post1: CyanFS,
    pre2: CyanFS,
    post2: CyanFS,
    uid: u32,
    gid: u32,
    now: u64,
    recs: Seq<(u64, Attrs)>,
    r1: Result<(), FsError>,
    r2: Result<(), FsError>,
)
    requires
        pre1.free_blocks() == range_set(0, CAPACITY as int),
        pre1.free_inodes() == range_set(1, CAPACITY as int),
        pre2.free_blocks() == range_set(0, CAPACITY as int),
        pre2.free_inodes() == range_set(1, CAPACITY as int),
        pre1.load_result(ROOT_INO) is Ok || pre1.load_result(ROOT_INO) == Err::<Attrs, FsError>(FsError::Errno(Errno::NoEnt)),
        pre2.load_result(ROOT_INO) is Ok || pre2.load_result(ROOT_INO) == Err::<Attrs, FsError>(FsError::Errno(Errno::NoEnt)),
        forall|k: int| 0 <= k < recs.len() ==> record_wf(#[trigger] recs[k].1) && recs[k].1.ino == recs[k].0,
        CyanFS::init_spec(pre1, post1, uid, gid, now, recs, r1),
        CyanFS::init_spec(pre2, post2, uid, gid, now, recs, r2),
    ensures
        post1.free_blocks() == post2.free_blocks(),
        post1.free_inodes() == post2.free_inodes(),
{
}

/// Growing a file keeps each block with one owner: when the file's blocks
/// and the blocks of every other file are all used, the file's blocks
/// after the growth are still apart from the others', and the new run is
/// apart from the file's old blocks.
pub proof fn lemma_growth_keeps_owners_apart(
    a: Attrs,
    b: Attrs,
    end: int,
    block_size: int,
    free: Set<int>,
    free_after: Set<int>,
    others: Set<int>,
)
    requires
        grown(a, b, end, block_size, free, free_after),
        extent_set(a.extents@).disjoint(others),
        extent_set(a.extents@).disjoint(free),
        others.disjoint(free),
    ensures
        extent_set(b.extents@).disjoint(others),
        extent_set(b.extents@).subset_of(extent_set(a.extents@).union(free)),
        extent_set(b.extents@).difference(extent_set(a.extents@)).subset_of(free.difference(free_after)),
{
    let need = ceil_div(end, block_size);
    let orig = sum_lengths(a.extents@);
    if need > orig {
        let s = choose|s: int| {
            &&& 0 <= s && s + need - orig <= CAPACITY
            &&& #[trigger] run_free(free, s, need - orig)
            &&& forall|t: int| 0 <= t < s ==> !#[trigger] run_free(free, t, need - orig)
            &&& b.extents@ == a.extents@.push(Extent { start: s as u64, end: (s + need - orig) as u64 })
            &&& free_after == free.difference(range_set(s, s + need - orig))
        };
        let e = Extent { start: s as u64, end: (s + need - orig) as u64 };
        assert(b.extents@.drop_last() =~= a.extents@);
        assert(extent_set(b.extents@) == extent_set(a.extents@).union(range_set(e.start as int, e.end as int)));
        assert(range_set(e.start as int, e.end as int) =~= range_set(s, s + need - orig));
    }
}

/// Writing the same bytes at the same offset twice leaves what one write
/// leaves: the second growth adds no block and keeps the size, and the
/// second merge keeps every block's content.
pub proof fn lemma_write_twice(
    a: Attrs,
    b: Attrs,
    c: Attrs,
    end: int,
    block_size: int,
    free0: Set<int>,
    free1: Set<int>,
    free2: Set<int>,
    old_content: Seq<u8>,
    block_start: int,
    offset: int,
    data: Seq<u8>,
)
    requires
        block_size > 0,
        end >= 0,
        grown(a, b, end, block_size, free0, free1),
        grown(b, c, end, block_size, free1, free2),
    ensures
        c.extents@ == b.extents@,
        c.size == b.size,
        free2 == free1,
        merged_block(merged_block(old_content, block_start, offset, data), block_start, offset, data)
            == merged_block(old_content, block_start, offset, data),
{
    let need = ceil_div(end, block_size);
    let orig = sum_lengths(a.extents@);
    if need > orig {
        let s = choose|s: int| {
            &&& 0 <= s && s + need - orig <= CAPACITY
            &&& #[trigger] run_free(free0, s, need - orig)
            &&& forall|t: int| 0 <= t < s ==> !#[trigger] run_free(free0, t, need - orig)
            &&& b.extents@ == a.extents@.push(Extent { start: s as u64, end: (s + need - orig) as u64 })
            &&& free1 == free0.difference(range_set(s, s + need - orig))
        };
        assert(b.extents@.drop_last() =~= a.extents@);
        assert(sum_lengths(b.extents@) == need);
    }
    assert(sum_lengths(b.extents@) >= need);
    let m = merged_block(old_content, block_start, offset, data);
    assert(merged_block(m, block_start, offset, data) =~= m);
}

/// After `unlink` takes the last link of an inode, writing it back (as
/// `fsync` does, or any eviction) deletes its record from the store.
pub proof fn lemma_unlinked_record_is_deleted(
    pre: CyanFS,
    mid: CyanFS,
    post: CyanFS,
    parent: u64,
    name: Seq<u8>,
    child: u64,
)
    requires
        CyanFS::unlink_spec(pre, mid, parent, name, Ok(())),
        mid.inode_cache().contains_key(child),
        mid.inode_cache()[child].1,
        mid.inode_cache()[child].0.nlink == 0,
        CyanFS::fsync_spec(mid, post, child, Ok(())),
    ensures
        outbox_inode(post.pending(), child) == Some(Fetched::Absent),
{
    assert(mid.inode_pinned(child));
    assert(mid.load_result(child) == Ok::<Attrs, FsError>(mid.inode_cache()[child].0));
}

/// A name that a create just placed in a directory is found there, and
/// names the new inode.
pub proof fn lemma_lookup_after_create(
    pre: CyanFS,
    mid: CyanFS,
    parent: u64,
    name: Seq<u8>,
    kind: FileType,
    perm: u16,
    uid: u32,
    gid: u32,
    now: u64,
    link: Seq<u8>,
    st: Stat,
    r: Result<Stat, FsError>,
)
    requires
        CyanFS::new_with_parent_spec(pre, mid, parent, name, kind, perm, uid, gid, now, link, Ok(st)),
        mid.inode_cache().contains_key(parent),
        CyanFS::lookup_spec(mid, parent, name, r),
    ensures
        r != Err::<Stat, FsError>(FsError::Errno(Errno::NoEnt)),
        r is Ok ==> r->Ok_0.ino == st.ino,
{
    let q = mid.inode_cache()[parent].0;
    assert(mid.known_inode(parent) == Some(Fetched::Found(q)));
    assert(mid.load_result(parent) == Ok::<Attrs, FsError>(q));
}

/// A name that `unlink` just removed from a directory is no longer found
/// there.
pub proof fn lemma_lookup_after_unlink(pre: CyanFS, mid: CyanFS, parent: u64, name: Seq<u8>, r: Result<Stat, FsError>)
    requires
        CyanFS::unlink_spec(pre, mid, parent, name, Ok(())),
        CyanFS::lookup_spec(mid, parent, name, r),
    ensures
        r == Err::<Stat, FsError>(FsError::Errno(Errno::NoEnt)),
{
    let q = mid.inode_cache()[parent].0;
    assert(mid.load_result(parent) == Ok::<Attrs, FsError>(q));
}

/// A name that `link` just placed in a directory is found there, and
/// names the linked inode.
pub proof fn lemma_lookup_after_link(
    pre: CyanFS,
    mid: CyanFS,
    ino: u64,
    newparent: u64,
    newname: Seq<u8>,
    st: Stat,
    r: Result<Stat, FsError>,
)
    requires
        mid.wf(),
        CyanFS::link_spec(pre, mid, ino, newparent, newname, Ok(st)),
        CyanFS::lookup_spec(mid, newparent, newname, r),
    ensures
        r != Err::<Stat, FsError>(FsError::Errno(Errno::NoEnt)),
        r is Ok ==> r->Ok_0.ino == ino,
{
    let q = mid.inode_cache()[newparent].0;
    assert(mid.load_result(newparent) == Ok::<Attrs, FsError>(q));
    if r is Ok {
        mid.lemma_loaded_ino(ino);
    }
}

/// After a move between directories, the new name is found in the new
/// directory and names what the old name named, and the old name is gone.
pub proof fn lemma_lookup_after_rename(
    pre: CyanFS,
    mid: CyanFS,
    parent: u64,
    name: Seq<u8>,
    newparent: u64,
    newname: Seq<u8>,
    r_old: Result<Stat, FsError>,
    r_new: Result<Stat, FsError>,
)
    requires
        mid.wf(),
        parent != newparent,
        CyanFS::rename_spec(pre, mid, parent, name, newparent, newname, Ok(())),
        CyanFS::lookup_spec(mid, parent, name, r_old),
        CyanFS::lookup_spec(mid, newparent, newname, r_new),
    ensures
        r_old == Err::<Stat, FsError>(FsError::Errno(Errno::NoEnt)),
        ({
            let moved = entry_of(pre.load_result(parent)->Ok_0.entries@, name)->Some_0.ino;
            &&& r_new == Err::<Stat, FsError>(FsError::Errno(Errno::NoEnt)) ==> mid.load_result(moved) == Err::<
                Attrs,
                FsError,
            >(FsError::Errno(Errno::NoEnt))
            &&& r_new is Ok ==> r_new->Ok_0.ino == moved
        }),
{
    let q = mid.inode_cache()[parent].0;
    let nq = mid.inode_cache()[newparent].0;
    assert(mid.load_result(parent) == Ok::<Attrs, FsError>(q));
    assert(mid.load_result(newparent) == Ok::<Attrs, FsError>(nq));
    let moved = entry_of(pre.load_result(parent)->Ok_0.entries@, name)->Some_0.ino;
    if r_new is Ok {
        mid.lemma_loaded_ino(moved);
    }
}

} // verus!
