//! The request dispatcher: filesystem operations over the inode cache, the
//! block cache and the two allocators.
//!
//! The backing stores (a key-value store of inode records and a file of raw
//! blocks) live outside this core. An operation that needs a record or a
//! block that is neither cached nor staged stops, changing nothing that the
//! stores will see, and names what it needs; the caller fetches it, stages it
//! with `stage_inode` or `stage_block`, and runs the operation again. What the
//! caches evict, and what must be written through, goes to an outbox that the
//! caller applies to the stores in order, before fetching anything.
use vstd::prelude::*;
use std::collections::HashMap;
use crate::bitmap::{Allocator, CAPACITY, range_set, run_free};
use crate::cache::{BlockCache, CacheTable, InodeCache};
use crate::dirent::{copy_bytes, entry_of, has_name, find_entry, insert_entry, remove_entry, rekey_entry, lookup_entry, names_unique};
use crate::errno::Errno;
use crate::mode::{masked_perm, mask_perm, node_kind, node_kind_spec};
use crate::inode::{Attrs, DirEntry, Extent, FileType, NamedEntry, block_list, extents_wf, sum_lengths};
use crate::extent::{assemble_read, assembled, covers, logical_block, merge_block, merged_block};

verus! {

broadcast use vstd::std_specs::hash::group_hash_axioms;

/// The inode number of the root directory.
pub const ROOT_INO: u64 = 1;

/// What the key-value store gave for an inode number.
pub enum Fetched {
    /// A record that decoded.
    Found(Attrs),
    /// No entry under that key.
    Absent,
    /// An entry that did not decode.
    Corrupt,
}

/// A write to the backing stores.
pub enum Writeback {
    /// Write a block's content to the block file.
    Block { id: u64, data: Vec<u8> },
    /// Store an inode record under its number.
    Put(Attrs),
    /// Delete the record of an inode number.
    Delete(u64),
    /// Store the record that the inode cache holds for this number, if it
    /// still holds one (a later entry of the outbox covers it otherwise).
    Sync(u64),
}

/// What a `Writeback::Sync` comes to when the outbox is applied.
#[derive(Clone, Copy, Debug, PartialEq, Eq, Structural)]
pub enum SyncAction {
    /// Store the record that the inode cache holds.
    Store,
    /// Delete the record: nothing links to the inode.
    Delete,
    /// Nothing: the record left the cache, and a later write covers it.
    Skip,
}

/// The attributes that a `setattr` request sets; `None` keeps one.
/// Times are nanoseconds since the Unix epoch.
#[derive(Clone, Copy, Debug)]
pub struct AttrChanges {
    pub mode: Option<u32>,
    pub uid: Option<u32>,
    pub gid: Option<u32>,
    pub size: Option<u64>,
    pub atime: Option<u64>,
    pub mtime: Option<u64>,
    pub ctime: Option<u64>,
    pub crtime: Option<u64>,
    pub flags: Option<u32>,
}

/// Why an operation did not complete.
#[derive(Clone, Copy, Debug, PartialEq, Eq, Structural)]
pub enum FsError {
    /// It failed with a POSIX error.
    Errno(Errno),
    /// It needs the record of this inode number staged first.
    MissingInode(u64),
    /// It needs the content of this block staged first.
    MissingBlock(u64),
}

/// A record is well formed: its extents lie in the block allocator's range,
/// its number in the inode allocator's, and its entries have unique names.
pub open spec fn record_wf(a: Attrs) -> bool {
    &&& extents_wf(a.extents@)
    &&& names_unique(a.entries@)
    &&& 0 < a.ino < CAPACITY
}

/// The write that an evicted dirty record needs: a delete once nothing
/// links to it.
pub open spec fn writeback_of(ino: u64, a: Attrs) -> Writeback {
    if a.nlink == 0 {
        Writeback::Delete(ino)
    } else {
        Writeback::Put(a)
    }
}

/// The last content that the outbox writes to block `id`.
pub open spec fn outbox_block(ob: Seq<Writeback>, id: u64) -> Option<Seq<u8>>
    decreases ob.len(),
{
    if ob.len() == 0 {
        None
    } else {
        match ob.last() {
            Writeback::Block { id: i, data } => if i == id {
                Some(data@)
            } else {
                outbox_block(ob.drop_last(), id)
            },
            _ => outbox_block(ob.drop_last(), id),
        }
    }
}

/// The last record that the outbox stores or deletes under `ino`.
pub open spec fn outbox_inode(ob: Seq<Writeback>, ino: u64) -> Option<Fetched>
    decreases ob.len(),
{
    if ob.len() == 0 {
        None
    } else {
        match ob.last() {
            Writeback::Put(a) => if a.ino == ino {
                Some(Fetched::Found(a))
            } else {
                outbox_inode(ob.drop_last(), ino)
            },
            Writeback::Delete(i) => if i == ino {
                Some(Fetched::Absent)
            } else {
                outbox_inode(ob.drop_last(), ino)
            },
            _ => outbox_inode(ob.drop_last(), ino),
        }
    }
}

/// How knowledge of an inode may change when its record leaves the cache:
/// it stays the same, or a record that nothing links to becomes absent.
pub open spec fn evolves(before: Option<Fetched>, after: Option<Fetched>) -> bool {
    ||| after == before
    ||| (after == Some(Fetched::Absent) && match before {
        Some(Fetched::Found(a)) => a.nlink == 0,
        _ => false,
    })
}

/// Whether a record is well formed.
pub fn check_record(a: &Attrs) -> (r: bool)
    ensures
        r == record_wf(*a),
{
    if a.ino == 0 || a.ino >= CAPACITY as u64 {
        return false;
    }
    let mut total: u64 = 0;
    let mut i: usize = 0;
    while i < a.extents.len()
        invariant
            i <= a.extents@.len(),
            total == sum_lengths(a.extents@.subrange(0, i as int)),
            total <= CAPACITY,
            forall|t: int| 0 <= t < i ==> #[trigger] a.extents@[t].start < a.extents@[t].end <= CAPACITY,
        decreases a.extents@.len() - i,
    {
        let e = a.extents[i];
        if !(e.start < e.end && e.end <= CAPACITY as u64) {
            return false;
        }
        proof {
            assert(a.extents@.subrange(0, i + 1).drop_last() =~= a.extents@.subrange(0, i as int));
        }
        if total + (e.end - e.start) > CAPACITY as u64 {
            proof {
                if extents_wf(a.extents@) {
                    crate::inode::lemma_sum_lengths_prefix(a.extents@, i + 1);
                }
            }
            return false;
        }
        total = total + (e.end - e.start);
        i = i + 1;
    }
    proof {
        assert(a.extents@.subrange(0, i as int) =~= a.extents@);
    }
    let mut j: usize = 0;
    while j < a.entries.len()
        invariant
            j <= a.entries@.len(),
            forall|x: int, y: int| 0 <= x < y < a.entries@.len() && x < j ==> #[trigger] a.entries@[x].name@
                != #[trigger] a.entries@[y].name@,
        decreases a.entries@.len() - j,
    {
        let mut k: usize = j + 1;
        while k < a.entries.len()
            invariant
                j < a.entries@.len(),
                j < k <= a.entries@.len(),
                forall|x: int, y: int| 0 <= x < y < a.entries@.len() && x < j ==> #[trigger] a.entries@[x].name@
                    != #[trigger] a.entries@[y].name@,
                forall|y: int| j < y < k ==> a.entries@[j as int].name@ != #[trigger] a.entries@[y].name@,
            decreases a.entries@.len() - k,
        {
            if crate::dirent::bytes_eq(a.entries[j].name.as_slice(), a.entries[k].name.as_slice()) {
                return false;
            }
            k = k + 1;
        }
        j = j + 1;
    }
    true
}

/// The attributes that the transport reports for an inode.
#[derive(Clone, Copy, Debug, PartialEq, Eq, Structural)]
pub struct Stat {
    pub ino: u64,
    pub size: u64,
    pub blocks: u64,
    pub atime: u64,
    pub mtime: u64,
    pub ctime: u64,
    pub crtime: u64,
    pub kind: FileType,
    pub perm: u16,
    pub nlink: u32,
    pub uid: u32,
    pub gid: u32,
    pub rdev: u32,
    pub flags: u32,
    pub blksize: u32,
}

pub open spec fn stat_of(a: Attrs, block_size: nat) -> Stat {
    Stat {
        ino: a.ino,
        size: a.size,
        blocks: sum_lengths(a.extents@) as u64,
        atime: a.atime,
        mtime: a.mtime,
        ctime: a.ctime,
        crtime: a.crtime,
        kind: a.kind,
        perm: a.perm,
        nlink: a.nlink,
        uid: a.uid,
        gid: a.gid,
        rdev: a.rdev,
        flags: a.flags,
        blksize: block_size as u32,
    }
}

/// One entry of a directory listing; `offset` resumes the listing after it.
#[derive(Clone, Debug)]
pub struct Listing {
    pub ino: u64,
    pub offset: u64,
    pub kind: FileType,
    pub name: Vec<u8>,
}

/// A listing describes the entry at position `pos` of a directory.
pub open spec fn lists(l: Listing, e: NamedEntry, pos: int) -> bool {
    &&& l.name@ == e.name@
    &&& l.ino == e.entry.ino
    &&& l.kind == e.entry.kind
    &&& l.offset == pos + 1
}

/// `ceil(n / d)`.
pub open spec fn ceil_div(n: int, d: int) -> int {
    (n + d - 1) / d
}

/// The record's blocks cover its size.
pub open spec fn covered(a: Attrs, block_size: nat) -> bool {
    sum_lengths(a.extents@) * block_size >= a.size
}

/// `b` is `a` with a new size and extent list, all else kept.
pub open spec fn relaid(a: Attrs, b: Attrs) -> bool {
    &&& b.ino == a.ino
    &&& b.atime == a.atime
    &&& b.mtime == a.mtime
    &&& b.ctime == a.ctime
    &&& b.crtime == a.crtime
    &&& b.kind == a.kind
    &&& b.perm == a.perm
    &&& b.nlink == a.nlink
    &&& b.uid == a.uid
    &&& b.gid == a.gid
    &&& b.rdev == a.rdev
    &&& b.flags == a.flags
    &&& b.entries == a.entries
    &&& b.link == a.link
}

/// Growing record `a` so that it holds `end` bytes: its size becomes at
/// least `end`, and when it has fewer than `ceil(end / block_size)` blocks a
/// run of the missing number, the lowest one free in `free`, is appended as
/// one extent.
pub open spec fn grown(a: Attrs, b: Attrs, end: int, block_size: int, free: Set<int>, free_after: Set<int>) -> bool {
    let need = ceil_div(end, block_size);
    let orig = sum_lengths(a.extents@);
    &&& relaid(a, b)
    &&& b.size == if end > a.size { end } else { a.size as int }
    &&& need <= orig ==> b.extents@ == a.extents@ && free_after == free
    &&& need > orig ==> exists|s: int| {
        &&& 0 <= s && s + need - orig <= CAPACITY
        &&& #[trigger] run_free(free, s, need - orig)
        &&& forall|t: int| 0 <= t < s ==> !#[trigger] run_free(free, t, need - orig)
        &&& b.extents@ == a.extents@.push(Extent { start: s as u64, end: (s + need - orig) as u64 })
        &&& free_after == free.difference(range_set(s, s + need - orig))
    }
}

/// The file's block `k` got its share of `data`, written at `offset`, over
/// a prior content that matters only where the block is not wholly covered.
pub open spec fn block_written(known: Option<Seq<u8>>, prior: Option<Seq<u8>>, k: int, block_size: int, offset: int, data: Seq<u8>) -> bool {
    exists|old_content: Seq<u8>| {
        &&& old_content.len() == block_size
        &&& known == Some(merged_block(old_content, k * block_size, offset, data))
        &&& !covers(k * block_size, block_size, offset, data.len() as int) && prior is Some ==> prior == Some(old_content)
        &&& !covers(k * block_size, block_size, offset, data.len() as int) && prior is None ==> old_content == zeros(block_size)
    }
}

/// A block of zeros.
pub open spec fn zeros(block_size: int) -> Seq<u8> {
    Seq::new(block_size as nat, |j: int| 0u8)
}

proof fn lemma_ceil_div(n: int, d: int)
    requires
        n >= 0,
        d > 0,
    ensures
        ceil_div(n, d) == n / d + if n % d == 0 { 0int } else { 1int },
{
    let q = n / d;
    let r = n % d;
    vstd::arithmetic::div_mod::lemma_fundamental_div_mod(n, d);
    assert(n == q * d + r) by (nonlinear_arith)
        requires
            n == d * q + r,
    ;
    if r == 0 {
        assert((n + d - 1) / d == q) by {
            vstd::arithmetic::div_mod::lemma_fundamental_div_mod_converse(n + d - 1, d, q, d - 1);
        }
    } else {
        assert((n + d - 1) / d == q + 1) by {
            assert(n + d - 1 == (q + 1) * d + (r - 1)) by (nonlinear_arith)
                requires
                    n == q * d + r,
            ;
            vstd::arithmetic::div_mod::lemma_fundamental_div_mod_converse(n + d - 1, d, q + 1, r - 1);
        }
    }
}

proof fn lemma_first_block(offset: int, len: int, bs: int)
    requires
        offset >= 0,
        len > 0,
        bs > 0,
    ensures
        offset / bs < ceil_div(offset + len, bs),
{
    lemma_ceil_div(offset + len, bs);
    vstd::arithmetic::div_mod::lemma_fundamental_div_mod(offset, bs);
    vstd::arithmetic::div_mod::lemma_fundamental_div_mod(offset + len, bs);
    let q = offset / bs;
    let r = offset % bs;
    let q2 = (offset + len) / bs;
    let r2 = (offset + len) % bs;
    assert(q2 >= q) by {
        vstd::arithmetic::div_mod::lemma_div_is_ordered(offset, offset + len, bs);
    }
    if q2 == q {
        assert(r2 > r) by (nonlinear_arith)
            requires
                offset == bs * q + r,
                offset + len == bs * q2 + r2,
                q2 == q,
                len > 0,
        ;
    }
}

proof fn lemma_ceil_covers(n: int, d: int)
    requires
        n >= 0,
        d > 0,
    ensures
        ceil_div(n, d) * d >= n,
        ceil_div(n, d) >= 0,
{
    lemma_ceil_div(n, d);
    vstd::arithmetic::div_mod::lemma_fundamental_div_mod(n, d);
    let q = n / d;
    let r = n % d;
    vstd::arithmetic::div_mod::lemma_div_pos_is_pos(n, d);
    assert(ceil_div(n, d) * d >= n) by (nonlinear_arith)
        requires
            n == d * q + r,
            0 <= r < d,
            ceil_div(n, d) == q + if r == 0 { 0int } else { 1int },
    ;
}

/// Appending an extent of `need - sum_lengths(exts)` blocks inside the
/// allocator's range keeps the list well formed with `need` blocks, and adds
/// that extent's blocks at the end of the block list.
proof fn lemma_push_extent(exts: Seq<Extent>, grown: Seq<Extent>, e: Extent, need: int)
    requires
        extents_wf(exts),
        grown == exts.push(e),
        e.start < e.end <= CAPACITY,
        e.end - e.start == need - sum_lengths(exts),
        need <= CAPACITY,
    ensures
        extents_wf(grown),
        sum_lengths(grown) == need,
        block_list(grown) == block_list(exts) + crate::inode::extent_blocks(e),
{
    assert(grown.drop_last() =~= exts);
    assert forall|i: int| 0 <= i < grown.len() implies #[trigger] grown[i].start < grown[i].end <= CAPACITY by {
        if i < exts.len() {
            assert(grown[i] == exts[i]);
        }
    }
}

/// A file grown to hold `end` bytes has blocks for them.
proof fn lemma_grown_covers(a: Attrs, b: Attrs, end: int, bs: int, free: Set<int>, free_after: Set<int>)
    requires
        grown(a, b, end, bs, free, free_after),
        end >= 0,
        bs > 0,
    ensures
        sum_lengths(b.extents@) * bs >= end,
        sum_lengths(b.extents@) >= sum_lengths(a.extents@),
        sum_lengths(b.extents@) >= ceil_div(end, bs),
{
    let need = ceil_div(end, bs);
    let orig = sum_lengths(a.extents@);
    lemma_ceil_covers(end, bs);
    if need > orig {
        let s = choose|s: int| {
            &&& 0 <= s && s + need - orig <= CAPACITY
            &&& #[trigger] run_free(free, s, need - orig)
            &&& forall|t: int| 0 <= t < s ==> !#[trigger] run_free(free, t, need - orig)
            &&& b.extents@ == a.extents@.push(Extent { start: s as u64, end: (s + need - orig) as u64 })
            &&& free_after == free.difference(range_set(s, s + need - orig))
        };
        assert(b.extents@.drop_last() =~= a.extents@);
        assert(sum_lengths(b.extents@) == need);
    }
    assert(sum_lengths(b.extents@) * bs >= need * bs) by (nonlinear_arith)
        requires
            sum_lengths(b.extents@) >= need,
            bs > 0,
    ;
}

/// Which blocks of a write `offset..end` are wholly covered: all but the
/// first and the last, the first one when the write starts on its boundary
/// and spans it, the last one when the write ends on a boundary.
proof fn lemma_cover(k: int, bs: int, offset: int, end: int)
    requires
        bs > 0,
        0 <= offset < end,
        offset / bs <= k < ceil_div(end, bs),
    ensures
        offset / bs < k < ceil_div(end, bs) - 1 ==> covers(k * bs, bs, offset, end - offset),
        k == offset / bs ==> (covers(k * bs, bs, offset, end - offset) <==> (offset % bs == 0 && end - offset >= bs)),
        k == ceil_div(end, bs) - 1 && k != offset / bs ==> (covers(k * bs, bs, offset, end - offset) <==> end % bs == 0),
        k * bs + bs <= ceil_div(end, bs) * bs,
        ceil_div(end, bs) * bs >= end,
        k * bs <= end,
{
    let first = offset / bs;
    let need = ceil_div(end, bs);
    lemma_ceil_div(end, bs);
    vstd::arithmetic::div_mod::lemma_fundamental_div_mod(offset, bs);
    vstd::arithmetic::div_mod::lemma_fundamental_div_mod(end, bs);
    let qe = end / bs;
    let re = end % bs;
    let ro = offset % bs;
    assert(need * bs >= end) by (nonlinear_arith)
        requires
            end == bs * qe + re,
            0 <= re < bs,
            need == qe + if re == 0 { 0int } else { 1int },
    ;
    assert(k * bs + bs <= need * bs) by (nonlinear_arith)
        requires
            k < need,
            bs > 0,
    ;
    assert(first * bs <= offset) by (nonlinear_arith)
        requires
            offset == bs * first + ro,
            0 <= ro,
    ;
    assert(k * bs >= first * bs) by (nonlinear_arith)
        requires
            k >= first,
            bs > 0,
    ;
    if first < k {
        assert(k * bs >= first * bs + bs) by (nonlinear_arith)
            requires
                k >= first + 1,
                bs > 0,
        ;
        assert(first * bs + bs > offset) by (nonlinear_arith)
            requires
                offset == bs * first + ro,
                ro < bs,
        ;
    }
    if k < need - 1 {
        assert(k * bs + bs <= (need - 1) * bs) by (nonlinear_arith)
            requires
                k + 1 <= need - 1,
                bs > 0,
        ;
        assert((need - 1) * bs <= end) by (nonlinear_arith)
            requires
                end == bs * qe + re,
                0 <= re,
                need - 1 <= qe,
                bs > 0,
        ;
    }
    if k == need - 1 {
        assert(k * bs + bs == need * bs) by (nonlinear_arith)
            requires
                k == need - 1,
        ;
        if re == 0 {
            assert(need * bs == end) by (nonlinear_arith)
                requires
                    end == bs * qe + re,
                    re == 0,
                    need == qe,
            ;
        } else {
            assert(need * bs > end) by (nonlinear_arith)
                requires
                    end == bs * qe + re,
                    0 < re < bs,
                    need == qe + 1,
            ;
        }
    }
    if k == first {
        assert(offset == first * bs + ro) by (nonlinear_arith)
            requires
                offset == bs * first + ro,
        ;
    }
    assert(k * bs <= end) by (nonlinear_arith)
        requires
            k * bs + bs <= need * bs,
            need * bs >= end,
            need <= qe + 1,
            end == bs * qe + re,
            k < need,
            bs > 0,
            0 <= re,
    ;
}

/// A record just made: number `ino`, empty, one link, times `now`.
pub open spec fn fresh(a: Attrs, ino: u64, kind: FileType, perm: u16, uid: u32, gid: u32, now: u64, link: Seq<u8>) -> bool {
    &&& a.ino == ino
    &&& a.size == 0
    &&& a.extents@.len() == 0
    &&& a.atime == now && a.mtime == now && a.ctime == now && a.crtime == now
    &&& a.kind == kind
    &&& a.perm == perm
    &&& a.nlink == 1
    &&& a.uid == uid
    &&& a.gid == gid
    &&& a.rdev == 0
    &&& a.flags == 0
    &&& a.entries@.len() == 0
    &&& a.link@ == link
}

/// The blocks that a list of extents holds.
pub open spec fn extent_set(exts: Seq<Extent>) -> Set<int>
    decreases exts.len(),
{
    if exts.len() == 0 {
        Set::empty()
    } else {
        extent_set(exts.drop_last()).union(range_set(exts.last().start as int, exts.last().end as int))
    }
}

/// The blocks that a list of records holds.
pub open spec fn records_blocks(recs: Seq<Attrs>) -> Set<int>
    decreases recs.len(),
{
    if recs.len() == 0 {
        Set::empty()
    } else {
        records_blocks(recs.drop_last()).union(extent_set(recs.last().extents@))
    }
}

/// The inode numbers of a list of records.
pub open spec fn records_inos(recs: Seq<Attrs>) -> Set<int> {
    Set::new(|i: int| exists|k: int| 0 <= k < recs.len() && #[trigger] recs[k].ino == i)
}

/// Whether `w` writes block `id`.
pub open spec fn writes_block(w: Writeback, id: u64) -> bool {
    match w {
        Writeback::Block { id: i, data: _ } => i == id,
        _ => false,
    }
}

/// From position `base` on, `pend` holds only block writes, of the blocks
/// `blist[ks[0]]`, `blist[ks[1]]`, ... with `ks` strictly increasing: each
/// block of the list at most once, in the list's order.
pub open spec fn block_writes_in_order(pend: Seq<Writeback>, base: int, ks: Seq<int>, blist: Seq<u64>) -> bool {
    &&& 0 <= base <= pend.len()
    &&& ks.len() == pend.len() - base
    &&& forall|i: int| 0 <= i < ks.len() ==> 0 <= #[trigger] ks[i] < blist.len() && writes_block(pend[base + i], blist[ks[i]])
    &&& forall|i: int, j: int| 0 <= i < j < ks.len() ==> ks[i] < ks[j]
}

/// Nothing that the backing stores will see has changed: the caches, the
/// outbox and both allocators are as they were.
pub open spec fn stores_unchanged(pre: CyanFS, post: CyanFS) -> bool {
    &&& post.inode_cache() == pre.inode_cache()
    &&& post.block_cache() == pre.block_cache()
    &&& post.pending() == pre.pending()
    &&& post.free_blocks() == pre.free_blocks()
    &&& post.free_inodes() == pre.free_inodes()
}

/// The filesystem core.
pub struct CyanFS {
    block_size: u64,
    blocks: BlockCache,
    inodes: InodeCache,
    block_allocator: Allocator,
    inode_allocator: Allocator,
    staged_inodes: HashMap<u64, Fetched>,
    staged_blocks: HashMap<u64, Vec<u8>>,
    outbox: Vec<Writeback>,
}

impl CyanFS {
    pub closed spec fn spec_block_size(&self) -> nat {
        self.block_size as nat
    }

    /// The inode cache: each number's record and dirty flag.
    pub closed spec fn inode_cache(&self) -> Map<u64, (Attrs, bool)> {
        self.inodes@
    }

    /// The block cache: each block's content and dirty flag.
    pub closed spec fn block_cache(&self) -> Map<u64, (Vec<u8>, bool)> {
        self.blocks@
    }

    /// What the caller staged for inode numbers during this operation.
    pub closed spec fn staged_inodes(&self) -> Map<u64, Fetched> {
        self.staged_inodes@
    }

    /// What the caller staged for blocks during this operation.
    pub closed spec fn staged_blocks(&self) -> Map<u64, Vec<u8>> {
        self.staged_blocks@
    }

    /// Writes not yet applied to the backing stores, oldest first.
    pub closed spec fn pending(&self) -> Seq<Writeback> {
        self.outbox@
    }

    /// The block size and the inode cache's capacity, which no operation
    /// changes.
    pub closed spec fn config(&self) -> (nat, nat) {
        (self.block_size as nat, self.inodes.capacity())
    }

    /// How many records the inode cache holds at most.
    pub closed spec fn inode_capacity(&self) -> nat {
        self.inodes.capacity()
    }

    /// Free block numbers.
    pub closed spec fn free_blocks(&self) -> Set<int> {
        self.block_allocator.free()
    }

    /// Free inode numbers.
    pub closed spec fn free_inodes(&self) -> Set<int> {
        self.inode_allocator.free()
    }

    pub closed spec fn wf(&self) -> bool {
        &&& self.blocks.wf()
        &&& self.inodes.wf()
        &&& self.blocks.capacity() >= 1
        &&& self.inodes.capacity() >= 2
        &&& 0 < self.block_size <= 1048576
        &&& forall|i: int| #[trigger] self.inode_allocator.free().contains(i) ==> 1 <= i < CAPACITY
        &&& forall|i: u64| #[trigger] self.inodes@.contains_key(i) ==> {
            &&& record_wf(self.inodes@[i].0)
            &&& self.inodes@[i].0.ino == i
        }
        &&& forall|b: u64| #[trigger] self.blocks@.contains_key(b) ==> self.blocks@[b].0@.len() == self.block_size
        &&& forall|b: u64| #[trigger] self.staged_blocks@.contains_key(b) ==> {
            &&& self.staged_blocks@[b]@.len() == self.block_size
            &&& outbox_block(self.outbox@, b) is None
        }
        &&& forall|b: u64| #[trigger] outbox_block(self.outbox@, b) is Some ==> outbox_block(self.outbox@, b)->Some_0.len() == self.block_size
        &&& forall|b: u64| #[trigger] self.blocks@.contains_key(b) && self.blocks@[b].1 ==> !self.staged_blocks@.contains_key(b)
        &&& forall|b: u64| #[trigger] self.blocks@.contains_key(b) && !self.blocks@[b].1 ==> outbox_block(self.outbox@, b) is None
        &&& forall|b: u64| #[trigger] self.blocks@.contains_key(b) && !self.blocks@[b].1 && self.staged_blocks@.contains_key(b)
            ==> self.blocks@[b].0@ == self.staged_blocks@[b]@
        &&& forall|i: u64| #[trigger] self.inodes@.contains_key(i) && !self.inodes@[i].1 ==> outbox_inode(self.outbox@, i) is None
        &&& forall|i: u64| #[trigger] self.staged_inodes@.contains_key(i) ==> {
            &&& !self.inodes@.contains_key(i)
            &&& outbox_inode(self.outbox@, i) is None
        }
    }

    /// What this core knows of inode `ino`: the cached record, else the last
    /// write in the outbox, else what was staged.
    pub open spec fn known_inode(&self, ino: u64) -> Option<Fetched> {
        if self.inode_cache().contains_key(ino) {
            Some(Fetched::Found(self.inode_cache()[ino].0))
        } else if outbox_inode(self.pending(), ino) is Some {
            outbox_inode(self.pending(), ino)
        } else if self.staged_inodes().contains_key(ino) {
            Some(self.staged_inodes()[ino])
        } else {
            None
        }
    }

    /// What this core knows of block `id`: the cached content, else the last
    /// write in the outbox, else what was staged.
    pub open spec fn known_block(&self, id: u64) -> Option<Seq<u8>> {
        if self.block_cache().contains_key(id) {
            Some(self.block_cache()[id].0@)
        } else if outbox_block(self.pending(), id) is Some {
            outbox_block(self.pending(), id)
        } else if self.staged_blocks().contains_key(id) {
            Some(self.staged_blocks()[id]@)
        } else {
            None
        }
    }

    /// What loading inode `ino` gives: the cached record, else the staged
    /// one if it is well formed, else the staged error; else it is missing.
    pub open spec fn load_result(&self, ino: u64) -> Result<Attrs, FsError> {
        if self.inode_cache().contains_key(ino) {
            Ok(self.inode_cache()[ino].0)
        } else if self.staged_inodes().contains_key(ino) {
            match self.staged_inodes()[ino] {
                Fetched::Found(a) => if record_wf(a) && a.ino == ino {
                    Ok(a)
                } else {
                    Err(FsError::Errno(Errno::Io))
                },
                Fetched::Absent => Err(FsError::Errno(Errno::NoEnt)),
                Fetched::Corrupt => Err(FsError::Errno(Errno::Io)),
            }
        } else {
            Err(FsError::MissingInode(ino))
        }
    }

    /// What a well-formed core guarantees: a block size in `1..=2^20`, an
    /// inode cache of at least two records, free inode numbers in
    /// `1..CAPACITY`, cached records well formed and cached under their own
    /// number, and cached blocks one block long.
    pub proof fn lemma_wf(&self)
        requires
            self.wf(),
        ensures
            0 < self.spec_block_size() <= 1048576,
            self.inode_capacity() >= 2,
            forall|i: int| #[trigger] self.free_inodes().contains(i) ==> 1 <= i < CAPACITY,
            forall|i: u64| #[trigger] self.inode_cache().contains_key(i) ==> record_wf(self.inode_cache()[i].0)
                && self.inode_cache()[i].0.ino == i,
            forall|b: u64| #[trigger] self.block_cache().contains_key(b) ==> self.block_cache()[b].0@.len() == self.spec_block_size(),
    {
    }

    /// A record that loads is stored under its own number.
    pub proof fn lemma_loaded_ino(&self, ino: u64)
        requires
            self.wf(),
            self.load_result(ino) is Ok,
        ensures
            self.load_result(ino)->Ok_0.ino == ino,
    {
    }

    /// Block `id` holds content that the backing file has not seen yet, so
    /// this core keeps knowing it until the outbox is applied.
    pub open spec fn block_pinned(&self, id: u64) -> bool {
        ||| self.block_cache().contains_key(id) && self.block_cache()[id].1
        ||| outbox_block(self.pending(), id) is Some
    }

    /// Inode `ino` has changes that the store has not seen yet.
    pub open spec fn inode_pinned(&self, ino: u64) -> bool {
        ||| self.inode_cache().contains_key(ino) && self.inode_cache()[ino].1
        ||| outbox_inode(self.pending(), ino) is Some
    }

    /// A core with empty caches of the given capacities, a block allocator
    /// that offers every block, and an inode allocator that offers every
    /// number from the root's on. The inode cache holds at least two
    /// records, because operations on a directory and one of its entries
    /// need both cached at once; a block is at most 1 MiB, which keeps the
    /// byte offsets of all blocks within 64 bits.
    pub fn new(block_size: u64, block_cache: usize, inode_cache: usize) -> (r: CyanFS)
        requires
            0 < block_size <= 1048576,
            block_cache >= 1,
            inode_cache >= 2,
        ensures
            r.wf(),
            r.spec_block_size() == block_size,
            r.inode_cache() == Map::<u64, (Attrs, bool)>::empty(),
            r.block_cache() == Map::<u64, (Vec<u8>, bool)>::empty(),
            r.pending() == Seq::<Writeback>::empty(),
            r.free_blocks() == range_set(0, CAPACITY as int),
            r.free_inodes() == range_set(ROOT_INO as int, CAPACITY as int),
    {
        let r = CyanFS {
            block_size,
            blocks: CacheTable::new(block_cache),
            inodes: CacheTable::new(inode_cache),
            block_allocator: Allocator::new(0, CAPACITY),
            inode_allocator: Allocator::new(ROOT_INO as usize, CAPACITY),
            staged_inodes: HashMap::new(),
            staged_blocks: HashMap::new(),
            outbox: Vec::new(),
        };
        assert(r.outbox@ =~= Seq::<Writeback>::empty());
        r
    }

    /// The block size this core was made with.
    pub fn block_size(&self) -> (r: u64)
        ensures
            r == self.spec_block_size(),
    {
        self.block_size
    }

    /// Hands over the writes that the backing stores still need, oldest
    /// first, and empties the outbox.
    pub fn take_pending(&mut self) -> (r: Vec<Writeback>)
        requires
            old(self).wf(),
        ensures
            final(self).wf(),
            final(self).config() == old(self).config(),
            r@ == old(self).pending(),
            final(self).pending() == Seq::<Writeback>::empty(),
            final(self).inode_cache() == old(self).inode_cache(),
            final(self).block_cache() == old(self).block_cache(),
            final(self).staged_inodes() == old(self).staged_inodes(),
            final(self).staged_blocks() == old(self).staged_blocks(),
            final(self).free_blocks() == old(self).free_blocks(),
            final(self).free_inodes() == old(self).free_inodes(),
    {
        let r = self.outbox.split_off(0);
        proof {
            assert(self.outbox@ =~= Seq::<Writeback>::empty());
        }
        r
    }

    /// Records what the store holds under `ino`. It is ignored while writes
    /// are pending (they may change it) and when the record is cached.
    pub fn stage_inode(&mut self, ino: u64, f: Fetched) -> (staged: bool)
        requires
            old(self).wf(),
        ensures
            final(self).wf(),
            final(self).config() == old(self).config(),
            staged == (old(self).pending().len() == 0 && !old(self).inode_cache().contains_key(ino)),
            staged ==> final(self).staged_inodes() == old(self).staged_inodes().insert(ino, f),
            !staged ==> final(self).staged_inodes() == old(self).staged_inodes(),
            final(self).pending() == old(self).pending(),
            final(self).inode_cache() == old(self).inode_cache(),
            final(self).block_cache() == old(self).block_cache(),
            final(self).staged_blocks() == old(self).staged_blocks(),
            final(self).free_blocks() == old(self).free_blocks(),
            final(self).free_inodes() == old(self).free_inodes(),
    {
        if self.outbox.len() != 0 || self.inodes.contains(ino) {
            return false;
        }
        self.staged_inodes.insert(ino, f);
        true
    }

    /// Records the content of block `id` read from the backing file. It is
    /// ignored while writes are pending, and when `data` is not one block
    /// long.
    pub fn stage_block(&mut self, id: u64, data: Vec<u8>) -> (staged: bool)
        requires
            old(self).wf(),
        ensures
            final(self).wf(),
            final(self).config() == old(self).config(),
            staged == (old(self).pending().len() == 0 && data@.len() == old(self).spec_block_size()
                && !old(self).block_cache().contains_key(id)),
            staged ==> final(self).staged_blocks() == old(self).staged_blocks().insert(id, data),
            !staged ==> final(self).staged_blocks() == old(self).staged_blocks(),
            final(self).pending() == old(self).pending(),
            final(self).inode_cache() == old(self).inode_cache(),
            final(self).block_cache() == old(self).block_cache(),
            final(self).staged_inodes() == old(self).staged_inodes(),
            final(self).free_blocks() == old(self).free_blocks(),
            final(self).free_inodes() == old(self).free_inodes(),
    {
        if self.outbox.len() != 0 || data.len() as u64 != self.block_size || self.blocks.contains(id) {
            return false;
        }
        self.staged_blocks.insert(id, data);
        true
    }

    /// Forgets what was staged: called once an operation has completed.
    fn clear_staged(&mut self)
        requires
            old(self).wf(),
        ensures
            final(self).wf(),
            final(self).config() == old(self).config(),
            final(self).staged_inodes() == Map::<u64, Fetched>::empty(),
            final(self).staged_blocks() == Map::<u64, Vec<u8>>::empty(),
            final(self).pending() == old(self).pending(),
            final(self).inode_cache() == old(self).inode_cache(),
            final(self).block_cache() == old(self).block_cache(),
            final(self).free_blocks() == old(self).free_blocks(),
            final(self).free_inodes() == old(self).free_inodes(),
    {
        self.staged_inodes.clear();
        self.staged_blocks.clear();
    }

    /// Sends an entry evicted from the block cache to the outbox if it is
    /// dirty.
    fn settle_block(&mut self, ev: Option<(u64, Vec<u8>, bool)>)
        requires
            old(self).wf(),
            match ev {
                Some((id, data, dirty)) => !old(self).block_cache().contains_key(id)
                    && (dirty ==> !old(self).staged_blocks().contains_key(id))
                    && data@.len() == old(self).spec_block_size(),
                None => true,
            },
        ensures
            final(self).wf(),
            final(self).config() == old(self).config(),
            final(self).inodes == old(self).inodes,
            final(self).blocks == old(self).blocks,
            final(self).inode_cache() == old(self).inode_cache(),
            final(self).block_cache() == old(self).block_cache(),
            final(self).staged_inodes() == old(self).staged_inodes(),
            final(self).staged_blocks() == old(self).staged_blocks(),
            final(self).free_blocks() == old(self).free_blocks(),
            final(self).free_inodes() == old(self).free_inodes(),
            forall|x: u64| #[trigger] outbox_inode(final(self).pending(), x) == outbox_inode(old(self).pending(), x),
            match ev {
                Some((id, data, true)) => final(self).pending() == old(self).pending().push(Writeback::Block { id, data }),
                _ => final(self).pending() == old(self).pending(),
            },
    {
        match ev {
            Some((id, data, dirty)) => {
                if dirty {
                    let ghost ob = self.outbox@;
                    self.outbox.push(Writeback::Block { id, data });
                    proof {
                        assert(self.outbox@.drop_last() =~= ob);
                        assert forall|x: u64| #[trigger] outbox_inode(self.outbox@, x) == outbox_inode(ob, x) by {}
                        assert forall|b: u64| #[trigger] self.staged_blocks@.contains_key(b) implies outbox_block(self.outbox@, b) is None by {
                            assert(b != id);
                        }
                        assert forall|b: u64| #[trigger] outbox_block(self.outbox@, b) is Some implies outbox_block(self.outbox@, b)->Some_0.len()
                            == self.block_size by {
                            if b != id {
                                assert(outbox_block(self.outbox@, b) == outbox_block(ob, b));
                            }
                        }
                    }
                }
            },
            None => {},
        }
    }

    /// Sends an entry evicted from the inode cache to the outbox if it is
    /// dirty: a put, or a delete once nothing links to the inode.
    fn settle_inode(&mut self, ev: Option<(u64, Attrs, bool)>)
        requires
            old(self).wf(),
            match ev {
                Some((ino, a, _)) => !old(self).inode_cache().contains_key(ino)
                    && !old(self).staged_inodes().contains_key(ino) && a.ino == ino,
                None => true,
            },
        ensures
            final(self).wf(),
            final(self).config() == old(self).config(),
            final(self).inodes == old(self).inodes,
            final(self).blocks == old(self).blocks,
            final(self).inode_cache() == old(self).inode_cache(),
            final(self).block_cache() == old(self).block_cache(),
            final(self).staged_inodes() == old(self).staged_inodes(),
            final(self).staged_blocks() == old(self).staged_blocks(),
            final(self).free_blocks() == old(self).free_blocks(),
            final(self).free_inodes() == old(self).free_inodes(),
            forall|x: u64| #[trigger] outbox_block(final(self).pending(), x) == outbox_block(old(self).pending(), x),
            match ev {
                Some((ino, a, true)) => final(self).pending() == old(self).pending().push(writeback_of(ino, a)),
                _ => final(self).pending() == old(self).pending(),
            },
    {
        match ev {
            Some((ino, a, dirty)) => {
                if dirty {
                    let ghost ob = self.outbox@;
                    let ghost ga = a;
                    if a.nlink == 0 {
                        self.outbox.push(Writeback::Delete(ino));
                    } else {
                        self.outbox.push(Writeback::Put(a));
                    }
                    proof {
                        assert(self.outbox@ == ob.push(writeback_of(ino, ga)));
                        assert(self.outbox@.drop_last() =~= ob);
                        assert forall|x: u64| #[trigger] outbox_block(self.outbox@, x) == outbox_block(ob, x) by {}
                        assert forall|i: u64| #[trigger] self.staged_inodes@.contains_key(i) implies outbox_inode(self.outbox@, i) is None by {
                            assert(i != ino && i != ga.ino);
                        }
                    }
                }
            },
            None => {},
        }
    }

    /// Brings the record of `ino` into the inode cache: from the cache
    /// itself, or from what was staged, which it consumes.
    fn load_inode(&mut self, ino: u64) -> (r: Result<(), FsError>)
        requires
            old(self).wf(),
        ensures
            final(self).wf(),
            final(self).config() == old(self).config(),
            final(self).block_cache() == old(self).block_cache(),
            final(self).staged_blocks() == old(self).staged_blocks(),
            final(self).free_blocks() == old(self).free_blocks(),
            final(self).free_inodes() == old(self).free_inodes(),
            forall|x: u64| #[trigger] outbox_block(final(self).pending(), x) == outbox_block(old(self).pending(), x),
            forall|x: u64| x != ino && old(self).inode_pinned(x) ==> #[trigger] final(self).inode_pinned(x)
                && evolves(old(self).known_inode(x), final(self).known_inode(x)),
            forall|x: u64| x != ino && #[trigger] final(self).inode_cache().contains_key(x) ==> old(self).inode_cache().contains_key(x)
                && final(self).inode_cache()[x] == old(self).inode_cache()[x],
            forall|x: u64| x != ino && #[trigger] final(self).staged_inodes().contains_key(x) ==> old(self).staged_inodes().contains_key(x)
                && final(self).staged_inodes()[x] == old(self).staged_inodes()[x],
            forall|x: u64| x != ino && #[trigger] old(self).staged_inodes().contains_key(x) ==> final(self).staged_inodes().contains_key(x),
            forall|x: u64| #[trigger] final(self).inode_cache().contains_key(x) ==> old(self).load_result(x) == Ok::<Attrs, FsError>(
                final(self).inode_cache()[x].0),
            old(self).inode_cache().contains_key(ino) ==> final(self).inode_cache() == old(self).inode_cache()
                && final(self).staged_inodes() == old(self).staged_inodes() && final(self).pending() == old(self).pending(),
            r is Ok ==> final(self).inodes.recent() == ino,
            r is Err ==> final(self).inode_cache() == old(self).inode_cache() && final(self).pending() == old(self).pending(),
            old(self).inodes@.contains_key(old(self).inodes.recent()) && old(self).inodes.recent() != ino
                ==> final(self).inodes@.contains_key(old(self).inodes.recent())
                && final(self).inodes@[old(self).inodes.recent()] == old(self).inodes@[old(self).inodes.recent()],
            match old(self).load_result(ino) {
                Ok(a) => {
                    &&& r is Ok
                    &&& final(self).inode_cache().contains_key(ino)
                    &&& final(self).inode_cache()[ino].0 == a
                    &&& old(self).inode_cache().contains_key(ino) ==> final(self).inode_cache()[ino] == old(self).inode_cache()[ino]
                },
                Err(e) => r == Err::<(), FsError>(e),
            },
    {
        if self.inodes.contains(ino) {
            self.inodes.touch(ino);
            return Ok(());
        }
        let f = match self.staged_inodes.remove(&ino) {
            Some(f) => f,
            None => { return Err(FsError::MissingInode(ino)); },
        };
        match f {
            Fetched::Found(a) => {
                if !check_record(&a) || a.ino != ino {
                    return Err(FsError::Errno(Errno::Io));
                }
                let ghost mid = *self;
                let ev = self.inodes.put(ino, a, false);
                proof {
                    assert forall|i: u64| #[trigger] self.staged_inodes@.contains_key(i) implies !self.inodes@.contains_key(i) by {
                        assert(i != ino);
                    }
                }
                self.settle_inode(ev);
                proof {
                    assert forall|x: u64| x != ino && old(self).inode_pinned(x) implies #[trigger] self.inode_pinned(x)
                        && evolves(old(self).known_inode(x), self.known_inode(x)) by {
                        assert(mid.inode_pinned(x));
                        assert(mid.known_inode(x) == old(self).known_inode(x));
                        match ev {
                            Some((ek, ea, ed)) => {
                                assert(ea.ino == ek);
                                if x == ek && ed {
                                    let ob = self.outbox@;
                                    assert(ob.drop_last() =~= mid.outbox@);
                                    assert(outbox_inode(ob, x) == Some(if ea.nlink == 0 { Fetched::Absent } else { Fetched::Found(ea) }));
                                }
                                if x == ek && !ed {
                                    assert(outbox_inode(old(self).outbox@, x) is Some);
                                }
                                if x != ek {
                                    if ed {
                                        assert(self.outbox@.drop_last() =~= mid.outbox@);
                                        assert(outbox_inode(self.outbox@, x) == outbox_inode(mid.outbox@, x));
                                    }
                                    assert(self.inode_pinned(x));
                                    assert(self.known_inode(x) == mid.known_inode(x));
                                }
                            },
                            None => {},
                        }
                    }
                }
                Ok(())
            },
            Fetched::Absent => Err(FsError::Errno(Errno::NoEnt)),
            Fetched::Corrupt => Err(FsError::Errno(Errno::Io)),
        }
    }

    /// What loading `ino` would give, without loading it.
    fn probe_inode(&self, ino: u64) -> (r: Result<(), FsError>)
        requires
            self.wf(),
        ensures
            match self.load_result(ino) {
                Ok(_) => r is Ok,
                Err(e) => r == Err::<(), FsError>(e),
            },
    {
        if self.inodes.contains(ino) {
            return Ok(());
        }
        match self.staged_inodes.get(&ino) {
            Some(Fetched::Found(a)) => {
                if check_record(a) && a.ino == ino {
                    Ok(())
                } else {
                    Err(FsError::Errno(Errno::Io))
                }
            },
            Some(Fetched::Absent) => Err(FsError::Errno(Errno::NoEnt)),
            Some(Fetched::Corrupt) => Err(FsError::Errno(Errno::Io)),
            None => Err(FsError::MissingInode(ino)),
        }
    }

    /// The record that loading `ino` would give, without loading it.
    fn peek_record(&self, ino: u64) -> (r: Option<&Attrs>)
        requires
            self.wf(),
            self.load_result(ino) is Ok,
        ensures
            r is Some && *r->Some_0 == self.load_result(ino)->Ok_0,
    {
        if self.inodes.contains(ino) {
            return self.inodes.peek(ino);
        }
        match self.staged_inodes.get(&ino) {
            Some(Fetched::Found(a)) => Some(a),
            _ => None,
        }
    }

    /// Brings two records that both load into the inode cache, so that both
    /// are cached afterwards: cached ones are refreshed first, so that
    /// bringing in a staged one never evicts the other.
    fn load_pair(&mut self, a: u64, b: u64)
        requires
            old(self).wf(),
            old(self).load_result(a) is Ok,
            old(self).load_result(b) is Ok,
        ensures
            final(self).wf(),
            final(self).config() == old(self).config(),
            final(self).block_cache() == old(self).block_cache(),
            final(self).staged_blocks() == old(self).staged_blocks(),
            final(self).free_blocks() == old(self).free_blocks(),
            final(self).free_inodes() == old(self).free_inodes(),
            forall|x: u64| #[trigger] outbox_block(final(self).pending(), x) == outbox_block(old(self).pending(), x),
            final(self).inode_cache().contains_key(a),
            final(self).inode_cache().contains_key(b),
            final(self).inode_cache()[a].0 == old(self).load_result(a)->Ok_0,
            final(self).inode_cache()[b].0 == old(self).load_result(b)->Ok_0,
            forall|x: u64| #[trigger] final(self).inode_cache().contains_key(x) ==> old(self).load_result(x) == Ok::<Attrs, FsError>(
                final(self).inode_cache()[x].0),
    {
        let ghost s0 = *self;
        if self.inodes.contains(a) {
            let _ = self.load_inode(a);
            let ghost s1 = *self;
            proof {
                assert(s1.load_result(b) == s0.load_result(b));
            }
            let _ = self.load_inode(b);
            proof {
                if b != a {
                    assert(s1.inodes.recent() == a);
                }
                assert forall|x: u64| #[trigger] self.inode_cache().contains_key(x) implies s0.load_result(x) == Ok::<Attrs, FsError>(
                    self.inode_cache()[x].0) by {
                    assert(s1.load_result(x) == Ok::<Attrs, FsError>(self.inode_cache()[x].0));
                    assert(s1.inode_cache().contains_key(x) ==> s0.load_result(x) == Ok::<Attrs, FsError>(s1.inode_cache()[x].0));
                    if !s1.inode_cache().contains_key(x) {
                        assert(s1.staged_inodes().contains_key(x));
                        assert(s0.staged_inodes().contains_key(x));
                    }
                }
            }
        } else {
            let _ = self.load_inode(b);
            let ghost s1 = *self;
            proof {
                if b != a {
                    assert(s0.staged_inodes().contains_key(a));
                    assert(s1.staged_inodes().contains_key(a));
                    assert(!s1.inode_cache().contains_key(a));
                    assert(s1.load_result(a) == s0.load_result(a));
                }
            }
            let _ = self.load_inode(a);
            proof {
                if b != a {
                    assert(s1.inodes.recent() == b);
                }
                assert forall|x: u64| #[trigger] self.inode_cache().contains_key(x) implies s0.load_result(x) == Ok::<Attrs, FsError>(
                    self.inode_cache()[x].0) by {
                    assert(s1.load_result(x) == Ok::<Attrs, FsError>(self.inode_cache()[x].0));
                    assert(s1.inode_cache().contains_key(x) ==> s0.load_result(x) == Ok::<Attrs, FsError>(s1.inode_cache()[x].0));
                    if !s1.inode_cache().contains_key(x) {
                        assert(s1.staged_inodes().contains_key(x));
                        assert(s0.staged_inodes().contains_key(x));
                    }
                }
            }
        }
    }

    /// The last content that the outbox writes to block `id`.
    fn outbox_lookup(&self, id: u64) -> (r: Option<Vec<u8>>)
        ensures
            match r {
                Some(d) => outbox_block(self.outbox@, id) == Some(d@),
                None => outbox_block(self.outbox@, id) is None,
            },
    {
        let ghost ob = self.outbox@;
        let mut i: usize = self.outbox.len();
        assert(ob.subrange(0, i as int) =~= ob);
        while i > 0
            invariant
                i <= ob.len(),
                ob == self.outbox@,
                outbox_block(ob, id) == outbox_block(ob.subrange(0, i as int), id),
            decreases i,
        {
            let ghost pre = ob.subrange(0, i as int);
            proof {
                assert(pre.drop_last() =~= ob.subrange(0, i - 1));
                assert(pre.last() == ob[i - 1]);
            }
            match &self.outbox[i - 1] {
                Writeback::Block { id: b, data } => {
                    if *b == id {
                        return Some(copy_bytes(data.as_slice()));
                    }
                },
                _ => {},
            }
            i = i - 1;
        }
        proof {
            assert(ob.subrange(0, 0) =~= Seq::<Writeback>::empty());
        }
        None
    }

    /// The content of block `id` as this core knows it: from the block
    /// cache, the outbox or what was staged, without changing any of them.
    fn peek_block(&self, id: u64) -> (r: Result<Vec<u8>, FsError>)
        requires
            self.wf(),
        ensures
            match r {
                Ok(c) => self.known_block(id) == Some(c@) && c@.len() == self.spec_block_size(),
                Err(e) => e == FsError::MissingBlock(id) && self.known_block(id) is None,
            },
    {
        match self.blocks.peek(id) {
            Some(d) => { return Ok(copy_bytes(d.as_slice())); },
            None => {},
        }
        match self.outbox_lookup(id) {
            Some(d) => { return Ok(d); },
            None => {},
        }
        match self.staged_blocks.get(&id) {
            Some(d) => Ok(copy_bytes(d.as_slice())),
            None => Err(FsError::MissingBlock(id)),
        }
    }

    /// The content of block `id`: from the block cache, or from what was
    /// staged, which then enters the cache clean.
    fn read_block(&mut self, id: u64) -> (r: Result<Vec<u8>, FsError>)
        requires
            old(self).wf(),
        ensures
            final(self).wf(),
            final(self).config() == old(self).config(),
            final(self).inode_cache() == old(self).inode_cache(),
            final(self).staged_inodes() == old(self).staged_inodes(),
            final(self).staged_blocks() == old(self).staged_blocks(),
            final(self).free_blocks() == old(self).free_blocks(),
            final(self).free_inodes() == old(self).free_inodes(),
            forall|x: u64| #[trigger] outbox_inode(final(self).pending(), x) == outbox_inode(old(self).pending(), x),
            forall|x: u64| old(self).block_pinned(x) ==> #[trigger] final(self).block_pinned(x)
                && final(self).known_block(x) == old(self).known_block(x),
            forall|x: u64| #[trigger] final(self).known_block(x) is Some ==> final(self).known_block(x) == old(self).known_block(x),
            match r {
                Ok(c) => old(self).known_block(id) == Some(c@) && c@.len() == old(self).spec_block_size(),
                Err(FsError::MissingBlock(i)) => i == id && !old(self).block_cache().contains_key(id)
                    && !old(self).staged_blocks().contains_key(id),
                _ => false,
            },
    {
        if self.blocks.contains(id) {
            self.blocks.touch(id);
            return match self.blocks.peek(id) {
                Some(d) => Ok(copy_bytes(d.as_slice())),
                None => Err(FsError::MissingBlock(id)),
            };
        }
        let (kept, out) = match self.staged_blocks.get(&id) {
            Some(d) => (copy_bytes(d.as_slice()), copy_bytes(d.as_slice())),
            None => { return Err(FsError::MissingBlock(id)); },
        };
        let ghost pre = *self;
        let ev = self.blocks.put(id, kept, false);
        self.settle_block(ev);
        proof {
            assert forall|x: u64| #![trigger self.block_pinned(x)] #![trigger old(self).block_pinned(x)] pre.block_pinned(x) implies self.block_pinned(x)
                && self.known_block(x) == pre.known_block(x) by {
                match ev {
                    Some((ek, ed, dirty)) => {
                        if dirty {
                            assert(self.outbox@.drop_last() =~= pre.outbox@);
                        }
                    },
                    None => {},
                }
            }
            assert forall|b: u64| #[trigger] self.blocks@.contains_key(b) && !self.blocks@[b].1 implies outbox_block(self.outbox@, b) is None by {
                match ev {
                    Some((ek, ed, dirty)) => {
                        if dirty {
                            assert(self.outbox@.drop_last() =~= pre.outbox@);
                        }
                    },
                    None => {},
                }
            }
            assert forall|x: u64| #[trigger] self.known_block(x) is Some implies self.known_block(x) == pre.known_block(x) by {
                match ev {
                    Some((ek, ed, dirty)) => {
                        if dirty {
                            assert(self.outbox@.drop_last() =~= pre.outbox@);
                        }
                        if x == ek && !dirty {
                            assert(outbox_block(pre.outbox@, x) is None);
                        }
                    },
                    None => {},
                }
            }
        }
        Ok(out)
    }

    /// Stores `data` as the content of block `id`, dirty.
    #[verifier::spinoff_prover]
    fn write_block(&mut self, id: u64, data: Vec<u8>)
        requires
            old(self).wf(),
            data@.len() == old(self).spec_block_size(),
        ensures
            final(self).wf(),
            final(self).config() == old(self).config(),
            final(self).inode_cache() == old(self).inode_cache(),
            final(self).staged_inodes() == old(self).staged_inodes(),
            final(self).staged_blocks() == old(self).staged_blocks().remove(id),
            final(self).free_blocks() == old(self).free_blocks(),
            final(self).free_inodes() == old(self).free_inodes(),
            forall|x: u64| #[trigger] outbox_inode(final(self).pending(), x) == outbox_inode(old(self).pending(), x),
            final(self).block_pinned(id),
            final(self).known_block(id) == Some(data@),
            forall|x: u64| x != id && old(self).block_pinned(x) ==> #[trigger] final(self).block_pinned(x),
            forall|x: u64| x != id && old(self).block_pinned(x) ==> #[trigger] final(self).known_block(x) == old(self).known_block(x),
    {
        self.staged_blocks.remove(&id);
        let ghost pre = *self;
        assert(pre.wf());
        let ev = self.blocks.put(id, data, true);
        proof {
            assert forall|b: u64| #[trigger] self.blocks@.contains_key(b) && self.blocks@[b].1 implies !self.staged_blocks@.contains_key(b) by {
                if b != id {
                    assert(pre.blocks@.contains_key(b) && pre.blocks@[b].1);
                }
            }
        }
        self.settle_block(ev);
        proof {
            assert(pre.staged_blocks@ =~= old(self).staged_blocks@.remove(id));
            assert forall|x: u64| x != id && #[trigger] old(self).block_pinned(x) implies self.block_pinned(x)
                && self.known_block(x) == old(self).known_block(x) by {
                assert(pre.block_pinned(x));
                assert(pre.known_block(x) == old(self).known_block(x));
                if pre.blocks@.contains_key(x) && !pre.blocks@[x].1 {
                    assert(outbox_block(pre.outbox@, x) is None);
                }
                match ev {
                    Some((ek, ed, dirty)) => {
                        if dirty {
                            assert(self.outbox@.drop_last() =~= pre.outbox@);
                        }
                    },
                    None => {},
                }
            }
            assert forall|b: u64| #[trigger] self.blocks@.contains_key(b) && !self.blocks@[b].1 implies outbox_block(self.outbox@, b) is None by {
                match ev {
                    Some((ek, ed, dirty)) => {
                        if dirty {
                            assert(self.outbox@.drop_last() =~= pre.outbox@);
                        }
                    },
                    None => {},
                }
            }
            assert(self.staged_blocks@ =~= old(self).staged_blocks@.remove(id));
        }
    }

    /// Takes the cached record of `ino` out of the inode cache.
    fn take_inode(&mut self, ino: u64) -> (r: Attrs)
        requires
            old(self).wf(),
            old(self).inode_cache().contains_key(ino),
        ensures
            final(self).wf(),
            final(self).config() == old(self).config(),
            r == old(self).inode_cache()[ino].0,
            record_wf(r),
            r.ino == ino,
            final(self).inode_cache() == old(self).inode_cache().remove(ino),
            final(self).inode_cache().len() < final(self).inode_capacity(),
            final(self).inode_capacity() == old(self).inode_capacity(),
            final(self).pending() == old(self).pending(),
            final(self).block_cache() == old(self).block_cache(),
            final(self).staged_inodes() == old(self).staged_inodes(),
            final(self).staged_blocks() == old(self).staged_blocks(),
            final(self).free_blocks() == old(self).free_blocks(),
            final(self).free_inodes() == old(self).free_inodes(),
    {
        proof {
            self.inodes.lemma_bounded();
            self.inodes@.lemma_remove_key_len(ino);
        }
        let e = self.inodes.take(ino);
        e.unwrap().0
    }

    /// Puts a record back into an inode cache that has room for it, dirty;
    /// a directory's record is also written through.
    fn restore_inode(&mut self, a: Attrs)
        requires
            old(self).wf(),
            record_wf(a),
            !old(self).inode_cache().contains_key(a.ino),
            !old(self).staged_inodes().contains_key(a.ino),
            old(self).inode_cache().len() < old(self).inode_capacity(),
        ensures
            final(self).wf(),
            final(self).config() == old(self).config(),
            final(self).inode_cache() == old(self).inode_cache().insert(a.ino, (a, true)),
            final(self).inode_capacity() == old(self).inode_capacity(),
            final(self).inodes.recent() == a.ino,
            final(self).pending() == if a.kind == FileType::Directory {
                old(self).pending().push(Writeback::Sync(a.ino))
            } else {
                old(self).pending()
            },
            forall|x: u64| #[trigger] outbox_inode(final(self).pending(), x) == outbox_inode(old(self).pending(), x),
            forall|x: u64| #[trigger] outbox_block(final(self).pending(), x) == outbox_block(old(self).pending(), x),
            final(self).block_cache() == old(self).block_cache(),
            final(self).staged_inodes() == old(self).staged_inodes(),
            final(self).staged_blocks() == old(self).staged_blocks(),
            final(self).free_blocks() == old(self).free_blocks(),
            final(self).free_inodes() == old(self).free_inodes(),
    {
        let ino = a.ino;
        let is_dir = a.kind == FileType::Directory;
        let ev = self.inodes.put(ino, a, true);
        if is_dir {
            let ghost ob = self.outbox@;
            self.outbox.push(Writeback::Sync(ino));
            proof {
                assert(self.outbox@.drop_last() =~= ob);
                assert forall|x: u64| #[trigger] outbox_inode(self.outbox@, x) == outbox_inode(ob, x) by {}
                assert forall|x: u64| #[trigger] outbox_block(self.outbox@, x) == outbox_block(ob, x) by {}
            }
        }
    }

    fn stat(&self, a: &Attrs) -> (r: Stat)
        requires
            self.wf(),
            record_wf(*a),
        ensures
            r == stat_of(*a, self.spec_block_size()),
    {
        Stat {
            ino: a.ino,
            size: a.size,
            blocks: a.blocks(),
            atime: a.atime,
            mtime: a.mtime,
            ctime: a.ctime,
            crtime: a.crtime,
            kind: a.kind,
            perm: a.perm,
            nlink: a.nlink,
            uid: a.uid,
            gid: a.gid,
            rdev: a.rdev,
            flags: a.flags,
            blksize: self.block_size as u32,
        }
    }

    /// Ends an operation: unless it stopped for something missing, what
    /// was staged for it is forgotten.
    fn complete<T>(&mut self, r: &Result<T, FsError>)
        requires
            old(self).wf(),
        ensures
            final(self).wf(),
            final(self).config() == old(self).config(),
            final(self).pending() == old(self).pending(),
            final(self).inode_cache() == old(self).inode_cache(),
            final(self).block_cache() == old(self).block_cache(),
            final(self).free_blocks() == old(self).free_blocks(),
            final(self).free_inodes() == old(self).free_inodes(),
            final(self).inode_capacity() == old(self).inode_capacity(),
            match r {
                Err(FsError::MissingInode(_)) | Err(FsError::MissingBlock(_)) => {
                    &&& final(self).staged_inodes() == old(self).staged_inodes()
                    &&& final(self).staged_blocks() == old(self).staged_blocks()
                },
                _ => {
                    &&& final(self).staged_inodes() == Map::<u64, Fetched>::empty()
                    &&& final(self).staged_blocks() == Map::<u64, Vec<u8>>::empty()
                },
            },
    {
        match r {
            Err(FsError::MissingInode(_)) => {},
            Err(FsError::MissingBlock(_)) => {},
            _ => self.clear_staged(),
        }
    }

    /// Brings `ino` into the cache and returns its attributes.
    fn fetch_stat(&mut self, ino: u64) -> (r: Result<Stat, FsError>)
        requires
            old(self).wf(),
        ensures
            final(self).wf(),
            final(self).config() == old(self).config(),
            final(self).spec_block_size() == old(self).spec_block_size(),
            final(self).block_cache() == old(self).block_cache(),
            final(self).staged_blocks() == old(self).staged_blocks(),
            final(self).free_blocks() == old(self).free_blocks(),
            final(self).free_inodes() == old(self).free_inodes(),
            forall|x: u64| #[trigger] outbox_block(final(self).pending(), x) == outbox_block(old(self).pending(), x),
            forall|x: u64| x != ino && #[trigger] old(self).inode_pinned(x) ==> final(self).inode_pinned(x)
                && evolves(old(self).known_inode(x), final(self).known_inode(x)),
            match old(self).load_result(ino) {
                Ok(a) => r == Ok::<Stat, FsError>(stat_of(a, old(self).spec_block_size())),
                Err(e) => r == Err::<Stat, FsError>(e),
            },
            r is Err ==> final(self).inode_cache() == old(self).inode_cache(),
    {
        match self.load_inode(ino) {
            Ok(()) => match self.inodes.peek(ino) {
                Some(a) => Ok(self.stat(a)),
                None => Err(FsError::Errno(Errno::Io)),
            },
            Err(e) => Err(e),
        }
    }

    /// The attributes of inode `ino`.
    pub fn getattr(&mut self, ino: u64) -> (r: Result<Stat, FsError>)
        requires
            old(self).wf(),
        ensures
            final(self).wf(),
            final(self).config() == old(self).config(),
            match old(self).load_result(ino) {
                Ok(a) => r == Ok::<Stat, FsError>(stat_of(a, old(self).spec_block_size())),
                Err(e) => r == Err::<Stat, FsError>(e),
            },
            r is Err ==> final(self).inode_cache() == old(self).inode_cache(),
    {
        let r = self.fetch_stat(ino);
        self.complete(&r);
        r
    }

    /// Succeeds when inode `ino` exists.
    pub fn access(&mut self, ino: u64) -> (r: Result<(), FsError>)
        requires
            old(self).wf(),
        ensures
            final(self).wf(),
            final(self).config() == old(self).config(),
            match old(self).load_result(ino) {
                Ok(_) => r is Ok,
                Err(e) => r == Err::<(), FsError>(e),
            },
            r is Err ==> final(self).inode_cache() == old(self).inode_cache(),
    {
        let r = self.load_inode(ino);
        self.complete(&r);
        r
    }

    pub open spec fn lookup_spec(pre: CyanFS, parent: u64, name: Seq<u8>, r: Result<Stat, FsError>) -> bool {
        match pre.load_result(parent) {
            Err(e) => r == Err::<Stat, FsError>(e),
            Ok(p) => if p.kind != FileType::Directory {
                r == Err::<Stat, FsError>(FsError::Errno(Errno::NotDir))
            } else {
                match entry_of(p.entries@, name) {
                    None => r == Err::<Stat, FsError>(FsError::Errno(Errno::NoEnt)),
                    Some(de) => match pre.load_result(de.ino) {
                        Ok(a) => r == Ok::<Stat, FsError>(stat_of(a, pre.spec_block_size())),
                        Err(e) => r == Err::<Stat, FsError>(e),
                    },
                }
            },
        }
    }

    /// The attributes of the entry `name` of directory `parent`.
    pub fn lookup(&mut self, parent: u64, name: &[u8]) -> (r: Result<Stat, FsError>)
        requires
            old(self).wf(),
        ensures
            final(self).wf(),
            final(self).config() == old(self).config(),
            Self::lookup_spec(*old(self), parent, name@, r),
    {
        let r = self.lookup_inner(parent, name);
        self.complete(&r);
        r
    }

    /// The entry `name` of directory `parent`.
    pub fn lookup_dirent(&mut self, parent: u64, name: &[u8]) -> (r: Result<DirEntry, FsError>)
        requires
            old(self).wf(),
        ensures
            final(self).wf(),
            final(self).config() == old(self).config(),
            forall|x: u64| x != parent && #[trigger] final(self).inode_cache().contains_key(x) ==> old(self).inode_cache().contains_key(x)
                && final(self).inode_cache()[x] == old(self).inode_cache()[x],
            forall|x: u64| x != parent && #[trigger] final(self).staged_inodes().contains_key(x) ==> old(self).staged_inodes().contains_key(x)
                && final(self).staged_inodes()[x] == old(self).staged_inodes()[x],
            r is Ok ==> final(self).inode_cache().contains_key(parent)
                && old(self).load_result(parent) == Ok::<Attrs, FsError>(final(self).inode_cache()[parent].0),
            match old(self).load_result(parent) {
                Err(e) => r == Err::<DirEntry, FsError>(e),
                Ok(p) => if p.kind != FileType::Directory {
                    r == Err::<DirEntry, FsError>(FsError::Errno(Errno::NotDir))
                } else {
                    match entry_of(p.entries@, name@) {
                        None => r == Err::<DirEntry, FsError>(FsError::Errno(Errno::NoEnt)),
                        Some(de) => r == Ok::<DirEntry, FsError>(de),
                    }
                },
            },
    {
        if let Err(e) = self.load_inode(parent) {
            return Err(e);
        }
        match self.inodes.peek(parent) {
            Some(p) => {
                if p.kind != FileType::Directory {
                    return Err(FsError::Errno(Errno::NotDir));
                }
                match lookup_entry(&p.entries, name) {
                    Ok(de) => Ok(de),
                    Err(e) => Err(FsError::Errno(e)),
                }
            },
            None => Err(FsError::Errno(Errno::Io)),
        }
    }

    fn lookup_inner(&mut self, parent: u64, name: &[u8]) -> (r: Result<Stat, FsError>)
        requires
            old(self).wf(),
        ensures
            final(self).wf(),
            final(self).config() == old(self).config(),
            Self::lookup_spec(*old(self), parent, name@, r),
    {
        if let Err(e) = self.probe_inode(parent) {
            return Err(e);
        }
        let de = match self.peek_record(parent) {
            Some(p) => {
                if p.kind != FileType::Directory {
                    return Err(FsError::Errno(Errno::NotDir));
                }
                match lookup_entry(&p.entries, name) {
                    Ok(de) => de,
                    Err(e) => { return Err(FsError::Errno(e)); },
                }
            },
            None => { return Err(FsError::Errno(Errno::Io)); },
        };
        if let Err(e) = self.probe_inode(de.ino) {
            return Err(e);
        }
        self.load_pair(parent, de.ino);
        match self.inodes.peek(de.ino) {
            Some(a) => Ok(self.stat(a)),
            None => Err(FsError::Errno(Errno::Io)),
        }
    }

    /// The target of symlink `ino`.
    pub fn readlink(&mut self, ino: u64) -> (r: Result<Vec<u8>, FsError>)
        requires
            old(self).wf(),
        ensures
            final(self).wf(),
            final(self).config() == old(self).config(),
            match old(self).load_result(ino) {
                Ok(a) => r is Ok && r->Ok_0@ == a.link@,
                Err(e) => r is Err && r->Err_0 == e,
            },
            r is Err ==> final(self).inode_cache() == old(self).inode_cache(),
    {
        let r = match self.load_inode(ino) {
            Ok(()) => match self.inodes.peek(ino) {
                Some(a) => Ok(copy_bytes(a.link.as_slice())),
                None => Err(FsError::Errno(Errno::Io)),
            },
            Err(e) => Err(e),
        };
        self.complete(&r);
        r
    }

    /// The entries of directory `ino` from position `offset` on, in order.
    pub fn readdir(&mut self, ino: u64, offset: u64) -> (r: Result<Vec<Listing>, FsError>)
        requires
            old(self).wf(),
        ensures
            final(self).wf(),
            final(self).config() == old(self).config(),
            match old(self).load_result(ino) {
                Ok(a) => r is Ok && {
                    let l = r->Ok_0@;
                    &&& offset <= a.entries@.len() ==> l.len() == a.entries@.len() - offset
                    &&& offset > a.entries@.len() ==> l.len() == 0
                    &&& forall|i: int| 0 <= i < l.len() ==> lists(#[trigger] l[i], a.entries@[offset + i], offset + i)
                },
                Err(e) => r is Err && r->Err_0 == e,
            },
            r is Err ==> final(self).inode_cache() == old(self).inode_cache(),
    {
        let r = match self.load_inode(ino) {
            Ok(()) => match self.inodes.peek(ino) {
                Some(a) => {
                    let mut out: Vec<Listing> = Vec::new();
                    let mut i: u64 = offset;
                    while i < a.entries.len() as u64
                        invariant
                            offset <= i,
                            i == offset || i <= a.entries@.len(),
                            out@.len() == i - offset,
                            forall|t: int| 0 <= t < out@.len() ==> lists(#[trigger] out@[t], a.entries@[offset + t], offset + t),
                        decreases a.entries@.len() - i,
                    {
                        let e = &a.entries[i as usize];
                        assert(*e == a.entries@[i as int]);
                        let ghost prev = out@;
                        out.push(Listing { ino: e.entry.ino, offset: i + 1, kind: e.entry.kind, name: copy_bytes(e.name.as_slice()) });
                        proof {
                            assert forall|t: int| 0 <= t < out@.len() implies lists(#[trigger] out@[t], a.entries@[offset + t], offset + t) by {
                                if t < prev.len() {
                                    assert(out@[t] == prev[t]);
                                } else {
                                    assert(t == i - offset);
                                    assert(offset + t == i);
                                    assert(out@[t].name@ == e.name@);
                                    assert(out@[t].ino == e.entry.ino);
                                    assert(out@[t].kind == e.entry.kind);
                                    assert(out@[t].offset == i + 1);
                                }
                            }
                        }
                        i = i + 1;
                    }
                    Ok(out)
                },
                None => Err(FsError::Errno(Errno::Io)),
            },
            Err(e) => Err(e),
        };
        self.complete(&r);
        r
    }

    /// A block of zeros.
    fn zero_block(&self) -> (r: Vec<u8>)
        requires
            self.wf(),
        ensures
            r@.len() == self.spec_block_size(),
            r@ == zeros(self.spec_block_size() as int),
    {
        let mut r: Vec<u8> = Vec::new();
        let mut i: u64 = 0;
        while i < self.block_size
            invariant
                r@.len() == i,
                i <= self.block_size,
                forall|t: int| 0 <= t < i ==> r@[t] == 0u8,
            decreases self.block_size - i,
        {
            r.push(0u8);
            i = i + 1;
        }
        assert(r@ =~= zeros(self.spec_block_size() as int));
        r
    }

    /// Writes `data` at byte `offset` of file `ino`, first growing it as
    /// needed, and returns the number of bytes written.
    pub fn write(&mut self, ino: u64, offset: u64, data: &[u8]) -> (r: Result<u64, FsError>)
        requires
            old(self).wf(),
        ensures
            final(self).wf(),
            final(self).config() == old(self).config(),
            Self::write_spec(*old(self), *final(self), ino, offset, data@, r),
    {
        let r = self.write_inner(ino, offset, data);
        let ghost mid = *self;
        self.complete(&r);
        proof {
            assert forall|x: u64| #![trigger self.known_block(x)] #![trigger self.block_pinned(x)] mid.block_pinned(x) implies self.block_pinned(x)
                && self.known_block(x) == mid.known_block(x) by {
                if mid.block_cache().contains_key(x) && !mid.block_cache()[x].1 {
                    assert(outbox_block(mid.pending(), x) is None);
                }
            }
        }
        r
    }

    pub open spec fn write_spec(pre: CyanFS, post: CyanFS, ino: u64, offset: u64, data: Seq<u8>, r: Result<u64, FsError>) -> bool {
        let bs = pre.spec_block_size() as int;
        let end = offset + data.len();
        &&& r is Err ==> stores_unchanged(pre, post)
        &&& match pre.load_result(ino) {
            Err(e) => r == Err::<u64, FsError>(e),
            Ok(a) => {
                let need = ceil_div(end, bs);
                let orig = sum_lengths(a.extents@);
                &&& end > u64::MAX ==> r == Err::<u64, FsError>(FsError::Errno(Errno::Inval))
                &&& end <= u64::MAX && need > CAPACITY ==> r == Err::<u64, FsError>(FsError::Errno(Errno::NoSpc))
                &&& r == Err::<u64, FsError>(FsError::Errno(Errno::NoSpc)) ==> need > CAPACITY || (need > orig
                    && forall|t: int| 0 <= t && t + need - orig <= CAPACITY ==> !#[trigger] run_free(pre.free_blocks(), t, need - orig))
                &&& r is Err ==> stores_unchanged(pre, post)
                &&& match r {
                    Ok(n) => {
                        let b = post.inode_cache()[ino].0;
                        let blist = block_list(b.extents@);
                        &&& n == data.len()
                        &&& data.len() == 0 ==> forall|x: u64| #[trigger] pre.block_pinned(x)
                            ==> post.block_pinned(x) && post.known_block(x) == pre.known_block(x)
                        &&& forall|x: u64| #[trigger] pre.block_pinned(x) && !blist.subrange((offset as int) / bs, need).contains(x)
                            ==> post.block_pinned(x) && post.known_block(x) == pre.known_block(x)
                        &&& post.inode_cache().contains_key(ino) && post.inode_cache()[ino].1
                        &&& grown(a, b, end, bs, pre.free_blocks(), post.free_blocks())
                        &&& covered(a, bs as nat) ==> covered(b, bs as nat)
                        &&& data.len() > 0 && blist.no_duplicates() ==> forall|k: int| (offset as int) / bs <= k < need ==> {
                            &&& post.block_pinned(blist[k])
                            &&& block_written(
                                #[trigger] post.known_block(blist[k]),
                                if k < orig { pre.known_block(blist[k]) } else { None },
                                k, bs, offset as int, data)
                        }
                    },
                    Err(FsError::MissingBlock(i)) => {
                        let first = (offset as int) / bs;
                        let blist0 = block_list(a.extents@);
                        &&& data.len() > 0
                        &&& pre.known_block(i) is None
                        &&& (first < orig && !((offset as int) % bs == 0 && data.len() >= bs) && i == blist0[first])
                            || (need - 1 != first && need - 1 < orig && end % bs != 0 && i == blist0[need - 1])
                    },
                    Err(FsError::Errno(e)) => (e == Errno::Inval && end > u64::MAX) || e == Errno::NoSpc,
                    Err(FsError::MissingInode(_)) => false,
                }
            },
        }
    }

    #[verifier::rlimit(50)]
    fn write_inner(&mut self, ino: u64, offset: u64, data: &[u8]) -> (r: Result<u64, FsError>)
        requires
            old(self).wf(),
        ensures
            final(self).wf(),
            final(self).config() == old(self).config(),
            Self::write_spec(*old(self), *final(self), ino, offset, data@, r),
    {
        if let Err(e) = self.probe_inode(ino) {
            return Err(e);
        }
        let ghost a0 = self.load_result(ino)->Ok_0;
        let orig: u64 = match self.peek_record(ino) {
            Some(a) => a.blocks(),
            None => { return Err(FsError::Errno(Errno::Io)); },
        };
        let len: u64 = data.len() as u64;
        if offset > u64::MAX - len {
            return Err(FsError::Errno(Errno::Inval));
        }
        let end: u64 = offset + len;
        let bs: u64 = self.block_size;
        let q: u64 = end / bs;
        proof {
            if end % bs != 0 {
                assert(bs >= 2);
                assert(q < u64::MAX) by (nonlinear_arith)
                    requires
                        q == end / bs,
                        bs >= 2,
                        end <= u64::MAX,
                ;
            }
        }
        let need: u64 = if end % bs == 0 { q } else { q + 1 };
        proof {
            lemma_ceil_div(end as int, bs as int);
            lemma_ceil_covers(end as int, bs as int);
        }
        if need > CAPACITY as u64 {
            return Err(FsError::Errno(Errno::NoSpc));
        }
        let first: u64 = offset / bs;
        let ghost s1 = *self;
        let ghost blist0 = block_list(a0.extents@);
        proof {
            crate::inode::lemma_block_list_len(a0.extents@);
            assert forall|x: u64| #[trigger] s1.known_block(x) == old(self).known_block(x) by {}
        }
        // the old contents of a partly covered first or last block
        let mut head: Option<Vec<u8>> = None;
        let mut tail: Option<Vec<u8>> = None;
        if len > 0 {
            proof {
                lemma_first_block(offset as int, len as int, bs as int);
                lemma_cover(first as int, bs as int, offset as int, end as int);
            }
            if first < orig && !(offset % bs == 0 && len >= bs) {
                let id = match self.peek_record(ino) {
                    Some(a) => logical_block(&a.extents, first),
                    None => { return Err(FsError::Errno(Errno::Io)); },
                };
                match self.peek_block(id) {
                    Ok(c) => { head = Some(c); },
                    Err(e) => { return Err(e); },
                }
            }
            let ghost s2 = *self;
            let lastk: u64 = need - 1;
            if lastk != first && lastk < orig && end % bs != 0 {
                let id = match self.peek_record(ino) {
                    Some(a) => logical_block(&a.extents, lastk),
                    None => { return Err(FsError::Errno(Errno::Io)); },
                };
                match self.peek_block(id) {
                    Ok(c) => {
                        proof {
                            assert(s2.known_block(id) is Some);
                        }
                        tail = Some(c);
                    },
                    Err(e) => { return Err(e); },
                }
            }
        }
        // grow the record
        assert(self.free_blocks() == old(self).free_blocks());
        let ghost s3 = *self;
        let mut grow: Option<Extent> = None;
        if need > orig {
            let n: usize = (need - orig) as usize;
            match self.block_allocator.alloc_contiguous(n) {
                Some(s) => { grow = Some(Extent { start: s as u64, end: (s + n) as u64 }); },
                None => { return Err(FsError::Errno(Errno::NoSpc)); },
            }
        }
        assert(grow is Some ==> {
            let e = grow->Some_0;
            &&& e.start < e.end <= CAPACITY
            &&& e.end - e.start == need - orig
            &&& need > orig
            &&& run_free(s3.block_allocator.free(), e.start as int, need - orig)
            &&& self.block_allocator.free() == s3.block_allocator.free().difference(range_set(e.start as int, e.end as int))
        });
        assert(grow is None ==> need <= orig && self.block_allocator.free() == s3.block_allocator.free());
        let _ = self.load_inode(ino);
        let mut a = self.take_inode(ino);
        assert(a == a0);
        if end > a.size {
            a.size = end;
        }
        match grow {
            Some(e) => { a.extents.push(e); },
            None => {},
        }
        let ghost b = a;
        proof {
            if grow is Some {
                lemma_push_extent(a0.extents@, b.extents@, grow->Some_0, need as int);
            } else {
                assert(b.extents@ == a0.extents@);
            }
            crate::inode::lemma_block_list_len(b.extents@);
            assert(names_unique(b.entries@));
            assert(record_wf(b));
        }
        self.restore_inode(a);
        let ghost blist = block_list(b.extents@);
        proof {
            assert forall|x: u64| #[trigger] old(self).block_pinned(x) implies self.block_pinned(x)
                && self.known_block(x) == old(self).known_block(x) by {
                assert(outbox_block(self.pending(), x) == outbox_block(old(self).pending(), x));
            }
        }
        // write the blocks
        if len > 0 {
            let mut k: u64 = first;
            while k < need
                invariant
                    self.wf(),
                    self.config() == old(self).config(),
                    self.block_size == bs,
                    bs > 0,
                    self.inodes@.contains_key(ino),
                    self.inodes@[ino] == (b, true),
                    self.free_blocks() == s3.block_allocator.free().difference(
                        if grow is Some { range_set(grow->Some_0.start as int, grow->Some_0.end as int) } else { Set::empty() }),
                    record_wf(b),
                    sum_lengths(b.extents@) >= need,
                    blist == block_list(b.extents@),
                    blist0.len() == orig,
                    blist.len() == sum_lengths(b.extents@),
                    forall|i: int| 0 <= i < blist0.len() ==> blist[i] == #[trigger] blist0[i],
                    first <= k <= need,
                    first == offset / bs,
                    need == ceil_div(end as int, bs as int),
                    end == offset + len,
                    len == data@.len(),
                    len > 0,
                    orig == sum_lengths(a0.extents@),
                    head is Some ==> first < orig && (head->Some_0)@.len() == bs
                        && old(self).known_block(blist0[first as int]) == Some((head->Some_0)@),
                    first < orig && !(offset % bs == 0 && len >= bs) ==> head is Some,
                    tail is Some ==> need - 1 < orig && need - 1 != first && (tail->Some_0)@.len() == bs
                        && old(self).known_block(blist0[need - 1]) == Some((tail->Some_0)@),
                    need - 1 != first && need - 1 < orig && end % bs != 0 ==> tail is Some,
                    forall|x: u64| #[trigger] old(self).block_pinned(x) && !blist.subrange(first as int, k as int).contains(x)
                        ==> self.block_pinned(x) && self.known_block(x) == old(self).known_block(x),
                    blist.no_duplicates() ==> forall|j: int| first <= j < k ==> {
                        &&& self.block_pinned(blist[j])
                        &&& block_written(
                            #[trigger] self.known_block(blist[j]),
                            if j < orig { old(self).known_block(blist[j]) } else { None },
                            j, bs as int, offset as int, data@)
                    },
                decreases need - k,
            {
                let id = match self.inodes.peek(ino) {
                    Some(a) => logical_block(&a.extents, k),
                    None => { return Err(FsError::Errno(Errno::Io)); },
                };
                let prior = if k == first && head.is_some() {
                    match &head { Some(c) => copy_bytes(c.as_slice()), None => self.zero_block() }
                } else if k + 1 == need && tail.is_some() {
                    match &tail { Some(c) => copy_bytes(c.as_slice()), None => self.zero_block() }
                } else {
                    self.zero_block()
                };
                proof {
                    lemma_cover(k as int, bs as int, offset as int, end as int);
                    assert(k * bs + bs <= CAPACITY * 1048576) by (nonlinear_arith)
                        requires
                            k * bs + bs <= need * bs,
                            need <= CAPACITY,
                            bs <= 1048576,
                    ;
                }
                let nb = merge_block(&prior, k * bs, offset, data);
                let ghost before = *self;
                self.write_block(id, nb);
                proof {
                    let kk = k as int;
                    let prior_k = if kk < orig { old(self).known_block(blist[kk]) } else { None };
                    assert(!covers(kk * bs, bs as int, offset as int, len as int) && prior_k is Some ==> prior_k == Some(prior@));
                    assert(block_written(self.known_block(blist[kk]), prior_k, kk, bs as int, offset as int, data@));
                    assert forall|x: u64| #[trigger] old(self).block_pinned(x) && !blist.subrange(first as int, kk + 1).contains(x)
                        implies self.block_pinned(x) && self.known_block(x) == old(self).known_block(x) by {
                        assert(blist.subrange(first as int, kk + 1)[kk - first] == blist[kk]);
                        if blist.subrange(first as int, kk).contains(x) {
                            let t = choose|t: int| 0 <= t < kk - first && blist.subrange(first as int, kk)[t] == x;
                            assert(blist.subrange(first as int, kk + 1)[t] == x);
                        }
                    }
                    if blist.no_duplicates() {
                        assert forall|j: int| first <= j < k + 1 implies {
                            &&& self.block_pinned(blist[j])
                            &&& block_written(
                                #[trigger] self.known_block(blist[j]),
                                if j < orig { old(self).known_block(blist[j]) } else { None },
                                j, bs as int, offset as int, data@)
                        } by {
                            if j < kk {
                                assert(blist[j] != blist[kk]);
                                assert(before.block_pinned(blist[j]));
                                assert(self.known_block(blist[j]) == before.known_block(blist[j]));
                            }
                        }
                    }
                }
                k = k + 1;
            }
        }
        proof {
            if grow is Some {
                let e = grow->Some_0;
                assert(run_free(old(self).free_blocks(), e.start as int, need - orig));
                assert(b.extents@ == a0.extents@.push(Extent { start: e.start as int as u64, end: (e.start + need - orig) as u64 }));
                assert(self.free_blocks() == old(self).free_blocks().difference(range_set(e.start as int, e.start + need - orig)));
            } else {
                assert(s3.block_allocator.free().difference(Set::empty()) =~= s3.block_allocator.free());
                assert(self.free_blocks() == old(self).free_blocks());
            }
            assert(grown(a0, b, end as int, bs as int, old(self).free_blocks(), self.free_blocks()));
            assert(covered(a0, bs as nat) ==> covered(b, bs as nat)) by (nonlinear_arith)
                requires
                    sum_lengths(b.extents@) >= need,
                    sum_lengths(b.extents@) >= orig,
                    orig == sum_lengths(a0.extents@),
                    need * bs >= end,
                    b.size == if end > a0.size { end as int } else { a0.size as int },
                    bs > 0,
            ;
        }
        Ok(len)
    }

    /// Reads up to `size` bytes of file `ino` from byte `offset`; nothing at
    /// or past the end of the file.
    pub fn read(&mut self, ino: u64, offset: u64, size: u32) -> (r: Result<Vec<u8>, FsError>)
        requires
            old(self).wf(),
        ensures
            final(self).wf(),
            final(self).config() == old(self).config(),
            Self::read_spec(*old(self), *final(self), ino, offset, size, r),
    {
        let r = self.read_inner(ino, offset, size);
        let ghost mid = *self;
        self.complete(&r);
        proof {
            Self::lemma_unstage(mid, *self);
        }
        r
    }

    /// The known contents of `n` consecutive blocks of a block list.
    pub open spec fn known_chunks(&self, blist: Seq<u64>, first: int, n: int) -> Seq<Seq<u8>> {
        Seq::new(n as nat, |i: int| self.known_block(blist[first + i])->Some_0)
    }

    pub open spec fn read_spec(pre: CyanFS, post: CyanFS, ino: u64, offset: u64, size: u32, r: Result<Vec<u8>, FsError>) -> bool {
        let bs = pre.spec_block_size() as int;
        &&& r is Err ==> stores_unchanged(pre, post)
        &&& r is Ok ==> {
            &&& post.free_blocks() == pre.free_blocks() && post.free_inodes() == pre.free_inodes()
            &&& forall|x: u64| #[trigger] pre.block_pinned(x) ==> post.block_pinned(x) && post.known_block(x) == pre.known_block(x)
            &&& forall|x: u64| #[trigger] post.known_block(x) is Some ==> post.known_block(x) == pre.known_block(x)
        }
        &&& match pre.load_result(ino) {
            Err(e) => r is Err && r->Err_0 == e,
            Ok(a) => {
                let eff = if size < a.size - offset { size as int } else { a.size - offset };
                let first = (offset as int) / bs;
                let last = ceil_div(offset + eff, bs);
                let blist = block_list(a.extents@);
                &&& offset >= a.size ==> r is Ok && r->Ok_0@.len() == 0
                &&& offset < a.size && size == 0 ==> r is Ok && r->Ok_0@.len() == 0
                &&& offset < a.size && size > 0 && last > sum_lengths(a.extents@) ==> r is Err && r->Err_0 == FsError::Errno(Errno::Io)
                &&& offset < a.size && size > 0 && last <= sum_lengths(a.extents@) ==> match r {
                    Ok(v) => {
                        &&& forall|i: int| 0 <= i < last - first ==> #[trigger] pre.known_block(blist[first + i]) is Some
                        &&& v@ == assembled(pre.known_chunks(blist, first, last - first), bs, (offset as int) % bs, eff)
                        &&& v@.len() == eff
                    },
                    Err(e) => match e {
                        FsError::MissingBlock(id) => {
                            &&& pre.known_block(id) is None
                            &&& exists|i: int| 0 <= i < last - first && id == #[trigger] blist[first + i]
                        },
                        _ => false,
                    },
                }
            },
        }
    }

    fn read_inner(&mut self, ino: u64, offset: u64, size: u32) -> (r: Result<Vec<u8>, FsError>)
        requires
            old(self).wf(),
        ensures
            final(self).wf(),
            final(self).config() == old(self).config(),
            Self::read_spec(*old(self), *final(self), ino, offset, size, r),
    {
        if let Err(e) = self.probe_inode(ino) {
            return Err(e);
        }
        let ghost a = self.load_result(ino)->Ok_0;
        let (fsize, nblocks) = match self.peek_record(ino) {
            Some(a) => (a.size, a.blocks()),
            None => { return Err(FsError::Errno(Errno::Io)); },
        };
        if offset >= fsize || size == 0 {
            return Ok(Vec::new());
        }
        let eff: u64 = if (size as u64) < fsize - offset { size as u64 } else { fsize - offset };
        let end: u64 = offset + eff;
        let bs: u64 = self.block_size;
        let q: u64 = end / bs;
        proof {
            lemma_ceil_div(end as int, bs as int);
            lemma_ceil_covers(end as int, bs as int);
            lemma_first_block(offset as int, eff as int, bs as int);
            if end % bs != 0 {
                assert(q < u64::MAX) by (nonlinear_arith)
                    requires
                        q == end / bs,
                        bs >= 2,
                        end <= u64::MAX,
                ;
            }
        }
        let last: u64 = if end % bs == 0 { q } else { q + 1 };
        if last > nblocks {
            return Err(FsError::Errno(Errno::Io));
        }
        let first: u64 = offset / bs;
        let ghost blist = block_list(a.extents@);
        proof {
            crate::inode::lemma_block_list_len(a.extents@);
        }
        let mut chunks: Vec<Vec<u8>> = Vec::new();
        let mut k: u64 = first;
        while k < last
            invariant
                self.wf(),
                self.config() == old(self).config(),
                self.block_size == bs,
                bs > 0,
                *self == *old(self),
                self.load_result(ino) == Ok::<Attrs, FsError>(a),
                record_wf(a),
                blist == block_list(a.extents@),
                blist.len() == sum_lengths(a.extents@),
                last <= sum_lengths(a.extents@),
                last == ceil_div(end as int, bs as int),
                first == offset / bs,
                end == offset + eff,
                offset < a.size,
                size > 0,
                eff == if size < a.size - offset { size as int } else { a.size - offset },
                old(self).load_result(ino) == Ok::<Attrs, FsError>(a),
                first <= k <= last,
                chunks@.len() == k - first,
                forall|i: int| 0 <= i < chunks@.len() ==> {
                    &&& (#[trigger] chunks@[i])@.len() == bs
                    &&& old(self).known_block(blist[first + i]) == Some(chunks@[i]@)
                },
            decreases last - k,
        {
            let id = match self.peek_record(ino) {
                Some(a) => logical_block(&a.extents, k),
                None => { return Err(FsError::Errno(Errno::Io)); },
            };
            let c = match self.peek_block(id) {
                Ok(c) => c,
                Err(e) => {
                    proof {
                        assert(id == blist[first + (k - first)]);
                    }
                    return Err(e);
                },
            };
            let ghost prev = chunks@;
            chunks.push(c);
            proof {
                assert forall|i: int| 0 <= i < chunks@.len() implies {
                    &&& (#[trigger] chunks@[i])@.len() == bs
                    &&& old(self).known_block(blist[first + i]) == Some(chunks@[i]@)
                } by {
                    if i < prev.len() {
                        assert(chunks@[i] == prev[i]);
                    }
                }
            }
            k = k + 1;
        }
        proof {
            vstd::arithmetic::div_mod::lemma_fundamental_div_mod(offset as int, bs as int);
            assert(offset % bs + eff <= chunks@.len() * bs) by (nonlinear_arith)
                requires
                    offset == bs * first + offset % bs,
                    chunks@.len() == last - first,
                    last * bs >= end,
                    end == offset + eff,
            ;
        }
        let v = assemble_read(&chunks, bs, offset % bs, eff);
        proof {
            let views = chunks@.map_values(|c: Vec<u8>| c@);
            assert forall|i: int| 0 <= i < views.len() implies Some(#[trigger] views[i]) == old(self).known_block(blist[first + i]) by {
                assert(views[i] == chunks@[i]@);
            }
            assert(v@ == assembled(views, bs as int, (offset as int) % (bs as int), eff as int));
            let sfirst = (offset as int) / (bs as int);
            assert(sfirst == first);
            assert forall|i: int| 0 <= i < last - first implies #[trigger] views[i] == old(self).known_chunks(blist, sfirst, last - first)[i] by {
                assert(old(self).known_block(blist[first + i]) == Some(chunks@[i]@));
            }
            assert(views =~= old(self).known_chunks(blist, sfirst, last - first));
            assert forall|i: int| 0 <= i < last - first implies #[trigger] old(self).known_block(blist[sfirst + i]) is Some by {
                assert(old(self).known_block(blist[first + i]) == Some(chunks@[i]@));
            }
        }
        // blocks read from the backing file enter the cache, clean
        let _ = self.load_inode(ino);
        proof {
            assert forall|x: u64| #[trigger] self.known_block(x) == old(self).known_block(x) by {
                assert(outbox_block(self.pending(), x) == outbox_block(old(self).pending(), x));
            }
        }
        let mut k2: u64 = first;
        while k2 < last
            invariant
                self.wf(),
                self.config() == old(self).config(),
                self.free_blocks() == old(self).free_blocks(),
                self.free_inodes() == old(self).free_inodes(),
                forall|x: u64| #[trigger] old(self).block_pinned(x) ==> self.block_pinned(x) && self.known_block(x) == old(self).known_block(x),
                forall|x: u64| #[trigger] self.known_block(x) is Some ==> self.known_block(x) == old(self).known_block(x),
                self.inodes@.contains_key(ino),
                self.inodes@[ino].0 == a,
                record_wf(a),
                last <= sum_lengths(a.extents@),
                first <= k2 <= last,
            decreases last - k2,
        {
            let id = match self.inodes.peek(ino) {
                Some(a) => logical_block(&a.extents, k2),
                None => { return Err(FsError::Errno(Errno::Io)); },
            };
            let _ = self.read_block(id);
            k2 = k2 + 1;
        }
        Ok(v)
    }

    /// The entry `name` of directory `parent`, as far as this core knows it.
    pub open spec fn dir_entry(&self, parent: u64, name: Seq<u8>) -> Option<DirEntry> {
        match self.known_inode(parent) {
            Some(Fetched::Found(p)) => entry_of(p.entries@, name),
            _ => None,
        }
    }

    /// Puts a new record into the inode cache, dirty; a directory's record
    /// is also written through.
    fn insert_inode(&mut self, a: Attrs)
        requires
            old(self).wf(),
            record_wf(a),
        ensures
            final(self).wf(),
            final(self).config() == old(self).config(),
            final(self).inode_cache().contains_key(a.ino),
            final(self).inode_cache()[a.ino] == (a, true),
            final(self).block_cache() == old(self).block_cache(),
            final(self).staged_blocks() == old(self).staged_blocks(),
            final(self).free_blocks() == old(self).free_blocks(),
            final(self).free_inodes() == old(self).free_inodes(),
            forall|x: u64| #[trigger] outbox_block(final(self).pending(), x) == outbox_block(old(self).pending(), x),
            forall|x: u64| x != a.ino && #[trigger] old(self).inode_pinned(x) ==> final(self).inode_pinned(x)
                && evolves(old(self).known_inode(x), final(self).known_inode(x)),
            a.kind == FileType::Directory ==> final(self).pending().len() > 0
                && final(self).pending().last() == Writeback::Sync(a.ino),
            final(self).pending().len() >= old(self).pending().len(),
            forall|i: int| 0 <= i < old(self).pending().len() ==> #[trigger] final(self).pending()[i] == old(self).pending()[i],
            old(self).inodes@.contains_key(old(self).inodes.recent()) && old(self).inodes.recent() != a.ino
                ==> final(self).inodes@.contains_key(old(self).inodes.recent())
                && final(self).inodes@[old(self).inodes.recent()] == old(self).inodes@[old(self).inodes.recent()],
    {
        let ino = a.ino;
        let is_dir = a.kind == FileType::Directory;
        self.staged_inodes.remove(&ino);
        let ghost mid = *self;
        assert(mid.wf());
        let ev = self.inodes.put(ino, a, true);
        proof {
            assert forall|i: u64| #[trigger] self.staged_inodes@.contains_key(i) implies !self.inodes@.contains_key(i) by {
                assert(i != ino);
            }
            assert forall|i: u64| #[trigger] self.inodes@.contains_key(i) && !self.inodes@[i].1 implies outbox_inode(self.outbox@, i) is None by {
                assert(i != ino);
                assert(mid.inodes@.contains_key(i) && !mid.inodes@[i].1);
            }
        }
        self.settle_inode(ev);
        let ghost s2 = *self;
        proof {
            assert forall|x: u64| x != ino && #[trigger] old(self).inode_pinned(x) implies s2.inode_pinned(x)
                && evolves(old(self).known_inode(x), s2.known_inode(x)) by {
                assert(mid.inode_pinned(x));
                assert(mid.known_inode(x) == old(self).known_inode(x));
                if mid.inodes@.contains_key(x) && !mid.inodes@[x].1 {
                    assert(outbox_inode(mid.outbox@, x) is None);
                }
                match ev {
                    Some((ek, ea, ed)) => {
                        assert(ea.ino == ek);
                        if ed {
                            assert(s2.outbox@.drop_last() =~= mid.outbox@);
                        }
                    },
                    None => {},
                }
            }
        }
        if is_dir {
            let ghost ob = self.outbox@;
            self.outbox.push(Writeback::Sync(ino));
            proof {
                assert(self.outbox@.drop_last() =~= ob);
                assert forall|x: u64| #[trigger] outbox_inode(self.outbox@, x) == outbox_inode(ob, x) by {}
                assert forall|x: u64| #[trigger] outbox_block(self.outbox@, x) == outbox_block(ob, x) by {}
            }
        }
    }

    /// Creates a node called `name` in directory `parent`: a fresh inode
    /// number, a record of the given kind with one link, and the entry.
    pub fn new_with_parent(
        &mut self,
        parent: u64,
        name: &[u8],
        kind: FileType,
        perm: u16,
        uid: u32,
        gid: u32,
        now: u64,
        link: &[u8],
    ) -> (r: Result<Stat, FsError>)
        requires
            old(self).wf(),
        ensures
            final(self).wf(),
            final(self).config() == old(self).config(),
            Self::new_with_parent_spec(*old(self), *final(self), parent, name@, kind, perm, uid, gid, now, link@, r),
    {
        if let Err(e) = self.probe_inode(parent) {
            return Err(e);
        }
        match self.peek_record(parent) {
            Some(p) => {
                if p.kind != FileType::Directory {
                    return Err(FsError::Errno(Errno::NotDir));
                }
                if find_entry(&p.entries, name).is_some() {
                    return Err(FsError::Errno(Errno::Exist));
                }
            },
            None => { return Err(FsError::Errno(Errno::Io)); },
        }
        let ino: u64 = match self.inode_allocator.alloc_one() {
            Some(i) => i as u64,
            None => { return Err(FsError::Errno(Errno::NoSpc)); },
        };
        if ino == parent {
            // the allocator offered a number in use: it is out of step with
            // the store
            self.inode_allocator.free_one(ino as usize);
            proof {
                assert(self.inode_allocator.free() =~= old(self).free_inodes());
            }
            return Err(FsError::Errno(Errno::Io));
        }
        let _ = self.load_inode(parent);
        let mut p = self.take_inode(parent);
        let _ = insert_entry(&mut p.entries, name, DirEntry { ino, kind });
        self.restore_inode(p);
        let ghost k = self.pending().len() - 1;
        assert(self.pending()[k] == Writeback::Sync(parent));
        let a = new_inode(ino, kind, perm, uid, gid, now, link);
        let st = self.stat(&a);
        proof {
            assert(sum_lengths(a.extents@) == 0);
            assert(record_wf(a));
        }
        let ghost mid = *self;
        self.insert_inode(a);
        proof {
            if ino != parent {
                assert(mid.inode_pinned(parent));
            }
            assert(self.pending()[k] == Writeback::Sync(parent));
            assert(mid.inodes.recent() == parent);
        }
        Ok(st)
    }

    pub open spec fn new_with_parent_spec(
        pre: CyanFS,
        post: CyanFS,
        parent: u64,
        name: Seq<u8>,
        kind: FileType,
        perm: u16,
        uid: u32,
        gid: u32,
        now: u64,
        link: Seq<u8>,
        r: Result<Stat, FsError>,
    ) -> bool {
        &&& r is Err ==> stores_unchanged(pre, post)
        &&& match pre.load_result(parent) {
            Err(e) => r == Err::<Stat, FsError>(e),
            Ok(p) => if p.kind != FileType::Directory {
                r == Err::<Stat, FsError>(FsError::Errno(Errno::NotDir))
            } else if has_name(p.entries@, name) {
                r == Err::<Stat, FsError>(FsError::Errno(Errno::Exist))
            } else if pre.free_inodes() == Set::<int>::empty() {
                r == Err::<Stat, FsError>(FsError::Errno(Errno::NoSpc))
            } else if r == Err::<Stat, FsError>(FsError::Errno(Errno::Io)) {
                // the allocator offered the parent's own number
                &&& pre.free_inodes().contains(parent as int)
                &&& post.free_inodes() == pre.free_inodes() && post.free_blocks() == pre.free_blocks()
            } else {
                r is Ok && {
                    let st = r->Ok_0;
                    let ino = st.ino;
                    let a = post.inode_cache()[ino].0;
                    &&& pre.free_inodes().contains(ino as int)
                    &&& post.free_inodes() == pre.free_inodes().remove(ino as int)
                    &&& post.free_blocks() == pre.free_blocks()
                    &&& ino != parent
                    &&& post.inode_cache().contains_key(ino)
                    &&& fresh(a, ino, kind, perm, uid, gid, now, link)
                    &&& st == stat_of(a, pre.spec_block_size())
                    &&& post.inode_pinned(parent)
                    &&& post.inode_cache().contains_key(parent)
                    &&& exists|i: int| 0 <= i < post.pending().len() && #[trigger] post.pending()[i] == Writeback::Sync(parent)
                    &&& match post.known_inode(parent) {
                        Some(Fetched::Found(q)) => {
                            &&& q.kind == p.kind
                            &&& entry_of(q.entries@, name) == Some(DirEntry { ino, kind })
                            &&& forall|n: Seq<u8>| n != name ==> entry_of(#[trigger] q.entries@, n) == entry_of(p.entries@, n)
                        },
                        Some(Fetched::Absent) => p.nlink == 0,
                        _ => false,
                    }
                }
            },
        }
    }

    /// Forgetting what was staged keeps what this core knows of every
    /// record and block with changes the stores have not seen.
    proof fn lemma_unstage(a: CyanFS, b: CyanFS)
        requires
            a.wf(),
            b.inode_cache() == a.inode_cache(),
            b.block_cache() == a.block_cache(),
            b.pending() == a.pending(),
        ensures
            forall|x: u64| #[trigger] a.inode_pinned(x) ==> b.inode_pinned(x) && b.known_inode(x) == a.known_inode(x),
            forall|x: u64| #[trigger] a.block_pinned(x) ==> b.block_pinned(x) && b.known_block(x) == a.known_block(x),
            b.staged_blocks() == Map::<u64, Vec<u8>>::empty() ==> forall|x: u64| #[trigger] b.known_block(x) is Some
                ==> b.known_block(x) == a.known_block(x),
    {
        assert forall|x: u64| #[trigger] a.inode_pinned(x) implies b.inode_pinned(x) && b.known_inode(x) == a.known_inode(x) by {
            if a.inodes@.contains_key(x) && !a.inodes@[x].1 {
                assert(outbox_inode(a.outbox@, x) is None);
            }
        }
        assert forall|x: u64| #[trigger] a.block_pinned(x) implies b.block_pinned(x) && b.known_block(x) == a.known_block(x) by {
            if a.blocks@.contains_key(x) && !a.blocks@[x].1 {
                assert(outbox_block(a.outbox@, x) is None);
            }
        }
    }

    /// Makes a node called `name` in directory `parent`: a regular file for
    /// a regular `mode`; `NoSys` for devices, pipes and sockets; `Inval`
    /// otherwise. Its permissions are `mode` under `umask`.
    pub fn mknod(&mut self, parent: u64, name: &[u8], mode: u32, umask: u32, uid: u32, gid: u32, now: u64) -> (r: Result<Stat, FsError>)
        requires
            old(self).wf(),
        ensures
            final(self).wf(),
            final(self).config() == old(self).config(),
            match node_kind_spec(mode) {
                Err(e) => {
                    &&& r == Err::<Stat, FsError>(FsError::Errno(e))
                    &&& final(self).free_inodes() == old(self).free_inodes()
                    &&& final(self).free_blocks() == old(self).free_blocks()
                    &&& final(self).inode_cache() == old(self).inode_cache()
                    &&& final(self).pending() == old(self).pending()
                },
                Ok(kind) => Self::new_with_parent_spec(*old(self), *final(self), parent, name@, kind,
                    masked_perm(mode, umask), uid, gid, now, Seq::empty(), r),
            },
    {
        let no_link: Vec<u8> = Vec::new();
        assert(no_link@ =~= Seq::<u8>::empty());
        let r = match node_kind(mode) {
            Err(e) => Err(FsError::Errno(e)),
            Ok(kind) => self.new_with_parent(parent, name, kind, mask_perm(mode, umask), uid, gid, now, no_link.as_slice()),
        };
        let ghost mid = *self;
        self.complete(&r);
        proof {
            Self::lemma_unstage(mid, *self);
        }
        r
    }

    /// Makes a regular file called `name` in directory `parent`.
    pub fn create(&mut self, parent: u64, name: &[u8], mode: u32, umask: u32, uid: u32, gid: u32, now: u64) -> (r: Result<Stat, FsError>)
        requires
            old(self).wf(),
        ensures
            final(self).wf(),
            final(self).config() == old(self).config(),
            Self::new_with_parent_spec(*old(self), *final(self), parent, name@, FileType::RegularFile,
                masked_perm(mode, umask), uid, gid, now, Seq::empty(), r),
    {
        let no_link: Vec<u8> = Vec::new();
        assert(no_link@ =~= Seq::<u8>::empty());
        let r = self.new_with_parent(parent, name, FileType::RegularFile, mask_perm(mode, umask), uid, gid, now, no_link.as_slice());
        let ghost mid = *self;
        self.complete(&r);
        proof {
            Self::lemma_unstage(mid, *self);
        }
        r
    }

    /// Makes a directory called `name` in directory `parent`.
    pub fn mkdir(&mut self, parent: u64, name: &[u8], mode: u32, umask: u32, uid: u32, gid: u32, now: u64) -> (r: Result<Stat, FsError>)
        requires
            old(self).wf(),
        ensures
            final(self).wf(),
            final(self).config() == old(self).config(),
            Self::new_with_parent_spec(*old(self), *final(self), parent, name@, FileType::Directory,
                masked_perm(mode, umask), uid, gid, now, Seq::empty(), r),
    {
        let no_link: Vec<u8> = Vec::new();
        assert(no_link@ =~= Seq::<u8>::empty());
        let r = self.new_with_parent(parent, name, FileType::Directory, mask_perm(mode, umask), uid, gid, now, no_link.as_slice());
        let ghost mid = *self;
        self.complete(&r);
        proof {
            Self::lemma_unstage(mid, *self);
        }
        r
    }

    /// Makes a symlink called `name` in directory `parent` that points at
    /// `link`.
    pub fn symlink(&mut self, parent: u64, name: &[u8], link: &[u8], uid: u32, gid: u32, now: u64) -> (r: Result<Stat, FsError>)
        requires
            old(self).wf(),
        ensures
            final(self).wf(),
            final(self).config() == old(self).config(),
            Self::new_with_parent_spec(*old(self), *final(self), parent, name@, FileType::Symlink,
                0o777, uid, gid, now, link@, r),
    {
        let r = self.new_with_parent(parent, name, FileType::Symlink, 0o777, uid, gid, now, link);
        let ghost mid = *self;
        self.complete(&r);
        proof {
            Self::lemma_unstage(mid, *self);
        }
        r
    }

    /// Returns the blocks of `exts` to the block allocator.
    fn free_extents(&mut self, exts: &Vec<Extent>)
        requires
            old(self).wf(),
            extents_wf(exts@),
        ensures
            final(self).wf(),
            final(self).config() == old(self).config(),
            final(self).free_blocks() == old(self).free_blocks().union(extent_set(exts@)),
            final(self).free_inodes() == old(self).free_inodes(),
            final(self).inode_cache() == old(self).inode_cache(),
            final(self).block_cache() == old(self).block_cache(),
            final(self).staged_inodes() == old(self).staged_inodes(),
            final(self).staged_blocks() == old(self).staged_blocks(),
            final(self).pending() == old(self).pending(),
    {
        let mut i: usize = 0;
        while i < exts.len()
            invariant
                self.wf(),
                self.config() == old(self).config(),
                extents_wf(exts@),
                i <= exts@.len(),
                self.free_blocks() == old(self).free_blocks().union(extent_set(exts@.subrange(0, i as int))),
                self.free_inodes() == old(self).free_inodes(),
                self.inode_cache() == old(self).inode_cache(),
                self.block_cache() == old(self).block_cache(),
                self.staged_inodes() == old(self).staged_inodes(),
                self.staged_blocks() == old(self).staged_blocks(),
                self.pending() == old(self).pending(),
            decreases exts@.len() - i,
        {
            let e = exts[i];
            proof {
                assert(exts@.subrange(0, i + 1).drop_last() =~= exts@.subrange(0, i as int));
                assert(old(self).free_blocks().union(extent_set(exts@.subrange(0, i as int))).union(range_set(e.start as int, e.end as int))
                    =~= old(self).free_blocks().union(extent_set(exts@.subrange(0, i + 1))));
            }
            self.block_allocator.free_range(e.start as usize, e.end as usize);
            i = i + 1;
        }
        proof {
            assert(exts@.subrange(0, i as int) =~= exts@);
        }
    }

    /// Removes the entry `name` from directory `parent` and drops one link
    /// of the inode it named; once no link is left, the inode's blocks and
    /// number go back to the allocators, and its record, when it leaves
    /// the cache, is deleted from the store.
    pub fn unlink(&mut self, parent: u64, name: &[u8]) -> (r: Result<(), FsError>)
        requires
            old(self).wf(),
        ensures
            final(self).wf(),
            final(self).config() == old(self).config(),
            Self::unlink_spec(*old(self), *final(self), parent, name@, r),
    {
        let r = self.unlink_inner(parent, name);
        self.complete(&r);
        r
    }

    pub open spec fn unlink_spec(pre: CyanFS, post: CyanFS, parent: u64, name: Seq<u8>, r: Result<(), FsError>) -> bool {
        &&& r is Err ==> stores_unchanged(pre, post)
        &&& match pre.load_result(parent) {
            Err(e) => r == Err::<(), FsError>(e),
            Ok(p) => if p.kind != FileType::Directory {
                r == Err::<(), FsError>(FsError::Errno(Errno::NotDir))
            } else {
                match entry_of(p.entries@, name) {
                    None => r == Err::<(), FsError>(FsError::Errno(Errno::NoEnt)),
                    Some(de) => if de.ino == parent {
                        r == Err::<(), FsError>(FsError::Errno(Errno::Inval))
                    } else {
                        match r {
                            Ok(()) => {
                                let q = post.inode_cache()[parent].0;
                                let c = pre.load_result(de.ino)->Ok_0;
                                let d = post.inode_cache()[de.ino].0;
                                &&& pre.load_result(de.ino) is Ok
                                &&& post.inode_cache().contains_key(parent) && post.inode_cache()[parent].1
                                &&& post.pending().len() >= 1
                                &&& if c.kind == FileType::Directory {
                                    post.pending().len() >= 2 && post.pending().last() == Writeback::Sync(de.ino)
                                        && post.pending()[post.pending().len() - 2] == Writeback::Sync(parent)
                                } else {
                                    post.pending().last() == Writeback::Sync(parent)
                                }
                                &&& post.inode_cache().contains_key(de.ino) && post.inode_cache()[de.ino].1
                                &&& entry_of(q.entries@, name) is None
                                &&& q.kind == p.kind
                                &&& forall|n: Seq<u8>| n != name ==> entry_of(#[trigger] q.entries@, n) == entry_of(p.entries@, n)
                                &&& d.nlink == if c.nlink > 0 { c.nlink - 1 } else { 0 }
                                &&& d.extents == c.extents && d.size == c.size && d.kind == c.kind
                                &&& d.nlink == 0 ==> post.free_blocks() == pre.free_blocks().union(extent_set(c.extents@))
                                    && post.free_inodes() == pre.free_inodes().insert(de.ino as int)
                                &&& d.nlink > 0 ==> post.free_blocks() == pre.free_blocks() && post.free_inodes() == pre.free_inodes()
                            },
                            Err(e) => pre.load_result(de.ino) == Err::<Attrs, FsError>(e),
                        }
                    },
                }
            },
        }
    }

    fn unlink_inner(&mut self, parent: u64, name: &[u8]) -> (r: Result<(), FsError>)
        requires
            old(self).wf(),
        ensures
            final(self).wf(),
            final(self).config() == old(self).config(),
            Self::unlink_spec(*old(self), *final(self), parent, name@, r),
    {
        if let Err(e) = self.probe_inode(parent) {
            return Err(e);
        }
        let de = match self.peek_record(parent) {
            Some(p) => {
                if p.kind != FileType::Directory {
                    return Err(FsError::Errno(Errno::NotDir));
                }
                match lookup_entry(&p.entries, name) {
                    Ok(de) => de,
                    Err(e) => { return Err(FsError::Errno(e)); },
                }
            },
            None => { return Err(FsError::Errno(Errno::Io)); },
        };
        if de.ino == parent {
            return Err(FsError::Errno(Errno::Inval));
        }
        if let Err(e) = self.probe_inode(de.ino) {
            return Err(e);
        }
        self.load_pair(parent, de.ino);
        let mut p = self.take_inode(parent);
        let _ = remove_entry(&mut p.entries, name);
        proof {
            assert(record_wf(p));
        }
        self.restore_inode(p);
        let mut c = self.take_inode(de.ino);
        if c.nlink > 0 {
            c.nlink = c.nlink - 1;
        }
        if c.nlink == 0 {
            self.free_extents(&c.extents);
            self.inode_allocator.free_one(c.ino as usize);
        }
        self.restore_inode(c);
        Ok(())
    }

    /// Removes the entry `name` from directory `parent`. Whether the
    /// directory it names is empty is not checked, and its link count is
    /// left as it is.
    pub fn rmdir(&mut self, parent: u64, name: &[u8]) -> (r: Result<(), FsError>)
        requires
            old(self).wf(),
        ensures
            final(self).wf(),
            final(self).config() == old(self).config(),
            match old(self).load_result(parent) {
                Err(e) => r == Err::<(), FsError>(e),
                Ok(p) => if p.kind != FileType::Directory {
                    r == Err::<(), FsError>(FsError::Errno(Errno::NotDir))
                } else if !has_name(p.entries@, name@) {
                    r == Err::<(), FsError>(FsError::Errno(Errno::NoEnt))
                } else {
                    let q = final(self).inode_cache()[parent].0;
                    &&& r is Ok
                    &&& final(self).inode_cache().contains_key(parent) && final(self).inode_cache()[parent].1
                    &&& final(self).pending().len() > 0 && final(self).pending().last() == Writeback::Sync(parent)
                    &&& entry_of(q.entries@, name@) is None
                    &&& forall|n: Seq<u8>| n != name@ ==> entry_of(#[trigger] q.entries@, n) == entry_of(p.entries@, n)
                    &&& final(self).free_blocks() == old(self).free_blocks()
                    &&& final(self).free_inodes() == old(self).free_inodes()
                },
            },
            r is Err ==> stores_unchanged(*old(self), *final(self)),
    {
        let r = match self.remove_dirent(parent, name) {
            Ok(_) => Ok(()),
            Err(e) => Err(e),
        };
        self.complete(&r);
        r
    }

    /// Removes the entry `name` from directory `parent`.
    pub fn remove_dirent(&mut self, parent: u64, name: &[u8]) -> (r: Result<DirEntry, FsError>)
        requires
            old(self).wf(),
        ensures
            final(self).wf(),
            final(self).config() == old(self).config(),
            r is Err ==> stores_unchanged(*old(self), *final(self)),
            match old(self).load_result(parent) {
                Err(e) => r == Err::<DirEntry, FsError>(e),
                Ok(p) => if p.kind != FileType::Directory {
                    r == Err::<DirEntry, FsError>(FsError::Errno(Errno::NotDir))
                } else if !has_name(p.entries@, name@) {
                    r == Err::<DirEntry, FsError>(FsError::Errno(Errno::NoEnt))
                } else {
                    let q = final(self).inode_cache()[parent].0;
                    &&& r == Ok::<DirEntry, FsError>(entry_of(p.entries@, name@)->Some_0)
                    &&& final(self).inode_cache().contains_key(parent) && final(self).inode_cache()[parent].1
                    &&& final(self).pending().len() > 0 && final(self).pending().last() == Writeback::Sync(parent)
                    &&& entry_of(q.entries@, name@) is None
                    &&& forall|n: Seq<u8>| n != name@ ==> entry_of(#[trigger] q.entries@, n) == entry_of(p.entries@, n)
                    &&& final(self).free_blocks() == old(self).free_blocks()
                    &&& final(self).free_inodes() == old(self).free_inodes()
                },
            },
    {
        if let Err(e) = self.probe_inode(parent) {
            return Err(e);
        }
        match self.peek_record(parent) {
            Some(p) => {
                if p.kind != FileType::Directory {
                    return Err(FsError::Errno(Errno::NotDir));
                }
                if find_entry(&p.entries, name).is_none() {
                    return Err(FsError::Errno(Errno::NoEnt));
                }
            },
            None => { return Err(FsError::Errno(Errno::Io)); },
        }
        let _ = self.load_inode(parent);
        let mut p = self.take_inode(parent);
        let removed = remove_entry(&mut p.entries, name);
        proof {
            assert(record_wf(p));
        }
        self.restore_inode(p);
        match removed {
            Ok(de) => Ok(de),
            Err(e) => Err(FsError::Errno(e)),
        }
    }

    /// Adds the entry `newname` for inode `ino` to directory `newparent` and
    /// counts the new link.
    pub fn link(&mut self, ino: u64, newparent: u64, newname: &[u8]) -> (r: Result<Stat, FsError>)
        requires
            old(self).wf(),
        ensures
            final(self).wf(),
            final(self).config() == old(self).config(),
            Self::link_spec(*old(self), *final(self), ino, newparent, newname@, r),
    {
        let r = self.link_inner(ino, newparent, newname);
        self.complete(&r);
        r
    }

    pub open spec fn link_spec(pre: CyanFS, post: CyanFS, ino: u64, newparent: u64, newname: Seq<u8>, r: Result<Stat, FsError>) -> bool {
        &&& r is Err ==> stores_unchanged(pre, post)
        &&& match pre.load_result(ino) {
            Err(e) => r == Err::<Stat, FsError>(e),
            Ok(a) => if ino == newparent {
                r == Err::<Stat, FsError>(FsError::Errno(Errno::Inval))
            } else {
                match pre.load_result(newparent) {
                    Err(e) => r == Err::<Stat, FsError>(e),
                    Ok(p) => if p.kind != FileType::Directory {
                        r == Err::<Stat, FsError>(FsError::Errno(Errno::NotDir))
                    } else if has_name(p.entries@, newname) {
                        r == Err::<Stat, FsError>(FsError::Errno(Errno::Exist))
                    } else if a.nlink == u32::MAX {
                        r == Err::<Stat, FsError>(FsError::Errno(Errno::Inval))
                    } else {
                        let q = post.inode_cache()[newparent].0;
                        let b = post.inode_cache()[ino].0;
                        &&& r is Ok
                        &&& post.inode_cache().contains_key(ino) && post.inode_cache()[ino].1
                        &&& post.inode_cache().contains_key(newparent) && post.inode_cache()[newparent].1
                        &&& b.nlink == a.nlink + 1 && b.extents == a.extents && b.size == a.size && b.kind == a.kind
                        &&& b.ino == a.ino
                        &&& r->Ok_0 == stat_of(b, pre.spec_block_size())
                        &&& post.pending().len() > 0 && post.pending().last() == Writeback::Sync(newparent)
                        &&& q.kind == p.kind
                        &&& entry_of(q.entries@, newname) == Some(DirEntry { ino, kind: a.kind })
                        &&& forall|n: Seq<u8>| n != newname ==> entry_of(#[trigger] q.entries@, n) == entry_of(p.entries@, n)
                    },
                }
            },
        }
    }

    fn link_inner(&mut self, ino: u64, newparent: u64, newname: &[u8]) -> (r: Result<Stat, FsError>)
        requires
            old(self).wf(),
        ensures
            final(self).wf(),
            final(self).config() == old(self).config(),
            Self::link_spec(*old(self), *final(self), ino, newparent, newname@, r),
    {
        if let Err(e) = self.probe_inode(ino) {
            return Err(e);
        }
        if ino == newparent {
            return Err(FsError::Errno(Errno::Inval));
        }
        if let Err(e) = self.probe_inode(newparent) {
            return Err(e);
        }
        match self.peek_record(newparent) {
            Some(p) => {
                if p.kind != FileType::Directory {
                    return Err(FsError::Errno(Errno::NotDir));
                }
                if find_entry(&p.entries, newname).is_some() {
                    return Err(FsError::Errno(Errno::Exist));
                }
            },
            None => { return Err(FsError::Errno(Errno::Io)); },
        }
        let kind = match self.peek_record(ino) {
            Some(a) => {
                if a.nlink == u32::MAX {
                    return Err(FsError::Errno(Errno::Inval));
                }
                a.kind
            },
            None => { return Err(FsError::Errno(Errno::Io)); },
        };
        self.load_pair(ino, newparent);
        let mut a = self.take_inode(ino);
        a.nlink = a.nlink + 1;
        let st = self.stat(&a);
        self.restore_inode(a);
        let mut p = self.take_inode(newparent);
        let _ = insert_entry(&mut p.entries, newname, DirEntry { ino, kind });
        proof {
            assert(record_wf(p));
        }
        self.restore_inode(p);
        Ok(st)
    }

    /// Moves the entry `name` of directory `parent` to `newname` in
    /// `newparent`. Within one directory an entry already called `newname`
    /// is replaced; across directories it makes the move fail with `Exist`.
    pub fn rename(&mut self, parent: u64, name: &[u8], newparent: u64, newname: &[u8]) -> (r: Result<(), FsError>)
        requires
            old(self).wf(),
        ensures
            final(self).wf(),
            final(self).config() == old(self).config(),
            Self::rename_spec(*old(self), *final(self), parent, name@, newparent, newname@, r),
    {
        let r = self.rename_inner(parent, name, newparent, newname);
        self.complete(&r);
        r
    }

    pub open spec fn rename_spec(pre: CyanFS, post: CyanFS, parent: u64, name: Seq<u8>, newparent: u64, newname: Seq<u8>, r: Result<(), FsError>) -> bool {
        &&& r is Err ==> stores_unchanged(pre, post)
        &&& match pre.load_result(parent) {
            Err(e) => r == Err::<(), FsError>(e),
            Ok(p) => if p.kind != FileType::Directory {
                r == Err::<(), FsError>(FsError::Errno(Errno::NotDir))
            } else if !has_name(p.entries@, name) {
                r == Err::<(), FsError>(FsError::Errno(Errno::NoEnt))
            } else if parent == newparent {
                let q = post.inode_cache()[parent].0;
                &&& r is Ok
                &&& post.inode_cache().contains_key(parent)
                &&& post.pending().len() > 0 && post.pending().last() == Writeback::Sync(parent)
                &&& q.kind == p.kind
                &&& entry_of(q.entries@, newname) == entry_of(p.entries@, name)
                &&& name != newname ==> entry_of(q.entries@, name) is None
                &&& forall|n: Seq<u8>| n != name && n != newname ==> entry_of(#[trigger] q.entries@, n) == entry_of(p.entries@, n)
            } else {
                match pre.load_result(newparent) {
                    Err(e) => r == Err::<(), FsError>(e),
                    Ok(np) => if np.kind != FileType::Directory || has_name(np.entries@, newname) {
                        r == Err::<(), FsError>(FsError::Errno(if np.kind != FileType::Directory { Errno::NotDir } else { Errno::Exist }))
                    } else {
                        let q = post.inode_cache()[parent].0;
                        let nq = post.inode_cache()[newparent].0;
                        &&& r is Ok
                        &&& post.inode_cache().contains_key(parent) && post.inode_cache().contains_key(newparent)
                        &&& post.pending().len() >= 2 && post.pending().last() == Writeback::Sync(newparent)
                        &&& post.pending()[post.pending().len() - 2] == Writeback::Sync(parent)
                        &&& q.kind == p.kind && nq.kind == np.kind
                        &&& entry_of(q.entries@, name) is None
                        &&& forall|n: Seq<u8>| n != name ==> entry_of(#[trigger] q.entries@, n) == entry_of(p.entries@, n)
                        &&& entry_of(nq.entries@, newname) == entry_of(p.entries@, name)
                        &&& forall|n: Seq<u8>| n != newname ==> entry_of(#[trigger] nq.entries@, n) == entry_of(np.entries@, n)
                    },
                }
            },
        }
    }

    fn rename_inner(&mut self, parent: u64, name: &[u8], newparent: u64, newname: &[u8]) -> (r: Result<(), FsError>)
        requires
            old(self).wf(),
        ensures
            final(self).wf(),
            final(self).config() == old(self).config(),
            Self::rename_spec(*old(self), *final(self), parent, name@, newparent, newname@, r),
    {
        if let Err(e) = self.probe_inode(parent) {
            return Err(e);
        }
        match self.peek_record(parent) {
            Some(p) => {
                if p.kind != FileType::Directory {
                    return Err(FsError::Errno(Errno::NotDir));
                }
                if find_entry(&p.entries, name).is_none() {
                    return Err(FsError::Errno(Errno::NoEnt));
                }
            },
            None => { return Err(FsError::Errno(Errno::Io)); },
        }
        if parent == newparent {
            self.load_pair(parent, parent);
            let mut p = self.take_inode(parent);
            let _ = rekey_entry(&mut p.entries, name, newname);
            proof {
                assert(record_wf(p));
            }
            self.restore_inode(p);
            return Ok(());
        }
        if let Err(e) = self.probe_inode(newparent) {
            return Err(e);
        }
        match self.peek_record(newparent) {
            Some(np) => {
                if np.kind != FileType::Directory {
                    return Err(FsError::Errno(Errno::NotDir));
                }
                if find_entry(&np.entries, newname).is_some() {
                    return Err(FsError::Errno(Errno::Exist));
                }
            },
            None => { return Err(FsError::Errno(Errno::Io)); },
        }
        self.load_pair(parent, newparent);
        let mut p = self.take_inode(parent);
        let moved = remove_entry(&mut p.entries, name);
        proof {
            assert(record_wf(p));
        }
        self.restore_inode(p);
        let de = match moved {
            Ok(de) => de,
            Err(e) => { return Err(FsError::Errno(e)); },
        };
        let mut np = self.take_inode(newparent);
        let _ = insert_entry(&mut np.entries, newname, de);
        proof {
            assert(record_wf(np));
        }
        self.restore_inode(np);
        Ok(())
    }

    /// Sets the attributes of inode `ino` that `ch` gives, and returns
    /// them all. A size beyond the file's blocks first grows
    /// the file as `fallocate` does, so that its blocks cover its size;
    /// a smaller size keeps the blocks.
    pub fn setattr(&mut self, ino: u64, ch: AttrChanges) -> (r: Result<Stat, FsError>)
        requires
            old(self).wf(),
        ensures
            final(self).wf(),
            final(self).config() == old(self).config(),
            Self::setattr_spec(*old(self), *final(self), ino, ch, r),
    {
        let r = self.setattr_inner(ino, ch);
        let ghost mid = *self;
        self.complete(&r);
        proof {
            Self::lemma_unstage(mid, *self);
        }
        r
    }

    pub open spec fn setattr_spec(pre: CyanFS, post: CyanFS, ino: u64, ch: AttrChanges, r: Result<Stat, FsError>) -> bool {
        let bs = pre.spec_block_size() as int;
        &&& r is Err ==> stores_unchanged(pre, post)
        &&& match pre.load_result(ino) {
            Err(e) => r == Err::<Stat, FsError>(e),
            Ok(a) => {
                let orig = sum_lengths(a.extents@);
                let b = post.inode_cache()[ino].0;
                &&& r is Err ==> {
                    let n = ch.size->Some_0 as int;
                    let need = ceil_div(n, bs);
                    &&& ch.size is Some
                    &&& r == Err::<Stat, FsError>(FsError::Errno(Errno::NoSpc))
                    &&& need > CAPACITY || (need > orig && forall|t: int| 0 <= t && t + need - orig <= CAPACITY
                        ==> !#[trigger] run_free(pre.free_blocks(), t, need - orig))
                    &&& post.free_blocks() == pre.free_blocks()
                }
                &&& ch.size is None ==> r is Ok
                &&& ch.size is Some && ceil_div(ch.size->Some_0 as int, bs) <= orig ==> r is Ok
                &&& r is Ok ==> {
                    &&& post.inode_cache().contains_key(ino) && post.inode_cache()[ino].1
                    &&& r == Ok::<Stat, FsError>(stat_of(b, pre.spec_block_size()))
                    &&& b.size == match ch.size { Some(n) => n, None => a.size }
                    &&& b.perm == match ch.mode { Some(m) => m as u16, None => a.perm }
                    &&& b.uid == match ch.uid { Some(v) => v, None => a.uid }
                    &&& b.gid == match ch.gid { Some(v) => v, None => a.gid }
                    &&& b.atime == match ch.atime { Some(v) => v, None => a.atime }
                    &&& b.mtime == match ch.mtime { Some(v) => v, None => a.mtime }
                    &&& b.ctime == match ch.ctime { Some(v) => v, None => a.ctime }
                    &&& b.crtime == match ch.crtime { Some(v) => v, None => a.crtime }
                    &&& b.flags == match ch.flags { Some(v) => v, None => a.flags }
                    &&& b.ino == a.ino && b.nlink == a.nlink && b.kind == a.kind && b.entries == a.entries
                    &&& b.link == a.link && b.rdev == a.rdev
                    &&& ch.size is None ==> b.extents == a.extents && post.free_blocks() == pre.free_blocks()
                    &&& ch.size is Some ==> covered(b, bs as nat) && exists|m: Attrs| #[trigger] grown(a, m, ch.size->Some_0 as int, bs,
                        pre.free_blocks(), post.free_blocks()) && m.extents == b.extents
                    &&& ch.size is None ==> (covered(a, bs as nat) ==> covered(b, bs as nat))
                    &&& forall|x: u64| #[trigger] pre.block_pinned(x) ==> post.block_pinned(x) && post.known_block(x) == pre.known_block(x)
                }
            },
        }
    }

    fn setattr_inner(&mut self, ino: u64, ch: AttrChanges) -> (r: Result<Stat, FsError>)
        requires
            old(self).wf(),
        ensures
            final(self).wf(),
            final(self).config() == old(self).config(),
            Self::setattr_spec(*old(self), *final(self), ino, ch, r),
    {
        let ghost bs = self.block_size as int;
        match ch.size {
            Some(n) => {
                let no_data: Vec<u8> = Vec::new();
                assert(no_data@ =~= Seq::<u8>::empty());
                let w = self.write_inner(ino, n, no_data.as_slice());
                if let Err(e) = w {
                    return Err(e);
                }
                proof {
                    let a = old(self).load_result(ino)->Ok_0;
                    let m = self.inode_cache()[ino].0;
                    lemma_grown_covers(a, m, n as int, bs, old(self).free_blocks(), self.free_blocks());
                }
            },
            None => {
                if let Err(e) = self.load_inode(ino) {
                    return Err(e);
                }
            },
        }
        let ghost m = self.inode_cache()[ino].0;
        let ghost s1 = *self;
        proof {
            if ch.size is None {
                assert forall|x: u64| #[trigger] old(self).block_pinned(x) implies s1.block_pinned(x)
                    && s1.known_block(x) == old(self).known_block(x) by {
                    assert(outbox_block(s1.pending(), x) == outbox_block(old(self).pending(), x));
                }
            }
        }
        let mut a = self.take_inode(ino);
        match ch.size {
            Some(n) => { a.size = n; },
            None => {},
        }
        match ch.mode {
            Some(m) => { a.perm = m as u16; },
            None => {},
        }
        match ch.uid { Some(v) => { a.uid = v; }, None => {} }
        match ch.gid { Some(v) => { a.gid = v; }, None => {} }
        match ch.atime { Some(v) => { a.atime = v; }, None => {} }
        match ch.mtime { Some(v) => { a.mtime = v; }, None => {} }
        match ch.ctime { Some(v) => { a.ctime = v; }, None => {} }
        match ch.crtime { Some(v) => { a.crtime = v; }, None => {} }
        match ch.flags { Some(v) => { a.flags = v; }, None => {} }
        let st = self.stat(&a);
        let ghost b = a;
        self.restore_inode(a);
        proof {
            assert forall|x: u64| #[trigger] s1.block_pinned(x) implies self.block_pinned(x)
                && self.known_block(x) == s1.known_block(x) by {
                assert(outbox_block(self.pending(), x) == outbox_block(s1.pending(), x));
            }
            if ch.size is Some {
                assert(grown(old(self).load_result(ino)->Ok_0, m, ch.size->Some_0 as int, bs, old(self).free_blocks(), self.free_blocks()));
                assert(b.extents == m.extents);
            }
        }
        Ok(st)
    }

    /// Grows file `ino` to hold `offset + length` bytes, as a write there
    /// would, without touching any block's content.
    pub fn fallocate(&mut self, ino: u64, offset: u64, length: u64) -> (r: Result<(), FsError>)
        requires
            old(self).wf(),
        ensures
            final(self).wf(),
            final(self).config() == old(self).config(),
            offset + length > u64::MAX ==> r == Err::<(), FsError>(FsError::Errno(Errno::Inval)),
            offset + length <= u64::MAX ==> exists|w: Result<u64, FsError>| {
                &&& #[trigger] Self::write_spec(*old(self), *final(self), ino, (offset + length) as u64, Seq::empty(), w)
                &&& r == match w { Ok(_) => Ok::<(), FsError>(()), Err(e) => Err::<(), FsError>(e) }
            },
    {
        if offset > u64::MAX - length {
            return Err(FsError::Errno(Errno::Inval));
        }
        let no_data: Vec<u8> = Vec::new();
        assert(no_data@ =~= Seq::<u8>::empty());
        let w = self.write_inner(ino, offset + length, no_data.as_slice());
        self.complete(&w);
        proof {
            assert(Self::write_spec(*old(self), *self, ino, (offset + length) as u64, Seq::empty(), w));
        }
        match w {
            Ok(_) => Ok(()),
            Err(e) => Err(e),
        }
    }

    /// Drops block `id` from the cache, sending it to the outbox if dirty.
    fn flush_block(&mut self, id: u64)
        requires
            old(self).wf(),
        ensures
            final(self).wf(),
            final(self).config() == old(self).config(),
            !final(self).block_cache().contains_key(id),
            final(self).inode_cache() == old(self).inode_cache(),
            final(self).staged_inodes() == old(self).staged_inodes(),
            final(self).staged_blocks() == old(self).staged_blocks(),
            final(self).free_blocks() == old(self).free_blocks(),
            final(self).free_inodes() == old(self).free_inodes(),
            forall|x: u64| #[trigger] outbox_inode(final(self).pending(), x) == outbox_inode(old(self).pending(), x),
            forall|x: u64| x != id ==> #[trigger] final(self).block_cache().contains_key(x) == old(self).block_cache().contains_key(x),
            forall|x: u64| #[trigger] old(self).block_pinned(x) ==> final(self).block_pinned(x)
                && final(self).known_block(x) == old(self).known_block(x),
            final(self).pending() == old(self).pending() || (final(self).pending().len() == old(self).pending().len() + 1
                && final(self).pending().subrange(0, old(self).pending().len() as int) == old(self).pending()
                && writes_block(final(self).pending().last(), id)),
    {
        let ghost pre = *self;
        let ev = match self.blocks.take(id) {
            Some(e) => Some((id, e.0, e.1)),
            None => None,
        };
        proof {
            assert forall|b: u64| #[trigger] self.blocks@.contains_key(b) && self.blocks@[b].1 implies !self.staged_blocks@.contains_key(b) by {
                assert(pre.blocks@.contains_key(b));
            }
        }
        let ghost mid = *self;
        self.settle_block(ev);
        proof {
            assert forall|x: u64| #[trigger] old(self).block_pinned(x) implies self.block_pinned(x)
                && self.known_block(x) == old(self).known_block(x) by {
                if pre.blocks@.contains_key(x) && !pre.blocks@[x].1 {
                    assert(outbox_block(pre.outbox@, x) is None);
                }
                match ev {
                    Some((ek, ed, dirty)) => {
                        if dirty {
                            assert(self.outbox@.drop_last() =~= pre.outbox@);
                        }
                    },
                    None => {},
                }
            }
            assert forall|b: u64| #[trigger] self.blocks@.contains_key(b) && !self.blocks@[b].1 implies outbox_block(self.outbox@, b) is None by {
                assert(pre.blocks@.contains_key(b));
                match ev {
                    Some((ek, ed, dirty)) => {
                        if dirty {
                            assert(self.outbox@.drop_last() =~= pre.outbox@);
                        }
                    },
                    None => {},
                }
            }
            if self.pending() != pre.pending() {
                assert(self.pending().subrange(0, pre.pending().len() as int) =~= pre.pending());
            }
        }
    }

    pub open spec fn fsync_spec(pre: CyanFS, post: CyanFS, ino: u64, r: Result<(), FsError>) -> bool {
        match pre.load_result(ino) {
            Err(e) => r == Err::<(), FsError>(e),
            Ok(a) => {
                let blist = block_list(a.extents@);
                &&& r is Ok
                &&& !post.inode_cache().contains_key(ino)
                &&& pre.inode_pinned(ino) ==> outbox_inode(post.pending(), ino) == Some(
                    if a.nlink == 0 { Fetched::Absent } else { Fetched::Found(a) })
                &&& forall|k: int| 0 <= k < blist.len() ==> !#[trigger] post.block_cache().contains_key(blist[k])
                &&& exists|base: int, ks: Seq<int>| #[trigger] block_writes_in_order(post.pending(), base, ks, blist)
                    && (pre.inode_pinned(ino) ==> outbox_inode(post.pending().subrange(0, base), ino) == Some(
                        if a.nlink == 0 { Fetched::Absent } else { Fetched::Found(a) }))
                &&& forall|x: u64| #[trigger] pre.block_pinned(x) ==> post.block_pinned(x)
                    && post.known_block(x) == pre.known_block(x)
            },
        }
    }

    /// Writes inode `ino` and its blocks back: its record leaves the
    /// cache (to the outbox if dirty: a put, or a delete once nothing links
    /// to it), and so does every block of the file, dirty ones to the
    /// outbox.
    pub fn fsync(&mut self, ino: u64) -> (r: Result<(), FsError>)
        requires
            old(self).wf(),
        ensures
            final(self).wf(),
            final(self).config() == old(self).config(),
            Self::fsync_spec(*old(self), *final(self), ino, r),
    {
        let r = self.fsync_inner(ino);
        let ghost mid = *self;
        self.complete(&r);
        proof {
            Self::lemma_unstage(mid, *self);
        }
        r
    }

    fn fsync_inner(&mut self, ino: u64) -> (r: Result<(), FsError>)
        requires
            old(self).wf(),
        ensures
            final(self).wf(),
            final(self).config() == old(self).config(),
            Self::fsync_spec(*old(self), *final(self), ino, r),
    {
        if let Err(e) = self.load_inode(ino) {
            return Err(e);
        }
        let ghost s1 = *self;
        let (a, dirty) = match self.inodes.take(ino) {
            Some(e) => e,
            None => { return Err(FsError::Errno(Errno::Io)); },
        };
        let ghost ga = a;
        let exts = copy_extents(&a.extents);
        let n: u64 = a.blocks();
        let ghost s2 = *self;
        self.settle_inode(Some((ino, a, dirty)));
        proof {
            if dirty {
                assert(self.outbox@.drop_last() =~= s2.outbox@);
            }
            // a clean record never has a write pending in the outbox
            assert(old(self).inode_pinned(ino) ==> dirty);
            crate::inode::lemma_block_list_len(exts@);
        }
        let ghost s3 = *self;
        let ghost blist = block_list(exts@);
        let ghost base = s3.pending().len() as int;
        let ghost mut ks: Seq<int> = Seq::empty();
        let mut k: u64 = 0;
        while k < n
            invariant
                base == s3.pending().len(),
                self.pending().subrange(0, base) == s3.pending(),
                block_writes_in_order(self.pending(), base, ks, blist),
                forall|i: int| 0 <= i < ks.len() ==> #[trigger] ks[i] < k,
                self.wf(),
                self.config() == old(self).config(),
                extents_wf(exts@),
                n == sum_lengths(exts@),
                blist == block_list(exts@),
                blist.len() == n,
                k <= n,
                !self.inode_cache().contains_key(ino),
                forall|x: u64| #[trigger] outbox_inode(self.pending(), x) == outbox_inode(s3.pending(), x),
                forall|j: int| 0 <= j < k ==> !#[trigger] self.block_cache().contains_key(blist[j]),
                forall|x: u64| #[trigger] old(self).block_pinned(x) ==> self.block_pinned(x)
                    && self.known_block(x) == old(self).known_block(x),
            decreases n - k,
        {
            let id = logical_block(&exts, k);
            let ghost before = *self;
            self.flush_block(id);
            proof {
                if self.pending() != before.pending() {
                    let old_ks = ks;
                    ks = ks.push(k as int);
                    assert(self.pending().subrange(0, base) =~= before.pending().subrange(0, base));
                    assert forall|i: int| 0 <= i < ks.len() implies 0 <= #[trigger] ks[i] < blist.len()
                        && writes_block(self.pending()[base + i], blist[ks[i]]) by {
                        if i < old_ks.len() {
                            assert(self.pending()[base + i] == before.pending()[base + i]);
                        }
                    }
                }
            }
            k = k + 1;
        }
        proof {
            assert(exts@ == ga.extents@);
            assert(block_writes_in_order(self.pending(), base, ks, blist));
        }
        Ok(())
    }

    /// Empties both caches, inode records first, sending what is dirty to
    /// the outbox.
    pub fn flush(&mut self)
        requires
            old(self).wf(),
        ensures
            final(self).wf(),
            final(self).config() == old(self).config(),
            final(self).inode_cache() == Map::<u64, (Attrs, bool)>::empty(),
            final(self).block_cache() == Map::<u64, (Vec<u8>, bool)>::empty(),
            final(self).free_blocks() == old(self).free_blocks(),
            final(self).free_inodes() == old(self).free_inodes(),
            forall|x: u64| #[trigger] old(self).inode_pinned(x) ==> final(self).inode_pinned(x)
                && evolves(old(self).known_inode(x), final(self).known_inode(x)),
            forall|x: u64| #[trigger] old(self).block_pinned(x) ==> final(self).block_pinned(x)
                && final(self).known_block(x) == old(self).known_block(x),
    {
        proof {
            self.inodes.lemma_bounded();
        }
        while self.inodes.contains_any()
            invariant
                self.wf(),
                self.config() == old(self).config(),
                self.block_cache() == old(self).block_cache(),
                self.free_blocks() == old(self).free_blocks(),
                self.free_inodes() == old(self).free_inodes(),
                self.staged_blocks() == old(self).staged_blocks(),
                forall|x: u64| #[trigger] outbox_block(self.pending(), x) == outbox_block(old(self).pending(), x),
                forall|x: u64| #[trigger] old(self).inode_pinned(x) ==> self.inode_pinned(x)
                    && evolves(old(self).known_inode(x), self.known_inode(x)),
            decreases self.inode_cache().len(),
        {
            let ghost pre = *self;
            proof {
                self.inodes.lemma_bounded();
            }
            let ev = self.inodes.pop_lru();
            proof {
                if ev is Some {
                    self.inodes.lemma_bounded();
                    pre.inode_cache().lemma_remove_key_len(ev->Some_0.0);
                }
                assert forall|b: u64| #[trigger] self.inodes@.contains_key(b) && !self.inodes@[b].1 implies outbox_inode(self.outbox@, b) is None by {
                    assert(pre.inodes@.contains_key(b));
                }
            }
            let ghost mid = *self;
            self.settle_inode(ev);
            proof {
                assert forall|x: u64| #[trigger] old(self).inode_pinned(x) implies self.inode_pinned(x)
                    && evolves(old(self).known_inode(x), self.known_inode(x)) by {
                    assert(pre.inode_pinned(x));
                    if pre.inodes@.contains_key(x) && !pre.inodes@[x].1 {
                        assert(outbox_inode(pre.outbox@, x) is None);
                    }
                    match ev {
                        Some((ek, ea, ed)) => {
                            if ed {
                                assert(self.outbox@.drop_last() =~= pre.outbox@);
                            }
                        },
                        None => {},
                    }
                }
                assert forall|b: u64| #[trigger] self.inodes@.contains_key(b) && !self.inodes@[b].1 implies outbox_inode(self.outbox@, b) is None by {
                    assert(pre.inodes@.contains_key(b));
                    match ev {
                        Some((ek, ea, ed)) => {
                            if ed {
                                assert(self.outbox@.drop_last() =~= pre.outbox@);
                            }
                        },
                        None => {},
                    }
                }
            }
        }
        proof {
            self.inodes.lemma_bounded();
            self.inodes@.dom().lemma_len0_is_empty();
            assert(self.inodes@ =~= Map::<u64, (Attrs, bool)>::empty());
        }
        let ghost s1 = *self;
        while self.blocks.contains_any()
            invariant
                self.wf(),
                self.config() == old(self).config(),
                self.inode_cache() == Map::<u64, (Attrs, bool)>::empty(),
                self.free_blocks() == old(self).free_blocks(),
                self.free_inodes() == old(self).free_inodes(),
                forall|x: u64| #[trigger] outbox_inode(self.pending(), x) == outbox_inode(s1.pending(), x),
                self.staged_inodes() == s1.staged_inodes(),
                forall|x: u64| #[trigger] old(self).block_pinned(x) ==> self.block_pinned(x)
                    && self.known_block(x) == old(self).known_block(x),
            decreases self.block_cache().len(),
        {
            let ghost pre = *self;
            proof {
                self.blocks.lemma_bounded();
            }
            let ev = self.blocks.pop_lru();
            proof {
                if ev is Some {
                    self.blocks.lemma_bounded();
                    pre.block_cache().lemma_remove_key_len(ev->Some_0.0);
                }
                assert forall|b: u64| #[trigger] self.blocks@.contains_key(b) && self.blocks@[b].1 implies !self.staged_blocks@.contains_key(b) by {
                    assert(pre.blocks@.contains_key(b));
                }
                assert forall|b: u64| #[trigger] self.blocks@.contains_key(b) && !self.blocks@[b].1 implies outbox_block(self.outbox@, b) is None by {
                    assert(pre.blocks@.contains_key(b));
                }
            }
            self.settle_block(ev);
            proof {
                assert forall|x: u64| #[trigger] old(self).block_pinned(x) implies self.block_pinned(x)
                    && self.known_block(x) == old(self).known_block(x) by {
                    assert(pre.block_pinned(x));
                    if pre.blocks@.contains_key(x) && !pre.blocks@[x].1 {
                        assert(outbox_block(pre.outbox@, x) is None);
                    }
                    match ev {
                        Some((ek, ed, dirty)) => {
                            if dirty {
                                assert(self.outbox@.drop_last() =~= pre.outbox@);
                            }
                        },
                        None => {},
                    }
                }
                assert forall|b: u64| #[trigger] self.blocks@.contains_key(b) && !self.blocks@[b].1 implies outbox_block(self.outbox@, b) is None by {
                    assert(pre.blocks@.contains_key(b));
                    match ev {
                        Some((ek, ed, dirty)) => {
                            if dirty {
                                assert(self.outbox@.drop_last() =~= pre.outbox@);
                            }
                        },
                        None => {},
                    }
                }
            }
        }
        proof {
            assert forall|x: u64| #[trigger] old(self).inode_pinned(x) implies self.inode_pinned(x)
                && evolves(old(self).known_inode(x), self.known_inode(x)) by {
                assert(s1.inode_pinned(x));
                assert(outbox_inode(self.pending(), x) == outbox_inode(s1.pending(), x));
                assert(self.known_inode(x) == s1.known_inode(x));
            }
            self.blocks.lemma_bounded();
            self.blocks@.dom().lemma_len0_is_empty();
            assert(self.block_cache() =~= Map::<u64, (Vec<u8>, bool)>::empty());
        }
    }

    /// Mounts over the records of the store, each with its key: makes the
    /// root directory, owned by `uid` and `gid`, when the store has no
    /// record for it (its record then waits in the outbox), and rebuilds
    /// both allocators: the root's number, every record's number and every
    /// record's blocks become used. `Io` when a record is not well formed or
    /// not stored under its own number.
    pub fn init(&mut self, uid: u32, gid: u32, now: u64, recs: &Vec<(u64, Attrs)>) -> (r: Result<(), FsError>)
        requires
            old(self).wf(),
        ensures
            final(self).wf(),
            final(self).config() == old(self).config(),
            Self::init_spec(*old(self), *final(self), uid, gid, now, recs@, r),
    {
        let r = self.init_inner(uid, gid, now, recs);
        self.complete(&r);
        r
    }

    pub open spec fn init_spec(pre: CyanFS, post: CyanFS, uid: u32, gid: u32, now: u64, recs: Seq<(u64, Attrs)>, r: Result<(), FsError>) -> bool {
        let rs = recs.map_values(|p: (u64, Attrs)| p.1);
        let all_ok = forall|k: int| 0 <= k < recs.len() ==> record_wf(#[trigger] recs[k].1) && recs[k].1.ino == recs[k].0;
        match pre.load_result(ROOT_INO) {
            Ok(_) | Err(FsError::Errno(Errno::NoEnt)) => {
                &&& all_ok ==> {
                    &&& r is Ok
                    &&& post.free_inodes() == pre.free_inodes().remove(ROOT_INO as int).difference(records_inos(rs))
                    &&& post.free_blocks() == pre.free_blocks().difference(records_blocks(rs))
                }
                &&& !all_ok ==> r == Err::<(), FsError>(FsError::Errno(Errno::Io))
                &&& pre.load_result(ROOT_INO) is Err ==> {
                    &&& post.inode_cache().contains_key(ROOT_INO)
                    &&& fresh(post.inode_cache()[ROOT_INO].0, ROOT_INO, FileType::Directory, 0o777, uid, gid, now, Seq::empty())
                    &&& post.pending().len() > 0 && post.pending().last() == Writeback::Sync(ROOT_INO)
                }
            },
            Err(e) => r == Err::<(), FsError>(e),
        }
    }

    fn init_inner(&mut self, uid: u32, gid: u32, now: u64, recs: &Vec<(u64, Attrs)>) -> (r: Result<(), FsError>)
        requires
            old(self).wf(),
        ensures
            final(self).wf(),
            final(self).config() == old(self).config(),
            Self::init_spec(*old(self), *final(self), uid, gid, now, recs@, r),
    {
        match self.load_inode(ROOT_INO) {
            Ok(()) => {},
            Err(FsError::Errno(Errno::NoEnt)) => {
                let no_link: Vec<u8> = Vec::new();
                let root = new_inode(ROOT_INO, FileType::Directory, 0o777, uid, gid, now, no_link.as_slice());
                proof {
                    assert(sum_lengths(root.extents@) == 0);
                    assert(no_link@ =~= Seq::<u8>::empty());
                }
                self.insert_inode(root);
            },
            Err(e) => { return Err(e); },
        }
        let ghost s1 = *self;
        self.inode_allocator.mark_used(ROOT_INO as usize, ROOT_INO as usize + 1);
        proof {
            assert(old(self).free_inodes().difference(range_set(1, 2)) =~= old(self).free_inodes().remove(1));
        }
        match self.scan(recs) {
            Ok(()) => Ok(()),
            Err(_) => Err(FsError::Errno(Errno::Io)),
        }
    }

    /// Takes one record found in the store under key `key` into account
    /// at mount: its number and its blocks become used. `Io`, with nothing
    /// changed, when the record is not well formed or not stored under its
    /// own number.
    pub fn scan_record(&mut self, key: u64, a: &Attrs) -> (r: Result<(), Errno>)
        requires
            old(self).wf(),
        ensures
            final(self).wf(),
            final(self).config() == old(self).config(),
            final(self).inode_cache() == old(self).inode_cache(),
            final(self).block_cache() == old(self).block_cache(),
            final(self).pending() == old(self).pending(),
            final(self).staged_inodes() == old(self).staged_inodes(),
            final(self).staged_blocks() == old(self).staged_blocks(),
            record_wf(*a) && a.ino == key ==> {
                &&& r is Ok
                &&& final(self).free_inodes() == old(self).free_inodes().remove(key as int)
                &&& final(self).free_blocks() == old(self).free_blocks().difference(extent_set(a.extents@))
            },
            !(record_wf(*a) && a.ino == key) ==> {
                &&& r == Err::<(), Errno>(Errno::Io)
                &&& final(self).free_inodes() == old(self).free_inodes()
                &&& final(self).free_blocks() == old(self).free_blocks()
            },
    {
        if !check_record(a) || a.ino != key {
            return Err(Errno::Io);
        }
        self.inode_allocator.mark_used(key as usize, key as usize + 1);
        proof {
            assert(old(self).free_inodes().difference(range_set(key as int, key + 1)) =~= old(self).free_inodes().remove(key as int));
        }
        let mut i: usize = 0;
        while i < a.extents.len()
            invariant
                self.wf(),
                self.config() == old(self).config(),
                extents_wf(a.extents@),
                i <= a.extents@.len(),
                self.free_blocks() == old(self).free_blocks().difference(extent_set(a.extents@.subrange(0, i as int))),
                self.free_inodes() == old(self).free_inodes().remove(key as int),
                self.inode_cache() == old(self).inode_cache(),
                self.block_cache() == old(self).block_cache(),
                self.staged_inodes() == old(self).staged_inodes(),
                self.staged_blocks() == old(self).staged_blocks(),
                self.pending() == old(self).pending(),
            decreases a.extents@.len() - i,
        {
            let e = a.extents[i];
            proof {
                assert(a.extents@.subrange(0, i + 1).drop_last() =~= a.extents@.subrange(0, i as int));
                assert(old(self).free_blocks().difference(extent_set(a.extents@.subrange(0, i as int))).difference(
                    range_set(e.start as int, e.end as int))
                    =~= old(self).free_blocks().difference(extent_set(a.extents@.subrange(0, i + 1))));
            }
            self.block_allocator.mark_used(e.start as usize, e.end as usize);
            i = i + 1;
        }
        proof {
            assert(a.extents@.subrange(0, i as int) =~= a.extents@);
        }
        Ok(())
    }

    /// Takes every record of the store, each with its key, into account
    /// at mount; `Io` when one of them is not well formed or not stored
    /// under its own number.
    pub fn scan(&mut self, recs: &Vec<(u64, Attrs)>) -> (r: Result<(), Errno>)
        requires
            old(self).wf(),
        ensures
            final(self).wf(),
            final(self).config() == old(self).config(),
            final(self).inode_cache() == old(self).inode_cache(),
            final(self).block_cache() == old(self).block_cache(),
            final(self).pending() == old(self).pending(),
            r is Ok <==> forall|k: int| 0 <= k < recs@.len() ==> record_wf(#[trigger] recs@[k].1) && recs@[k].1.ino == recs@[k].0,
            r is Err ==> r == Err::<(), Errno>(Errno::Io) && final(self).free_inodes() == old(self).free_inodes()
                && final(self).free_blocks() == old(self).free_blocks(),
            r is Ok ==> {
                let rs = recs@.map_values(|p: (u64, Attrs)| p.1);
                &&& final(self).free_inodes() == old(self).free_inodes().difference(records_inos(rs))
                &&& final(self).free_blocks() == old(self).free_blocks().difference(records_blocks(rs))
            },
    {
        let ghost rs = recs@.map_values(|p: (u64, Attrs)| p.1);
        let mut v: usize = 0;
        while v < recs.len()
            invariant
                v <= recs@.len(),
                *self == *old(self),
                self.wf(),
                forall|k: int| 0 <= k < v ==> record_wf(#[trigger] recs@[k].1) && recs@[k].1.ino == recs@[k].0,
            decreases recs@.len() - v,
        {
            if !check_record(&recs[v].1) || recs[v].1.ino != recs[v].0 {
                return Err(Errno::Io);
            }
            v = v + 1;
        }
        let mut i: usize = 0;
        while i < recs.len()
            invariant
                self.wf(),
                self.config() == old(self).config(),
                i <= recs@.len(),
                forall|k: int| 0 <= k < recs@.len() ==> record_wf(#[trigger] recs@[k].1) && recs@[k].1.ino == recs@[k].0,
                rs == recs@.map_values(|p: (u64, Attrs)| p.1),
                forall|k: int| 0 <= k < i ==> record_wf(#[trigger] recs@[k].1) && recs@[k].1.ino == recs@[k].0,
                self.free_inodes() == old(self).free_inodes().difference(records_inos(rs.subrange(0, i as int))),
                self.free_blocks() == old(self).free_blocks().difference(records_blocks(rs.subrange(0, i as int))),
                self.inode_cache() == old(self).inode_cache(),
                self.block_cache() == old(self).block_cache(),
                self.pending() == old(self).pending(),
            decreases recs@.len() - i,
        {
            let key = recs[i].0;
            let res = self.scan_record(key, &recs[i].1);
            if res.is_err() {
                return Err(Errno::Io);
            }
            proof {
                let pre = rs.subrange(0, i as int);
                let post = rs.subrange(0, i + 1);
                assert(post.drop_last() =~= pre);
                assert(post.last() == recs@[i as int].1);
                assert(records_inos(post) =~= records_inos(pre).insert(key as int)) by {
                    assert forall|x: int| records_inos(post).contains(x) implies records_inos(pre).insert(key as int).contains(x) by {
                        let k = choose|k: int| 0 <= k < post.len() && #[trigger] post[k].ino == x;
                        if k < i {
                            assert(pre[k] == post[k]);
                        }
                    }
                    assert forall|x: int| records_inos(pre).insert(key as int).contains(x) implies records_inos(post).contains(x) by {
                        if x == key {
                            assert(post[i as int].ino == x);
                        } else {
                            let k = choose|k: int| 0 <= k < pre.len() && #[trigger] pre[k].ino == x;
                            assert(post[k] == pre[k]);
                        }
                    }
                }
                assert(old(self).free_inodes().difference(records_inos(pre)).remove(key as int)
                    =~= old(self).free_inodes().difference(records_inos(post)));
                assert(old(self).free_blocks().difference(records_blocks(pre)).difference(extent_set(recs@[i as int].1.extents@))
                    =~= old(self).free_blocks().difference(records_blocks(post)));
            }
            i = i + 1;
        }
        proof {
            assert(rs.subrange(0, i as int) =~= rs);
        }
        Ok(())
    }

    /// The record that the inode cache holds for `ino`, if any.
    pub fn cached_record(&self, ino: u64) -> (r: Option<&Attrs>)
        ensures
            match r {
                Some(a) => self.inode_cache().contains_key(ino) && *a == self.inode_cache()[ino].0,
                None => !self.inode_cache().contains_key(ino),
            },
    {
        self.inodes.peek(ino)
    }

    /// What a `Writeback::Sync(ino)` comes to now: the cached record is
    /// stored while something links to it and deleted otherwise.
    pub fn sync_action(&self, ino: u64) -> (r: SyncAction)
        ensures
            r == if !self.inode_cache().contains_key(ino) {
                SyncAction::Skip
            } else if self.inode_cache()[ino].0.nlink == 0 {
                SyncAction::Delete
            } else {
                SyncAction::Store
            },
    {
        match self.inodes.peek(ino) {
            Some(a) => if a.nlink == 0 { SyncAction::Delete } else { SyncAction::Store },
            None => SyncAction::Skip,
        }
    }

    /// Whether block `id` is free in the block allocator.
    pub fn block_is_free(&self, id: u64) -> (r: bool)
        ensures
            r == (id < CAPACITY && self.free_blocks().contains(id as int)),
    {
        id < CAPACITY as u64 && self.block_allocator.is_free(id as usize)
    }

    /// Whether inode number `ino` is free in the inode allocator.
    pub fn inode_is_free(&self, ino: u64) -> (r: bool)
        ensures
            r == (ino < CAPACITY && self.free_inodes().contains(ino as int)),
    {
        ino < CAPACITY as u64 && self.inode_allocator.is_free(ino as usize)
    }
}

/// A new record: number `ino`, empty, one link, all times `now`.
pub fn new_inode(ino: u64, kind: FileType, perm: u16, uid: u32, gid: u32, now: u64, link: &[u8]) -> (r: Attrs)
    ensures
        fresh(r, ino, kind, perm, uid, gid, now, link@),
{
    Attrs {
        ino,
        size: 0,
        extents: Vec::new(),
        atime: now,
        mtime: now,
        ctime: now,
        crtime: now,
        kind,
        perm,
        nlink: 1,
        uid,
        gid,
        rdev: 0,
        flags: 0,
        entries: Vec::new(),
        link: copy_bytes(link),
    }
}

/// An owned copy of a list of extents.
fn copy_extents(exts: &Vec<Extent>) -> (r: Vec<Extent>)
    ensures
        r@ == exts@,
{
    let mut r: Vec<Extent> = Vec::new();
    let mut i: usize = 0;
    while i < exts.len()
        invariant
            i <= exts@.len(),
            r@ == exts@.subrange(0, i as int),
        decreases exts@.len() - i,
    {
        r.push(exts[i]);
        i = i + 1;
        assert(r@ =~= exts@.subrange(0, i as int));
    }
    assert(exts@.subrange(0, i as int) =~= exts@);
    r
}
} // verus!
