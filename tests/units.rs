use cyanfs::bitmap::{Allocator, CAPACITY};
use cyanfs::cache::CacheTable;
use cyanfs::dirent::{bytes_eq, copy_bytes, find_entry, insert_entry, lookup_entry, rekey_entry, remove_entry};
use cyanfs::errno::Errno;
use cyanfs::extent::{assemble_read, logical_block, merge_block};
use cyanfs::fs::check_record;
use cyanfs::inode::{Attrs, DirEntry, Extent, FileType, NamedEntry};
use cyanfs::mode::{mask_perm, node_kind};

fn record(extents: Vec<Extent>) -> Attrs {
    Attrs {
        ino: 5,
        size: 0,
        extents,
        atime: 0,
        mtime: 0,
        ctime: 0,
        crtime: 0,
        kind: FileType::RegularFile,
        perm: 0o644,
        nlink: 1,
        uid: 0,
        gid: 0,
        rdev: 0,
        flags: 0,
        entries: Vec::new(),
        link: Vec::new(),
    }
}

#[test]
fn blocks_sums_extent_lengths() {
    let a = record(vec![Extent { start: 3, end: 5 }, Extent { start: 10, end: 14 }]);
    assert_eq!(a.blocks(), 6);
    assert_eq!(record(vec![]).blocks(), 0);
}

#[test]
fn logical_block_walks_extents() {
    let exts = vec![Extent { start: 3, end: 5 }, Extent { start: 10, end: 14 }];
    let got: Vec<u64> = (0..6).map(|k| logical_block(&exts, k)).collect();
    assert_eq!(got, vec![3, 4, 10, 11, 12, 13]);
}

#[test]
fn merge_block_overlays_written_bytes() {
    let old = vec![1u8; 8];
    assert_eq!(merge_block(&old, 8, 10, &[9, 9, 9]), vec![1, 1, 9, 9, 9, 1, 1, 1]);
    assert_eq!(merge_block(&old, 8, 4, &[7; 6]), vec![7, 7, 1, 1, 1, 1, 1, 1]);
    assert_eq!(merge_block(&old, 8, 14, &[5; 10]), vec![1, 1, 1, 1, 1, 1, 5, 5]);
    assert_eq!(merge_block(&old, 8, 0, &[2; 4]), old);
}

#[test]
fn assemble_read_spans_chunks() {
    let chunks = vec![vec![0u8, 1, 2, 3], vec![4u8, 5, 6, 7]];
    assert_eq!(assemble_read(&chunks, 4, 2, 4), vec![2, 3, 4, 5]);
    assert_eq!(assemble_read(&chunks, 4, 0, 0), Vec::<u8>::new());
}

#[test]
fn directory_entries() {
    let mut es: Vec<NamedEntry> = Vec::new();
    let e1 = DirEntry { ino: 2, kind: FileType::RegularFile };
    let e2 = DirEntry { ino: 3, kind: FileType::Directory };
    assert_eq!(insert_entry(&mut es, b"a", e1), Ok(()));
    assert_eq!(insert_entry(&mut es, b"b", e2), Ok(()));
    assert_eq!(insert_entry(&mut es, b"a", e2), Err(Errno::Exist));
    assert_eq!(lookup_entry(&es, b"b"), Ok(e2));
    assert_eq!(find_entry(&es, b"a"), Some(0));
    assert_eq!(lookup_entry(&es, b"c"), Err(Errno::NoEnt));
    assert_eq!(rekey_entry(&mut es, b"a", b"b"), Ok(()));
    assert_eq!(lookup_entry(&es, b"b"), Ok(e1));
    assert_eq!(lookup_entry(&es, b"a"), Err(Errno::NoEnt));
    assert_eq!(es.len(), 1);
    assert_eq!(rekey_entry(&mut es, b"x", b"y"), Err(Errno::NoEnt));
    assert_eq!(remove_entry(&mut es, b"b"), Ok(e1));
    assert_eq!(remove_entry(&mut es, b"b"), Err(Errno::NoEnt));
    assert!(es.is_empty());
}

#[test]
fn byte_helpers() {
    assert!(bytes_eq(b"abc", b"abc"));
    assert!(!bytes_eq(b"abc", b"abd"));
    assert!(!bytes_eq(b"ab", b"abc"));
    assert_eq!(copy_bytes(b"xyz"), b"xyz".to_vec());
}

#[test]
fn allocator_takes_first_fit() {
    let mut a = Allocator::new(0, 64);
    assert!(a.is_free(0));
    assert!(!a.is_free(64));
    a.mark_used(2, 4);
    assert_eq!(a.alloc_one(), Some(0));
    assert_eq!(a.alloc_contiguous(3), Some(4));
    assert!(!a.is_free(5));
    a.free_range(4, 7);
    a.free_one(0);
    assert_eq!(a.alloc_contiguous(2), Some(0));
    assert_eq!(a.alloc_contiguous(100), None);
    let mut full = Allocator::new(CAPACITY - 1, CAPACITY);
    assert_eq!(full.alloc_one(), Some(CAPACITY - 1));
    assert_eq!(full.alloc_one(), None);
}

#[test]
fn cache_table_evicts_least_recent() {
    let mut c: CacheTable<u32> = CacheTable::new(2);
    assert_eq!(c.put(1, 10, false), None);
    assert_eq!(c.put(2, 20, true), None);
    c.touch(1);
    assert_eq!(c.put(3, 30, false), Some((2, 20, true)));
    assert!(c.contains(1));
    assert_eq!(c.peek(3), Some(&30));
    assert_eq!(c.put(3, 31, true), None);
    assert_eq!(c.take(3), Some((31, true)));
    assert_eq!(c.pop_lru(), Some((1, 10, false)));
    assert_eq!(c.pop_lru(), None);
    assert!(!c.contains_any());
}

#[test]
fn record_checks() {
    assert!(check_record(&record(vec![Extent { start: 0, end: 2 }])));
    assert!(!check_record(&record(vec![Extent { start: 2, end: 2 }])));
    assert!(!check_record(&record(vec![Extent { start: 0, end: CAPACITY as u64 + 1 }])));
    let mut dup = record(vec![]);
    let e = DirEntry { ino: 9, kind: FileType::Symlink };
    dup.entries.push(NamedEntry { name: b"n".to_vec(), entry: e });
    dup.entries.push(NamedEntry { name: b"n".to_vec(), entry: e });
    assert!(!check_record(&dup));
    let mut zero = record(vec![]);
    zero.ino = 0;
    assert!(!check_record(&zero));
}

#[test]
fn mode_bits() {
    assert_eq!(node_kind(0o100644), Ok(FileType::RegularFile));
    assert_eq!(node_kind(0o060644), Err(Errno::NoSys));
    assert_eq!(node_kind(0o140644), Err(Errno::NoSys));
    assert_eq!(node_kind(0o120777), Err(Errno::Inval));
    assert_eq!(mask_perm(0o100666, 0o022), 0o644);
}
