use cyanfs::bitmap::CAPACITY;
use cyanfs::errno::Errno;
use cyanfs::fs::{AttrChanges, CyanFS, Fetched, FsError, Stat, SyncAction, Writeback, ROOT_INO};
use cyanfs::inode::{Attrs, FileType};
use cyanfs::mode::S_IFREG;
use std::collections::HashMap;

const NOW: u64 = 1_700_000_000_000_000_000;

/// The two backing stores, kept in memory.
struct Store {
    blocks: HashMap<u64, Vec<u8>>,
    kv: HashMap<u64, Attrs>,
    block_size: u64,
}

fn store(block_size: u64) -> Store {
    Store { blocks: HashMap::new(), kv: HashMap::new(), block_size }
}

fn apply(fs: &mut CyanFS, st: &mut Store) {
    for w in fs.take_pending() {
        match w {
            Writeback::Block { id, data } => {
                st.blocks.insert(id, data);
            }
            Writeback::Put(a) => {
                st.kv.insert(a.ino, a);
            }
            Writeback::Delete(ino) => {
                st.kv.remove(&ino);
            }
            Writeback::Sync(ino) => match fs.sync_action(ino) {
                SyncAction::Store => {
                    st.kv.insert(ino, fs.cached_record(ino).unwrap().clone());
                }
                SyncAction::Delete => {
                    st.kv.remove(&ino);
                }
                SyncAction::Skip => {}
            },
        }
    }
}

fn run<T>(fs: &mut CyanFS, st: &mut Store, mut op: impl FnMut(&mut CyanFS) -> Result<T, FsError>) -> Result<T, Errno> {
    for _ in 0..100_000 {
        match op(fs) {
            Err(FsError::MissingInode(i)) => {
                apply(fs, st);
                let f = match st.kv.get(&i) {
                    Some(a) => Fetched::Found(a.clone()),
                    None => Fetched::Absent,
                };
                assert!(fs.stage_inode(i, f));
            }
            Err(FsError::MissingBlock(b)) => {
                apply(fs, st);
                let d = st.blocks.get(&b).cloned().unwrap_or(vec![0u8; st.block_size as usize]);
                assert!(fs.stage_block(b, d));
            }
            Err(FsError::Errno(e)) => {
                apply(fs, st);
                return Err(e);
            }
            Ok(v) => {
                apply(fs, st);
                return Ok(v);
            }
        }
    }
    panic!("operation did not settle");
}

fn mount_with(st: &mut Store, block_cache: usize, inode_cache: usize) -> CyanFS {
    let mut fs = CyanFS::new(st.block_size, block_cache, inode_cache);
    let recs: Vec<(u64, Attrs)> = st.kv.iter().map(|(k, a)| (*k, a.clone())).collect();
    run(&mut fs, st, |fs| fs.init(0, 0, NOW, &recs)).unwrap();
    fs
}

fn changes(mode: Option<u32>, size: Option<u64>) -> AttrChanges {
    AttrChanges { mode, uid: None, gid: None, size, atime: None, mtime: None, ctime: None, crtime: None, flags: None }
}

fn mount(st: &mut Store) -> CyanFS {
    mount_with(st, 64, 64)
}

fn unmount(fs: &mut CyanFS, st: &mut Store) {
    fs.flush();
    apply(fs, st);
}

fn mkdir(fs: &mut CyanFS, st: &mut Store, parent: u64, name: &str) -> Result<Stat, Errno> {
    run(fs, st, |fs| fs.mkdir(parent, name.as_bytes(), 0o755, 0o022, 0, 0, NOW))
}

fn create(fs: &mut CyanFS, st: &mut Store, parent: u64, name: &str) -> Result<Stat, Errno> {
    run(fs, st, |fs| fs.create(parent, name.as_bytes(), 0o644, 0o022, 0, 0, NOW))
}

fn write(fs: &mut CyanFS, st: &mut Store, ino: u64, offset: u64, data: &[u8]) -> Result<u64, Errno> {
    run(fs, st, |fs| fs.write(ino, offset, data))
}

fn read(fs: &mut CyanFS, st: &mut Store, ino: u64, offset: u64, size: u32) -> Result<Vec<u8>, Errno> {
    run(fs, st, |fs| fs.read(ino, offset, size))
}

fn getattr(fs: &mut CyanFS, st: &mut Store, ino: u64) -> Result<Stat, Errno> {
    run(fs, st, |fs| fs.getattr(ino))
}

fn lookup(fs: &mut CyanFS, st: &mut Store, parent: u64, name: &str) -> Result<Stat, Errno> {
    run(fs, st, |fs| fs.lookup(parent, name.as_bytes()))
}

fn unlink(fs: &mut CyanFS, st: &mut Store, parent: u64, name: &str) -> Result<(), Errno> {
    run(fs, st, |fs| fs.unlink(parent, name.as_bytes()))
}

fn block_ids(fs: &mut CyanFS, st: &mut Store, ino: u64) -> Vec<u64> {
    run(fs, st, |fs| fs.access(ino)).unwrap();
    let a = fs.cached_record(ino).unwrap();
    a.extents.iter().flat_map(|e| e.start..e.end).collect()
}

#[test]
fn create_write_read() {
    let mut st = store(512);
    let mut fs = mount(&mut st);
    let d = mkdir(&mut fs, &mut st, ROOT_INO, "d").unwrap();
    assert_eq!(d.kind, FileType::Directory);
    assert_eq!(d.perm, 0o755);
    let f = create(&mut fs, &mut st, d.ino, "f").unwrap();
    assert_eq!(f.perm, 0o644);
    assert_eq!(write(&mut fs, &mut st, f.ino, 0, b"hello"), Ok(5));
    assert_eq!(read(&mut fs, &mut st, f.ino, 0, 16).unwrap(), b"hello".to_vec());
    assert_eq!(getattr(&mut fs, &mut st, f.ino).unwrap().size, 5);
}

#[test]
fn cross_block_write() {
    let mut st = store(512);
    let mut fs = mount(&mut st);
    let f = create(&mut fs, &mut st, ROOT_INO, "f").unwrap();
    let data: Vec<u8> = (0..24u8).map(|i| i + 100).collect();
    assert_eq!(write(&mut fs, &mut st, f.ino, 500, &data), Ok(24));
    assert_eq!(read(&mut fs, &mut st, f.ino, 500, 24).unwrap(), data);
    let a = getattr(&mut fs, &mut st, f.ino).unwrap();
    assert_eq!(a.size, 524);
    assert_eq!(a.blocks, 2);
    assert_eq!(block_ids(&mut fs, &mut st, f.ino).len(), 2);
}

#[test]
fn unlink_frees_blocks() {
    let mut st = store(512);
    let mut fs = mount(&mut st);
    let a = create(&mut fs, &mut st, ROOT_INO, "a").unwrap();
    assert_eq!(write(&mut fs, &mut st, a.ino, 0, &vec![0u8; 4096]), Ok(4096));
    let ids = block_ids(&mut fs, &mut st, a.ino);
    assert_eq!(ids.len(), 8);
    for id in &ids {
        assert!(!fs.block_is_free(*id));
    }
    unlink(&mut fs, &mut st, ROOT_INO, "a").unwrap();
    fs.flush();
    apply(&mut fs, &mut st);
    for id in &ids {
        assert!(fs.block_is_free(*id));
    }
    let b = create(&mut fs, &mut st, ROOT_INO, "b").unwrap();
    assert_eq!(write(&mut fs, &mut st, b.ino, 0, &vec![7u8; 8192]), Ok(8192));
    let reused = block_ids(&mut fs, &mut st, b.ino);
    for id in &ids {
        assert!(reused.contains(id));
    }
}

#[test]
fn hard_link() {
    let mut st = store(512);
    let mut fs = mount(&mut st);
    let x = create(&mut fs, &mut st, ROOT_INO, "x").unwrap();
    let l = run(&mut fs, &mut st, |fs| fs.link(x.ino, ROOT_INO, b"y")).unwrap();
    assert_eq!(l.ino, x.ino);
    assert_eq!(lookup(&mut fs, &mut st, ROOT_INO, "x").unwrap().nlink, 2);
    assert_eq!(lookup(&mut fs, &mut st, ROOT_INO, "y").unwrap().nlink, 2);
    unlink(&mut fs, &mut st, ROOT_INO, "x").unwrap();
    let y = lookup(&mut fs, &mut st, ROOT_INO, "y").unwrap();
    assert_eq!(y.ino, x.ino);
    assert_eq!(y.nlink, 1);
}

#[test]
fn rename_across_directories() {
    let mut st = store(512);
    let mut fs = mount(&mut st);
    let a = mkdir(&mut fs, &mut st, ROOT_INO, "a").unwrap();
    let b = mkdir(&mut fs, &mut st, ROOT_INO, "b").unwrap();
    let f = create(&mut fs, &mut st, a.ino, "f").unwrap();
    run(&mut fs, &mut st, |fs| fs.rename(a.ino, b"f", b.ino, b"g")).unwrap();
    assert_eq!(lookup(&mut fs, &mut st, a.ino, "f"), Err(Errno::NoEnt));
    assert_eq!(lookup(&mut fs, &mut st, b.ino, "g").unwrap().ino, f.ino);
}

#[test]
fn remount_recovery() {
    let mut st = store(512);
    let mut fs = mount(&mut st);
    let d = mkdir(&mut fs, &mut st, ROOT_INO, "d").unwrap();
    let f = create(&mut fs, &mut st, d.ino, "f").unwrap();
    write(&mut fs, &mut st, f.ino, 0, b"hello").unwrap();
    let g = create(&mut fs, &mut st, ROOT_INO, "g").unwrap();
    let data: Vec<u8> = (0..24u8).collect();
    write(&mut fs, &mut st, g.ino, 500, &data).unwrap();
    unmount(&mut fs, &mut st);
    let used_blocks: Vec<u64> = (0..64).filter(|b| !fs.block_is_free(*b)).collect();
    let used_inodes: Vec<u64> = (1..64).filter(|i| !fs.inode_is_free(*i)).collect();

    let mut fs2 = mount(&mut st);
    assert_eq!(lookup(&mut fs2, &mut st, ROOT_INO, "d").unwrap().ino, d.ino);
    assert_eq!(lookup(&mut fs2, &mut st, d.ino, "f").unwrap().ino, f.ino);
    assert_eq!(read(&mut fs2, &mut st, f.ino, 0, 16).unwrap(), b"hello".to_vec());
    assert_eq!(read(&mut fs2, &mut st, g.ino, 500, 24).unwrap(), data);
    assert_eq!(getattr(&mut fs2, &mut st, g.ino).unwrap().size, 524);
    let used_blocks2: Vec<u64> = (0..64).filter(|b| !fs2.block_is_free(*b)).collect();
    let used_inodes2: Vec<u64> = (1..64).filter(|i| !fs2.inode_is_free(*i)).collect();
    assert_eq!(used_blocks, used_blocks2);
    assert_eq!(used_inodes, used_inodes2);
    assert_eq!(used_blocks.len(), 3);
    assert_eq!(used_inodes, vec![ROOT_INO, d.ino, f.ino, g.ino]);
}

#[test]
fn blocks_cover_size_after_writes() {
    let mut st = store(512);
    let mut fs = mount(&mut st);
    let f = create(&mut fs, &mut st, ROOT_INO, "f").unwrap();
    for (off, len) in [(0u64, 1usize), (511, 2), (1500, 600), (0, 3000)] {
        write(&mut fs, &mut st, f.ino, off, &vec![1u8; len]).unwrap();
        let a = getattr(&mut fs, &mut st, f.ino).unwrap();
        assert!(a.blocks * 512 >= a.size);
    }
}

#[test]
fn allocator_used_set_matches_records() {
    let mut st = store(512);
    let mut fs = mount(&mut st);
    let f = create(&mut fs, &mut st, ROOT_INO, "f").unwrap();
    write(&mut fs, &mut st, f.ino, 0, &vec![3u8; 1500]).unwrap();
    let d = mkdir(&mut fs, &mut st, ROOT_INO, "d").unwrap();
    unmount(&mut fs, &mut st);
    let fs2 = mount(&mut st);
    let mut record_blocks: Vec<u64> = st.kv.values().flat_map(|a| a.extents.iter().flat_map(|e| e.start..e.end)).collect();
    record_blocks.sort();
    let used: Vec<u64> = (0..256).filter(|b| !fs2.block_is_free(*b)).collect();
    assert_eq!(used, record_blocks);
    let mut keys: Vec<u64> = st.kv.keys().cloned().collect();
    keys.sort();
    let used_inodes: Vec<u64> = (1..256).filter(|i| !fs2.inode_is_free(*i)).collect();
    assert_eq!(used_inodes, keys);
    assert_eq!(keys, vec![ROOT_INO, f.ino, d.ino]);
}

#[test]
fn files_never_share_blocks() {
    let mut st = store(512);
    let mut fs = mount(&mut st);
    let a = create(&mut fs, &mut st, ROOT_INO, "a").unwrap();
    let b = create(&mut fs, &mut st, ROOT_INO, "b").unwrap();
    write(&mut fs, &mut st, a.ino, 0, &vec![1u8; 1000]).unwrap();
    write(&mut fs, &mut st, b.ino, 0, &vec![2u8; 1000]).unwrap();
    write(&mut fs, &mut st, a.ino, 1000, &vec![3u8; 2000]).unwrap();
    let ia = block_ids(&mut fs, &mut st, a.ino);
    let ib = block_ids(&mut fs, &mut st, b.ino);
    for x in &ia {
        assert!(!ib.contains(x));
    }
    let mut all = ia.clone();
    all.sort();
    all.dedup();
    assert_eq!(all.len(), ia.len());
}

#[test]
fn write_then_read_same_range() {
    let mut st = store(512);
    let mut fs = mount_with(&mut st, 2, 2);
    let f = create(&mut fs, &mut st, ROOT_INO, "f").unwrap();
    write(&mut fs, &mut st, f.ino, 0, &vec![9u8; 3000]).unwrap();
    let data: Vec<u8> = (0..1700u32).map(|i| (i % 251) as u8).collect();
    write(&mut fs, &mut st, f.ino, 300, &data).unwrap();
    assert_eq!(read(&mut fs, &mut st, f.ino, 300, 1700).unwrap(), data);
    let whole = read(&mut fs, &mut st, f.ino, 0, 3000).unwrap();
    assert_eq!(&whole[..300], &vec![9u8; 300][..]);
    assert_eq!(&whole[2000..], &vec![9u8; 1000][..]);
}

#[test]
fn read_past_end_is_empty() {
    let mut st = store(512);
    let mut fs = mount(&mut st);
    let f = create(&mut fs, &mut st, ROOT_INO, "f").unwrap();
    write(&mut fs, &mut st, f.ino, 0, b"abc").unwrap();
    assert_eq!(read(&mut fs, &mut st, f.ino, 3, 10).unwrap().len(), 0);
    assert_eq!(read(&mut fs, &mut st, f.ino, 1000, 10).unwrap().len(), 0);
    assert_eq!(read(&mut fs, &mut st, f.ino, 1, 10).unwrap(), b"bc".to_vec());
}

#[test]
fn unlinked_record_leaves_store() {
    let mut st = store(512);
    let mut fs = mount(&mut st);
    let f = create(&mut fs, &mut st, ROOT_INO, "f").unwrap();
    run(&mut fs, &mut st, |fs| fs.fsync(f.ino)).unwrap();
    assert!(st.kv.contains_key(&f.ino));
    unlink(&mut fs, &mut st, ROOT_INO, "f").unwrap();
    assert!(fs.inode_is_free(f.ino));
    run(&mut fs, &mut st, |fs| fs.fsync(f.ino)).unwrap();
    assert!(!st.kv.contains_key(&f.ino));
}

#[test]
fn fsync_persists_written_bytes() {
    let mut st = store(512);
    let mut fs = mount(&mut st);
    let f = create(&mut fs, &mut st, ROOT_INO, "f").unwrap();
    write(&mut fs, &mut st, f.ino, 10, b"durable").unwrap();
    run(&mut fs, &mut st, |fs| fs.fsync(f.ino)).unwrap();
    // a new core over the same stores, without flushing the old one
    let mut fs2 = mount(&mut st);
    assert_eq!(read(&mut fs2, &mut st, f.ino, 10, 7).unwrap(), b"durable".to_vec());
}

#[test]
fn lookup_follows_namespace_changes() {
    let mut st = store(512);
    let mut fs = mount(&mut st);
    assert_eq!(lookup(&mut fs, &mut st, ROOT_INO, "n"), Err(Errno::NoEnt));
    let n = create(&mut fs, &mut st, ROOT_INO, "n").unwrap();
    assert_eq!(lookup(&mut fs, &mut st, ROOT_INO, "n").unwrap().ino, n.ino);
    run(&mut fs, &mut st, |fs| fs.rename(ROOT_INO, b"n", ROOT_INO, b"m")).unwrap();
    assert_eq!(lookup(&mut fs, &mut st, ROOT_INO, "n"), Err(Errno::NoEnt));
    assert_eq!(lookup(&mut fs, &mut st, ROOT_INO, "m").unwrap().ino, n.ino);
    unlink(&mut fs, &mut st, ROOT_INO, "m").unwrap();
    assert_eq!(lookup(&mut fs, &mut st, ROOT_INO, "m"), Err(Errno::NoEnt));
    let s = run(&mut fs, &mut st, |fs| fs.symlink(ROOT_INO, b"s", b"/target", 0, 0, NOW)).unwrap();
    assert_eq!(lookup(&mut fs, &mut st, ROOT_INO, "s").unwrap().ino, s.ino);
    run(&mut fs, &mut st, |fs| fs.rmdir(ROOT_INO, b"s")).unwrap();
    assert_eq!(lookup(&mut fs, &mut st, ROOT_INO, "s"), Err(Errno::NoEnt));
}

#[test]
fn writing_twice_matches_writing_once() {
    let mut once = store(512);
    let mut fs1 = mount(&mut once);
    let f1 = create(&mut fs1, &mut once, ROOT_INO, "f").unwrap();
    let data: Vec<u8> = (0..700u32).map(|i| (i * 7) as u8).collect();
    write(&mut fs1, &mut once, f1.ino, 0, &data).unwrap();
    unmount(&mut fs1, &mut once);

    let mut twice = store(512);
    let mut fs2 = mount(&mut twice);
    let f2 = create(&mut fs2, &mut twice, ROOT_INO, "f").unwrap();
    write(&mut fs2, &mut twice, f2.ino, 0, &data).unwrap();
    write(&mut fs2, &mut twice, f2.ino, 0, &data).unwrap();
    unmount(&mut fs2, &mut twice);

    assert_eq!(once.blocks, twice.blocks);
    let a1 = &once.kv[&f1.ino];
    let a2 = &twice.kv[&f2.ino];
    assert_eq!(a1.size, a2.size);
    assert_eq!(a1.extents, a2.extents);
}

#[test]
fn remount_reproduces_allocators() {
    let mut st = store(512);
    let mut fs = mount(&mut st);
    let f = create(&mut fs, &mut st, ROOT_INO, "f").unwrap();
    write(&mut fs, &mut st, f.ino, 0, &vec![5u8; 2000]).unwrap();
    let g = create(&mut fs, &mut st, ROOT_INO, "g").unwrap();
    write(&mut fs, &mut st, g.ino, 0, &vec![6u8; 600]).unwrap();
    unmount(&mut fs, &mut st);
    let a = mount(&mut st);
    let b = mount(&mut st);
    for i in 0..128 {
        assert_eq!(a.block_is_free(i), fs.block_is_free(i));
        assert_eq!(a.block_is_free(i), b.block_is_free(i));
        assert_eq!(a.inode_is_free(i), fs.inode_is_free(i));
    }
}

#[test]
fn errors_of_namespace_operations() {
    let mut st = store(512);
    let mut fs = mount(&mut st);
    let f = create(&mut fs, &mut st, ROOT_INO, "f").unwrap();
    assert_eq!(create(&mut fs, &mut st, ROOT_INO, "f"), Err(Errno::Exist));
    assert_eq!(mkdir(&mut fs, &mut st, ROOT_INO, "f"), Err(Errno::Exist));
    assert_eq!(create(&mut fs, &mut st, f.ino, "x"), Err(Errno::NotDir));
    assert_eq!(lookup(&mut fs, &mut st, f.ino, "x"), Err(Errno::NotDir));
    assert_eq!(getattr(&mut fs, &mut st, 4242), Err(Errno::NoEnt));
    assert_eq!(unlink(&mut fs, &mut st, ROOT_INO, "nothing"), Err(Errno::NoEnt));
    assert_eq!(run(&mut fs, &mut st, |fs| fs.link(f.ino, ROOT_INO, b"f")), Err(Errno::Exist));
    assert_eq!(run(&mut fs, &mut st, |fs| fs.rename(ROOT_INO, b"zz", ROOT_INO, b"yy")), Err(Errno::NoEnt));
    let d = mkdir(&mut fs, &mut st, ROOT_INO, "d").unwrap();
    create(&mut fs, &mut st, d.ino, "f").unwrap();
    assert_eq!(run(&mut fs, &mut st, |fs| fs.rename(ROOT_INO, b"f", d.ino, b"f")), Err(Errno::Exist));
    assert_eq!(lookup(&mut fs, &mut st, ROOT_INO, "f").unwrap().ino, f.ino);
}

#[test]
fn mknod_kinds() {
    let mut st = store(512);
    let mut fs = mount(&mut st);
    let r = run(&mut fs, &mut st, |fs| fs.mknod(ROOT_INO, b"r", S_IFREG | 0o640, 0o027, 5, 6, NOW)).unwrap();
    assert_eq!(r.kind, FileType::RegularFile);
    assert_eq!(r.perm, 0o640);
    assert_eq!(r.uid, 5);
    assert_eq!(r.gid, 6);
    assert_eq!(r.nlink, 1);
    assert_eq!(run(&mut fs, &mut st, |fs| fs.mknod(ROOT_INO, b"c", 0o020644, 0, 0, 0, NOW)), Err(Errno::NoSys));
    assert_eq!(run(&mut fs, &mut st, |fs| fs.mknod(ROOT_INO, b"p", 0o010644, 0, 0, 0, NOW)), Err(Errno::NoSys));
    assert_eq!(run(&mut fs, &mut st, |fs| fs.mknod(ROOT_INO, b"d", 0o040755, 0, 0, 0, NOW)), Err(Errno::Inval));
}

#[test]
fn write_errors() {
    let mut st = store(512);
    let mut fs = mount(&mut st);
    let f = create(&mut fs, &mut st, ROOT_INO, "f").unwrap();
    assert_eq!(write(&mut fs, &mut st, f.ino, u64::MAX - 1, b"abc"), Err(Errno::Inval));
    assert_eq!(write(&mut fs, &mut st, f.ino, CAPACITY as u64 * 512, b"abc"), Err(Errno::NoSpc));
    assert_eq!(getattr(&mut fs, &mut st, f.ino).unwrap().size, 0);
}

#[test]
fn corrupt_record_is_io_error() {
    let mut st = store(512);
    let mut fs = mount(&mut st);
    let r = fs.stage_inode(77, Fetched::Corrupt);
    assert!(r);
    assert_eq!(fs.getattr(77), Err(FsError::Errno(Errno::Io)));
    let mut bad = st.kv[&ROOT_INO].clone();
    bad.ino = 78;
    bad.extents.push(cyanfs::inode::Extent { start: 10, end: 5 });
    assert!(fs.stage_inode(78, Fetched::Found(bad.clone())));
    assert_eq!(fs.getattr(78), Err(FsError::Errno(Errno::Io)));
    assert_eq!(fs.scan_record(78, &bad), Err(Errno::Io));
}

#[test]
fn readdir_resumes_at_offset() {
    let mut st = store(512);
    let mut fs = mount(&mut st);
    for n in ["a", "b", "c"] {
        create(&mut fs, &mut st, ROOT_INO, n).unwrap();
    }
    let all = run(&mut fs, &mut st, |fs| fs.readdir(ROOT_INO, 0)).unwrap();
    let names: Vec<Vec<u8>> = all.iter().map(|l| l.name.clone()).collect();
    assert_eq!(names, vec![b"a".to_vec(), b"b".to_vec(), b"c".to_vec()]);
    assert_eq!(all.iter().map(|l| l.offset).collect::<Vec<u64>>(), vec![1, 2, 3]);
    let rest = run(&mut fs, &mut st, |fs| fs.readdir(ROOT_INO, 2)).unwrap();
    assert_eq!(rest.len(), 1);
    assert_eq!(rest[0].name, b"c".to_vec());
    assert_eq!(run(&mut fs, &mut st, |fs| fs.readdir(ROOT_INO, 9)).unwrap().len(), 0);
}

#[test]
fn symlink_setattr_fallocate() {
    let mut st = store(512);
    let mut fs = mount(&mut st);
    let s = run(&mut fs, &mut st, |fs| fs.symlink(ROOT_INO, b"l", b"/some/where", 1, 2, NOW)).unwrap();
    assert_eq!(s.kind, FileType::Symlink);
    assert_eq!(run(&mut fs, &mut st, |fs| fs.readlink(s.ino)).unwrap(), b"/some/where".to_vec());
    let f = create(&mut fs, &mut st, ROOT_INO, "f").unwrap();
    let a = run(&mut fs, &mut st, |fs| fs.setattr(f.ino, changes(Some(0o600), Some(10)))).unwrap();
    assert_eq!(a.perm, 0o600);
    assert_eq!(a.size, 10);
    run(&mut fs, &mut st, |fs| fs.fallocate(f.ino, 1000, 100)).unwrap();
    let b = getattr(&mut fs, &mut st, f.ino).unwrap();
    assert_eq!(b.size, 1100);
    assert_eq!(b.blocks, 3);
    assert_eq!(run(&mut fs, &mut st, |fs| fs.fallocate(f.ino, u64::MAX, 1)), Err(Errno::Inval));
    assert_eq!(run(&mut fs, &mut st, |fs| fs.access(f.ino)), Ok(()));
    assert_eq!(run(&mut fs, &mut st, |fs| fs.access(999)), Err(Errno::NoEnt));
}

#[test]
fn small_caches_write_back_on_eviction() {
    let mut st = store(512);
    let mut fs = mount_with(&mut st, 1, 2);
    let mut inos = Vec::new();
    for i in 0..6u8 {
        let f = create(&mut fs, &mut st, ROOT_INO, &format!("f{}", i)).unwrap();
        write(&mut fs, &mut st, f.ino, 0, &vec![i; 700]).unwrap();
        inos.push(f.ino);
    }
    for (i, ino) in inos.iter().enumerate() {
        assert_eq!(read(&mut fs, &mut st, *ino, 0, 700).unwrap(), vec![i as u8; 700]);
    }
    unmount(&mut fs, &mut st);
    let mut fs2 = mount(&mut st);
    for (i, ino) in inos.iter().enumerate() {
        assert_eq!(read(&mut fs2, &mut st, *ino, 0, 700).unwrap(), vec![i as u8; 700]);
    }
}

#[test]
fn setattr_grows_blocks_to_cover_size() {
    let mut st = store(512);
    let mut fs = mount(&mut st);
    let f = create(&mut fs, &mut st, ROOT_INO, "f").unwrap();
    let a = run(&mut fs, &mut st, |fs| fs.setattr(f.ino, changes(None, Some(2000)))).unwrap();
    assert_eq!(a.size, 2000);
    assert_eq!(a.blocks, 4);
    assert_eq!(read(&mut fs, &mut st, f.ino, 1990, 100).unwrap().len(), 10);
    let b = run(&mut fs, &mut st, |fs| fs.setattr(f.ino, changes(None, Some(100)))).unwrap();
    assert_eq!(b.size, 100);
    assert_eq!(b.blocks, 4);
    assert_eq!(run(&mut fs, &mut st, |fs| fs.setattr(f.ino, changes(None, Some(CAPACITY as u64 * 512 + 1)))), Err(Errno::NoSpc));
    assert_eq!(getattr(&mut fs, &mut st, f.ino).unwrap().size, 100);
}

#[test]
fn rename_reports_missing_source_first() {
    let mut st = store(512);
    let mut fs = mount(&mut st);
    let f = create(&mut fs, &mut st, ROOT_INO, "f").unwrap();
    assert_eq!(run(&mut fs, &mut st, |fs| fs.rename(ROOT_INO, b"nothing", f.ino, b"x")), Err(Errno::NoEnt));
    assert_eq!(run(&mut fs, &mut st, |fs| fs.rename(ROOT_INO, b"f", f.ino, b"x")), Err(Errno::NotDir));
    assert_eq!(lookup(&mut fs, &mut st, ROOT_INO, "f").unwrap().ino, f.ino);
}

#[test]
fn remove_dirent_returns_the_entry() {
    let mut st = store(512);
    let mut fs = mount(&mut st);
    let d = mkdir(&mut fs, &mut st, ROOT_INO, "d").unwrap();
    let e = run(&mut fs, &mut st, |fs| fs.remove_dirent(ROOT_INO, b"d")).unwrap();
    assert_eq!(e.ino, d.ino);
    assert_eq!(e.kind, FileType::Directory);
    assert_eq!(run(&mut fs, &mut st, |fs| fs.remove_dirent(ROOT_INO, b"d")), Err(Errno::NoEnt));
}

#[test]
fn mount_rejects_a_bad_record() {
    let mut st = store(512);
    let mut fs = mount(&mut st);
    unmount(&mut fs, &mut st);
    let mut bad = st.kv[&ROOT_INO].clone();
    bad.ino = 9;
    st.kv.insert(10, bad);
    let mut fs2 = CyanFS::new(512, 8, 8);
    let recs: Vec<(u64, Attrs)> = st.kv.iter().map(|(k, a)| (*k, a.clone())).collect();
    assert_eq!(run(&mut fs2, &mut st, |fs| fs.init(0, 0, NOW, &recs)), Err(Errno::Io));
}

#[test]
fn directory_changes_are_written_through() {
    let mut st = store(512);
    let mut fs = mount(&mut st);
    let d = mkdir(&mut fs, &mut st, ROOT_INO, "d").unwrap();
    assert_eq!(fs.sync_action(d.ino), SyncAction::Store);
    assert!(st.kv.contains_key(&d.ino));
    assert!(st.kv[&ROOT_INO].entries.iter().any(|e| e.name == b"d".to_vec()));
    assert_eq!(fs.sync_action(4242), SyncAction::Skip);
}

#[test]
fn operations_succeed_without_fetching_when_all_is_cached() {
    let mut st = store(512);
    let mut fs = mount(&mut st);
    let f = create(&mut fs, &mut st, ROOT_INO, "f").unwrap();
    write(&mut fs, &mut st, f.ino, 0, &vec![4u8; 1000]).unwrap();
    assert_eq!(fs.read(f.ino, 100, 800).unwrap(), vec![4u8; 800]);
    assert_eq!(fs.write(f.ino, 700, &[1, 2, 3]), Ok(3));
    assert_eq!(fs.lookup(ROOT_INO, b"f").unwrap().ino, f.ino);
    assert_eq!(fs.link(f.ino, ROOT_INO, b"g").unwrap().nlink, 2);
    assert_eq!(fs.unlink(ROOT_INO, b"g"), Ok(()));
    assert_eq!(fs.rename(ROOT_INO, b"f", ROOT_INO, b"h"), Ok(()));
    assert!(fs.create(ROOT_INO, b"n", 0o644, 0, 0, 0, NOW).is_ok());
}

#[test]
fn setattr_sets_owner_times_and_flags() {
    let mut st = store(512);
    let mut fs = mount(&mut st);
    let f = create(&mut fs, &mut st, ROOT_INO, "f").unwrap();
    let ch = AttrChanges { mode: None, uid: Some(7), gid: Some(8), size: None, atime: Some(11), mtime: Some(12), ctime: Some(13), crtime: None, flags: Some(2) };
    let a = run(&mut fs, &mut st, |fs| fs.setattr(f.ino, ch)).unwrap();
    assert_eq!((a.uid, a.gid, a.atime, a.mtime, a.ctime, a.crtime, a.flags), (7, 8, 11, 12, 13, NOW, 2));
    assert_eq!(a.perm, 0o644);
}

#[test]
fn read_serves_blocks_waiting_in_the_outbox() {
    let mut st = store(512);
    let mut fs = mount_with(&mut st, 1, 2);
    let f = create(&mut fs, &mut st, ROOT_INO, "f").unwrap();
    // two blocks through a one-block cache: the first is evicted to the outbox
    assert_eq!(fs.write(f.ino, 0, &vec![5u8; 1024]), Ok(1024));
    assert_eq!(fs.read(f.ino, 0, 1024).unwrap(), vec![5u8; 1024]);
}
