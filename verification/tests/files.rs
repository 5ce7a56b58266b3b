use easy_fs::block_dev::{BlockDevice, RamDisk};
use easy_fs::disk_inode::DiskInodeType;
use easy_fs::efs::EasyFileSystem;
use easy_fs::vfs::{FsError, Inode, NodeAttr, NodeType, NODE_PERM};

fn fresh(blocks: u32, journaling: bool) -> EasyFileSystem<RamDisk> {
    EasyFileSystem::create(RamDisk::new(blocks as usize), blocks, 1, journaling)
        .expect("the disk is large enough")
}

fn file(fs: &mut EasyFileSystem<RamDisk>, name: &str) -> Inode {
    let root = Inode::root(fs);
    assert_eq!(root.create(fs, name, NodeType::File), Ok(()));
    root.lookup(fs, name).expect("the file was just created")
}

fn read_all(fs: &mut EasyFileSystem<RamDisk>, inode: &Inode, offset: u64, len: usize) -> Vec<u8> {
    let mut buf = vec![0xaau8; len];
    let n = inode.read_at(fs, offset, &mut buf).expect("a file can be read");
    buf.truncate(n);
    buf
}

fn pattern(len: usize, seed: u8) -> Vec<u8> {
    (0..len).map(|i| (i as u8).wrapping_mul(31).wrapping_add(seed)).collect()
}

#[test]
fn create_write_read_unlink() {
    let mut fs = fresh(4096, false);
    let root = Inode::root(&fs);
    assert_eq!(root.get_attr(&mut fs).unwrap().size, 0);

    assert_eq!(root.create(&mut fs, "a.txt", NodeType::File), Ok(()));
    let attr = root.get_attr(&mut fs).unwrap();
    assert_eq!(attr.size, 32);
    let mut record = vec![0u8; 32];
    let mut listing = vec![easy_fs::vfs::DirEntryInfo { name: Vec::new(), ty: NodeType::Dir }];
    assert_eq!(root.read_dir(&mut fs, 0, &mut listing), Ok(1));
    assert_eq!(listing[0].name, b"a.txt".to_vec());
    // the record lies at offset 0 of the directory
    let root_rec = fs.load_inode(0);
    assert_eq!(root_rec.read_at(0, &mut record, &mut fs.cache), 32);
    assert_eq!(&record[..5], b"a.txt");
    assert!(record[5..28].iter().all(|b| *b == 0));

    let a = root.lookup(&mut fs, "a.txt").unwrap();
    let n = a.inode_id();
    assert_eq!(n, 1);
    assert_eq!(&record[28..], &n.to_le_bytes());
    assert_eq!(a.stat(&mut fs), (n, 1, DiskInodeType::File));
    assert_eq!(a.get_attr(&mut fs).unwrap().size, 0);

    let free_before = fs.count_free_data();
    assert_eq!(a.write_at(&mut fs, 0, b"hi"), Ok(2));
    assert_eq!(a.get_attr(&mut fs).unwrap().size, 2);
    let mut buf = vec![0u8; 2];
    assert_eq!(a.read_at(&mut fs, 0, &mut buf), Ok(2));
    assert_eq!(buf, b"hi".to_vec());
    assert_eq!(fs.count_free_data(), free_before - 1);

    assert_eq!(root.unlink(&mut fs, "a.txt"), Some(()));
    assert_eq!(root.get_attr(&mut fs).unwrap().size, 0);
    assert_eq!(a.stat(&mut fs), (n, 0, DiskInodeType::File));
    assert_eq!(a.get_attr(&mut fs).unwrap().size, 0);
    // the block of the file and the block of the directory are free again
    assert_eq!(fs.count_free_data(), free_before + 1);
    assert_eq!(root.lookup(&mut fs, "a.txt").err(), Some(FsError::NotFound));

    assert_eq!(root.create(&mut fs, "b.txt", NodeType::File), Ok(()));
    let b = root.lookup(&mut fs, "b.txt").unwrap();
    assert_eq!(b.stat(&mut fs).1, 1);
    assert_eq!(b.get_attr(&mut fs).unwrap().size, 0);
}

#[test]
fn attributes_of_root_and_file() {
    let mut fs = fresh(4096, false);
    let root = Inode::root(&fs);
    assert_eq!(
        root.get_attr(&mut fs),
        Ok(NodeAttr { perm: NODE_PERM, ty: NodeType::Dir, size: 0, blocks: 0 })
    );
    assert_eq!(NODE_PERM, 0o755);
    let f = file(&mut fs, "f");
    assert_eq!(f.write_at(&mut fs, 0, &pattern(1025, 1)), Ok(1025));
    assert_eq!(
        f.get_attr(&mut fs),
        Ok(NodeAttr { perm: 0o755, ty: NodeType::File, size: 1025, blocks: 3 })
    );
    assert_eq!(root.stat(&mut fs), (0, 1, DiskInodeType::Directory));
}

#[test]
fn write_then_read_gives_the_bytes_back() {
    let mut fs = fresh(4096, false);
    let f = file(&mut fs, "data");
    for (offset, len) in [(0u64, 1usize), (0, 512), (1, 511), (511, 2), (1000, 3000), (13, 0)] {
        let data = pattern(len, offset as u8);
        assert_eq!(f.write_at(&mut fs, offset, &data), Ok(len));
        assert_eq!(read_all(&mut fs, &f, offset, len), data);
    }
}

#[test]
fn write_through_both_levels_of_index_blocks() {
    let mut fs = fresh(4096, false);
    let f = file(&mut fs, "big");
    let free0 = fs.count_free_data();
    // 27 direct blocks, 128 through the single index, the rest through the
    // double index: 300 data blocks and 1 + 1 + 2 index blocks
    let len = 300 * 512;
    let data = pattern(len, 7);
    assert_eq!(f.write_at(&mut fs, 0, &data), Ok(len));
    assert_eq!(fs.count_free_data(), free0 - 304);
    assert_eq!(f.get_attr(&mut fs).unwrap().blocks, 300);
    assert_eq!(read_all(&mut fs, &f, 0, len), data);
    // spot reads across the boundaries of the three ranges
    assert_eq!(read_all(&mut fs, &f, 27 * 512 - 3, 6), data[27 * 512 - 3..27 * 512 + 3].to_vec());
    assert_eq!(read_all(&mut fs, &f, 155 * 512 - 3, 6), data[155 * 512 - 3..155 * 512 + 3].to_vec());
    assert_eq!(read_all(&mut fs, &f, 283 * 512 - 3, 6), data[283 * 512 - 3..283 * 512 + 3].to_vec());
    // overwrite in the middle
    let patch = pattern(2000, 99);
    assert_eq!(f.write_at(&mut fs, 100_000, &patch), Ok(2000));
    let mut expected = data.clone();
    expected[100_000..102_000].copy_from_slice(&patch);
    assert_eq!(read_all(&mut fs, &f, 0, len), expected);
    assert_eq!(fs.count_free_data(), free0 - 304);
    // everything comes back when the file is cleared
    f.clear(&mut fs);
    assert_eq!(f.get_attr(&mut fs).unwrap().size, 0);
    assert_eq!(fs.count_free_data(), free0);
}

#[test]
fn a_gap_reads_as_zero() {
    let mut fs = fresh(4096, false);
    let f = file(&mut fs, "sparse");
    assert_eq!(f.write_at(&mut fs, 0, b"abc"), Ok(3));
    assert_eq!(f.write_at(&mut fs, 2000, b"xyz"), Ok(3));
    assert_eq!(f.get_attr(&mut fs).unwrap().size, 2003);
    let all = read_all(&mut fs, &f, 0, 4000);
    assert_eq!(all.len(), 2003);
    assert_eq!(&all[..3], b"abc");
    assert!(all[3..2000].iter().all(|b| *b == 0));
    assert_eq!(&all[2000..], b"xyz");
}

#[test]
fn bytes_cut_off_do_not_come_back() {
    let mut fs = fresh(4096, false);
    let f = file(&mut fs, "t");
    assert_eq!(f.write_at(&mut fs, 0, &vec![0xffu8; 3000]), Ok(3000));
    assert_eq!(f.truncate(&mut fs, 10), Ok(()));
    assert_eq!(f.get_attr(&mut fs).unwrap().size, 10);
    assert_eq!(f.truncate(&mut fs, 2000), Ok(()));
    let all = read_all(&mut fs, &f, 0, 2000);
    assert_eq!(&all[..10], &[0xffu8; 10]);
    assert!(all[10..].iter().all(|b| *b == 0));
    // the same through a write beyond the end
    assert_eq!(f.truncate(&mut fs, 5), Ok(()));
    assert_eq!(f.write_at(&mut fs, 600, b"!"), Ok(1));
    let all = read_all(&mut fs, &f, 0, 601);
    assert_eq!(&all[..5], &[0xffu8; 5]);
    assert!(all[5..600].iter().all(|b| *b == 0));
    assert_eq!(all[600], b'!');
}

#[test]
fn truncate_grows_and_shrinks_and_releases_blocks() {
    let mut fs = fresh(4096, false);
    let f = file(&mut fs, "t");
    let free0 = fs.count_free_data();
    assert_eq!(f.truncate(&mut fs, 28 * 512), Ok(()));
    // 28 data blocks and the single index block
    assert_eq!(fs.count_free_data(), free0 - 29);
    assert_eq!(f.truncate(&mut fs, 28 * 512), Ok(()));
    assert_eq!(fs.count_free_data(), free0 - 29);
    assert_eq!(f.truncate(&mut fs, 27 * 512), Ok(()));
    assert_eq!(fs.count_free_data(), free0 - 27);
    assert_eq!(f.truncate(&mut fs, 1), Ok(()));
    assert_eq!(fs.count_free_data(), free0 - 1);
    assert_eq!(f.truncate(&mut fs, 0), Ok(()));
    assert_eq!(fs.count_free_data(), free0);
    assert_eq!(f.get_attr(&mut fs).unwrap().blocks, 0);
}

#[test]
fn reads_are_cut_at_the_end_of_the_file() {
    let mut fs = fresh(4096, false);
    let f = file(&mut fs, "r");
    assert_eq!(f.write_at(&mut fs, 0, b"0123456789"), Ok(10));
    let mut buf = vec![b'.'; 8];
    assert_eq!(f.read_at(&mut fs, 6, &mut buf), Ok(4));
    assert_eq!(buf, b"6789....".to_vec());
    assert_eq!(f.read_at(&mut fs, 10, &mut buf), Ok(0));
    assert_eq!(f.read_at(&mut fs, 11, &mut buf), Ok(0));
    assert_eq!(f.read_at(&mut fs, u64::MAX, &mut buf), Ok(0));
    assert_eq!(buf, b"6789....".to_vec());
    let mut none: Vec<u8> = Vec::new();
    assert_eq!(f.read_at(&mut fs, 0, &mut none), Ok(0));
}

#[test]
fn files_do_not_disturb_one_another() {
    let mut fs = fresh(4096, false);
    let a = file(&mut fs, "a");
    let b = file(&mut fs, "b");
    let da = pattern(20_000, 1);
    let db = pattern(30_000, 2);
    assert_eq!(a.write_at(&mut fs, 0, &da[..10_000]), Ok(10_000));
    assert_eq!(b.write_at(&mut fs, 0, &db[..15_000]), Ok(15_000));
    assert_eq!(a.write_at(&mut fs, 10_000, &da[10_000..]), Ok(10_000));
    assert_eq!(b.write_at(&mut fs, 15_000, &db[15_000..]), Ok(15_000));
    assert_eq!(read_all(&mut fs, &a, 0, 20_000), da);
    assert_eq!(read_all(&mut fs, &b, 0, 30_000), db);
    assert_eq!(a.truncate(&mut fs, 100), Ok(()));
    assert_eq!(read_all(&mut fs, &b, 0, 30_000), db);
    let c = file(&mut fs, "c");
    assert_eq!(c.write_at(&mut fs, 0, &pattern(25_000, 3)), Ok(25_000));
    assert_eq!(read_all(&mut fs, &b, 0, 30_000), db);
    assert_eq!(read_all(&mut fs, &a, 0, 200), da[..100].to_vec());
}

#[test]
fn operations_for_files_fail_on_the_directory() {
    let mut fs = fresh(4096, false);
    let root = Inode::root(&fs);
    let mut buf = vec![0u8; 4];
    assert_eq!(root.read_at(&mut fs, 0, &mut buf), Err(FsError::IsADirectory));
    assert_eq!(root.write_at(&mut fs, 0, b"x"), Err(FsError::IsADirectory));
    assert_eq!(root.truncate(&mut fs, 64), Err(FsError::IsADirectory));
    root.clear(&mut fs);
    assert_eq!(root.get_attr(&mut fs).unwrap().size, 0);
}

#[test]
fn a_file_cannot_grow_beyond_the_largest_size() {
    let mut fs = fresh(4096, false);
    let f = file(&mut fs, "f");
    let max = easy_fs::layout::MAX_FILE_SIZE as u64;
    assert_eq!(max, 16539 * 512);
    assert_eq!(f.write_at(&mut fs, max, b"x"), Err(FsError::InvalidInput));
    assert_eq!(f.write_at(&mut fs, u64::MAX, b"x"), Err(FsError::InvalidInput));
    assert_eq!(f.truncate(&mut fs, max + 1), Err(FsError::InvalidInput));
    assert_eq!(f.get_attr(&mut fs).unwrap().size, 0);
}

#[test]
fn a_full_disk_is_reported_and_nothing_changes() {
    // 1 superblock, 1 + 1 bitmap blocks, 1024 inode blocks, 5 data blocks
    let mut fs = fresh(1032, false);
    assert_eq!(fs.layout.data_area_blocks, 5);
    let f = file(&mut fs, "f");
    assert_eq!(fs.count_free_data(), 4);
    assert_eq!(f.write_at(&mut fs, 0, &vec![1u8; 5 * 512]), Err(FsError::StorageFull));
    assert_eq!(f.get_attr(&mut fs).unwrap().size, 0);
    assert_eq!(fs.count_free_data(), 4);
    assert_eq!(f.truncate(&mut fs, 4 * 512 + 1), Err(FsError::StorageFull));
    assert_eq!(f.write_at(&mut fs, 0, &vec![1u8; 4 * 512]), Ok(2048));
    assert_eq!(fs.count_free_data(), 0);
    assert_eq!(f.write_at(&mut fs, 2048, b"x"), Err(FsError::StorageFull));
    assert_eq!(f.write_at(&mut fs, 2047, b"x"), Ok(1));
    assert_eq!(fs.alloc_data(), None);
    assert_eq!(f.truncate(&mut fs, 512), Ok(()));
    assert_eq!(fs.count_free_data(), 3);
}

#[test]
fn the_filesystem_survives_closing_and_opening() {
    let mut fs = fresh(4096, true);
    let f = file(&mut fs, "kept");
    let data = pattern(90_000, 5);
    assert_eq!(f.write_at(&mut fs, 0, &data), Ok(90_000));
    let device = fs.close();
    let mut fs = EasyFileSystem::open(device, false).expect("the superblock is valid");
    let root = Inode::root(&fs);
    let f = root.lookup(&mut fs, "kept").unwrap();
    assert_eq!(read_all(&mut fs, &f, 0, 90_000), data);
    assert_eq!(f.stat(&mut fs).1, 1);
}

#[test]
fn open_refuses_what_is_no_filesystem() {
    assert!(EasyFileSystem::open(RamDisk::new(0), false).is_none());
    assert!(EasyFileSystem::open(RamDisk::new(4096), false).is_none());
    let fs = fresh(4096, false);
    let mut device = fs.close();
    let mut block0 = device.read_block(0);
    assert_eq!(&block0[..4], &0x3b800001u32.to_le_bytes());
    block0[4] ^= 1;
    device.write_block(0, &block0);
    assert!(EasyFileSystem::open(device, false).is_none());
}

#[test]
fn with_journaling_every_operation_ends_durable() {
    let mut fs = fresh(4096, true);
    let root = Inode::root(&fs);
    assert_eq!(root.create(&mut fs, "j", NodeType::File), Ok(()));
    let f = root.lookup(&mut fs, "j").unwrap();
    assert_eq!(f.write_at(&mut fs, 0, &pattern(5000, 9)), Ok(5000));
    assert_eq!(fs.journal.current_state(), easy_fs::journal::TxState::Idle);
    // what the device holds is what the cache shows, block by block
    let total = fs.cache.num_blocks();
    let mut seen: Vec<Vec<u8>> = Vec::new();
    for b in 0..total {
        let mut buf = vec![0u8; 512];
        fs.cache.read_range(b, 0, &mut buf, 0, 512);
        seen.push(buf);
    }
    let device = fs.close();
    for b in 0..total {
        assert_eq!(device.read_block(b), seen[b]);
    }
}

#[test]
fn the_transaction_holds_the_blocks_of_the_records_rewritten() {
    let mut fs = fresh(4096, true);
    let root = Inode::root(&fs);
    assert_eq!(root.create(&mut fs, "a", NodeType::File), Ok(()));
    // inodes 0 to 3 share the first block of the inode region, which is block 3
    assert!(fs.journal.was_committed(3));
    assert!(!fs.journal.was_committed(4));
    for name in ["b", "c", "d"] {
        assert_eq!(root.create(&mut fs, name, NodeType::File), Ok(()));
    }
    // inode 4 lies in block 4, the root in block 3
    assert!(fs.journal.was_committed(3));
    assert!(fs.journal.was_committed(4));
    let d = root.lookup(&mut fs, "d").unwrap();
    assert_eq!(d.inode_id(), 4);
    assert_eq!(d.write_at(&mut fs, 0, b"x"), Ok(1));
    assert!(fs.journal.was_committed(4));
    assert!(!fs.journal.was_committed(3));
    assert_eq!(root.link(&mut fs, "e", "d"), Some(()));
    assert!(fs.journal.was_committed(3));
    assert!(fs.journal.was_committed(4));
    assert_eq!(root.unlink(&mut fs, "e"), Some(()));
    assert!(fs.journal.was_committed(4));
    assert!(!fs.journal.was_committed(3));
    // without journaling nothing is kept
    let mut plain = fresh(4096, false);
    let root = Inode::root(&plain);
    assert_eq!(root.create(&mut plain, "a", NodeType::File), Ok(()));
    assert!(!plain.journal.was_committed(3));
}

#[test]
fn a_resize_moves_the_bitmap_with_the_chain() {
    let mut fs = fresh(4096, false);
    let a = file(&mut fs, "a");
    let b = file(&mut fs, "b");
    assert_eq!(a.write_at(&mut fs, 0, &vec![1u8; 3 * 512]), Ok(1536));
    assert_eq!(b.write_at(&mut fs, 0, &vec![2u8; 512]), Ok(512));
    let start = fs.layout.data_area_blocks;
    let first = 1 + 1 + 1 + 1024;
    assert_eq!(start, 4096 - first);
    let used = |fs: &mut EasyFileSystem<RamDisk>| -> Vec<usize> {
        (0..16).filter(|i| fs.data_bitmap.is_set(&mut fs.cache, *i)).collect()
    };
    // block 0 is the directory's, 1 to 3 are a's, 4 is b's
    assert_eq!(used(&mut fs), vec![0, 1, 2, 3, 4]);
    let rec = fs.load_inode(a.inode_id());
    let chain: Vec<u32> = (0..3).map(|k| rec.get_block_id(&mut fs.cache, k)).collect();
    assert_eq!(chain, vec![first + 1, first + 2, first + 3]);
    // to the size that it has: nothing moves
    assert_eq!(a.truncate(&mut fs, 1536), Ok(()));
    assert_eq!(used(&mut fs), vec![0, 1, 2, 3, 4]);
    // a write within the file: nothing moves
    assert_eq!(a.write_at(&mut fs, 100, b"zz"), Ok(2));
    assert_eq!(used(&mut fs), vec![0, 1, 2, 3, 4]);
    // smaller: the blocks beyond go, the others stay
    assert_eq!(a.truncate(&mut fs, 600), Ok(()));
    assert_eq!(used(&mut fs), vec![0, 1, 2, 4]);
    let rec = fs.load_inode(a.inode_id());
    assert_eq!(rec.get_block_id(&mut fs.cache, 0), first + 1);
    assert_eq!(rec.get_block_id(&mut fs.cache, 1), first + 2);
    assert_eq!(rec.direct[2], 0);
    // larger: the lowest free block comes in
    assert_eq!(a.truncate(&mut fs, 1536), Ok(()));
    assert_eq!(used(&mut fs), vec![0, 1, 2, 3, 4]);
    // the last unlink frees the blocks of the file and no others
    let root = Inode::root(&fs);
    assert_eq!(root.unlink(&mut fs, "a"), Some(()));
    assert_eq!(used(&mut fs), vec![0, 4]);
}
