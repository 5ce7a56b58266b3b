use easy_fs::block_dev::RamDisk;
use easy_fs::disk_inode::DiskInodeType;
use easy_fs::efs::EasyFileSystem;
use easy_fs::vfs::{DirEntryInfo, FsError, Inode, NodeType};

fn fresh(blocks: u32) -> EasyFileSystem<RamDisk> {
    EasyFileSystem::create(RamDisk::new(blocks as usize), blocks, 1, false)
        .expect("the disk is large enough")
}

fn names(fs: &mut EasyFileSystem<RamDisk>) -> Vec<String> {
    let root = Inode::root(fs);
    let mut listing: Vec<DirEntryInfo> =
        (0..64).map(|_| DirEntryInfo { name: Vec::new(), ty: NodeType::Dir }).collect();
    let n = root.read_dir(fs, 0, &mut listing).unwrap();
    listing[..n]
        .iter()
        .map(|e| {
            assert_eq!(e.ty, NodeType::File);
            String::from_utf8(e.name.clone()).unwrap()
        })
        .collect()
}

#[test]
fn a_name_is_created_once() {
    let mut fs = fresh(4096);
    let root = Inode::root(&fs);
    assert_eq!(root.create(&mut fs, "a", NodeType::File), Ok(()));
    assert_eq!(root.create(&mut fs, "a", NodeType::File), Err(FsError::AlreadyExists));
    assert_eq!(names(&mut fs), vec!["a"]);
    assert_eq!(root.unlink(&mut fs, "a"), Some(()));
    assert_eq!(root.create(&mut fs, "a", NodeType::File), Ok(()));
    assert_eq!(names(&mut fs), vec!["a"]);
}

#[test]
fn create_refuses_what_it_does_not_support() {
    let mut fs = fresh(4096);
    let root = Inode::root(&fs);
    assert_eq!(root.create(&mut fs, "d", NodeType::Dir), Err(FsError::Unsupported));
    assert_eq!(root.create(&mut fs, "a/b", NodeType::File), Err(FsError::Unsupported));
    assert_eq!(root.create(&mut fs, "", NodeType::File), Err(FsError::AlreadyExists));
    assert_eq!(root.create(&mut fs, "  \t", NodeType::File), Err(FsError::AlreadyExists));
    assert_eq!(
        root.create(&mut fs, "a-name-of-twenty-eight-bytes", NodeType::File),
        Err(FsError::InvalidInput)
    );
    assert_eq!(root.create(&mut fs, "a-name-of-twenty-seven-byte", NodeType::File), Ok(()));
    assert_eq!(root.create(&mut fs, "socket", NodeType::Socket), Ok(()));
    let s = root.lookup(&mut fs, "socket").unwrap();
    assert_eq!(s.stat(&mut fs).2, DiskInodeType::File);
    assert_eq!(s.create(&mut fs, "x", NodeType::File), Err(FsError::NotADirectory));
    assert_eq!(names(&mut fs), vec!["a-name-of-twenty-seven-byte", "socket"]);
}

#[test]
fn create_takes_the_lowest_free_inode() {
    let mut fs = fresh(4096);
    let root = Inode::root(&fs);
    for (i, name) in ["a", "b", "c"].iter().enumerate() {
        assert_eq!(root.create(&mut fs, name, NodeType::File), Ok(()));
        assert_eq!(root.lookup(&mut fs, name).unwrap().inode_id(), i as u32 + 1);
    }
    assert_eq!(fs.alloc_inode(), Some(4));
}

#[test]
fn lookup_resolves_one_segment() {
    let mut fs = fresh(4096);
    let root = Inode::root(&fs);
    assert_eq!(root.create(&mut fs, "f", NodeType::File), Ok(()));
    assert_eq!(root.lookup(&mut fs, "").unwrap().inode_id(), 0);
    assert_eq!(root.lookup(&mut fs, "   ").unwrap().inode_id(), 0);
    assert_eq!(root.lookup(&mut fs, "f").unwrap().inode_id(), 1);
    assert_eq!(root.lookup(&mut fs, "/f").unwrap().inode_id(), 1);
    assert_eq!(root.lookup(&mut fs, "./f/").unwrap().inode_id(), 1);
    assert_eq!(root.lookup(&mut fs, "x/../f").unwrap().inode_id(), 1);
    assert_eq!(root.lookup(&mut fs, "g").err(), Some(FsError::NotFound));
    assert_eq!(root.lookup(&mut fs, "f/g").err(), Some(FsError::Unsupported));
    assert_eq!(root.lookup(&mut fs, "/").err(), Some(FsError::NotFound));
    let f = root.lookup(&mut fs, "f").unwrap();
    assert_eq!(f.lookup(&mut fs, "").err(), Some(FsError::NotADirectory));
    assert_eq!(f.lookup(&mut fs, "f").err(), Some(FsError::NotADirectory));
    assert!(root.find(&mut fs, "f").is_some());
    assert!(root.find(&mut fs, "nope").is_none());
}

#[test]
fn unlink_keeps_the_order_of_the_others() {
    let mut fs = fresh(4096);
    let root = Inode::root(&fs);
    for name in ["a", "b", "c", "d", "e"] {
        assert_eq!(root.create(&mut fs, name, NodeType::File), Ok(()));
    }
    assert_eq!(root.unlink(&mut fs, "b"), Some(()));
    assert_eq!(names(&mut fs), vec!["a", "c", "d", "e"]);
    assert_eq!(root.unlink(&mut fs, "a"), Some(()));
    assert_eq!(names(&mut fs), vec!["c", "d", "e"]);
    assert_eq!(root.unlink(&mut fs, "e"), Some(()));
    assert_eq!(names(&mut fs), vec!["c", "d"]);
    assert_eq!(root.unlink(&mut fs, "e"), None);
    assert_eq!(root.get_attr(&mut fs).unwrap().size, 64);
    assert_eq!(root.lookup(&mut fs, "d").unwrap().inode_id(), 4);
}

#[test]
fn a_directory_of_many_entries_spans_blocks() {
    let mut fs = fresh(4096);
    let root = Inode::root(&fs);
    let free0 = fs.count_free_data();
    for i in 0..40 {
        assert_eq!(root.create(&mut fs, &format!("file-{i}"), NodeType::File), Ok(()));
    }
    // 40 records of 32 bytes take three blocks
    assert_eq!(root.get_attr(&mut fs).unwrap().size, 40 * 32);
    assert_eq!(fs.count_free_data(), free0 - 3);
    for i in (0..40).step_by(2) {
        assert_eq!(root.unlink(&mut fs, &format!("file-{i}")), Some(()));
    }
    let expected: Vec<String> = (0..40).filter(|i| i % 2 == 1).map(|i| format!("file-{i}")).collect();
    assert_eq!(names(&mut fs), expected);
    assert_eq!(fs.count_free_data(), free0 - 2);
    assert_eq!(root.lookup(&mut fs, "file-39").unwrap().inode_id(), 40);
}

#[test]
fn read_dir_reports_from_a_position() {
    let mut fs = fresh(4096);
    let root = Inode::root(&fs);
    for name in ["a", "b", "c", "d", "e"] {
        assert_eq!(root.create(&mut fs, name, NodeType::File), Ok(()));
    }
    let blank = || DirEntryInfo { name: b"?".to_vec(), ty: NodeType::Dir };
    let mut two = vec![blank(), blank()];
    assert_eq!(root.read_dir(&mut fs, 1, &mut two), Ok(2));
    assert_eq!(two[0].name, b"b".to_vec());
    assert_eq!(two[1].name, b"c".to_vec());
    let mut four = vec![blank(), blank(), blank(), blank()];
    assert_eq!(root.read_dir(&mut fs, 3, &mut four), Ok(2));
    assert_eq!(four[0].name, b"d".to_vec());
    assert_eq!(four[1].name, b"e".to_vec());
    assert_eq!(four[2].name, b"?".to_vec());
    assert_eq!(four[2].ty, NodeType::Dir);
    assert_eq!(root.read_dir(&mut fs, 5, &mut four), Ok(0));
    assert_eq!(root.read_dir(&mut fs, 9, &mut four), Ok(0));
    let mut none: Vec<DirEntryInfo> = Vec::new();
    assert_eq!(root.read_dir(&mut fs, 0, &mut none), Ok(0));
    let a = root.lookup(&mut fs, "a").unwrap();
    assert_eq!(a.read_dir(&mut fs, 0, &mut four), Err(FsError::NotADirectory));
}

#[test]
fn a_link_shares_the_file() {
    let mut fs = fresh(4096);
    let root = Inode::root(&fs);
    assert_eq!(root.create(&mut fs, "a", NodeType::File), Ok(()));
    let a = root.lookup(&mut fs, "a").unwrap();
    assert_eq!(a.write_at(&mut fs, 0, b"shared bytes"), Ok(12));
    let free = fs.count_free_data();

    assert_eq!(root.link(&mut fs, "b", "a"), Some(()));
    let b = root.lookup(&mut fs, "b").unwrap();
    assert_eq!(b.inode_id(), a.inode_id());
    assert_eq!(a.stat(&mut fs).1, 2);
    assert_eq!(names(&mut fs), vec!["a", "b"]);

    assert_eq!(root.unlink(&mut fs, "b"), Some(()));
    assert_eq!(a.stat(&mut fs).1, 1);
    let again = root.lookup(&mut fs, "a").unwrap();
    let mut buf = vec![0u8; 12];
    assert_eq!(again.read_at(&mut fs, 0, &mut buf), Ok(12));
    assert_eq!(buf, b"shared bytes".to_vec());
    assert_eq!(fs.count_free_data(), free);

    assert_eq!(root.unlink(&mut fs, "a"), Some(()));
    assert_eq!(a.stat(&mut fs).1, 0);
    assert_eq!(a.get_attr(&mut fs).unwrap().size, 0);
    // the block of the file and the block of the directory are free
    assert_eq!(fs.count_free_data(), free + 2);
    let block = fs.alloc_data();
    assert!(block.is_some());
}

#[test]
fn unlinking_the_first_name_keeps_the_file_under_the_second() {
    let mut fs = fresh(4096);
    let root = Inode::root(&fs);
    assert_eq!(root.create(&mut fs, "a", NodeType::File), Ok(()));
    let a = root.lookup(&mut fs, "a").unwrap();
    assert_eq!(a.write_at(&mut fs, 0, b"still here"), Ok(10));
    assert_eq!(root.link(&mut fs, "b", "a"), Some(()));
    assert_eq!(root.unlink(&mut fs, "a"), Some(()));
    assert_eq!(names(&mut fs), vec!["b"]);
    let b = root.lookup(&mut fs, "b").unwrap();
    let mut buf = vec![0u8; 10];
    assert_eq!(b.read_at(&mut fs, 0, &mut buf), Ok(10));
    assert_eq!(buf, b"still here".to_vec());
    assert_eq!(b.stat(&mut fs).1, 1);
}

#[test]
fn link_does_nothing_where_it_cannot_be_made() {
    let mut fs = fresh(4096);
    let root = Inode::root(&fs);
    assert_eq!(root.create(&mut fs, "a", NodeType::File), Ok(()));
    assert_eq!(root.create(&mut fs, "b", NodeType::File), Ok(()));
    assert_eq!(root.link(&mut fs, "c", "missing"), None);
    assert_eq!(root.link(&mut fs, "b", "a"), None);
    assert_eq!(root.link(&mut fs, "a", "a"), None);
    assert_eq!(root.link(&mut fs, "a-name-of-twenty-eight-bytes", "a"), None);
    let a = root.lookup(&mut fs, "a").unwrap();
    assert_eq!(a.link(&mut fs, "c", "a"), None);
    assert_eq!(a.unlink(&mut fs, "a"), None);
    assert_eq!(names(&mut fs), vec!["a", "b"]);
    assert_eq!(a.stat(&mut fs).1, 1);
}

#[test]
fn remove_takes_one_segment() {
    let mut fs = fresh(4096);
    let root = Inode::root(&fs);
    assert_eq!(root.create(&mut fs, "a", NodeType::File), Ok(()));
    assert_eq!(root.remove(&mut fs, "a/b", false), Err(FsError::Unsupported));
    assert_eq!(root.remove(&mut fs, "", true), Err(FsError::Unsupported));
    assert_eq!(root.remove(&mut fs, "missing", false), Ok(()));
    assert_eq!(names(&mut fs), vec!["a"]);
    assert_eq!(root.remove(&mut fs, "/a", false), Ok(()));
    assert!(names(&mut fs).is_empty());
}

#[test]
fn no_inode_left_is_reported() {
    // the inode bitmap has 4096 bits: the root and 4095 files
    let mut fs = fresh(8192);
    assert_eq!(fs.layout.inode_area_blocks, 1024);
    for _ in 0..4095 {
        assert!(fs.alloc_inode().is_some());
    }
    assert_eq!(fs.alloc_inode(), None);
    let root = Inode::root(&fs);
    assert_eq!(root.create(&mut fs, "late", NodeType::File), Err(FsError::StorageFull));
    assert_eq!(root.get_attr(&mut fs).unwrap().size, 0);
}

#[test]
fn no_block_left_for_the_directory_is_reported() {
    let mut fs = fresh(1032);
    let root = Inode::root(&fs);
    assert_eq!(root.create(&mut fs, "f", NodeType::File), Ok(()));
    let f = root.lookup(&mut fs, "f").unwrap();
    assert_eq!(f.truncate(&mut fs, 4 * 512), Ok(()));
    // fifteen more records fit the block that the directory has
    for i in 0..15 {
        assert_eq!(root.create(&mut fs, &format!("n{i}"), NodeType::File), Ok(()));
    }
    assert_eq!(root.create(&mut fs, "one-more", NodeType::File), Err(FsError::StorageFull));
    assert_eq!(root.link(&mut fs, "one-more", "f"), None);
    assert_eq!(root.get_attr(&mut fs).unwrap().size, 512);
    assert_eq!(f.truncate(&mut fs, 0), Ok(()));
    assert_eq!(root.create(&mut fs, "one-more", NodeType::File), Ok(()));
}

#[test]
fn a_path_of_slashes_names_the_empty_name() {
    let mut fs = fresh(4096);
    let root = Inode::root(&fs);
    assert_eq!(root.lookup(&mut fs, "/").err(), Some(FsError::NotFound));
    assert_eq!(root.create(&mut fs, "/", NodeType::File), Ok(()));
    assert_eq!(root.create(&mut fs, "//", NodeType::File), Err(FsError::AlreadyExists));
    assert_eq!(root.lookup(&mut fs, "/").unwrap().inode_id(), 1);
    assert_eq!(names(&mut fs), vec![""]);
    assert_eq!(root.remove(&mut fs, "/", false), Ok(()));
    assert!(names(&mut fs).is_empty());
}

#[test]
fn a_handle_made_by_hand_names_the_same_inode() {
    let mut fs = fresh(4096);
    let root = Inode::root(&fs);
    assert_eq!(root.create(&mut fs, "f", NodeType::File), Ok(()));
    let found = root.lookup(&mut fs, "f").unwrap();
    let (block, offset) = fs.get_disk_inode_pos(1);
    assert_eq!((block, offset), (1 + 1 + 1, 128));
    let made = Inode::new(1, block, offset);
    assert_eq!(made.inode_id(), found.inode_id());
    assert_eq!(made.write_at(&mut fs, 0, b"xyz"), Ok(3));
    let mut buf = vec![0u8; 3];
    assert_eq!(found.read_at(&mut fs, 0, &mut buf), Ok(3));
    assert_eq!(buf, b"xyz".to_vec());
    assert_eq!(Inode::get_inode(&fs, 1).stat(&mut fs), (1, 1, DiskInodeType::File));
    let root_record = fs.load_inode(0);
    assert_eq!(root.find_inode_id(&mut fs, b"f", &root_record), Some(1));
    assert_eq!(root.find_inode_id(&mut fs, b"g", &root_record), None);
    assert_eq!(fs.get_disk_inode_pos(5), (4, 128));
}

#[test]
fn directory_operations_run_in_transactions() {
    let mut fs = EasyFileSystem::create(RamDisk::new(4096), 4096, 1, true).unwrap();
    let root = Inode::root(&fs);
    for name in ["a", "b", "c"] {
        assert_eq!(root.create(&mut fs, name, NodeType::File), Ok(()));
        assert_eq!(fs.journal.current_state(), easy_fs::journal::TxState::Idle);
    }
    let a = root.lookup(&mut fs, "a").unwrap();
    assert_eq!(a.write_at(&mut fs, 0, &[7u8; 700]), Ok(700));
    assert_eq!(root.link(&mut fs, "d", "a"), Some(()));
    assert_eq!(root.unlink(&mut fs, "a"), Some(()));
    assert_eq!(root.unlink(&mut fs, "b"), Some(()));
    assert_eq!(a.truncate(&mut fs, 10), Ok(()));
    assert_eq!(root.create(&mut fs, "c", NodeType::File), Err(FsError::AlreadyExists));
    assert_eq!(fs.journal.current_state(), easy_fs::journal::TxState::Idle);
    assert_eq!(names(&mut fs), vec!["c", "d"]);
    // everything is on the device: a filesystem opened on it shows the same
    let device = fs.close();
    let mut fs = EasyFileSystem::open(device, true).unwrap();
    assert_eq!(names(&mut fs), vec!["c", "d"]);
    let root = Inode::root(&fs);
    let d = root.lookup(&mut fs, "d").unwrap();
    assert_eq!(d.stat(&mut fs), (1, 1, DiskInodeType::File));
    let mut buf = vec![0u8; 20];
    assert_eq!(d.read_at(&mut fs, 0, &mut buf), Ok(10));
    assert_eq!(&buf[..10], &[7u8; 10]);
}
