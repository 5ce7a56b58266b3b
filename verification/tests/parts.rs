use easy_fs::bitmap::Bitmap;
use easy_fs::block_cache::{BlockCache, BLOCK_CACHE_SIZE};
use easy_fs::block_dev::{BlockDevice, RamDisk};
use easy_fs::dirent::{is_valid_name, DirEntry};
use easy_fs::disk_inode::{DiskInode, DiskInodeType};
use easy_fs::journal::{Journal, JournalError, TxState};
use easy_fs::path::{char_is_whitespace, path_components, split_components, str_is_blank};

#[test]
fn ram_disk_reads_back_what_was_written() {
    let mut disk = RamDisk::new(4);
    assert_eq!(disk.num_blocks(), 4);
    assert_eq!(disk.read_block(3), vec![0u8; 512]);
    let block: Vec<u8> = (0..512).map(|i| i as u8).collect();
    disk.write_block(2, &block);
    assert_eq!(disk.read_block(2), block);
    assert_eq!(disk.read_block(1), vec![0u8; 512]);
}

#[test]
fn the_cache_shows_one_content_and_writes_back() {
    let mut cache = BlockCache::new(RamDisk::new(64));
    assert_eq!(cache.num_blocks(), 64);
    // more blocks than the cache holds
    for b in 0..3 * BLOCK_CACHE_SIZE {
        cache.write_u32(b, 8, 0xdead_0000 + b as u32);
        cache.write_u8(b, 0, b as u8);
    }
    for b in 0..3 * BLOCK_CACHE_SIZE {
        assert_eq!(cache.read_u32(b, 8), 0xdead_0000 + b as u32);
        assert_eq!(cache.read_u8(b, 0), b as u8);
        assert_eq!(cache.read_u8(b, 9), 0);
    }
    cache.write_range(5, 510, &[1, 2, 3, 4], 1, 2);
    let mut buf = vec![9u8; 6];
    cache.read_range(5, 508, &mut buf, 1, 4);
    assert_eq!(buf, vec![9, 0, 0, 2, 3, 9]);
    cache.fill_zero(5, 511, 1);
    assert_eq!(cache.read_u8(5, 510), 2);
    assert_eq!(cache.read_u8(5, 511), 0);
    cache.flush_block(5);
    cache.sync_all();
    let device = cache.into_device();
    for b in 0..3 * BLOCK_CACHE_SIZE {
        let block = device.read_block(b);
        assert_eq!(block[0], b as u8);
        assert_eq!(&block[8..12], &(0xdead_0000u32 + b as u32).to_le_bytes());
    }
    assert_eq!(device.read_block(5)[510], 2);
}

#[test]
fn words_are_little_endian() {
    let mut cache = BlockCache::new(RamDisk::new(2));
    cache.write_u32(1, 4, 0x0403_0201);
    assert_eq!(cache.read_u8(1, 4), 1);
    assert_eq!(cache.read_u8(1, 5), 2);
    assert_eq!(cache.read_u8(1, 6), 3);
    assert_eq!(cache.read_u8(1, 7), 4);
    cache.write_u8(1, 7, 0xff);
    assert_eq!(cache.read_u32(1, 4), 0xff03_0201);
}

#[test]
fn the_bitmap_hands_out_the_lowest_free_bit() {
    let mut cache = BlockCache::new(RamDisk::new(8));
    let bitmap = Bitmap::new(2, 2, 5000);
    assert_eq!(bitmap.maximum(), 5000);
    assert_eq!(bitmap.count_free(&mut cache), 5000);
    for i in 0..20 {
        assert_eq!(bitmap.alloc_bit(&mut cache), Some(i));
    }
    assert!(bitmap.is_set(&mut cache, 19));
    assert!(!bitmap.is_set(&mut cache, 20));
    bitmap.dealloc_bit(&mut cache, 7);
    bitmap.dealloc_bit(&mut cache, 3);
    assert_eq!(bitmap.count_free(&mut cache), 4982);
    assert_eq!(bitmap.alloc_bit(&mut cache), Some(3));
    assert_eq!(bitmap.alloc_bit(&mut cache), Some(7));
    assert_eq!(bitmap.alloc_bit(&mut cache), Some(20));
    // bit 9 lies in byte 1 of the first block of the bitmap
    assert_eq!(cache.read_u8(2, 0), 0xff);
    assert_eq!(cache.read_u8(2, 1), 0xff);
    assert_eq!(cache.read_u8(2, 2), 0x1f);
    assert_eq!(cache.read_u8(3, 0), 0);
}

#[test]
fn the_bitmap_reports_exhaustion() {
    let mut cache = BlockCache::new(RamDisk::new(4));
    let bitmap = Bitmap::new(1, 2, 4100);
    let mut seen = std::collections::BTreeSet::new();
    for _ in 0..4100 {
        let bit = bitmap.alloc_bit(&mut cache).expect("a bit is free");
        assert!(seen.insert(bit));
    }
    assert_eq!(bitmap.alloc_bit(&mut cache), None);
    assert_eq!(bitmap.count_free(&mut cache), 0);
    assert!(bitmap.is_set(&mut cache, 4099));
    bitmap.dealloc_bit(&mut cache, 4097);
    assert_eq!(bitmap.alloc_bit(&mut cache), Some(4097));
    // the bits beyond the last one are not touched
    assert_eq!(cache.read_u8(2, 0), 0x0f);
}

#[test]
fn inode_records_encode_and_decode() {
    let mut inode = DiskInode::initialize(DiskInodeType::Directory);
    assert!(inode.is_dir());
    assert!(!inode.is_file());
    assert_eq!(inode.link_count, 1);
    inode.size = 0x0102_0304;
    inode.link_count = 7;
    inode.direct[0] = 11;
    inode.direct[26] = 0xffff_fffe;
    inode.indirect1 = 30;
    inode.indirect2 = 31;
    let bytes = inode.encode();
    assert_eq!(bytes.len(), 128);
    assert_eq!(&bytes[0..4], &[4, 3, 2, 1]);
    assert_eq!(&bytes[4..8], &[7, 0, 0, 0]);
    assert_eq!(&bytes[8..12], &[1, 0, 0, 0]);
    assert_eq!(&bytes[12..16], &[11, 0, 0, 0]);
    assert_eq!(&bytes[116..120], &[0xfe, 0xff, 0xff, 0xff]);
    assert_eq!(&bytes[120..124], &[30, 0, 0, 0]);
    assert_eq!(&bytes[124..128], &[31, 0, 0, 0]);
    let back = DiskInode::decode(&bytes);
    assert_eq!(back.size, inode.size);
    assert_eq!(back.link_count, 7);
    assert_eq!(back.direct, inode.direct);
    assert_eq!(back.indirect1, 30);
    assert_eq!(back.indirect2, 31);
    assert_eq!(back.type_(), DiskInodeType::Directory);

    let mut cache = BlockCache::new(RamDisk::new(4));
    inode.store(&mut cache, 1, 256);
    let file = DiskInode::initialize(DiskInodeType::File);
    file.store(&mut cache, 1, 384);
    let loaded = DiskInode::load(&mut cache, 1, 256);
    assert_eq!(loaded.direct, inode.direct);
    assert_eq!(loaded.type_(), DiskInodeType::Directory);
    assert_eq!(DiskInode::load(&mut cache, 1, 384).type_(), DiskInodeType::File);
    assert_eq!(DiskInode::load(&mut cache, 1, 0).size, 0);
}

#[test]
fn block_counts_include_index_blocks() {
    assert_eq!(DiskInode::data_blocks_of(0), 0);
    assert_eq!(DiskInode::data_blocks_of(1), 1);
    assert_eq!(DiskInode::data_blocks_of(512), 1);
    assert_eq!(DiskInode::data_blocks_of(513), 2);
    assert_eq!(DiskInode::total_blocks(27 * 512), 27);
    assert_eq!(DiskInode::total_blocks(27 * 512 + 1), 29);
    assert_eq!(DiskInode::total_blocks(155 * 512), 156);
    assert_eq!(DiskInode::total_blocks(155 * 512 + 1), 159);
    assert_eq!(DiskInode::total_blocks(283 * 512), 286);
    assert_eq!(DiskInode::total_blocks(283 * 512 + 1), 288);
    assert_eq!(DiskInode::total_blocks(16539 * 512), 16539 + 1 + 1 + 128);
    let mut inode = DiskInode::initialize(DiskInodeType::File);
    assert_eq!(inode.blocks_num_needed(0), 0);
    assert_eq!(inode.blocks_num_needed(100_000), 196 + 3);
    inode.size = 27 * 512;
    assert_eq!(inode.data_blocks(), 27);
    assert_eq!(inode.blocks_num_needed(27 * 512 + 1), 2);
}

#[test]
fn the_chain_grows_and_shrinks_with_the_blocks_given() {
    let mut cache = BlockCache::new(RamDisk::new(400));
    let mut inode = DiskInode::initialize(DiskInodeType::File);
    let needed = inode.blocks_num_needed(160 * 512) as usize;
    assert_eq!(needed, 160 + 3);
    let blocks: Vec<u32> = (100..100 + needed as u32).collect();
    inode.increase_size(160 * 512, blocks, &mut cache);
    assert_eq!(inode.size, 160 * 512);
    // index blocks are taken just before the first data block that needs them
    assert_eq!(inode.get_block_id(&mut cache, 0), 100);
    assert_eq!(inode.get_block_id(&mut cache, 26), 126);
    assert_eq!(inode.indirect1, 127);
    assert_eq!(inode.get_block_id(&mut cache, 27), 128);
    assert_eq!(inode.get_block_id(&mut cache, 154), 255);
    assert_eq!(inode.indirect2, 256);
    assert_eq!(cache.read_u32(256, 0), 257);
    assert_eq!(inode.get_block_id(&mut cache, 155), 258);
    assert_eq!(inode.get_block_id(&mut cache, 159), 262);

    assert_eq!(inode.write_at(155 * 512 - 2, b"abcd", &mut cache), 4);
    assert_eq!(cache.read_u8(255, 510), b'a');
    assert_eq!(cache.read_u8(258, 1), b'd');
    let mut buf = vec![0u8; 4];
    assert_eq!(inode.read_at(155 * 512 - 2, &mut buf, &mut cache), 4);
    assert_eq!(buf, b"abcd".to_vec());
    // a write is cut at the size
    assert_eq!(inode.write_at(160 * 512 - 1, b"xy", &mut cache), 1);
    assert_eq!(inode.write_at(160 * 512, b"xy", &mut cache), 0);

    let mut freed = inode.decrease_size(27 * 512, &mut cache);
    assert_eq!(inode.size, 27 * 512);
    freed.sort();
    assert_eq!(freed, (127..263).collect::<Vec<u32>>());
    // the pointers that the shorter chain does not use are zero
    assert_eq!(inode.indirect1, 0);
    assert_eq!(inode.indirect2, 0);
    assert_eq!(inode.direct[26], 126);
    let _ = inode.decrease_size(3 * 512 - 1, &mut cache);
    assert_eq!(&inode.direct[..4], &[100, 101, 102, 0]);
    assert!(inode.direct[3..].iter().all(|p| *p == 0));
    let mut rest = inode.clear_size(&mut cache);
    rest.sort();
    assert_eq!(rest, (100..103).collect::<Vec<u32>>());
    assert_eq!(inode.size, 0);
    assert!(inode.direct.iter().all(|p| *p == 0));
}

#[test]
fn directory_records_hold_a_name_and_an_inode() {
    let entry = DirEntry::new(b"a.txt", 0x0102_0304);
    assert_eq!(entry.as_bytes().len(), 32);
    assert_eq!(&entry.as_bytes()[..5], b"a.txt");
    assert!(entry.as_bytes()[5..28].iter().all(|b| *b == 0));
    assert_eq!(&entry.as_bytes()[28..], &[4, 3, 2, 1]);
    assert_eq!(entry.name(), b"a.txt".to_vec());
    assert_eq!(entry.name_len(), 5);
    assert_eq!(entry.inode_id(), 0x0102_0304);
    assert!(entry.name_is(b"a.txt"));
    assert!(!entry.name_is(b"a.tx"));
    assert!(!entry.name_is(b"a.txt\0"));
    assert!(!entry.name_is(b"b.txt"));
    let copy = DirEntry::from_bytes(entry.as_bytes());
    assert_eq!(copy.name(), b"a.txt".to_vec());
    let empty = DirEntry::empty();
    assert_eq!(empty.name(), Vec::<u8>::new());
    assert_eq!(empty.inode_id(), 0);
    let longest = DirEntry::new(&[b'x'; 27], 1);
    assert_eq!(longest.name_len(), 27);
    assert!(is_valid_name(&[b'x'; 27]));
    assert!(!is_valid_name(&[b'x'; 28]));
    assert!(!is_valid_name(b"a\0b"));
    assert!(is_valid_name(b""));
}

#[test]
fn the_journal_follows_its_protocol() {
    let mut cache = BlockCache::new(RamDisk::new(8));
    let mut journal = Journal::new(true);
    assert!(journal.is_enabled());
    assert_eq!(journal.current_state(), TxState::Idle);
    assert_eq!(journal.get_write_access(1), Err(JournalError::OutOfOrder));
    assert_eq!(journal.stop(), Err(JournalError::OutOfOrder));
    assert_eq!(journal.commit(), Err(JournalError::OutOfOrder));
    assert_eq!(journal.checkpoint(&mut cache), Err(JournalError::OutOfOrder));

    assert_eq!(journal.start(2), Ok(()));
    assert_eq!(journal.current_state(), TxState::Open);
    assert_eq!(journal.start(2), Err(JournalError::OutOfOrder));
    assert_eq!(journal.dirty_metadata(3), Err(JournalError::NoWriteAccess));
    assert_eq!(journal.get_write_access(3), Ok(()));
    assert_eq!(journal.get_write_access(3), Ok(()));
    assert_eq!(journal.get_write_access(4), Ok(()));
    assert_eq!(journal.get_write_access(5), Err(JournalError::BudgetExceeded));
    cache.write_u8(3, 0, 0x5a);
    assert_eq!(journal.dirty_metadata(3), Ok(()));
    assert_eq!(journal.commit(), Err(JournalError::OutOfOrder));
    assert_eq!(journal.stop(), Ok(()));
    assert_eq!(journal.current_state(), TxState::Stopped);
    assert_eq!(journal.get_write_access(4), Err(JournalError::OutOfOrder));
    assert_eq!(journal.dirty_metadata(3), Err(JournalError::OutOfOrder));
    assert_eq!(journal.checkpoint(&mut cache), Err(JournalError::OutOfOrder));
    assert_eq!(journal.commit(), Ok(()));
    assert_eq!(journal.current_state(), TxState::Committed);
    assert_eq!(journal.checkpoint(&mut cache), Ok(()));
    assert_eq!(journal.current_state(), TxState::Idle);
    assert_eq!(journal.start(1), Ok(()));
    assert_eq!(journal.get_write_access(9), Ok(()));
    assert_eq!(journal.get_write_access(3), Err(JournalError::BudgetExceeded));
    let device = cache.into_device();
    assert_eq!(device.read_block(3)[0], 0x5a);
}

#[test]
fn a_disabled_journal_accepts_every_step() {
    let mut cache = BlockCache::new(RamDisk::new(8));
    let mut journal = Journal::new(false);
    assert!(!journal.is_enabled());
    assert_eq!(journal.dirty_metadata(1), Ok(()));
    assert_eq!(journal.commit(), Ok(()));
    assert_eq!(journal.start(0), Ok(()));
    assert_eq!(journal.get_write_access(1), Ok(()));
    assert_eq!(journal.stop(), Ok(()));
    assert_eq!(journal.checkpoint(&mut cache), Ok(()));
    assert_eq!(journal.current_state(), TxState::Idle);
}

fn strings(v: &[&str]) -> Vec<String> {
    v.iter().map(|s| s.to_string()).collect()
}

#[test]
fn a_path_is_cut_into_its_segments() {
    assert_eq!(path_components(""), Vec::<String>::new());
    assert_eq!(path_components(" \t\n"), Vec::<String>::new());
    assert_eq!(path_components("\u{3000}\u{a0}"), Vec::<String>::new());
    assert_eq!(path_components("a"), strings(&["a"]));
    assert_eq!(path_components("/a"), strings(&["a"]));
    assert_eq!(path_components("a/b"), strings(&["a", "b"]));
    assert_eq!(path_components("/a/b/c/"), strings(&["a", "b", "c"]));
    // the canonical form drops `.` and resolves `..`
    assert_eq!(path_components("/a/./b"), strings(&["a", "b"]));
    assert_eq!(path_components("a//b"), strings(&["a", "b"]));
    assert_eq!(path_components("/a/../b"), strings(&["b"]));
    assert_eq!(path_components("./a"), strings(&["a"]));
    // a path with characters outside ASCII is cut as it stands
    assert_eq!(path_components("/é/ü"), strings(&["é", "ü"]));
    assert_eq!(path_components("é/./ü"), strings(&["é", ".", "ü"]));
    // a path that is all slashes has one empty segment
    assert_eq!(path_components("/"), strings(&[""]));
    assert_eq!(path_components("a/.."), strings(&[""]));
}

#[test]
fn a_canonical_path_is_cut_at_its_slashes() {
    assert_eq!(split_components(""), strings(&[""]));
    assert_eq!(split_components("a"), strings(&["a"]));
    assert_eq!(split_components("//a/b//"), strings(&["a", "b"]));
    assert_eq!(split_components("a//b"), strings(&["a", "", "b"]));
    assert_eq!(split_components("./a/"), strings(&["a", ""]));
    assert_eq!(split_components("./"), strings(&[""]));
    assert_eq!(split_components("///"), strings(&[""]));
    assert_eq!(split_components("./."), strings(&["."]));
}

#[test]
fn white_space_is_what_unicode_says() {
    for c in [' ', '\t', '\n', '\u{b}', '\u{c}', '\r', '\u{85}', '\u{a0}', '\u{1680}', '\u{2000}',
        '\u{200a}', '\u{2028}', '\u{2029}', '\u{202f}', '\u{205f}', '\u{3000}']
    {
        assert!(char_is_whitespace(c));
        assert!(c.is_whitespace());
    }
    for c in ['a', '/', '\0', '\u{8}', '\u{e}', '\u{200b}', '\u{2007}', '\u{feff}'] {
        assert_eq!(char_is_whitespace(c), c.is_whitespace());
    }
    assert!(str_is_blank(""));
    assert!(str_is_blank(" \u{2003} "));
    assert!(!str_is_blank(" . "));
}
