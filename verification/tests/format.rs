use easy_fs::block_dev::{BlockDevice, RamDisk};
use easy_fs::efs::EasyFileSystem;

#[test]
fn format_gives_an_empty_filesystem() {
    let disk = RamDisk::new(4096);
    let fs = EasyFileSystem::create(disk, 4096, 1, false).expect("the disk is large enough");
    assert_eq!(fs.layout.total_blocks, 4096);
    assert_eq!(fs.layout.inode_bitmap_blocks, 1);
    assert_eq!(fs.layout.inode_area_blocks, 1024);
    assert_eq!(fs.layout.data_bitmap_blocks, 1);
    assert_eq!(fs.layout.data_area_blocks, 4096 - 1 - 1 - 1024 - 1);
    let device = fs.close();
    assert_eq!(device.num_blocks(), 4096);
    let fs = EasyFileSystem::open(device, true).expect("the superblock is valid");
    assert_eq!(fs.layout.data_area_blocks, 3069);
}

#[test]
fn format_refuses_a_disk_that_is_too_small() {
    assert!(EasyFileSystem::create(RamDisk::new(1000), 1000, 1, false).is_none());
    assert!(EasyFileSystem::create(RamDisk::new(4096), 4095, 1, false).is_none());
    assert!(EasyFileSystem::create(RamDisk::new(4096), 4096, 0, false).is_none());
}
