use easy_fs::block_cache::BlockCacheManager;
use easy_fs::block_dev::RamDisk;
use easy_fs::codec::{u32_byte_at, u32_from_bytes};
use easy_fs::dir_entry::DirEntry;
use easy_fs::disk_inode::{DiskInode, DiskInodeType};
use easy_fs::efs::EasyFileSystem;
use easy_fs::fs::{Stat, StatMode};
use easy_fs::layout::{blocks_for, data_blocks_of};
use easy_fs::super_block::SuperBlock;

#[test]
fn constants_of_the_layout() {
    assert_eq!(easy_fs::BLOCK_SZ, 512);
    assert_eq!(easy_fs::layout::BLOCK_BITS, 4096);
    assert_eq!(easy_fs::layout::EFS_MAGIC, 0x3b800001);
    assert_eq!(easy_fs::layout::INODE_DIRECT_COUNT, 27);
    assert_eq!(easy_fs::layout::INODE_INDIRECT1_COUNT, 128);
    assert_eq!(easy_fs::layout::INODE_INDIRECT2_COUNT, 128 * 128);
    assert_eq!(easy_fs::layout::DIRECT_BOUND, 27);
    assert_eq!(easy_fs::layout::INDIRECT1_BOUND, 27 + 128);
    assert_eq!(easy_fs::layout::MAX_DATA_BLOCKS, 27 + 128 + 128 * 128);
    assert_eq!(easy_fs::layout::MAX_FILE_SIZE as usize, (27 + 128 + 128 * 128) * 512);
    assert_eq!(easy_fs::layout::INODE_SZ * easy_fs::layout::INODES_PER_BLOCK, 512);
    assert_eq!(easy_fs::layout::NAME_LENGTH_LIMIT + 1 + 4, easy_fs::layout::DIRENT_SZ);
    assert_eq!(easy_fs::block_cache::BLOCK_CACHE_SIZE, 16);
}

#[test]
fn block_counts_of_sizes() {
    assert_eq!(data_blocks_of(0), 0);
    assert_eq!(data_blocks_of(1), 1);
    assert_eq!(data_blocks_of(512), 1);
    assert_eq!(data_blocks_of(513), 2);
    assert_eq!(data_blocks_of(u32::MAX), 8388608);
    assert_eq!(blocks_for(0), 0);
    assert_eq!(blocks_for(27), 27);
    assert_eq!(blocks_for(28), 29);
    assert_eq!(blocks_for(155), 156);
    assert_eq!(blocks_for(156), 159);
    assert_eq!(blocks_for(283), 286);
    assert_eq!(blocks_for(284), 288);
    assert_eq!(blocks_for(16539), 16539 + 1 + 1 + 128);
    assert_eq!(DiskInode::total_blocks(0), 0);
    assert_eq!(DiskInode::total_blocks(512 * 27), 27);
    assert_eq!(DiskInode::total_blocks(512 * 27 + 1), 29);
    assert_eq!(DiskInode::total_blocks(easy_fs::layout::MAX_FILE_SIZE), 16669);
}

#[test]
fn blocks_needed_to_grow() {
    let mut cache = BlockCacheManager::new(RamDisk::new(1));
    let mut d = DiskInode::load(&mut cache, 0, 0);
    d.initialize(DiskInodeType::File);
    assert_eq!(d.size, 0);
    assert_eq!(d.hard_link, 1);
    assert_eq!(d.data_blocks(), 0);
    assert_eq!(d.blocks_num_needed(0), 0);
    assert_eq!(d.blocks_num_needed(1), 1);
    assert_eq!(d.blocks_num_needed(512 * 28), 29);
    d.size = 512 * 27;
    assert_eq!(d.data_blocks(), 27);
    assert_eq!(d.blocks_num_needed(512 * 27), 0);
    assert_eq!(d.blocks_num_needed(512 * 27 + 1), 2);
    d.size = 512 * 155;
    assert_eq!(d.blocks_num_needed(512 * 156), 3);
    d.size = 512 * 156;
    assert_eq!(d.blocks_num_needed(512 * 157), 1);
}

#[test]
fn words_and_their_bytes() {
    assert_eq!(u32_from_bytes(0x01, 0x00, 0x80, 0x3b), 0x3b800001);
    assert_eq!(u32_from_bytes(0xff, 0xff, 0xff, 0xff), u32::MAX);
    assert_eq!(u32_byte_at(0x3b800001, 0), 0x01);
    assert_eq!(u32_byte_at(0x3b800001, 1), 0x00);
    assert_eq!(u32_byte_at(0x3b800001, 2), 0x80);
    assert_eq!(u32_byte_at(0x3b800001, 3), 0x3b);
}

#[test]
fn superblock_on_disk() {
    let mut cache = BlockCacheManager::new(RamDisk::new(2));
    let mut sb = SuperBlock::load(&mut cache);
    assert!(!sb.is_valid());
    sb.initialize(4096, 1, 1024, 1, 3069);
    assert!(sb.is_valid());
    assert!(sb.check_geometry());
    cache.write_u8(0, 24, 0x77);
    sb.store(&mut cache);
    let mut s = [0u8; 512];
    cache.read_bytes(0, 0, &mut s, 0, 512);
    assert_eq!(&s[0..4], &[0x01, 0x00, 0x80, 0x3b]);
    assert_eq!(&s[4..8], &4096u32.to_le_bytes());
    assert_eq!(&s[8..12], &1u32.to_le_bytes());
    assert_eq!(&s[12..16], &1024u32.to_le_bytes());
    assert_eq!(&s[16..20], &1u32.to_le_bytes());
    assert_eq!(&s[20..24], &3069u32.to_le_bytes());
    assert_eq!(s[24], 0x77);
    let back = SuperBlock::load(&mut cache);
    assert_eq!(back.total_blocks, 4096);
    assert_eq!(back.data_area_blocks, 3069);
    assert!(back.check_geometry());
    let mut bad = back;
    bad.data_area_blocks = 3070;
    assert!(!bad.check_geometry());
    bad = back;
    bad.inode_area_blocks = 1023;
    assert!(!bad.check_geometry());
    bad = back;
    bad.magic = 0x3b800000;
    assert!(!bad.check_geometry());
    assert!(!bad.is_valid());
}

#[test]
fn geometry_of_a_new_filesystem() {
    let mut fs = EasyFileSystem::create(RamDisk::new(8192), 8192, 1);
    let sb = fs.geometry;
    assert_eq!(sb.magic, 0x3b800001);
    assert_eq!(sb.total_blocks, 8192);
    assert_eq!(sb.inode_bitmap_blocks, 1);
    assert_eq!(sb.inode_area_blocks, 1024);
    // 7166 sectors are left: two of bitmap and 7164 of data
    assert_eq!(sb.data_bitmap_blocks, 2);
    assert_eq!(sb.data_area_blocks, 7164);
    assert!(sb.check_geometry());
    assert_eq!(fs.inode_area_start_block, 2);
    assert_eq!(fs.data_area_start_block, 1028);
    assert_eq!(fs.free_data_blocks(), 7164);
    assert_eq!(fs.free_inode_slots(), 4095);
    assert_eq!(fs.get_disk_inode_pos(0), (2, 0));
    assert_eq!(fs.get_disk_inode_pos(5), (3, 128));
    assert_eq!(fs.get_disk_inode_pos(4095), (1025, 384));
    assert_eq!(fs.get_data_block_id(0), 1028);
    assert_eq!(fs.get_data_block_id(7163), 8191);
    // blocks and inode slots are handed out lowest first
    assert_eq!(fs.alloc_data(), 1028);
    assert_eq!(fs.alloc_data(), 1029);
    fs.dealloc_data(1028);
    assert_eq!(fs.alloc_data(), 1028);
    assert_eq!(fs.alloc_inode(), 1);
    assert_eq!(fs.alloc_blocks(3), vec![1030, 1031, 1032]);
    assert_eq!(fs.free_data_blocks(), 7164 - 5);
    let root = fs.root_inode();
    assert_eq!((root.block_id, root.block_offset, root.inode_id), (2, 0, 0));
}

#[test]
fn smallest_filesystem_has_no_data_blocks() {
    let mut fs = EasyFileSystem::create(RamDisk::new(1026), 1026, 1);
    assert_eq!(fs.geometry.data_bitmap_blocks, 0);
    assert_eq!(fs.geometry.data_area_blocks, 0);
    assert_eq!(fs.free_data_blocks(), 0);
    let root = fs.root_inode();
    assert!(root.ls(&mut fs).is_empty());
    assert!(root.find(&mut fs, "x").is_none());
}

#[test]
fn directory_entries_on_disk() {
    let e = DirEntry::new("f1", 0x01020304);
    let bytes = e.to_bytes();
    assert_eq!(&bytes[0..2], b"f1");
    assert_eq!(&bytes[2..28], &[0u8; 26]);
    assert_eq!(&bytes[28..32], &[4, 3, 2, 1]);
    assert_eq!(e.name_len(), 2);
    assert_eq!(e.inode_number(), 0x01020304);
    assert!(e.name_is(b"f1"));
    assert!(!e.name_is(b"f"));
    assert!(!e.name_is(b"f12"));
    assert!(!e.name_is(b"F1"));
    let back = DirEntry::from_bytes(&bytes);
    assert_eq!(back.name, e.name);
    assert_eq!(back.inode_number, e.inode_number);
    let empty = DirEntry::empty();
    assert_eq!(empty.to_bytes(), [0u8; 32]);
    assert_eq!(empty.name_len(), 0);
    assert!(empty.name_is(b""));
    // a field without a zero byte is a name of 28 bytes
    let full = DirEntry::from_bytes(&[b'x'; 32]);
    assert_eq!(full.name_len(), 28);
    assert!(full.name_is(&[b'x'; 28]));
    assert_eq!(full.inode_number(), 0x78787878);
    let cut = DirEntry::new("ab\0cd", 1);
    assert_eq!(cut.name_len(), 2);
    assert!(cut.name_is(b"ab"));
}

#[test]
fn stat_records() {
    let st = Stat::new(7, StatMode::file(), 2);
    assert_eq!(st.dev, 0);
    assert_eq!(st.ino, 7);
    assert_eq!(st.mode.bits(), 0o100000);
    assert_eq!(st.nlink, 2);
    assert_eq!(st.pad, [0u64; 7]);
    assert_eq!(StatMode::dir().bits(), 0o040000);
    assert_eq!(StatMode::null().bits(), 0);
    assert_eq!(StatMode::of(DiskInodeType::Directory), StatMode::dir());
    assert_eq!(StatMode::of(DiskInodeType::File), StatMode::file());
    let st = Stat::of_inode((3, 1, DiskInodeType::Directory));
    assert_eq!((st.dev, st.ino, st.nlink), (0, 3, 1));
    assert_eq!(st.mode.bits(), easy_fs::fs::STAT_MODE_DIR);
    assert_eq!(easy_fs::fs::STAT_MODE_FILE, 0x8000);
}
