use easy_fs::block_dev::{BlockDevice, RamDisk};
use easy_fs::disk_inode::{DiskInode, DiskInodeType};
use easy_fs::efs::EasyFileSystem;
use easy_fs::vfs::Inode;

const TOTAL: u32 = 4096;

fn fresh() -> (EasyFileSystem<RamDisk>, Inode) {
    let fs = EasyFileSystem::create(RamDisk::new(TOTAL as usize), TOTAL, 1);
    let root = fs.root_inode();
    (fs, root)
}

fn size_of(fs: &mut EasyFileSystem<RamDisk>, inode: &Inode) -> u32 {
    DiskInode::load(&mut fs.cache, inode.block_id, inode.block_offset).size
}

fn names(v: &[&str]) -> Vec<String> {
    v.iter().map(|s| s.to_string()).collect()
}

#[test]
fn create_ls_find() {
    let (mut fs, root) = fresh();
    assert!(root.ls(&mut fs).is_empty());
    let h1 = root.create(&mut fs, "f1").expect("a fresh name is created");
    assert_eq!(root.ls(&mut fs), names(&["f1"]));
    let found = root.find(&mut fs, "f1").expect("the name resolves");
    assert_eq!(found.stat(&mut fs).0, h1.stat(&mut fs).0);
    assert_eq!(h1.stat(&mut fs), (1, 1, DiskInodeType::File));
    assert_eq!(root.stat(&mut fs).2, DiskInodeType::Directory);
    assert_eq!(root.stat(&mut fs).0, 0);
}

#[test]
fn write_read() {
    let (mut fs, root) = fresh();
    let h1 = root.create(&mut fs, "f1").unwrap();
    assert_eq!(h1.write_at(&mut fs, 0, b"hello"), 5);
    let mut buf = [0u8; 16];
    assert_eq!(h1.read_at(&mut fs, 0, &mut buf[0..5]), 5);
    assert_eq!(&buf[0..5], b"hello");
    assert_eq!(&buf[5..], &[0u8; 11]);
    assert_eq!(size_of(&mut fs, &h1), 5);
}

#[test]
fn grow_across_indirect() {
    let (mut fs, root) = fresh();
    let h1 = root.create(&mut fs, "f1").unwrap();
    let free0 = fs.free_data_blocks();
    let len = 512 * (27 + 2);
    let zeros = vec![0u8; len];
    assert_eq!(h1.write_at(&mut fs, 0, &zeros), len);
    assert_eq!(size_of(&mut fs, &h1), len as u32);
    let mut last = [0xffu8; 1];
    assert_eq!(h1.read_at(&mut fs, len - 1, &mut last), 1);
    assert_eq!(last[0], 0);
    // 29 data blocks and the single-indirect block
    assert_eq!(DiskInode::total_blocks(len as u32), 30);
    assert_eq!(fs.free_data_blocks(), free0 - 30);
    // nothing lies past the end
    assert_eq!(h1.read_at(&mut fs, len, &mut last), 0);
}

#[test]
fn link_stat() {
    let (mut fs, root) = fresh();
    let h1 = root.create(&mut fs, "f1").unwrap();
    assert_eq!(root.link(&mut fs, "f1", "f2"), Some(()));
    let f2 = root.find(&mut fs, "f2").unwrap();
    assert_eq!(f2.stat(&mut fs), (h1.inode_id, 2, DiskInodeType::File));
    let mut listed = root.ls(&mut fs);
    listed.sort();
    assert_eq!(listed, names(&["f1", "f2"]));
}

#[test]
fn unlink_with_swap() {
    let (mut fs, root) = fresh();
    let h1 = root.create(&mut fs, "f1").unwrap();
    h1.write_at(&mut fs, 0, b"hello");
    root.link(&mut fs, "f1", "f2").unwrap();
    assert_eq!(root.unlink(&mut fs, "f1"), Some(()));
    assert_eq!(root.ls(&mut fs), names(&["f2"]));
    // the entry that is left is the first one on disk
    let mut slot = [0xffu8; 32];
    assert_eq!(root.read_at(&mut fs, 0, &mut slot), 32);
    assert_eq!(&slot[0..3], b"f2\0");
    assert_eq!(&slot[28..32], &h1.inode_id.to_le_bytes());
    assert_eq!(size_of(&mut fs, &root), 32);
    // the slot that was given up is filled with zeros
    let block = DiskInode::load(&mut fs.cache, root.block_id, root.block_offset).direct[0];
    let mut sector = [0xffu8; 512];
    fs.cache.read_bytes(block as usize, 0, &mut sector, 0, 512);
    assert_eq!(&sector[0..3], b"f2\0");
    assert_eq!(&sector[32..64], &[0u8; 32]);
    let f2 = root.find(&mut fs, "f2").unwrap();
    assert_eq!(f2.stat(&mut fs).1, 1);
    assert!(root.find(&mut fs, "f1").is_none());
    // the file still holds its bytes
    let mut buf = [0u8; 5];
    assert_eq!(f2.read_at(&mut fs, 0, &mut buf), 5);
    assert_eq!(&buf, b"hello");
}

#[test]
fn final_unlink_reclaims_blocks() {
    let (mut fs, root) = fresh();
    let h1 = root.create(&mut fs, "f1").unwrap();
    let len = 512 * (27 + 2);
    h1.write_at(&mut fs, 0, &vec![7u8; len]);
    root.link(&mut fs, "f1", "f2").unwrap();
    root.unlink(&mut fs, "f1").unwrap();
    // a second entry, so that the directory keeps its one block when the
    // entry for f2 goes
    root.create(&mut fs, "keep").unwrap();
    let f2 = root.find(&mut fs, "f2").unwrap();
    let size = size_of(&mut fs, &f2);
    assert_eq!(size, len as u32);
    let f0 = fs.free_data_blocks();
    assert_eq!(root.unlink(&mut fs, "f2"), Some(()));
    assert_eq!(fs.free_data_blocks(), f0 + DiskInode::total_blocks(size) as usize);
    assert_eq!(root.ls(&mut fs), names(&["keep"]));
    assert_eq!(size_of(&mut fs, &f2), 0);
    assert_eq!(f2.stat(&mut fs).1, 0);
}

#[test]
fn reopen_finds_what_was_written() {
    let (mut fs, root) = fresh();
    let h1 = root.create(&mut fs, "data").unwrap();
    h1.write_at(&mut fs, 3, b"persist");
    let device = fs.cache.into_device();
    let mut again = EasyFileSystem::open(device);
    let root = again.root_inode();
    assert_eq!(root.ls(&mut again), names(&["data"]));
    let h = root.find(&mut again, "data").unwrap();
    let mut buf = [0u8; 7];
    assert_eq!(h.read_at(&mut again, 3, &mut buf), 7);
    assert_eq!(&buf, b"persist");
    assert_eq!(again.geometry.total_blocks, TOTAL);
}

#[test]
fn absent_names_give_none() {
    let (mut fs, root) = fresh();
    root.create(&mut fs, "a").unwrap();
    assert!(root.create(&mut fs, "a").is_none());
    assert!(root.find(&mut fs, "b").is_none());
    assert_eq!(root.link(&mut fs, "b", "c"), None);
    assert_eq!(root.unlink(&mut fs, "b"), None);
    assert_eq!(root.ls(&mut fs), names(&["a"]));
}

#[test]
fn clear_gives_blocks_back() {
    let (mut fs, root) = fresh();
    let h = root.create(&mut fs, "big").unwrap();
    let f0 = fs.free_data_blocks();
    let len = 512 * 200;
    h.write_at(&mut fs, 0, &vec![1u8; len]);
    // 200 data blocks, the single-indirect block, the double-indirect block
    // and one index block behind it
    assert_eq!(DiskInode::total_blocks(len as u32), 203);
    assert_eq!(fs.free_data_blocks(), f0 - 203);
    h.clear(&mut fs);
    assert_eq!(fs.free_data_blocks(), f0);
    assert_eq!(size_of(&mut fs, &h), 0);
    let mut b = [0u8; 1];
    assert_eq!(h.read_at(&mut fs, 0, &mut b), 0);
    assert_eq!(h.stat(&mut fs).1, 1);
}

#[test]
fn names_stop_at_the_first_zero_byte() {
    let (mut fs, root) = fresh();
    let h = root.create(&mut fs, "ab\0cd").unwrap();
    assert_eq!(root.ls(&mut fs), names(&["ab"]));
    assert_eq!(root.find(&mut fs, "ab").unwrap().inode_id, h.inode_id);
    assert!(root.find(&mut fs, "ab\0cd").is_none());
}

#[test]
fn longest_name_and_non_ascii_name() {
    let (mut fs, root) = fresh();
    let long = "abcdefghijklmnopqrstuvwxyz0";
    assert_eq!(long.len(), 27);
    root.create(&mut fs, long).unwrap();
    root.create(&mut fs, "héllo").unwrap();
    assert_eq!(root.ls(&mut fs), names(&[long, "héllo"]));
    assert!(root.find(&mut fs, long).is_some());
}

#[test]
fn device_is_current_after_each_operation() {
    let (mut fs, root) = fresh();
    let h = root.create(&mut fs, "f").unwrap();
    h.write_at(&mut fs, 0, b"abc");
    let pos = fs.get_disk_inode_pos(h.inode_id);
    let mut raw = [0u8; 512];
    fs.cache.device().read_block(pos.0 as usize, &mut raw);
    // the size is the first word of the record
    assert_eq!(&raw[pos.1..pos.1 + 4], &3u32.to_le_bytes());
}

#[test]
fn read_all_gives_every_byte() {
    let (mut fs, root) = fresh();
    let f = root.create(&mut fs, "f").unwrap();
    assert!(f.read_all(&mut fs).is_empty());
    let bytes: Vec<u8> = (0..1300u32).map(|i| (i % 253) as u8).collect();
    f.write_at(&mut fs, 0, &bytes);
    assert_eq!(f.read_all(&mut fs), bytes);
    assert_eq!(f.size(&mut fs), 1300);
    // the directory reads as its entries
    let dir = root.read_all(&mut fs);
    assert_eq!(dir.len(), 32);
    assert_eq!(&dir[0..2], b"f\0");
    assert_eq!(&dir[28..32], &1u32.to_le_bytes());
}
