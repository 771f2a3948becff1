use easy_fs::block_dev::RamDisk;
use easy_fs::checked;
use easy_fs::disk_inode::DiskInodeType;
use easy_fs::efs::EasyFileSystem;
use easy_fs::shared::SharedFs;
use easy_fs::vfs::Inode;

fn shared(total: u32) -> SharedFs<RamDisk> {
    SharedFs::new(EasyFileSystem::create(RamDisk::new(total as usize), total, 1))
}

#[test]
fn shared_create_write_read() {
    let fs = shared(2048);
    let root = fs.root_inode().unwrap();
    assert_eq!(root.inode_id, 0);
    let f = fs.create(&root, "f1").unwrap();
    assert!(fs.create(&root, "f1").is_none());
    assert_eq!(fs.ls(&root), vec!["f1"]);
    assert_eq!(fs.write_at(&f, 0, b"hello"), 5);
    let mut buf = [0xaau8; 8];
    assert_eq!(fs.read_at(&f, 0, &mut buf), 5);
    assert_eq!(&buf, b"hello\xaa\xaa\xaa");
    assert_eq!(fs.read_all(&f), b"hello");
    assert_eq!(fs.stat(&f), Some((1, 1, DiskInodeType::File)));
    assert_eq!(fs.stat(&root).unwrap().2, DiskInodeType::Directory);
    assert_eq!(fs.find(&root, "f1").unwrap().inode_id, f.inode_id);
    assert!(fs.find(&root, "f2").is_none());
}

#[test]
fn shared_link_unlink_clear() {
    let fs = shared(2048);
    let root = fs.root_inode().unwrap();
    let f = fs.create(&root, "a").unwrap();
    assert_eq!(fs.link(&root, "a", "b"), Some(()));
    assert_eq!(fs.link(&root, "x", "y"), None);
    assert_eq!(fs.stat(&f).unwrap().1, 2);
    assert_eq!(fs.unlink(&root, "a"), Some(()));
    assert_eq!(fs.unlink(&root, "a"), None);
    assert_eq!(fs.ls(&root), vec!["b"]);
    fs.write_at(&f, 0, &[1u8; 2000]);
    assert!(fs.clear(&f));
    let mut b = [0u8; 1];
    assert_eq!(fs.read_at(&f, 0, &mut b), 0);
    // the last entry of the directory's only block stays: the directory
    // keeps its blocks
    assert_eq!(fs.unlink(&root, "b"), None);
    assert_eq!(fs.ls(&root), vec!["b"]);
}

#[test]
fn shared_refuses_what_it_cannot_do() {
    let fs = shared(1100);
    let root = fs.root_inode().unwrap();
    let f = fs.create(&root, "f").unwrap();
    // a handle that is not one of this filesystem
    let stray = Inode::new(2, 128, 9);
    assert_eq!(fs.stat(&stray), None);
    assert!(fs.find(&stray, "f").is_none());
    assert!(fs.ls(&stray).is_empty());
    assert_eq!(fs.write_at(&stray, 0, b"x"), 0);
    let mut b = [7u8; 2];
    assert_eq!(fs.read_at(&stray, 0, &mut b), 0);
    assert_eq!(b, [7u8; 2]);
    assert!(!fs.clear(&stray));
    let wrong_place = Inode::new(2, 0, f.inode_id);
    assert_eq!(fs.stat(&wrong_place), None);
    // a file is not a directory, the directory is not a file
    assert!(fs.find(&f, "f").is_none());
    assert!(fs.create(&f, "g").is_none());
    assert_eq!(fs.link(&f, "f", "g"), None);
    assert_eq!(fs.unlink(&f, "f"), None);
    assert_eq!(fs.write_at(&root, 0, b"x"), 0);
    assert!(!fs.clear(&root));
    // more than the free blocks hold
    let free = 1100 - 1 - 1 - 1024 - 1 - 1;
    assert_eq!(fs.write_at(&f, 0, &vec![0u8; 512 * (free + 1)]), 0);
    assert_eq!(fs.write_at(&f, 0, &vec![0u8; 512 * 20]), 512 * 20);
    // past the largest file
    assert_eq!(fs.write_at(&f, 8467968, b"x"), 0);
    assert_eq!(fs.write_at(&f, usize::MAX, b"x"), 0);
}

#[test]
fn tested_first_operations_act_or_leave_alone() {
    let mut fs = EasyFileSystem::create(RamDisk::new(1100), 1100, 1);
    let root = fs.root_inode();
    let stray = Inode::new(2, 128, 9);
    let free = fs.free_data_blocks();
    // nothing is done through a handle that names no inode in use
    assert!(checked::create(&mut fs, &stray, "a").is_none());
    assert!(checked::find(&mut fs, &stray, "a").is_none());
    assert_eq!(checked::stat(&mut fs, &stray), None);
    assert!(checked::ls(&mut fs, &stray).is_empty());
    assert!(checked::read_all(&mut fs, &stray).is_empty());
    assert_eq!(checked::write_at(&mut fs, &stray, 0, b"x"), 0);
    assert!(!checked::clear(&mut fs, &stray));
    assert_eq!(checked::link(&mut fs, &stray, "a", "b"), None);
    assert_eq!(checked::unlink(&mut fs, &stray, "a"), None);
    assert_eq!(fs.free_data_blocks(), free);
    assert_eq!(fs.free_inode_slots(), 4095);
    // through the root the operations act
    let f = checked::create(&mut fs, &root, "a").unwrap();
    assert_eq!((f.block_id, f.block_offset, f.inode_id), (2, 128, 1));
    assert_eq!(checked::find(&mut fs, &root, "a").map(|i| (i.block_id, i.block_offset, i.inode_id)),
        Some((2, 128, 1)));
    assert_eq!(checked::stat(&mut fs, &f), Some((1, 1, DiskInodeType::File)));
    assert_eq!(checked::write_at(&mut fs, &f, 2, b"xyz"), 3);
    assert_eq!(checked::read_all(&mut fs, &f)[2..], b"xyz"[..]);
    let mut buf = [9u8; 4];
    assert_eq!(checked::read_at(&mut fs, &f, 3, &mut buf), 2);
    assert_eq!(&buf, b"yz\x09\x09");
    assert_eq!(checked::read_at(&mut fs, &stray, 0, &mut buf), 0);
    assert_eq!(&buf, b"yz\x09\x09");
    assert_eq!(checked::link(&mut fs, &root, "a", "b"), Some(()));
    assert_eq!(checked::ls(&mut fs, &root), vec!["a", "b"]);
    assert_eq!(checked::unlink(&mut fs, &root, "a"), Some(()));
    // the entry that is alone in the directory's block stays
    assert_eq!(checked::unlink(&mut fs, &root, "b"), None);
    assert_eq!(checked::ls(&mut fs, &root), vec!["b"]);
    assert!(checked::clear(&mut fs, &f));
    assert!(checked::read_all(&mut fs, &f).is_empty());
    // a write that the free blocks do not hold leaves everything alone
    let free = fs.free_data_blocks();
    assert_eq!(checked::write_at(&mut fs, &f, 0, &vec![0u8; 512 * (free + 1)]), 0);
    assert_eq!(fs.free_data_blocks(), free);
    assert_eq!(checked::stat(&mut fs, &f), Some((1, 1, DiskInodeType::File)));
    assert!(checked::read_all(&mut fs, &f).is_empty());
}

#[test]
fn long_names_are_not_stored() {
    let fs = shared(2048);
    let root = fs.root_inode().unwrap();
    let long = "a-name-that-is-longer-than-an-entry-holds";
    fs.create(&root, "a").unwrap();
    assert!(fs.create(&root, long).is_none());
    assert_eq!(fs.link(&root, "a", long), None);
    assert_eq!(fs.link(&root, "missing", long), None);
    assert!(fs.find(&root, long).is_none());
    assert_eq!(fs.ls(&root), vec!["a"]);
    let mut plain = EasyFileSystem::create(RamDisk::new(2048), 2048, 1);
    let r = plain.root_inode();
    assert!(checked::create(&mut plain, &r, long).is_none());
    assert_eq!(plain.free_inode_slots(), 4095);
    // 27 bytes fit
    assert!(checked::create(&mut plain, &r, &long[..27]).is_some());
    assert_eq!(checked::link(&mut plain, &r, &long[..27], long), None);
}
