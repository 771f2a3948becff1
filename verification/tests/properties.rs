use easy_fs::bitmap::Bitmap;
use easy_fs::block_cache::BlockCacheManager;
use easy_fs::block_dev::{BlockDevice, RamDisk};
use easy_fs::disk_inode::DiskInode;
use easy_fs::efs::EasyFileSystem;
use easy_fs::vfs::Inode;

fn fresh_fs(total: u32) -> (EasyFileSystem<RamDisk>, Inode) {
    let fs = EasyFileSystem::create(RamDisk::new(total as usize), total, 1);
    let root = fs.root_inode();
    (fs, root)
}

fn record(fs: &mut EasyFileSystem<RamDisk>, inode: &Inode) -> DiskInode {
    DiskInode::load(&mut fs.cache, inode.block_id, inode.block_offset)
}

fn sector_through_cache(cache: &mut BlockCacheManager<RamDisk>, b: usize) -> [u8; 512] {
    let mut s = [0u8; 512];
    cache.read_bytes(b, 0, &mut s, 0, 512);
    s
}

fn sector_of_device(cache: &BlockCacheManager<RamDisk>, b: usize) -> [u8; 512] {
    let mut s = [0u8; 512];
    cache.device().read_block(b, &mut s);
    s
}

#[test]
fn round_trip_at_many_offsets() {
    let (mut fs, root) = fresh_fs(4096);
    let f = root.create(&mut fs, "f").unwrap();
    let cases: [(usize, usize); 6] =
        [(0, 1), (0, 512), (511, 2), (500, 1500), (512 * 27 - 3, 10), (512 * 155 - 1, 700)];
    for (offset, len) in cases {
        let bytes: Vec<u8> = (0..len).map(|i| (i * 7 + offset) as u8).collect();
        assert_eq!(f.write_at(&mut fs, offset, &bytes), len);
        let mut buf = vec![0u8; len];
        assert_eq!(f.read_at(&mut fs, offset, &mut buf), len);
        assert_eq!(buf, bytes);
        assert!(record(&mut fs, &f).size as usize >= offset + len);
    }
}

#[test]
fn write_keeps_what_it_does_not_touch() {
    let (mut fs, root) = fresh_fs(4096);
    let f = root.create(&mut fs, "f").unwrap();
    let first: Vec<u8> = (0..2000).map(|i| (i % 251) as u8).collect();
    f.write_at(&mut fs, 0, &first);
    f.write_at(&mut fs, 700, b"XYZ");
    let mut all = vec![0u8; 2000];
    assert_eq!(f.read_at(&mut fs, 0, &mut all), 2000);
    let mut want = first.clone();
    want[700..703].copy_from_slice(b"XYZ");
    assert_eq!(all, want);
    // a write inside the file does not change its size
    assert_eq!(record(&mut fs, &f).size, 2000);
}

#[test]
fn short_read_at_the_end() {
    let (mut fs, root) = fresh_fs(4096);
    let f = root.create(&mut fs, "f").unwrap();
    f.write_at(&mut fs, 0, b"0123456789");
    let mut buf = [0xeeu8; 8];
    assert_eq!(f.read_at(&mut fs, 6, &mut buf), 4);
    assert_eq!(&buf, b"6789\xee\xee\xee\xee");
    assert_eq!(f.read_at(&mut fs, 10, &mut buf), 0);
    assert_eq!(f.read_at(&mut fs, 11, &mut buf), 0);
    assert_eq!(&buf, b"6789\xee\xee\xee\xee");
}

#[test]
fn directory_size_is_32_per_entry() {
    let (mut fs, root) = fresh_fs(4096);
    assert_eq!(record(&mut fs, &root).size, 0);
    for (i, name) in ["a", "b", "c", "d", "e"].iter().enumerate() {
        root.create(&mut fs, name).unwrap();
        assert_eq!(record(&mut fs, &root).size as usize, 32 * (i + 1));
    }
    root.link(&mut fs, "a", "a2").unwrap();
    assert_eq!(record(&mut fs, &root).size, 32 * 6);
    root.unlink(&mut fs, "b").unwrap();
    root.unlink(&mut fs, "a").unwrap();
    let listed = root.ls(&mut fs);
    assert_eq!(record(&mut fs, &root).size as usize, 32 * listed.len());
    // the last entry took the place of each removed one
    assert_eq!(listed, vec!["e", "a2", "c", "d"]);
}

#[test]
fn link_count_is_the_number_of_names() {
    let (mut fs, root) = fresh_fs(4096);
    let a = root.create(&mut fs, "a").unwrap();
    let b = root.create(&mut fs, "b").unwrap();
    root.link(&mut fs, "a", "a2").unwrap();
    root.link(&mut fs, "a2", "a3").unwrap();
    root.link(&mut fs, "b", "b2").unwrap();
    root.unlink(&mut fs, "a").unwrap();
    for inode in [a, b] {
        let mut names = 0;
        for name in root.ls(&mut fs) {
            if root.find(&mut fs, &name).unwrap().inode_id == inode.inode_id {
                names += 1;
            }
        }
        assert_eq!(inode.stat(&mut fs).1, names);
        assert_eq!(names, 2);
    }
}

#[test]
fn last_unlink_frees_every_block_of_the_file() {
    let (mut fs, root) = fresh_fs(4096);
    root.create(&mut fs, "keep").unwrap();
    let f0 = fs.free_data_blocks();
    let f = root.create(&mut fs, "f").unwrap();
    f.write_at(&mut fs, 0, &vec![9u8; 512 * 160]);
    let mut d = record(&mut fs, &f);
    let blocks = d.clear_size(&mut fs.cache);
    assert_eq!(blocks.len(), 163);
    let start = fs.data_area_start_block;
    for b in &blocks {
        assert!(fs.data_bitmap.get(&mut fs.cache, (*b - start) as usize));
    }
    root.unlink(&mut fs, "f").unwrap();
    for b in &blocks {
        assert!(!fs.data_bitmap.get(&mut fs.cache, (*b - start) as usize));
        // a freed block is filled with zeros
        assert_eq!(sector_through_cache(&mut fs.cache, *b as usize), [0u8; 512]);
    }
    assert_eq!(fs.free_data_blocks(), f0);
}

#[test]
fn allocate_then_free_restores_the_bitmap() {
    let mut cache = BlockCacheManager::new(RamDisk::new(8));
    let bitmap = Bitmap::new(2, 3);
    for _ in 0..5000 {
        bitmap.allocate(&mut cache).unwrap();
    }
    bitmap.deallocate(&mut cache, 100);
    bitmap.deallocate(&mut cache, 4097);
    let before: Vec<[u8; 512]> = (2..5).map(|b| sector_through_cache(&mut cache, b)).collect();
    // the first clear bit is taken
    assert_eq!(bitmap.allocate(&mut cache), Some(100));
    assert!(bitmap.get(&mut cache, 100));
    bitmap.deallocate(&mut cache, 100);
    let after: Vec<[u8; 512]> = (2..5).map(|b| sector_through_cache(&mut cache, b)).collect();
    assert_eq!(before, after);
    assert_eq!(bitmap.allocate(&mut cache), Some(100));
    assert_eq!(bitmap.allocate(&mut cache), Some(4097));
    assert_eq!(bitmap.allocate(&mut cache), Some(5000));
    assert_eq!(bitmap.maximum(), 3 * 4096);
    // bit 100 is bit 4 of byte 12 of the bitmap's first sector
    assert_eq!(sector_through_cache(&mut cache, 2)[12] & 0x10, 0x10);
    // nothing outside the bitmap was written
    assert_eq!(sector_through_cache(&mut cache, 1), [0u8; 512]);
    assert_eq!(sector_through_cache(&mut cache, 5), [0u8; 512]);
}

#[test]
fn full_bitmap_gives_none() {
    let mut cache = BlockCacheManager::new(RamDisk::new(2));
    let bitmap = Bitmap::new(1, 1);
    for i in 0..4096 {
        assert_eq!(bitmap.allocate(&mut cache), Some(i));
    }
    assert_eq!(bitmap.count_free(&mut cache, 4096), 0);
    assert_eq!(bitmap.allocate(&mut cache), None);
    bitmap.deallocate(&mut cache, 4095);
    assert_eq!(bitmap.count_free(&mut cache, 4096), 1);
    assert_eq!(bitmap.count_free(&mut cache, 4095), 0);
    assert_eq!(bitmap.allocate(&mut cache), Some(4095));
}

#[test]
fn sync_all_makes_the_device_equal_to_the_cache() {
    let mut cache = BlockCacheManager::new(RamDisk::new(40));
    for b in 0..40usize {
        cache.write_u32(b, 4 * (b % 100), 0xdead0000 + b as u32);
        cache.write_u8(b, 511, b as u8);
    }
    cache.sync_all();
    for b in 0..40usize {
        let raw = sector_of_device(&cache, b);
        assert_eq!(raw, sector_through_cache(&mut cache, b));
        assert_eq!(cache.read_u32(b, 4 * (b % 100)), 0xdead0000 + b as u32);
        assert_eq!(raw[511], b as u8);
    }
}

#[test]
fn cache_writes_back_on_eviction_oldest_first() {
    let mut cache = BlockCacheManager::new(RamDisk::new(32));
    for b in 0..16usize {
        cache.write_u8(b, 0, 0x40 + b as u8);
    }
    // sixteen sectors are resident, nothing has reached the device
    for b in 0..16usize {
        assert_eq!(sector_of_device(&cache, b)[0], 0);
    }
    // the seventeenth sector evicts sector 0, the oldest, and writes it back
    assert_eq!(cache.read_u8(16, 0), 0);
    assert_eq!(sector_of_device(&cache, 0)[0], 0x40);
    for b in 1..16usize {
        assert_eq!(sector_of_device(&cache, b)[0], 0);
    }
    // sector 0 comes back from the device with what was written
    assert_eq!(cache.read_u8(0, 0), 0x40);
    assert_eq!(sector_of_device(&cache, 1)[0], 0x41);
    assert_eq!(sector_of_device(&cache, 2)[0], 0);
    // a sector that was only read is dropped without a write
    cache.sync_all();
    assert_eq!(sector_of_device(&cache, 15)[0], 0x4f);
}

#[test]
fn cache_words_are_little_endian() {
    let mut cache = BlockCacheManager::new(RamDisk::new(2));
    cache.write_u32(1, 8, 0x3b800001);
    let s = sector_through_cache(&mut cache, 1);
    assert_eq!(&s[8..12], &[0x01, 0x00, 0x80, 0x3b]);
    assert_eq!(cache.read_u32(1, 8), 0x3b800001);
    assert_eq!(cache.read_u32(1, 9), 0x003b8000);
    cache.write_bytes(1, 510, &[1, 2, 3, 4, 5], 3, 2);
    let s = sector_through_cache(&mut cache, 1);
    assert_eq!(&s[508..512], &[0, 0, 4, 5]);
    cache.zero_block(1);
    assert_eq!(sector_through_cache(&mut cache, 1), [0u8; 512]);
}

#[test]
fn inode_blocks_come_in_allocation_order() {
    let mut cache = BlockCacheManager::new(RamDisk::new(400));
    let mut d = DiskInode::load(&mut cache, 0, 0);
    d.initialize(easy_fs::disk_inode::DiskInodeType::File);
    let size = 512 * 160;
    let needed = d.blocks_num_needed(size);
    assert_eq!(needed, 163);
    let blocks: Vec<u32> = (0..needed).map(|i| 399 - i).collect();
    d.increase_size(size, blocks.clone(), &mut cache);
    assert_eq!(d.size, size);
    // direct blocks first
    assert_eq!(d.get_block_id(0, &mut cache), 399);
    assert_eq!(d.get_block_id(26, &mut cache), 399 - 26);
    // then the single-indirect block and its 128 blocks
    assert_eq!(d.indirect1, 399 - 27);
    assert_eq!(d.get_block_id(27, &mut cache), 399 - 28);
    assert_eq!(d.get_block_id(154, &mut cache), 399 - 155);
    // then the double-indirect block, an index block, and its blocks
    assert_eq!(d.indirect2, 399 - 156);
    assert_eq!(cache.read_u32(d.indirect2 as usize, 0), 399 - 157);
    assert_eq!(d.get_block_id(155, &mut cache), 399 - 158);
    assert_eq!(d.get_block_id(159, &mut cache), 399 - 162);
    // growing further takes the next blocks in the same order
    let more: Vec<u32> = (0..d.blocks_num_needed(512 * 284)).map(|i| 100 + i).collect();
    assert_eq!(more.len(), 125);
    d.increase_size(512 * 284, more.clone(), &mut cache);
    assert_eq!(d.get_block_id(160, &mut cache), 100);
    assert_eq!(d.get_block_id(282, &mut cache), 222);
    // logical block 283 is the first behind the second index block
    assert_eq!(cache.read_u32(d.indirect2 as usize, 4), 223);
    assert_eq!(d.get_block_id(283, &mut cache), 224);
    let mut all = blocks;
    all.extend(more);
    assert_eq!(d.clear_size(&mut cache), all);
    assert_eq!(d.size, 0);
}

#[test]
fn inode_record_round_trips_through_a_sector() {
    let mut cache = BlockCacheManager::new(RamDisk::new(4));
    let mut d = DiskInode::load(&mut cache, 2, 128);
    d.initialize(easy_fs::disk_inode::DiskInodeType::Directory);
    d.size = 0x01020304;
    d.direct[0] = 7;
    d.direct[26] = 0xaabbccdd;
    d.indirect1 = 11;
    d.indirect2 = 12;
    d.hard_link = 3;
    cache.write_u8(2, 127, 0x55);
    cache.write_u8(2, 256, 0x66);
    d.store(&mut cache, 2, 128);
    let mut s = [0u8; 512];
    cache.read_bytes(2, 0, &mut s, 0, 512);
    assert_eq!(&s[128..132], &[4, 3, 2, 1]);
    assert_eq!(&s[132..136], &[7, 0, 0, 0]);
    assert_eq!(&s[236..240], &[0xdd, 0xcc, 0xbb, 0xaa]);
    assert_eq!(&s[240..244], &[11, 0, 0, 0]);
    assert_eq!(&s[244..248], &[12, 0, 0, 0]);
    assert_eq!(&s[248..252], &[3, 0, 0, 0]);
    assert_eq!(&s[252..256], &[1, 0, 0, 0]);
    // the neighbours are untouched
    assert_eq!(s[127], 0x55);
    assert_eq!(s[256], 0x66);
    let back = DiskInode::load(&mut cache, 2, 128);
    assert_eq!(back.size, d.size);
    assert_eq!(back.direct, d.direct);
    assert_eq!(back.indirect1, 11);
    assert_eq!(back.indirect2, 12);
    assert_eq!(back.hard_link, 3);
    assert!(back.is_dir());
    assert!(!back.is_file());
    let mut smaller = back;
    smaller.decrease_size(0x01020201);
    assert_eq!(smaller.size, 0x01020201);
    assert_eq!(smaller.direct, back.direct);
}

struct Lcg(u64);

impl Lcg {
    fn next(&mut self, bound: usize) -> usize {
        self.0 = self.0.wrapping_mul(6364136223846793005).wrapping_add(1442695040888963407);
        ((self.0 >> 33) as usize) % bound
    }
}

#[test]
fn many_operations_agree_with_a_plain_model() {
    let (mut fs, root) = fresh_fs(4096);
    let free0 = fs.free_data_blocks();
    // name -> inode number, inode number -> bytes
    let mut names: Vec<(String, u32)> = Vec::new();
    let mut files: std::collections::BTreeMap<u32, Vec<u8>> = std::collections::BTreeMap::new();
    let mut rng = Lcg(7);
    for step in 0..400 {
        let name = format!("n{}", rng.next(12));
        let known = names.iter().position(|(n, _)| *n == name);
        match rng.next(6) {
            0 => {
                let made = root.create(&mut fs, &name);
                assert_eq!(made.is_none(), known.is_some());
                if let Some(inode) = made {
                    assert!(!files.contains_key(&inode.inode_id) || files[&inode.inode_id].is_empty());
                    files.insert(inode.inode_id, Vec::new());
                    names.push((name, inode.inode_id));
                }
            }
            1 | 2 => {
                if let Some(k) = known {
                    let id = names[k].1;
                    let inode = root.find(&mut fs, &name).unwrap();
                    assert_eq!(inode.inode_id, id);
                    let old_len = files[&id].len();
                    let offset = rng.next(old_len + 1);
                    let len = rng.next(3000);
                    let data: Vec<u8> = (0..len).map(|i| (i + step) as u8).collect();
                    assert_eq!(inode.write_at(&mut fs, offset, &data), len);
                    let bytes = files.get_mut(&id).unwrap();
                    if bytes.len() < offset + len {
                        bytes.resize(offset + len, 0);
                    }
                    bytes[offset..offset + len].copy_from_slice(&data);
                }
            }
            3 => {
                let other = format!("n{}", rng.next(12));
                let linked = root.link(&mut fs, &name, &other);
                assert_eq!(linked.is_some(), known.is_some());
                if let Some(k) = known {
                    let id = names[k].1;
                    names.push((other, id));
                }
            }
            4 => {
                // the directory keeps its blocks: an entry that is alone in the
                // directory's last block stays
                if (names.len() + 15) / 16 == (names.len() + 14) / 16 || known.is_none() {
                    let removed = root.unlink(&mut fs, &name);
                    assert_eq!(removed.is_some(), known.is_some());
                    if let Some(k) = known {
                        let id = names[k].1;
                        names.swap_remove(k);
                        if !names.iter().any(|(_, i)| *i == id) {
                            files.insert(id, Vec::new());
                        }
                    }
                }
            }
            _ => {
                if let Some(k) = known {
                    let inode = root.find(&mut fs, &name).unwrap();
                    inode.clear(&mut fs);
                    files.insert(names[k].1, Vec::new());
                }
            }
        }
        // the directory lists the names in the model's order
        let listed = root.ls(&mut fs);
        let want: Vec<String> = names.iter().map(|(n, _)| n.clone()).collect();
        assert_eq!(listed, want);
        assert_eq!(record(&mut fs, &root).size as usize, 32 * names.len());
        let mut used_blocks = DiskInode::total_blocks(32 * names.len() as u32) as usize;
        for (id, bytes) in &files {
            used_blocks += DiskInode::total_blocks(bytes.len() as u32) as usize;
            let links = names.iter().filter(|(_, i)| i == id).count();
            if let Some((n, _)) = names.iter().find(|(_, i)| i == id) {
                // a name may be in the directory twice: it resolves to the first
                let first = names.iter().find(|(m, _)| m == n).unwrap().1;
                let inode = root.find(&mut fs, n).unwrap();
                assert_eq!(inode.inode_id, first);
            }
            let pos = fs.get_disk_inode_pos(*id);
            let inode = Inode::new(pos.0, pos.1, *id);
            assert_eq!(inode.stat(&mut fs).1 as usize, links);
            assert_eq!(inode.read_all(&mut fs).len(), bytes.len());
        }
        assert_eq!(fs.free_data_blocks(), free0 - used_blocks);
    }
    // what was written and never overwritten by a growth gap reads back
    for (id, bytes) in &files {
        let pos = fs.get_disk_inode_pos(*id);
        let inode = Inode::new(pos.0, pos.1, *id);
        assert_eq!(inode.read_all(&mut fs), *bytes);
    }
}
