//! The filesystem handle: the geometry, the two bitmaps and the cache in front
//! of the device, with the allocation of inode slots and data blocks.

use crate::bitmap::Bitmap;
use crate::block_cache::BlockCacheManager;
use crate::block_dev::{sectors_wf, BlockDevice};
use crate::image::{
    allocated, data_bitmap, free_data, free_inodes, in_data_area, ino_ok, inode_bitmap, inode_block,
    inode_offset, layout_wf, lemma_geometry, lemma_inode_pos, lemma_regions, struct_wf, used,
};
use crate::namespace::{dir_wf};
use crate::steps::{blocks_taken, lemma_take_none, lemma_take_one};
use crate::disk_inode::DiskInodeType;
use crate::image::{inode_of, lemma_blank};
use crate::namespace::{lemma_dir_fresh, root_entries};
use crate::super_block::SuperBlock;
use crate::vfs::Inode;
use vstd::prelude::*;

verus! {

/// A mounted filesystem.
pub struct EasyFileSystem<D: BlockDevice> {
    /// The cache through which every sector is read and written.
    pub cache: BlockCacheManager<D>,
    /// The sizes of the regions, as sector 0 records them.
    pub geometry: SuperBlock,
    pub inode_bitmap: Bitmap,
    pub data_bitmap: Bitmap,
    pub inode_area_start_block: u32,
    pub data_area_start_block: u32,
}

impl<D: BlockDevice> EasyFileSystem<D> {
    /// The disk as seen through the cache.
    pub open spec fn disk(&self) -> Seq<Seq<u8>> {
        self.cache@
    }

    /// The handle agrees with the geometry, and the geometry with sector 0.
    pub open spec fn base_wf(&self) -> bool {
        &&& self.cache.wf()
        &&& layout_wf(self.geometry, self.cache@)
        &&& self.inode_bitmap == inode_bitmap(self.geometry)
        &&& self.data_bitmap == data_bitmap(self.geometry)
        &&& self.inode_area_start_block == self.geometry.inode_area_start()
        &&& self.data_area_start_block == self.geometry.data_area_start()
    }

    /// The handle is consistent and the image it is mounted on is sound.
    pub open spec fn wf(&self) -> bool {
        &&& self.base_wf()
        &&& struct_wf(self.geometry, self.cache@)
        &&& dir_wf(self.geometry, self.cache@)
    }

    /// The device is current: it holds what the cache presents, and no
    /// resident sector is left marked modified.
    pub open spec fn synced(&self) -> bool {
        &&& self.cache.raw() == self.disk()
        &&& forall|b: int| !#[trigger] self.cache.is_dirty(b)
    }

    /// The handle is the same but for what the cache holds.
    pub open spec fn same_handle(&self, other: &Self) -> bool {
        &&& self.geometry == other.geometry
        &&& self.inode_bitmap == other.inode_bitmap
        &&& self.data_bitmap == other.data_bitmap
        &&& self.inode_area_start_block == other.inode_area_start_block
        &&& self.data_area_start_block == other.data_area_start_block
    }

    /// The sector and the byte offset at which inode `inode_id` is stored.
    pub fn get_disk_inode_pos(&self, inode_id: u32) -> (pos: (u32, usize))
        requires
            self.base_wf(),
            ino_ok(self.geometry, inode_id as int),
        ensures
            pos.0 == inode_block(self.geometry, inode_id as int),
            pos.1 == inode_offset(inode_id as int),
            pos.0 < self.disk().len(),
            pos.1 + 128 <= 512,
    {
        proof {
            lemma_inode_pos(self.geometry, self.cache@, inode_id as int);
            lemma_geometry(self.geometry);
        }
        let block_id = self.inode_area_start_block + inode_id / 4;
        (block_id, (inode_id % 4) as usize * 128)
    }

    /// The sector of block `data_block_id` of the data area.
    pub fn get_data_block_id(&self, data_block_id: u32) -> (b: u32)
        requires
            self.base_wf(),
            data_block_id < self.geometry.data_area_blocks,
        ensures
            b == self.geometry.data_area_start() + data_block_id,
            in_data_area(self.geometry, b as int),
    {
        proof {
            lemma_geometry(self.geometry);
        }
        self.data_area_start_block + data_block_id
    }

    /// Number of free blocks in the data area.
    pub fn free_data_blocks(&mut self) -> (n: usize)
        requires
            old(self).base_wf(),
        ensures
            final(self).base_wf(),
            final(self).same_handle(old(self)),
            final(self).disk() == old(self).disk(),
            n == free_data(old(self).geometry, old(self).disk()),
    {
        proof {
            lemma_regions(self.geometry, self.cache@);
        }
        self.data_bitmap.count_free(&mut self.cache, self.geometry.data_area_blocks as usize)
    }

    /// Number of free inode slots.
    pub fn free_inode_slots(&mut self) -> (n: usize)
        requires
            old(self).base_wf(),
        ensures
            final(self).base_wf(),
            final(self).same_handle(old(self)),
            final(self).disk() == old(self).disk(),
            n == free_inodes(old(self).geometry, old(self).disk()),
    {
        proof {
            lemma_regions(self.geometry, self.cache@);
            lemma_geometry(self.geometry);
        }
        let limit = self.inode_bitmap.maximum();
        self.inode_bitmap.count_free(&mut self.cache, limit)
    }

    /// Takes the free inode slot with the least number and marks it used.
    pub fn alloc_inode(&mut self) -> (ino: u32)
        requires
            old(self).base_wf(),
            free_inodes(old(self).geometry, old(self).disk()) > 0,
        ensures
            final(self).base_wf(),
            final(self).same_handle(old(self)),
            ino_ok(old(self).geometry, ino as int),
            !used(old(self).geometry, old(self).disk(), ino as int),
            forall|j: int| 0 <= j < ino ==> used(old(self).geometry, old(self).disk(), j),
            final(self).disk() == old(self).inode_bitmap.with_bit(old(self).disk(), ino as int, true),
    {
        let ghost sb = self.geometry;
        let ghost d0 = self.cache@;
        proof {
            lemma_regions(sb, d0);
            lemma_geometry(sb);
            self.inode_bitmap.lemma_free_below_bounds(d0, sb.inode_count());
        }
        let r = self.inode_bitmap.allocate(&mut self.cache);
        match r {
            Some(pos) => {
                proof {
                    self.inode_bitmap.lemma_with_bit(d0, pos as int, true);
                    assert(self.cache@[0] == d0[0]);
                }
                pos as u32
            },
            None => {
                proof {
                    let q = choose|q: int|
                        0 <= q < sb.inode_count() && !self.inode_bitmap.is_set(d0, q);
                    assert(self.inode_bitmap.is_set(d0, q));
                }
                0
            },
        }
    }

    /// Takes the free block of the data area with the least number, marks it
    /// allocated and returns its sector. What the block holds is left as it
    /// is.
    pub fn alloc_data(&mut self) -> (b: u32)
        requires
            old(self).base_wf(),
            free_data(old(self).geometry, old(self).disk()) > 0,
        ensures
            final(self).base_wf(),
            final(self).same_handle(old(self)),
            in_data_area(old(self).geometry, b as int),
            !allocated(old(self).geometry, old(self).disk(), b as int),
            forall|c: int|
                old(self).geometry.data_area_start() <= c < b ==> allocated(
                    old(self).geometry,
                    old(self).disk(),
                    c,
                ),
            final(self).disk() == old(self).data_bitmap.with_bit(
                old(self).disk(),
                b - old(self).geometry.data_area_start(),
                true,
            ),
            free_data(old(self).geometry, final(self).disk()) == free_data(
                old(self).geometry,
                old(self).disk(),
            ) - 1,
    {
        let ghost sb = self.geometry;
        let ghost d0 = self.cache@;
        proof {
            lemma_regions(sb, d0);
            lemma_geometry(sb);
            self.data_bitmap.lemma_free_below_bounds(d0, sb.data_area_blocks as int);
        }
        let ghost w = choose|q: int| 0 <= q < sb.data_area_blocks && !self.data_bitmap.is_set(d0, q);
        let r = self.data_bitmap.allocate(&mut self.cache);
        match r {
            Some(pos) => {
                proof {
                    if pos > w {
                        assert(self.data_bitmap.is_set(d0, w));
                    }
                    self.data_bitmap.lemma_with_bit(d0, pos as int, true);
                    assert(self.cache@[0] == d0[0]);
                    self.data_bitmap.lemma_free_below_flip(
                        d0,
                        self.cache@,
                        pos as int,
                        sb.data_area_blocks as int,
                    );
                    assert forall|c: int| sb.data_area_start() <= c < sb.data_area_start()
                        + pos implies allocated(sb, d0, c) by {
                        assert(self.data_bitmap.is_set(d0, c - sb.data_area_start()));
                    }
                }
                self.data_area_start_block + pos as u32
            },
            None => {
                proof {
                    assert(self.data_bitmap.is_set(d0, w));
                }
                0
            },
        }
    }

    /// Fills the block with zeros and marks it free.
    pub fn dealloc_data(&mut self, block_id: u32)
        requires
            old(self).base_wf(),
            in_data_area(old(self).geometry, block_id as int),
            allocated(old(self).geometry, old(self).disk(), block_id as int),
        ensures
            final(self).base_wf(),
            final(self).same_handle(old(self)),
            final(self).disk() == old(self).data_bitmap.with_bit(
                old(self).disk().update(block_id as int, Seq::new(512, |i: int| 0u8)),
                block_id - old(self).geometry.data_area_start(),
                false,
            ),
            free_data(old(self).geometry, final(self).disk()) == free_data(
                old(self).geometry,
                old(self).disk(),
            ) + 1,
    {
        let ghost sb = self.geometry;
        let ghost d0 = self.cache@;
        proof {
            lemma_regions(sb, d0);
            lemma_geometry(sb);
        }
        self.cache.zero_block(block_id as usize);
        let ghost d1 = self.cache@;
        let pos = (block_id - self.data_area_start_block) as usize;
        proof {
            assert(sectors_wf(d1)) by {
                assert forall|b: int| 0 <= b < d1.len() implies (#[trigger] d1[b]).len() == 512 by {
                    assert(d0[b].len() == 512);
                }
            }
            self.data_bitmap.lemma_same_bits(d0, d1);
            assert(self.data_bitmap.is_set(d1, pos as int));
            self.data_bitmap.lemma_with_bit(d1, pos as int, false);
        }
        self.data_bitmap.deallocate(&mut self.cache, pos);
        proof {
            let d2 = self.cache@;
            assert(d2[0] == d0[0]);
            self.data_bitmap.lemma_free_below_flip(d1, d2, pos as int, sb.data_area_blocks as int);
        }
    }

    /// Takes `n` free blocks of the data area, each time the one with the
    /// least number, and returns their sectors in the order taken.
    pub fn alloc_blocks(&mut self, n: u32) -> (v: Vec<u32>)
        requires
            old(self).base_wf(),
            free_data(old(self).geometry, old(self).disk()) >= n,
            forall|q: int|
                old(self).geometry.data_area_blocks <= q < old(self).geometry.data_bitmap_blocks
                    * 4096 ==> !#[trigger] data_bitmap(old(self).geometry).is_set(
                    old(self).disk(),
                    q,
                ),
        ensures
            final(self).base_wf(),
            final(self).same_handle(old(self)),
            v@.len() == n,
            blocks_taken(old(self).geometry, old(self).disk(), final(self).disk(), v@),
            forall|x: int, y: int| 0 <= x < y < n ==> v@[x] < v@[y],
            forall|x: int, c: int|
                0 <= x < n && in_data_area(old(self).geometry, c) && c < v@[x] && !allocated(
                    old(self).geometry,
                    old(self).disk(),
                    c,
                ) ==> crate::image::seq_has(v@, c),
            free_data(old(self).geometry, final(self).disk()) == free_data(
                old(self).geometry,
                old(self).disk(),
            ) - n,
    {
        let ghost sb = self.geometry;
        let ghost d0 = self.cache@;
        let mut v: Vec<u32> = Vec::new();
        let mut k: u32 = 0;
        proof {
            lemma_take_none(sb, d0);
            assert(v@ =~= Seq::<u32>::empty());
        }
        while k < n
            invariant
                k <= n,
                v@.len() == k,
                self.base_wf(),
                self.same_handle(old(self)),
                sb == old(self).geometry,
                d0 == old(self).disk(),
                layout_wf(sb, d0),
                blocks_taken(sb, d0, self.disk(), v@),
                forall|x: int, y: int| 0 <= x < y < k ==> v@[x] < v@[y],
                forall|x: int, c: int|
                    0 <= x < k && in_data_area(sb, c) && c < v@[x] && !allocated(sb, d0, c)
                        ==> crate::image::seq_has(v@, c),
                free_data(sb, self.disk()) == free_data(sb, d0) - k,
                free_data(sb, d0) >= n,
            decreases n - k,
        {
            let ghost dk = self.disk();
            let ghost vk = v@;
            let b = self.alloc_data();
            v.push(b);
            proof {
                lemma_take_one(sb, d0, dk, vk, b);
                crate::steps::lemma_take_order(sb, d0, dk, vk, b);
            }
            k += 1;
        }
        v
    }

    /// The sizes of the regions of a new filesystem of `total_blocks` sectors
    /// with `inode_bitmap_blocks` sectors of inode bitmap: an inode slot for
    /// every bit of that bitmap, and the rest split between the data bitmap
    /// and the data area so that every data block has a bit.
    pub open spec fn fresh_geometry(total_blocks: u32, inode_bitmap_blocks: u32) -> SuperBlock {
        let inode_area = inode_bitmap_blocks * 1024;
        let data_total = total_blocks - 1 - inode_bitmap_blocks - inode_area;
        let data_bitmap = (data_total + 4096) / 4097;
        SuperBlock {
            magic: crate::layout::EFS_MAGIC,
            total_blocks,
            inode_bitmap_blocks,
            inode_area_blocks: inode_area as u32,
            data_bitmap_blocks: data_bitmap as u32,
            data_area_blocks: (data_total - data_bitmap) as u32,
        }
    }

    /// The geometry of a new filesystem is consistent.
    pub proof fn lemma_fresh_geometry(total_blocks: u32, inode_bitmap_blocks: u32)
        requires
            1 <= inode_bitmap_blocks <= 1048575,
            1 + inode_bitmap_blocks * 1025 <= total_blocks,
        ensures
            Self::fresh_geometry(total_blocks, inode_bitmap_blocks).geometry_ok(),
            Self::fresh_geometry(total_blocks, inode_bitmap_blocks).inode_area_blocks
                == inode_bitmap_blocks * 1024,
            Self::fresh_geometry(total_blocks, inode_bitmap_blocks).data_bitmap_blocks == (
            total_blocks - 1 - inode_bitmap_blocks * 1025 + 4096) / 4097,
            Self::fresh_geometry(total_blocks, inode_bitmap_blocks).data_bitmap_blocks
                + Self::fresh_geometry(total_blocks, inode_bitmap_blocks).data_area_blocks
                == total_blocks - 1 - inode_bitmap_blocks * 1025,
    {
        let ib = inode_bitmap_blocks as int;
        let data_total = total_blocks - 1 - ib * 1025;
        let db = (data_total + 4096) / 4097;
        assert(0 <= db <= data_total);
        assert(data_total - db <= db * 4096);
    }

    /// Fills the first `total_blocks` sectors with zeros.
    fn wipe(cache: &mut BlockCacheManager<D>, total_blocks: u32)
        requires
            old(cache).wf(),
            total_blocks <= old(cache)@.len(),
        ensures
            final(cache).wf(),
            final(cache)@.len() == old(cache)@.len(),
            forall|x: int, i: int|
                0 <= x < total_blocks && 0 <= i < 512 ==> #[trigger] final(cache)@[x][i] == 0u8,
    {
        let mut b: u32 = 0;
        while b < total_blocks
            invariant
                b <= total_blocks,
                total_blocks <= cache@.len(),
                cache.wf(),
                cache@.len() == old(cache)@.len(),
                forall|x: int, i: int| 0 <= x < b && 0 <= i < 512 ==> #[trigger] cache@[x][i] == 0u8,
            decreases total_blocks - b,
        {
            cache.zero_block(b as usize);
            b += 1;
        }
    }

    /// Builds the handle for geometry `sb` over a wiped device and writes
    /// the superblock: no inode slot is in use and no data block allocated.
    fn mount_blank(cache: BlockCacheManager<D>, sb: SuperBlock) -> (fs: Self)
        requires
            cache.wf(),
            sb.geometry_ok(),
            sb.total_blocks <= cache@.len(),
            forall|x: int, i: int|
                0 <= x < sb.total_blocks && 0 <= i < 512 ==> #[trigger] cache@[x][i] == 0u8,
        ensures
            fs.base_wf(),
            fs.geometry == sb,
            struct_wf(sb, fs.disk()),
            forall|j: int| ino_ok(sb, j) ==> !#[trigger] used(sb, fs.disk(), j),
            free_data(sb, fs.disk()) == sb.data_area_blocks,
            free_inodes(sb, fs.disk()) == sb.inode_count(),
    {
        let mut cache = cache;
        let ghost dz = cache@;
        proof {
            cache.lemma_view_shape();
            sb.lemma_encode_decode(dz[0]);
            lemma_geometry(sb);
        }
        sb.store(&mut cache);
        let fs = EasyFileSystem {
            cache,
            geometry: sb,
            inode_bitmap: Bitmap::new(1, sb.inode_bitmap_blocks as usize),
            data_bitmap: Bitmap::new(
                (1 + sb.inode_bitmap_blocks + sb.inode_area_blocks) as usize,
                sb.data_bitmap_blocks as usize,
            ),
            inode_area_start_block: 1 + sb.inode_bitmap_blocks,
            data_area_start_block: 1 + sb.inode_bitmap_blocks + sb.inode_area_blocks
                + sb.data_bitmap_blocks,
        };
        proof {
            let d1 = fs.cache@;
            fs.cache.lemma_view_shape();
            assert(layout_wf(sb, d1));
            assert forall|x: int, i: int|
                1 <= x < sb.inode_area_start() && 0 <= i < 512 implies #[trigger] d1[x][i]
                == 0u8 by {
                assert(dz[x][i] == 0u8);
            }
            assert forall|x: int, i: int|
                sb.data_bitmap_start() <= x < sb.data_area_start() && 0 <= i < 512 implies #[trigger] d1[x][i]
                == 0u8 by {
                assert(dz[x][i] == 0u8);
            }
            lemma_blank(sb, d1);
        }
        fs
    }

    /// Makes a new filesystem on the first `total_blocks` sectors of
    /// `device`: fills them with zeros, writes the superblock, and makes
    /// inode 0 the empty root directory. The device is current when it
    /// returns.
    pub fn create(device: D, total_blocks: u32, inode_bitmap_blocks: u32) -> (fs: Self)
        requires
            sectors_wf(device.sectors()),
            total_blocks <= device.sectors().len(),
            1 <= inode_bitmap_blocks <= 1048575,
            1 + inode_bitmap_blocks * 1025 <= total_blocks,
        ensures
            fs.wf(),
            fs.geometry == Self::fresh_geometry(total_blocks, inode_bitmap_blocks),
            fs.cache.raw() == fs.disk(),
            used(fs.geometry, fs.disk(), 0),
            inode_of(fs.geometry, fs.disk(), 0).size == 0,
            inode_of(fs.geometry, fs.disk(), 0).type_ == DiskInodeType::Directory,
            root_entries(fs.geometry, fs.disk()).len() == 0,
            forall|j: int| ino_ok(fs.geometry, j) && j != 0 ==> !#[trigger] used(
                fs.geometry,
                fs.disk(),
                j,
            ),
            free_data(fs.geometry, fs.disk()) == fs.geometry.data_area_blocks,
            free_inodes(fs.geometry, fs.disk()) == fs.geometry.inode_count() - 1,
    {
        let mut cache = BlockCacheManager::new(device);
        Self::wipe(&mut cache, total_blocks);
        proof {
            Self::lemma_fresh_geometry(total_blocks, inode_bitmap_blocks);
        }
        let inode_area_blocks: u32 = inode_bitmap_blocks * 1024;
        let data_total: u32 = total_blocks - 1 - inode_bitmap_blocks - inode_area_blocks;
        let data_bitmap_blocks: u32 = ((data_total as u64 + 4096) / 4097) as u32;
        let data_area_blocks: u32 = data_total - data_bitmap_blocks;
        let mut sb = SuperBlock {
            magic: 0,
            total_blocks: 0,
            inode_bitmap_blocks: 0,
            inode_area_blocks: 0,
            data_bitmap_blocks: 0,
            data_area_blocks: 0,
        };
        sb.initialize(
            total_blocks,
            inode_bitmap_blocks,
            inode_area_blocks,
            data_bitmap_blocks,
            data_area_blocks,
        );
        let mut fs = Self::mount_blank(cache, sb);
        let ghost d1 = fs.cache@;
        let root = Inode::new_inode(&mut fs, DiskInodeType::Directory);
        proof {
            let d2 = fs.cache@;
            assert(root.inode_id == 0) by {
                if root.inode_id != 0 {
                    assert(used(sb, d1, 0));
                }
            }
            assert forall|j: int| ino_ok(sb, j) && j != 0 implies !#[trigger] used(sb, d2, j) by {
                assert(used(sb, d2, j) == used(sb, d1, j));
            }
            lemma_dir_fresh(sb, d2);
        }
        fs.cache.sync_all();
        fs
    }

    /// Mounts the filesystem that `device` holds. The superblock must be
    /// valid; nothing is written. The filesystem is sound if the image on the
    /// device is.
    pub fn open(device: D) -> (fs: Self)
        requires
            sectors_wf(device.sectors()),
            device.sectors().len() >= 1,
            SuperBlock::decode(device.sectors()[0]).geometry_ok(),
            SuperBlock::decode(device.sectors()[0]).total_blocks <= device.sectors().len(),
        ensures
            fs.base_wf(),
            fs.geometry == SuperBlock::decode(device.sectors()[0]),
            fs.disk() == device.sectors(),
            struct_wf(fs.geometry, device.sectors()) && dir_wf(fs.geometry, device.sectors())
                ==> fs.wf(),
    {
        let mut cache = BlockCacheManager::new(device);
        let sb = SuperBlock::load(&mut cache);
        proof {
            lemma_geometry(sb);
        }
        let fs = EasyFileSystem {
            cache,
            geometry: sb,
            inode_bitmap: Bitmap::new(1, sb.inode_bitmap_blocks as usize),
            data_bitmap: Bitmap::new(
                (1 + sb.inode_bitmap_blocks + sb.inode_area_blocks) as usize,
                sb.data_bitmap_blocks as usize,
            ),
            inode_area_start_block: 1 + sb.inode_bitmap_blocks,
            data_area_start_block: 1 + sb.inode_bitmap_blocks + sb.inode_area_blocks
                + sb.data_bitmap_blocks,
        };
        fs
    }

    /// A handle to the root directory, inode 0.
    pub fn root_inode(&self) -> (root: Inode)
        requires
            self.base_wf(),
        ensures
            root.inode_id == 0,
            used(self.geometry, self.disk(), 0) ==> root.valid(self),
            self.wf() ==> root.valid(self) && root.record(self).type_ == DiskInodeType::Directory,
    {
        proof {
            lemma_geometry(self.geometry);
            if self.wf() {
                crate::namespace::lemma_root_dir(self.geometry, self.disk());
            }
        }
        let (block_id, block_offset) = self.get_disk_inode_pos(0);
        Inode::new(block_id, block_offset, 0)
    }

    /// Whether `inode` is a handle to an inode in use of this filesystem.
    pub fn holds(&mut self, inode: &Inode) -> (r: bool)
        requires
            old(self).base_wf(),
        ensures
            final(self).base_wf(),
            final(self).same_handle(old(self)),
            final(self).disk() == old(self).disk(),
            r == inode.valid(old(self)),
    {
        proof {
            lemma_regions(self.geometry, self.cache@);
            lemma_geometry(self.geometry);
        }
        if inode.inode_id as usize >= self.inode_bitmap.maximum() {
            return false;
        }
        let (block_id, block_offset) = self.get_disk_inode_pos(inode.inode_id);
        if inode.block_id != block_id as usize || inode.block_offset != block_offset {
            return false;
        }
        self.inode_bitmap.get(&mut self.cache, inode.inode_id as usize)
    }
}

} // verus!
