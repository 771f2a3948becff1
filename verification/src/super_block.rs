//! The first sector of the device: the magic number and the sizes of the five
//! regions that follow it.

use crate::block_cache::BlockCacheManager;
use crate::block_dev::BlockDevice;
use crate::codec::{le_u32, lemma_put_frame, lemma_put_get, put_u32};
use crate::layout::EFS_MAGIC;
use vstd::prelude::*;

verus! {

/// The geometry of a filesystem, as sector 0 records it.
#[derive(Clone, Copy, Debug)]
pub struct SuperBlock {
    pub magic: u32,
    pub total_blocks: u32,
    pub inode_bitmap_blocks: u32,
    pub inode_area_blocks: u32,
    pub data_bitmap_blocks: u32,
    pub data_area_blocks: u32,
}

impl SuperBlock {
    /// The superblock that the first 24 bytes of a sector stand for.
    pub open spec fn decode(blk: Seq<u8>) -> SuperBlock {
        SuperBlock {
            magic: le_u32(blk, 0),
            total_blocks: le_u32(blk, 4),
            inode_bitmap_blocks: le_u32(blk, 8),
            inode_area_blocks: le_u32(blk, 12),
            data_bitmap_blocks: le_u32(blk, 16),
            data_area_blocks: le_u32(blk, 20),
        }
    }

    /// `blk` with its first 24 bytes replaced by this superblock.
    pub open spec fn encode_over(&self, blk: Seq<u8>) -> Seq<u8> {
        put_u32(
            put_u32(
                put_u32(
                    put_u32(put_u32(put_u32(blk, 0, self.magic), 4, self.total_blocks), 8, self.inode_bitmap_blocks),
                    12,
                    self.inode_area_blocks,
                ),
                16,
                self.data_bitmap_blocks,
            ),
            20,
            self.data_area_blocks,
        )
    }

    /// The magic number is the filesystem's.
    pub open spec fn spec_is_valid(&self) -> bool {
        self.magic == EFS_MAGIC
    }

    /// The five regions and the superblock make up the device: the regions
    /// follow each other without gap, there is an inode slot for every bit of
    /// the inode bitmap and a bit for every block of the data area, and every
    /// bit position of the two bitmaps fits in 32 bits.
    pub open spec fn geometry_ok(&self) -> bool {
        &&& self.spec_is_valid()
        &&& 1 + self.inode_bitmap_blocks + self.inode_area_blocks + self.data_bitmap_blocks
            + self.data_area_blocks == self.total_blocks
        &&& 1 <= self.inode_bitmap_blocks <= 1048575
        &&& self.data_bitmap_blocks <= 1048575
        &&& self.inode_area_blocks * 4 == self.inode_bitmap_blocks * 4096
        &&& self.data_area_blocks <= self.data_bitmap_blocks * 4096
    }

    /// First sector of the inode area.
    pub open spec fn inode_area_start(&self) -> int {
        1 + self.inode_bitmap_blocks
    }

    /// First sector of the data bitmap.
    pub open spec fn data_bitmap_start(&self) -> int {
        1 + self.inode_bitmap_blocks + self.inode_area_blocks
    }

    /// First sector of the data area.
    pub open spec fn data_area_start(&self) -> int {
        1 + self.inode_bitmap_blocks + self.inode_area_blocks + self.data_bitmap_blocks
    }

    /// Number of inode slots.
    pub open spec fn inode_count(&self) -> int {
        self.inode_bitmap_blocks * 4096
    }

    /// What was written over a sector is what is read from it.
    pub proof fn lemma_encode_decode(&self, blk: Seq<u8>)
        requires
            blk.len() == 512,
        ensures
            Self::decode(self.encode_over(blk)) == *self,
            self.encode_over(blk).len() == 512,
            forall|i: int| 24 <= i < 512 ==> self.encode_over(blk)[i] == blk[i],
    {
        let b1 = put_u32(blk, 0, self.magic);
        let b2 = put_u32(b1, 4, self.total_blocks);
        let b3 = put_u32(b2, 8, self.inode_bitmap_blocks);
        let b4 = put_u32(b3, 12, self.inode_area_blocks);
        let b5 = put_u32(b4, 16, self.data_bitmap_blocks);
        let b6 = put_u32(b5, 20, self.data_area_blocks);
        lemma_put_get(blk, 0, self.magic);
        lemma_put_get(b1, 4, self.total_blocks);
        lemma_put_get(b2, 8, self.inode_bitmap_blocks);
        lemma_put_get(b3, 12, self.inode_area_blocks);
        lemma_put_get(b4, 16, self.data_bitmap_blocks);
        lemma_put_get(b5, 20, self.data_area_blocks);
        lemma_put_frame(b1, 4, self.total_blocks, 0);
        lemma_put_frame(b2, 8, self.inode_bitmap_blocks, 0);
        lemma_put_frame(b2, 8, self.inode_bitmap_blocks, 4);
        lemma_put_frame(b3, 12, self.inode_area_blocks, 0);
        lemma_put_frame(b3, 12, self.inode_area_blocks, 4);
        lemma_put_frame(b3, 12, self.inode_area_blocks, 8);
        lemma_put_frame(b4, 16, self.data_bitmap_blocks, 0);
        lemma_put_frame(b4, 16, self.data_bitmap_blocks, 4);
        lemma_put_frame(b4, 16, self.data_bitmap_blocks, 8);
        lemma_put_frame(b4, 16, self.data_bitmap_blocks, 12);
        lemma_put_frame(b5, 20, self.data_area_blocks, 0);
        lemma_put_frame(b5, 20, self.data_area_blocks, 4);
        lemma_put_frame(b5, 20, self.data_area_blocks, 8);
        lemma_put_frame(b5, 20, self.data_area_blocks, 12);
        lemma_put_frame(b5, 20, self.data_area_blocks, 16);
    }

    /// A superblock with the filesystem's magic number and the given sizes.
    pub fn initialize(
        &mut self,
        total_blocks: u32,
        inode_bitmap_blocks: u32,
        inode_area_blocks: u32,
        data_bitmap_blocks: u32,
        data_area_blocks: u32,
    )
        ensures
            *final(self) == (SuperBlock {
                magic: EFS_MAGIC,
                total_blocks,
                inode_bitmap_blocks,
                inode_area_blocks,
                data_bitmap_blocks,
                data_area_blocks,
            }),
    {
        self.magic = EFS_MAGIC;
        self.total_blocks = total_blocks;
        self.inode_bitmap_blocks = inode_bitmap_blocks;
        self.inode_area_blocks = inode_area_blocks;
        self.data_bitmap_blocks = data_bitmap_blocks;
        self.data_area_blocks = data_area_blocks;
    }

    /// Whether the magic number is the filesystem's.
    pub fn is_valid(&self) -> (r: bool)
        ensures
            r == self.spec_is_valid(),
    {
        self.magic == EFS_MAGIC
    }

    /// Whether the geometry is consistent.
    pub fn check_geometry(&self) -> (r: bool)
        ensures
            r == self.geometry_ok(),
    {
        let sum: u64 = 1 + self.inode_bitmap_blocks as u64 + self.inode_area_blocks as u64
            + self.data_bitmap_blocks as u64 + self.data_area_blocks as u64;
        self.magic == EFS_MAGIC && sum == self.total_blocks as u64 && self.inode_bitmap_blocks >= 1
            && self.inode_bitmap_blocks <= 1048575 && self.data_bitmap_blocks <= 1048575
            && self.inode_area_blocks as u64 * 4 == self.inode_bitmap_blocks as u64 * 4096
            && self.data_area_blocks as u64 <= self.data_bitmap_blocks as u64 * 4096
    }

    /// Reads the superblock from sector 0.
    pub fn load<D: BlockDevice>(cache: &mut BlockCacheManager<D>) -> (sb: SuperBlock)
        requires
            old(cache).wf(),
            old(cache)@.len() > 0,
        ensures
            final(cache).wf(),
            final(cache)@ == old(cache)@,
            sb == Self::decode(old(cache)@[0]),
    {
        let magic = cache.read_u32(0, 0);
        let total_blocks = cache.read_u32(0, 4);
        let inode_bitmap_blocks = cache.read_u32(0, 8);
        let inode_area_blocks = cache.read_u32(0, 12);
        let data_bitmap_blocks = cache.read_u32(0, 16);
        let data_area_blocks = cache.read_u32(0, 20);
        SuperBlock {
            magic,
            total_blocks,
            inode_bitmap_blocks,
            inode_area_blocks,
            data_bitmap_blocks,
            data_area_blocks,
        }
    }

    /// Writes the superblock over the first 24 bytes of sector 0.
    pub fn store<D: BlockDevice>(&self, cache: &mut BlockCacheManager<D>)
        requires
            old(cache).wf(),
            old(cache)@.len() > 0,
        ensures
            final(cache).wf(),
            final(cache)@ == old(cache)@.update(0, self.encode_over(old(cache)@[0])),
    {
        cache.write_u32(0, 0, self.magic);
        cache.write_u32(0, 4, self.total_blocks);
        cache.write_u32(0, 8, self.inode_bitmap_blocks);
        cache.write_u32(0, 12, self.inode_area_blocks);
        cache.write_u32(0, 16, self.data_bitmap_blocks);
        cache.write_u32(0, 20, self.data_area_blocks);
        assert(cache@ =~= old(cache)@.update(0, self.encode_over(old(cache)@[0])));
    }
}

} // verus!
