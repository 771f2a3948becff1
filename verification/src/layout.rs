//! The on-disk geometry: sector size, inode and directory-entry sizes, and the
//! arithmetic that turns a file size into a number of blocks.

use vstd::prelude::*;

verus! {

/// Bytes in a sector, the unit of every disk transfer.
pub const BLOCK_SZ: usize = 512;

/// Bits in one bitmap sector.
pub const BLOCK_BITS: usize = 4096;

/// Magic number that marks a formatted device.
pub const EFS_MAGIC: u32 = 0x3b800001;

/// Block numbers held in the inode itself.
pub const INODE_DIRECT_COUNT: usize = 27;

/// Block numbers held in one index block.
pub const INODE_INDIRECT1_COUNT: usize = 128;

/// Data blocks reachable through the double-indirect block.
pub const INODE_INDIRECT2_COUNT: usize = 16384;

/// First logical block that lies behind the single-indirect block.
pub const DIRECT_BOUND: usize = 27;

/// First logical block that lies behind the double-indirect block.
pub const INDIRECT1_BOUND: usize = 155;

/// Most data blocks one inode can address.
pub const MAX_DATA_BLOCKS: usize = 16539;

/// Largest file size in bytes.
pub const MAX_FILE_SIZE: u32 = 8467968;

/// Bytes of one inode on disk.
pub const INODE_SZ: usize = 128;

/// Inodes in one sector.
pub const INODES_PER_BLOCK: usize = 4;

/// Longest file name in bytes.
pub const NAME_LENGTH_LIMIT: usize = 27;

/// Bytes of one directory entry.
pub const DIRENT_SZ: usize = 32;

/// Data blocks needed to hold `size` bytes.
pub open spec fn spec_data_blocks(size: int) -> int {
    (size + 511) / 512
}

/// Index blocks needed beside `n` data blocks: the single-indirect block once
/// the direct slots are full, then the double-indirect block and one index
/// block for every 128 data blocks behind it.
pub open spec fn spec_index_blocks(n: int) -> int {
    if n <= 27 {
        0
    } else if n <= 155 {
        1
    } else {
        2 + (n - 155 + 127) / 128
    }
}

/// Data and index blocks together for `n` data blocks.
pub open spec fn spec_blocks_for(n: int) -> int {
    n + spec_index_blocks(n)
}

/// Data and index blocks together for a file of `size` bytes.
pub open spec fn spec_total_blocks(size: int) -> int {
    spec_blocks_for(spec_data_blocks(size))
}

/// Position, in allocation order, of logical data block `k` among the blocks
/// of an inode.
pub open spec fn slot_pos(k: int) -> int {
    if k < 27 {
        k
    } else if k < 155 {
        k + 1
    } else {
        k + 3 + (k - 155) / 128
    }
}

/// Number of bytes that a transfer of `len` bytes at `offset` moves to or
/// from a file of `size` bytes: none at or past the end, else as many as lie
/// before it.
pub open spec fn read_len(size: int, offset: int, len: int) -> int {
    if offset >= size {
        0
    } else if len <= size - offset {
        len
    } else {
        size - offset
    }
}

/// The block count grows with the size.
pub proof fn lemma_total_blocks_monotone(a: int, b: int)
    requires
        0 <= a <= b,
    ensures
        spec_data_blocks(a) <= spec_data_blocks(b),
        spec_total_blocks(a) <= spec_total_blocks(b),
        spec_data_blocks(a) <= spec_total_blocks(a),
{
}

/// A data block's position is the number of blocks allocated before it.
pub proof fn lemma_slot_pos(k: int)
    requires
        0 <= k,
    ensures
        slot_pos(k) + 1 == spec_blocks_for(k + 1),
        spec_blocks_for(k) <= slot_pos(k),
        slot_pos(k) - spec_blocks_for(k) == if k == 27 {
            1int
        } else if k == 155 {
            2int
        } else if k > 155 && (k - 155) % 128 == 0 {
            1int
        } else {
            0int
        },
{
}

/// Data blocks needed to hold `size` bytes.
pub fn data_blocks_of(size: u32) -> (n: u32)
    ensures
        n == spec_data_blocks(size as int),
        size <= MAX_FILE_SIZE ==> n <= MAX_DATA_BLOCKS,
{
    let full: u32 = size / 512;
    if size % 512 == 0 {
        full
    } else {
        full + 1
    }
}

/// Data and index blocks together for `n` data blocks.
pub fn blocks_for(n: u32) -> (t: u32)
    requires
        n <= MAX_DATA_BLOCKS,
    ensures
        t == spec_blocks_for(n as int),
{
    if n <= 27 {
        n
    } else if n <= 155 {
        n + 1
    } else {
        n + 2 + (n - 155 + 127) / 128
    }
}

} // verus!
