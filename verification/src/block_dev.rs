//! The storage the filesystem sits on: fixed-size sectors, read and written
//! whole.

use vstd::prelude::*;

verus! {

/// A device of 512-byte sectors; reads and writes do not fail.
pub trait BlockDevice {
    /// What the device holds, sector by sector.
    spec fn sectors(&self) -> Seq<Seq<u8>>;

    /// Copies sector `block_id` into `buf`.
    fn read_block(&self, block_id: usize, buf: &mut [u8; 512])
        requires
            block_id < self.sectors().len(),
        ensures
            final(buf)@ == self.sectors()[block_id as int],
    ;

    /// Replaces sector `block_id` by `buf`; no other sector changes.
    fn write_block(&mut self, block_id: usize, buf: &[u8; 512])
        requires
            block_id < old(self).sectors().len(),
        ensures
            final(self).sectors() == old(self).sectors().update(block_id as int, buf@),
    ;
}

/// Every sector is 512 bytes long.
pub open spec fn sectors_wf(s: Seq<Seq<u8>>) -> bool {
    forall|b: int| 0 <= b < s.len() ==> (#[trigger] s[b]).len() == 512
}

/// A device kept in memory.
pub struct RamDisk {
    blocks: Vec<[u8; 512]>,
}

impl RamDisk {
    /// A device of `n` sectors, all zero.
    pub fn new(n: usize) -> (disk: RamDisk)
        ensures
            disk.sectors().len() == n,
            sectors_wf(disk.sectors()),
            forall|b: int, i: int|
                0 <= b < n && 0 <= i < 512 ==> #[trigger] disk.sectors()[b][i] == 0u8,
    {
        let mut blocks: Vec<[u8; 512]> = Vec::new();
        let mut k: usize = 0;
        while k < n
            invariant
                k <= n,
                blocks@.len() == k,
                forall|b: int, i: int|
                    0 <= b < k && 0 <= i < 512 ==> #[trigger] blocks@[b]@[i] == 0u8,
            decreases n - k,
        {
            blocks.push([0u8; 512]);
            k += 1;
        }
        RamDisk { blocks }
    }

    /// Number of sectors.
    pub fn num_blocks(&self) -> (n: usize)
        ensures
            n == self.sectors().len(),
    {
        self.blocks.len()
    }
}

impl BlockDevice for RamDisk {
    closed spec fn sectors(&self) -> Seq<Seq<u8>> {
        Seq::new(self.blocks@.len(), |b: int| self.blocks@[b]@)
    }

    fn read_block(&self, block_id: usize, buf: &mut [u8; 512]) {
        *buf = self.blocks[block_id];
    }

    fn write_block(&mut self, block_id: usize, buf: &[u8; 512]) {
        self.blocks[block_id] = *buf;
        assert(self.sectors() =~= old(self).sectors().update(block_id as int, buf@));
    }
}

} // verus!
