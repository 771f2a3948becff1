//! Allocation bitmaps: a run of sectors in which each bit stands for one inode
//! slot or one data block.

use crate::block_cache::BlockCacheManager;
use crate::block_dev::{sectors_wf, BlockDevice};
use vstd::prelude::*;

verus! {

/// Bit `k` of `byte`.
pub open spec fn bit_of(byte: u8, k: u8) -> bool {
    byte & (1u8 << k) != 0
}

/// `byte` with bit `k` set to `v`.
pub open spec fn with_bit_of(byte: u8, k: u8, v: bool) -> u8 {
    if v {
        byte | (1u8 << k)
    } else {
        byte & !(1u8 << k)
    }
}

/// Only bit `k` changes, and clearing a bit that was just set gives the byte
/// back.
pub proof fn lemma_byte_bits(byte: u8, k: u8, j: u8, v: bool)
    requires
        k < 8,
        j < 8,
    ensures
        bit_of(with_bit_of(byte, k, v), j) == if j == k {
            v
        } else {
            bit_of(byte, j)
        },
        bit_of(byte, k) == v ==> with_bit_of(byte, k, v) == byte,
        with_bit_of(with_bit_of(byte, k, !v), k, v) == with_bit_of(byte, k, v),
{
    assert(k < 8 && j < 8 ==> ((byte | (1u8 << k)) & (1u8 << j) != 0) == (if j == k {
        true
    } else {
        byte & (1u8 << j) != 0
    })) by (bit_vector);
    assert(k < 8 && j < 8 ==> ((byte & !(1u8 << k)) & (1u8 << j) != 0) == (if j == k {
        false
    } else {
        byte & (1u8 << j) != 0
    })) by (bit_vector);
    assert(k < 8 && byte & (1u8 << k) != 0 ==> byte | (1u8 << k) == byte) by (bit_vector);
    assert(k < 8 && !(byte & (1u8 << k) != 0) ==> byte & !(1u8 << k) == byte) by (bit_vector);
    assert(k < 8 ==> (byte & !(1u8 << k)) | (1u8 << k) == byte | (1u8 << k)) by (bit_vector);
    assert(k < 8 ==> (byte | (1u8 << k)) & !(1u8 << k) == byte & !(1u8 << k)) by (bit_vector);
}

/// A byte with every bit set is 255, and only that one.
pub proof fn lemma_full_byte(byte: u8)
    ensures
        byte == 255 <==> (forall|k: u8| k < 8 ==> bit_of(byte, k)),
{
    assert(byte == 255 ==> (forall|k: u8| k < 8 ==> byte & (1u8 << k) != 0)) by (bit_vector);
    if forall|k: u8| k < 8 ==> bit_of(byte, k) {
        assert(bit_of(byte, 0) && bit_of(byte, 1) && bit_of(byte, 2) && bit_of(byte, 3) && bit_of(
            byte,
            4,
        ) && bit_of(byte, 5) && bit_of(byte, 6) && bit_of(byte, 7));
        assert((byte & (1u8 << 0u8) != 0 && byte & (1u8 << 1u8) != 0 && byte & (1u8 << 2u8) != 0
            && byte & (1u8 << 3u8) != 0 && byte & (1u8 << 4u8) != 0 && byte & (1u8 << 5u8) != 0
            && byte & (1u8 << 6u8) != 0 && byte & (1u8 << 7u8) != 0) ==> byte == 255)
            by (bit_vector);
    }
}

/// The lowest clear bit of a byte that is not 255.
pub fn lowest_clear(byte: u8) -> (k: u8)
    requires
        byte != 255,
    ensures
        k < 8,
        !bit_of(byte, k),
        forall|j: u8| j < k ==> bit_of(byte, j),
{
    let mut k: u8 = 0;
    proof {
        lemma_full_byte(byte);
    }
    while byte & (1u8 << k) != 0
        invariant
            k < 8,
            exists|j: u8| j < 8 && !bit_of(byte, j),
            forall|j: u8| j < k ==> bit_of(byte, j),
        decreases 8 - k,
    {
        proof {
            let j = choose|j: u8| j < 8 && !bit_of(byte, j);
            assert(j != k);
            if j < k {
                assert(bit_of(byte, j));
            }
        }
        k += 1;
    }
    k
}

/// A bitmap of `blocks` sectors that starts at sector `start_block_id`.
#[derive(Clone, Copy, Debug)]
pub struct Bitmap {
    pub start_block_id: usize,
    pub blocks: usize,
}

impl Bitmap {
    /// Number of bits in the bitmap.
    pub open spec fn spec_maximum(&self) -> int {
        self.blocks * 4096
    }

    /// The bitmap's sectors lie on the disk.
    pub open spec fn wf(&self, disk: Seq<Seq<u8>>) -> bool {
        &&& sectors_wf(disk)
        &&& self.start_block_id + self.blocks <= disk.len()
        &&& self.start_block_id + self.blocks <= usize::MAX
        &&& self.blocks * 4096 <= usize::MAX
    }

    /// Bit `pos` is set: the object it stands for is allocated.
    #[verifier::opaque]
    pub open spec fn is_set(&self, disk: Seq<Seq<u8>>, pos: int) -> bool {
        bit_of(disk[self.start_block_id + pos / 4096][(pos % 4096) / 8], (pos % 8) as u8)
    }

    /// The disk with bit `pos` set to `v` and nothing else changed.
    pub open spec fn with_bit(&self, disk: Seq<Seq<u8>>, pos: int, v: bool) -> Seq<Seq<u8>> {
        let b = self.start_block_id + pos / 4096;
        let i = (pos % 4096) / 8;
        disk.update(b, disk[b].update(i, with_bit_of(disk[b][i], (pos % 8) as u8, v)))
    }

    /// Number of clear bits among the first `n`.
    pub open spec fn free_below(&self, disk: Seq<Seq<u8>>, n: int) -> int
        decreases n,
    {
        if n <= 0 {
            0
        } else {
            self.free_below(disk, n - 1) + if self.is_set(disk, n - 1) {
                0int
            } else {
                1int
            }
        }
    }

    /// Bit `j` of byte `i` of the bitmap's sector `block` is bit
    /// `block * 4096 + i * 8 + j` of the bitmap.
    pub proof fn lemma_byte_of(&self, disk: Seq<Seq<u8>>, block: int, i: int, j: u8)
        requires
            0 <= block,
            0 <= i < 512,
            j < 8,
        ensures
            self.is_set(disk, block * 4096 + i * 8 + j) == bit_of(
                disk[self.start_block_id + block][i],
                j,
            ),
    {
        reveal(Bitmap::is_set);
        let q = block * 4096 + i * 8 + j;
        assert(q / 4096 == block && (q % 4096) / 8 == i && q % 8 == j);
    }

    /// If every bit before byte `i` of sector `block` is set and the first
    /// `k` bits of that byte are set, every bit before bit `k` of that byte
    /// is set.
    pub proof fn lemma_set_up_to(&self, disk: Seq<Seq<u8>>, block: int, i: int, byte: u8, k: u8)
        requires
            0 <= block,
            0 <= i < 512,
            k <= 8,
            byte == disk[self.start_block_id + block][i],
            forall|q: int| 0 <= q < block * 4096 + i * 8 ==> self.is_set(disk, q),
            forall|j: u8| j < k ==> bit_of(byte, j),
        ensures
            forall|q: int| 0 <= q < block * 4096 + i * 8 + k ==> self.is_set(disk, q),
    {
        assert forall|q: int| 0 <= q < block * 4096 + i * 8 + k implies self.is_set(disk, q) by {
            if q >= block * 4096 + i * 8 {
                let j = (q - block * 4096 - i * 8) as u8;
                self.lemma_byte_of(disk, block, i, j);
                assert(bit_of(byte, j));
            }
        }
    }

    /// Setting or clearing one bit changes that bit and no other, and no
    /// sector outside the bitmap.
    pub proof fn lemma_with_bit(&self, disk: Seq<Seq<u8>>, pos: int, v: bool)
        requires
            self.wf(disk),
            0 <= pos < self.spec_maximum(),
        ensures
            self.wf(self.with_bit(disk, pos, v)),
            self.with_bit(disk, pos, v).len() == disk.len(),
            forall|q: int|
                0 <= q < self.spec_maximum() ==> #[trigger] self.is_set(
                    self.with_bit(disk, pos, v),
                    q,
                ) == if q == pos {
                    v
                } else {
                    self.is_set(disk, q)
                },
            forall|b: int|
                0 <= b < disk.len() && !(self.start_block_id <= b < self.start_block_id
                    + self.blocks) ==> #[trigger] self.with_bit(disk, pos, v)[b] == disk[b],
            self.is_set(disk, pos) == v ==> self.with_bit(disk, pos, v) == disk,
    {
        reveal(Bitmap::is_set);
        let d2 = self.with_bit(disk, pos, v);
        let b = self.start_block_id + pos / 4096;
        let i = (pos % 4096) / 8;
        assert(disk[b].len() == 512);
        assert forall|x: int| 0 <= x < d2.len() implies (#[trigger] d2[x]).len() == 512 by {
            assert(disk[x].len() == 512);
        }
        assert forall|q: int| 0 <= q < self.spec_maximum() implies #[trigger] self.is_set(d2, q)
            == if q == pos {
            v
        } else {
            self.is_set(disk, q)
        } by {
            let bq = self.start_block_id + q / 4096;
            let iq = (q % 4096) / 8;
            assert(disk[bq].len() == 512);
            lemma_byte_bits(disk[b][i], (pos % 8) as u8, (q % 8) as u8, v);
            if bq == b && iq == i {
                assert(q / 8 == pos / 8);
            }
        }
        lemma_byte_bits(disk[b][i], (pos % 8) as u8, (pos % 8) as u8, v);
        if self.is_set(disk, pos) == v {
            assert(disk[b].update(i, disk[b][i]) =~= disk[b]);
            assert(d2 =~= disk);
        }
    }

    /// Allocating and then freeing: setting a clear bit and clearing it again
    /// gives back the same disk, byte for byte; likewise clearing a set bit
    /// and setting it again.
    pub proof fn lemma_flip_back(&self, disk: Seq<Seq<u8>>, pos: int, v: bool)
        requires
            self.wf(disk),
            0 <= pos < self.spec_maximum(),
            self.is_set(disk, pos) == v,
        ensures
            self.with_bit(self.with_bit(disk, pos, !v), pos, v) == disk,
    {
        reveal(Bitmap::is_set);
        let b = self.start_block_id + pos / 4096;
        let i = (pos % 4096) / 8;
        assert(disk[b].len() == 512);
        lemma_byte_bits(disk[b][i], (pos % 8) as u8, (pos % 8) as u8, v);
        let d1 = self.with_bit(disk, pos, !v);
        let d2 = self.with_bit(d1, pos, v);
        assert(d2[b] =~= disk[b]);
        assert(d2 =~= disk);
    }

    /// The bits are read from the bitmap's own sectors only.
    pub proof fn lemma_same_bits(&self, d1: Seq<Seq<u8>>, d2: Seq<Seq<u8>>)
        requires
            self.wf(d1),
            forall|b: int|
                self.start_block_id <= b < self.start_block_id + self.blocks ==> #[trigger] d2[b]
                    == d1[b],
        ensures
            forall|q: int|
                0 <= q < self.spec_maximum() ==> #[trigger] self.is_set(d2, q) == self.is_set(d1, q),
            forall|n: int|
                0 <= n <= self.spec_maximum() ==> #[trigger] self.free_below(d2, n)
                    == self.free_below(d1, n),
    {
        assert forall|q: int| 0 <= q < self.spec_maximum() implies #[trigger] self.is_set(d2, q)
            == self.is_set(d1, q) by {
            reveal(Bitmap::is_set);
            let b = self.start_block_id + q / 4096;
            assert(d2[b] == d1[b]);
        }
        assert forall|n: int| 0 <= n <= self.spec_maximum() implies #[trigger] self.free_below(
            d2,
            n,
        ) == self.free_below(d1, n) by {
            self.lemma_free_below_same(d2, d1, n);
        }
    }

    /// In sectors of zeros every bit is clear.
    pub proof fn lemma_zero_clear(&self, disk: Seq<Seq<u8>>)
        requires
            self.wf(disk),
            forall|b: int, i: int|
                self.start_block_id <= b < self.start_block_id + self.blocks && 0 <= i < 512
                    ==> #[trigger] disk[b][i] == 0u8,
        ensures
            forall|q: int| 0 <= q < self.spec_maximum() ==> !#[trigger] self.is_set(disk, q),
            forall|n: int|
                0 <= n <= self.spec_maximum() ==> #[trigger] self.free_below(disk, n) == n,
    {
        assert forall|q: int| 0 <= q < self.spec_maximum() implies !#[trigger] self.is_set(
            disk,
            q,
        ) by {
            reveal(Bitmap::is_set);
            let b = self.start_block_id + q / 4096;
            let i = (q % 4096) / 8;
            assert(disk[b][i] == 0u8);
            let k = (q % 8) as u8;
            assert(0u8 & (1u8 << k) == 0u8) by (bit_vector);
        }
        assert forall|n: int| 0 <= n <= self.spec_maximum() implies #[trigger] self.free_below(
            disk,
            n,
        ) == n by {
            self.lemma_free_all(disk, n);
        }
    }

    /// If every bit below `n` is clear, `n` bits are free.
    pub proof fn lemma_free_all(&self, disk: Seq<Seq<u8>>, n: int)
        requires
            0 <= n,
            forall|q: int| 0 <= q < n ==> !#[trigger] self.is_set(disk, q),
        ensures
            self.free_below(disk, n) == n,
        decreases n,
    {
        if n > 0 {
            self.lemma_free_all(disk, n - 1);
        }
    }

    /// Bits that agree below `n` give the same count.
    pub proof fn lemma_free_below_same(&self, d1: Seq<Seq<u8>>, d2: Seq<Seq<u8>>, n: int)
        requires
            forall|q: int| 0 <= q < n ==> self.is_set(d1, q) == self.is_set(d2, q),
        ensures
            self.free_below(d1, n) == self.free_below(d2, n),
        decreases n,
    {
        if n > 0 {
            self.lemma_free_below_same(d1, d2, n - 1);
        }
    }

    /// Flipping one bit below `n` changes the count of clear bits by one.
    pub proof fn lemma_free_below_flip(
        &self,
        d1: Seq<Seq<u8>>,
        d2: Seq<Seq<u8>>,
        pos: int,
        n: int,
    )
        requires
            0 <= pos < n,
            forall|q: int| 0 <= q < n && q != pos ==> self.is_set(d1, q) == self.is_set(d2, q),
            self.is_set(d1, pos) != self.is_set(d2, pos),
        ensures
            self.free_below(d2, n) == self.free_below(d1, n) + if self.is_set(d2, pos) {
                -1int
            } else {
                1int
            },
        decreases n,
    {
        if pos == n - 1 {
            self.lemma_free_below_same(d1, d2, n - 1);
        } else {
            self.lemma_free_below_flip(d1, d2, pos, n - 1);
        }
    }

    /// The count is between 0 and `n`, is positive exactly when some bit below
    /// `n` is clear, and grows with `n`.
    pub proof fn lemma_free_below_bounds(&self, disk: Seq<Seq<u8>>, n: int)
        requires
            0 <= n,
        ensures
            0 <= self.free_below(disk, n) <= n,
            self.free_below(disk, n) > 0 <==> exists|q: int| 0 <= q < n && !self.is_set(disk, q),
        decreases n,
    {
        if n > 0 {
            self.lemma_free_below_bounds(disk, n - 1);
            if self.free_below(disk, n - 1) > 0 {
                let q = choose|q: int| 0 <= q < n - 1 && !self.is_set(disk, q);
                assert(0 <= q < n && !self.is_set(disk, q));
            } else if !self.is_set(disk, n - 1) {
                assert(0 <= n - 1 < n && !self.is_set(disk, n - 1));
            } else {
                assert forall|q: int| 0 <= q < n implies self.is_set(disk, q) by {
                    if q < n - 1 {
                        assert(!(0 <= q < n - 1 && !self.is_set(disk, q)));
                    }
                }
            }
        }
    }

    /// A bitmap over the sectors from `start_block_id` on.
    pub fn new(start_block_id: usize, blocks: usize) -> (b: Bitmap)
        ensures
            b.start_block_id == start_block_id,
            b.blocks == blocks,
    {
        Bitmap { start_block_id, blocks }
    }

    /// Number of bits in the bitmap.
    pub fn maximum(&self) -> (n: usize)
        requires
            self.blocks * 4096 <= usize::MAX,
        ensures
            n == self.spec_maximum(),
    {
        self.blocks * 4096
    }

    /// Whether bit `pos` is set.
    pub fn get<D: BlockDevice>(&self, cache: &mut BlockCacheManager<D>, pos: usize) -> (r: bool)
        requires
            old(cache).wf(),
            self.wf(old(cache)@),
            pos < self.spec_maximum(),
        ensures
            final(cache).wf(),
            final(cache)@ == old(cache)@,
            r == self.is_set(old(cache)@, pos as int),
    {
        proof {
            reveal(Bitmap::is_set);
        }
        let byte = cache.read_u8(self.start_block_id + pos / 4096, (pos % 4096) / 8);
        let k: u8 = (pos % 8) as u8;
        byte & (1u8 << k) != 0
    }

    /// Sets the first clear bit, in the order of the bit positions, and returns
    /// its position; `None`, and nothing changes, if every bit is set.
    pub fn allocate<D: BlockDevice>(&self, cache: &mut BlockCacheManager<D>) -> (r: Option<usize>)
        requires
            old(cache).wf(),
            self.wf(old(cache)@),
        ensures
            final(cache).wf(),
            match r {
                Some(pos) => {
                    &&& pos < self.spec_maximum()
                    &&& !self.is_set(old(cache)@, pos as int)
                    &&& forall|q: int| 0 <= q < pos ==> self.is_set(old(cache)@, q)
                    &&& final(cache)@ == self.with_bit(old(cache)@, pos as int, true)
                },
                None => {
                    &&& forall|q: int| 0 <= q < self.spec_maximum() ==> self.is_set(old(cache)@, q)
                    &&& final(cache)@ == old(cache)@
                },
            },
    {
        let ghost disk = cache@;
        let mut block: usize = 0;
        while block < self.blocks
            invariant
                block <= self.blocks,
                cache.wf(),
                cache@ == disk,
                disk == old(cache)@,
                self.wf(disk),
                forall|q: int| 0 <= q < block * 4096 ==> self.is_set(disk, q),
            decreases self.blocks - block,
        {
            let mut i: usize = 0;
            while i < 512
                invariant
                    block < self.blocks,
                    i <= 512,
                    cache.wf(),
                    cache@ == disk,
                    disk == old(cache)@,
                    self.wf(disk),
                    forall|q: int| 0 <= q < block * 4096 + i * 8 ==> self.is_set(disk, q),
                decreases 512 - i,
            {
                let byte = cache.read_u8(self.start_block_id + block, i);
                if byte != 255 {
                    let k = lowest_clear(byte);
                    let pos: usize = block * 4096 + i * 8 + k as usize;
                    proof {
                        assert(pos / 4096 == block && (pos % 4096) / 8 == i && pos % 8 == k);
                        self.lemma_byte_of(disk, block as int, i as int, k);
                        self.lemma_set_up_to(disk, block as int, i as int, byte, k);
                    }
                    cache.write_u8(self.start_block_id + block, i, byte | (1u8 << k));
                    return Some(pos);
                }
                proof {
                    lemma_full_byte(byte);
                    self.lemma_set_up_to(disk, block as int, i as int, byte, 8);
                }
                i += 1;
            }
            block += 1;
        }
        None
    }

    /// Clears bit `pos`, which must be set.
    pub fn deallocate<D: BlockDevice>(&self, cache: &mut BlockCacheManager<D>, pos: usize)
        requires
            old(cache).wf(),
            self.wf(old(cache)@),
            pos < self.spec_maximum(),
            self.is_set(old(cache)@, pos as int),
        ensures
            final(cache).wf(),
            final(cache)@ == self.with_bit(old(cache)@, pos as int, false),
    {
        proof {
            reveal(Bitmap::is_set);
        }
        let block = self.start_block_id + pos / 4096;
        let i = (pos % 4096) / 8;
        let k: u8 = (pos % 8) as u8;
        let byte = cache.read_u8(block, i);
        cache.write_u8(block, i, byte & !(1u8 << k));
    }

    /// Counts the clear bits among the first `limit`.
    pub fn count_free<D: BlockDevice>(&self, cache: &mut BlockCacheManager<D>, limit: usize) -> (n:
        usize)
        requires
            old(cache).wf(),
            self.wf(old(cache)@),
            limit <= self.spec_maximum(),
        ensures
            final(cache).wf(),
            final(cache)@ == old(cache)@,
            n == self.free_below(old(cache)@, limit as int),
    {
        let ghost disk = cache@;
        let mut n: usize = 0;
        let mut pos: usize = 0;
        while pos < limit
            invariant
                pos <= limit,
                limit <= self.spec_maximum(),
                cache.wf(),
                cache@ == disk,
                disk == old(cache)@,
                self.wf(disk),
                n == self.free_below(disk, pos as int),
                n <= pos,
            decreases limit - pos,
        {
            if !self.get(cache, pos) {
                n += 1;
            }
            pos += 1;
        }
        n
    }
}

} // verus!
