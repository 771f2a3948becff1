//! The inode as it is kept on disk, and the algorithms that map a file offset
//! to a block, grow a file, empty it, and copy bytes in and out.

use crate::block_cache::BlockCacheManager;
use crate::block_dev::{sectors_wf, BlockDevice};
use crate::codec::{
    le_u32, lemma_put_bytes, lemma_put_frame, lemma_put_get, lemma_word_of_bytes, put_u32, splice,
    u32_byte,
};
use crate::layout::{
    blocks_for, data_blocks_of, lemma_slot_pos, lemma_total_blocks_monotone, read_len, slot_pos, spec_blocks_for, spec_data_blocks,
    spec_total_blocks, MAX_DATA_BLOCKS, MAX_FILE_SIZE,
};
use vstd::prelude::*;

verus! {

broadcast use {vstd::slice::group_slice_axioms, vstd::array::group_array_axioms};

/// What an inode stands for.
#[derive(Clone, Copy, PartialEq, Eq, Debug, Structural)]
pub enum DiskInodeType {
    File,
    Directory,
}

/// The inode record: 128 bytes on disk, four to a sector.
#[derive(Clone, Copy, Debug)]
pub struct DiskInode {
    /// Length of the file in bytes.
    pub size: u32,
    /// Blocks of the first 27 logical blocks.
    pub direct: [u32; 27],
    /// Index block for logical blocks 27 to 154.
    pub indirect1: u32,
    /// Index block whose words name the index blocks for logical blocks from
    /// 155 on.
    pub indirect2: u32,
    /// Number of directory entries that name this inode.
    pub hard_link: u32,
    pub type_: DiskInodeType,
}

/// Word `i` of sector `block`.
pub open spec fn word_at(disk: Seq<Seq<u8>>, block: int, i: int) -> u32 {
    le_u32(disk[block], 4 * i)
}

/// Block `b` stands at a position of `all` that holds an index block.
pub open spec fn index_hit(all: Seq<u32>, b: int) -> bool {
    exists|p: int| 0 <= p < all.len() && is_index_pos(p) && #[trigger] all[p] == b
}

/// Position `p` in allocation order holds an index block rather than data.
pub open spec fn is_index_pos(p: int) -> bool {
    p == 27 || p == 156 || (p >= 157 && (p - 157) % 129 == 0)
}

/// The direct slots read from the first `n` words after the size.
pub open spec fn direct_of(bytes: Seq<u8>, n: nat) -> [u32; 27]
    decreases n,
{
    if n == 0 {
        vstd::array::spec_array_fill_for_copy_type(0u32)
    } else {
        vstd::array::spec_array_update(
            direct_of(bytes, (n - 1) as nat),
            n - 1,
            le_u32(bytes, 4 * (n as int)),
        )
    }
}

/// Slot `i` comes from word `i + 1` of the record.
pub proof fn lemma_direct_of(bytes: Seq<u8>, n: nat)
    requires
        n <= 27,
    ensures
        forall|i: int| 0 <= i < n ==> (#[trigger] direct_of(bytes, n)@[i]) == le_u32(bytes, 4 * i + 4),
    decreases n,
{
    if n > 0 {
        lemma_direct_of(bytes, (n - 1) as nat);
        let prev = direct_of(bytes, (n - 1) as nat);
        let v = le_u32(bytes, 4 * (n as int));
        vstd::array::axiom_spec_array_update(prev, n - 1, v);
        assert(direct_of(bytes, n)@ == prev@.update(n - 1, v));
        assert forall|i: int| 0 <= i < n implies (#[trigger] direct_of(bytes, n)@[i]) == le_u32(
            bytes,
            4 * i + 4,
        ) by {
            if i < n - 1 {
                assert(prev@[i] == le_u32(bytes, 4 * i + 4));
            }
        }
    }
}

impl DiskInode {
    /// Word `w` of the 32 words of the record: the size, the 27 direct
    /// slots, the two index pointers, the link count, and the kind (0 for a
    /// file, 1 for a directory).
    pub open spec fn word(&self, w: int) -> u32 {
        if w == 0 {
            self.size
        } else if w <= 27 {
            self.direct[w - 1]
        } else if w == 28 {
            self.indirect1
        } else if w == 29 {
            self.indirect2
        } else if w == 30 {
            self.hard_link
        } else {
            match self.type_ {
                DiskInodeType::File => 0,
                DiskInodeType::Directory => 1,
            }
        }
    }

    /// The 128 bytes of the record, each word little-endian.
    pub open spec fn encode(&self) -> Seq<u8> {
        Seq::new(128, |i: int| u32_byte(self.word(i / 4), i % 4))
    }

    /// The record that 128 bytes stand for. A kind word other than 1 reads as
    /// a file.
    pub open spec fn decode(bytes: Seq<u8>) -> DiskInode {
        DiskInode {
            size: le_u32(bytes, 0),
            direct: direct_of(bytes, 27),
            indirect1: le_u32(bytes, 112),
            indirect2: le_u32(bytes, 116),
            hard_link: le_u32(bytes, 120),
            type_: if le_u32(bytes, 124) == 1 {
                DiskInodeType::Directory
            } else {
                DiskInodeType::File
            },
        }
    }

    /// Word `w` of the encoded record is word `w` of the record.
    pub proof fn lemma_encoded_word(&self, w: int)
        requires
            0 <= w < 32,
        ensures
            le_u32(self.encode(), 4 * w) == self.word(w),
    {
        let e = self.encode();
        let v = self.word(w);
        assert((4 * w) / 4 == w && (4 * w + 1) / 4 == w && (4 * w + 2) / 4 == w && (4 * w + 3) / 4
            == w);
        assert(e[4 * w] == u32_byte(v, 0));
        assert(e[4 * w + 1] == u32_byte(v, 1));
        assert(e[4 * w + 2] == u32_byte(v, 2));
        assert(e[4 * w + 3] == u32_byte(v, 3));
        lemma_word_of_bytes(e, 4 * w, v);
    }

    /// Decoding what was encoded gives the record back.
    pub proof fn lemma_encode_decode(&self)
        ensures
            Self::decode(self.encode()) == *self,
            self.encode().len() == 128,
    {
        let e = self.encode();
        let d = Self::decode(e);
        lemma_direct_of(e, 27);
        self.lemma_encoded_word(0);
        self.lemma_encoded_word(28);
        self.lemma_encoded_word(29);
        self.lemma_encoded_word(30);
        self.lemma_encoded_word(31);
        assert forall|i: int| 0 <= i < 27 implies d.direct[i] == self.direct[i] by {
            self.lemma_encoded_word(i + 1);
            assert(d.direct@[i] == le_u32(e, 4 * i + 4));
        }
        assert(d.direct =~= self.direct);
        assert(d.size == self.size);
        assert(d.indirect1 == self.indirect1);
        assert(d.indirect2 == self.indirect2);
        assert(d.hard_link == self.hard_link);
        assert(d.type_ == self.type_);
    }

    /// Data blocks the file occupies.
    pub open spec fn spec_data_blocks(&self) -> int {
        spec_data_blocks(self.size as int)
    }

    /// The block that holds logical block `k`: a direct slot, a word of the
    /// single-indirect block, or a word of the index block that the
    /// double-indirect block names.
    pub open spec fn block_of(&self, disk: Seq<Seq<u8>>, k: int) -> u32 {
        if k < 27 {
            self.direct[k]
        } else if k < 155 {
            word_at(disk, self.indirect1 as int, k - 27)
        } else {
            word_at(
                disk,
                word_at(disk, self.indirect2 as int, (k - 155) / 128) as int,
                (k - 155) % 128,
            )
        }
    }

    /// The block at position `p` of the inode's blocks in allocation order:
    /// the direct blocks, the single-indirect block and its data blocks, the
    /// double-indirect block, then each second-level index block followed by
    /// its data blocks.
    #[verifier::opaque]
    pub open spec fn owned_at(&self, disk: Seq<Seq<u8>>, p: int) -> u32 {
        if p < 27 {
            self.direct[p]
        } else if p == 27 {
            self.indirect1
        } else if p < 156 {
            word_at(disk, self.indirect1 as int, p - 28)
        } else if p == 156 {
            self.indirect2
        } else if (p - 157) % 129 == 0 {
            word_at(disk, self.indirect2 as int, (p - 157) / 129)
        } else {
            word_at(
                disk,
                word_at(disk, self.indirect2 as int, (p - 157) / 129) as int,
                (p - 157) % 129 - 1,
            )
        }
    }

    /// The first `t` blocks of the inode in allocation order.
    pub open spec fn owned_prefix(&self, disk: Seq<Seq<u8>>, t: int) -> Seq<u32> {
        Seq::new(t as nat, |p: int| self.owned_at(disk, p))
    }

    /// Every data and index block of the inode, in allocation order.
    pub open spec fn owned(&self, disk: Seq<Seq<u8>>) -> Seq<u32> {
        self.owned_prefix(disk, spec_total_blocks(self.size as int))
    }

    /// The bytes of the file.
    pub open spec fn content(&self, disk: Seq<Seq<u8>>) -> Seq<u8> {
        Seq::new(
            self.size as nat,
            |i: int| disk[self.block_of(disk, i / 512) as int][i % 512],
        )
    }

    /// The size is within what three levels address, and every block of the
    /// inode is a sector of the disk.
    pub open spec fn fits(&self, disk: Seq<Seq<u8>>) -> bool {
        &&& self.size <= MAX_FILE_SIZE
        &&& sectors_wf(disk)
        &&& forall|p: int|
            0 <= p < spec_total_blocks(self.size as int) ==> #[trigger] self.owned_at(disk, p)
                < disk.len()
    }

    /// No block occurs twice among the inode's blocks.
    pub open spec fn distinct(&self, disk: Seq<Seq<u8>>) -> bool {
        forall|p: int, q: int|
            0 <= p < q < spec_total_blocks(self.size as int) ==> #[trigger] self.owned_at(disk, p)
                != #[trigger] self.owned_at(disk, q)
    }

    /// A logical block is found at its position in allocation order.
    pub proof fn lemma_block_of(&self, disk: Seq<Seq<u8>>, k: int)
        requires
            0 <= k,
        ensures
            self.block_of(disk, k) == self.owned_at(disk, slot_pos(k)),
            !is_index_pos(slot_pos(k)),
            k < self.spec_data_blocks() ==> slot_pos(k) < spec_total_blocks(self.size as int),
    {
        reveal(DiskInode::owned_at);
        if k >= 155 {
            let j = k - 155;
            let p = slot_pos(k);
            assert(p - 157 == 129 * (j / 128) + (j % 128) + 1);
            assert((p - 157) / 129 == j / 128);
            assert((p - 157) % 129 == j % 128 + 1);
        }
    }

    /// What a position reads depends only on the inode and on the index blocks
    /// before it: if those are the same on two disks, so is the block found.
    pub proof fn lemma_owned_frame(&self, d1: Seq<Seq<u8>>, d2: Seq<Seq<u8>>, t: int)
        requires
            forall|p: int|
                0 <= p < t && is_index_pos(p) ==> d1[#[trigger] self.owned_at(d1, p) as int]
                    == d2[self.owned_at(d1, p) as int],
        ensures
            forall|p: int| 0 <= p < t ==> #[trigger] self.owned_at(d2, p) == self.owned_at(d1, p),
    {
        reveal(DiskInode::owned_at);
        assert forall|p: int| 0 <= p < t implies #[trigger] self.owned_at(d2, p) == self.owned_at(
            d1,
            p,
        ) by {
            if p >= 28 && p < 156 {
                assert(is_index_pos(27));
                assert(d1[self.owned_at(d1, 27) as int] == d2[self.owned_at(d1, 27) as int]);
            } else if p >= 157 {
                assert(is_index_pos(156));
                assert(d1[self.owned_at(d1, 156) as int] == d2[self.owned_at(d1, 156) as int]);
                let t2 = (p - 157) / 129;
                let pi = 157 + 129 * t2;
                assert(is_index_pos(pi));
                assert(self.owned_at(d1, pi) == word_at(d1, self.indirect2 as int, t2));
                assert(d1[self.owned_at(d1, pi) as int] == d2[self.owned_at(d1, pi) as int]);
            }
        }
    }

    /// Block `b` is one of the inode's blocks.
    pub open spec fn owns(&self, disk: Seq<Seq<u8>>, b: int) -> bool {
        exists|p: int|
            0 <= p < spec_total_blocks(self.size as int) && #[trigger] self.owned_at(disk, p) == b
    }

    /// Replacing the sector of logical block `k` changes the bytes of that
    /// block of the file and nothing else of the file.
    pub proof fn lemma_write_block(&self, d1: Seq<Seq<u8>>, k: int, newblk: Seq<u8>)
        requires
            self.fits(d1),
            self.distinct(d1),
            0 <= k < self.spec_data_blocks(),
            newblk.len() == 512,
        ensures
            ({
                let d2 = d1.update(self.block_of(d1, k) as int, newblk);
                &&& forall|p: int|
                    0 <= p < spec_total_blocks(self.size as int) ==> #[trigger] self.owned_at(d2, p)
                        == self.owned_at(d1, p)
                &&& self.fits(d2)
                &&& self.distinct(d2)
                &&& self.content(d2) == Seq::new(
                    self.size as nat,
                    |i: int|
                        if i / 512 == k {
                            newblk[i % 512]
                        } else {
                            self.content(d1)[i]
                        },
                )
            }),
    {
        let t = spec_total_blocks(self.size as int);
        let b = self.block_of(d1, k) as int;
        let d2 = d1.update(b, newblk);
        self.lemma_block_of(d1, k);
        let pk = slot_pos(k);
        assert(self.owned_at(d1, pk) == b);
        assert forall|p: int| 0 <= p < t && is_index_pos(p) implies d1[#[trigger] self.owned_at(
            d1,
            p,
        ) as int] == d2[self.owned_at(d1, p) as int] by {
            if p < pk {
                assert(self.owned_at(d1, p) != self.owned_at(d1, pk));
            } else {
                assert(self.owned_at(d1, pk) != self.owned_at(d1, p));
            }
        }
        self.lemma_owned_frame(d1, d2, t);
        assert forall|x: int| 0 <= x < d2.len() implies (#[trigger] d2[x]).len() == 512 by {
            assert(d1[x].len() == 512);
        }
        assert(self.fits(d2));
        assert(self.distinct(d2)) by {
            assert forall|p: int, q: int| 0 <= p < q < t implies #[trigger] self.owned_at(d2, p)
                != #[trigger] self.owned_at(d2, q) by {
                assert(self.owned_at(d1, p) != self.owned_at(d1, q));
            }
        }
        let c2 = Seq::new(
            self.size as nat,
            |i: int|
                if i / 512 == k {
                    newblk[i % 512]
                } else {
                    self.content(d1)[i]
                },
        );
        assert forall|i: int| 0 <= i < self.size implies self.content(d2)[i] == c2[i] by {
            let ki = i / 512;
            self.lemma_block_of(d1, ki);
            self.lemma_block_of(d2, ki);
            let pi = slot_pos(ki);
            assert(self.owned_at(d2, pi) == self.owned_at(d1, pi));
            if ki != k {
                if pi < pk {
                    assert(self.owned_at(d1, pi) != self.owned_at(d1, pk));
                } else {
                    assert(pk < pi);
                    assert(self.owned_at(d1, pk) != self.owned_at(d1, pi));
                }
            }
        }
        assert(self.content(d2) =~= c2);
    }

    /// The first `t` blocks of the inode are the first `t` of `all`.
    pub open spec fn matches_prefix(&self, disk: Seq<Seq<u8>>, all: Seq<u32>, t: int) -> bool {
        forall|p: int| 0 <= p < t ==> #[trigger] self.owned_at(disk, p) == all[p]
    }

    /// `all` names sectors of a disk of `len` sectors, none of them twice.
    #[verifier::opaque]
    pub open spec fn usable(all: Seq<u32>, len: int) -> bool {
        &&& forall|p: int, q: int| 0 <= p < q < all.len() ==> all[p] != all[q]
        &&& forall|p: int| 0 <= p < all.len() ==> all[p] < len
    }

    /// Setting the pointer that position `t` reads from the inode itself (a
    /// direct slot or one of the two index pointers) fills position `t` and
    /// leaves the positions before it as they were.
    pub proof fn lemma_set_pointer(&self, after: DiskInode, disk: Seq<Seq<u8>>, all: Seq<u32>, t: int)
        requires
            0 <= t < all.len(),
            t <= 27 || t == 156,
            self.matches_prefix(disk, all, t),
            t < 27 ==> after.direct@ == self.direct@.update(t, all[t]) && after.indirect1
                == self.indirect1 && after.indirect2 == self.indirect2,
            t == 27 ==> after.direct == self.direct && after.indirect1 == all[t]
                && after.indirect2 == self.indirect2,
            t == 156 ==> after.direct == self.direct && after.indirect1 == self.indirect1
                && after.indirect2 == all[t],
        ensures
            after.matches_prefix(disk, all, t + 1),
    {
        reveal(DiskInode::owned_at);
        assert forall|p: int| 0 <= p < t + 1 implies #[trigger] after.owned_at(disk, p)
            == all[p] by {
            if p < t {
                assert(self.owned_at(disk, p) == all[p]);
            }
        }
    }

    /// Storing block number `v` in word `w` of the index block at position
    /// `px` fills position `t`, the one that reads that word, and leaves the
    /// blocks at the positions before it as they were.
    pub proof fn lemma_fill_slot(
        &self,
        disk: Seq<Seq<u8>>,
        all: Seq<u32>,
        t: int,
        px: int,
        w: int,
        v: u32,
    )
        requires
            sectors_wf(disk),
            0 <= px < t < all.len(),
            is_index_pos(px),
            0 <= w < 128,
            (px == 27 && t == 28 + w) || (px == 156 && t == 157 + 129 * w) || (px >= 157 && t == px
                + 1 + w),
            self.matches_prefix(disk, all, t),
            Self::usable(all, disk.len() as int),
        ensures
            ({
                let x = all[px] as int;
                let d2 = disk.update(x, put_u32(disk[x], 4 * w, v));
                &&& sectors_wf(d2)
                &&& d2.len() == disk.len()
                &&& self.matches_prefix(d2, all, t)
                &&& self.owned_at(d2, t) == v
                &&& forall|b: int| 0 <= b < disk.len() && b != x ==> d2[b] == disk[b]
            }),
    {
        reveal(DiskInode::owned_at);
        reveal(DiskInode::usable);
        let x = all[px] as int;
        let d2 = disk.update(x, put_u32(disk[x], 4 * w, v));
        assert(disk[x].len() == 512);
        lemma_put_get(disk[x], 4 * w, v);
        assert forall|b: int| 0 <= b < d2.len() implies (#[trigger] d2[b]).len() == 512 by {
            assert(disk[b].len() == 512);
        }
        assert(self.owned_at(disk, px) == all[px]);
        assert forall|p: int| 0 <= p < t implies #[trigger] self.owned_at(d2, p) == all[p] by {
            assert(self.owned_at(disk, p) == all[p]);
            if 28 <= p < 156 {
                // reads word p - 28 of the single-indirect block, position 27
                assert(self.owned_at(disk, 27) == all[27]);
                if px == 27 {
                    lemma_put_frame(disk[x], 4 * w, v, 4 * (p - 28));
                } else {
                    assert(all[27] != all[px]);
                }
            } else if p >= 157 {
                assert(self.owned_at(disk, 156) == all[156]);
                let tp = (p - 157) / 129;
                let pi = 157 + 129 * tp;
                assert(self.owned_at(disk, pi) == all[pi]);
                assert(self.owned_at(disk, pi) == word_at(disk, self.indirect2 as int, tp));
                if px == 156 {
                    lemma_put_frame(disk[x], 4 * w, v, 4 * tp);
                    assert(word_at(d2, self.indirect2 as int, tp) == all[pi]);
                    if pi != p {
                        assert(all[pi] != all[156]);
                    }
                } else {
                    if px < 156 {
                        assert(all[px] != all[156]);
                    } else {
                        assert(all[156] != all[px]);
                    }
                    assert(word_at(d2, self.indirect2 as int, tp) == all[pi]);
                    if pi != p {
                        if pi == px {
                            lemma_put_frame(disk[x], 4 * w, v, 4 * ((p - 157) % 129 - 1));
                        } else if pi < px {
                            assert(all[pi] != all[px]);
                        } else {
                            assert(all[px] != all[pi]);
                        }
                    }
                }
            }
        }
        if px == 27 {
            assert(self.owned_at(d2, t) == v);
        } else if px == 156 {
            assert((t - 157) % 129 == 0 && (t - 157) / 129 == w);
            assert(self.owned_at(d2, t) == v);
        } else {
            let a = (px - 157) / 129;
            assert(px == 157 + 129 * a);
            assert((t - 157) / 129 == a && (t - 157) % 129 == w + 1);
            assert(self.owned_at(disk, 156) == all[156]);
            assert(all[156] != all[px]);
            assert(word_at(d2, self.indirect2 as int, a) == all[px]);
            assert(self.owned_at(d2, t) == v);
        }
    }

    /// An inode none of whose blocks changed reads the same on the new disk:
    /// the same blocks in the same order, the same bytes.
    pub proof fn lemma_untouched(&self, d1: Seq<Seq<u8>>, d2: Seq<Seq<u8>>)
        requires
            self.fits(d1),
            sectors_wf(d2),
            d2.len() == d1.len(),
            forall|p: int|
                0 <= p < spec_total_blocks(self.size as int) ==> d2[#[trigger] self.owned_at(
                    d1,
                    p,
                ) as int] == d1[self.owned_at(d1, p) as int],
        ensures
            forall|p: int|
                0 <= p < spec_total_blocks(self.size as int) ==> #[trigger] self.owned_at(d2, p)
                    == self.owned_at(d1, p),
            self.owned(d2) == self.owned(d1),
            self.fits(d2),
            self.distinct(d1) ==> self.distinct(d2),
            self.content(d2) == self.content(d1),
            forall|b: int| self.owns(d2, b) == self.owns(d1, b),
    {
        let t = spec_total_blocks(self.size as int);
        self.lemma_owned_frame(d1, d2, t);
        assert(self.owned(d2) =~= self.owned(d1));
        if self.distinct(d1) {
            assert forall|p: int, q: int| 0 <= p < q < t implies #[trigger] self.owned_at(d2, p)
                != #[trigger] self.owned_at(d2, q) by {
                assert(self.owned_at(d1, p) != self.owned_at(d1, q));
            }
        }
        assert forall|i: int| 0 <= i < self.size implies self.content(d2)[i] == self.content(
            d1,
        )[i] by {
            let k = i / 512;
            self.lemma_block_of(d1, k);
            self.lemma_block_of(d2, k);
            let p = slot_pos(k);
            assert(self.owned_at(d2, p) == self.owned_at(d1, p));
            assert(d2[self.owned_at(d1, p) as int] == d1[self.owned_at(d1, p) as int]);
        }
        assert(self.content(d2) =~= self.content(d1));
        assert forall|b: int| self.owns(d2, b) == self.owns(d1, b) by {
            if self.owns(d1, b) {
                let p = choose|p: int| 0 <= p < t && #[trigger] self.owned_at(d1, p) == b;
                assert(self.owned_at(d2, p) == b);
            }
            if self.owns(d2, b) {
                let p = choose|p: int| 0 <= p < t && #[trigger] self.owned_at(d2, p) == b;
                assert(self.owned_at(d1, p) == b);
            }
        }
    }

    /// The 32 bytes that follow the end of the file in the block that holds
    /// its end.
    pub open spec fn slot_after_end(&self, disk: Seq<Seq<u8>>) -> Seq<u8> {
        disk[self.block_of(disk, self.size as int / 512) as int].subrange(
            self.size as int % 512,
            self.size as int % 512 + 32,
        )
    }

    /// The bytes behind the end of the file stay as they are while the
    /// file's blocks are left alone.
    pub proof fn lemma_slot_kept(&self, d1: Seq<Seq<u8>>, d2: Seq<Seq<u8>>)
        requires
            self.size % 512 != 0,
            self.owned(d2) == self.owned(d1),
            forall|p: int|
                0 <= p < self.owned(d1).len() ==> d2[#[trigger] self.owned(d1)[p] as int]
                    == d1[self.owned(d1)[p] as int],
        ensures
            self.slot_after_end(d2) == self.slot_after_end(d1),
            self.block_of(d2, self.size as int / 512) == self.block_of(d1, self.size as int / 512),
    {
        let k = self.size as int / 512;
        self.lemma_block_of(d1, k);
        self.lemma_block_of(d2, k);
        let p = slot_pos(k);
        assert(self.owned(d1)[p] == self.owned_at(d1, p));
        assert(self.owned(d2)[p] == self.owned_at(d2, p));
    }

    /// After 32 zero bytes were written at the end of the file `longer`, the
    /// 32 bytes that follow the end of the file shortened by them are zero.
    pub proof fn lemma_slot_zeroed(&self, longer: DiskInode, disk: Seq<Seq<u8>>)
        requires
            longer.fits(disk),
            longer.size % 32 == 0,
            longer.size == self.size + 32,
            spec_total_blocks(longer.size as int) == spec_total_blocks(self.size as int),
            longer.direct == self.direct,
            longer.indirect1 == self.indirect1,
            longer.indirect2 == self.indirect2,
            forall|i: int| self.size <= i < longer.size ==> longer.content(disk)[i] == 0u8,
        ensures
            self.size % 512 != 0,
            self.slot_after_end(disk) == Seq::new(32, |i: int| 0u8),
    {
        let k = self.size as int / 512;
        assert(self.size % 512 != 0);
        longer.lemma_block_of(disk, k);
        assert(longer.owned_at(disk, slot_pos(k)) < disk.len());
        assert(longer.block_of(disk, k) == self.block_of(disk, k));
        assert(disk[self.block_of(disk, k) as int].len() == 512);
        assert forall|i: int| 0 <= i < 32 implies #[trigger] self.slot_after_end(disk)[i] == 0u8 by {
            let y = self.size + i;
            assert(y / 512 == k && y % 512 == self.size % 512 + i);
            assert(longer.content(disk)[y] == 0u8);
        }
        assert(self.slot_after_end(disk) =~= Seq::new(32, |i: int| 0u8));
    }

    /// Data blocks the file occupies.
    pub fn data_blocks(&self) -> (n: u32)
        ensures
            n == self.spec_data_blocks(),
            self.size <= MAX_FILE_SIZE ==> n <= MAX_DATA_BLOCKS,
    {
        data_blocks_of(self.size)
    }

    /// Data and index blocks together that a file of `size` bytes occupies.
    pub fn total_blocks(size: u32) -> (t: u32)
        requires
            size <= MAX_FILE_SIZE,
        ensures
            t == spec_total_blocks(size as int),
    {
        blocks_for(data_blocks_of(size))
    }

    /// Blocks that must be added, data and index blocks together, to grow the
    /// file to `new_size` bytes.
    pub fn blocks_num_needed(&self, new_size: u32) -> (n: u32)
        requires
            self.size <= new_size <= MAX_FILE_SIZE,
        ensures
            n == spec_total_blocks(new_size as int) - spec_total_blocks(self.size as int),
    {
        Self::total_blocks(new_size) - Self::total_blocks(self.size)
    }

    /// Whether the inode is a directory.
    pub fn is_dir(&self) -> (r: bool)
        ensures
            r == (self.type_ == DiskInodeType::Directory),
    {
        self.type_ == DiskInodeType::Directory
    }

    /// Whether the inode is a regular file.
    pub fn is_file(&self) -> (r: bool)
        ensures
            r == (self.type_ == DiskInodeType::File),
    {
        self.type_ == DiskInodeType::File
    }

    /// An empty inode of the given kind, named once.
    pub fn initialize(&mut self, type_: DiskInodeType)
        ensures
            final(self).size == 0,
            final(self).hard_link == 1,
            final(self).type_ == type_,
            final(self).indirect1 == 0,
            final(self).indirect2 == 0,
            forall|i: int| 0 <= i < 27 ==> final(self).direct[i] == 0,
    {
        self.size = 0;
        self.direct = [0u32; 27];
        self.indirect1 = 0;
        self.indirect2 = 0;
        self.hard_link = 1;
        self.type_ = type_;
    }

    /// The block that holds logical block `k` of the file.
    pub fn get_block_id<D: BlockDevice>(&self, k: u32, cache: &mut BlockCacheManager<D>) -> (r: u32)
        requires
            old(cache).wf(),
            self.fits(old(cache)@),
            k < self.spec_data_blocks(),
        ensures
            final(cache).wf(),
            final(cache)@ == old(cache)@,
            r == self.block_of(old(cache)@, k as int),
            r < old(cache)@.len(),
    {
        proof {
            reveal(DiskInode::owned_at);
        }
        proof {
            self.lemma_block_of(cache@, k as int);
            assert(self.owned_at(cache@, slot_pos(k as int)) < cache@.len());
        }
        if k < 27 {
            self.direct[k as usize]
        } else if k < 155 {
            proof {
                assert(self.owned_at(cache@, 27) < cache@.len());
            }
            cache.read_u32(self.indirect1 as usize, (k as usize - 27) * 4)
        } else {
            let j: usize = k as usize - 155;
            proof {
                assert(self.owned_at(cache@, 156) < cache@.len());
                let pi = 157 + 129 * (j as int / 128);
                assert(self.owned_at(cache@, pi) < cache@.len());
            }
            let l1 = cache.read_u32(self.indirect2 as usize, (j / 128) * 4);
            cache.read_u32(l1 as usize, (j % 128) * 4)
        }
    }

    /// Copies the bytes of the file from `offset` on into `buf`, as many as
    /// the file has and `buf` takes, and returns their number.
    pub fn read_at<D: BlockDevice>(
        &self,
        offset: usize,
        buf: &mut [u8],
        cache: &mut BlockCacheManager<D>,
    ) -> (n: usize)
        requires
            old(cache).wf(),
            self.fits(old(cache)@),
        ensures
            final(cache).wf(),
            final(cache)@ == old(cache)@,
            n == read_len(self.size as int, offset as int, old(buf).len() as int),
            final(buf)@ == splice(
                old(buf)@,
                0,
                self.content(old(cache)@),
                offset as int,
                n as int,
            ),
    {
        let size = self.size as usize;
        if offset >= size {
            assert(buf@ =~= splice(old(buf)@, 0, self.content(old(cache)@), offset as int, 0));
            return 0;
        }
        let n: usize = if buf.len() <= size - offset {
            buf.len()
        } else {
            size - offset
        };
        let ghost disk = cache@;
        let ghost content = self.content(disk);
        let mut done: usize = 0;
        assert(buf@ =~= splice(old(buf)@, 0, content, offset as int, 0));
        while done < n
            invariant
                done <= n,
                n <= buf.len(),
                buf.len() == old(buf).len(),
                offset + n <= self.size,
                cache.wf(),
                cache@ == disk,
                self.fits(disk),
                content == self.content(disk),
                buf@ == splice(old(buf)@, 0, content, offset as int, done as int),
            decreases n - done,
        {
            let pos = offset + done;
            let k = pos / 512;
            let off = pos % 512;
            let len: usize = if 512 - off <= n - done {
                512 - off
            } else {
                n - done
            };
            let b = self.get_block_id(k as u32, cache);
            let ghost before = buf@;
            cache.read_bytes(b as usize, off, buf, done, len);
            proof {
                assert forall|i: int| 0 <= i < buf@.len() implies buf@[i] == splice(
                    old(buf)@,
                    0,
                    content,
                    offset as int,
                    done + len,
                )[i] by {
                    if done <= i < done + len {
                        let at = offset + i;
                        assert(at / 512 == k && at % 512 == off + i - done);
                    }
                }
                assert(buf@ =~= splice(old(buf)@, 0, content, offset as int, done + len));
            }
            done += len;
        }
        n
    }

    /// Copies `buf` over the bytes of the file from `offset` on, as far as the
    /// file reaches, and returns the number of bytes written. The file does
    /// not grow.
    pub fn write_at<D: BlockDevice>(
        &self,
        offset: usize,
        buf: &[u8],
        cache: &mut BlockCacheManager<D>,
    ) -> (n: usize)
        requires
            old(cache).wf(),
            self.fits(old(cache)@),
            self.distinct(old(cache)@),
            offset <= self.size,
        ensures
            final(cache).wf(),
            final(cache)@.len() == old(cache)@.len(),
            n == read_len(self.size as int, offset as int, buf.len() as int),
            self.content(final(cache)@) == splice(
                self.content(old(cache)@),
                offset as int,
                buf@,
                0,
                n as int,
            ),
            forall|p: int|
                0 <= p < spec_total_blocks(self.size as int) ==> #[trigger] self.owned_at(final(cache)@, p)
                    == self.owned_at(old(cache)@, p),
            self.fits(final(cache)@),
            self.distinct(final(cache)@),
            forall|b: int|
                0 <= b < old(cache)@.len() && !self.owns(old(cache)@, b) ==> #[trigger] final(cache)@[b]
                    == old(cache)@[b],
    {
        let size = self.size as usize;
        let n: usize = if buf.len() <= size - offset {
            buf.len()
        } else {
            size - offset
        };
        let ghost disk0 = cache@;
        let ghost content0 = self.content(disk0);
        let ghost total = spec_total_blocks(self.size as int);
        let mut done: usize = 0;
        assert(self.content(cache@) =~= splice(content0, offset as int, buf@, 0, 0));
        while done < n
            invariant
                done <= n,
                n <= buf.len(),
                offset + n <= self.size,
                cache.wf(),
                disk0 == old(cache)@,
                content0 == self.content(disk0),
                total == spec_total_blocks(self.size as int),
                cache@.len() == disk0.len(),
                self.fits(cache@),
                self.distinct(cache@),
                self.content(cache@) == splice(content0, offset as int, buf@, 0, done as int),
                forall|p: int|
                    0 <= p < total ==> #[trigger] self.owned_at(cache@, p) == self.owned_at(
                        disk0,
                        p,
                    ),
                forall|b: int|
                    0 <= b < disk0.len() && !self.owns(disk0, b) ==> #[trigger] cache@[b]
                        == disk0[b],
            decreases n - done,
        {
            let pos = offset + done;
            let k = pos / 512;
            let off = pos % 512;
            let len: usize = if 512 - off <= n - done {
                512 - off
            } else {
                n - done
            };
            let ghost d1 = cache@;
            let b = self.get_block_id(k as u32, cache);
            cache.write_bytes(b as usize, off, buf, done, len);
            proof {
                let newblk = splice(d1[b as int], off as int, buf@, done as int, len as int);
                let d2 = cache@;
                self.lemma_write_block(d1, k as int, newblk);
                self.lemma_block_of(d1, k as int);
                assert(self.owns(disk0, b as int)) by {
                    assert(self.owned_at(disk0, slot_pos(k as int)) == b);
                }
                let c1 = self.content(d1);
                let want = splice(content0, offset as int, buf@, 0, done + len);
                assert forall|i: int| 0 <= i < self.size implies self.content(d2)[i]
                    == want[i] by {
                    if i / 512 == k {
                        assert(c1[i] == d1[b as int][i % 512]);
                    }
                    if pos <= i < pos + len {
                        assert(i / 512 == k && i % 512 == off + i - pos);
                    }
                }
                assert(self.content(d2) =~= want);
            }
            done += len;
        }
        n
    }

    /// Places the data block of logical block `k` in a direct slot.
    fn grow_direct<D: BlockDevice>(
        &mut self,
        k: u32,
        new_blocks: &Vec<u32>,
        pos: usize,
        cache: &mut BlockCacheManager<D>,
        Ghost(all): Ghost<Seq<u32>>,
        Ghost(t0): Ghost<int>,
    ) -> (next: usize)
        requires
            k < 27,
            old(cache).wf(),
            sectors_wf(old(cache)@),
            spec_blocks_for(k as int + 1) <= all.len(),
            0 <= t0,
            pos == spec_blocks_for(k as int) - t0,
            t0 + new_blocks@.len() == all.len(),
            forall|i: int| 0 <= i < new_blocks@.len() ==> all[t0 + i] == new_blocks@[i],
            old(self).matches_prefix(old(cache)@, all, spec_blocks_for(k as int)),
            Self::usable(all, old(cache)@.len() as int),
        ensures
            final(cache).wf(),
            sectors_wf(final(cache)@),
            final(cache)@.len() == old(cache)@.len(),
            next == spec_blocks_for(k as int + 1) - t0,
            final(self).matches_prefix(final(cache)@, all, spec_blocks_for(k as int + 1)),
            forall|b: int|
                0 <= b < old(cache)@.len() && !index_hit(all, b) ==> #[trigger] final(cache)@[b]
                    == old(cache)@[b],
            final(self).size == old(self).size,
            final(self).hard_link == old(self).hard_link,
            final(self).type_ == old(self).type_,
    {
        proof {
            reveal(DiskInode::owned_at);
        }
        let ghost d0 = *self;
        self.direct[k as usize] = new_blocks[pos];
        proof {
            d0.lemma_set_pointer(*self, cache@, all, k as int);
        }
        pos + 1
    }

    /// Places the data block of logical block `k` behind the single-indirect
    /// block, and that block first if `k` is the first to need it.
    fn grow_indirect1<D: BlockDevice>(
        &mut self,
        k: u32,
        new_blocks: &Vec<u32>,
        pos: usize,
        cache: &mut BlockCacheManager<D>,
        Ghost(all): Ghost<Seq<u32>>,
        Ghost(t0): Ghost<int>,
    ) -> (next: usize)
        requires
            27 <= k < 155,
            old(cache).wf(),
            sectors_wf(old(cache)@),
            spec_blocks_for(k as int + 1) <= all.len(),
            0 <= t0,
            pos == spec_blocks_for(k as int) - t0,
            t0 + new_blocks@.len() == all.len(),
            forall|i: int| 0 <= i < new_blocks@.len() ==> all[t0 + i] == new_blocks@[i],
            old(self).matches_prefix(old(cache)@, all, spec_blocks_for(k as int)),
            Self::usable(all, old(cache)@.len() as int),
        ensures
            final(cache).wf(),
            sectors_wf(final(cache)@),
            final(cache)@.len() == old(cache)@.len(),
            next == spec_blocks_for(k as int + 1) - t0,
            final(self).matches_prefix(final(cache)@, all, spec_blocks_for(k as int + 1)),
            forall|b: int|
                0 <= b < old(cache)@.len() && !index_hit(all, b) ==> #[trigger] final(cache)@[b]
                    == old(cache)@[b],
            final(self).size == old(self).size,
            final(self).hard_link == old(self).hard_link,
            final(self).type_ == old(self).type_,
    {
        proof {
            reveal(DiskInode::owned_at);
        }
        let ghost d0 = *self;
        let ghost disk0 = cache@;
        let mut pos = pos;
        if k == 27 {
            self.indirect1 = new_blocks[pos];
            proof {
                d0.lemma_set_pointer(*self, disk0, all, 27);
            }
            pos += 1;
        }
        proof {
            assert(self.matches_prefix(disk0, all, k as int + 1));
            assert(self.owned_at(disk0, 27) == all[27]);
            assert(is_index_pos(27));
            assert(all[27] < disk0.len()) by {
                reveal(DiskInode::usable);
            }
            self.lemma_fill_slot(disk0, all, k as int + 1, 27, k as int - 27, new_blocks@[pos as int]);
        }
        cache.write_u32(self.indirect1 as usize, (k as usize - 27) * 4, new_blocks[pos]);
        proof {
            assert forall|x: int| 0 <= x < disk0.len() && !index_hit(all, x) implies #[trigger] cache@[x]
                == disk0[x] by {
                assert(all[27] != x);
            }
        }
        pos + 1
    }

    /// Makes the index block for logical block `k` behind the double-indirect
    /// block known: the one already named there, or the next new block if `k`
    /// is the first to need it; the double-indirect block itself comes first
    /// if `k` is the first block behind it.
    fn grow_index2<D: BlockDevice>(
        &mut self,
        k: u32,
        new_blocks: &Vec<u32>,
        pos: usize,
        cache: &mut BlockCacheManager<D>,
        Ghost(all): Ghost<Seq<u32>>,
        Ghost(t0): Ghost<int>,
    ) -> (next: (usize, u32))
        requires
            155 <= k < MAX_DATA_BLOCKS,
            old(cache).wf(),
            sectors_wf(old(cache)@),
            spec_blocks_for(k as int + 1) <= all.len(),
            0 <= t0,
            pos == spec_blocks_for(k as int) - t0,
            t0 + new_blocks@.len() == all.len(),
            forall|i: int| 0 <= i < new_blocks@.len() ==> all[t0 + i] == new_blocks@[i],
            old(self).matches_prefix(old(cache)@, all, spec_blocks_for(k as int)),
            Self::usable(all, old(cache)@.len() as int),
        ensures
            final(cache).wf(),
            sectors_wf(final(cache)@),
            final(cache)@.len() == old(cache)@.len(),
            next.0 == slot_pos(k as int) - t0,
            next.1 == all[157 + 129 * ((k as int - 155) / 128)],
            final(self).matches_prefix(final(cache)@, all, slot_pos(k as int)),
            forall|b: int|
                0 <= b < old(cache)@.len() && !index_hit(all, b) ==> #[trigger] final(cache)@[b]
                    == old(cache)@[b],
            final(self).size == old(self).size,
            final(self).hard_link == old(self).hard_link,
            final(self).type_ == old(self).type_,
    {
        proof {
            reveal(DiskInode::owned_at);
        }
        let ghost d0 = *self;
        let ghost disk0 = cache@;
        let mut pos = pos;
        let j: usize = k as usize - 155;
        let a: usize = j / 128;
        let b: usize = j % 128;
        proof {
            lemma_slot_pos(k as int);
        }
        if j == 0 {
            self.indirect2 = new_blocks[pos];
            proof {
                d0.lemma_set_pointer(*self, disk0, all, 156);
            }
            pos += 1;
        }
        let ghost pa = 157 + 129 * (a as int);
        proof {
            assert(self.owned_at(disk0, 156) == all[156]);
            assert(is_index_pos(156) && is_index_pos(pa));
            assert(all[156] < disk0.len()) by {
                reveal(DiskInode::usable);
            }
        }
        if b == 0 {
            let l1 = new_blocks[pos];
            proof {
                assert(self.matches_prefix(disk0, all, pa));
                self.lemma_fill_slot(disk0, all, pa, 156, a as int, l1);
            }
            cache.write_u32(self.indirect2 as usize, a * 4, l1);
            proof {
                assert forall|x: int| 0 <= x < disk0.len() && !index_hit(all, x) implies #[trigger] cache@[x]
                    == disk0[x] by {
                    assert(all[156] != x);
                }
            }
            (pos + 1, l1)
        } else {
            proof {
                assert(self.owned_at(disk0, pa) == all[pa]);
            }
            let l1 = cache.read_u32(self.indirect2 as usize, a * 4);
            (pos, l1)
        }
    }

    /// Places the data block of logical block `k` behind the double-indirect
    /// block, after the index blocks that it is the first to need.
    fn grow_indirect2<D: BlockDevice>(
        &mut self,
        k: u32,
        new_blocks: &Vec<u32>,
        pos: usize,
        cache: &mut BlockCacheManager<D>,
        Ghost(all): Ghost<Seq<u32>>,
        Ghost(t0): Ghost<int>,
    ) -> (next: usize)
        requires
            155 <= k < MAX_DATA_BLOCKS,
            old(cache).wf(),
            sectors_wf(old(cache)@),
            spec_blocks_for(k as int + 1) <= all.len(),
            0 <= t0,
            pos == spec_blocks_for(k as int) - t0,
            t0 + new_blocks@.len() == all.len(),
            forall|i: int| 0 <= i < new_blocks@.len() ==> all[t0 + i] == new_blocks@[i],
            old(self).matches_prefix(old(cache)@, all, spec_blocks_for(k as int)),
            Self::usable(all, old(cache)@.len() as int),
        ensures
            final(cache).wf(),
            sectors_wf(final(cache)@),
            final(cache)@.len() == old(cache)@.len(),
            next == spec_blocks_for(k as int + 1) - t0,
            final(self).matches_prefix(final(cache)@, all, spec_blocks_for(k as int + 1)),
            forall|b: int|
                0 <= b < old(cache)@.len() && !index_hit(all, b) ==> #[trigger] final(cache)@[b]
                    == old(cache)@[b],
            final(self).size == old(self).size,
            final(self).hard_link == old(self).hard_link,
            final(self).type_ == old(self).type_,
    {
        proof {
            reveal(DiskInode::owned_at);
        }
        let ghost disk0 = cache@;
        let (pos, l1) = self.grow_index2(k, new_blocks, pos, cache, Ghost(all), Ghost(t0));
        let b: usize = (k as usize - 155) % 128;
        let ghost pa = 157 + 129 * ((k as int - 155) / 128);
        let ghost disk1 = cache@;
        proof {
            lemma_slot_pos(k as int);
            assert(is_index_pos(pa));
            assert(all[pa] < disk0.len()) by {
                reveal(DiskInode::usable);
            }
            self.lemma_fill_slot(disk1, all, pa + 1 + b, pa, b as int, new_blocks@[pos as int]);
        }
        cache.write_u32(l1 as usize, b * 4, new_blocks[pos]);
        proof {
            assert forall|x: int| 0 <= x < disk0.len() && !index_hit(all, x) implies #[trigger] cache@[x]
                == disk0[x] by {
                assert(all[pa] != x);
            }
        }
        pos + 1
    }

    /// Grows the file to `new_size` bytes. `new_blocks` holds the blocks to
    /// add, index blocks included; they are taken in order: direct slots
    /// first, then the single-indirect block and its slots, then the
    /// double-indirect block and, for every 128 data blocks, an index block
    /// followed by its slots. The bytes that become part of the file are
    /// whatever the new data blocks held.
    pub fn increase_size<D: BlockDevice>(
        &mut self,
        new_size: u32,
        new_blocks: Vec<u32>,
        cache: &mut BlockCacheManager<D>,
    )
        requires
            old(cache).wf(),
            old(self).fits(old(cache)@),
            old(self).distinct(old(cache)@),
            old(self).size <= new_size <= MAX_FILE_SIZE,
            new_blocks@.len() == spec_total_blocks(new_size as int) - spec_total_blocks(
                old(self).size as int,
            ),
            forall|i: int| 0 <= i < new_blocks@.len() ==> new_blocks@[i] < old(cache)@.len(),
            (old(self).owned(old(cache)@) + new_blocks@).no_duplicates(),
        ensures
            final(cache).wf(),
            final(cache)@.len() == old(cache)@.len(),
            final(self).size == new_size,
            final(self).hard_link == old(self).hard_link,
            final(self).type_ == old(self).type_,
            final(self).owned(final(cache)@) == old(self).owned(old(cache)@) + new_blocks@,
            final(self).fits(final(cache)@),
            final(self).distinct(final(cache)@),
            final(self).content(final(cache)@).subrange(0, old(self).size as int) == old(
                self,
            ).content(old(cache)@),
            forall|b: int|
                0 <= b < old(cache)@.len() && !index_hit(
                    old(self).owned(old(cache)@) + new_blocks@,
                    b,
                ) ==> #[trigger] final(cache)@[b] == old(cache)@[b],
    {
        proof {
            reveal(DiskInode::owned_at);
        }
        let ghost d0 = *self;
        let ghost disk0 = cache@;
        let ghost owned0 = self.owned(disk0);
        let ghost all = owned0 + new_blocks@;
        let old_n = self.data_blocks();
        let new_n = data_blocks_of(new_size);
        let ghost t0 = spec_blocks_for(old_n as int);
        let mut k: u32 = old_n;
        let mut pos: usize = 0;
        proof {
            lemma_total_blocks_monotone(self.size as int, new_size as int);
            assert forall|p: int, q: int| 0 <= p < q < all.len() implies all[p] != all[q] by {}
            assert forall|p: int| 0 <= p < all.len() implies all[p] < disk0.len() by {
                if p < t0 {
                    assert(self.owned_at(disk0, p) < disk0.len());
                } else {
                    assert(all[p] == new_blocks@[p - t0]);
                }
            }
            assert(Self::usable(all, disk0.len() as int)) by {
                reveal(DiskInode::usable);
            }
            cache.lemma_view_shape();
        }
        while k < new_n
            invariant
                old_n <= k <= new_n <= MAX_DATA_BLOCKS,
                t0 == spec_blocks_for(old_n as int),
                all.len() == spec_blocks_for(new_n as int),
                t0 + new_blocks@.len() == all.len(),
                forall|i: int| 0 <= i < new_blocks@.len() ==> all[t0 + i] == new_blocks@[i],
                pos == spec_blocks_for(k as int) - t0,
                cache.wf(),
                sectors_wf(cache@),
                cache@.len() == disk0.len(),
                self.matches_prefix(cache@, all, spec_blocks_for(k as int)),
                Self::usable(all, disk0.len() as int),
                forall|b: int|
                    0 <= b < disk0.len() && !index_hit(all, b) ==> #[trigger] cache@[b]
                        == disk0[b],
                self.size == d0.size,
                self.hard_link == d0.hard_link,
                self.type_ == d0.type_,
            decreases new_n - k,
        {
            proof {
                lemma_slot_pos(k as int);
            }
            if k < 27 {
                pos = self.grow_direct(k, &new_blocks, pos, cache, Ghost(all), Ghost(t0));
            } else if k < 155 {
                pos = self.grow_indirect1(k, &new_blocks, pos, cache, Ghost(all), Ghost(t0));
            } else {
                pos = self.grow_indirect2(k, &new_blocks, pos, cache, Ghost(all), Ghost(t0));
            }
            k += 1;
        }
        let ghost dprev = *self;
        self.size = new_size;
        proof {
            reveal(DiskInode::usable);
            let disk1 = cache@;
            let d1 = *self;
            assert forall|p: int| 0 <= p < all.len() implies #[trigger] d1.owned_at(disk1, p)
                == all[p] by {
                assert(dprev.owned_at(disk1, p) == all[p]);
            }
            assert(d1.owned(disk1) =~= all);
            assert(d1.fits(disk1));
            assert(d1.distinct(disk1));
            assert forall|i: int| 0 <= i < d0.size implies d1.content(disk1)[i] == d0.content(
                disk0,
            )[i] by {
                let ki = i / 512;
                d0.lemma_block_of(disk0, ki);
                d1.lemma_block_of(disk1, ki);
                let pi = slot_pos(ki);
                assert(d1.owned_at(disk1, pi) == all[pi]);
                assert(all[pi] == d0.owned_at(disk0, pi));
                assert(!index_hit(all, all[pi] as int)) by {
                    if index_hit(all, all[pi] as int) {
                        let q = choose|q: int|
                            0 <= q < all.len() && is_index_pos(q) && #[trigger] all[q]
                                == all[pi] as int;
                        if q < pi {
                            assert(all[q] != all[pi]);
                        } else {
                            assert(all[pi] != all[q]);
                        }
                    }
                }
            }
            assert(d1.content(disk1).subrange(0, d0.size as int) =~= d0.content(disk0));
        }
    }

    /// Empties the file and returns every block it had, index blocks
    /// included, in the order in which they were allocated. The caller gives
    /// them back to the allocator.
    pub fn clear_size<D: BlockDevice>(&mut self, cache: &mut BlockCacheManager<D>) -> (v: Vec<u32>)
        requires
            old(cache).wf(),
            old(self).fits(old(cache)@),
        ensures
            final(cache).wf(),
            final(cache)@ == old(cache)@,
            v@ == old(self).owned(old(cache)@),
            final(self).size == 0,
            final(self).hard_link == old(self).hard_link,
            final(self).type_ == old(self).type_,
            forall|k: int|
                0 <= k < 27 ==> final(self).direct[k] == if k < old(self).spec_data_blocks() {
                    0u32
                } else {
                    old(self).direct[k]
                },
            final(self).indirect1 == if old(self).spec_data_blocks() > 27 {
                0u32
            } else {
                old(self).indirect1
            },
            final(self).indirect2 == if old(self).spec_data_blocks() > 155 {
                0u32
            } else {
                old(self).indirect2
            },
    {
        proof {
            reveal(DiskInode::owned_at);
        }
        let ghost disk = cache@;
        let total = Self::total_blocks(self.size);
        let n = self.data_blocks();
        let mut v: Vec<u32> = Vec::new();
        let mut p: u32 = 0;
        while p < total
            invariant
                p <= total,
                total == spec_total_blocks(self.size as int),
                *self == *old(self),
                cache.wf(),
                cache@ == disk,
                disk == old(cache)@,
                self.fits(disk),
                v@ == self.owned_prefix(disk, p as int),
            decreases total - p,
        {
            proof {
                reveal(DiskInode::owned_at);
            }
            let b: u32;
            if p < 27 {
                b = self.direct[p as usize];
            } else if p == 27 {
                b = self.indirect1;
            } else if p < 156 {
                proof {
                    assert(self.owned_at(disk, 27) < disk.len());
                }
                b = cache.read_u32(self.indirect1 as usize, (p as usize - 28) * 4);
            } else if p == 156 {
                b = self.indirect2;
            } else {
                let q: usize = p as usize - 157;
                proof {
                    assert(self.owned_at(disk, 156) < disk.len());
                    let pi = 157 + 129 * (q as int / 129);
                    assert(self.owned_at(disk, pi) < disk.len());
                }
                let l1 = cache.read_u32(self.indirect2 as usize, (q / 129) * 4);
                if q % 129 == 0 {
                    b = l1;
                } else {
                    b = cache.read_u32(l1 as usize, (q % 129 - 1) * 4);
                }
            }
            v.push(b);
            proof {
                assert(v@ =~= self.owned_prefix(disk, p as int + 1));
            }
            p += 1;
        }
        let mut k: usize = 0;
        while k < 27 && k < n as usize
            invariant
                k <= 27,
                k <= n,
                self.size == old(self).size,
                self.hard_link == old(self).hard_link,
                self.type_ == old(self).type_,
                self.indirect1 == old(self).indirect1,
                self.indirect2 == old(self).indirect2,
                forall|j: int|
                    0 <= j < 27 ==> self.direct[j] == if j < k {
                        0u32
                    } else {
                        old(self).direct[j]
                    },
            decreases 27 - k,
        {
            self.direct[k] = 0;
            k += 1;
        }
        if n > 27 {
            self.indirect1 = 0;
        }
        if n > 155 {
            self.indirect2 = 0;
        }
        self.size = 0;
        v
    }

    /// Shortens the file to `new_size` bytes without giving any block back;
    /// the new size must need as many blocks as the old one.
    pub fn decrease_size(&mut self, new_size: u32)
        requires
            new_size <= old(self).size,
            spec_total_blocks(new_size as int) == spec_total_blocks(old(self).size as int),
        ensures
            final(self).size == new_size,
            final(self).direct == old(self).direct,
            final(self).indirect1 == old(self).indirect1,
            final(self).indirect2 == old(self).indirect2,
            final(self).hard_link == old(self).hard_link,
            final(self).type_ == old(self).type_,
    {
        self.size = new_size;
    }

    /// Word `w` of the record.
    fn word_at_index(&self, w: usize) -> (v: u32)
        requires
            w < 32,
        ensures
            v == self.word(w as int),
    {
        if w == 0 {
            self.size
        } else if w <= 27 {
            self.direct[w - 1]
        } else if w == 28 {
            self.indirect1
        } else if w == 29 {
            self.indirect2
        } else if w == 30 {
            self.hard_link
        } else {
            match self.type_ {
                DiskInodeType::File => 0,
                DiskInodeType::Directory => 1,
            }
        }
    }

    /// Reads the record that starts at byte `offset` of sector `block_id`.
    pub fn load<D: BlockDevice>(cache: &mut BlockCacheManager<D>, block_id: usize, offset: usize) -> (d:
        DiskInode)
        requires
            old(cache).wf(),
            block_id < old(cache)@.len(),
            offset + 128 <= 512,
        ensures
            final(cache).wf(),
            final(cache)@ == old(cache)@,
            d == Self::decode(old(cache)@[block_id as int].subrange(offset as int, offset + 128)),
    {
        let ghost disk = cache@;
        let ghost bytes = disk[block_id as int].subrange(offset as int, offset + 128);
        proof {
            cache.lemma_view_shape();
            assert(disk[block_id as int].len() == 512);
            lemma_direct_of(bytes, 27);
        }
        let size = cache.read_u32(block_id, offset);
        let mut direct = [0u32; 27];
        let mut i: usize = 0;
        while i < 27
            invariant
                i <= 27,
                offset + 128 <= 512,
                block_id < disk.len(),
                cache.wf(),
                cache@ == disk,
                forall|j: int|
                    0 <= j < i ==> direct@[j] == le_u32(disk[block_id as int], offset + 4 * j + 4),
            decreases 27 - i,
        {
            direct[i] = cache.read_u32(block_id, offset + 4 + 4 * i);
            i += 1;
        }
        let indirect1 = cache.read_u32(block_id, offset + 112);
        let indirect2 = cache.read_u32(block_id, offset + 116);
        let hard_link = cache.read_u32(block_id, offset + 120);
        let kind = cache.read_u32(block_id, offset + 124);
        let type_ = if kind == 1 {
            DiskInodeType::Directory
        } else {
            DiskInodeType::File
        };
        let d = DiskInode { size, direct, indirect1, indirect2, hard_link, type_ };
        proof {
            let want = Self::decode(bytes);
            assert forall|j: int| 0 <= j < 27 implies d.direct[j] == want.direct[j] by {
                assert(le_u32(bytes, 4 * (j + 1)) == le_u32(
                    disk[block_id as int],
                    offset + 4 * (j + 1),
                ));
            }
            assert(d.direct =~= want.direct);
        }
        d
    }

    /// Writes the record over the 128 bytes that start at byte `offset` of
    /// sector `block_id`.
    pub fn store<D: BlockDevice>(&self, cache: &mut BlockCacheManager<D>, block_id: usize, offset: usize)
        requires
            old(cache).wf(),
            block_id < old(cache)@.len(),
            offset + 128 <= 512,
        ensures
            final(cache).wf(),
            final(cache)@ == old(cache)@.update(
                block_id as int,
                splice(old(cache)@[block_id as int], offset as int, self.encode(), 0, 128),
            ),
    {
        let ghost disk = cache@;
        let ghost blk = disk[block_id as int];
        let ghost enc = self.encode();
        proof {
            cache.lemma_view_shape();
            assert(blk.len() == 512);
            assert(splice(blk, offset as int, enc, 0, 0) =~= blk);
            assert(disk =~= disk.update(block_id as int, splice(blk, offset as int, enc, 0, 0)));
        }
        let mut w: usize = 0;
        while w < 32
            invariant
                w <= 32,
                offset + 128 <= 512,
                block_id < disk.len(),
                blk == disk[block_id as int],
                blk.len() == 512,
                enc == self.encode(),
                cache.wf(),
                cache@ == disk.update(
                    block_id as int,
                    splice(blk, offset as int, enc, 0, 4 * w as int),
                ),
            decreases 32 - w,
        {
            let v = self.word_at_index(w);
            let ghost cur = cache@[block_id as int];
            cache.write_u32(block_id, offset + 4 * w, v);
            proof {
                lemma_put_bytes(cur, offset + 4 * w, v);
                let next = put_u32(cur, offset + 4 * w, v);
                let want = splice(blk, offset as int, enc, 0, 4 * w + 4);
                assert forall|i: int| 0 <= i < 512 implies next[i] == want[i] by {
                    if offset + 4 * w <= i < offset + 4 * w + 4 {
                        let r = i - (offset + 4 * w);
                        assert(next[offset + 4 * w + r] == u32_byte(v, r));
                        assert((i - offset) / 4 == w && (i - offset) % 4 == r);
                    }
                }
                assert(next =~= want);
                assert(cache@ =~= disk.update(block_id as int, want));
            }
            w += 1;
        }
    }
}

} // verus!
