//! A bounded write-back cache of sectors. Every access to the device goes
//! through it; a sector that was changed reaches the device when it is evicted
//! or on `sync_all`.

use crate::block_dev::{sectors_wf, BlockDevice};
use crate::codec::{le_u32, put_u32, splice, u32_byte_at, u32_from_bytes};
use vstd::prelude::*;

verus! {

broadcast use vstd::slice::group_slice_axioms;

/// Most sectors the cache holds at a time.
pub const BLOCK_CACHE_SIZE: usize = 16;

/// One resident sector.
pub struct BlockCache {
    pub block_id: usize,
    pub cache: [u8; 512],
    pub modified: bool,
}

/// The cache together with the device behind it. Entries are kept in the order
/// in which they became resident; the oldest one is evicted first.
pub struct BlockCacheManager<D: BlockDevice> {
    device: D,
    queue: Vec<BlockCache>,
}

/// Some entry of `q` holds sector `b`.
pub open spec fn q_holds(q: Seq<BlockCache>, b: int) -> bool {
    exists|i: int| 0 <= i < q.len() && (#[trigger] q[i]).block_id == b
}

/// The entry of `q` that holds sector `b`.
pub open spec fn q_slot(q: Seq<BlockCache>, b: int) -> int {
    choose|i: int| 0 <= i < q.len() && (#[trigger] q[i]).block_id == b
}

/// Sector `b` as the cache presents it: the resident copy where there is one,
/// the device's sector otherwise.
pub open spec fn overlay(q: Seq<BlockCache>, raw: Seq<Seq<u8>>, b: int) -> Seq<u8> {
    if q_holds(q, b) {
        q[q_slot(q, b)].cache@
    } else {
        raw[b]
    }
}

/// No sector is resident twice, every resident sector exists on the device,
/// and an unmodified entry equals the device's sector.
pub open spec fn q_wf(q: Seq<BlockCache>, raw: Seq<Seq<u8>>) -> bool {
    &&& sectors_wf(raw)
    &&& q.len() <= BLOCK_CACHE_SIZE
    &&& forall|i: int| 0 <= i < q.len() ==> (#[trigger] q[i]).block_id < raw.len()
    &&& forall|i: int, j: int|
        0 <= i < q.len() && 0 <= j < q.len() && i != j ==> (#[trigger] q[i]).block_id != (
        #[trigger] q[j]).block_id
    &&& forall|i: int|
        0 <= i < q.len() && !(#[trigger] q[i]).modified ==> q[i].cache@ == raw[q[i].block_id as int]
}

proof fn lemma_slot_unique(q: Seq<BlockCache>, raw: Seq<Seq<u8>>, i: int)
    requires
        q_wf(q, raw),
        0 <= i < q.len(),
    ensures
        q_holds(q, q[i].block_id as int),
        q_slot(q, q[i].block_id as int) == i,
{
    let b = q[i].block_id as int;
    assert(q[i].block_id == b);
    let j = q_slot(q, b);
    assert(0 <= j < q.len() && q[j].block_id == b);
}

proof fn lemma_overlay_push(q: Seq<BlockCache>, raw: Seq<Seq<u8>>, e: BlockCache)
    requires
        q_wf(q, raw),
        q.len() < BLOCK_CACHE_SIZE,
        e.block_id < raw.len(),
        !q_holds(q, e.block_id as int),
        !e.modified,
        e.cache@ == raw[e.block_id as int],
    ensures
        q_wf(q.push(e), raw),
        forall|b: int| 0 <= b < raw.len() ==> overlay(q.push(e), raw, b) == overlay(q, raw, b),
{
    let q2 = q.push(e);
    assert forall|i: int, j: int| 0 <= i < q2.len() && 0 <= j < q2.len() && i != j implies (
    #[trigger] q2[i]).block_id != (#[trigger] q2[j]).block_id by {
        if i < q.len() && j < q.len() {
            assert(q[i].block_id != q[j].block_id);
        } else if i < q.len() {
            assert(q[i].block_id != e.block_id);
        } else {
            assert(q[j].block_id != e.block_id);
        }
    }
    assert(q_wf(q2, raw));
    assert forall|b: int| 0 <= b < raw.len() implies overlay(q2, raw, b) == overlay(q, raw, b) by {
        if q_holds(q, b) {
            let i = q_slot(q, b);
            assert(q2[i].block_id == b);
            lemma_slot_unique(q2, raw, i);
        } else if b == e.block_id {
            assert(q2[q.len() as int].block_id == b);
            lemma_slot_unique(q2, raw, q.len() as int);
        } else {
            if q_holds(q2, b) {
                let i = q_slot(q2, b);
                assert(i < q.len());
                assert(q[i].block_id == b);
            }
        }
    }
}

proof fn lemma_overlay_evict(q: Seq<BlockCache>, raw: Seq<Seq<u8>>, raw2: Seq<Seq<u8>>)
    requires
        q_wf(q, raw),
        q.len() > 0,
        raw2 == if q[0].modified {
            raw.update(q[0].block_id as int, q[0].cache@)
        } else {
            raw
        },
    ensures
        q_wf(q.subrange(1, q.len() as int), raw2),
        !q_holds(q.subrange(1, q.len() as int), q[0].block_id as int),
        raw2.len() == raw.len(),
        forall|b: int|
            0 <= b < raw.len() ==> overlay(q.subrange(1, q.len() as int), raw2, b) == overlay(
                q,
                raw,
                b,
            ),
{
    let q2 = q.subrange(1, q.len() as int);
    let v = q[0].block_id as int;
    assert forall|i: int| 0 <= i < q2.len() implies (#[trigger] q2[i]).block_id != v && q2[i]
        == q[i + 1] by {
        assert(q[i + 1].block_id != q[0].block_id);
    }
    assert forall|i: int, j: int| 0 <= i < q2.len() && 0 <= j < q2.len() && i != j implies (
    #[trigger] q2[i]).block_id != (#[trigger] q2[j]).block_id by {
        assert(q[i + 1].block_id != q[j + 1].block_id);
    }
    assert forall|i: int| 0 <= i < q2.len() && !(#[trigger] q2[i]).modified implies q2[i].cache@
        == raw2[q2[i].block_id as int] by {
        assert(q[i + 1].block_id != q[0].block_id);
        assert(!q[i + 1].modified);
    }
    assert forall|b: int| 0 <= b < raw2.len() implies (#[trigger] raw2[b]).len() == 512 by {
        assert(raw[b].len() == 512);
    }
    assert forall|i: int| 0 <= i < q2.len() implies (#[trigger] q2[i]).block_id < raw2.len() by {
        assert(q[i + 1].block_id < raw.len());
    }
    assert(q_wf(q2, raw2));
    lemma_slot_unique(q, raw, 0);
    assert forall|b: int| 0 <= b < raw.len() implies overlay(q2, raw2, b) == overlay(q, raw, b) by {
        if b == v {
            assert(!q_holds(q2, b));
        } else if q_holds(q, b) {
            let i = q_slot(q, b);
            assert(i != 0);
            assert(q2[i - 1].block_id == b);
            lemma_slot_unique(q2, raw2, i - 1);
        } else {
            if q_holds(q2, b) {
                let i = q_slot(q2, b);
                assert(q[i + 1].block_id == b);
            }
        }
    }
}

proof fn lemma_overlay_store(q: Seq<BlockCache>, raw: Seq<Seq<u8>>, i: int, e: BlockCache)
    requires
        q_wf(q, raw),
        0 <= i < q.len(),
        e.block_id == q[i].block_id,
        e.modified,
    ensures
        q_wf(q.update(i, e), raw),
        forall|b: int|
            0 <= b < raw.len() ==> overlay(q.update(i, e), raw, b) == if b == e.block_id {
                e.cache@
            } else {
                overlay(q, raw, b)
            },
{
    let q2 = q.update(i, e);
    assert forall|x: int, y: int| 0 <= x < q2.len() && 0 <= y < q2.len() && x != y implies (
    #[trigger] q2[x]).block_id != (#[trigger] q2[y]).block_id by {
        assert(q[x].block_id != q[y].block_id);
    }
    assert forall|x: int| 0 <= x < q2.len() && !(#[trigger] q2[x]).modified implies q2[x].cache@
        == raw[q2[x].block_id as int] by {
        assert(!q[x].modified);
    }
    assert forall|x: int| 0 <= x < q2.len() implies (#[trigger] q2[x]).block_id < raw.len() by {
        assert(q[x].block_id < raw.len());
    }
    assert(q_wf(q2, raw));
    lemma_slot_unique(q2, raw, i);
    assert forall|b: int| 0 <= b < raw.len() implies overlay(q2, raw, b) == if b == e.block_id {
        e.cache@
    } else {
        overlay(q, raw, b)
    } by {
        if b != e.block_id {
            if q_holds(q, b) {
                let x = q_slot(q, b);
                assert(q2[x].block_id == b);
                lemma_slot_unique(q2, raw, x);
            } else if q_holds(q2, b) {
                let x = q_slot(q2, b);
                assert(q[x].block_id == b);
            }
        }
    }
}

impl<D: BlockDevice> View for BlockCacheManager<D> {
    type V = Seq<Seq<u8>>;

    /// The disk as every reader sees it through the cache.
    closed spec fn view(&self) -> Seq<Seq<u8>> {
        Seq::new(
            self.device.sectors().len(),
            |b: int| overlay(self.queue@, self.device.sectors(), b),
        )
    }
}

impl<D: BlockDevice> BlockCacheManager<D> {
    /// What the device itself holds, without the cache's pending changes.
    pub closed spec fn raw(&self) -> Seq<Seq<u8>> {
        self.device.sectors()
    }

    /// The resident sectors, oldest first.
    pub closed spec fn resident(&self) -> Seq<usize> {
        Seq::new(self.queue@.len(), |i: int| self.queue@[i].block_id)
    }

    /// Sector `b` is resident and differs, or may differ, from the device.
    pub closed spec fn is_dirty(&self, b: int) -> bool {
        q_holds(self.queue@, b) && self.queue@[q_slot(self.queue@, b)].modified
    }

    /// The cache's invariant.
    pub closed spec fn wf(&self) -> bool {
        q_wf(self.queue@, self.device.sectors())
    }

    /// What bringing sector `block_id` into the cache does to residency and to
    /// the device: nothing if it is resident; else it joins at the back, and
    /// if the cache was full the oldest entry leaves, written to the device
    /// if it was modified.
    #[verifier::opaque]
    pub open spec fn touched(pre: Self, post: Self, block_id: usize) -> bool {
        if pre.resident().contains(block_id) {
            post.resident() == pre.resident() && post.raw() == pre.raw()
        } else if pre.resident().len() < BLOCK_CACHE_SIZE {
            post.resident() == pre.resident().push(block_id) && post.raw() == pre.raw()
        } else {
            let victim = pre.resident()[0];
            &&& post.resident() == pre.resident().subrange(1, BLOCK_CACHE_SIZE as int).push(
                block_id,
            )
            &&& post.raw() == if pre.is_dirty(victim as int) {
                pre.raw().update(victim as int, pre@[victim as int])
            } else {
                pre.raw()
            }
        }
    }

    /// The view has the device's shape: as many sectors, each of 512 bytes.
    pub proof fn lemma_view_shape(&self)
        requires
            self.wf(),
        ensures
            self@.len() == self.raw().len(),
            sectors_wf(self@),
            self.resident().len() <= BLOCK_CACHE_SIZE,
            forall|b: int| 0 <= b < self@.len() && !self.is_dirty(b) ==> self@[b] == self.raw()[b],
    {
        let q = self.queue@;
        let raw = self.device.sectors();
        assert forall|b: int| 0 <= b < self@.len() implies (#[trigger] self@[b]).len() == 512 by {
            assert(raw[b].len() == 512);
        }
        assert forall|b: int| 0 <= b < self@.len() && !self.is_dirty(b) implies self@[b]
            == self.raw()[b] by {
            if q_holds(q, b) {
                let i = q_slot(q, b);
                assert(!q[i].modified);
            }
        }
    }

    /// An empty cache in front of `device`.
    pub fn new(device: D) -> (m: Self)
        requires
            sectors_wf(device.sectors()),
        ensures
            m.wf(),
            m@ == device.sectors(),
            m.raw() == device.sectors(),
            m.resident().len() == 0,
    {
        let m = BlockCacheManager { device, queue: Vec::new() };
        assert(m@ =~= device.sectors());
        m
    }

    /// The device behind the cache.
    pub fn device(&self) -> (d: &D)
        ensures
            d.sectors() == self.raw(),
    {
        &self.device
    }

    /// Gives the device back. Changes that were not written to it are lost.
    pub fn into_device(self) -> (d: D)
        ensures
            d.sectors() == self.raw(),
    {
        self.device
    }

    /// Makes sector `block_id` resident and returns its place in the queue.
    fn fetch(&mut self, block_id: usize) -> (i: usize)
        requires
            old(self).wf(),
            block_id < old(self)@.len(),
        ensures
            final(self).wf(),
            final(self)@ == old(self)@,
            i < final(self).queue@.len(),
            final(self).queue@[i as int].block_id == block_id,
            final(self).queue@[i as int].cache@ == old(self)@[block_id as int],
            Self::touched(*old(self), *final(self), block_id),
    {
        proof {
            reveal(BlockCacheManager::touched);
        }
        let mut i: usize = 0;
        while i < self.queue.len()
            invariant
                *self == *old(self),
                self.wf(),
                block_id < self@.len(),
                i <= self.queue@.len(),
                forall|j: int| 0 <= j < i ==> (#[trigger] self.queue@[j]).block_id != block_id,
            decreases self.queue@.len() - i,
        {
            if self.queue[i].block_id == block_id {
                proof {
                    reveal(BlockCacheManager::touched);
                    lemma_slot_unique(self.queue@, self.device.sectors(), i as int);
                    assert(self.resident()[i as int] == block_id);
                }
                return i;
            }
            i += 1;
        }
        proof {
            assert(!q_holds(self.queue@, block_id as int));
            assert(!self.resident().contains(block_id)) by {
                if self.resident().contains(block_id) {
                    let j = choose|j: int|
                        0 <= j < self.resident().len() && self.resident()[j] == block_id;
                    assert(self.queue@[j].block_id == block_id);
                }
            }
        }
        let ghost q0 = self.queue@;
        let ghost raw0 = self.device.sectors();
        if self.queue.len() == BLOCK_CACHE_SIZE {
            let victim = self.queue.remove(0);
            if victim.modified {
                self.device.write_block(victim.block_id, &victim.cache);
            }
            proof {
                lemma_overlay_evict(q0, raw0, self.device.sectors());
                lemma_slot_unique(q0, raw0, 0);
                assert(self.queue@ == q0.subrange(1, q0.len() as int));
                assert(old(self).is_dirty(victim.block_id as int) == victim.modified);
                assert(old(self)@[victim.block_id as int] == victim.cache@);
                assert(self.resident() =~= old(self).resident().subrange(
                    1,
                    BLOCK_CACHE_SIZE as int,
                ));
            }
        }
        let ghost q1 = self.queue@;
        let ghost raw1 = self.device.sectors();
        let mut data = [0u8; 512];
        self.device.read_block(block_id, &mut data);
        let e = BlockCache { block_id, cache: data, modified: false };
        self.queue.push(e);
        proof {
            if q_holds(q1, block_id as int) {
                let j = q_slot(q1, block_id as int);
                if q0.len() == BLOCK_CACHE_SIZE {
                    assert(q0[j + 1].block_id == block_id);
                }
            }
            lemma_overlay_push(q1, raw1, e);
            assert(self.queue@ == q1.push(e));
            lemma_slot_unique(self.queue@, raw1, q1.len() as int);
            assert(self@ =~= old(self)@);
            assert(self.resident() =~= Seq::new(q1.len(), |i: int| q1[i].block_id).push(block_id));
        }
        self.queue.len() - 1
    }

    /// Replaces the resident copy at place `i` by `data` and marks it modified.
    fn store(&mut self, i: usize, data: [u8; 512])
        requires
            old(self).wf(),
            i < old(self).queue@.len(),
        ensures
            final(self).wf(),
            final(self)@ == old(self)@.update(old(self).queue@[i as int].block_id as int, data@),
            final(self).raw() == old(self).raw(),
            final(self).resident() == old(self).resident(),
            final(self).is_dirty(old(self).queue@[i as int].block_id as int),
    {
        let ghost q0 = self.queue@;
        let ghost raw = self.device.sectors();
        let ghost e = BlockCache { block_id: q0[i as int].block_id, cache: data, modified: true };
        self.queue[i].cache = data;
        self.queue[i].modified = true;
        proof {
            assert(self.queue@ =~= q0.update(i as int, e));
            lemma_overlay_store(q0, raw, i as int, e);
            assert(self@ =~= old(self)@.update(q0[i as int].block_id as int, data@));
            assert(self.resident() =~= old(self).resident());
            lemma_slot_unique(self.queue@, raw, i as int);
        }
    }

    /// The byte at `offset` of sector `block_id`.
    pub fn read_u8(&mut self, block_id: usize, offset: usize) -> (r: u8)
        requires
            old(self).wf(),
            block_id < old(self)@.len(),
            offset < 512,
        ensures
            final(self).wf(),
            final(self)@ == old(self)@,
            r == old(self)@[block_id as int][offset as int],
            Self::touched(*old(self), *final(self), block_id),
    {
        let i = self.fetch(block_id);
        self.queue[i].cache[offset]
    }

    /// Sets the byte at `offset` of sector `block_id` to `v`.
    pub fn write_u8(&mut self, block_id: usize, offset: usize, v: u8)
        requires
            old(self).wf(),
            block_id < old(self)@.len(),
            offset < 512,
        ensures
            final(self).wf(),
            Self::touched(*old(self), *final(self), block_id),
            final(self).is_dirty(block_id as int),
            final(self)@ == old(self)@.update(
                block_id as int,
                old(self)@[block_id as int].update(offset as int, v),
            ),
    {
        let i = self.fetch(block_id);
        let mut data = self.queue[i].cache;
        data[offset] = v;
        self.store(i, data);
        proof {
            reveal(BlockCacheManager::touched);
        }
    }

    /// The little-endian word at `offset` of sector `block_id`.
    pub fn read_u32(&mut self, block_id: usize, offset: usize) -> (r: u32)
        requires
            old(self).wf(),
            block_id < old(self)@.len(),
            offset + 4 <= 512,
        ensures
            final(self).wf(),
            final(self)@ == old(self)@,
            r == le_u32(old(self)@[block_id as int], offset as int),
            Self::touched(*old(self), *final(self), block_id),
    {
        let i = self.fetch(block_id);
        let e = &self.queue[i];
        u32_from_bytes(
            e.cache[offset],
            e.cache[offset + 1],
            e.cache[offset + 2],
            e.cache[offset + 3],
        )
    }

    /// Stores `v` as a little-endian word at `offset` of sector `block_id`.
    pub fn write_u32(&mut self, block_id: usize, offset: usize, v: u32)
        requires
            old(self).wf(),
            block_id < old(self)@.len(),
            offset + 4 <= 512,
        ensures
            final(self).wf(),
            Self::touched(*old(self), *final(self), block_id),
            final(self).is_dirty(block_id as int),
            final(self)@ == old(self)@.update(
                block_id as int,
                put_u32(old(self)@[block_id as int], offset as int, v),
            ),
    {
        let i = self.fetch(block_id);
        let mut data = self.queue[i].cache;
        data[offset] = u32_byte_at(v, 0);
        data[offset + 1] = u32_byte_at(v, 1);
        data[offset + 2] = u32_byte_at(v, 2);
        data[offset + 3] = u32_byte_at(v, 3);
        assert(data@ =~= put_u32(old(self)@[block_id as int], offset as int, v));
        self.store(i, data);
        proof {
            reveal(BlockCacheManager::touched);
        }
    }

    /// Copies `len` bytes from `offset` of sector `block_id` to `buf[start ..]`.
    pub fn read_bytes(
        &mut self,
        block_id: usize,
        offset: usize,
        buf: &mut [u8],
        start: usize,
        len: usize,
    )
        requires
            old(self).wf(),
            block_id < old(self)@.len(),
            offset + len <= 512,
            start + len <= old(buf).len(),
        ensures
            final(self).wf(),
            final(self)@ == old(self)@,
            final(buf)@ == splice(
                old(buf)@,
                start as int,
                old(self)@[block_id as int],
                offset as int,
                len as int,
            ),
            Self::touched(*old(self), *final(self), block_id),
    {
        let i = self.fetch(block_id);
        let mut k: usize = 0;
        while k < len
            invariant
                k <= len,
                offset + len <= 512,
                start + len <= buf.len(),
                buf.len() == old(buf).len(),
                i < self.queue@.len(),
                buf@ == splice(
                    old(buf)@,
                    start as int,
                    self.queue@[i as int].cache@,
                    offset as int,
                    k as int,
                ),
            decreases len - k,
        {
            buf[start + k] = self.queue[i].cache[offset + k];
            k += 1;
        }
    }

    /// Copies `buf[start .. start + len]` over the bytes from `offset` of
    /// sector `block_id`.
    pub fn write_bytes(
        &mut self,
        block_id: usize,
        offset: usize,
        buf: &[u8],
        start: usize,
        len: usize,
    )
        requires
            old(self).wf(),
            block_id < old(self)@.len(),
            offset + len <= 512,
            start + len <= buf.len(),
        ensures
            final(self).wf(),
            Self::touched(*old(self), *final(self), block_id),
            final(self).is_dirty(block_id as int),
            final(self)@ == old(self)@.update(
                block_id as int,
                splice(old(self)@[block_id as int], offset as int, buf@, start as int, len as int),
            ),
    {
        let i = self.fetch(block_id);
        let mut data = self.queue[i].cache;
        let ghost d0 = data@;
        let mut k: usize = 0;
        while k < len
            invariant
                k <= len,
                offset + len <= 512,
                start + len <= buf.len(),
                d0.len() == 512,
                data@ == splice(d0, offset as int, buf@, start as int, k as int),
            decreases len - k,
        {
            data[offset + k] = buf[start + k];
            k += 1;
        }
        self.store(i, data);
        proof {
            reveal(BlockCacheManager::touched);
        }
    }

    /// Fills sector `block_id` with zeros.
    pub fn zero_block(&mut self, block_id: usize)
        requires
            old(self).wf(),
            block_id < old(self)@.len(),
        ensures
            final(self).wf(),
            Self::touched(*old(self), *final(self), block_id),
            final(self).is_dirty(block_id as int),
            final(self)@ == old(self)@.update(block_id as int, Seq::new(512, |i: int| 0u8)),
    {
        let i = self.fetch(block_id);
        let data = [0u8; 512];
        assert(data@ =~= Seq::new(512, |i: int| 0u8));
        self.store(i, data);
        proof {
            reveal(BlockCacheManager::touched);
        }
    }

    /// Writes every modified sector to the device. Nothing leaves the cache.
    pub fn sync_all(&mut self)
        requires
            old(self).wf(),
        ensures
            final(self).wf(),
            final(self)@ == old(self)@,
            final(self).raw() == final(self)@,
            final(self).resident() == old(self).resident(),
            forall|b: int| !final(self).is_dirty(b),
    {
        let mut i: usize = 0;
        while i < self.queue.len()
            invariant
                self.wf(),
                self@ == old(self)@,
                self.resident() == old(self).resident(),
                i <= self.queue@.len(),
                forall|j: int| 0 <= j < i ==> !(#[trigger] self.queue@[j]).modified,
            decreases self.queue@.len() - i,
        {
            let ghost q0 = self.queue@;
            let ghost raw0 = self.device.sectors();
            let ghost v0 = self@;
            if self.queue[i].modified {
                let id = self.queue[i].block_id;
                self.device.write_block(id, &self.queue[i].cache);
                self.queue[i].modified = false;
                proof {
                    let q1 = self.queue@;
                    let raw1 = self.device.sectors();
                    assert(q1.len() == q0.len());
                    assert forall|j: int| 0 <= j < q1.len() implies (#[trigger] q1[j]).block_id
                        == q0[j].block_id && q1[j].cache == q0[j].cache && (j != i
                        ==> q1[j].modified == q0[j].modified) by {}
                    assert forall|x: int, y: int|
                        0 <= x < q1.len() && 0 <= y < q1.len() && x != y implies (
                    #[trigger] q1[x]).block_id != (#[trigger] q1[y]).block_id by {
                        assert(q0[x].block_id != q0[y].block_id);
                    }
                    assert forall|x: int| 0 <= x < q1.len() && !(#[trigger] q1[x]).modified implies q1[x].cache@
                        == raw1[q1[x].block_id as int] by {
                        if x != i {
                            assert(q0[x].block_id != q0[i as int].block_id);
                            assert(!q0[x].modified);
                        }
                    }
                    assert forall|b: int| 0 <= b < raw1.len() implies (#[trigger] raw1[b]).len()
                        == 512 by {
                        assert(raw0[b].len() == 512);
                    }
                    assert forall|x: int| 0 <= x < q1.len() implies (#[trigger] q1[x]).block_id
                        < raw1.len() by {
                        assert(q0[x].block_id < raw0.len());
                    }
                    assert(q_wf(q1, raw1));
                    assert forall|b: int| 0 <= b < raw1.len() implies overlay(q1, raw1, b)
                        == overlay(q0, raw0, b) by {
                        if q_holds(q0, b) {
                            let x = q_slot(q0, b);
                            assert(q1[x].block_id == b);
                            lemma_slot_unique(q1, raw1, x);
                        } else if q_holds(q1, b) {
                            let x = q_slot(q1, b);
                            assert(q0[x].block_id == b);
                        }
                    }
                    assert(self@ =~= v0);
                    assert(self.resident() =~= old(self).resident());
                }
            }
            i += 1;
        }
        proof {
            let q = self.queue@;
            let raw = self.device.sectors();
            assert forall|b: int| !self.is_dirty(b) by {
                if q_holds(q, b) {
                    let x = q_slot(q, b);
                    assert(!q[x].modified);
                }
            }
            assert forall|b: int| 0 <= b < raw.len() implies overlay(q, raw, b) == raw[b] by {
                if q_holds(q, b) {
                    let x = q_slot(q, b);
                    assert(!q[x].modified);
                }
            }
            assert(self.raw() =~= self@);
        }
    }
}

} // verus!
