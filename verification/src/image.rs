//! What a well-formed filesystem image is: which inode slots are in use, which
//! blocks each inode has, and how that agrees with the data bitmap.

use crate::bitmap::Bitmap;
use crate::block_dev::sectors_wf;
use crate::disk_inode::DiskInode;
use crate::layout::spec_total_blocks;
use crate::super_block::SuperBlock;
use vstd::prelude::*;

verus! {

/// `ino` is the number of an inode slot.
pub open spec fn ino_ok(sb: SuperBlock, ino: int) -> bool {
    0 <= ino < sb.inode_count()
}

/// The sector that holds inode `ino`.
pub open spec fn inode_block(sb: SuperBlock, ino: int) -> int {
    sb.inode_area_start() + ino / 4
}

/// The byte at which inode `ino` starts in its sector.
pub open spec fn inode_offset(ino: int) -> int {
    (ino % 4) * 128
}

/// The record of inode `ino`.
#[verifier::opaque]
pub open spec fn inode_of(sb: SuperBlock, disk: Seq<Seq<u8>>, ino: int) -> DiskInode {
    DiskInode::decode(
        disk[inode_block(sb, ino)].subrange(inode_offset(ino), inode_offset(ino) + 128),
    )
}

/// The bitmap of inode slots.
pub open spec fn inode_bitmap(sb: SuperBlock) -> Bitmap {
    Bitmap { start_block_id: 1, blocks: sb.inode_bitmap_blocks as usize }
}

/// The bitmap of data blocks.
pub open spec fn data_bitmap(sb: SuperBlock) -> Bitmap {
    Bitmap {
        start_block_id: sb.data_bitmap_start() as usize,
        blocks: sb.data_bitmap_blocks as usize,
    }
}

/// Inode slot `ino` is in use.
pub open spec fn used(sb: SuperBlock, disk: Seq<Seq<u8>>, ino: int) -> bool {
    inode_bitmap(sb).is_set(disk, ino)
}

/// Sector `b` lies in the data area.
pub open spec fn in_data_area(sb: SuperBlock, b: int) -> bool {
    sb.data_area_start() <= b < sb.data_area_start() + sb.data_area_blocks
}

/// The data bitmap marks sector `b` of the data area as allocated.
pub open spec fn allocated(sb: SuperBlock, disk: Seq<Seq<u8>>, b: int) -> bool {
    data_bitmap(sb).is_set(disk, b - sb.data_area_start())
}

/// Inode `ino` is in use and sector `b` is one of its blocks.
pub open spec fn owns(sb: SuperBlock, disk: Seq<Seq<u8>>, ino: int, b: int) -> bool {
    ino_ok(sb, ino) && used(sb, disk, ino) && inode_of(sb, disk, ino).owns(disk, b)
}

/// Some inode in use has sector `b`.
pub open spec fn owned_by_some(sb: SuperBlock, disk: Seq<Seq<u8>>, b: int) -> bool {
    exists|ino: int| owns(sb, disk, ino, b)
}

/// Number of free blocks of the data area.
pub open spec fn free_data(sb: SuperBlock, disk: Seq<Seq<u8>>) -> int {
    data_bitmap(sb).free_below(disk, sb.data_area_blocks as int)
}

/// Number of free inode slots.
pub open spec fn free_inodes(sb: SuperBlock, disk: Seq<Seq<u8>>) -> int {
    inode_bitmap(sb).free_below(disk, sb.inode_count())
}

/// Sector 0 holds `sb`, its geometry is consistent and fits the disk.
pub open spec fn layout_wf(sb: SuperBlock, disk: Seq<Seq<u8>>) -> bool {
    &&& sectors_wf(disk)
    &&& sb.geometry_ok()
    &&& sb.total_blocks <= disk.len()
    &&& SuperBlock::decode(disk[0]) == sb
}

/// The blocks of inode `ino` are distinct sectors of the data area.
pub open spec fn inode_wf(sb: SuperBlock, disk: Seq<Seq<u8>>, ino: int) -> bool {
    let d = inode_of(sb, disk, ino);
    &&& d.fits(disk)
    &&& d.distinct(disk)
    &&& forall|p: int|
        0 <= p < spec_total_blocks(d.size as int) ==> in_data_area(sb, #[trigger] d.owned_at(disk, p) as int)
}

/// The structure of the image is sound: every inode in use has distinct
/// blocks in the data area, no block belongs to two inodes, and the data
/// bitmap marks exactly the blocks that belong to some inode.
#[verifier::opaque]
pub open spec fn struct_wf(sb: SuperBlock, disk: Seq<Seq<u8>>) -> bool {
    &&& layout_wf(sb, disk)
    &&& forall|ino: int| ino_ok(sb, ino) && #[trigger] used(sb, disk, ino) ==> inode_wf(sb, disk, ino)
    &&& forall|i: int, j: int, b: int|
        #![trigger owns(sb, disk, i, b), owns(sb, disk, j, b)]
        owns(sb, disk, i, b) && owns(sb, disk, j, b) ==> i == j
    &&& forall|b: int|
        in_data_area(sb, b) ==> (#[trigger] allocated(sb, disk, b) <==> owned_by_some(sb, disk, b))
    &&& forall|q: int|
        sb.data_area_blocks <= q < sb.data_bitmap_blocks * 4096 ==> !#[trigger] data_bitmap(
            sb,
        ).is_set(disk, q)
}

/// The sizes of a consistent geometry are small enough for every sector
/// number and bit position to fit a machine word.
pub proof fn lemma_geometry(sb: SuperBlock)
    requires
        sb.geometry_ok(),
    ensures
        sb.inode_bitmap_blocks <= 1048575,
        sb.data_bitmap_blocks <= 1048575,
        sb.inode_count() <= u32::MAX,
        sb.data_bitmap_start() <= sb.data_area_start() <= sb.total_blocks,
        sb.data_area_start() + sb.data_area_blocks == sb.total_blocks,
{
    let ib = sb.inode_bitmap_blocks as int;
    let ia = sb.inode_area_blocks as int;
    let db = sb.data_bitmap_blocks as int;
    let da = sb.data_area_blocks as int;
    assert(ia == ib * 1024);
}

/// The regions do not overlap: the inode bitmap, the inode area, the data
/// bitmap and the data area follow sector 0 in this order.
pub proof fn lemma_regions(sb: SuperBlock, disk: Seq<Seq<u8>>)
    requires
        layout_wf(sb, disk),
    ensures
        inode_bitmap(sb).wf(disk),
        data_bitmap(sb).wf(disk),
        inode_bitmap(sb).start_block_id == 1,
        inode_bitmap(sb).blocks == sb.inode_bitmap_blocks,
        data_bitmap(sb).start_block_id == sb.data_bitmap_start(),
        data_bitmap(sb).blocks == sb.data_bitmap_blocks,
        sb.data_area_start() + sb.data_area_blocks == sb.total_blocks,
        inode_bitmap(sb).spec_maximum() == sb.inode_count(),
        sb.data_area_blocks <= data_bitmap(sb).spec_maximum(),
{
    lemma_geometry(sb);
}

/// Where inode `ino` lies: in a sector of the inode area, at one of four
/// places.
pub proof fn lemma_inode_pos(sb: SuperBlock, disk: Seq<Seq<u8>>, ino: int)
    requires
        layout_wf(sb, disk),
        ino_ok(sb, ino),
    ensures
        sb.inode_area_start() <= inode_block(sb, ino) < sb.data_bitmap_start(),
        inode_block(sb, ino) < disk.len(),
        0 <= inode_offset(ino) <= 384,
        disk[inode_block(sb, ino)].len() == 512,
{
    lemma_geometry(sb);
    let ib = sb.inode_bitmap_blocks as int;
    let ia = sb.inode_area_blocks as int;
    assert(ia * 4 == ib * 4096);
    assert(ino / 4 < ia);
}

/// Sector `b` lies in the inode area.
pub open spec fn in_inode_area(sb: SuperBlock, b: int) -> bool {
    sb.inode_area_start() <= b < sb.data_bitmap_start()
}

/// Sector `b` is one of `v`.
pub open spec fn seq_has(v: Seq<u32>, b: int) -> bool {
    exists|x: int| 0 <= x < v.len() && #[trigger] v[x] == b
}

/// Sector `b` belongs to the data bitmap.
pub open spec fn in_data_bitmap(sb: SuperBlock, b: int) -> bool {
    sb.data_bitmap_start() <= b < sb.data_bitmap_start() + sb.data_bitmap_blocks
}

/// An image in which no inode slot is in use and no data block is allocated
/// has a sound structure.
pub proof fn lemma_blank(sb: SuperBlock, disk: Seq<Seq<u8>>)
    requires
        layout_wf(sb, disk),
        forall|b: int, i: int|
            1 <= b < sb.inode_area_start() && 0 <= i < 512 ==> #[trigger] disk[b][i] == 0u8,
        forall|b: int, i: int|
            sb.data_bitmap_start() <= b < sb.data_area_start() && 0 <= i < 512
                ==> #[trigger] disk[b][i] == 0u8,
    ensures
        struct_wf(sb, disk),
        forall|j: int| ino_ok(sb, j) ==> !#[trigger] used(sb, disk, j),
        free_data(sb, disk) == sb.data_area_blocks,
        free_inodes(sb, disk) == sb.inode_count(),
{
    reveal(struct_wf);
    lemma_regions(sb, disk);
    lemma_geometry(sb);
    inode_bitmap(sb).lemma_zero_clear(disk);
    data_bitmap(sb).lemma_zero_clear(disk);
    assert forall|b: int| in_data_area(sb, b) implies (#[trigger] allocated(sb, disk, b)
        <==> owned_by_some(sb, disk, b)) by {
        assert(!data_bitmap(sb).is_set(disk, b - sb.data_area_start()));
        if owned_by_some(sb, disk, b) {
            let j = choose|j: int| owns(sb, disk, j, b);
            assert(used(sb, disk, j));
        }
    }
}

/// What a sound structure gives for an inode in use: its blocks are distinct
/// sectors of the data area, each marked allocated.
pub proof fn lemma_struct_inode(sb: SuperBlock, disk: Seq<Seq<u8>>, ino: int)
    requires
        struct_wf(sb, disk),
        ino_ok(sb, ino),
        used(sb, disk, ino),
    ensures
        layout_wf(sb, disk),
        inode_wf(sb, disk, ino),
        inode_of(sb, disk, ino).fits(disk),
        inode_of(sb, disk, ino).distinct(disk),
        inode_of(sb, disk, ino).owned(disk).no_duplicates(),
        forall|p: int|
            0 <= p < inode_of(sb, disk, ino).owned(disk).len() ==> in_data_area(
                sb,
                #[trigger] inode_of(sb, disk, ino).owned(disk)[p] as int,
            ) && allocated(sb, disk, inode_of(sb, disk, ino).owned(disk)[p] as int) && owns(
                sb,
                disk,
                ino,
                inode_of(sb, disk, ino).owned(disk)[p] as int,
            ),
{
    reveal(struct_wf);
    let rec = inode_of(sb, disk, ino);
    let v = rec.owned(disk);
    assert(inode_wf(sb, disk, ino));
    assert forall|x: int, y: int| 0 <= x < v.len() && 0 <= y < v.len() && x != y implies v[x]
        != v[y] by {
        if x < y {
            assert(rec.owned_at(disk, x) != rec.owned_at(disk, y));
        } else {
            assert(rec.owned_at(disk, y) != rec.owned_at(disk, x));
        }
    }
    assert forall|p: int| 0 <= p < v.len() implies in_data_area(sb, #[trigger] v[p] as int)
        && allocated(sb, disk, v[p] as int) && owns(sb, disk, ino, v[p] as int) by {
        let b = rec.owned_at(disk, p) as int;
        assert(v[p] == b);
        assert(in_data_area(sb, b));
        assert(owns(sb, disk, ino, b));
        assert(owned_by_some(sb, disk, b));
    }
}

/// What a sound structure gives for the bitmaps: no bit beyond the data
/// area is set.
pub proof fn lemma_struct_bits(sb: SuperBlock, disk: Seq<Seq<u8>>)
    requires
        struct_wf(sb, disk),
    ensures
        layout_wf(sb, disk),
        forall|q: int|
            sb.data_area_blocks <= q < sb.data_bitmap_blocks * 4096 ==> !#[trigger] data_bitmap(
                sb,
            ).is_set(disk, q),
        forall|b: int|
            in_data_area(sb, b) ==> (#[trigger] allocated(sb, disk, b) <==> owned_by_some(
                sb,
                disk,
                b,
            )),
{
    reveal(struct_wf);
}

/// No phantom allocations: in a sound image a block of the data area is
/// marked allocated exactly if it is a block of some inode in use, and of no
/// second one.
pub proof fn lemma_allocated_is_owned(sb: SuperBlock, disk: Seq<Seq<u8>>, b: int)
    requires
        struct_wf(sb, disk),
        in_data_area(sb, b),
    ensures
        allocated(sb, disk, b) <==> owned_by_some(sb, disk, b),
        forall|i: int, j: int| owns(sb, disk, i, b) && owns(sb, disk, j, b) ==> i == j,
{
    reveal(struct_wf);
}

} // verus!
