//! Operations on one inode, step by step: what holds of the disk while an
//! operation on an inode is under way, and why the image is sound again once
//! the inode's record is stored.

use crate::block_dev::sectors_wf;
use crate::codec::splice;
use crate::disk_inode::{index_hit, is_index_pos, DiskInode, DiskInodeType};
use crate::image::{
    allocated, data_bitmap, free_data, free_inodes, in_data_area, in_data_bitmap, in_inode_area,
    ino_ok, inode_bitmap, inode_block, inode_of, inode_offset, inode_wf, layout_wf,
    lemma_geometry, lemma_inode_pos, lemma_regions, owned_by_some, owns, seq_has, struct_wf, used,
};
use crate::layout::spec_total_blocks;
use crate::namespace::{count_links, dir_wf, root_entries};
use crate::super_block::SuperBlock;
use vstd::prelude::*;

verus! {

/// A step on inode `ino` left every other inode alone: the same slots are
/// in use, and every other inode has the same record and the same bytes.
pub open spec fn others_same(sb: SuperBlock, d0: Seq<Seq<u8>>, d1: Seq<Seq<u8>>, ino: int) -> bool {
    &&& forall|j: int| ino_ok(sb, j) && j != ino ==> #[trigger] used(sb, d1, j) == used(sb, d0, j)
    &&& forall|j: int|
        ino_ok(sb, j) && j != ino ==> #[trigger] inode_of(sb, d1, j) == inode_of(sb, d0, j)
    &&& forall|j: int|
        ino_ok(sb, j) && j != ino && used(sb, d0, j) ==> #[trigger] inode_of(sb, d1, j).content(d1)
            == inode_of(sb, d0, j).content(d0)
    &&& forall|j: int|
        ino_ok(sb, j) && j != ino && used(sb, d0, j) ==> #[trigger] inode_of(sb, d1, j).owned(d1)
            == inode_of(sb, d0, j).owned(d0)
    &&& forall|j: int, p: int|
        ino_ok(sb, j) && j != ino && used(sb, d0, j) && 0 <= p < inode_of(sb, d0, j).owned(
            d0,
        ).len() ==> d1[#[trigger] inode_of(sb, d0, j).owned(d0)[p] as int] == d0[inode_of(
            sb,
            d0,
            j,
        ).owned(d0)[p] as int]
}

/// Two steps, on inodes `a` and `b`, left every other inode alone: the same
/// slots are in use, and every other inode has the same record, the same
/// bytes and the same blocks, sector for sector.
pub open spec fn others_same2(
    sb: SuperBlock,
    d0: Seq<Seq<u8>>,
    d1: Seq<Seq<u8>>,
    a: int,
    b: int,
) -> bool {
    &&& forall|j: int|
        ino_ok(sb, j) && j != a && j != b ==> #[trigger] used(sb, d1, j) == used(sb, d0, j)
    &&& forall|j: int|
        ino_ok(sb, j) && j != a && j != b ==> #[trigger] inode_of(sb, d1, j) == inode_of(sb, d0, j)
    &&& forall|j: int|
        ino_ok(sb, j) && j != a && j != b && used(sb, d0, j) ==> #[trigger] inode_of(
            sb,
            d1,
            j,
        ).content(d1) == inode_of(sb, d0, j).content(d0)
    &&& forall|j: int|
        ino_ok(sb, j) && j != a && j != b && used(sb, d0, j) ==> #[trigger] inode_of(sb, d1, j).owned(
            d1,
        ) == inode_of(sb, d0, j).owned(d0)
    &&& forall|j: int, p: int|
        ino_ok(sb, j) && j != a && j != b && used(sb, d0, j) && 0 <= p < inode_of(sb, d0, j).owned(
            d0,
        ).len() ==> d1[#[trigger] inode_of(sb, d0, j).owned(d0)[p] as int] == d0[inode_of(
            sb,
            d0,
            j,
        ).owned(d0)[p] as int]
}

/// The data bitmap went with inode `ino`: a block of the data area is marked
/// allocated on `d1` exactly if the inode has it there, or it was marked on
/// `d0` and was not the inode's. So no bit changed but for blocks that the
/// inode took or gave up.
pub open spec fn bitmap_follows(sb: SuperBlock, d0: Seq<Seq<u8>>, d1: Seq<Seq<u8>>, ino: int) -> bool {
    forall|b: int|
        in_data_area(sb, b) ==> #[trigger] allocated(sb, d1, b) == (owns(sb, d1, ino, b) || (
        allocated(sb, d0, b) && !owns(sb, d0, ino, b)))
}

/// No bit of the data bitmap that stands for a block of the data area
/// changed.
pub open spec fn bitmap_same(sb: SuperBlock, d0: Seq<Seq<u8>>, d1: Seq<Seq<u8>>) -> bool {
    forall|b: int| in_data_area(sb, b) ==> #[trigger] allocated(sb, d1, b) == allocated(sb, d0, b)
}

/// A block is one of a record's blocks exactly if it is in the sequence of
/// them.
pub proof fn lemma_owns_seq(rec: DiskInode, disk: Seq<Seq<u8>>, b: int)
    ensures
        rec.owns(disk, b) == seq_has(rec.owned(disk), b),
{
    let t = spec_total_blocks(rec.size as int);
    let v = rec.owned(disk);
    if rec.owns(disk, b) {
        let p = choose|p: int| 0 <= p < t && #[trigger] rec.owned_at(disk, p) == b;
        assert(v[p] == b);
    }
    if seq_has(v, b) {
        let x = choose|x: int| 0 <= x < v.len() && #[trigger] v[x] == b;
        assert(rec.owned_at(disk, x) == b);
    }
}

/// An inode in use on both disks, or on neither, with the same blocks has
/// the same blocks as a set.
pub proof fn lemma_owns_same(
    sb: SuperBlock,
    d0: Seq<Seq<u8>>,
    d1: Seq<Seq<u8>>,
    j: int,
)
    requires
        used(sb, d1, j) == used(sb, d0, j),
        used(sb, d0, j) ==> inode_of(sb, d1, j).owned(d1) == inode_of(sb, d0, j).owned(d0),
    ensures
        forall|b: int| #[trigger] owns(sb, d1, j, b) == owns(sb, d0, j, b),
{
    assert forall|b: int| #[trigger] owns(sb, d1, j, b) == owns(sb, d0, j, b) by {
        lemma_owns_seq(inode_of(sb, d1, j), d1, b);
        lemma_owns_seq(inode_of(sb, d0, j), d0, b);
    }
}

/// The bitmap went with an inode whose blocks are the same: no bit changed.
pub proof fn lemma_bitmap_kept(sb: SuperBlock, d0: Seq<Seq<u8>>, d1: Seq<Seq<u8>>, ino: int)
    requires
        struct_wf(sb, d0),
        bitmap_follows(sb, d0, d1, ino),
        forall|b: int| #[trigger] owns(sb, d1, ino, b) == owns(sb, d0, ino, b),
    ensures
        bitmap_same(sb, d0, d1),
{
    reveal(struct_wf);
    assert forall|b: int| in_data_area(sb, b) implies #[trigger] allocated(sb, d1, b) == allocated(
        sb,
        d0,
        b,
    ) by {
        if owns(sb, d0, ino, b) {
            assert(owned_by_some(sb, d0, b));
        }
    }
}

/// One inode changed and every other one was left alone, block for block;
/// what the inode has now is distinct, lies in the data area and was its own
/// or free before; the data bitmap marks what it has now and no longer what
/// it gave up. Then the structure is still sound, and every other inode reads
/// as before.
pub proof fn lemma_one_inode_changed(
    sb: SuperBlock,
    d1: Seq<Seq<u8>>,
    d2: Seq<Seq<u8>>,
    i: int,
)
    requires
        struct_wf(sb, d1),
        ino_ok(sb, i),
        sectors_wf(d2),
        d2.len() == d1.len(),
        d2[0] == d1[0],
        used(sb, d2, i),
        forall|j: int| ino_ok(sb, j) && j != i ==> #[trigger] used(sb, d2, j) == used(sb, d1, j),
        forall|j: int|
            ino_ok(sb, j) && j != i ==> #[trigger] inode_of(sb, d2, j) == inode_of(sb, d1, j),
        inode_wf(sb, d2, i),
        forall|b: int|
            in_data_area(sb, b) && !owns(sb, d1, i, b) && !owns(sb, d2, i, b) ==> #[trigger] d2[b]
                == d1[b],
        forall|b: int|
            in_data_area(sb, b) ==> #[trigger] allocated(sb, d2, b) == (owns(sb, d2, i, b) || (
            allocated(sb, d1, b) && !owns(sb, d1, i, b))),
        forall|b: int|
            in_data_area(sb, b) && owns(sb, d2, i, b) && !owns(sb, d1, i, b) ==> !#[trigger] allocated(
                sb,
                d1,
                b,
            ),
        forall|q: int|
            sb.data_area_blocks <= q < sb.data_bitmap_blocks * 4096 ==> !#[trigger] data_bitmap(
                sb,
            ).is_set(d2, q),
    ensures
        struct_wf(sb, d2),
        forall|j: int|
            ino_ok(sb, j) && j != i && used(sb, d1, j) ==> #[trigger] inode_of(sb, d2, j).content(
                d2,
            ) == inode_of(sb, d1, j).content(d1),
        forall|j: int, b: int|
            ino_ok(sb, j) && j != i ==> #[trigger] owns(sb, d2, j, b) == owns(sb, d1, j, b),
        forall|j: int|
            ino_ok(sb, j) && j != i && used(sb, d1, j) ==> #[trigger] inode_of(sb, d2, j).owned(d2)
                == inode_of(sb, d1, j).owned(d1),
        forall|j: int, p: int|
            ino_ok(sb, j) && j != i && used(sb, d1, j) && 0 <= p < inode_of(sb, d1, j).owned(
                d1,
            ).len() ==> d2[#[trigger] inode_of(sb, d1, j).owned(d1)[p] as int] == d1[inode_of(
                sb,
                d1,
                j,
            ).owned(d1)[p] as int],
{
    reveal(struct_wf);
    assert forall|j: int| ino_ok(sb, j) && j != i && used(sb, d1, j) implies inode_wf(sb, d2, j)
        && inode_of(sb, d2, j).content(d2) == inode_of(sb, d1, j).content(d1) && inode_of(
        sb,
        d2,
        j,
    ).owned(d2) == inode_of(sb, d1, j).owned(d1) && (forall|p: int|
        0 <= p < inode_of(sb, d1, j).owned(d1).len() ==> d2[#[trigger] inode_of(sb, d1, j).owned(
            d1,
        )[p] as int] == d1[inode_of(sb, d1, j).owned(d1)[p] as int]) && (forall|b: int|
        inode_of(sb, d2, j).owns(d2, b) == inode_of(sb, d1, j).owns(d1, b)) by {
        let d = inode_of(sb, d1, j);
        assert(inode_wf(sb, d1, j));
        assert forall|p: int| 0 <= p < spec_total_blocks(d.size as int) implies d2[#[trigger] d.owned_at(
            d1,
            p,
        ) as int] == d1[d.owned_at(d1, p) as int] by {
            let b = d.owned_at(d1, p) as int;
            assert(in_data_area(sb, b));
            assert(owns(sb, d1, j, b));
            if owns(sb, d1, i, b) {
                assert(i == j);
            }
            assert(owned_by_some(sb, d1, b));
            assert(allocated(sb, d1, b));
            if owns(sb, d2, i, b) {
                assert(!allocated(sb, d1, b));
            }
        }
        d.lemma_untouched(d1, d2);
        assert forall|p: int| 0 <= p < spec_total_blocks(d.size as int) implies in_data_area(
            sb,
            #[trigger] d.owned_at(d2, p) as int,
        ) by {
            assert(in_data_area(sb, d.owned_at(d1, p) as int));
        }
        assert forall|p: int| 0 <= p < d.owned(d1).len() implies d2[#[trigger] d.owned(d1)[p] as int]
            == d1[d.owned(d1)[p] as int] by {
            assert(d.owned(d1)[p] == d.owned_at(d1, p));
        }
    }
    assert forall|j: int, b: int| ino_ok(sb, j) && j != i implies #[trigger] owns(sb, d2, j, b)
        == owns(sb, d1, j, b) by {
        if used(sb, d1, j) {
            assert(inode_of(sb, d2, j).owns(d2, b) == inode_of(sb, d1, j).owns(d1, b));
        }
    }
    assert forall|ino: int| ino_ok(sb, ino) && #[trigger] used(sb, d2, ino) implies inode_wf(
        sb,
        d2,
        ino,
    ) by {
        if ino != i {
            assert(used(sb, d1, ino));
        }
    }
    assert forall|x: int, y: int, b: int|
        #![trigger owns(sb, d2, x, b), owns(sb, d2, y, b)]
        owns(sb, d2, x, b) && owns(sb, d2, y, b) implies x == y by {
        if x != y {
            if x != i && y != i {
                assert(owns(sb, d1, x, b) && owns(sb, d1, y, b));
            } else {
                let j = if x == i {
                    y
                } else {
                    x
                };
                assert(owns(sb, d1, j, b));
                assert(owns(sb, d2, i, b));
                let d = inode_of(sb, d1, j);
                assert(inode_wf(sb, d1, j));
                let p = choose|p: int|
                    0 <= p < spec_total_blocks(d.size as int) && #[trigger] d.owned_at(d1, p) == b;
                assert(in_data_area(sb, d.owned_at(d1, p) as int));
                assert(owned_by_some(sb, d1, b));
                assert(allocated(sb, d1, b));
                if owns(sb, d1, i, b) {
                    assert(i == j);
                }
            }
        }
    }
    assert forall|b: int| in_data_area(sb, b) implies (#[trigger] allocated(sb, d2, b)
        <==> owned_by_some(sb, d2, b)) by {
        if owned_by_some(sb, d2, b) {
            let j = choose|j: int| owns(sb, d2, j, b);
            if j != i {
                assert(owns(sb, d1, j, b));
                assert(owned_by_some(sb, d1, b));
                if owns(sb, d1, i, b) {
                    assert(i == j);
                }
            }
        }
        if allocated(sb, d2, b) && !owns(sb, d2, i, b) {
            assert(allocated(sb, d1, b) && !owns(sb, d1, i, b));
            assert(owned_by_some(sb, d1, b));
            let j = choose|j: int| owns(sb, d1, j, b);
            assert(owns(sb, d2, j, b));
        }
    }
}

/// `d2` is `d1` with the record of inode `ino` replaced by `rec`.
pub open spec fn with_inode(
    sb: SuperBlock,
    d1: Seq<Seq<u8>>,
    ino: int,
    rec: DiskInode,
) -> Seq<Seq<u8>> {
    d1.update(
        inode_block(sb, ino),
        splice(d1[inode_block(sb, ino)], inode_offset(ino), rec.encode(), 0, 128),
    )
}

/// Replacing one inode's record changes that record and nothing else: not
/// another inode's record, not a bitmap, not a block of the data area.
pub proof fn lemma_with_inode(sb: SuperBlock, d1: Seq<Seq<u8>>, ino: int, rec: DiskInode)
    requires
        layout_wf(sb, d1),
        ino_ok(sb, ino),
    ensures
        layout_wf(sb, with_inode(sb, d1, ino, rec)),
        with_inode(sb, d1, ino, rec).len() == d1.len(),
        inode_of(sb, with_inode(sb, d1, ino, rec), ino) == rec,
        forall|j: int|
            ino_ok(sb, j) && j != ino ==> #[trigger] inode_of(sb, with_inode(sb, d1, ino, rec), j)
                == inode_of(sb, d1, j),
        forall|b: int|
            0 <= b < d1.len() && !in_inode_area(sb, b) ==> #[trigger] with_inode(
                sb,
                d1,
                ino,
                rec,
            )[b] == d1[b],
        forall|j: int|
            ino_ok(sb, j) ==> #[trigger] used(sb, with_inode(sb, d1, ino, rec), j) == used(
                sb,
                d1,
                j,
            ),
        forall|b: int|
            in_data_area(sb, b) ==> #[trigger] allocated(sb, with_inode(sb, d1, ino, rec), b)
                == allocated(sb, d1, b),
        forall|q: int|
            0 <= q < sb.data_bitmap_blocks * 4096 ==> #[trigger] data_bitmap(sb).is_set(
                with_inode(sb, d1, ino, rec),
                q,
            ) == data_bitmap(sb).is_set(d1, q),
        free_data(sb, with_inode(sb, d1, ino, rec)) == free_data(sb, d1),
        free_inodes(sb, with_inode(sb, d1, ino, rec)) == free_inodes(sb, d1),
{
    reveal(inode_of);
    let d2 = with_inode(sb, d1, ino, rec);
    let blk = inode_block(sb, ino);
    let off = inode_offset(ino);
    lemma_regions(sb, d1);
    lemma_geometry(sb);
    lemma_inode_pos(sb, d1, ino);
    rec.lemma_encode_decode();
    assert(d2[blk].subrange(off, off + 128) =~= rec.encode());
    assert forall|b: int| 0 <= b < d2.len() implies (#[trigger] d2[b]).len() == 512 by {
        assert(d1[b].len() == 512);
    }
    assert forall|j: int| ino_ok(sb, j) && j != ino implies #[trigger] inode_of(sb, d2, j)
        == inode_of(sb, d1, j) by {
        lemma_inode_pos(sb, d1, j);
        let bj = inode_block(sb, j);
        let oj = inode_offset(j);
        if bj == blk {
            assert(oj != off);
            assert(d2[bj].subrange(oj, oj + 128) =~= d1[bj].subrange(oj, oj + 128));
        }
    }
    inode_bitmap(sb).lemma_same_bits(d1, d2);
    data_bitmap(sb).lemma_same_bits(d1, d2);
    assert forall|b: int| in_data_area(sb, b) implies #[trigger] allocated(sb, d2, b) == allocated(
        sb,
        d1,
        b,
    ) by {
        assert(data_bitmap(sb).is_set(d2, b - sb.data_area_start()) == data_bitmap(sb).is_set(
            d1,
            b - sb.data_area_start(),
        ));
    }
}

/// An operation on inode `ino` is under way: starting from the sound image
/// `d0` it has brought the disk to `dk` and the inode's record, not yet
/// stored, to `rec`. So far only the data bitmap and sectors of the data area
/// changed (and, for a slot just taken, the inode's own bit); what `rec` has
/// is distinct, lies in the data area, and was the inode's own or free in
/// `d0`; the data bitmap marks what `rec` has and no longer what the inode
/// gave up; no sector of another inode changed.
#[verifier::opaque]
pub open spec fn pending(
    sb: SuperBlock,
    d0: Seq<Seq<u8>>,
    dk: Seq<Seq<u8>>,
    ino: int,
    rec: DiskInode,
) -> bool {
    &&& sectors_wf(dk)
    &&& dk.len() == d0.len()
    &&& dk[0] == d0[0]
    &&& used(sb, dk, ino)
    &&& forall|j: int| ino_ok(sb, j) && j != ino ==> #[trigger] used(sb, dk, j) == used(sb, d0, j)
    &&& forall|b: int| in_inode_area(sb, b) ==> #[trigger] dk[b] == d0[b]
    &&& rec.fits(dk)
    &&& rec.distinct(dk)
    &&& forall|p: int|
        0 <= p < spec_total_blocks(rec.size as int) ==> in_data_area(
            sb,
            #[trigger] rec.owned_at(dk, p) as int,
        )
    &&& forall|b: int|
        in_data_area(sb, b) && !owns(sb, d0, ino, b) && !rec.owns(dk, b) ==> #[trigger] dk[b]
            == d0[b]
    &&& forall|b: int|
        in_data_area(sb, b) ==> #[trigger] allocated(sb, dk, b) == (rec.owns(dk, b) || (allocated(
            sb,
            d0,
            b,
        ) && !owns(sb, d0, ino, b)))
    &&& forall|b: int|
        in_data_area(sb, b) && rec.owns(dk, b) && !owns(sb, d0, ino, b) ==> !#[trigger] allocated(
            sb,
            d0,
            b,
        )
    &&& forall|q: int|
        sb.data_area_blocks <= q < sb.data_bitmap_blocks * 4096 ==> !#[trigger] data_bitmap(
            sb,
        ).is_set(dk, q)
}

/// Nothing has been done yet: the operation starts from the inode's record
/// as it is stored.
pub proof fn lemma_pending_init(sb: SuperBlock, d0: Seq<Seq<u8>>, ino: int)
    requires
        struct_wf(sb, d0),
        ino_ok(sb, ino),
        used(sb, d0, ino),
    ensures
        pending(sb, d0, d0, ino, inode_of(sb, d0, ino)),
{
    reveal(struct_wf);
    reveal(pending);
    let rec = inode_of(sb, d0, ino);
    assert(inode_wf(sb, d0, ino));
    assert forall|b: int| in_data_area(sb, b) implies #[trigger] allocated(sb, d0, b) == (rec.owns(
        d0,
        b,
    ) || (allocated(sb, d0, b) && !owns(sb, d0, ino, b))) by {
        if rec.owns(d0, b) {
            assert(owns(sb, d0, ino, b));
            assert(owned_by_some(sb, d0, b));
        }
    }
}

/// What an operation under way can rely on: its record finds distinct
/// sectors of the disk as it is now.
pub proof fn lemma_pending_use(
    sb: SuperBlock,
    d0: Seq<Seq<u8>>,
    dk: Seq<Seq<u8>>,
    ino: int,
    rec: DiskInode,
)
    requires
        pending(sb, d0, dk, ino, rec),
    ensures
        rec.fits(dk),
        rec.distinct(dk),
        dk.len() == d0.len(),
        dk[0] == d0[0],
        forall|j: int| ino_ok(sb, j) && j != ino ==> #[trigger] used(sb, dk, j) == used(sb, d0, j),
        used(sb, dk, ino),
        forall|b: int| in_inode_area(sb, b) ==> #[trigger] dk[b] == d0[b],
        forall|p: int|
            0 <= p < spec_total_blocks(rec.size as int) ==> in_data_area(
                sb,
                #[trigger] rec.owned_at(dk, p) as int,
            ),
        forall|b: int|
            in_data_area(sb, b) ==> #[trigger] allocated(sb, dk, b) == (rec.owns(dk, b) || (
            allocated(sb, d0, b) && !owns(sb, d0, ino, b))),
        forall|b: int|
            in_data_area(sb, b) && rec.owns(dk, b) && !owns(sb, d0, ino, b) ==> !#[trigger] allocated(
                sb,
                d0,
                b,
            ),
{
    reveal(pending);
}

/// Sectors that the record has were overwritten, and the record still finds
/// the same blocks: the operation is still under way.
pub proof fn lemma_pending_write(
    sb: SuperBlock,
    d0: Seq<Seq<u8>>,
    d1: Seq<Seq<u8>>,
    d2: Seq<Seq<u8>>,
    ino: int,
    rec: DiskInode,
)
    requires
        layout_wf(sb, d0),
        ino_ok(sb, ino),
        pending(sb, d0, d1, ino, rec),
        d2.len() == d1.len(),
        rec.fits(d2),
        rec.distinct(d2),
        forall|p: int|
            0 <= p < spec_total_blocks(rec.size as int) ==> #[trigger] rec.owned_at(d2, p)
                == rec.owned_at(d1, p),
        forall|b: int| 0 <= b < d1.len() && !rec.owns(d1, b) ==> #[trigger] d2[b] == d1[b],
    ensures
        pending(sb, d0, d2, ino, rec),
        free_data(sb, d2) == free_data(sb, d1),
        free_inodes(sb, d2) == free_inodes(sb, d1),
        forall|b: int|
            in_data_area(sb, b) ==> #[trigger] allocated(sb, d2, b) == allocated(sb, d1, b),
{
    reveal(pending);
    lemma_regions(sb, d0);
    lemma_geometry(sb);
    let t = spec_total_blocks(rec.size as int);
    assert forall|b: int| rec.owns(d2, b) == rec.owns(d1, b) by {
        if rec.owns(d1, b) {
            let p = choose|p: int| 0 <= p < t && #[trigger] rec.owned_at(d1, p) == b;
            assert(rec.owned_at(d2, p) == b);
        }
        if rec.owns(d2, b) {
            let p = choose|p: int| 0 <= p < t && #[trigger] rec.owned_at(d2, p) == b;
            assert(rec.owned_at(d1, p) == b);
        }
    }
    assert forall|b: int| 0 <= b < d1.len() && !in_data_area(sb, b) implies #[trigger] d2[b]
        == d1[b] by {
        if rec.owns(d1, b) {
            let p = choose|p: int| 0 <= p < t && #[trigger] rec.owned_at(d1, p) == b;
            assert(in_data_area(sb, rec.owned_at(d1, p) as int));
        }
    }
    assert(layout_wf(sb, d1)) by {
        assert(d1[0] == d0[0]);
    }
    lemma_regions(sb, d1);
    inode_bitmap(sb).lemma_same_bits(d1, d2);
    data_bitmap(sb).lemma_same_bits(d1, d2);
    assert forall|p: int| 0 <= p < t implies in_data_area(sb, #[trigger] rec.owned_at(d2, p) as int) by {
        assert(in_data_area(sb, rec.owned_at(d1, p) as int));
    }
    assert forall|b: int| in_data_area(sb, b) implies #[trigger] allocated(sb, d2, b) == allocated(
        sb,
        d1,
        b,
    ) by {
        assert(data_bitmap(sb).is_set(d2, b - sb.data_area_start()) == data_bitmap(sb).is_set(
            d1,
            b - sb.data_area_start(),
        ));
    }
    assert forall|b: int|
        in_data_area(sb, b) && !owns(sb, d0, ino, b) && !rec.owns(d2, b) implies #[trigger] d2[b]
        == d0[b] by {
        assert(d2[b] == d1[b]);
        assert(d1[b] == d0[b]);
    }
    assert forall|b: int| in_inode_area(sb, b) implies #[trigger] d2[b] == d0[b] by {
        assert(d2[b] == d1[b]);
        assert(d1[b] == d0[b]);
    }
    assert forall|q: int|
        sb.data_area_blocks <= q < sb.data_bitmap_blocks * 4096 implies !#[trigger] data_bitmap(
        sb,
    ).is_set(d2, q) by {
        assert(!data_bitmap(sb).is_set(d1, q));
    }
    assert forall|j: int| ino_ok(sb, j) && j != ino implies #[trigger] used(sb, d2, j) == used(
        sb,
        d0,
        j,
    ) by {
        assert(used(sb, d1, j) == used(sb, d0, j));
        assert(inode_bitmap(sb).is_set(d2, j) == inode_bitmap(sb).is_set(d1, j));
    }
    assert(used(sb, d2, ino)) by {
        assert(inode_bitmap(sb).is_set(d2, ino) == inode_bitmap(sb).is_set(d1, ino));
    }
    assert forall|b: int| in_data_area(sb, b) implies #[trigger] allocated(sb, d2, b) == (rec.owns(
        d2,
        b,
    ) || (allocated(sb, d0, b) && !owns(sb, d0, ino, b))) by {
        assert(allocated(sb, d2, b) == allocated(sb, d1, b));
    }
    assert forall|b: int|
        in_data_area(sb, b) && rec.owns(d2, b) && !owns(sb, d0, ino, b) implies !#[trigger] allocated(
        sb,
        d0,
        b,
    ) by {
        assert(rec.owns(d1, b));
    }
    assert forall|b: int| 0 <= b < d2.len() implies (#[trigger] d2[b]).len() == 512 by {}
}

/// The record changed in a way that leaves its blocks the same (its link
/// count, its kind, or its size within the same number of blocks): the
/// operation is still under way.
pub proof fn lemma_pending_record(
    sb: SuperBlock,
    d0: Seq<Seq<u8>>,
    dk: Seq<Seq<u8>>,
    ino: int,
    rec: DiskInode,
    rec2: DiskInode,
)
    requires
        pending(sb, d0, dk, ino, rec),
        rec2.size <= rec.size,
        spec_total_blocks(rec2.size as int) == spec_total_blocks(rec.size as int),
        rec2.direct == rec.direct,
        rec2.indirect1 == rec.indirect1,
        rec2.indirect2 == rec.indirect2,
    ensures
        pending(sb, d0, dk, ino, rec2),
        forall|b: int| rec2.owns(dk, b) == rec.owns(dk, b),
        rec2.owned(dk) == rec.owned(dk),
        rec2.content(dk) == rec.content(dk).subrange(0, rec2.size as int),
{
    reveal(pending);
    let t = spec_total_blocks(rec.size as int);
    assert forall|p: int| 0 <= p < t implies #[trigger] rec2.owned_at(dk, p) == rec.owned_at(
        dk,
        p,
    ) by {
        reveal(DiskInode::owned_at);
    }
    assert(rec2.fits(dk)) by {
        assert forall|p: int| 0 <= p < t implies #[trigger] rec2.owned_at(dk, p) < dk.len() by {
            assert(rec.owned_at(dk, p) < dk.len());
        }
    }
    assert(rec2.distinct(dk)) by {
        assert forall|p: int, q: int| 0 <= p < q < t implies #[trigger] rec2.owned_at(dk, p)
            != #[trigger] rec2.owned_at(dk, q) by {
            assert(rec.owned_at(dk, p) != rec.owned_at(dk, q));
        }
    }
    assert forall|b: int| rec2.owns(dk, b) == rec.owns(dk, b) by {
        if rec.owns(dk, b) {
            let p = choose|p: int| 0 <= p < t && #[trigger] rec.owned_at(dk, p) == b;
            assert(rec2.owned_at(dk, p) == b);
        }
        if rec2.owns(dk, b) {
            let p = choose|p: int| 0 <= p < t && #[trigger] rec2.owned_at(dk, p) == b;
            assert(rec.owned_at(dk, p) == b);
        }
    }
    assert forall|p: int| 0 <= p < t implies in_data_area(sb, #[trigger] rec2.owned_at(dk, p) as int) by {
        assert(in_data_area(sb, rec.owned_at(dk, p) as int));
    }
    assert(rec2.owned(dk) =~= rec.owned(dk));
    assert(rec2.content(dk) =~= rec.content(dk).subrange(0, rec2.size as int)) by {
        assert forall|i: int| 0 <= i < rec2.size implies rec2.content(dk)[i] == rec.content(dk)[i] by {
            assert(rec2.block_of(dk, i / 512) == rec.block_of(dk, i / 512));
        }
    }
}

/// Free blocks `v` were marked allocated and nothing else was done: disk
/// `da` is `d0` with their bits set.
pub open spec fn blocks_taken(sb: SuperBlock, d0: Seq<Seq<u8>>, da: Seq<Seq<u8>>, v: Seq<u32>) -> bool {
    &&& sectors_wf(da)
    &&& da.len() == d0.len()
    &&& v.no_duplicates()
    &&& forall|x: int|
        0 <= x < v.len() ==> in_data_area(sb, #[trigger] v[x] as int) && !allocated(
            sb,
            d0,
            v[x] as int,
        )
    &&& forall|b: int|
        in_data_area(sb, b) ==> #[trigger] allocated(sb, da, b) == (allocated(sb, d0, b) || seq_has(
            v,
            b,
        ))
    &&& forall|b: int| 0 <= b < d0.len() && !in_data_bitmap(sb, b) ==> #[trigger] da[b] == d0[b]
    &&& forall|q: int|
        sb.data_area_blocks <= q < sb.data_bitmap_blocks * 4096 ==> !#[trigger] data_bitmap(
            sb,
        ).is_set(da, q)
}

/// Taking nothing changes nothing.
pub proof fn lemma_take_none(sb: SuperBlock, d0: Seq<Seq<u8>>)
    requires
        layout_wf(sb, d0),
        forall|q: int|
            sb.data_area_blocks <= q < sb.data_bitmap_blocks * 4096 ==> !#[trigger] data_bitmap(
                sb,
            ).is_set(d0, q),
    ensures
        blocks_taken(sb, d0, d0, Seq::<u32>::empty()),
{
}

/// One more free block is taken.
pub proof fn lemma_take_one(
    sb: SuperBlock,
    d0: Seq<Seq<u8>>,
    dk: Seq<Seq<u8>>,
    v: Seq<u32>,
    b: u32,
)
    requires
        layout_wf(sb, d0),
        blocks_taken(sb, d0, dk, v),
        in_data_area(sb, b as int),
        !allocated(sb, dk, b as int),
    ensures
        blocks_taken(
            sb,
            d0,
            data_bitmap(sb).with_bit(dk, b - sb.data_area_start(), true),
            v.push(b),
        ),
{
    let bm = data_bitmap(sb);
    let pos = b - sb.data_area_start();
    let d2 = bm.with_bit(dk, pos, true);
    let v2 = v.push(b);
    lemma_regions(sb, d0);
    lemma_geometry(sb);
    assert(layout_wf(sb, dk)) by {
        assert(dk[0] == d0[0]);
    }
    lemma_regions(sb, dk);
    bm.lemma_with_bit(dk, pos, true);
    assert forall|x: int, y: int| 0 <= x < v2.len() && 0 <= y < v2.len() && x != y implies v2[x]
        != v2[y] by {
        if x < v.len() && y < v.len() {
            assert(v[x] != v[y]);
        } else {
            let o = if x < v.len() {
                x
            } else {
                y
            };
            assert(in_data_area(sb, v[o] as int));
            assert(seq_has(v, v[o] as int));
            assert(allocated(sb, dk, v[o] as int));
        }
    }
    assert forall|x: int| 0 <= x < v2.len() implies in_data_area(sb, #[trigger] v2[x] as int)
        && !allocated(sb, d0, v2[x] as int) by {
        if x < v.len() {
            assert(in_data_area(sb, v[x] as int));
        } else {
            assert(allocated(sb, dk, b as int) == (allocated(sb, d0, b as int) || seq_has(
                v,
                b as int,
            )));
        }
    }
    assert forall|c: int| in_data_area(sb, c) implies #[trigger] allocated(sb, d2, c) == (allocated(
        sb,
        d0,
        c,
    ) || seq_has(v2, c)) by {
        let q = c - sb.data_area_start();
        assert(bm.is_set(d2, q) == if q == pos {
            true
        } else {
            bm.is_set(dk, q)
        });
        assert(allocated(sb, dk, c) == (allocated(sb, d0, c) || seq_has(v, c)));
        if seq_has(v, c) {
            let x = choose|x: int| 0 <= x < v.len() && #[trigger] v[x] == c;
            assert(v2[x] == c);
        }
        if c == b {
            assert(v2[v.len() as int] == c);
        }
        if seq_has(v2, c) && c != b {
            let x = choose|x: int| 0 <= x < v2.len() && #[trigger] v2[x] == c;
            assert(v[x] == c);
        }
    }
    assert forall|x: int| 0 <= x < d0.len() && !in_data_bitmap(sb, x) implies #[trigger] d2[x]
        == d0[x] by {
        assert(d2[x] == dk[x]);
        assert(dk[x] == d0[x]);
    }
    assert forall|q: int|
        sb.data_area_blocks <= q < sb.data_bitmap_blocks * 4096 implies !#[trigger] bm.is_set(
        d2,
        q,
    ) by {
        assert(!bm.is_set(dk, q));
    }
}

/// The free block with the least number is taken next: it lies behind the
/// blocks taken before, and every free block before it was taken before.
pub proof fn lemma_take_order(
    sb: SuperBlock,
    d0: Seq<Seq<u8>>,
    dk: Seq<Seq<u8>>,
    v: Seq<u32>,
    b: u32,
)
    requires
        blocks_taken(sb, d0, dk, v),
        in_data_area(sb, b as int),
        !allocated(sb, dk, b as int),
        forall|c: int| sb.data_area_start() <= c < b ==> allocated(sb, dk, c),
        forall|x: int, y: int| 0 <= x < y < v.len() ==> v[x] < v[y],
        forall|x: int, c: int|
            0 <= x < v.len() && in_data_area(sb, c) && c < v[x] && !allocated(sb, d0, c)
                ==> seq_has(v, c),
    ensures
        forall|x: int, y: int| 0 <= x < y < v.push(b).len() ==> v.push(b)[x] < v.push(b)[y],
        forall|x: int, c: int|
            0 <= x < v.push(b).len() && in_data_area(sb, c) && c < v.push(b)[x] && !allocated(
                sb,
                d0,
                c,
            ) ==> seq_has(v.push(b), c),
{
    let v2 = v.push(b);
    assert forall|x: int| 0 <= x < v.len() implies v[x] < b by {
        let c = v[x] as int;
        assert(in_data_area(sb, c));
        assert(seq_has(v, c));
        assert(allocated(sb, dk, c));
        if c > b {
            // the block taken now was free when `v[x]` was taken
            assert(!allocated(sb, d0, b as int)) by {
                assert(allocated(sb, dk, b as int) == (allocated(sb, d0, b as int) || seq_has(
                    v,
                    b as int,
                )));
            }
            assert(seq_has(v, b as int));
        }
    }
    assert forall|x: int, c: int|
        0 <= x < v2.len() && in_data_area(sb, c) && c < v2[x] && !allocated(
            sb,
            d0,
            c,
        ) implies seq_has(v2, c) by {
        if x < v.len() {
            assert(seq_has(v, c));
        } else {
            assert(allocated(sb, dk, c));
            assert(allocated(sb, dk, c) == (allocated(sb, d0, c) || seq_has(v, c)));
        }
        let w = choose|w: int| 0 <= w < v.len() && #[trigger] v[w] == c;
        assert(v2[w] == c);
    }
}

/// After free blocks were taken for inode `ino`, the inode still reads as
/// before, and its blocks together with the new ones are distinct sectors.
pub proof fn lemma_after_alloc(
    sb: SuperBlock,
    d0: Seq<Seq<u8>>,
    da: Seq<Seq<u8>>,
    ino: int,
    v: Seq<u32>,
)
    requires
        struct_wf(sb, d0),
        ino_ok(sb, ino),
        used(sb, d0, ino),
        blocks_taken(sb, d0, da, v),
    ensures
        inode_of(sb, d0, ino).fits(da),
        inode_of(sb, d0, ino).distinct(da),
        inode_of(sb, d0, ino).owned(da) == inode_of(sb, d0, ino).owned(d0),
        inode_of(sb, d0, ino).content(da) == inode_of(sb, d0, ino).content(d0),
        (inode_of(sb, d0, ino).owned(da) + v).no_duplicates(),
        forall|i: int| 0 <= i < v.len() ==> v[i] < da.len(),
{
    reveal(struct_wf);
    let rec = inode_of(sb, d0, ino);
    let t = spec_total_blocks(rec.size as int);
    lemma_regions(sb, d0);
    lemma_geometry(sb);
    assert(inode_wf(sb, d0, ino));
    assert forall|p: int| 0 <= p < t implies da[#[trigger] rec.owned_at(d0, p) as int]
        == d0[rec.owned_at(d0, p) as int] by {
        assert(in_data_area(sb, rec.owned_at(d0, p) as int));
    }
    rec.lemma_untouched(d0, da);
    let all = rec.owned(da) + v;
    assert forall|x: int, y: int| 0 <= x < all.len() && 0 <= y < all.len() && x != y implies all[x]
        != all[y] by {
        if x < t && y < t {
            if x < y {
                assert(rec.owned_at(d0, x) != rec.owned_at(d0, y));
            } else {
                assert(rec.owned_at(d0, y) != rec.owned_at(d0, x));
            }
        } else if x >= t && y >= t {
            assert(v[x - t] != v[y - t]);
        } else {
            let (o, n) = if x < t {
                (x, y - t)
            } else {
                (y, x - t)
            };
            let b = rec.owned_at(d0, o) as int;
            assert(in_data_area(sb, b));
            assert(owns(sb, d0, ino, b));
            assert(owned_by_some(sb, d0, b));
            assert(allocated(sb, d0, b));
            assert(!allocated(sb, d0, v[n] as int));
        }
    }
    assert forall|i: int| 0 <= i < v.len() implies v[i] < da.len() by {
        assert(in_data_area(sb, v[i] as int));
    }
}

/// The inode grew onto the blocks taken for it: the operation is under way.
pub proof fn lemma_pending_grow(
    sb: SuperBlock,
    d0: Seq<Seq<u8>>,
    da: Seq<Seq<u8>>,
    d1: Seq<Seq<u8>>,
    ino: int,
    rec1: DiskInode,
    v: Seq<u32>,
)
    requires
        struct_wf(sb, d0),
        ino_ok(sb, ino),
        used(sb, d0, ino),
        blocks_taken(sb, d0, da, v),
        d1.len() == da.len(),
        rec1.fits(d1),
        rec1.distinct(d1),
        rec1.owned(d1) == inode_of(sb, d0, ino).owned(d0) + v,
        forall|b: int|
            0 <= b < da.len() && !index_hit(inode_of(sb, d0, ino).owned(d0) + v, b) ==> #[trigger] d1[b]
                == da[b],
    ensures
        pending(sb, d0, d1, ino, rec1),
        free_data(sb, d1) == free_data(sb, da),
        free_inodes(sb, d1) == free_inodes(sb, d0),
{
    reveal(struct_wf);
    reveal(pending);
    let rec0 = inode_of(sb, d0, ino);
    let t0 = spec_total_blocks(rec0.size as int);
    let t1 = spec_total_blocks(rec1.size as int);
    let all = rec0.owned(d0) + v;
    lemma_regions(sb, d0);
    lemma_geometry(sb);
    assert(inode_wf(sb, d0, ino));
    assert(rec1.owned(d1).len() == t1);
    assert forall|p: int| 0 <= p < t1 implies #[trigger] rec1.owned_at(d1, p) == all[p] by {
        assert(rec1.owned(d1)[p] == rec1.owned_at(d1, p));
    }
    assert forall|p: int| 0 <= p < all.len() implies in_data_area(sb, #[trigger] all[p] as int) by {
        if p < t0 {
            assert(in_data_area(sb, rec0.owned_at(d0, p) as int));
        } else {
            assert(in_data_area(sb, v[p - t0] as int));
        }
    }
    assert forall|b: int| index_hit(all, b) implies in_data_area(sb, b) by {
        let p = choose|p: int|
            0 <= p < all.len() && is_index_pos(p) && #[trigger] all[p] == b;
        assert(in_data_area(sb, all[p] as int));
    }
    assert forall|b: int| rec1.owns(d1, b) == (rec0.owns(d0, b) || seq_has(v, b)) by {
        if rec1.owns(d1, b) {
            let p = choose|p: int| 0 <= p < t1 && #[trigger] rec1.owned_at(d1, p) == b;
            if p < t0 {
                assert(rec0.owned_at(d0, p) == b);
            } else {
                assert(v[p - t0] == b);
            }
        }
        if rec0.owns(d0, b) {
            let p = choose|p: int| 0 <= p < t0 && #[trigger] rec0.owned_at(d0, p) == b;
            assert(rec1.owned_at(d1, p) == b);
        }
        if seq_has(v, b) {
            let x = choose|x: int| 0 <= x < v.len() && #[trigger] v[x] == b;
            assert(rec1.owned_at(d1, t0 + x) == b);
        }
    }
    assert forall|b: int| 0 <= b < d0.len() && !in_data_area(sb, b) implies d1[b] == da[b] by {
        assert(!index_hit(all, b));
    }
    assert(layout_wf(sb, da)) by {
        assert(da[0] == d0[0]);
    }
    lemma_regions(sb, da);
    inode_bitmap(sb).lemma_same_bits(d0, da);
    inode_bitmap(sb).lemma_same_bits(da, d1);
    data_bitmap(sb).lemma_same_bits(da, d1);
    assert forall|b: int| in_data_area(sb, b) implies #[trigger] allocated(sb, d1, b) == allocated(
        sb,
        da,
        b,
    ) by {
        assert(data_bitmap(sb).is_set(d1, b - sb.data_area_start()) == data_bitmap(sb).is_set(
            da,
            b - sb.data_area_start(),
        ));
    }
    assert forall|j: int| ino_ok(sb, j) implies #[trigger] used(sb, d1, j) == used(sb, d0, j) by {
        assert(inode_bitmap(sb).is_set(d1, j) == inode_bitmap(sb).is_set(da, j));
        assert(inode_bitmap(sb).is_set(da, j) == inode_bitmap(sb).is_set(d0, j));
    }
    assert forall|b: int| in_inode_area(sb, b) implies #[trigger] d1[b] == d0[b] by {
        assert(d1[b] == da[b]);
        assert(da[b] == d0[b]);
    }
    assert forall|p: int| 0 <= p < t1 implies in_data_area(sb, #[trigger] rec1.owned_at(d1, p) as int) by {
        assert(in_data_area(sb, all[p] as int));
    }
    assert forall|b: int|
        in_data_area(sb, b) && !owns(sb, d0, ino, b) && !rec1.owns(d1, b) implies #[trigger] d1[b]
        == d0[b] by {
        if index_hit(all, b) {
            let p = choose|p: int|
                0 <= p < all.len() && is_index_pos(p) && #[trigger] all[p] == b;
            assert(rec1.owned_at(d1, p) == b);
            assert(rec1.owns(d1, b));
        }
        assert(d1[b] == da[b]);
        assert(da[b] == d0[b]);
    }
    assert forall|b: int| in_data_area(sb, b) implies #[trigger] allocated(sb, d1, b) == (rec1.owns(
        d1,
        b,
    ) || (allocated(sb, d0, b) && !owns(sb, d0, ino, b))) by {
        assert(allocated(sb, d1, b) == allocated(sb, da, b));
        assert(allocated(sb, da, b) == (allocated(sb, d0, b) || seq_has(v, b)));
        assert(rec1.owns(d1, b) == (rec0.owns(d0, b) || seq_has(v, b)));
        assert(owns(sb, d0, ino, b) == rec0.owns(d0, b));
        if rec0.owns(d0, b) {
            assert(owned_by_some(sb, d0, b));
            assert(allocated(sb, d0, b));
        }
    }
    assert forall|b: int|
        in_data_area(sb, b) && rec1.owns(d1, b) && !owns(sb, d0, ino, b) implies !#[trigger] allocated(
        sb,
        d0,
        b,
    ) by {
        assert(rec1.owns(d1, b) == (rec0.owns(d0, b) || seq_has(v, b)));
        assert(seq_has(v, b));
        let x = choose|x: int| 0 <= x < v.len() && #[trigger] v[x] == b;
        assert(!allocated(sb, d0, v[x] as int));
    }
    assert forall|q: int|
        sb.data_area_blocks <= q < sb.data_bitmap_blocks * 4096 implies !#[trigger] data_bitmap(
        sb,
    ).is_set(d1, q) by {
        assert(!data_bitmap(sb).is_set(da, q));
    }
}

/// The first `k` blocks of `v`, allocated before, were filled with zeros and
/// marked free, and nothing else was done.
pub open spec fn blocks_released(
    sb: SuperBlock,
    d0: Seq<Seq<u8>>,
    dk: Seq<Seq<u8>>,
    v: Seq<u32>,
    k: int,
) -> bool {
    &&& sectors_wf(dk)
    &&& dk.len() == d0.len()
    &&& forall|b: int|
        in_data_area(sb, b) ==> #[trigger] allocated(sb, dk, b) == (allocated(sb, d0, b) && !seq_has(
            v.subrange(0, k),
            b,
        ))
    &&& forall|b: int|
        0 <= b < d0.len() && !in_data_bitmap(sb, b) && !seq_has(v.subrange(0, k), b)
            ==> #[trigger] dk[b] == d0[b]
    &&& forall|q: int|
        sb.data_area_blocks <= q < sb.data_bitmap_blocks * 4096 ==> !#[trigger] data_bitmap(
            sb,
        ).is_set(dk, q)
}

/// The next block to release is still marked allocated.
pub proof fn lemma_release_ready(
    sb: SuperBlock,
    d0: Seq<Seq<u8>>,
    dk: Seq<Seq<u8>>,
    v: Seq<u32>,
    k: int,
)
    requires
        blocks_released(sb, d0, dk, v, k),
        0 <= k < v.len(),
        v.no_duplicates(),
        in_data_area(sb, v[k] as int),
        allocated(sb, d0, v[k] as int),
    ensures
        allocated(sb, dk, v[k] as int),
{
    let pre = v.subrange(0, k);
    if seq_has(pre, v[k] as int) {
        let x = choose|x: int| 0 <= x < pre.len() && #[trigger] pre[x] == v[k] as int;
        assert(v[x] == v[k]);
    }
}

/// One more block is released.
pub proof fn lemma_release_one(
    sb: SuperBlock,
    d0: Seq<Seq<u8>>,
    dk: Seq<Seq<u8>>,
    v: Seq<u32>,
    k: int,
)
    requires
        layout_wf(sb, d0),
        dk[0] == d0[0],
        blocks_released(sb, d0, dk, v, k),
        0 <= k < v.len(),
        in_data_area(sb, v[k] as int),
    ensures
        blocks_released(
            sb,
            d0,
            data_bitmap(sb).with_bit(
                dk.update(v[k] as int, Seq::new(512, |i: int| 0u8)),
                v[k] - sb.data_area_start(),
                false,
            ),
            v,
            k + 1,
        ),
        data_bitmap(sb).with_bit(
            dk.update(v[k] as int, Seq::new(512, |i: int| 0u8)),
            v[k] - sb.data_area_start(),
            false,
        )[0] == d0[0],
{
    let bm = data_bitmap(sb);
    let b = v[k] as int;
    let pos = b - sb.data_area_start();
    let dz = dk.update(b, Seq::new(512, |i: int| 0u8));
    let d2 = bm.with_bit(dz, pos, false);
    let pre = v.subrange(0, k);
    let pre2 = v.subrange(0, k + 1);
    lemma_regions(sb, d0);
    lemma_geometry(sb);
    assert(layout_wf(sb, dk));
    lemma_regions(sb, dk);
    assert(sectors_wf(dz)) by {
        assert forall|x: int| 0 <= x < dz.len() implies (#[trigger] dz[x]).len() == 512 by {
            assert(dk[x].len() == 512);
        }
    }
    bm.lemma_same_bits(dk, dz);
    bm.lemma_with_bit(dz, pos, false);
    assert forall|c: int| seq_has(pre2, c) == (seq_has(pre, c) || c == b) by {
        if seq_has(pre, c) {
            let x = choose|x: int| 0 <= x < pre.len() && #[trigger] pre[x] == c;
            assert(pre2[x] == c);
        }
        if c == b {
            assert(pre2[k] == c);
        }
        if seq_has(pre2, c) && c != b {
            let x = choose|x: int| 0 <= x < pre2.len() && #[trigger] pre2[x] == c;
            assert(pre[x] == c);
        }
    }
    assert forall|c: int| in_data_area(sb, c) implies #[trigger] allocated(sb, d2, c) == (allocated(
        sb,
        d0,
        c,
    ) && !seq_has(pre2, c)) by {
        let q = c - sb.data_area_start();
        assert(bm.is_set(d2, q) == if q == pos {
            false
        } else {
            bm.is_set(dz, q)
        });
        assert(bm.is_set(dz, q) == bm.is_set(dk, q));
        assert(allocated(sb, dk, c) == (allocated(sb, d0, c) && !seq_has(pre, c)));
        assert(seq_has(pre2, c) == (seq_has(pre, c) || c == b));
    }
    assert forall|c: int|
        0 <= c < d0.len() && !in_data_bitmap(sb, c) && !seq_has(pre2, c) implies #[trigger] d2[c]
        == d0[c] by {
        assert(seq_has(pre2, c) == (seq_has(pre, c) || c == b));
        assert(d2[c] == dz[c]);
        assert(dz[c] == dk[c]);
        assert(dk[c] == d0[c]);
    }
    assert forall|q: int|
        sb.data_area_blocks <= q < sb.data_bitmap_blocks * 4096 implies !#[trigger] bm.is_set(
        d2,
        q,
    ) by {
        assert(bm.is_set(dz, q) == bm.is_set(dk, q));
        assert(!bm.is_set(dk, q));
    }
}

/// Every block of inode `ino` was released and its record, not yet stored,
/// is empty: the operation is under way.
pub proof fn lemma_pending_clear(
    sb: SuperBlock,
    d0: Seq<Seq<u8>>,
    dk: Seq<Seq<u8>>,
    ino: int,
    rec: DiskInode,
)
    requires
        struct_wf(sb, d0),
        ino_ok(sb, ino),
        used(sb, d0, ino),
        dk[0] == d0[0],
        blocks_released(
            sb,
            d0,
            dk,
            inode_of(sb, d0, ino).owned(d0),
            inode_of(sb, d0, ino).owned(d0).len() as int,
        ),
        rec.size == 0,
    ensures
        pending(sb, d0, dk, ino, rec),
        forall|b: int|
            in_data_area(sb, b) && owns(sb, d0, ino, b) ==> !#[trigger] allocated(sb, dk, b),
{
    reveal(struct_wf);
    reveal(pending);
    let rec0 = inode_of(sb, d0, ino);
    let v = rec0.owned(d0);
    let t0 = spec_total_blocks(rec0.size as int);
    lemma_regions(sb, d0);
    lemma_geometry(sb);
    assert(inode_wf(sb, d0, ino));
    assert(v.subrange(0, v.len() as int) =~= v);
    assert forall|b: int| seq_has(v, b) == rec0.owns(d0, b) by {
        if seq_has(v, b) {
            let x = choose|x: int| 0 <= x < v.len() && #[trigger] v[x] == b;
            assert(rec0.owned_at(d0, x) == b);
        }
        if rec0.owns(d0, b) {
            let p = choose|p: int| 0 <= p < t0 && #[trigger] rec0.owned_at(d0, p) == b;
            assert(v[p] == b);
        }
    }
    assert(layout_wf(sb, dk));
    lemma_regions(sb, dk);
    assert forall|b: int| 0 <= b < d0.len() && !in_data_area(sb, b) && !in_data_bitmap(sb, b) implies dk[b]
        == d0[b] by {
        if seq_has(v, b) {
            let x = choose|x: int| 0 <= x < v.len() && #[trigger] v[x] == b;
            assert(in_data_area(sb, rec0.owned_at(d0, x) as int));
        }
    }
    inode_bitmap(sb).lemma_same_bits(d0, dk);
    assert forall|j: int| ino_ok(sb, j) implies #[trigger] used(sb, dk, j) == used(sb, d0, j) by {
        assert(inode_bitmap(sb).is_set(dk, j) == inode_bitmap(sb).is_set(d0, j));
    }
    assert forall|b: int| !rec.owns(dk, b) by {}
    assert forall|b: int|
        in_data_area(sb, b) && !owns(sb, d0, ino, b) && !rec.owns(dk, b) implies #[trigger] dk[b]
        == d0[b] by {
        assert(seq_has(v, b) == rec0.owns(d0, b));
    }
    assert forall|b: int| in_data_area(sb, b) implies #[trigger] allocated(sb, dk, b) == (rec.owns(
        dk,
        b,
    ) || (allocated(sb, d0, b) && !owns(sb, d0, ino, b))) by {
        assert(seq_has(v, b) == rec0.owns(d0, b));
    }
    assert forall|b: int|
        in_data_area(sb, b) && owns(sb, d0, ino, b) implies !#[trigger] allocated(sb, dk, b) by {
        assert(seq_has(v, b) == rec0.owns(d0, b));
    }
}

/// A free slot was taken for a new inode and its record, not yet stored, is
/// empty: the operation is under way.
pub proof fn lemma_pending_new(sb: SuperBlock, d0: Seq<Seq<u8>>, ino: int, rec: DiskInode)
    requires
        struct_wf(sb, d0),
        ino_ok(sb, ino),
        !used(sb, d0, ino),
        rec.size == 0,
    ensures
        pending(sb, d0, inode_bitmap(sb).with_bit(d0, ino, true), ino, rec),
        free_inodes(sb, inode_bitmap(sb).with_bit(d0, ino, true)) == free_inodes(sb, d0) - 1,
        free_data(sb, inode_bitmap(sb).with_bit(d0, ino, true)) == free_data(sb, d0),
        layout_wf(sb, inode_bitmap(sb).with_bit(d0, ino, true)),
{
    reveal(struct_wf);
    reveal(pending);
    let bm = inode_bitmap(sb);
    let dk = bm.with_bit(d0, ino, true);
    lemma_regions(sb, d0);
    lemma_geometry(sb);
    bm.lemma_with_bit(d0, ino, true);
    bm.lemma_free_below_flip(d0, dk, ino, sb.inode_count());
    data_bitmap(sb).lemma_same_bits(d0, dk);
    assert forall|b: int| in_data_area(sb, b) implies #[trigger] allocated(sb, dk, b) == allocated(
        sb,
        d0,
        b,
    ) by {
        assert(data_bitmap(sb).is_set(dk, b - sb.data_area_start()) == data_bitmap(sb).is_set(
            d0,
            b - sb.data_area_start(),
        ));
    }
    assert forall|b: int| !rec.owns(dk, b) by {}
    assert forall|q: int|
        sb.data_area_blocks <= q < sb.data_bitmap_blocks * 4096 implies !#[trigger] data_bitmap(
        sb,
    ).is_set(dk, q) by {
        assert(!data_bitmap(sb).is_set(d0, q));
    }
}

/// Storing the record completes the operation: the structure is sound again,
/// and every other inode reads as before.
pub proof fn lemma_store_commits(
    sb: SuperBlock,
    d0: Seq<Seq<u8>>,
    dk: Seq<Seq<u8>>,
    ino: int,
    rec: DiskInode,
)
    requires
        struct_wf(sb, d0),
        ino_ok(sb, ino),
        pending(sb, d0, dk, ino, rec),
    ensures
        struct_wf(sb, with_inode(sb, dk, ino, rec)),
        inode_of(sb, with_inode(sb, dk, ino, rec), ino) == rec,
        rec.content(with_inode(sb, dk, ino, rec)) == rec.content(dk),
        rec.owned(with_inode(sb, dk, ino, rec)) == rec.owned(dk),
        forall|j: int|
            ino_ok(sb, j) && j != ino ==> #[trigger] inode_of(sb, with_inode(sb, dk, ino, rec), j)
                == inode_of(sb, d0, j),
        forall|j: int|
            ino_ok(sb, j) && j != ino && used(sb, d0, j) ==> #[trigger] inode_of(
                sb,
                with_inode(sb, dk, ino, rec),
                j,
            ).content(with_inode(sb, dk, ino, rec)) == inode_of(sb, d0, j).content(d0),
        forall|j: int|
            ino_ok(sb, j) ==> #[trigger] used(sb, with_inode(sb, dk, ino, rec), j) == used(
                sb,
                dk,
                j,
            ),
        forall|j: int|
            ino_ok(sb, j) && j != ino && used(sb, d0, j) ==> #[trigger] inode_of(
                sb,
                with_inode(sb, dk, ino, rec),
                j,
            ).owned(with_inode(sb, dk, ino, rec)) == inode_of(sb, d0, j).owned(d0),
        forall|j: int, p: int|
            ino_ok(sb, j) && j != ino && used(sb, d0, j) && 0 <= p < inode_of(sb, d0, j).owned(
                d0,
            ).len() ==> with_inode(sb, dk, ino, rec)[#[trigger] inode_of(sb, d0, j).owned(
                d0,
            )[p] as int] == d0[inode_of(sb, d0, j).owned(d0)[p] as int],
        forall|b: int|
            in_data_area(sb, b) ==> #[trigger] with_inode(sb, dk, ino, rec)[b] == dk[b],
        free_data(sb, with_inode(sb, dk, ino, rec)) == free_data(sb, dk),
        free_inodes(sb, with_inode(sb, dk, ino, rec)) == free_inodes(sb, dk),
{
    reveal(struct_wf);
    reveal(pending);
    let d2 = with_inode(sb, dk, ino, rec);
    lemma_regions(sb, d0);
    lemma_geometry(sb);
    assert(layout_wf(sb, dk));
    lemma_with_inode(sb, dk, ino, rec);
    assert forall|p: int| 0 <= p < spec_total_blocks(rec.size as int) implies d2[#[trigger] rec.owned_at(
        dk,
        p,
    ) as int] == dk[rec.owned_at(dk, p) as int] by {
        assert(in_data_area(sb, rec.owned_at(dk, p) as int));
    }
    rec.lemma_untouched(dk, d2);
    assert forall|j: int| ino_ok(sb, j) && j != ino implies #[trigger] inode_of(sb, d2, j)
        == inode_of(sb, d0, j) by {
        reveal(inode_of);
        lemma_inode_pos(sb, d0, j);
        assert(in_inode_area(sb, inode_block(sb, j)));
        assert(inode_of(sb, d2, j) == inode_of(sb, dk, j));
    }
    assert(inode_wf(sb, d2, ino)) by {
        assert forall|p: int| 0 <= p < spec_total_blocks(rec.size as int) implies in_data_area(
            sb,
            #[trigger] rec.owned_at(d2, p) as int,
        ) by {
            assert(in_data_area(sb, rec.owned_at(dk, p) as int));
        }
    }
    assert forall|b: int| in_data_area(sb, b) implies owns(sb, d2, ino, b) == rec.owns(dk, b) by {}
    assert forall|b: int|
        in_data_area(sb, b) && !owns(sb, d0, ino, b) && !owns(sb, d2, ino, b) implies #[trigger] d2[b]
        == d0[b] by {
        assert(d2[b] == dk[b]);
    }
    assert forall|b: int| in_data_area(sb, b) implies #[trigger] allocated(sb, d2, b) == (owns(
        sb,
        d2,
        ino,
        b,
    ) || (allocated(sb, d0, b) && !owns(sb, d0, ino, b))) by {
        assert(allocated(sb, d2, b) == allocated(sb, dk, b));
    }
    assert forall|b: int|
        in_data_area(sb, b) && owns(sb, d2, ino, b) && !owns(sb, d0, ino, b) implies !#[trigger] allocated(
        sb,
        d0,
        b,
    ) by {
        assert(rec.owns(dk, b));
    }
    lemma_one_inode_changed(sb, d0, d2, ino);
}

/// Storing the record completes the operation and leaves the others alone.
pub proof fn lemma_commit(sb: SuperBlock, d0: Seq<Seq<u8>>, dk: Seq<Seq<u8>>, ino: int, rec: DiskInode)
    requires
        struct_wf(sb, d0),
        ino_ok(sb, ino),
        pending(sb, d0, dk, ino, rec),
    ensures
        struct_wf(sb, with_inode(sb, dk, ino, rec)),
        used(sb, with_inode(sb, dk, ino, rec), ino),
        inode_of(sb, with_inode(sb, dk, ino, rec), ino) == rec,
        rec.content(with_inode(sb, dk, ino, rec)) == rec.content(dk),
        rec.owned(with_inode(sb, dk, ino, rec)) == rec.owned(dk),
        others_same(sb, d0, with_inode(sb, dk, ino, rec), ino),
        free_data(sb, with_inode(sb, dk, ino, rec)) == free_data(sb, dk),
        free_inodes(sb, with_inode(sb, dk, ino, rec)) == free_inodes(sb, dk),
        forall|b: int|
            in_data_area(sb, b) ==> #[trigger] allocated(sb, with_inode(sb, dk, ino, rec), b)
                == allocated(sb, dk, b),
        with_inode(sb, dk, ino, rec)[0] == d0[0],
        with_inode(sb, dk, ino, rec).len() == d0.len(),
        forall|b: int|
            in_data_area(sb, b) ==> #[trigger] with_inode(sb, dk, ino, rec)[b] == dk[b],
        bitmap_follows(sb, d0, with_inode(sb, dk, ino, rec), ino),
        forall|b: int| #[trigger] owns(sb, with_inode(sb, dk, ino, rec), ino, b) == rec.owns(dk, b),
{
    reveal(struct_wf);
    reveal(pending);
    lemma_store_commits(sb, d0, dk, ino, rec);
    assert(layout_wf(sb, dk));
    lemma_with_inode(sb, dk, ino, rec);
    lemma_regions(sb, d0);
    lemma_geometry(sb);
    lemma_inode_pos(sb, d0, ino);
    let d2 = with_inode(sb, dk, ino, rec);
    assert forall|b: int| #[trigger] owns(sb, d2, ino, b) == rec.owns(dk, b) by {
        lemma_owns_seq(rec, d2, b);
        lemma_owns_seq(rec, dk, b);
    }
    assert forall|b: int| in_data_area(sb, b) implies #[trigger] allocated(sb, d2, b) == (owns(
        sb,
        d2,
        ino,
        b,
    ) || (allocated(sb, d0, b) && !owns(sb, d0, ino, b))) by {
        assert(allocated(sb, d2, b) == allocated(sb, dk, b));
    }
}

/// Two steps, one after the other, leave alone every inode that neither of
/// them was on.
pub proof fn lemma_others_same_trans(
    sb: SuperBlock,
    d0: Seq<Seq<u8>>,
    d1: Seq<Seq<u8>>,
    d2: Seq<Seq<u8>>,
    a: int,
    b: int,
)
    requires
        others_same(sb, d0, d1, a),
        others_same(sb, d1, d2, b),
    ensures
        forall|j: int|
            ino_ok(sb, j) && j != a && j != b ==> #[trigger] used(sb, d2, j) == used(sb, d0, j),
        forall|j: int|
            ino_ok(sb, j) && j != a && j != b ==> #[trigger] inode_of(sb, d2, j) == inode_of(
                sb,
                d0,
                j,
            ),
        forall|j: int|
            ino_ok(sb, j) && j != a && j != b && used(sb, d0, j) ==> #[trigger] inode_of(
                sb,
                d2,
                j,
            ).content(d2) == inode_of(sb, d0, j).content(d0),
        forall|j: int|
            ino_ok(sb, j) && j != a && j != b && used(sb, d0, j) ==> #[trigger] inode_of(
                sb,
                d2,
                j,
            ).owned(d2) == inode_of(sb, d0, j).owned(d0),
        forall|j: int, p: int|
            ino_ok(sb, j) && j != a && j != b && used(sb, d0, j) && 0 <= p < inode_of(
                sb,
                d0,
                j,
            ).owned(d0).len() ==> d2[#[trigger] inode_of(sb, d0, j).owned(d0)[p] as int]
                == d0[inode_of(sb, d0, j).owned(d0)[p] as int],
        a == b ==> others_same(sb, d0, d2, a),
        others_same2(sb, d0, d2, a, b),
{
    assert forall|j: int, p: int|
        ino_ok(sb, j) && j != a && j != b && used(sb, d0, j) && 0 <= p < inode_of(
            sb,
            d0,
            j,
        ).owned(d0).len() implies d2[#[trigger] inode_of(sb, d0, j).owned(d0)[p] as int]
        == d0[inode_of(sb, d0, j).owned(d0)[p] as int] by {
        let o = inode_of(sb, d0, j).owned(d0);
        assert(used(sb, d1, j) == used(sb, d0, j));
        assert(inode_of(sb, d1, j).owned(d1) == o);
        assert(d1[o[p] as int] == d0[o[p] as int]);
        assert(d2[inode_of(sb, d1, j).owned(d1)[p] as int] == d1[inode_of(sb, d1, j).owned(
            d1,
        )[p] as int]);
    }
    assert forall|j: int|
        ino_ok(sb, j) && j != a && j != b && used(sb, d0, j) implies #[trigger] inode_of(
        sb,
        d2,
        j,
    ).owned(d2) == inode_of(sb, d0, j).owned(d0) by {
        assert(used(sb, d1, j) == used(sb, d0, j));
        assert(inode_of(sb, d1, j).owned(d1) == inode_of(sb, d0, j).owned(d0));
    }
    assert forall|j: int| ino_ok(sb, j) && j != a && j != b implies #[trigger] used(sb, d2, j)
        == used(sb, d0, j) by {
        assert(used(sb, d1, j) == used(sb, d0, j));
    }
    assert forall|j: int| ino_ok(sb, j) && j != a && j != b implies #[trigger] inode_of(sb, d2, j)
        == inode_of(sb, d0, j) by {
        assert(inode_of(sb, d1, j) == inode_of(sb, d0, j));
    }
    assert forall|j: int|
        ino_ok(sb, j) && j != a && j != b && used(sb, d0, j) implies #[trigger] inode_of(
        sb,
        d2,
        j,
    ).content(d2) == inode_of(sb, d0, j).content(d0) by {
        assert(used(sb, d1, j) == used(sb, d0, j));
        assert(inode_of(sb, d1, j).content(d1) == inode_of(sb, d0, j).content(d0));
    }
}

/// A step on a file that kept its link count and its kind leaves the
/// namespace as sound as before, with the same entries.
pub proof fn lemma_dir_step(sb: SuperBlock, d0: Seq<Seq<u8>>, d1: Seq<Seq<u8>>, ino: int)
    requires
        dir_wf(sb, d0),
        ino_ok(sb, ino),
        ino != 0,
        used(sb, d0, ino),
        used(sb, d1, ino),
        others_same(sb, d0, d1, ino),
        inode_of(sb, d1, ino).hard_link == inode_of(sb, d0, ino).hard_link,
        inode_of(sb, d1, ino).type_ == inode_of(sb, d0, ino).type_,
    ensures
        dir_wf(sb, d1),
        root_entries(sb, d1) == root_entries(sb, d0),
        inode_of(sb, d1, 0) == inode_of(sb, d0, 0),
{
    reveal(dir_wf);
    assert(ino_ok(sb, 0));
    assert(inode_of(sb, d1, 0) == inode_of(sb, d0, 0));
    assert(inode_of(sb, d1, 0).content(d1) == inode_of(sb, d0, 0).content(d0));
    let entries = root_entries(sb, d0);
    assert(root_entries(sb, d1) == entries);
    assert forall|i: int| ino_ok(sb, i) && i != 0 && #[trigger] used(sb, d1, i) implies inode_of(
        sb,
        d1,
        i,
    ).type_ == DiskInodeType::File && inode_of(sb, d1, i).hard_link == count_links(entries, i) by {
        assert(used(sb, d0, i));
        if i != ino {
            assert(inode_of(sb, d1, i) == inode_of(sb, d0, i));
        }
    }
    assert forall|e: int| 0 <= e < entries.len() implies 0 < (#[trigger] entries[e]).inode_number
        < sb.inode_count() && used(sb, d1, entries[e].inode_number as int) by {
        let n = entries[e].inode_number as int;
        assert(used(sb, d0, n));
        if n != ino {
            assert(used(sb, d1, n) == used(sb, d0, n));
        }
    }
}

/// While an operation on inode `ino` is under way in which the inode kept
/// the blocks it had, in their places: the blocks it has now beyond those
/// were free, and the data bitmap marks what it marked and what the inode
/// has now.
pub proof fn lemma_grown_bits(
    sb: SuperBlock,
    d0: Seq<Seq<u8>>,
    dk: Seq<Seq<u8>>,
    ino: int,
    rec0: DiskInode,
    rec: DiskInode,
)
    requires
        struct_wf(sb, d0),
        ino_ok(sb, ino),
        used(sb, d0, ino),
        rec0 == inode_of(sb, d0, ino),
        pending(sb, d0, dk, ino, rec),
        rec0.size <= rec.size,
        rec.owned(dk).subrange(0, rec0.owned(d0).len() as int) == rec0.owned(d0),
    ensures
        forall|p: int|
            0 <= p < spec_total_blocks(rec0.size as int) ==> #[trigger] rec.owned_at(dk, p)
                == rec0.owned_at(d0, p),
        forall|p: int|
            spec_total_blocks(rec0.size as int) <= p < spec_total_blocks(rec.size as int)
                ==> in_data_area(sb, #[trigger] rec.owned_at(dk, p) as int) && !allocated(
                sb,
                d0,
                rec.owned_at(dk, p) as int,
            ),
        forall|b: int|
            in_data_area(sb, b) ==> #[trigger] allocated(sb, dk, b) == (allocated(sb, d0, b)
                || rec.owns(dk, b)),
{
    reveal(pending);
    reveal(struct_wf);
    let t0 = spec_total_blocks(rec0.size as int);
    let t1 = spec_total_blocks(rec.size as int);
    crate::layout::lemma_total_blocks_monotone(rec0.size as int, rec.size as int);
    assert(inode_wf(sb, d0, ino));
    assert forall|p: int| 0 <= p < t0 implies #[trigger] rec.owned_at(dk, p) == rec0.owned_at(
        d0,
        p,
    ) by {
        assert(rec.owned(dk).subrange(0, t0)[p] == rec0.owned(d0)[p]);
    }
    assert forall|b: int| rec0.owns(d0, b) implies rec.owns(dk, b) by {
        let p = choose|p: int| 0 <= p < t0 && #[trigger] rec0.owned_at(d0, p) == b;
        assert(rec.owned_at(dk, p) == b);
    }
    assert forall|p: int| t0 <= p < t1 implies in_data_area(
        sb,
        #[trigger] rec.owned_at(dk, p) as int,
    ) && !allocated(sb, d0, rec.owned_at(dk, p) as int) by {
        let b = rec.owned_at(dk, p) as int;
        assert(in_data_area(sb, b));
        assert(rec.owns(dk, b));
        if rec0.owns(d0, b) {
            let q = choose|q: int| 0 <= q < t0 && #[trigger] rec0.owned_at(d0, q) == b;
            assert(rec.owned_at(dk, q) == b);
            assert(rec.owned_at(dk, q) != rec.owned_at(dk, p));
        }
    }
    assert forall|b: int| in_data_area(sb, b) implies #[trigger] allocated(sb, dk, b) == (allocated(
        sb,
        d0,
        b,
    ) || rec.owns(dk, b)) by {
        if rec0.owns(d0, b) {
            assert(owns(sb, d0, ino, b));
            assert(owned_by_some(sb, d0, b));
        }
    }
}

/// An inode that grew, was written and was stored has the blocks it had in
/// their places.
pub proof fn lemma_prefix_kept(
    rec0: DiskInode,
    d0: Seq<Seq<u8>>,
    rec: DiskInode,
    d1: Seq<Seq<u8>>,
    d2: Seq<Seq<u8>>,
    d3: Seq<Seq<u8>>,
)
    requires
        rec0.size <= rec.size,
        forall|p: int|
            0 <= p < spec_total_blocks(rec0.size as int) ==> #[trigger] rec.owned_at(d1, p)
                == rec0.owned_at(d0, p),
        forall|p: int|
            0 <= p < spec_total_blocks(rec.size as int) ==> #[trigger] rec.owned_at(d2, p)
                == rec.owned_at(d1, p),
        rec.owned(d3) == rec.owned(d2),
    ensures
        rec.owned(d3).subrange(0, rec0.owned(d0).len() as int) == rec0.owned(d0),
{
    let t0 = spec_total_blocks(rec0.size as int);
    crate::layout::lemma_total_blocks_monotone(rec0.size as int, rec.size as int);
    assert forall|p: int| 0 <= p < t0 implies rec.owned(d3)[p] == rec0.owned(d0)[p] by {
        assert(rec.owned(d2)[p] == rec.owned_at(d2, p));
        assert(rec.owned_at(d1, p) == rec0.owned_at(d0, p));
    }
    assert(rec.owned(d3).subrange(0, t0) =~= rec0.owned(d0));
}

/// A step on inode `x` whose bitmap is followed from `d0`, then a step that
/// leaves the bitmap and the blocks of `x` alone: the bitmap still goes with
/// `x`.
pub proof fn lemma_follow_then_same(
    sb: SuperBlock,
    d0: Seq<Seq<u8>>,
    d1: Seq<Seq<u8>>,
    d2: Seq<Seq<u8>>,
    x: int,
)
    requires
        bitmap_follows(sb, d0, d1, x),
        bitmap_same(sb, d1, d2),
        used(sb, d2, x) == used(sb, d1, x),
        used(sb, d1, x) ==> inode_of(sb, d2, x).owned(d2) == inode_of(sb, d1, x).owned(d1),
    ensures
        bitmap_follows(sb, d0, d2, x),
{
    lemma_owns_same(sb, d1, d2, x);
    assert forall|b: int| in_data_area(sb, b) implies #[trigger] allocated(sb, d2, b) == (owns(
        sb,
        d2,
        x,
        b,
    ) || (allocated(sb, d0, b) && !owns(sb, d0, x, b))) by {
        assert(allocated(sb, d2, b) == allocated(sb, d1, b));
        assert(owns(sb, d2, x, b) == owns(sb, d1, x, b));
    }
}

/// A step that leaves the bitmap and the blocks of `x` alone, then a step on
/// `x` whose bitmap is followed: the bitmap goes with `x` from `d0`.
pub proof fn lemma_same_then_follow(
    sb: SuperBlock,
    d0: Seq<Seq<u8>>,
    d1: Seq<Seq<u8>>,
    d2: Seq<Seq<u8>>,
    x: int,
)
    requires
        bitmap_same(sb, d0, d1),
        used(sb, d1, x) == used(sb, d0, x),
        used(sb, d0, x) ==> inode_of(sb, d1, x).owned(d1) == inode_of(sb, d0, x).owned(d0),
        bitmap_follows(sb, d1, d2, x),
    ensures
        bitmap_follows(sb, d0, d2, x),
{
    lemma_owns_same(sb, d0, d1, x);
    assert forall|b: int| in_data_area(sb, b) implies #[trigger] allocated(sb, d2, b) == (owns(
        sb,
        d2,
        x,
        b,
    ) || (allocated(sb, d0, b) && !owns(sb, d0, x, b))) by {
        assert(allocated(sb, d1, b) == allocated(sb, d0, b));
        assert(owns(sb, d1, x, b) == owns(sb, d0, x, b));
    }
}

/// The bitmap is the same after two steps that each leave it the same.
pub proof fn lemma_bitmap_same_trans(
    sb: SuperBlock,
    d0: Seq<Seq<u8>>,
    d1: Seq<Seq<u8>>,
    d2: Seq<Seq<u8>>,
)
    requires
        bitmap_same(sb, d0, d1),
        bitmap_same(sb, d1, d2),
    ensures
        bitmap_same(sb, d0, d2),
{
    assert forall|b: int| in_data_area(sb, b) implies #[trigger] allocated(sb, d2, b) == allocated(
        sb,
        d0,
        b,
    ) by {
        assert(allocated(sb, d1, b) == allocated(sb, d0, b));
    }
}

/// The data bitmap grew with inode `ino`: a block of the data area is marked
/// allocated on `d1` exactly if it was marked on `d0` or the inode has it on
/// `d1`.
pub open spec fn bitmap_grew(sb: SuperBlock, d0: Seq<Seq<u8>>, d1: Seq<Seq<u8>>, ino: int) -> bool {
    forall|b: int|
        in_data_area(sb, b) ==> #[trigger] allocated(sb, d1, b) == (allocated(sb, d0, b) || owns(
            sb,
            d1,
            ino,
            b,
        ))
}

/// The data bitmap gave up what inode `ino` had: a block of the data area is
/// marked allocated on `d1` exactly if it was marked on `d0` and was not the
/// inode's.
pub open spec fn bitmap_gave(sb: SuperBlock, d0: Seq<Seq<u8>>, d1: Seq<Seq<u8>>, ino: int) -> bool {
    forall|b: int|
        in_data_area(sb, b) ==> #[trigger] allocated(sb, d1, b) == (allocated(sb, d0, b) && !owns(
            sb,
            d0,
            ino,
            b,
        ))
}

/// Where the bitmap went with an inode that kept the blocks it had, the
/// bitmap grew with it.
pub proof fn lemma_follows_grew(sb: SuperBlock, d0: Seq<Seq<u8>>, d1: Seq<Seq<u8>>, ino: int)
    requires
        struct_wf(sb, d0),
        bitmap_follows(sb, d0, d1, ino),
        used(sb, d0, ino) ==> used(sb, d1, ino) && inode_of(sb, d1, ino).owned(d1).subrange(
            0,
            inode_of(sb, d0, ino).owned(d0).len() as int,
        ) == inode_of(sb, d0, ino).owned(d0) && inode_of(sb, d0, ino).owned(d0).len() <= inode_of(
            sb,
            d1,
            ino,
        ).owned(d1).len(),
    ensures
        bitmap_grew(sb, d0, d1, ino),
{
    reveal(struct_wf);
    assert forall|b: int| in_data_area(sb, b) implies #[trigger] allocated(sb, d1, b) == (allocated(
        sb,
        d0,
        b,
    ) || owns(sb, d1, ino, b)) by {
        if owns(sb, d0, ino, b) {
            assert(owned_by_some(sb, d0, b));
            let v0 = inode_of(sb, d0, ino).owned(d0);
            let v1 = inode_of(sb, d1, ino).owned(d1);
            lemma_owns_seq(inode_of(sb, d0, ino), d0, b);
            lemma_owns_seq(inode_of(sb, d1, ino), d1, b);
            let x = choose|x: int| 0 <= x < v0.len() && #[trigger] v0[x] == b;
            assert(v1.subrange(0, v0.len() as int)[x] == v0[x]);
            assert(v1[x] == b);
        }
    }
}

/// Where the bitmap went with an inode that has no block left, the bitmap
/// gave up what the inode had.
pub proof fn lemma_follows_gave(sb: SuperBlock, d0: Seq<Seq<u8>>, d1: Seq<Seq<u8>>, ino: int)
    requires
        bitmap_follows(sb, d0, d1, ino),
        inode_of(sb, d1, ino).size == 0,
    ensures
        bitmap_gave(sb, d0, d1, ino),
{
    assert forall|b: int| in_data_area(sb, b) implies #[trigger] allocated(sb, d1, b) == (allocated(
        sb,
        d0,
        b,
    ) && !owns(sb, d0, ino, b)) by {
        assert(!inode_of(sb, d1, ino).owns(d1, b));
    }
}

} // verus!
