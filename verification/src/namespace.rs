//! The namespace: the entries of the one directory, what a name resolves to,
//! and how the files' link counts agree with the entries.

use crate::dir_entry::{dir_entries, DirEntryView};
use crate::disk_inode::DiskInodeType;
use crate::image::{ino_ok, inode_of, struct_wf, used};
use crate::super_block::SuperBlock;
use vstd::prelude::*;

verus! {

/// The entries of the root directory, in on-disk order.
pub open spec fn root_entries(sb: SuperBlock, disk: Seq<Seq<u8>>) -> Seq<DirEntryView> {
    dir_entries(inode_of(sb, disk, 0).content(disk))
}

/// Number of entries that name inode `ino`.
pub open spec fn count_links(entries: Seq<DirEntryView>, ino: int) -> int
    decreases entries.len(),
{
    if entries.len() == 0 {
        0
    } else {
        count_links(entries.drop_last(), ino) + if entries.last().inode_number == ino {
            1int
        } else {
            0int
        }
    }
}

/// Index of the first entry at or after `from` whose name is `name`, or -1.
pub open spec fn first_index(entries: Seq<DirEntryView>, name: Seq<u8>, from: int) -> int
    decreases entries.len() - from,
{
    if from < 0 || from >= entries.len() {
        -1
    } else if entries[from].name == name {
        from
    } else {
        first_index(entries, name, from + 1)
    }
}

/// The inode that `name` resolves to: the one named by the first entry with
/// that name.
pub open spec fn lookup(entries: Seq<DirEntryView>, name: Seq<u8>) -> Option<u32> {
    let i = first_index(entries, name, 0);
    if i < 0 {
        None
    } else {
        Some(entries[i].inode_number)
    }
}

/// The namespace is sound: inode 0 is the one directory, its size is a whole
/// number of entries, every entry names a file in use, and every file's link
/// count is the number of entries that name it.
#[verifier::opaque]
pub open spec fn dir_wf(sb: SuperBlock, disk: Seq<Seq<u8>>) -> bool {
    let root = inode_of(sb, disk, 0);
    let entries = root_entries(sb, disk);
    &&& used(sb, disk, 0)
    &&& root.type_ == DiskInodeType::Directory
    &&& root.size % 32 == 0
    &&& forall|i: int|
        ino_ok(sb, i) && i != 0 && #[trigger] used(sb, disk, i) ==> inode_of(sb, disk, i).type_
            == DiskInodeType::File
    &&& forall|e: int|
        0 <= e < entries.len() ==> 0 < (#[trigger] entries[e]).inode_number < sb.inode_count()
            && used(sb, disk, entries[e].inode_number as int)
    &&& forall|i: int|
        ino_ok(sb, i) && i != 0 && #[trigger] used(sb, disk, i) ==> inode_of(sb, disk, i).hard_link
            == count_links(entries, i)
}

/// The whole image is sound.
pub open spec fn image_wf(sb: SuperBlock, disk: Seq<Seq<u8>>) -> bool {
    struct_wf(sb, disk) && dir_wf(sb, disk)
}

/// What `first_index` finds: an entry with the name, before which none has
/// it; or -1 when no entry from `from` on has it.
pub proof fn lemma_first_index(entries: Seq<DirEntryView>, name: Seq<u8>, from: int)
    requires
        0 <= from,
    ensures
        ({
            let i = first_index(entries, name, from);
            &&& i == -1 || from <= i < entries.len()
            &&& i >= 0 ==> entries[i].name == name
            &&& forall|j: int|
                from <= j < entries.len() && (i == -1 || j < i) ==> (#[trigger] entries[j]).name
                    != name
        }),
    decreases entries.len() - from,
{
    if from < entries.len() && entries[from].name != name {
        lemma_first_index(entries, name, from + 1);
    }
}

/// Counting links: an entry added at the end counts for the inode it names.
pub proof fn lemma_count_push(entries: Seq<DirEntryView>, e: DirEntryView, ino: int)
    ensures
        count_links(entries.push(e), ino) == count_links(entries, ino) + if e.inode_number == ino {
            1int
        } else {
            0int
        },
{
    assert(entries.push(e).drop_last() =~= entries);
}

/// The count is never negative, and at most the number of entries; it is
/// positive if some entry names the inode.
pub proof fn lemma_count_bounds(entries: Seq<DirEntryView>, ino: int)
    ensures
        0 <= count_links(entries, ino) <= entries.len(),
        forall|e: int|
            0 <= e < entries.len() && (#[trigger] entries[e]).inode_number == ino ==> count_links(
                entries,
                ino,
            ) >= 1,
    decreases entries.len(),
{
    if entries.len() > 0 {
        lemma_count_bounds(entries.drop_last(), ino);
        assert forall|e: int|
            0 <= e < entries.len() && (#[trigger] entries[e]).inode_number == ino implies count_links(
            entries,
            ino,
        ) >= 1 by {
            if e < entries.len() - 1 {
                assert(entries.drop_last()[e] == entries[e]);
            }
        }
    }
}

/// Replacing one entry moves one link from the inode it named to the inode
/// it names now.
pub proof fn lemma_count_update(entries: Seq<DirEntryView>, at: int, e: DirEntryView, ino: int)
    requires
        0 <= at < entries.len(),
    ensures
        count_links(entries.update(at, e), ino) == count_links(entries, ino) - (if entries[at].inode_number
            == ino {
            1int
        } else {
            0int
        }) + (if e.inode_number == ino {
            1int
        } else {
            0int
        }),
    decreases entries.len(),
{
    let u = entries.update(at, e);
    if at == entries.len() - 1 {
        assert(u.drop_last() =~= entries.drop_last());
    } else {
        lemma_count_update(entries.drop_last(), at, e, ino);
        assert(u.drop_last() =~= entries.drop_last().update(at, e));
    }
}

/// No entry names the inode: its count is 0.
pub proof fn lemma_count_zero(entries: Seq<DirEntryView>, ino: int)
    requires
        forall|e: int| 0 <= e < entries.len() ==> (#[trigger] entries[e]).inode_number != ino,
    ensures
        count_links(entries, ino) == 0,
    decreases entries.len(),
{
    if entries.len() > 0 {
        assert forall|e: int| 0 <= e < entries.drop_last().len() implies (#[trigger] entries.drop_last()[e]).inode_number
            != ino by {
            assert(entries[e].inode_number != ino);
        }
        lemma_count_zero(entries.drop_last(), ino);
        assert(entries[entries.len() - 1].inode_number != ino);
    }
}

/// The entries after entry `at` was removed by moving the last entry into
/// its place.
pub open spec fn swap_removed(entries: Seq<DirEntryView>, at: int) -> Seq<DirEntryView> {
    entries.update(at, entries.last()).drop_last()
}

/// Removing an entry takes one link from the inode it named and none from
/// any other.
pub proof fn lemma_count_swap_removed(entries: Seq<DirEntryView>, at: int, ino: int)
    requires
        0 <= at < entries.len(),
    ensures
        count_links(swap_removed(entries, at), ino) == count_links(entries, ino) - if entries[at].inode_number
            == ino {
            1int
        } else {
            0int
        },
{
    let u = entries.update(at, entries.last());
    lemma_count_update(entries, at, entries.last(), ino);
    assert(u.last() == entries.last());
}

/// What a sound namespace gives: inode 0 is in use and is the directory, of
/// a whole number of entries, and it is the only directory.
pub proof fn lemma_dir_root(sb: SuperBlock, disk: Seq<Seq<u8>>, ino: int)
    requires
        dir_wf(sb, disk),
        ino_ok(sb, ino),
        used(sb, disk, ino),
    ensures
        used(sb, disk, 0),
        inode_of(sb, disk, 0).type_ == DiskInodeType::Directory,
        inode_of(sb, disk, 0).size % 32 == 0,
        (inode_of(sb, disk, ino).type_ == DiskInodeType::Directory) <==> ino == 0,
        ino != 0 ==> inode_of(sb, disk, ino).hard_link == count_links(root_entries(sb, disk), ino),
        ino != 0 ==> inode_of(sb, disk, ino).hard_link <= root_entries(sb, disk).len(),
{
    reveal(dir_wf);
    lemma_count_bounds(root_entries(sb, disk), ino);
}

/// In a sound namespace inode 0 is in use and is a directory.
pub proof fn lemma_root_dir(sb: SuperBlock, disk: Seq<Seq<u8>>)
    requires
        dir_wf(sb, disk),
    ensures
        used(sb, disk, 0),
        inode_of(sb, disk, 0).type_ == DiskInodeType::Directory,
        inode_of(sb, disk, 0).size % 32 == 0,
{
    reveal(dir_wf);
}

/// What a sound namespace gives for an entry: it names a file in use, not
/// the directory, and that file's link count is at least 1.
pub proof fn lemma_dir_entry(sb: SuperBlock, disk: Seq<Seq<u8>>, e: int)
    requires
        dir_wf(sb, disk),
        0 <= e < root_entries(sb, disk).len(),
    ensures
        0 < root_entries(sb, disk)[e].inode_number < sb.inode_count(),
        ino_ok(sb, root_entries(sb, disk)[e].inode_number as int),
        used(sb, disk, root_entries(sb, disk)[e].inode_number as int),
        inode_of(sb, disk, root_entries(sb, disk)[e].inode_number as int).hard_link >= 1,
        inode_of(sb, disk, root_entries(sb, disk)[e].inode_number as int).type_
            == DiskInodeType::File,
{
    reveal(dir_wf);
    let entries = root_entries(sb, disk);
    let n = entries[e].inode_number as int;
    assert(used(sb, disk, n));
    lemma_count_bounds(entries, n);
}

/// The namespace after an entry that names file `id` was added at the end of
/// the directory and the file's link count is one more than the number of
/// entries that named it before: it is sound.
pub proof fn lemma_dir_wf_push(
    sb: SuperBlock,
    d0: Seq<Seq<u8>>,
    d2: Seq<Seq<u8>>,
    id: int,
    e: DirEntryView,
)
    requires
        dir_wf(sb, d0),
        ino_ok(sb, id),
        id != 0,
        e.inode_number == id,
        used(sb, d2, id),
        used(sb, d2, 0),
        inode_of(sb, d2, 0).type_ == DiskInodeType::Directory,
        inode_of(sb, d2, 0).size % 32 == 0,
        root_entries(sb, d2) == root_entries(sb, d0).push(e),
        inode_of(sb, d2, id).type_ == DiskInodeType::File,
        inode_of(sb, d2, id).hard_link == count_links(root_entries(sb, d0), id) + 1,
        forall|j: int|
            ino_ok(sb, j) && j != 0 && j != id ==> #[trigger] used(sb, d2, j) == used(sb, d0, j),
        forall|j: int|
            ino_ok(sb, j) && j != 0 && j != id ==> #[trigger] inode_of(sb, d2, j) == inode_of(
                sb,
                d0,
                j,
            ),
    ensures
        dir_wf(sb, d2),
{
    reveal(dir_wf);
    let entries0 = root_entries(sb, d0);
    let entries2 = root_entries(sb, d2);
    assert forall|i: int| ino_ok(sb, i) && i != 0 && #[trigger] used(sb, d2, i) implies inode_of(
        sb,
        d2,
        i,
    ).type_ == DiskInodeType::File && inode_of(sb, d2, i).hard_link == count_links(entries2, i) by {
        lemma_count_push(entries0, e, i);
        if i != id {
            assert(used(sb, d0, i));
            assert(inode_of(sb, d2, i) == inode_of(sb, d0, i));
        }
    }
    assert forall|x: int| 0 <= x < entries2.len() implies 0 < (#[trigger] entries2[x]).inode_number
        < sb.inode_count() && used(sb, d2, entries2[x].inode_number as int) by {
        if x < entries0.len() {
            assert(entries2[x] == entries0[x]);
            let n = entries0[x].inode_number as int;
            assert(used(sb, d0, n));
            if n != id {
                assert(used(sb, d2, n) == used(sb, d0, n));
            }
        }
    }
}

/// The namespace after entry `at`, which named file `id`, was removed and
/// the file's link count lowered by one: it is sound.
pub proof fn lemma_dir_wf_removed(
    sb: SuperBlock,
    d0: Seq<Seq<u8>>,
    d2: Seq<Seq<u8>>,
    id: int,
    at: int,
)
    requires
        dir_wf(sb, d0),
        0 <= at < root_entries(sb, d0).len(),
        root_entries(sb, d0)[at].inode_number == id,
        used(sb, d2, 0),
        inode_of(sb, d2, 0).type_ == DiskInodeType::Directory,
        inode_of(sb, d2, 0).size % 32 == 0,
        root_entries(sb, d2) == swap_removed(root_entries(sb, d0), at),
        inode_of(sb, d2, id).type_ == DiskInodeType::File,
        inode_of(sb, d2, id).hard_link == count_links(root_entries(sb, d0), id) - 1,
        forall|j: int| ino_ok(sb, j) && j != 0 ==> #[trigger] used(sb, d2, j) == used(sb, d0, j),
        forall|j: int|
            ino_ok(sb, j) && j != 0 && j != id ==> #[trigger] inode_of(sb, d2, j) == inode_of(
                sb,
                d0,
                j,
            ),
    ensures
        dir_wf(sb, d2),
{
    reveal(dir_wf);
    let entries0 = root_entries(sb, d0);
    let entries2 = root_entries(sb, d2);
    assert forall|i: int| ino_ok(sb, i) && i != 0 && #[trigger] used(sb, d2, i) implies inode_of(
        sb,
        d2,
        i,
    ).type_ == DiskInodeType::File && inode_of(sb, d2, i).hard_link == count_links(entries2, i) by {
        lemma_count_swap_removed(entries0, at, i);
        assert(used(sb, d0, i));
        if i != id {
            assert(inode_of(sb, d2, i) == inode_of(sb, d0, i));
        }
    }
    assert forall|x: int| 0 <= x < entries2.len() implies 0 < (#[trigger] entries2[x]).inode_number
        < sb.inode_count() && used(sb, d2, entries2[x].inode_number as int) by {
        let src = if x == at {
            entries0.len() - 1
        } else {
            x
        };
        assert(entries2[x] == entries0[src]);
        let n = entries0[src].inode_number as int;
        assert(used(sb, d0, n));
        assert(used(sb, d2, n) == used(sb, d0, n));
    }
}

/// A directory that is the only inode in use and has no entries makes a
/// sound namespace.
pub proof fn lemma_dir_fresh(sb: SuperBlock, disk: Seq<Seq<u8>>)
    requires
        used(sb, disk, 0),
        inode_of(sb, disk, 0).type_ == DiskInodeType::Directory,
        inode_of(sb, disk, 0).size == 0,
        forall|j: int| ino_ok(sb, j) && j != 0 ==> !#[trigger] used(sb, disk, j),
    ensures
        dir_wf(sb, disk),
        root_entries(sb, disk).len() == 0,
{
    reveal(dir_wf);
}

/// Directory consistency: in a sound image the size of the directory is 32
/// bytes for each of its entries, so the entries fill the directory from its
/// first byte to its last without a gap.
pub proof fn lemma_directory_consistent(sb: SuperBlock, disk: Seq<Seq<u8>>)
    requires
        image_wf(sb, disk),
    ensures
        inode_of(sb, disk, 0).size == 32 * root_entries(sb, disk).len(),
        inode_of(sb, disk, 0).content(disk).len() == 32 * root_entries(sb, disk).len(),
{
    reveal(dir_wf);
}

/// Link accounting: in a sound image the link count of every file in use is
/// the number of directory entries that name it.
pub proof fn lemma_link_accounting(sb: SuperBlock, disk: Seq<Seq<u8>>, ino: int)
    requires
        image_wf(sb, disk),
        ino_ok(sb, ino),
        ino != 0,
        used(sb, disk, ino),
    ensures
        inode_of(sb, disk, ino).hard_link == count_links(root_entries(sb, disk), ino),
{
    lemma_dir_root(sb, disk, ino);
}

} // verus!
