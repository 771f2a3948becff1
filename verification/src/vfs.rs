//! The inode handle that users hold: find, create, list, read, write, link
//! and unlink, each carried out on the filesystem it is handed.

use crate::block_dev::BlockDevice;
use crate::codec::splice;
use crate::dir_entry::{dir_entries, entry_at, lemma_entries_push, name_of, DirEntry, DirEntryView};
use crate::disk_inode::{DiskInode, DiskInodeType};
use crate::efs::EasyFileSystem;
use crate::image::{
    allocated, free_data, free_inodes, in_data_area, ino_ok, inode_block, inode_of, inode_offset,
    layout_wf, lemma_inode_pos, lemma_regions, lemma_struct_bits, lemma_struct_inode, owns,
    struct_wf, used,
};
use crate::namespace::{
    first_index, lemma_count_zero, lemma_dir_entry, lemma_dir_root, lemma_dir_wf_push,
    lemma_dir_wf_removed, lemma_first_index, lookup, root_entries, swap_removed,
};
use crate::steps::{
    bitmap_follows, bitmap_gave, bitmap_grew, bitmap_same, lemma_bitmap_kept,
    lemma_bitmap_same_trans, lemma_follows_gave, lemma_follows_grew,
    lemma_follow_then_same, lemma_grown_bits, lemma_owns_same, lemma_prefix_kept,
    lemma_same_then_follow, others_same2,
    blocks_released, lemma_after_alloc, lemma_commit, lemma_dir_step, lemma_others_same_trans,
    lemma_pending_clear, lemma_pending_grow, lemma_pending_init, lemma_pending_new,
    lemma_pending_record, lemma_pending_use, lemma_pending_write, lemma_release_one,
    lemma_release_ready, others_same, pending, with_inode,
};
use crate::layout::{read_len, spec_total_blocks, MAX_FILE_SIZE};
use crate::super_block::SuperBlock;
use vstd::prelude::*;
use vstd::string::StringSliceAdditionalSpecFns;

verus! {

broadcast use {vstd::slice::group_slice_axioms, vstd::array::group_array_axioms};

/// The text of a name. For bytes that are valid UTF-8 it is the text they
/// encode, as `String::from_utf8_lossy` documents; for other bytes nothing is
/// claimed.
#[verifier::external_body]
fn name_to_string(bytes: &[u8]) -> (s: String)
    ensures
        vstd::utf8::valid_utf8(bytes@) ==> s@ == vstd::utf8::decode_utf8(bytes@),
{
    String::from_utf8_lossy(bytes).into_owned()
}

/// Releasing blocks of the data area leaves the count of free inode slots
/// as it was.
proof fn data_free_same_inodes(sb: SuperBlock, d0: Seq<Seq<u8>>, dk: Seq<Seq<u8>>)
    requires
        layout_wf(sb, d0),
        forall|b: int| 1 <= b < sb.inode_area_start() ==> dk[b] == d0[b],
    ensures
        free_inodes(sb, dk) == free_inodes(sb, d0),
{
    lemma_regions(sb, d0);
    crate::image::inode_bitmap(sb).lemma_same_bits(d0, dk);
}

/// What a write of `bytes` at `offset` makes of a file whose bytes were
/// `pre`: the file reaches at least to the end of what was written, holds
/// `bytes` there, and holds what it held wherever it was not written.
pub open spec fn written(pre: Seq<u8>, post: Seq<u8>, offset: int, bytes: Seq<u8>) -> bool {
    &&& post.len() == if offset + bytes.len() >= pre.len() {
        offset + bytes.len()
    } else {
        pre.len() as int
    }
    &&& post.subrange(offset, offset + bytes.len()) == bytes
    &&& forall|i: int|
        0 <= i < pre.len() && !(offset <= i < offset + bytes.len()) ==> post[i] == pre[i]
}

/// What a read at `offset` from a file with bytes `content` leaves in a
/// buffer that held `buf`.
pub open spec fn read_into(buf: Seq<u8>, content: Seq<u8>, offset: int) -> Seq<u8> {
    splice(buf, 0, content, offset, read_len(content.len() as int, offset, buf.len() as int))
}

/// Reading back what was written: after a write of `bytes` at `offset`, a
/// read at `offset` into a buffer as long as `bytes` fills the buffer, and
/// with exactly `bytes`.
pub proof fn lemma_round_trip(
    pre: Seq<u8>,
    post: Seq<u8>,
    offset: int,
    bytes: Seq<u8>,
    buf: Seq<u8>,
)
    requires
        0 <= offset,
        written(pre, post, offset, bytes),
        buf.len() == bytes.len(),
    ensures
        read_len(post.len() as int, offset, buf.len() as int) == bytes.len(),
        read_into(buf, post, offset) == bytes,
{
    let got = read_into(buf, post, offset);
    assert forall|i: int| 0 <= i < bytes.len() implies got[i] == bytes[i] by {
        assert(post.subrange(offset, offset + bytes.len())[i] == bytes[i]);
    }
    assert(got =~= bytes);
}

/// What a write of `bytes` at `offset` of file `inode` made of filesystem
/// `pre`: the file holds the bytes, every other inode is as it was, and the
/// device is current.
pub open spec fn wrote_to<D: BlockDevice>(
    pre: &EasyFileSystem<D>,
    post: &EasyFileSystem<D>,
    inode: &Inode,
    offset: int,
    bytes: Seq<u8>,
    n: int,
) -> bool {
    &&& post.wf()
    &&& post.same_handle(pre)
    &&& inode.valid(post)
    &&& n == bytes.len()
    &&& inode.record(post).size == if offset + bytes.len() >= inode.record(pre).size {
        offset + bytes.len()
    } else {
        inode.record(pre).size as int
    }
    &&& inode.record(post).size >= offset + bytes.len()
    &&& inode.record(post).hard_link == inode.record(pre).hard_link
    &&& inode.record(post).type_ == inode.record(pre).type_
    &&& written(inode.content(pre), inode.content(post), offset, bytes)
    &&& others_same(pre.geometry, pre.disk(), post.disk(), inode.inode_id as int)
    &&& free_data(pre.geometry, post.disk()) == free_data(pre.geometry, pre.disk())
        - (spec_total_blocks(inode.record(post).size as int) - spec_total_blocks(
        inode.record(pre).size as int,
    ))
    &&& inode.record(post).owned(post.disk()).subrange(
        0,
        inode.record(pre).owned(pre.disk()).len() as int,
    ) == inode.record(pre).owned(pre.disk())
    &&& bitmap_grew(pre.geometry, pre.disk(), post.disk(), inode.inode_id as int)
    &&& free_inodes(pre.geometry, post.disk()) == free_inodes(pre.geometry, pre.disk())
    &&& post.synced()
}

/// What emptying file `inode` made of filesystem `pre`: the file has no
/// bytes, its blocks are free, every other inode is as it was.
pub open spec fn emptied<D: BlockDevice>(
    pre: &EasyFileSystem<D>,
    post: &EasyFileSystem<D>,
    inode: &Inode,
) -> bool {
    &&& post.wf()
    &&& post.same_handle(pre)
    &&& inode.valid(post)
    &&& others_same(pre.geometry, pre.disk(), post.disk(), inode.inode_id as int)
    &&& inode.record(post).size == 0
    &&& inode.record(post).hard_link == inode.record(pre).hard_link
    &&& inode.record(post).type_ == inode.record(pre).type_
    &&& forall|b: int|
        in_data_area(pre.geometry, b) && owns(
            pre.geometry,
            pre.disk(),
            inode.inode_id as int,
            b,
        ) ==> !#[trigger] allocated(pre.geometry, post.disk(), b)
    &&& free_data(pre.geometry, post.disk()) == free_data(
        pre.geometry,
        pre.disk(),
    ) + spec_total_blocks(inode.record(pre).size as int)
    &&& bitmap_gave(pre.geometry, pre.disk(), post.disk(), inode.inode_id as int)
    &&& free_inodes(pre.geometry, post.disk()) == free_inodes(pre.geometry, pre.disk())
    &&& post.synced()
}

/// What giving the file named `old_name` the second name `new_name` made of
/// filesystem `pre`.
pub open spec fn linked_in<D: BlockDevice>(
    pre: &EasyFileSystem<D>,
    post: &EasyFileSystem<D>,
    dir: &Inode,
    old_name: Seq<u8>,
    new_name: Seq<u8>,
    r: Option<()>,
) -> bool {
    &&& post.wf()
    &&& post.same_handle(pre)
    &&& dir.valid(post)
    &&& match lookup(dir.entries(pre), old_name) {
        None => r is None && post.disk() == pre.disk(),
        Some(id) => {
            &&& r is Some
            &&& dir.entries(post) == dir.entries(pre).push(
                DirEntryView { name: name_of(new_name), inode_number: id },
            )
            &&& dir.record(post).size == dir.record(pre).size + 32
            &&& dir.record(post).hard_link == dir.record(pre).hard_link
            &&& dir.record(post).type_ == dir.record(pre).type_
            &&& inode_of(pre.geometry, post.disk(), id as int).hard_link
                == inode_of(pre.geometry, pre.disk(), id as int).hard_link + 1
            &&& inode_of(pre.geometry, post.disk(), id as int).size == inode_of(
                pre.geometry,
                pre.disk(),
                id as int,
            ).size
            &&& inode_of(pre.geometry, post.disk(), id as int).content(
                post.disk(),
            ) == inode_of(pre.geometry, pre.disk(), id as int).content(
                pre.disk(),
            )
            &&& forall|j: int|
                ino_ok(pre.geometry, j) ==> #[trigger] used(
                    pre.geometry,
                    post.disk(),
                    j,
                ) == used(pre.geometry, pre.disk(), j)
            &&& others_same2(pre.geometry, pre.disk(), post.disk(), dir.inode_id as int, id as int)
            &&& dir.record(post).owned(post.disk()).subrange(
                0,
                dir.record(pre).owned(pre.disk()).len() as int,
            ) == dir.record(pre).owned(pre.disk())
            &&& bitmap_grew(pre.geometry, pre.disk(), post.disk(), dir.inode_id as int)
            &&& free_inodes(pre.geometry, post.disk()) == free_inodes(pre.geometry, pre.disk())
            &&& inode_of(pre.geometry, post.disk(), id as int).owned(post.disk()) == inode_of(
                pre.geometry,
                pre.disk(),
                id as int,
            ).owned(pre.disk())
            &&& free_data(pre.geometry, post.disk()) == free_data(
                pre.geometry,
                pre.disk(),
            ) - (spec_total_blocks(dir.record(pre).size + 32) - spec_total_blocks(
                dir.record(pre).size as int,
            ))
        },
    }
    &&& post.synced()
}

/// What making a new file named `name` in `dir` made of filesystem `pre`.
pub open spec fn created_in<D: BlockDevice>(
    pre: &EasyFileSystem<D>,
    post: &EasyFileSystem<D>,
    dir: &Inode,
    name: Seq<u8>,
    r: Option<Inode>,
) -> bool {
    &&& post.wf()
    &&& post.same_handle(pre)
    &&& dir.valid(post)
    &&& match lookup(dir.entries(pre), name) {
        Some(_) => r is None && post.disk() == pre.disk(),
        None => {
            &&& r matches Some(file)
            &&& file.valid(post)
            &&& !used(pre.geometry, pre.disk(), file.inode_id as int)
            &&& forall|j: int|
                0 <= j < file.inode_id ==> used(pre.geometry, pre.disk(), j)
            &&& file.record(post).size == 0
            &&& file.record(post).hard_link == 1
            &&& file.record(post).type_ == DiskInodeType::File
            &&& dir.entries(post) == dir.entries(pre).push(
                DirEntryView {
                    name: name_of(name),
                    inode_number: file.inode_id,
                },
            )
            &&& dir.record(post).size == dir.record(pre).size + 32
            &&& dir.record(post).hard_link == dir.record(pre).hard_link
            &&& dir.record(post).type_ == dir.record(pre).type_
            &&& forall|j: int|
                ino_ok(pre.geometry, j) && j != file.inode_id ==> #[trigger] used(
                    pre.geometry,
                    post.disk(),
                    j,
                ) == used(pre.geometry, pre.disk(), j)
            &&& others_same2(pre.geometry, pre.disk(), post.disk(), dir.inode_id as int, file.inode_id as int)
            &&& dir.record(post).owned(post.disk()).subrange(
                0,
                dir.record(pre).owned(pre.disk()).len() as int,
            ) == dir.record(pre).owned(pre.disk())
            &&& bitmap_grew(pre.geometry, pre.disk(), post.disk(), dir.inode_id as int)
            &&& free_inodes(pre.geometry, post.disk()) == free_inodes(
                pre.geometry,
                pre.disk(),
            ) - 1
            &&& free_data(pre.geometry, post.disk()) == free_data(
                pre.geometry,
                pre.disk(),
            ) - (spec_total_blocks(dir.record(pre).size + 32) - spec_total_blocks(
                dir.record(pre).size as int,
            ))
        },
    }
    &&& post.synced()
}

/// What removing the name `name` from `dir` made of filesystem `pre`.
pub open spec fn unlinked_in<D: BlockDevice>(
    pre: &EasyFileSystem<D>,
    post: &EasyFileSystem<D>,
    dir: &Inode,
    name: Seq<u8>,
    r: Option<()>,
) -> bool {
    &&& post.wf()
    &&& post.same_handle(pre)
    &&& dir.valid(post)
    &&& match lookup(dir.entries(pre), name) {
        None => r is None && post.disk() == pre.disk(),
        Some(id) => {
            let before = inode_of(pre.geometry, pre.disk(), id as int);
            let after = inode_of(pre.geometry, post.disk(), id as int);
            &&& r is Some
            &&& dir.entries(post) == swap_removed(
                dir.entries(pre),
                first_index(dir.entries(pre), name, 0),
            )
            &&& dir.record(post).size == dir.record(pre).size - 32
            &&& dir.record(post).hard_link == dir.record(pre).hard_link
            &&& dir.record(post).type_ == dir.record(pre).type_
            &&& dir.record(post).slot_after_end(post.disk()) == Seq::new(
                32,
                |i: int| 0u8,
            )
            &&& before.hard_link >= 1
            &&& after.hard_link == before.hard_link - 1
            &&& after.type_ == before.type_
            &&& if before.hard_link == 1 {
                &&& after.size == 0
                &&& bitmap_gave(pre.geometry, pre.disk(), post.disk(), id as int)
                &&& forall|p: int|
                    0 <= p < before.owned(pre.disk()).len() ==> !allocated(
                        pre.geometry,
                        post.disk(),
                        #[trigger] before.owned(pre.disk())[p] as int,
                    )
                &&& free_data(pre.geometry, post.disk()) == free_data(
                    pre.geometry,
                    pre.disk(),
                ) + spec_total_blocks(before.size as int)
            } else {
                &&& after.size == before.size
                &&& after.content(post.disk()) == before.content(pre.disk())
                &&& after.owned(post.disk()) == before.owned(pre.disk())
                &&& bitmap_same(pre.geometry, pre.disk(), post.disk())
                &&& free_data(pre.geometry, post.disk()) == free_data(
                    pre.geometry,
                    pre.disk(),
                )
            }
            &&& forall|j: int|
                ino_ok(pre.geometry, j) ==> #[trigger] used(
                    pre.geometry,
                    post.disk(),
                    j,
                ) == used(pre.geometry, pre.disk(), j)
            &&& others_same2(pre.geometry, pre.disk(), post.disk(), dir.inode_id as int, id as int)
            &&& dir.record(post).owned(post.disk()) == dir.record(pre).owned(pre.disk())
            &&& free_inodes(pre.geometry, post.disk()) == free_inodes(
                pre.geometry,
                pre.disk(),
            )
        },
    }
    &&& post.synced()
}

/// Content that was grown by 32 bytes and then had an entry written over
/// the new bytes holds the old entries and then that entry.
proof fn lemma_appended(c0: Seq<u8>, c1: Seq<u8>, c3: Seq<u8>, bytes: Seq<u8>, e: DirEntryView)
    requires
        c0.len() % 32 == 0,
        c1.len() == c0.len() + 32,
        c1.subrange(0, c0.len() as int) == c0,
        bytes.len() == 32,
        c3 == splice(c1, c0.len() as int, bytes, 0, 32),
        crate::dir_entry::entry_of(bytes) == e,
    ensures
        dir_entries(c3) == dir_entries(c0).push(e),
{
    assert(c3.subrange(0, c0.len() as int) =~= c0) by {
        assert forall|y: int| 0 <= y < c0.len() implies c3[y] == c0[y] by {
            assert(c1.subrange(0, c0.len() as int)[y] == c0[y]);
        }
    }
    assert(c3.subrange(c0.len() as int, c0.len() as int + 32) =~= bytes);
    lemma_entries_push(c0, c3, e);
}

/// A handle to one inode: its number and where its record lies.
#[derive(Clone, Copy, Debug)]
pub struct Inode {
    pub block_id: usize,
    pub block_offset: usize,
    pub inode_id: u32,
}

impl Inode {
    /// The handle names an inode in use of `fs`, at the place where `fs`
    /// keeps it.
    pub open spec fn valid<D: BlockDevice>(&self, fs: &EasyFileSystem<D>) -> bool {
        &&& ino_ok(fs.geometry, self.inode_id as int)
        &&& used(fs.geometry, fs.disk(), self.inode_id as int)
        &&& self.block_id == inode_block(fs.geometry, self.inode_id as int)
        &&& self.block_offset == inode_offset(self.inode_id as int)
    }

    /// The record of the inode in `fs`.
    pub open spec fn record<D: BlockDevice>(&self, fs: &EasyFileSystem<D>) -> DiskInode {
        inode_of(fs.geometry, fs.disk(), self.inode_id as int)
    }

    /// The bytes of the inode in `fs`.
    pub open spec fn content<D: BlockDevice>(&self, fs: &EasyFileSystem<D>) -> Seq<u8> {
        self.record(fs).content(fs.disk())
    }

    /// The directory entries that the bytes of the inode hold.
    pub open spec fn entries<D: BlockDevice>(&self, fs: &EasyFileSystem<D>) -> Seq<DirEntryView> {
        dir_entries(self.content(fs))
    }

    /// A handle to inode `inode_id`, whose record lies at byte `block_offset`
    /// of sector `block_id`.
    pub fn new(block_id: u32, block_offset: usize, inode_id: u32) -> (inode: Inode)
        ensures
            inode.block_id == block_id,
            inode.block_offset == block_offset,
            inode.inode_id == inode_id,
    {
        Inode { block_id: block_id as usize, block_offset, inode_id }
    }

    /// Reads the inode's record.
    fn read_disk_inode<D: BlockDevice>(&self, fs: &mut EasyFileSystem<D>) -> (d: DiskInode)
        requires
            old(fs).base_wf(),
            struct_wf(old(fs).geometry, old(fs).disk()),
            self.valid(old(fs)),
        ensures
            final(fs).base_wf(),
            final(fs).same_handle(old(fs)),
            final(fs).disk() == old(fs).disk(),
            d == self.record(old(fs)),
            d.fits(old(fs).disk()),
            d.distinct(old(fs).disk()),
    {
        proof {
            reveal(inode_of);
            lemma_inode_pos(fs.geometry, fs.disk(), self.inode_id as int);
            lemma_struct_inode(fs.geometry, fs.disk(), self.inode_id as int);
        }
        DiskInode::load(&mut fs.cache, self.block_id, self.block_offset)
    }

    /// The place and the inode number of the first entry named `name` in the
    /// directory whose record is `disk_inode`.
    fn find_entry<D: BlockDevice>(
        name: &str,
        disk_inode: &DiskInode,
        fs: &mut EasyFileSystem<D>,
    ) -> (r: Option<(usize, u32)>)
        requires
            old(fs).cache.wf(),
            disk_inode.fits(old(fs).disk()),
        ensures
            final(fs).cache.wf(),
            final(fs).same_handle(old(fs)),
            final(fs).disk() == old(fs).disk(),
            match r {
                Some((i, id)) => {
                    &&& i == first_index(
                        dir_entries(disk_inode.content(old(fs).disk())),
                        name.spec_bytes(),
                        0,
                    )
                    &&& i < disk_inode.size as usize / 32
                    &&& id == dir_entries(disk_inode.content(old(fs).disk()))[i as int].inode_number
                },
                None => first_index(
                    dir_entries(disk_inode.content(old(fs).disk())),
                    name.spec_bytes(),
                    0,
                ) == -1,
            },
    {
        let ghost disk = fs.disk();
        let ghost content = disk_inode.content(disk);
        let ghost entries = dir_entries(content);
        let key = name.as_bytes();
        let file_count = (disk_inode.size as usize) / 32;
        let mut i: usize = 0;
        while i < file_count
            invariant
                i <= file_count,
                file_count == disk_inode.size as usize / 32,
                fs.cache.wf(),
                fs.same_handle(old(fs)),
                fs.disk() == disk,
                disk == old(fs).disk(),
                disk_inode.fits(disk),
                content == disk_inode.content(disk),
                entries == dir_entries(content),
                key@ == name.spec_bytes(),
                first_index(entries, key@, 0) == first_index(entries, key@, i as int),
            decreases file_count - i,
        {
            let dirent = Self::read_entry(disk_inode, i, fs);
            if dirent.name_is(key) {
                return Some((i, dirent.inode_number()));
            }
            i += 1;
        }
        None
    }

    /// The inode that `name` resolves to in the directory whose record is
    /// `disk_inode`: the one named by the first entry with that name.
    fn find_inode_id<D: BlockDevice>(
        &self,
        name: &str,
        disk_inode: &DiskInode,
        fs: &mut EasyFileSystem<D>,
    ) -> (r: Option<u32>)
        requires
            old(fs).cache.wf(),
            disk_inode.fits(old(fs).disk()),
            disk_inode.type_ == DiskInodeType::Directory,
        ensures
            final(fs).cache.wf(),
            final(fs).same_handle(old(fs)),
            final(fs).disk() == old(fs).disk(),
            r == lookup(dir_entries(disk_inode.content(old(fs).disk())), name.spec_bytes()),
    {
        match Self::find_entry(name, disk_inode, fs) {
            Some((_, id)) => Some(id),
            None => None,
        }
    }

    /// Reads entry `i` of the directory whose record is `disk_inode`.
    fn read_entry<D: BlockDevice>(disk_inode: &DiskInode, i: usize, fs: &mut EasyFileSystem<D>) -> (e:
        DirEntry)
        requires
            old(fs).cache.wf(),
            disk_inode.fits(old(fs).disk()),
            i < disk_inode.size as usize / 32,
        ensures
            final(fs).cache.wf(),
            final(fs).same_handle(old(fs)),
            final(fs).disk() == old(fs).disk(),
            e@ == entry_at(disk_inode.content(old(fs).disk()), i as int),
            e@ == dir_entries(disk_inode.content(old(fs).disk()))[i as int],
            e.spec_bytes() == disk_inode.content(old(fs).disk()).subrange(32 * i, 32 * i + 32),
    {
        let mut buf = [0u8; 32];
        let ghost content = disk_inode.content(fs.disk());
        let n = disk_inode.read_at(32 * i, &mut buf, &mut fs.cache);
        assert(n == 32);
        assert(buf@ =~= content.subrange(32 * i, 32 * i + 32));
        DirEntry::from_bytes(&buf)
    }

    /// The inode that `name` resolves to in this directory, if any. Nothing on
    /// disk changes.
    pub fn find<D: BlockDevice>(&self, fs: &mut EasyFileSystem<D>, name: &str) -> (r: Option<Inode>)
        requires
            old(fs).wf(),
            self.valid(old(fs)),
            self.record(old(fs)).type_ == DiskInodeType::Directory,
        ensures
            final(fs).wf(),
            final(fs).same_handle(old(fs)),
            final(fs).disk() == old(fs).disk(),
            match lookup(self.entries(old(fs)), name.spec_bytes()) {
                Some(id) => r matches Some(found) && found.inode_id == id && found.valid(final(fs)),
                None => r is None,
            },
    {
        let ghost entries = self.entries(fs);
        let d = self.read_disk_inode(fs);
        match self.find_inode_id(name, &d, fs) {
            Some(inode_id) => {
                proof {
                    lemma_first_index(entries, name.spec_bytes(), 0);
                    let i = first_index(entries, name.spec_bytes(), 0);
                    lemma_dir_root(fs.geometry, fs.disk(), self.inode_id as int);
                    assert(self.inode_id == 0);
                    assert(entries == root_entries(fs.geometry, fs.disk()));
                    assert(entries[i].inode_number == inode_id);
                    lemma_dir_entry(fs.geometry, fs.disk(), i);
                }
                let (block_id, block_offset) = fs.get_disk_inode_pos(inode_id);
                Some(Inode::new(block_id, block_offset, inode_id))
            },
            None => None,
        }
    }

    /// The names of the entries of this directory, in on-disk order.
    pub fn ls<D: BlockDevice>(&self, fs: &mut EasyFileSystem<D>) -> (v: Vec<String>)
        requires
            old(fs).wf(),
            self.valid(old(fs)),
        ensures
            final(fs).wf(),
            final(fs).same_handle(old(fs)),
            final(fs).disk() == old(fs).disk(),
            v@.len() == self.entries(old(fs)).len(),
            forall|i: int|
                0 <= i < v@.len() && vstd::utf8::valid_utf8(self.entries(old(fs))[i].name) ==> (
                #[trigger] v@[i])@ == vstd::utf8::decode_utf8(self.entries(old(fs))[i].name),
    {
        let ghost entries = self.entries(fs);
        let ghost disk = fs.disk();
        let d = self.read_disk_inode(fs);
        let file_count = (d.size as usize) / 32;
        let mut v: Vec<String> = Vec::new();
        let mut i: usize = 0;
        while i < file_count
            invariant
                i <= file_count,
                file_count == d.size as usize / 32,
                fs.wf(),
                fs.same_handle(old(fs)),
                fs.disk() == disk,
                disk == old(fs).disk(),
                d.fits(disk),
                entries == dir_entries(d.content(disk)),
                v@.len() == i,
                forall|j: int|
                    0 <= j < i && vstd::utf8::valid_utf8(entries[j].name) ==> (#[trigger] v@[j])@
                        == vstd::utf8::decode_utf8(entries[j].name),
            decreases file_count - i,
        {
            let dirent = Self::read_entry(&d, i, fs);
            let n = dirent.name_len();
            let s = name_to_string(vstd::slice::slice_subrange(dirent.name.as_slice(), 0, n));
            v.push(s);
            i += 1;
        }
        v
    }

    /// The inode's number, its link count and its kind.
    pub fn stat<D: BlockDevice>(&self, fs: &mut EasyFileSystem<D>) -> (r: (u32, u32, DiskInodeType))
        requires
            old(fs).wf(),
            self.valid(old(fs)),
        ensures
            final(fs).wf(),
            final(fs).same_handle(old(fs)),
            final(fs).disk() == old(fs).disk(),
            r.0 == self.inode_id,
            r.1 == self.record(old(fs)).hard_link,
            r.2 == self.record(old(fs)).type_,
    {
        self.stat_raw(fs)
    }

    /// The size of the inode in bytes.
    pub fn size<D: BlockDevice>(&self, fs: &mut EasyFileSystem<D>) -> (n: u32)
        requires
            old(fs).wf(),
            self.valid(old(fs)),
        ensures
            final(fs).wf(),
            final(fs).same_handle(old(fs)),
            final(fs).disk() == old(fs).disk(),
            n == self.record(old(fs)).size,
            n == self.content(old(fs)).len(),
            n <= MAX_FILE_SIZE,
    {
        let d = self.read_disk_inode(fs);
        d.size
    }

    /// Copies the bytes of the inode from `offset` on into `buf`, as many as
    /// there are and `buf` takes, and returns their number: none at or past
    /// the end.
    pub fn read_at<D: BlockDevice>(
        &self,
        fs: &mut EasyFileSystem<D>,
        offset: usize,
        buf: &mut [u8],
    ) -> (n: usize)
        requires
            old(fs).wf(),
            self.valid(old(fs)),
        ensures
            final(fs).wf(),
            final(fs).same_handle(old(fs)),
            final(fs).disk() == old(fs).disk(),
            n == read_len(self.content(old(fs)).len() as int, offset as int, old(buf).len() as int),
            final(buf)@ == read_into(old(buf)@, self.content(old(fs)), offset as int),
    {
        proof {
            lemma_dir_root(fs.geometry, fs.disk(), self.inode_id as int);
        }
        let d = self.read_disk_inode(fs);
        d.read_at(offset, buf, &mut fs.cache)
    }

    /// All the bytes of the inode, read block by block.
    pub fn read_all<D: BlockDevice>(&self, fs: &mut EasyFileSystem<D>) -> (v: Vec<u8>)
        requires
            old(fs).wf(),
            self.valid(old(fs)),
        ensures
            final(fs).wf(),
            final(fs).same_handle(old(fs)),
            final(fs).disk() == old(fs).disk(),
            v@ == self.content(old(fs)),
    {
        let ghost content = self.content(fs);
        let size = self.size(fs) as usize;
        let mut buffer = [0u8; 512];
        let mut v: Vec<u8> = Vec::new();
        while v.len() < size
            invariant
                fs.wf(),
                fs.same_handle(old(fs)),
                fs.disk() == old(fs).disk(),
                self.valid(fs),
                content == self.content(fs),
                size == content.len(),
                v@.len() <= size,
                v@ == content.subrange(0, v@.len() as int),
            decreases size - v@.len(),
        {
            let ghost before = v@;
            let len = self.read_at(fs, v.len(), &mut buffer);
            v.extend_from_slice(vstd::slice::slice_subrange(buffer.as_slice(), 0, len));
            proof {
                assert(v@ =~= content.subrange(0, before.len() + len));
            }
        }
        proof {
            assert(v@ =~= content);
        }
        v
    }

    /// Grows the inode whose record is `disk_inode` to `new_size` bytes,
    /// taking the blocks it needs from the free ones; nothing happens if it
    /// is that large already. The record is changed in memory and not yet
    /// stored.
    fn increase_size<D: BlockDevice>(
        &self,
        new_size: u32,
        disk_inode: &mut DiskInode,
        fs: &mut EasyFileSystem<D>,
    )
        requires
            old(fs).base_wf(),
            struct_wf(old(fs).geometry, old(fs).disk()),
            self.valid(old(fs)),
            *old(disk_inode) == self.record(old(fs)),
            new_size <= MAX_FILE_SIZE,
            new_size >= old(disk_inode).size ==> free_data(old(fs).geometry, old(fs).disk())
                >= spec_total_blocks(new_size as int) - spec_total_blocks(
                old(disk_inode).size as int,
            ),
        ensures
            final(fs).base_wf(),
            final(fs).same_handle(old(fs)),
            pending(
                old(fs).geometry,
                old(fs).disk(),
                final(fs).disk(),
                self.inode_id as int,
                *final(disk_inode),
            ),
            final(disk_inode).size == if new_size >= old(disk_inode).size {
                new_size
            } else {
                old(disk_inode).size
            },
            final(disk_inode).hard_link == old(disk_inode).hard_link,
            final(disk_inode).type_ == old(disk_inode).type_,
            final(disk_inode).content(final(fs).disk()).subrange(0, old(disk_inode).size as int)
                == old(disk_inode).content(old(fs).disk()),
            free_data(old(fs).geometry, final(fs).disk()) == free_data(
                old(fs).geometry,
                old(fs).disk(),
            ) - (spec_total_blocks(final(disk_inode).size as int) - spec_total_blocks(
                old(disk_inode).size as int,
            )),
            free_inodes(old(fs).geometry, final(fs).disk()) == free_inodes(
                old(fs).geometry,
                old(fs).disk(),
            ),
            new_size < old(disk_inode).size ==> *final(disk_inode) == *old(disk_inode)
                && final(fs).disk() == old(fs).disk(),
            final(disk_inode).fits(final(fs).disk()),
            final(disk_inode).distinct(final(fs).disk()),
            forall|p: int|
                0 <= p < spec_total_blocks(old(disk_inode).size as int)
                    ==> #[trigger] final(disk_inode).owned_at(final(fs).disk(), p) == old(
                    disk_inode,
                ).owned_at(old(fs).disk(), p),
            forall|p: int|
                spec_total_blocks(old(disk_inode).size as int) <= p < spec_total_blocks(
                    final(disk_inode).size as int,
                ) ==> in_data_area(
                    old(fs).geometry,
                    #[trigger] final(disk_inode).owned_at(final(fs).disk(), p) as int,
                ) && !allocated(
                    old(fs).geometry,
                    old(fs).disk(),
                    final(disk_inode).owned_at(final(fs).disk(), p) as int,
                ),
            forall|b: int|
                in_data_area(old(fs).geometry, b) ==> #[trigger] allocated(
                    old(fs).geometry,
                    final(fs).disk(),
                    b,
                ) == (allocated(old(fs).geometry, old(fs).disk(), b) || final(disk_inode).owns(
                    final(fs).disk(),
                    b,
                )),
    {
        let ghost sb = fs.geometry;
        let ghost d0 = fs.disk();
        let ghost ino = self.inode_id as int;
        let ghost rec0 = *disk_inode;
        proof {
            lemma_pending_init(sb, d0, ino);
            lemma_struct_inode(sb, d0, ino);
            lemma_struct_bits(sb, d0);
            assert(rec0.owned(d0).subrange(0, rec0.owned(d0).len() as int) =~= rec0.owned(d0));
            lemma_grown_bits(sb, d0, d0, ino, rec0, rec0);
            lemma_pending_use(sb, d0, d0, ino, rec0);
        }
        if new_size < disk_inode.size {
            assert(disk_inode.content(d0).subrange(0, disk_inode.size as int) =~= disk_inode.content(
                d0,
            ));
            return ;
        }
        let needed = disk_inode.blocks_num_needed(new_size);
        let v = fs.alloc_blocks(needed);
        let ghost da = fs.disk();
        proof {
            lemma_after_alloc(sb, d0, da, ino, v@);
        }
        disk_inode.increase_size(new_size, v, &mut fs.cache);
        proof {
            let d1 = fs.disk();
            lemma_pending_grow(sb, d0, da, d1, ino, *disk_inode, v@);
            assert(disk_inode.owned(d1).subrange(0, rec0.owned(d0).len() as int) =~= rec0.owned(
                d0,
            ));
            lemma_grown_bits(sb, d0, d1, ino, rec0, *disk_inode);
            lemma_pending_use(sb, d0, d1, ino, *disk_inode);
        }
    }

    /// Writes `buf` at `offset` of the file, growing the file first if it
    /// ends before `offset + buf.len()`, and makes the device current. Bytes
    /// between the old end and `offset`, if any, are whatever the new blocks
    /// held.
    pub fn write_at<D: BlockDevice>(
        &self,
        fs: &mut EasyFileSystem<D>,
        offset: usize,
        buf: &[u8],
    ) -> (n: usize)
        requires
            old(fs).wf(),
            self.valid(old(fs)),
            self.record(old(fs)).type_ == DiskInodeType::File,
            offset + buf.len() <= MAX_FILE_SIZE,
            offset + buf.len() >= self.record(old(fs)).size ==> free_data(
                old(fs).geometry,
                old(fs).disk(),
            ) >= spec_total_blocks(offset + buf.len()) - spec_total_blocks(
                self.record(old(fs)).size as int,
            ),
        ensures
            wrote_to(old(fs), final(fs), self, offset as int, buf@, n as int),
    {
        let ghost sb = fs.geometry;
        let ghost d0 = fs.disk();
        let ghost ino = self.inode_id as int;
        let mut d = self.read_disk_inode(fs);
        let ghost rec0 = d;
        self.increase_size((offset + buf.len()) as u32, &mut d, fs);
        let ghost d1 = fs.disk();
        let ghost c1 = d.content(d1);
        proof {
            lemma_pending_use(sb, d0, d1, ino, d);
        }
        let n = d.write_at(offset, buf, &mut fs.cache);
        let ghost d2 = fs.disk();
        proof {
            lemma_pending_write(sb, d0, d1, d2, ino, d);
            lemma_pending_use(sb, d0, d2, ino, d);
            lemma_inode_pos(sb, d0, ino);
        }
        d.store(&mut fs.cache, self.block_id, self.block_offset);
        proof {
            let d3 = fs.disk();
            assert(d3 == with_inode(sb, d2, ino, d));
            lemma_commit(sb, d0, d2, ino, d);
            assert(self.content(fs) == d.content(d2));
            assert(self.content(fs).subrange(offset as int, offset + buf.len()) =~= buf@);
            assert forall|i: int|
                0 <= i < rec0.size && !(offset <= i < offset + buf.len()) implies self.content(
                fs,
            )[i] == rec0.content(d0)[i] by {
                assert(c1.subrange(0, rec0.size as int)[i] == rec0.content(d0)[i]);
            }
            assert(written(rec0.content(d0), self.content(fs), offset as int, buf@));
            lemma_dir_root(sb, d0, ino);
            lemma_dir_step(sb, d0, d3, ino);
            lemma_prefix_kept(rec0, d0, d, d1, d2, d3);
            crate::layout::lemma_total_blocks_monotone(rec0.size as int, d.size as int);
            lemma_follows_grew(sb, d0, d3, ino);
        }
        fs.cache.sync_all();
        n
    }

    /// Stores `value` as the inode's link count.
    fn set_hard_link<D: BlockDevice>(&self, fs: &mut EasyFileSystem<D>, value: u32)
        requires
            old(fs).base_wf(),
            struct_wf(old(fs).geometry, old(fs).disk()),
            self.valid(old(fs)),
        ensures
            final(fs).base_wf(),
            final(fs).same_handle(old(fs)),
            struct_wf(old(fs).geometry, final(fs).disk()),
            self.valid(final(fs)),
            others_same(old(fs).geometry, old(fs).disk(), final(fs).disk(), self.inode_id as int),
            self.record(final(fs)).hard_link == value,
            self.record(final(fs)).size == self.record(old(fs)).size,
            self.record(final(fs)).type_ == self.record(old(fs)).type_,
            self.content(final(fs)) == self.content(old(fs)),
            self.record(final(fs)).owned(final(fs).disk()) == self.record(old(fs)).owned(
                old(fs).disk(),
            ),
            bitmap_same(old(fs).geometry, old(fs).disk(), final(fs).disk()),
            free_data(old(fs).geometry, final(fs).disk()) == free_data(
                old(fs).geometry,
                old(fs).disk(),
            ),
            free_inodes(old(fs).geometry, final(fs).disk()) == free_inodes(
                old(fs).geometry,
                old(fs).disk(),
            ),
    {
        let ghost sb = fs.geometry;
        let ghost d0 = fs.disk();
        let ghost ino = self.inode_id as int;
        let mut d = self.read_disk_inode(fs);
        let ghost rec0 = d;
        d.hard_link = value;
        proof {
            lemma_pending_init(sb, d0, ino);
            lemma_pending_record(sb, d0, d0, ino, rec0, d);
            assert(rec0.content(d0).subrange(0, rec0.size as int) =~= rec0.content(d0));
        }
        d.store(&mut fs.cache, self.block_id, self.block_offset);
        proof {
            assert(fs.disk() == with_inode(sb, d0, ino, d));
            lemma_commit(sb, d0, d0, ino, d);
            lemma_bitmap_kept(sb, d0, fs.disk(), ino);
        }
    }

    /// Gives every block of the inode back and leaves it empty.
    fn clear_internal<D: BlockDevice>(&self, fs: &mut EasyFileSystem<D>)
        requires
            old(fs).base_wf(),
            struct_wf(old(fs).geometry, old(fs).disk()),
            self.valid(old(fs)),
        ensures
            final(fs).base_wf(),
            final(fs).same_handle(old(fs)),
            struct_wf(old(fs).geometry, final(fs).disk()),
            self.valid(final(fs)),
            others_same(old(fs).geometry, old(fs).disk(), final(fs).disk(), self.inode_id as int),
            self.record(final(fs)).size == 0,
            self.record(final(fs)).hard_link == self.record(old(fs)).hard_link,
            self.record(final(fs)).type_ == self.record(old(fs)).type_,
            forall|b: int|
                in_data_area(old(fs).geometry, b) && owns(
                    old(fs).geometry,
                    old(fs).disk(),
                    self.inode_id as int,
                    b,
                ) ==> !#[trigger] allocated(old(fs).geometry, final(fs).disk(), b),
            bitmap_follows(
                old(fs).geometry,
                old(fs).disk(),
                final(fs).disk(),
                self.inode_id as int,
            ),
            free_data(old(fs).geometry, final(fs).disk()) == free_data(
                old(fs).geometry,
                old(fs).disk(),
            ) + spec_total_blocks(self.record(old(fs)).size as int),
            free_inodes(old(fs).geometry, final(fs).disk()) == free_inodes(
                old(fs).geometry,
                old(fs).disk(),
            ),
    {
        let ghost sb = fs.geometry;
        let ghost d0 = fs.disk();
        let ghost ino = self.inode_id as int;
        let mut d = self.read_disk_inode(fs);
        let ghost rec0 = d;
        let v = d.clear_size(&mut fs.cache);
        let mut k: usize = 0;
        proof {
            lemma_struct_inode(sb, d0, ino);
            lemma_struct_bits(sb, d0);
            assert(v@.subrange(0, 0) =~= Seq::<u32>::empty());
            assert(blocks_released(sb, d0, d0, v@, 0)) by {
                assert forall|b: int| !crate::image::seq_has(v@.subrange(0, 0), b) by {}
            }
        }
        while k < v.len()
            invariant
                k <= v@.len(),
                fs.base_wf(),
                fs.same_handle(old(fs)),
                sb == old(fs).geometry,
                d0 == old(fs).disk(),
                layout_wf(sb, d0),
                fs.disk()[0] == d0[0],
                v@.no_duplicates(),
                forall|x: int|
                    0 <= x < v@.len() ==> in_data_area(sb, #[trigger] v@[x] as int) && allocated(
                        sb,
                        d0,
                        v@[x] as int,
                    ),
                blocks_released(sb, d0, fs.disk(), v@, k as int),
                free_data(sb, fs.disk()) == free_data(sb, d0) + k,
            decreases v@.len() - k,
        {
            let ghost dk = fs.disk();
            proof {
                lemma_release_ready(sb, d0, dk, v@, k as int);
                lemma_release_one(sb, d0, dk, v@, k as int);
            }
            fs.dealloc_data(v[k]);
            k += 1;
        }
        let ghost dk = fs.disk();
        proof {
            lemma_pending_clear(sb, d0, dk, ino, d);
            data_free_same_inodes(sb, d0, dk);
        }
        d.store(&mut fs.cache, self.block_id, self.block_offset);
        proof {
            assert(fs.disk() == with_inode(sb, dk, ino, d));
            lemma_commit(sb, d0, dk, ino, d);
        }
    }

    /// Gives every block of the file back to the free ones, leaves the file
    /// empty, and makes the device current.
    pub fn clear<D: BlockDevice>(&self, fs: &mut EasyFileSystem<D>)
        requires
            old(fs).wf(),
            self.valid(old(fs)),
            self.record(old(fs)).type_ == DiskInodeType::File,
        ensures
            emptied(old(fs), final(fs), self),
    {
        let ghost sb = fs.geometry;
        let ghost d0 = fs.disk();
        self.clear_internal(fs);
        proof {
            lemma_dir_root(sb, d0, self.inode_id as int);
            lemma_dir_step(sb, d0, fs.disk(), self.inode_id as int);
            lemma_follows_gave(sb, d0, fs.disk(), self.inode_id as int);
        }
        fs.cache.sync_all();
    }

    /// Adds `dirent` at the end of the directory, growing the directory by
    /// one entry.
    fn append_entry<D: BlockDevice>(&self, fs: &mut EasyFileSystem<D>, dirent: &DirEntry)
        requires
            old(fs).base_wf(),
            struct_wf(old(fs).geometry, old(fs).disk()),
            self.valid(old(fs)),
            self.record(old(fs)).size % 32 == 0,
            self.record(old(fs)).size + 32 <= MAX_FILE_SIZE,
            free_data(old(fs).geometry, old(fs).disk()) >= spec_total_blocks(
                self.record(old(fs)).size + 32,
            ) - spec_total_blocks(self.record(old(fs)).size as int),
        ensures
            final(fs).base_wf(),
            final(fs).same_handle(old(fs)),
            struct_wf(old(fs).geometry, final(fs).disk()),
            self.valid(final(fs)),
            others_same(old(fs).geometry, old(fs).disk(), final(fs).disk(), self.inode_id as int),
            self.record(final(fs)).size == self.record(old(fs)).size + 32,
            self.record(final(fs)).hard_link == self.record(old(fs)).hard_link,
            self.record(final(fs)).type_ == self.record(old(fs)).type_,
            self.entries(final(fs)) == self.entries(old(fs)).push(dirent@),
            bitmap_follows(
                old(fs).geometry,
                old(fs).disk(),
                final(fs).disk(),
                self.inode_id as int,
            ),
            self.record(final(fs)).owned(final(fs).disk()).subrange(
                0,
                self.record(old(fs)).owned(old(fs).disk()).len() as int,
            ) == self.record(old(fs)).owned(old(fs).disk()),
            free_data(old(fs).geometry, final(fs).disk()) == free_data(
                old(fs).geometry,
                old(fs).disk(),
            ) - (spec_total_blocks(self.record(old(fs)).size + 32) - spec_total_blocks(
                self.record(old(fs)).size as int,
            )),
            free_inodes(old(fs).geometry, final(fs).disk()) == free_inodes(
                old(fs).geometry,
                old(fs).disk(),
            ),
    {
        let ghost sb = fs.geometry;
        let ghost d0 = fs.disk();
        let ghost ino = self.inode_id as int;
        let ghost entries0 = self.entries(fs);
        let mut d = self.read_disk_inode(fs);
        let ghost rec0 = d;
        let ghost c0 = rec0.content(d0);
        let file_count = (d.size as usize) / 32;
        let new_size = (file_count + 1) * 32;
        self.increase_size(new_size as u32, &mut d, fs);
        let ghost d1 = fs.disk();
        let ghost c1 = d.content(d1);
        proof {
            lemma_pending_use(sb, d0, d1, ino, d);
        }
        let bytes = dirent.to_bytes();
        let n = d.write_at(file_count * 32, &bytes, &mut fs.cache);
        let ghost d2 = fs.disk();
        proof {
            lemma_pending_write(sb, d0, d1, d2, ino, d);
            lemma_pending_use(sb, d0, d2, ino, d);
            lemma_inode_pos(sb, d0, ino);
        }
        d.store(&mut fs.cache, self.block_id, self.block_offset);
        proof {
            let d3 = fs.disk();
            assert(d3 == with_inode(sb, d2, ino, d));
            lemma_commit(sb, d0, d2, ino, d);
            let c3 = self.content(fs);
            assert(c3 == d.content(d2));
            dirent.lemma_entry_of_bytes();
            lemma_appended(c0, c1, c3, bytes@, dirent@);
            lemma_prefix_kept(rec0, d0, d, d1, d2, d3);
        }
    }

    /// Makes `new_name` a second name of the file that `old_name` resolves
    /// to in this directory: appends an entry for it and raises the file's
    /// link count by one. `None`, and nothing changes, if `old_name` does not
    /// resolve, whatever `new_name` is. Whether `new_name` is already in use
    /// is not looked at.
    pub fn link<D: BlockDevice>(
        &self,
        fs: &mut EasyFileSystem<D>,
        old_name: &str,
        new_name: &str,
    ) -> (r: Option<()>)
        requires
            old(fs).wf(),
            self.valid(old(fs)),
            self.record(old(fs)).type_ == DiskInodeType::Directory,
            lookup(self.entries(old(fs)), old_name.spec_bytes()) is Some ==> new_name.spec_bytes().len()
                <= 27 && self.record(old(fs)).size + 32 <= MAX_FILE_SIZE && free_data(
                old(fs).geometry,
                old(fs).disk(),
            )
                >= spec_total_blocks(self.record(old(fs)).size + 32) - spec_total_blocks(
                self.record(old(fs)).size as int,
            ),
        ensures
            linked_in(old(fs), final(fs), self, old_name.spec_bytes(), new_name.spec_bytes(), r),
    {
        let ghost sb = fs.geometry;
        let ghost d0 = fs.disk();
        let ghost entries0 = self.entries(fs);
        proof {
            lemma_dir_root(sb, d0, self.inode_id as int);
        }
        let old_inode = match self.find(fs, old_name) {
            Some(i) => i,
            None => {
                fs.cache.sync_all();
                return None;
            },
        };
        let ghost id = old_inode.inode_id as int;
        let dirent = DirEntry::new(new_name, old_inode.inode_id);
        proof {
            lemma_first_index(entries0, old_name.spec_bytes(), 0);
            lemma_dir_entry(sb, d0, first_index(entries0, old_name.spec_bytes(), 0));
            lemma_dir_root(sb, d0, id);
        }
        self.append_entry(fs, &dirent);
        let ghost d1 = fs.disk();
        proof {
            assert(inode_of(sb, d1, id) == inode_of(sb, d0, id));
            assert(used(sb, d1, id));
        }
        let (_, nlink, _) = old_inode.stat_raw(fs);
        old_inode.set_hard_link(fs, nlink + 1);
        proof {
            let d2 = fs.disk();
            lemma_others_same_trans(sb, d0, d1, d2, 0, id);
            assert(inode_of(sb, d2, 0) == inode_of(sb, d1, 0));
            assert(inode_of(sb, d2, 0).content(d2) == inode_of(sb, d1, 0).content(d1));
            assert(root_entries(sb, d2) == entries0.push(dirent@));
            assert(used(sb, d2, 0) == used(sb, d1, 0));
            lemma_dir_wf_push(sb, d0, d2, id, dirent@);
            assert forall|j: int| ino_ok(sb, j) implies #[trigger] used(sb, d2, j) == used(
                sb,
                d0,
                j,
            ) by {
                if j == 0 {
                } else if j == id {
                } else {
                }
            }
            assert(inode_of(sb, d2, 0).owned(d2) == inode_of(sb, d1, 0).owned(d1));
            lemma_follow_then_same(sb, d0, d1, d2, 0);
            let size0 = inode_of(sb, d0, 0).size as int;
            crate::layout::lemma_total_blocks_monotone(size0, size0 + 32);
            assert(inode_of(sb, d1, 0).size == size0 + 32);
            assert(used(sb, d2, 0));
            assert(inode_of(sb, d2, 0).owned(d2).subrange(
                0,
                inode_of(sb, d0, 0).owned(d0).len() as int,
            ) == inode_of(sb, d0, 0).owned(d0));
            lemma_follows_grew(sb, d0, d2, 0);
        }
        fs.cache.sync_all();
        Some(())
    }

    /// The inode's number, link count and kind, read where only the structure
    /// of the image is known to be sound.
    fn stat_raw<D: BlockDevice>(&self, fs: &mut EasyFileSystem<D>) -> (r: (u32, u32, DiskInodeType))
        requires
            old(fs).base_wf(),
            struct_wf(old(fs).geometry, old(fs).disk()),
            self.valid(old(fs)),
        ensures
            final(fs).base_wf(),
            final(fs).same_handle(old(fs)),
            final(fs).disk() == old(fs).disk(),
            r.0 == self.inode_id,
            r.1 == self.record(old(fs)).hard_link,
            r.2 == self.record(old(fs)).type_,
    {
        let d = self.read_disk_inode(fs);
        (self.inode_id, d.hard_link, d.type_)
    }

    /// Takes the free inode slot with the least number and stores an empty
    /// inode of kind `type_` in it, named once.
    pub(crate) fn new_inode<D: BlockDevice>(fs: &mut EasyFileSystem<D>, type_: DiskInodeType) -> (inode:
        Inode)
        requires
            old(fs).base_wf(),
            struct_wf(old(fs).geometry, old(fs).disk()),
            free_inodes(old(fs).geometry, old(fs).disk()) > 0,
        ensures
            final(fs).base_wf(),
            final(fs).same_handle(old(fs)),
            struct_wf(old(fs).geometry, final(fs).disk()),
            inode.valid(final(fs)),
            !used(old(fs).geometry, old(fs).disk(), inode.inode_id as int),
            forall|j: int|
                0 <= j < inode.inode_id ==> used(old(fs).geometry, old(fs).disk(), j),
            others_same(old(fs).geometry, old(fs).disk(), final(fs).disk(), inode.inode_id as int),
            inode.record(final(fs)).size == 0,
            inode.record(final(fs)).hard_link == 1,
            inode.record(final(fs)).type_ == type_,
            bitmap_same(old(fs).geometry, old(fs).disk(), final(fs).disk()),
            free_data(old(fs).geometry, final(fs).disk()) == free_data(
                old(fs).geometry,
                old(fs).disk(),
            ),
            free_inodes(old(fs).geometry, final(fs).disk()) == free_inodes(
                old(fs).geometry,
                old(fs).disk(),
            ) - 1,
    {
        let ghost sb = fs.geometry;
        let ghost d0 = fs.disk();
        let new_inode_id = fs.alloc_inode();
        let ghost dk = fs.disk();
        let (block_id, block_offset) = fs.get_disk_inode_pos(new_inode_id);
        let mut d = DiskInode {
            size: 0,
            direct: [0u32; 27],
            indirect1: 0,
            indirect2: 0,
            hard_link: 0,
            type_: DiskInodeType::File,
        };
        d.initialize(type_);
        proof {
            lemma_pending_new(sb, d0, new_inode_id as int, d);
        }
        d.store(&mut fs.cache, block_id as usize, block_offset);
        proof {
            assert(fs.disk() == with_inode(sb, dk, new_inode_id as int, d));
            lemma_commit(sb, d0, dk, new_inode_id as int, d);
            lemma_bitmap_kept(sb, d0, fs.disk(), new_inode_id as int);
        }
        Inode::new(block_id, block_offset, new_inode_id)
    }

    /// Makes a new, empty file named `name` in this directory and returns a
    /// handle to it; `None`, and nothing changes, if the name is in use. The
    /// file gets the free inode slot with the least number and a link count
    /// of 1.
    pub fn create<D: BlockDevice>(&self, fs: &mut EasyFileSystem<D>, name: &str) -> (r: Option<Inode>)
        requires
            old(fs).wf(),
            self.valid(old(fs)),
            self.record(old(fs)).type_ == DiskInodeType::Directory,
            lookup(self.entries(old(fs)), name.spec_bytes()) is None ==> name.spec_bytes().len()
                <= 27 && self.record(old(fs)).size + 32 <= MAX_FILE_SIZE && free_inodes(old(fs).geometry, old(fs).disk()) > 0
                && free_data(old(fs).geometry, old(fs).disk()) >= spec_total_blocks(
                self.record(old(fs)).size + 32,
            ) - spec_total_blocks(self.record(old(fs)).size as int),
        ensures
            created_in(old(fs), final(fs), self, name.spec_bytes(), r),
    {
        let ghost sb = fs.geometry;
        let ghost d0 = fs.disk();
        let ghost entries0 = self.entries(fs);
        proof {
            lemma_dir_root(sb, d0, self.inode_id as int);
        }
        let root = self.read_disk_inode(fs);
        if self.find_inode_id(name, &root, fs).is_some() {
            fs.cache.sync_all();
            return None;
        }
        let file = Self::new_inode(fs, DiskInodeType::File);
        let ghost id = file.inode_id as int;
        let ghost d1 = fs.disk();
        let dirent = DirEntry::new(name, file.inode_id);
        proof {
            assert(id != 0);
            assert(inode_of(sb, d1, 0) == inode_of(sb, d0, 0));
            assert(inode_of(sb, d1, 0).content(d1) == inode_of(sb, d0, 0).content(d0));
            assert(used(sb, d1, 0) == used(sb, d0, 0));
        }
        self.append_entry(fs, &dirent);
        proof {
            let d2 = fs.disk();
            lemma_others_same_trans(sb, d0, d1, d2, id, 0);
            assert(root_entries(sb, d2) == entries0.push(dirent@));
            assert(inode_of(sb, d2, id) == inode_of(sb, d1, id));
            assert(used(sb, d2, id) == used(sb, d1, id));
            assert forall|e: int| 0 <= e < entries0.len() implies (#[trigger] entries0[e]).inode_number
                != id by {
                lemma_dir_entry(sb, d0, e);
            }
            lemma_count_zero(entries0, id);
            lemma_dir_wf_push(sb, d0, d2, id, dirent@);
            assert forall|j: int| ino_ok(sb, j) && j != id implies #[trigger] used(sb, d2, j)
                == used(sb, d0, j) by {
                if j == 0 {
                    assert(used(sb, d1, 0) == used(sb, d0, 0));
                }
            }
            assert(inode_of(sb, d1, 0).owned(d1) == inode_of(sb, d0, 0).owned(d0));
            lemma_same_then_follow(sb, d0, d1, d2, 0);
            let size0 = inode_of(sb, d0, 0).size as int;
            crate::layout::lemma_total_blocks_monotone(size0, size0 + 32);
            assert(inode_of(sb, d2, 0).size == size0 + 32);
            assert(used(sb, d2, 0));
            assert(inode_of(sb, d2, 0).owned(d2).subrange(
                0,
                inode_of(sb, d0, 0).owned(d0).len() as int,
            ) == inode_of(sb, d0, 0).owned(d0));
            lemma_follows_grew(sb, d0, d2, 0);
        }
        fs.cache.sync_all();
        Some(file)
    }

    /// Lowers the size in the record to `new_size`, which must need as many
    /// blocks as the size it has.
    fn decrease_size(&self, new_size: u32, disk_inode: &mut DiskInode)
        requires
            new_size <= old(disk_inode).size,
            spec_total_blocks(new_size as int) == spec_total_blocks(old(disk_inode).size as int),
        ensures
            final(disk_inode).size == new_size,
            final(disk_inode).direct == old(disk_inode).direct,
            final(disk_inode).indirect1 == old(disk_inode).indirect1,
            final(disk_inode).indirect2 == old(disk_inode).indirect2,
            final(disk_inode).hard_link == old(disk_inode).hard_link,
            final(disk_inode).type_ == old(disk_inode).type_,
    {
        disk_inode.decrease_size(new_size);
    }

    /// Removes the first entry named `name` from the directory whose record
    /// is `disk_inode`: the last entry is copied over it, the last slot is
    /// filled with zeros, and the directory is shortened by one entry. The
    /// record is changed in memory and not yet stored.
    fn remove_dir_entry<D: BlockDevice>(
        &self,
        name: &str,
        disk_inode: &mut DiskInode,
        fs: &mut EasyFileSystem<D>,
    )
        requires
            old(fs).base_wf(),
            struct_wf(old(fs).geometry, old(fs).disk()),
            self.valid(old(fs)),
            *old(disk_inode) == self.record(old(fs)),
            old(disk_inode).type_ == DiskInodeType::Directory,
            old(disk_inode).size % 32 == 0,
            first_index(self.entries(old(fs)), name.spec_bytes(), 0) >= 0,
            spec_total_blocks(old(disk_inode).size - 32) == spec_total_blocks(
                old(disk_inode).size as int,
            ),
        ensures
            final(fs).base_wf(),
            final(fs).same_handle(old(fs)),
            pending(
                old(fs).geometry,
                old(fs).disk(),
                final(fs).disk(),
                self.inode_id as int,
                *final(disk_inode),
            ),
            final(disk_inode).size == old(disk_inode).size - 32,
            final(disk_inode).hard_link == old(disk_inode).hard_link,
            final(disk_inode).type_ == old(disk_inode).type_,
            final(disk_inode).direct == old(disk_inode).direct,
            final(disk_inode).indirect1 == old(disk_inode).indirect1,
            final(disk_inode).indirect2 == old(disk_inode).indirect2,
            final(disk_inode).owned(final(fs).disk()) == old(disk_inode).owned(old(fs).disk()),
            forall|b: int|
                in_data_area(old(fs).geometry, b) ==> #[trigger] allocated(
                    old(fs).geometry,
                    final(fs).disk(),
                    b,
                ) == allocated(old(fs).geometry, old(fs).disk(), b),
            dir_entries(final(disk_inode).content(final(fs).disk())) == swap_removed(
                self.entries(old(fs)),
                first_index(self.entries(old(fs)), name.spec_bytes(), 0),
            ),
            final(disk_inode).size % 512 != 0,
            final(disk_inode).slot_after_end(final(fs).disk()) == Seq::new(32, |i: int| 0u8),
            free_data(old(fs).geometry, final(fs).disk()) == free_data(
                old(fs).geometry,
                old(fs).disk(),
            ),
            free_inodes(old(fs).geometry, final(fs).disk()) == free_inodes(
                old(fs).geometry,
                old(fs).disk(),
            ),
    {
        let ghost sb = fs.geometry;
        let ghost d0 = fs.disk();
        let ghost ino = self.inode_id as int;
        let ghost rec0 = *disk_inode;
        let ghost c0 = rec0.content(d0);
        let ghost entries0 = dir_entries(c0);
        proof {
            lemma_struct_inode(sb, d0, ino);
            lemma_first_index(entries0, name.spec_bytes(), 0);
        }
        let file_count = (disk_inode.size as usize) / 32;
        let index = match Self::find_entry(name, disk_inode, fs) {
            Some((i, _)) => i,
            None => 0,
        };
        let last = Self::read_entry(disk_inode, file_count - 1, fs);
        let last_bytes = last.to_bytes();
        proof {
            lemma_pending_init(sb, d0, ino);
        }
        disk_inode.write_at(32 * index, &last_bytes, &mut fs.cache);
        let ghost d1 = fs.disk();
        let ghost c1 = disk_inode.content(d1);
        proof {
            lemma_pending_write(sb, d0, d0, d1, ino, *disk_inode);
            assert(rec0.owned(d1) =~= rec0.owned(d0));
        }
        let zeros = [0u8; 32];
        disk_inode.write_at(32 * (file_count - 1), &zeros, &mut fs.cache);
        let ghost d2 = fs.disk();
        let ghost c2 = disk_inode.content(d2);
        proof {
            lemma_pending_write(sb, d0, d1, d2, ino, *disk_inode);
            lemma_pending_use(sb, d0, d2, ino, *disk_inode);
            assert(rec0.owned(d2) =~= rec0.owned(d1));
        }
        let new_size = disk_inode.size - 32;
        self.decrease_size(new_size, disk_inode);
        proof {
            lemma_pending_record(sb, d0, d2, ino, rec0, *disk_inode);
            let c3 = disk_inode.content(d2);
            assert(last_bytes@ =~= c0.subrange(c0.len() - 32, c0.len() as int));
            assert(zeros@ =~= Seq::new(32, |i: int| 0u8));
            crate::dir_entry::lemma_removal(c0, c1, c2, c3, index as int, last_bytes@, zeros@);
            disk_inode.lemma_slot_zeroed(rec0, d2);
        }
    }

    /// Removes the first entry named `name` from this directory and lowers
    /// the link count of the file it named by one; if no entry names the file
    /// any more, the file's blocks are given back and it is left empty.
    /// `None`, and nothing changes, if no entry has the name. The entries
    /// keep their places, except that the last one takes the place of the
    /// removed one. The directory keeps its blocks: the entry must not be the
    /// only one in the directory's last block.
    pub fn unlink<D: BlockDevice>(&self, fs: &mut EasyFileSystem<D>, name: &str) -> (r: Option<()>)
        requires
            old(fs).wf(),
            self.valid(old(fs)),
            self.record(old(fs)).type_ == DiskInodeType::Directory,
            lookup(self.entries(old(fs)), name.spec_bytes()) is Some ==> spec_total_blocks(
                self.record(old(fs)).size - 32,
            ) == spec_total_blocks(self.record(old(fs)).size as int),
        ensures
            unlinked_in(old(fs), final(fs), self, name.spec_bytes(), r),
    {
        let ghost sb = fs.geometry;
        let ghost d0 = fs.disk();
        let ghost entries0 = self.entries(fs);
        proof {
            lemma_dir_root(sb, d0, self.inode_id as int);
        }
        let old_inode = match self.find(fs, name) {
            Some(i) => i,
            None => {
                fs.cache.sync_all();
                return None;
            },
        };
        let ghost id = old_inode.inode_id as int;
        let ghost at = first_index(entries0, name.spec_bytes(), 0);
        let ghost before = inode_of(sb, d0, id);
        proof {
            lemma_first_index(entries0, name.spec_bytes(), 0);
            lemma_dir_entry(sb, d0, at);
            lemma_dir_root(sb, d0, id);
            lemma_inode_pos(sb, d0, 0);
        }
        // the directory loses the entry
        let mut root = self.read_disk_inode(fs);
        self.remove_dir_entry(name, &mut root, fs);
        let ghost dk = fs.disk();
        proof {
            lemma_pending_use(sb, d0, dk, 0, root);
        }
        root.store(&mut fs.cache, self.block_id, self.block_offset);
        let ghost d1 = fs.disk();
        proof {
            assert(d1 == with_inode(sb, dk, 0, root));
            lemma_commit(sb, d0, dk, 0, root);
            assert(inode_of(sb, d1, id) == before);
            assert(used(sb, d1, id));
            lemma_struct_inode(sb, d1, 0);
            assert forall|p: int| 0 <= p < root.owned(dk).len() implies d1[#[trigger] root.owned(
                dk,
            )[p] as int] == dk[root.owned(dk)[p] as int] by {
                assert(in_data_area(sb, root.owned(d1)[p] as int));
            }
            root.lemma_slot_kept(dk, d1);
            assert(inode_of(sb, d1, 0).owned(d1) == inode_of(sb, d0, 0).owned(d0));
            lemma_owns_same(sb, d0, d1, 0);
            lemma_bitmap_kept(sb, d0, d1, 0);
        }
        // the file loses a link
        let (_, nlink, _) = old_inode.stat_raw(fs);
        old_inode.set_hard_link(fs, nlink - 1);
        let ghost d2 = fs.disk();
        proof {
            lemma_others_same_trans(sb, d0, d1, d2, 0, id);
            lemma_struct_inode(sb, d0, id);
            lemma_bitmap_same_trans(sb, d0, d1, d2);
            assert(inode_of(sb, d2, id).owned(d2) == before.owned(d0));
        }
        if nlink - 1 == 0 {
            old_inode.clear_internal(fs);
            proof {
                let d3 = fs.disk();
                lemma_same_then_follow(sb, d0, d2, d3, id);
                lemma_follows_gave(sb, d0, d3, id);
                lemma_others_same_trans(sb, d1, d2, d3, id, id);
                lemma_others_same_trans(sb, d0, d1, d3, 0, id);
                lemma_struct_inode(sb, d2, id);
                assert(inode_of(sb, d3, 0) == inode_of(sb, d1, 0));
                assert(inode_of(sb, d3, 0).content(d3) == inode_of(sb, d1, 0).content(d1));
                let owned0 = before.owned(d0);
                assert(inode_of(sb, d2, id).owned(d2) == owned0);
                assert forall|p: int| 0 <= p < owned0.len() implies !allocated(
                    sb,
                    d3,
                    #[trigger] owned0[p] as int,
                ) by {
                    assert(owns(sb, d2, id, inode_of(sb, d2, id).owned(d2)[p] as int));
                }
            }
        } else {
            proof {
                assert(inode_of(sb, d2, 0) == inode_of(sb, d1, 0));
                assert(inode_of(sb, d2, 0).content(d2) == inode_of(sb, d1, 0).content(d1));
            }
        }
        proof {
            let d3 = fs.disk();
            assert(root_entries(sb, d3) == swap_removed(entries0, at));
            lemma_dir_wf_removed(sb, d0, d3, id, at);
            assert(inode_of(sb, d3, 0) == root);
            assert(root.owned(d3) == root.owned(d1));
            assert forall|p: int| 0 <= p < root.owned(d1).len() implies d3[#[trigger] root.owned(
                d1,
            )[p] as int] == d1[root.owned(d1)[p] as int] by {}
            root.lemma_slot_kept(d1, d3);
        }
        fs.cache.sync_all();
        Some(())
    }
}

} // verus!
