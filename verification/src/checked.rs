//! The operations of an inode handle for callers that cannot know what
//! state the filesystem is in: each tests what it needs of the handle and of
//! the filesystem before it acts, and says in its result when it did not
//! act. The filesystem stays sound either way.

use crate::block_dev::BlockDevice;
use crate::disk_inode::{DiskInode, DiskInodeType};
use crate::efs::EasyFileSystem;
use crate::image::{free_data, free_inodes, inode_block, inode_offset};
use crate::layout::{lemma_total_blocks_monotone, read_len, spec_total_blocks, MAX_FILE_SIZE};
use crate::namespace::lookup;
use crate::super_block::SuperBlock;
use crate::vfs::{
    created_in, emptied, linked_in, read_into, unlinked_in, wrote_to, Inode,
};
use vstd::prelude::*;
use vstd::string::StringSliceAdditionalSpecFns;

verus! {

broadcast use vstd::slice::group_slice_axioms;

/// The handle to inode `id` of a filesystem with geometry `sb`.
pub open spec fn handle_of(sb: SuperBlock, id: u32) -> Inode {
    Inode {
        block_id: inode_block(sb, id as int) as usize,
        block_offset: inode_offset(id as int) as usize,
        inode_id: id,
    }
}

/// `inode` is a handle to a directory of `fs`.
pub open spec fn is_dir<D: BlockDevice>(fs: &EasyFileSystem<D>, inode: &Inode) -> bool {
    inode.valid(fs) && inode.record(fs).type_ == DiskInodeType::Directory
}

/// `inode` is a handle to a file of `fs`.
pub open spec fn is_file<D: BlockDevice>(fs: &EasyFileSystem<D>, inode: &Inode) -> bool {
    inode.valid(fs) && inode.record(fs).type_ == DiskInodeType::File
}

/// The bytes that `inode` has in `fs`: none if it is not a handle to an
/// inode in use.
pub open spec fn bytes_of<D: BlockDevice>(fs: &EasyFileSystem<D>, inode: &Inode) -> Seq<u8> {
    if inode.valid(fs) {
        inode.content(fs)
    } else {
        Seq::empty()
    }
}

/// What `name` resolves to in `dir`: nothing if `dir` is not a handle to a
/// directory or no entry has the name, else the handle to the inode that the
/// first entry with the name names.
pub open spec fn find_result<D: BlockDevice>(
    fs: &EasyFileSystem<D>,
    dir: &Inode,
    name: Seq<u8>,
) -> Option<Inode> {
    if is_dir(fs, dir) {
        match lookup(dir.entries(fs), name) {
            Some(id) => Some(handle_of(fs.geometry, id)),
            None => None,
        }
    } else {
        None
    }
}

/// What `stat` tells of `inode`: nothing if it is not a handle to an inode
/// in use, else its number, link count and kind.
pub open spec fn stat_result<D: BlockDevice>(fs: &EasyFileSystem<D>, inode: &Inode) -> Option<
    (u32, u32, DiskInodeType),
> {
    if inode.valid(fs) {
        Some((inode.inode_id, inode.record(fs).hard_link, inode.record(fs).type_))
    } else {
        None
    }
}

/// `v` lists the names in `dir`: one text for each entry, in on-disk order,
/// and for a name that is valid UTF-8 the text it encodes; nothing if `dir`
/// is not a handle to an inode in use.
pub open spec fn listed<D: BlockDevice>(fs: &EasyFileSystem<D>, dir: &Inode, v: Seq<String>) -> bool {
    if dir.valid(fs) {
        &&& v.len() == dir.entries(fs).len()
        &&& forall|i: int|
            0 <= i < v.len() && vstd::utf8::valid_utf8(dir.entries(fs)[i].name) ==> (#[trigger] v[i])@
                == vstd::utf8::decode_utf8(dir.entries(fs)[i].name)
    } else {
        v.len() == 0
    }
}

/// A write of `len` bytes at `offset` of `inode` can be carried out: the
/// handle names a file, the file stays within the largest size, and there
/// are free blocks for what it grows by.
pub open spec fn can_write<D: BlockDevice>(
    fs: &EasyFileSystem<D>,
    inode: &Inode,
    offset: int,
    len: int,
) -> bool {
    &&& is_file(fs, inode)
    &&& offset + len <= MAX_FILE_SIZE
    &&& offset + len >= inode.record(fs).size ==> free_data(fs.geometry, fs.disk())
        >= spec_total_blocks(offset + len) - spec_total_blocks(inode.record(fs).size as int)
}

/// Directory `dir` can take one more entry: the handle names a directory,
/// the directory stays within the largest size, and there are free blocks
/// for what it grows by.
pub open spec fn can_add_entry<D: BlockDevice>(fs: &EasyFileSystem<D>, dir: &Inode) -> bool {
    &&& is_dir(fs, dir)
    &&& dir.record(fs).size + 32 <= MAX_FILE_SIZE
    &&& free_data(fs.geometry, fs.disk()) >= spec_total_blocks(dir.record(fs).size + 32)
        - spec_total_blocks(dir.record(fs).size as int)
}

/// Directory `dir` can give up an entry: the handle names a directory that
/// has an entry and needs as many blocks with one entry less.
pub open spec fn can_remove_entry<D: BlockDevice>(fs: &EasyFileSystem<D>, dir: &Inode) -> bool {
    &&& is_dir(fs, dir)
    &&& dir.record(fs).size >= 32
    &&& spec_total_blocks(dir.record(fs).size - 32) == spec_total_blocks(
        dir.record(fs).size as int,
    )
}

/// Nothing was done: the filesystem is on the same disk as before.
pub open spec fn untouched<D: BlockDevice>(pre: &EasyFileSystem<D>, post: &EasyFileSystem<D>) -> bool {
    &&& post.wf()
    &&& post.same_handle(pre)
    &&& post.disk() == pre.disk()
}

/// What a write through a handle that is tested first does: the write, if
/// it can be carried out; else nothing, and no byte counts as written.
pub open spec fn wrote<D: BlockDevice>(
    pre: &EasyFileSystem<D>,
    post: &EasyFileSystem<D>,
    inode: &Inode,
    offset: int,
    bytes: Seq<u8>,
    n: int,
) -> bool {
    if can_write(pre, inode, offset, bytes.len() as int) {
        wrote_to(pre, post, inode, offset, bytes, n)
    } else {
        n == 0 && untouched(pre, post)
    }
}

/// What emptying through a handle that is tested first does: it empties the
/// file if the handle names one; else nothing.
pub open spec fn cleared<D: BlockDevice>(
    pre: &EasyFileSystem<D>,
    post: &EasyFileSystem<D>,
    inode: &Inode,
    done: bool,
) -> bool {
    if is_file(pre, inode) {
        done && emptied(pre, post, inode)
    } else {
        !done && untouched(pre, post)
    }
}

/// What linking through a handle that is tested first does: the link, if
/// the directory can take an entry and the new name fits one; else nothing.
pub open spec fn linked<D: BlockDevice>(
    pre: &EasyFileSystem<D>,
    post: &EasyFileSystem<D>,
    dir: &Inode,
    old_name: Seq<u8>,
    new_name: Seq<u8>,
    r: Option<()>,
) -> bool {
    if can_add_entry(pre, dir) && new_name.len() <= 27 {
        linked_in(pre, post, dir, old_name, new_name, r)
    } else {
        r is None && untouched(pre, post)
    }
}

/// What creating through a handle that is tested first does: it makes the
/// file if the directory can take an entry, an inode slot is free and the
/// name fits an entry; else nothing.
pub open spec fn created<D: BlockDevice>(
    pre: &EasyFileSystem<D>,
    post: &EasyFileSystem<D>,
    dir: &Inode,
    name: Seq<u8>,
    r: Option<Inode>,
) -> bool {
    if can_add_entry(pre, dir) && free_inodes(pre.geometry, pre.disk()) > 0 && name.len() <= 27 {
        created_in(pre, post, dir, name, r)
    } else {
        r is None && untouched(pre, post)
    }
}

/// What unlinking through a handle that is tested first does: it removes
/// the name if the directory can give up an entry; else nothing.
pub open spec fn unlinked<D: BlockDevice>(
    pre: &EasyFileSystem<D>,
    post: &EasyFileSystem<D>,
    dir: &Inode,
    name: Seq<u8>,
    r: Option<()>,
) -> bool {
    if can_remove_entry(pre, dir) {
        unlinked_in(pre, post, dir, name, r)
    } else {
        r is None && untouched(pre, post)
    }
}

/// What a read at `offset` of `inode` into a buffer that held `before`
/// leaves: `n` bytes of the inode at the front of the buffer, the rest as it
/// was.
pub open spec fn read_from<D: BlockDevice>(
    fs: &EasyFileSystem<D>,
    inode: &Inode,
    offset: int,
    before: Seq<u8>,
    after: Seq<u8>,
    n: int,
) -> bool {
    &&& n == read_len(bytes_of(fs, inode).len() as int, offset, before.len() as int)
    &&& after == read_into(before, bytes_of(fs, inode), offset)
}

/// Blocks that a file of `size` bytes needs more to reach `new_size` bytes.
fn blocks_to_grow(size: u32, new_size: u32) -> (n: u32)
    requires
        size <= MAX_FILE_SIZE,
        new_size <= MAX_FILE_SIZE,
    ensures
        n == if new_size >= size {
            spec_total_blocks(new_size as int) - spec_total_blocks(size as int)
        } else {
            0
        },
{
    if new_size >= size {
        proof {
            lemma_total_blocks_monotone(size as int, new_size as int);
        }
        DiskInode::total_blocks(new_size) - DiskInode::total_blocks(size)
    } else {
        0
    }
}

/// Whether `inode` is a handle to an inode of `fs` of kind `type_`.
fn is_handle_of_kind<D: BlockDevice>(
    fs: &mut EasyFileSystem<D>,
    inode: &Inode,
    type_: DiskInodeType,
) -> (r: bool)
    requires
        old(fs).wf(),
    ensures
        untouched(old(fs), final(fs)),
        r == (inode.valid(old(fs)) && inode.record(old(fs)).type_ == type_),
{
    if !fs.holds(inode) {
        return false;
    }
    inode.stat(fs).2 == type_
}

/// Whether `dir` is a handle to a directory of `fs` with room for one more
/// entry.
fn room_for_entry<D: BlockDevice>(fs: &mut EasyFileSystem<D>, dir: &Inode) -> (r: bool)
    requires
        old(fs).wf(),
    ensures
        untouched(old(fs), final(fs)),
        r == can_add_entry(old(fs), dir),
{
    if !is_handle_of_kind(fs, dir, DiskInodeType::Directory) {
        return false;
    }
    let size = dir.size(fs);
    if size > MAX_FILE_SIZE - 32 {
        return false;
    }
    let needed = blocks_to_grow(size, size + 32);
    fs.free_data_blocks() >= needed as usize
}

/// The inode that `name` resolves to in directory `dir`; `None` if it does
/// not resolve or `dir` is not a handle to a directory of `fs`. Nothing on
/// disk changes.
pub fn find<D: BlockDevice>(fs: &mut EasyFileSystem<D>, dir: &Inode, name: &str) -> (r: Option<
    Inode,
>)
    requires
        old(fs).wf(),
    ensures
        untouched(old(fs), final(fs)),
        r == find_result(old(fs), dir, name.spec_bytes()),
{
    if is_handle_of_kind(fs, dir, DiskInodeType::Directory) {
        dir.find(fs, name)
    } else {
        None
    }
}

/// Makes a new file named `name` in directory `dir`; `None`, and nothing
/// changes, if the name is in use or longer than 27 bytes, `dir` is not a
/// handle to a directory of `fs`, or there is no room for the file or for
/// its entry.
pub fn create<D: BlockDevice>(fs: &mut EasyFileSystem<D>, dir: &Inode, name: &str) -> (r: Option<
    Inode,
>)
    requires
        old(fs).wf(),
    ensures
        created(old(fs), final(fs), dir, name.spec_bytes(), r),
{
    if name.as_bytes().len() <= 27 && room_for_entry(fs, dir) && fs.free_inode_slots() > 0 {
        dir.create(fs, name)
    } else {
        None
    }
}

/// The names in directory `dir`; none if `dir` is not a handle to an inode
/// in use of `fs`. Nothing on disk changes.
pub fn ls<D: BlockDevice>(fs: &mut EasyFileSystem<D>, dir: &Inode) -> (v: Vec<String>)
    requires
        old(fs).wf(),
    ensures
        untouched(old(fs), final(fs)),
        listed(old(fs), dir, v@),
{
    if fs.holds(dir) {
        dir.ls(fs)
    } else {
        Vec::new()
    }
}

/// The number, link count and kind of `inode`; `None` if it is not a handle
/// to an inode in use of `fs`. Nothing on disk changes.
pub fn stat<D: BlockDevice>(fs: &mut EasyFileSystem<D>, inode: &Inode) -> (r: Option<
    (u32, u32, DiskInodeType),
>)
    requires
        old(fs).wf(),
    ensures
        untouched(old(fs), final(fs)),
        r == stat_result(old(fs), inode),
{
    if fs.holds(inode) {
        Some(inode.stat(fs))
    } else {
        None
    }
}

/// Reads from `inode` at `offset` into `buf` and returns the number of
/// bytes read; nothing is read if `inode` is not a handle to an inode in use
/// of `fs`. Nothing on disk changes.
pub fn read_at<D: BlockDevice>(
    fs: &mut EasyFileSystem<D>,
    inode: &Inode,
    offset: usize,
    buf: &mut [u8],
) -> (n: usize)
    requires
        old(fs).wf(),
    ensures
        untouched(old(fs), final(fs)),
        read_from(old(fs), inode, offset as int, old(buf)@, final(buf)@, n as int),
{
    if fs.holds(inode) {
        inode.read_at(fs, offset, buf)
    } else {
        assert(buf@ =~= read_into(buf@, Seq::empty(), offset as int));
        0
    }
}

/// All the bytes of `inode`; none if `inode` is not a handle to an inode in
/// use of `fs`. Nothing on disk changes.
pub fn read_all<D: BlockDevice>(fs: &mut EasyFileSystem<D>, inode: &Inode) -> (v: Vec<u8>)
    requires
        old(fs).wf(),
    ensures
        untouched(old(fs), final(fs)),
        v@ == bytes_of(old(fs), inode),
{
    if fs.holds(inode) {
        inode.read_all(fs)
    } else {
        Vec::new()
    }
}

/// Writes `buf` to file `inode` at `offset`, growing the file if need be,
/// and returns the number of bytes written: all of `buf`; or none, and
/// nothing changes, if `inode` is not a handle to a file of `fs`, the file
/// would become too large, or there are not enough free blocks.
pub fn write_at<D: BlockDevice>(
    fs: &mut EasyFileSystem<D>,
    inode: &Inode,
    offset: usize,
    buf: &[u8],
) -> (n: usize)
    requires
        old(fs).wf(),
    ensures
        wrote(old(fs), final(fs), inode, offset as int, buf@, n as int),
{
    if offset > MAX_FILE_SIZE as usize || buf.len() > MAX_FILE_SIZE as usize - offset {
        return 0;
    }
    if !is_handle_of_kind(fs, inode, DiskInodeType::File) {
        return 0;
    }
    let size = inode.size(fs);
    let needed = blocks_to_grow(size, (offset + buf.len()) as u32);
    if fs.free_data_blocks() >= needed as usize {
        inode.write_at(fs, offset, buf)
    } else {
        0
    }
}

/// Empties file `inode` and gives its blocks back; `false`, and nothing
/// changes, if `inode` is not a handle to a file of `fs`.
pub fn clear<D: BlockDevice>(fs: &mut EasyFileSystem<D>, inode: &Inode) -> (done: bool)
    requires
        old(fs).wf(),
    ensures
        cleared(old(fs), final(fs), inode, done),
{
    if is_handle_of_kind(fs, inode, DiskInodeType::File) {
        inode.clear(fs);
        true
    } else {
        false
    }
}

/// Gives the file named `old_name` in directory `dir` the second name
/// `new_name`; `None`, and nothing changes, if `old_name` does not resolve,
/// `new_name` is longer than 27 bytes, `dir` is not a handle to a directory
/// of `fs`, or there is no room for the entry.
pub fn link<D: BlockDevice>(
    fs: &mut EasyFileSystem<D>,
    dir: &Inode,
    old_name: &str,
    new_name: &str,
) -> (r: Option<()>)
    requires
        old(fs).wf(),
    ensures
        linked(old(fs), final(fs), dir, old_name.spec_bytes(), new_name.spec_bytes(), r),
{
    if new_name.as_bytes().len() <= 27 && room_for_entry(fs, dir) {
        dir.link(fs, old_name, new_name)
    } else {
        None
    }
}

/// Removes the name `name` from directory `dir`; `None`, and nothing
/// changes, if no entry has the name, `dir` is not a handle to a directory
/// of `fs`, or the directory would need fewer blocks without the entry.
pub fn unlink<D: BlockDevice>(fs: &mut EasyFileSystem<D>, dir: &Inode, name: &str) -> (r: Option<
    (),
>)
    requires
        old(fs).wf(),
    ensures
        unlinked(old(fs), final(fs), dir, name.spec_bytes(), r),
{
    if !is_handle_of_kind(fs, dir, DiskInodeType::Directory) {
        return None;
    }
    let size = dir.size(fs);
    if size >= 32 && DiskInode::total_blocks(size - 32) == DiskInode::total_blocks(size) {
        dir.unlink(fs, name)
    } else {
        None
    }
}

} // verus!
