//! File system calls: what each does to the descriptor table and to the
//! filesystem, and the number it returns.

use crate::block_dev::BlockDevice;
use crate::disk_inode::DiskInodeType;
use crate::efs::EasyFileSystem;
use crate::fs::{File, Stat};
use crate::image::{free_data};
use crate::namespace::{lookup};
use crate::layout::{spec_total_blocks, MAX_FILE_SIZE};
use crate::task::{first_free, TaskInner};
use crate::vfs::Inode;
use vstd::prelude::*;
use vstd::string::StringSliceAdditionalSpecFns;

verus! {

broadcast use vstd::slice::group_slice_axioms;

/// The number a system call returns for a count of bytes.
pub fn count_result(n: usize) -> (r: isize)
    ensures
        r == n as isize,
{
    n as isize
}

/// Whether two byte strings are equal.
pub fn bytes_eq(a: &[u8], b: &[u8]) -> (r: bool)
    ensures
        r == (a@ == b@),
{
    if a.len() != b.len() {
        return false;
    }
    let mut i: usize = 0;
    while i < a.len()
        invariant
            i <= a.len(),
            a.len() == b.len(),
            forall|j: int| 0 <= j < i ==> a@[j] == b@[j],
        decreases a.len() - i,
    {
        if a[i] != b[i] {
            return false;
        }
        i += 1;
    }
    assert(a@ =~= b@);
    true
}

/// Writes `buf` to descriptor `fd`: -1 if `fd` is not an open descriptor,
/// else the count that the file's `write` returned for `buf`.
pub fn sys_write<F: File>(task: &TaskInner<F>, fd: usize, buf: &[u8]) -> (r: isize)
    ensures
        fd >= task.fd_table@.len() || task.fd_table@[fd as int] is None ==> r == -1,
        fd < task.fd_table@.len() && task.fd_table@[fd as int] is Some ==> exists|n: usize|
            r == n as isize && #[trigger] call_ensures(
                F::write,
                (&task.fd_table@[fd as int]->0, buf),
                n,
            ),
{
    if fd >= task.fd_table.len() {
        return -1;
    }
    match &task.fd_table[fd] {
        Some(file) => count_result(file.write(buf)),
        None => -1,
    }
}

/// Reads from descriptor `fd` into `buf`: -1, and `buf` is left alone, if
/// `fd` is not an open descriptor; else the count that the file's `read`
/// returned when it was handed `buf`, and `buf` holds what that call left in
/// it.
pub fn sys_read<F: File>(task: &TaskInner<F>, fd: usize, buf: &mut [u8]) -> (r: isize)
    ensures
        fd >= task.fd_table@.len() || task.fd_table@[fd as int] is None ==> r == -1 && final(buf)@
            == old(buf)@,
        fd < task.fd_table@.len() && task.fd_table@[fd as int] is Some ==> exists|
            n: usize,
            b: &mut [u8],
        |
            r == n as isize && b@ == old(buf)@ && final(b)@ == final(buf)@ && #[trigger] call_ensures(
                F::read,
                (&task.fd_table@[fd as int]->0, b),
                n,
            ),
{
    if fd >= task.fd_table.len() {
        return -1;
    }
    match &task.fd_table[fd] {
        Some(file) => count_result(file.read(buf)),
        None => -1,
    }
}

/// Gives the file that was opened, if one was, the lowest closed descriptor
/// and returns it; -1, and nothing changes, if none was opened.
pub fn sys_open<F>(task: &mut TaskInner<F>, opened: Option<F>) -> (r: isize)
    ensures
        final(task).pid == old(task).pid,
        final(task).priority == old(task).priority,
        final(task).children == old(task).children,
        match opened {
            None => r == -1 && final(task).fd_table@ == old(task).fd_table@,
            Some(file) => {
                let fd = first_free(old(task).fd_table@, 0);
                &&& r == fd as usize as isize
                &&& final(task).fd_table@ == if fd < old(task).fd_table@.len() {
                    old(task).fd_table@.update(fd, Some(file))
                } else {
                    old(task).fd_table@.push(Some(file))
                }
            },
        },
{
    match opened {
        Some(file) => {
            let fd = task.alloc_fd();
            task.fd_table[fd] = Some(file);
            proof {
                let t0 = old(task).fd_table@;
                if fd >= t0.len() {
                    assert(task.fd_table@ =~= t0.push(Some(file)));
                }
            }
            fd as isize
        },
        None => -1,
    }
}

/// Closes descriptor `fd`: 0 if it was open, -1, and nothing changes, if not.
pub fn sys_close<F>(task: &mut TaskInner<F>, fd: usize) -> (r: isize)
    ensures
        final(task).pid == old(task).pid,
        final(task).priority == old(task).priority,
        final(task).children == old(task).children,
        if fd < old(task).fd_table@.len() && old(task).fd_table@[fd as int] is Some {
            r == 0 && final(task).fd_table@ == old(task).fd_table@.update(fd as int, None)
        } else {
            r == -1 && final(task).fd_table@ == old(task).fd_table@
        },
{
    if fd >= task.fd_table.len() {
        return -1;
    }
    if task.fd_table[fd].is_none() {
        return -1;
    }
    task.fd_table[fd] = None;
    0
}

/// Gives the two ends of a new pipe the two lowest closed descriptors, the
/// read end first, and returns them.
pub fn sys_pipe<F>(task: &mut TaskInner<F>, pipe_read: F, pipe_write: F) -> (fds: (usize, usize))
    ensures
        final(task).pid == old(task).pid,
        final(task).priority == old(task).priority,
        final(task).children == old(task).children,
        fds.0 == first_free(old(task).fd_table@, 0),
        fds.0 < fds.1 < final(task).fd_table@.len(),
        final(task).fd_table@[fds.0 as int] == Some(pipe_read),
        final(task).fd_table@[fds.1 as int] == Some(pipe_write),
        forall|i: int|
            0 <= i < old(task).fd_table@.len() && i != fds.0 && i != fds.1 ==> final(task).fd_table@[i]
                == old(task).fd_table@[i],
{
    let read_fd = task.alloc_fd();
    task.fd_table[read_fd] = Some(pipe_read);
    let ghost t1 = task.fd_table@;
    proof {
        crate::task::lemma_first_free(old(task).fd_table@, 0);
        crate::task::lemma_first_free(t1, 0);
        let ff = first_free(t1, 0);
        if ff < read_fd {
            assert(t1[ff] == old(task).fd_table@[ff]);
        }
    }
    let write_fd = task.alloc_fd();
    task.fd_table[write_fd] = Some(pipe_write);
    (read_fd, write_fd)
}

/// Makes the lowest closed descriptor refer to a clone of what `fd` refers
/// to and returns it; -1, and nothing changes, if `fd` is not open.
pub fn sys_dup<F: Clone>(task: &mut TaskInner<F>, fd: usize) -> (r: isize)
    ensures
        final(task).pid == old(task).pid,
        final(task).priority == old(task).priority,
        final(task).children == old(task).children,
        if fd < old(task).fd_table@.len() && old(task).fd_table@[fd as int] is Some {
            let new_fd = first_free(old(task).fd_table@, 0);
            &&& r == new_fd as usize as isize
            &&& final(task).fd_table@.len() == if new_fd < old(task).fd_table@.len() {
                old(task).fd_table@.len()
            } else {
                old(task).fd_table@.len() + 1
            }
            &&& final(task).fd_table@[new_fd] matches Some(copy) && cloned(
                old(task).fd_table@[fd as int]->0,
                copy,
            )
            &&& forall|i: int|
                0 <= i < old(task).fd_table@.len() && i != new_fd ==> final(task).fd_table@[i]
                    == old(task).fd_table@[i]
        } else {
            r == -1 && final(task).fd_table@ == old(task).fd_table@
        },
{
    if fd >= task.fd_table.len() {
        return -1;
    }
    let copy = match &task.fd_table[fd] {
        Some(file) => file.clone(),
        None => {
            return -1;
        },
    };
    let new_fd = task.alloc_fd();
    task.fd_table[new_fd] = Some(copy);
    new_fd as isize
}

/// Describes what descriptor `fd` refers to: -1 and no record if `fd` is
/// beyond the table, else 0 and the record the file gives. A descriptor
/// within the table must be open.
pub fn sys_fstat<F: File>(task: &TaskInner<F>, fd: usize) -> (r: (isize, Option<Stat>))
    requires
        fd < task.fd_table@.len() ==> task.fd_table@[fd as int] is Some,
    ensures
        r.0 == if fd < task.fd_table@.len() {
            0isize
        } else {
            -1isize
        },
        r.1 is Some <==> fd < task.fd_table@.len(),
        r.1 matches Some(st) ==> call_ensures(F::stat, (&task.fd_table@[fd as int]->0,), st),
{
    if fd >= task.fd_table.len() {
        return (-1, None);
    }
    match &task.fd_table[fd] {
        Some(file) => (0, Some(file.stat())),
        None => (-1, None),
    }
}

/// Makes `new_name` a second name of the file named `old_name` in directory
/// `root`: -1, and nothing changes, if the two names are the same or
/// `old_name` does not resolve, else 0.
pub fn sys_linkat<D: BlockDevice>(
    root: &Inode,
    fs: &mut EasyFileSystem<D>,
    old_name: &str,
    new_name: &str,
) -> (r: isize)
    requires
        old(fs).wf(),
        root.valid(old(fs)),
        root.record(old(fs)).type_ == DiskInodeType::Directory,
        old_name.spec_bytes() != new_name.spec_bytes() && lookup(
            root.entries(old(fs)),
            old_name.spec_bytes(),
        ) is Some ==> new_name.spec_bytes().len() <= 27 && root.record(old(fs)).size + 32
            <= MAX_FILE_SIZE && free_data(old(fs).geometry, old(fs).disk())
            >= spec_total_blocks(root.record(old(fs)).size + 32) - spec_total_blocks(
            root.record(old(fs)).size as int,
        ),
    ensures
        final(fs).wf(),
        final(fs).same_handle(old(fs)),
        root.valid(final(fs)),
        r == 0 || r == -1,
        r == 0 <==> old_name.spec_bytes() != new_name.spec_bytes() && lookup(
            root.entries(old(fs)),
            old_name.spec_bytes(),
        ) is Some,
        r == -1 ==> final(fs).disk() == old(fs).disk(),
        r == 0 ==> root.entries(final(fs)) == root.entries(old(fs)).push(
            crate::dir_entry::DirEntryView {
                name: crate::dir_entry::name_of(new_name.spec_bytes()),
                inode_number: lookup(root.entries(old(fs)), old_name.spec_bytes())->0,
            },
        ),
{
    if bytes_eq(old_name.as_bytes(), new_name.as_bytes()) {
        return -1;
    }
    match root.link(fs, old_name, new_name) {
        Some(_) => 0,
        None => -1,
    }
}

/// Removes the name `name` from directory `root`: 0 if it was there, -1, and
/// nothing changes, if not.
pub fn sys_unlinkat<D: BlockDevice>(root: &Inode, fs: &mut EasyFileSystem<D>, name: &str) -> (r:
    isize)
    requires
        old(fs).wf(),
        root.valid(old(fs)),
        root.record(old(fs)).type_ == DiskInodeType::Directory,
        lookup(root.entries(old(fs)), name.spec_bytes()) is Some ==> spec_total_blocks(
            root.record(old(fs)).size - 32,
        ) == spec_total_blocks(root.record(old(fs)).size as int),
    ensures
        final(fs).wf(),
        final(fs).same_handle(old(fs)),
        root.valid(final(fs)),
        r == 0 || r == -1,
        r == 0 <==> lookup(root.entries(old(fs)), name.spec_bytes()) is Some,
        r == -1 ==> final(fs).disk() == old(fs).disk(),
        r == 0 ==> root.entries(final(fs)) == crate::namespace::swap_removed(
            root.entries(old(fs)),
            crate::namespace::first_index(root.entries(old(fs)), name.spec_bytes(), 0),
        ),
{
    match root.unlink(fs, name) {
        Some(_) => 0,
        None => -1,
    }
}

} // verus!
