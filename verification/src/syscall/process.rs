//! Process system calls: what each does to the calling process and the
//! number it returns.

use crate::block_dev::BlockDevice;
use crate::disk_inode::DiskInodeType;
use crate::efs::EasyFileSystem;
use crate::image::inode_of;
use crate::namespace::lookup;
use crate::task::{ChildState, TaskInner};
use crate::vfs::Inode;
use vstd::prelude::*;
use vstd::string::StringSliceAdditionalSpecFns;

verus! {

/// Number of system calls that are counted per process.
pub const MAX_SYSCALL_NUM: usize = 500;

/// A point in time as seconds and microseconds.
#[derive(Clone, Copy, Debug)]
pub struct TimeVal {
    pub sec: usize,
    pub usec: usize,
}

/// Whether a process is waiting to run, running, or has exited.
#[derive(Clone, Copy, Debug, PartialEq, Eq, Structural)]
pub enum TaskStatus {
    Ready,
    Running,
    Zombie,
}

/// What `task_info` reports of the calling process.
#[derive(Clone, Copy)]
pub struct TaskInfo {
    pub status: TaskStatus,
    /// How often each system call was made.
    pub syscall_times: [u32; 500],
    /// Milliseconds since the process first ran.
    pub time: usize,
}

/// The time `us` microseconds after the start of the clock.
pub fn time_val(us: usize) -> (t: TimeVal)
    ensures
        t.sec == us / 1000000,
        t.usec == us % 1000000,
        t.sec * 1000000 + t.usec == us,
{
    TimeVal { sec: us / 1000000, usec: us % 1000000 }
}

/// What the calling process, which is running, reports at time `now`
/// (milliseconds) if it first ran at `first_start`.
pub fn task_info(now: usize, first_start: usize, syscall_times: [u32; 500]) -> (ti: TaskInfo)
    requires
        first_start <= now,
    ensures
        ti.status == TaskStatus::Running,
        ti.time == now - first_start,
        ti.syscall_times == syscall_times,
{
    TaskInfo { status: TaskStatus::Running, syscall_times, time: now - first_start }
}

/// The process id of the calling process.
pub fn get_current_pid<F>(task: &TaskInner<F>) -> (pid: usize)
    ensures
        pid == task.pid,
{
    task.pid
}

/// The process id of the calling process, as a system call returns it.
pub fn sys_getpid<F>(task: &TaskInner<F>) -> (r: isize)
    ensures
        r == task.pid as isize,
{
    task.pid as isize
}

/// Sets the priority of the calling process to `prio` and returns it; -1,
/// and nothing changes, if `prio` is less than 2.
pub fn sys_set_priority<F>(task: &mut TaskInner<F>, prio: isize) -> (r: isize)
    ensures
        final(task).pid == old(task).pid,
        final(task).fd_table == old(task).fd_table,
        final(task).children == old(task).children,
        if prio <= 1 {
            r == -1 && final(task).priority == old(task).priority
        } else {
            r == prio && final(task).priority == prio
        },
{
    if prio <= 1 {
        return -1;
    }
    task.priority = prio as usize;
    prio
}

/// Finds the program named `path` in directory `root` for the calling
/// process to run: 0 and the bytes of the file if the name resolves, -1 and
/// nothing if it does not. Nothing on disk changes.
pub fn sys_exec<D: BlockDevice>(root: &Inode, fs: &mut EasyFileSystem<D>, path: &str) -> (r: (
    isize,
    Option<Vec<u8>>,
))
    requires
        old(fs).wf(),
        root.valid(old(fs)),
        root.record(old(fs)).type_ == DiskInodeType::Directory,
    ensures
        final(fs).wf(),
        final(fs).same_handle(old(fs)),
        final(fs).disk() == old(fs).disk(),
        match lookup(root.entries(old(fs)), path.spec_bytes()) {
            Some(id) => {
                &&& r.0 == 0
                &&& r.1 matches Some(data) && data@ == inode_of(
                    old(fs).geometry,
                    old(fs).disk(),
                    id as int,
                ).content(old(fs).disk())
            },
            None => r.0 == -1 && r.1 is None,
        },
{
    match root.find(fs, path) {
        Some(inode) => {
            let data = inode.read_all(fs);
            (0, Some(data))
        },
        None => (-1, None),
    }
}

/// `port` without its highest bit, which a shift by one place loses.
pub open spec fn low_bits(port: usize) -> int {
    if port > usize::MAX / 2 {
        port - usize::MAX / 2 - 1
    } else {
        port as int
    }
}

/// The permission bits that a request to map memory with protection `port`
/// asks for. `port` holds read as bit 0 and write as bit 1; the bits are
/// handed on one place higher, and the highest bit of `port` is lost on the
/// way. `None` if a third bit is left or neither of the two is set.
pub fn mmap_permission(port: usize) -> (r: Option<u8>)
    ensures
        r == if 1 <= low_bits(port) <= 3 {
            Some((2 * low_bits(port)) as u8)
        } else {
            None
        },
{
    let low: usize = if port > usize::MAX / 2 {
        port - usize::MAX / 2 - 1
    } else {
        port
    };
    if low > 3 || low == 0 {
        return None;
    }
    Some((low * 2) as u8)
}

/// Whether a wait for `pid` is a wait for the child with process id
/// `child`: -1 waits for any child.
pub open spec fn waits_for(pid: isize, child: usize) -> bool {
    pid == -1 || (pid >= 0 && pid == child)
}

/// Index of the first child at or after `from` that has exited and that a
/// wait for `pid` waits for, or -1.
pub open spec fn first_zombie(children: Seq<ChildState>, pid: isize, from: int) -> int
    decreases children.len() - from,
{
    if from < 0 || from >= children.len() {
        -1
    } else if children[from].zombie && waits_for(pid, children[from].pid) {
        from
    } else {
        first_zombie(children, pid, from + 1)
    }
}

/// Some child is one that a wait for `pid` waits for.
pub open spec fn has_child(children: Seq<ChildState>, pid: isize) -> bool {
    exists|i: int| 0 <= i < children.len() && waits_for(pid, (#[trigger] children[i]).pid)
}

/// Whether a wait for `pid` is a wait for the child with process id `child`.
pub fn is_waited(pid: isize, child: usize) -> (r: bool)
    ensures
        r == waits_for(pid, child),
{
    pid == -1 || (pid >= 0 && pid as usize == child)
}

/// Collects a child that has exited: -1 if the process has no child that
/// `pid` names (-1 names any), -2 if it has one but none of them has exited;
/// else the first such child that has exited leaves the list of children,
/// and its process id and exit code are returned.
pub fn sys_waitpid<F>(task: &mut TaskInner<F>, pid: isize) -> (r: (isize, Option<i32>))
    ensures
        final(task).pid == old(task).pid,
        final(task).priority == old(task).priority,
        final(task).fd_table == old(task).fd_table,
        if !has_child(old(task).children@, pid) {
            r == (-1isize, None::<i32>) && final(task).children@ == old(task).children@
        } else if first_zombie(old(task).children@, pid, 0) < 0 {
            r == (-2isize, None::<i32>) && final(task).children@ == old(task).children@
        } else {
            let idx = first_zombie(old(task).children@, pid, 0);
            &&& r.0 == old(task).children@[idx].pid as isize
            &&& r.1 == Some(old(task).children@[idx].exit_code)
            &&& final(task).children@ == old(task).children@.remove(idx)
        },
{
    let mut any = false;
    let mut i: usize = 0;
    while i < task.children.len()
        invariant
            i <= task.children@.len(),
            *task == *old(task),
            any <==> exists|j: int|
                0 <= j < i && waits_for(pid, (#[trigger] task.children@[j]).pid),
        decreases task.children@.len() - i,
    {
        if is_waited(pid, task.children[i].pid) {
            any = true;
        }
        i += 1;
    }
    if !any {
        return (-1, None);
    }
    let mut k: usize = 0;
    while k < task.children.len()
        invariant
            k <= task.children@.len(),
            *task == *old(task),
            first_zombie(task.children@, pid, 0) == first_zombie(task.children@, pid, k as int),
        decreases task.children@.len() - k,
    {
        if task.children[k].zombie && is_waited(pid, task.children[k].pid) {
            let child = task.children.remove(k);
            return (child.pid as isize, Some(child.exit_code));
        }
        k += 1;
    }
    (-2, None)
}

} // verus!
