//! What the system calls read and change of the calling process: its
//! descriptor table, its children and its priority.

use vstd::prelude::*;

verus! {

/// What a process knows of one of its children.
#[derive(Clone, Copy, Debug)]
pub struct ChildState {
    pub pid: usize,
    /// The child has exited and waits to be collected.
    pub zombie: bool,
    pub exit_code: i32,
}

/// The state of the calling process that the system calls work on. A
/// descriptor is an index into `fd_table`; a closed descriptor is `None`.
pub struct TaskInner<F> {
    pub pid: usize,
    pub priority: usize,
    pub fd_table: Vec<Option<F>>,
    pub children: Vec<ChildState>,
}

/// Index of the first closed descriptor at or after `from`, or the length of
/// the table if every descriptor from there on is open.
pub open spec fn first_free<F>(table: Seq<Option<F>>, from: int) -> int
    decreases table.len() - from,
{
    if from < 0 || from >= table.len() || table[from] is None {
        from
    } else {
        first_free(table, from + 1)
    }
}

/// What `first_free` finds: every descriptor before it is open, and it is
/// closed or the end of the table.
pub proof fn lemma_first_free<F>(table: Seq<Option<F>>, from: int)
    requires
        0 <= from <= table.len(),
    ensures
        from <= first_free(table, from) <= table.len(),
        forall|i: int| from <= i < first_free(table, from) ==> table[i] is Some,
        first_free(table, from) < table.len() ==> table[first_free(table, from)] is None,
    decreases table.len() - from,
{
    if from < table.len() && table[from] is Some {
        lemma_first_free(table, from + 1);
    }
}

impl<F> TaskInner<F> {
    /// A process with no open descriptor, no children and the default
    /// priority.
    pub fn new(pid: usize) -> (task: Self)
        ensures
            task.pid == pid,
            task.priority == 16,
            task.fd_table@.len() == 0,
            task.children@.len() == 0,
    {
        TaskInner { pid, priority: 16, fd_table: Vec::new(), children: Vec::new() }
    }

    /// The lowest closed descriptor; the table grows by one closed
    /// descriptor if all are open.
    pub fn alloc_fd(&mut self) -> (fd: usize)
        ensures
            fd == first_free(old(self).fd_table@, 0),
            fd < final(self).fd_table@.len(),
            final(self).fd_table@[fd as int] is None,
            final(self).fd_table@ == if fd < old(self).fd_table@.len() {
                old(self).fd_table@
            } else {
                old(self).fd_table@.push(None)
            },
            final(self).pid == old(self).pid,
            final(self).priority == old(self).priority,
            final(self).children == old(self).children,
    {
        let mut i: usize = 0;
        while i < self.fd_table.len()
            invariant
                i <= self.fd_table@.len(),
                *self == *old(self),
                first_free(self.fd_table@, 0) == first_free(self.fd_table@, i as int),
            decreases self.fd_table@.len() - i,
        {
            if self.fd_table[i].is_none() {
                return i;
            }
            i += 1;
        }
        self.fd_table.push(None);
        i
    }
}

} // verus!
