use easy_fs::block_dev::RamDisk;
use easy_fs::efs::EasyFileSystem;
use easy_fs::fs::{File, Stat, StatMode};
use easy_fs::syscall::fs::{
    bytes_eq, count_result, sys_close, sys_dup, sys_fstat, sys_linkat, sys_open, sys_pipe,
    sys_read, sys_unlinkat, sys_write,
};
use easy_fs::syscall::process::{
    get_current_pid, is_waited, mmap_permission, sys_exec, sys_getpid, sys_set_priority, sys_waitpid, task_info,
    time_val, TaskStatus,
};
use easy_fs::task::{ChildState, TaskInner};
use std::cell::RefCell;
use std::rc::Rc;

#[derive(Clone)]
struct Tape {
    id: usize,
    data: Rc<RefCell<Vec<u8>>>,
}

impl Tape {
    fn new(id: usize) -> Tape {
        Tape { id, data: Rc::new(RefCell::new(Vec::new())) }
    }
}

impl File for Tape {
    fn readable(&self) -> bool {
        true
    }

    fn writable(&self) -> bool {
        true
    }

    fn read(&self, buf: &mut [u8]) -> usize {
        let data = self.data.borrow();
        let n = data.len().min(buf.len());
        buf[..n].copy_from_slice(&data[..n]);
        n
    }

    fn write(&self, buf: &[u8]) -> usize {
        self.data.borrow_mut().extend_from_slice(buf);
        buf.len()
    }

    fn stat(&self) -> Stat {
        Stat::new(self.id, StatMode::file(), 1)
    }
}

fn ids(task: &TaskInner<Tape>) -> Vec<Option<usize>> {
    task.fd_table.iter().map(|f| f.as_ref().map(|t| t.id)).collect()
}

#[test]
fn descriptors_are_given_lowest_first() {
    let mut task: TaskInner<Tape> = TaskInner::new(3);
    assert_eq!(task.priority, 16);
    assert_eq!(sys_open(&mut task, Some(Tape::new(10))), 0);
    assert_eq!(sys_open(&mut task, Some(Tape::new(11))), 1);
    assert_eq!(sys_open(&mut task, Some(Tape::new(12))), 2);
    assert_eq!(sys_open(&mut task, None), -1);
    assert_eq!(ids(&task), vec![Some(10), Some(11), Some(12)]);
    assert_eq!(sys_close(&mut task, 1), 0);
    assert_eq!(ids(&task), vec![Some(10), None, Some(12)]);
    assert_eq!(sys_close(&mut task, 1), -1);
    assert_eq!(sys_close(&mut task, 3), -1);
    assert_eq!(ids(&task), vec![Some(10), None, Some(12)]);
    assert_eq!(task.alloc_fd(), 1);
    assert_eq!(sys_open(&mut task, Some(Tape::new(13))), 1);
    assert_eq!(task.alloc_fd(), 3);
    assert_eq!(ids(&task), vec![Some(10), Some(13), Some(12), None]);
}

#[test]
fn dup_shares_the_file() {
    let mut task: TaskInner<Tape> = TaskInner::new(1);
    sys_open(&mut task, Some(Tape::new(5)));
    assert_eq!(sys_dup(&mut task, 1), -1);
    assert_eq!(sys_dup(&mut task, 0), 1);
    assert_eq!(ids(&task), vec![Some(5), Some(5)]);
    sys_close(&mut task, 0);
    assert_eq!(sys_dup(&mut task, 0), -1);
    assert_eq!(sys_dup(&mut task, 1), 0);
    assert_eq!(sys_write(&task, 0, b"abc"), 3);
    let mut buf = [0u8; 8];
    assert_eq!(sys_read(&task, 1, &mut buf), 3);
    assert_eq!(&buf[..3], b"abc");
}

#[test]
fn read_and_write_need_an_open_descriptor() {
    let mut task: TaskInner<Tape> = TaskInner::new(1);
    let mut buf = [9u8; 4];
    assert_eq!(sys_write(&task, 0, b"x"), -1);
    assert_eq!(sys_read(&task, 0, &mut buf), -1);
    sys_open(&mut task, Some(Tape::new(1)));
    sys_close(&mut task, 0);
    assert_eq!(sys_write(&task, 0, b"x"), -1);
    assert_eq!(sys_read(&task, 0, &mut buf), -1);
    assert_eq!(buf, [9u8; 4]);
    assert_eq!(count_result(17), 17);
    assert_eq!(count_result(0), 0);
}

#[test]
fn pipe_takes_two_descriptors() {
    let mut task: TaskInner<Tape> = TaskInner::new(1);
    sys_open(&mut task, Some(Tape::new(1)));
    sys_open(&mut task, Some(Tape::new(2)));
    sys_open(&mut task, Some(Tape::new(3)));
    sys_close(&mut task, 1);
    assert_eq!(sys_pipe(&mut task, Tape::new(20), Tape::new(21)), (1, 3));
    assert_eq!(ids(&task), vec![Some(1), Some(20), Some(3), Some(21)]);
}

#[test]
fn fstat_describes_the_file() {
    let mut task: TaskInner<Tape> = TaskInner::new(1);
    sys_open(&mut task, Some(Tape::new(42)));
    let (r, st) = sys_fstat(&task, 0);
    assert_eq!(r, 0);
    let st = st.unwrap();
    assert_eq!((st.ino, st.nlink, st.mode.bits()), (42, 1, 0o100000));
    let (r, st) = sys_fstat(&task, 1);
    assert_eq!(r, -1);
    assert!(st.is_none());
}

#[test]
fn linkat_and_unlinkat() {
    let mut fs = EasyFileSystem::create(RamDisk::new(2048), 2048, 1);
    let root = fs.root_inode();
    root.create(&mut fs, "a").unwrap();
    assert_eq!(sys_linkat(&root, &mut fs, "a", "a"), -1);
    assert_eq!(sys_linkat(&root, &mut fs, "b", "c"), -1);
    assert_eq!(root.ls(&mut fs), vec!["a"]);
    assert_eq!(sys_linkat(&root, &mut fs, "a", "b"), 0);
    assert_eq!(root.ls(&mut fs), vec!["a", "b"]);
    assert_eq!(root.find(&mut fs, "b").unwrap().stat(&mut fs).1, 2);
    assert_eq!(sys_unlinkat(&root, &mut fs, "c"), -1);
    assert_eq!(sys_unlinkat(&root, &mut fs, "a"), 0);
    assert_eq!(root.ls(&mut fs), vec!["b"]);
    assert_eq!(sys_unlinkat(&root, &mut fs, "a"), -1);
    assert!(bytes_eq(b"same", b"same"));
    assert!(!bytes_eq(b"same", b"sama"));
    assert!(!bytes_eq(b"same", b"sam"));
    assert!(bytes_eq(b"", b""));
}

#[test]
fn pid_and_priority() {
    let mut task: TaskInner<Tape> = TaskInner::new(27);
    assert_eq!(get_current_pid(&task), 27);
    assert_eq!(sys_getpid(&task), 27);
    assert_eq!(sys_set_priority(&mut task, 1), -1);
    assert_eq!(sys_set_priority(&mut task, 0), -1);
    assert_eq!(sys_set_priority(&mut task, -5), -1);
    assert_eq!(task.priority, 16);
    assert_eq!(sys_set_priority(&mut task, 2), 2);
    assert_eq!(task.priority, 2);
    assert_eq!(sys_set_priority(&mut task, 100000), 100000);
    assert_eq!(task.priority, 100000);
}

fn child(pid: usize, zombie: bool, exit_code: i32) -> ChildState {
    ChildState { pid, zombie, exit_code }
}

fn pids(task: &TaskInner<Tape>) -> Vec<usize> {
    task.children.iter().map(|c| c.pid).collect()
}

#[test]
fn waitpid_collects_the_first_exited_child() {
    let mut task: TaskInner<Tape> = TaskInner::new(1);
    assert_eq!(sys_waitpid(&mut task, -1), (-1, None));
    task.children.push(child(4, false, 0));
    task.children.push(child(5, true, -3));
    task.children.push(child(6, true, 9));
    assert_eq!(sys_waitpid(&mut task, 7), (-1, None));
    assert_eq!(sys_waitpid(&mut task, -2), (-1, None));
    assert_eq!(sys_waitpid(&mut task, 4), (-2, None));
    assert_eq!(pids(&task), vec![4, 5, 6]);
    assert_eq!(sys_waitpid(&mut task, 6), (6, Some(9)));
    assert_eq!(pids(&task), vec![4, 5]);
    assert_eq!(sys_waitpid(&mut task, -1), (5, Some(-3)));
    assert_eq!(pids(&task), vec![4]);
    assert_eq!(sys_waitpid(&mut task, -1), (-2, None));
    assert_eq!(sys_waitpid(&mut task, 5), (-1, None));
    assert!(is_waited(-1, 12));
    assert!(is_waited(12, 12));
    assert!(!is_waited(11, 12));
    assert!(!is_waited(-12, 12));
}

#[test]
fn times() {
    let t = time_val(3_000_017);
    assert_eq!((t.sec, t.usec), (3, 17));
    let t = time_val(999_999);
    assert_eq!((t.sec, t.usec), (0, 999_999));
    let mut counts = [0u32; 500];
    counts[64] = 3;
    let info = task_info(1500, 400, counts);
    assert_eq!(info.time, 1100);
    assert_eq!(info.status, TaskStatus::Running);
    assert_eq!(info.syscall_times[64], 3);
    assert_eq!(info.syscall_times[65], 0);
    assert_eq!(easy_fs::syscall::process::MAX_SYSCALL_NUM, 500);
}

#[test]
fn exec_loads_the_program() {
    let mut fs = EasyFileSystem::create(RamDisk::new(2048), 2048, 1);
    let root = fs.root_inode();
    let app = root.create(&mut fs, "initproc").unwrap();
    let image: Vec<u8> = (0..3000u32).map(|i| (i * 31 % 256) as u8).collect();
    app.write_at(&mut fs, 0, &image);
    assert_eq!(sys_exec(&root, &mut fs, "initproc"), (0, Some(image)));
    assert_eq!(sys_exec(&root, &mut fs, "missing"), (-1, None));
}

#[test]
fn mmap_permissions() {
    assert_eq!(mmap_permission(0), None);
    assert_eq!(mmap_permission(1), Some(2));
    assert_eq!(mmap_permission(2), Some(4));
    assert_eq!(mmap_permission(3), Some(6));
    assert_eq!(mmap_permission(4), None);
    assert_eq!(mmap_permission(7), None);
    assert_eq!(mmap_permission(8), None);
    assert_eq!(mmap_permission(usize::MAX), None);
    // the shift loses the highest bit
    let top = usize::MAX / 2 + 1;
    assert_eq!(mmap_permission(top), None);
    assert_eq!(mmap_permission(top + 1), Some(2));
    assert_eq!(mmap_permission(top + 3), Some(6));
    assert_eq!(mmap_permission(top + 4), None);
    for port in [0usize, 1, 2, 3, 4, 5, 9, top, top + 1, top + 2, top + 5, usize::MAX] {
        let shifted = port << 1;
        let want = if (shifted & !0x07) != 0 || (shifted & 0x07) == 0 {
            None
        } else {
            Some(shifted as u8)
        };
        assert_eq!(mmap_permission(port), want);
    }
}

#[test]
fn linkat_looks_at_the_new_name_last() {
    let mut fs = EasyFileSystem::create(RamDisk::new(2048), 2048, 1);
    let root = fs.root_inode();
    root.create(&mut fs, "a").unwrap();
    let long = "a-name-that-is-longer-than-an-entry-holds";
    assert_eq!(sys_linkat(&root, &mut fs, long, long), -1);
    assert_eq!(sys_linkat(&root, &mut fs, "missing", long), -1);
    assert_eq!(root.link(&mut fs, "missing", long), None);
    assert!(root.create(&mut fs, "a").is_none());
    assert_eq!(root.ls(&mut fs), vec!["a"]);
}
