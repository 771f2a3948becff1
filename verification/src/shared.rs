//! One mounted filesystem shared by several threads. The filesystem lies
//! behind a spin lock; every operation takes the lock once, for its whole
//! duration. What an operation finds behind the lock is whatever the last
//! holder left: some filesystem whose image is sound. So an operation tests
//! what it needs before it acts, and what it returns is what the operation
//! of that name in `checked` returns on the filesystem it found.

use crate::block_dev::BlockDevice;
use crate::checked::{
    cleared, created, find_result, handle_of, linked, listed, read_from, stat_result, unlinked,
    wrote,
};
use crate::disk_inode::DiskInodeType;
use crate::efs::EasyFileSystem;
use crate::vfs::Inode;
use vstd::prelude::*;
use vstd::string::StringSliceAdditionalSpecFns;

verus! {

broadcast use vstd::slice::group_slice_axioms;

/// `spin::Mutex`: a spin lock around a value. Nothing is known of the value
/// it holds.
#[verifier::external_type_specification]
#[verifier::external_body]
#[verifier::reject_recursive_types(T)]
pub struct ExMutex<T: ?Sized>(spin::Mutex<T>);

/// `spin::MutexGuard`: the lock while it is held. Nothing is known of the
/// value behind it.
#[verifier::external_type_specification]
#[verifier::external_body]
#[verifier::reject_recursive_types(T)]
pub struct ExMutexGuard<'a, T: 'a + ?Sized>(spin::MutexGuard<'a, T>);

/// What lies behind the lock: a filesystem whose image is sound, or nothing
/// while an operation has taken the filesystem out to work on it.
pub struct Mounted<D: BlockDevice> {
    fs: Option<EasyFileSystem<D>>,
}

impl<D: BlockDevice> Mounted<D> {
    #[verifier::type_invariant]
    spec fn sound(self) -> bool {
        match self.fs {
            Some(fs) => fs.wf(),
            None => true,
        }
    }
}

/// A mounted filesystem behind its lock, and the handle to its root
/// directory, which never changes.
#[verifier::reject_recursive_types(D)]
pub struct SharedFs<D: BlockDevice> {
    lock: spin::Mutex<Mounted<D>>,
    root: Inode,
}

/// `spin::Mutex::new`: a lock around `m`. Nothing is claimed of it.
#[verifier::external_body]
fn new_mutex<D: BlockDevice>(m: Mounted<D>) -> spin::Mutex<Mounted<D>> {
    spin::Mutex::new(m)
}

/// `spin::Mutex::lock`: waits until the lock is free and takes it; the
/// guard gives the lock back when it goes out of scope. Nothing is claimed of
/// what lies behind the lock. A thread that holds the lock must not take it
/// again: the operations below take it once and call nothing that does.
#[verifier::external_body]
fn acquire<'a, D: BlockDevice>(m: &'a spin::Mutex<Mounted<D>>) -> spin::MutexGuard<
    'a,
    Mounted<D>,
> {
    m.lock()
}

/// `DerefMut::deref_mut` of `spin::MutexGuard`: what lies behind the lock
/// that the guard holds. Nothing is claimed of it.
#[verifier::external_body]
fn held<'a, 'b, D: BlockDevice>(g: &'a mut spin::MutexGuard<'b, Mounted<D>>) -> &'a mut Mounted<D> {
    &mut **g
}

/// Takes the filesystem out from behind the lock, leaving nothing there.
fn take_out<D: BlockDevice>(m: &mut Mounted<D>) -> (r: Option<EasyFileSystem<D>>)
    ensures
        r == old(m).fs,
        final(m).fs is None,
        r matches Some(fs) ==> fs.wf(),
{
    let mut taken = Mounted { fs: None };
    core::mem::swap(m, &mut taken);
    proof {
        use_type_invariant(&taken);
    }
    taken.fs
}

/// Puts the filesystem back behind the lock.
fn put_back<D: BlockDevice>(m: &mut Mounted<D>, fs: EasyFileSystem<D>)
    requires
        fs.wf(),
    ensures
        final(m).fs == Some(fs),
{
    *m = Mounted { fs: Some(fs) };
}

impl<D: BlockDevice> SharedFs<D> {
    /// The handle to the root directory of the filesystem that was put
    /// behind the lock.
    pub closed spec fn root(&self) -> Inode {
        self.root
    }

    /// Puts a filesystem whose image is sound behind a new lock.
    pub fn new(fs: EasyFileSystem<D>) -> (s: Self)
        requires
            fs.wf(),
        ensures
            s.root() == handle_of(fs.geometry, 0),
    {
        let root = fs.root_inode();
        SharedFs { lock: new_mutex(Mounted { fs: Some(fs) }), root }
    }

    /// A handle to the root directory. The lock is not taken: where inode 0
    /// lies was fixed when the filesystem was made.
    pub fn root_inode(&self) -> (r: Option<Inode>)
        ensures
            r == Some(self.root()),
    {
        Some(self.root)
    }

    /// The inode that `name` resolves to in directory `dir` of the
    /// filesystem behind the lock: what `checked::find` returns on it.
    /// `None` also if nothing is behind the lock.
    pub fn find(&self, dir: &Inode, name: &str) -> (r: Option<Inode>)
        ensures
            r is None || exists|fs: EasyFileSystem<D>|
                fs.wf() && r == #[trigger] find_result(&fs, dir, name.spec_bytes()),
    {
        let mut guard = acquire(&self.lock);
        let m = held(&mut guard);
        match take_out(m) {
            Some(mut fs) => {
                let ghost pre = fs;
                let r = crate::checked::find(&mut fs, dir, name);
                put_back(m, fs);
                proof {
                    assert(pre.wf() && r == find_result(&pre, dir, name.spec_bytes()));
                }
                r
            },
            None => None,
        }
    }

    /// Makes a new file named `name` in directory `dir` of the filesystem
    /// behind the lock: what `checked::create` does on it. `None` also if
    /// nothing is behind the lock.
    pub fn create(&self, dir: &Inode, name: &str) -> (r: Option<Inode>)
        ensures
            r is None || exists|pre: EasyFileSystem<D>, post: EasyFileSystem<D>|
                pre.wf() && #[trigger] created(&pre, &post, dir, name.spec_bytes(), r),
    {
        let mut guard = acquire(&self.lock);
        let m = held(&mut guard);
        match take_out(m) {
            Some(mut fs) => {
                let ghost pre = fs;
                let r = crate::checked::create(&mut fs, dir, name);
                let ghost post = fs;
                put_back(m, fs);
                proof {
                    assert(pre.wf() && created(&pre, &post, dir, name.spec_bytes(), r));
                }
                r
            },
            None => None,
        }
    }

    /// The names in directory `dir` of the filesystem behind the lock: what
    /// `checked::ls` returns on it. None also if nothing is behind the lock.
    pub fn ls(&self, dir: &Inode) -> (v: Vec<String>)
        ensures
            v@.len() == 0 || exists|fs: EasyFileSystem<D>|
                fs.wf() && #[trigger] listed(&fs, dir, v@),
    {
        let mut guard = acquire(&self.lock);
        let m = held(&mut guard);
        match take_out(m) {
            Some(mut fs) => {
                let ghost pre = fs;
                let v = crate::checked::ls(&mut fs, dir);
                put_back(m, fs);
                proof {
                    assert(pre.wf() && listed(&pre, dir, v@));
                }
                v
            },
            None => Vec::new(),
        }
    }

    /// The number, link count and kind of `inode` in the filesystem behind
    /// the lock: what `checked::stat` returns on it. `None` also if nothing
    /// is behind the lock.
    pub fn stat(&self, inode: &Inode) -> (r: Option<(u32, u32, DiskInodeType)>)
        ensures
            r matches Some(st) ==> st.0 == inode.inode_id,
            r is None || exists|fs: EasyFileSystem<D>|
                fs.wf() && r == #[trigger] stat_result(&fs, inode),
    {
        let mut guard = acquire(&self.lock);
        let m = held(&mut guard);
        match take_out(m) {
            Some(mut fs) => {
                let ghost pre = fs;
                let r = crate::checked::stat(&mut fs, inode);
                put_back(m, fs);
                proof {
                    assert(pre.wf() && r == stat_result(&pre, inode));
                }
                r
            },
            None => None,
        }
    }

    /// Reads from `inode` at `offset` into `buf` in the filesystem behind
    /// the lock and returns the number of bytes read: what `checked::read_at`
    /// does on it. Nothing is read also if nothing is behind the lock.
    pub fn read_at(&self, inode: &Inode, offset: usize, buf: &mut [u8]) -> (n: usize)
        ensures
            n <= old(buf).len(),
            final(buf)@.len() == old(buf)@.len(),
            forall|i: int| n <= i < old(buf)@.len() ==> final(buf)@[i] == old(buf)@[i],
            (n == 0 && final(buf)@ == old(buf)@) || exists|fs: EasyFileSystem<D>|
                fs.wf() && #[trigger] read_from(
                    &fs,
                    inode,
                    offset as int,
                    old(buf)@,
                    final(buf)@,
                    n as int,
                ),
    {
        let mut guard = acquire(&self.lock);
        let m = held(&mut guard);
        match take_out(m) {
            Some(mut fs) => {
                let ghost pre = fs;
                let n = crate::checked::read_at(&mut fs, inode, offset, buf);
                put_back(m, fs);
                proof {
                    assert(pre.wf() && read_from(
                        &pre,
                        inode,
                        offset as int,
                        old(buf)@,
                        buf@,
                        n as int,
                    ));
                }
                n
            },
            None => 0,
        }
    }

    /// All the bytes of `inode` in the filesystem behind the lock: what
    /// `checked::read_all` returns on it. None also if nothing is behind the
    /// lock.
    pub fn read_all(&self, inode: &Inode) -> (v: Vec<u8>)
        ensures
            v@.len() == 0 || exists|fs: EasyFileSystem<D>|
                fs.wf() && v@ == #[trigger] crate::checked::bytes_of(&fs, inode),
    {
        let mut guard = acquire(&self.lock);
        let m = held(&mut guard);
        match take_out(m) {
            Some(mut fs) => {
                let ghost pre = fs;
                let v = crate::checked::read_all(&mut fs, inode);
                put_back(m, fs);
                proof {
                    assert(pre.wf() && v@ == crate::checked::bytes_of(&pre, inode));
                }
                v
            },
            None => Vec::new(),
        }
    }

    /// Writes `buf` to file `inode` at `offset` in the filesystem behind the
    /// lock and returns the number of bytes written, all or none: what
    /// `checked::write_at` does on it. None also if nothing is behind the
    /// lock.
    pub fn write_at(&self, inode: &Inode, offset: usize, buf: &[u8]) -> (n: usize)
        ensures
            n == 0 || n == buf.len(),
            n == 0 || exists|pre: EasyFileSystem<D>, post: EasyFileSystem<D>|
                pre.wf() && #[trigger] wrote(&pre, &post, inode, offset as int, buf@, n as int),
    {
        let mut guard = acquire(&self.lock);
        let m = held(&mut guard);
        match take_out(m) {
            Some(mut fs) => {
                let ghost pre = fs;
                let n = crate::checked::write_at(&mut fs, inode, offset, buf);
                let ghost post = fs;
                put_back(m, fs);
                proof {
                    assert(pre.wf() && wrote(&pre, &post, inode, offset as int, buf@, n as int));
                }
                n
            },
            None => 0,
        }
    }

    /// Empties file `inode` of the filesystem behind the lock: what
    /// `checked::clear` does on it. `false` also if nothing is behind the
    /// lock.
    pub fn clear(&self, inode: &Inode) -> (done: bool)
        ensures
            !done || exists|pre: EasyFileSystem<D>, post: EasyFileSystem<D>|
                pre.wf() && #[trigger] cleared(&pre, &post, inode, done),
    {
        let mut guard = acquire(&self.lock);
        let m = held(&mut guard);
        match take_out(m) {
            Some(mut fs) => {
                let ghost pre = fs;
                let done = crate::checked::clear(&mut fs, inode);
                let ghost post = fs;
                put_back(m, fs);
                proof {
                    assert(pre.wf() && cleared(&pre, &post, inode, done));
                }
                done
            },
            None => false,
        }
    }

    /// Gives the file named `old_name` in directory `dir` of the filesystem
    /// behind the lock the second name `new_name`: what `checked::link` does
    /// on it. `None` also if nothing is behind the lock.
    pub fn link(&self, dir: &Inode, old_name: &str, new_name: &str) -> (r: Option<()>)
        ensures
            r is None || exists|pre: EasyFileSystem<D>, post: EasyFileSystem<D>|
                pre.wf() && #[trigger] linked(
                    &pre,
                    &post,
                    dir,
                    old_name.spec_bytes(),
                    new_name.spec_bytes(),
                    r,
                ),
    {
        let mut guard = acquire(&self.lock);
        let m = held(&mut guard);
        match take_out(m) {
            Some(mut fs) => {
                let ghost pre = fs;
                let r = crate::checked::link(&mut fs, dir, old_name, new_name);
                let ghost post = fs;
                put_back(m, fs);
                proof {
                    assert(pre.wf() && linked(
                        &pre,
                        &post,
                        dir,
                        old_name.spec_bytes(),
                        new_name.spec_bytes(),
                        r,
                    ));
                }
                r
            },
            None => None,
        }
    }

    /// Removes the name `name` from directory `dir` of the filesystem behind
    /// the lock: what `checked::unlink` does on it. `None` also if nothing is
    /// behind the lock.
    pub fn unlink(&self, dir: &Inode, name: &str) -> (r: Option<()>)
        ensures
            r is None || exists|pre: EasyFileSystem<D>, post: EasyFileSystem<D>|
                pre.wf() && #[trigger] unlinked(&pre, &post, dir, name.spec_bytes(), r),
    {
        let mut guard = acquire(&self.lock);
        let m = held(&mut guard);
        match take_out(m) {
            Some(mut fs) => {
                let ghost pre = fs;
                let r = crate::checked::unlink(&mut fs, dir, name);
                let ghost post = fs;
                put_back(m, fs);
                proof {
                    assert(pre.wf() && unlinked(&pre, &post, dir, name.spec_bytes(), r));
                }
                r
            },
            None => None,
        }
    }
}

} // verus!
