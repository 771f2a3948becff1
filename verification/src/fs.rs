//! What the kernel's file descriptors refer to: the `File` capability and the
//! `Stat` record that describes an inode to a user program.

use crate::disk_inode::DiskInodeType;
use vstd::prelude::*;

verus! {

/// Mode bit of a directory.
pub const STAT_MODE_DIR: u32 = 0o040000;

/// Mode bit of a regular file.
pub const STAT_MODE_FILE: u32 = 0o100000;

/// The kind of an inode as a set of mode bits.
#[derive(Clone, Copy, Debug, PartialEq, Eq, Structural)]
pub struct StatMode {
    pub bits: u32,
}

impl StatMode {
    /// No bit set.
    pub fn null() -> (m: StatMode)
        ensures
            m.bits == 0,
    {
        StatMode { bits: 0 }
    }

    /// The mode of a directory.
    pub fn dir() -> (m: StatMode)
        ensures
            m.bits == STAT_MODE_DIR,
    {
        StatMode { bits: STAT_MODE_DIR }
    }

    /// The mode of a regular file.
    pub fn file() -> (m: StatMode)
        ensures
            m.bits == STAT_MODE_FILE,
    {
        StatMode { bits: STAT_MODE_FILE }
    }

    /// The mode bits that stand for an inode of the given kind.
    pub open spec fn spec_of(type_: DiskInodeType) -> u32 {
        match type_ {
            DiskInodeType::Directory => STAT_MODE_DIR,
            DiskInodeType::File => STAT_MODE_FILE,
        }
    }

    /// The mode that stands for an inode of the given kind.
    pub fn of(type_: DiskInodeType) -> (m: StatMode)
        ensures
            m.bits == Self::spec_of(type_),
    {
        match type_ {
            DiskInodeType::Directory => Self::dir(),
            DiskInodeType::File => Self::file(),
        }
    }

    /// The bits of the mode.
    pub fn bits(&self) -> (b: u32)
        ensures
            b == self.bits,
    {
        self.bits
    }
}

/// What `fstat` reports of an inode.
#[derive(Clone, Copy, Debug)]
pub struct Stat {
    /// The device that holds the file; always 0.
    pub dev: u64,
    /// The inode number.
    pub ino: u64,
    /// The kind of the inode.
    pub mode: StatMode,
    /// Number of names the inode has.
    pub nlink: u32,
    /// Unused.
    pub pad: [u64; 7],
}

impl Stat {
    /// The record for inode `inode` of kind `mode` with `nlink` names.
    pub fn new(inode: usize, mode: StatMode, nlink: u32) -> (st: Stat)
        ensures
            st.dev == 0,
            st.ino == inode,
            st.mode == mode,
            st.nlink == nlink,
            forall|i: int| 0 <= i < 7 ==> st.pad@[i] == 0,
    {
        Stat { dev: 0, ino: inode as u64, mode, nlink, pad: [0u64; 7] }
    }

    /// The record for what `Inode::stat` returned: the inode's number, its
    /// link count and its kind.
    pub fn of_inode(stat: (u32, u32, DiskInodeType)) -> (st: Stat)
        ensures
            st.dev == 0,
            st.ino == stat.0,
            st.mode.bits == StatMode::spec_of(stat.2),
            st.nlink == stat.1,
    {
        Stat::new(stat.0 as usize, StatMode::of(stat.2), stat.1)
    }
}

/// What a file descriptor can do. Implemented by whatever a descriptor may
/// refer to: a file of the filesystem, a pipe end, the console.
pub trait File {
    fn readable(&self) -> bool;

    fn writable(&self) -> bool;

    /// Reads into `buf` and returns the number of bytes read.
    fn read(&self, buf: &mut [u8]) -> usize;

    /// Writes `buf` and returns the number of bytes written.
    fn write(&self, buf: &[u8]) -> usize;

    /// Describes the inode behind the descriptor.
    fn stat(&self) -> Stat;
}

} // verus!
