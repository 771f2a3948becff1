//! A small block-based filesystem: a superblock, two allocation bitmaps, an
//! inode table and per-file data regions reached through direct, single- and
//! double-indirect block pointers, all accessed through a bounded write-back
//! block cache. One directory, the root, names the files; a file may have
//! several names.
//!
//! The modules, from the device up: `block_dev` and `block_cache` move
//! sectors; `codec`, `layout`, `super_block`, `bitmap`, `disk_inode` and
//! `dir_entry` give the sectors their meaning; `image`, `namespace` and
//! `steps` say what a sound image is and why the operations keep it sound;
//! `efs` and `vfs` are the filesystem and the inode handle that users hold;
//! `checked` holds the same operations for callers that cannot know the
//! filesystem's state, and `shared` puts a filesystem behind a lock. `fs`, `task` and `syscall` hold
//! the decisions of the kernel's file and process system calls.

pub mod codec;
pub mod layout;
pub mod block_dev;
pub mod block_cache;
pub mod bitmap;
pub mod disk_inode;
pub mod super_block;
pub mod dir_entry;
pub mod image;
pub mod namespace;
pub mod steps;
pub mod efs;
pub mod vfs;
pub mod checked;
pub mod shared;
pub mod fs;
pub mod task;
pub mod syscall;

pub use block_dev::BlockDevice;
pub use disk_inode::DiskInodeType;
pub use efs::EasyFileSystem;
pub use layout::BLOCK_SZ;
pub use vfs::Inode;
