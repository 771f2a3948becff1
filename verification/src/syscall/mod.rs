//! The decisions of the system calls, on the state of the calling process
//! that they are handed.

pub mod fs;
pub mod process;
