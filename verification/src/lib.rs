//! Kernel logic of a small teaching operating system: a deadlock detector
//! that runs the banker's safety check, the decision logic of the process
//! system calls, and the directory logic of the file system's inode layer.

pub mod banker;
pub mod deadlock;
mod matrix;
pub mod syscall;
pub mod vfs;
