//! A verified core of a small RISC-V teaching kernel: the easy file system,
//! memory management, synchronization primitives, task management and the
//! system-call decisions built on them.

pub mod apps;
pub mod drivers;
pub mod easy_fs;
pub mod fs;
pub mod mm;
pub mod sync;
pub mod syscall;
pub mod task;
pub mod timer;
pub mod trap;
