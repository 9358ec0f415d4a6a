//! System calls: what each call decides and changes in the kernel's state.
//! Reading and writing files and devices, and switching threads, are left to
//! the caller, which is told what to do.

pub mod fs;
pub mod gui;
pub mod input;
pub mod process;
pub mod sync;
pub mod thread;
