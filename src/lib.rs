//! Process and task management core of a small teaching kernel: per-process
//! address spaces, a cooperative round-robin scheduler, the process tree and
//! the process-management system calls.
//!
//! The kernel's single task table is a [`manager::TaskManager`] value; every
//! operation takes it explicitly. What the kernel reads from outside (the
//! clock, the loader's program images, user arguments already translated to
//! kernel values) is handed in as plain values.

pub mod memory;
pub mod task;
pub mod manager;
pub mod syscall;
