//! Process/thread control subsystem of a cooperative teaching kernel.
//!
//! The library models the kernel state (process tree, per-process address
//! space, threads, and synchronization objects) as plain data, and verifies
//! the syscall-level operations on it: memory-region management
//! (`mmap`/`munmap`/`sbrk`), process lifecycle (`fork`/`exec`/`waitpid`/
//! `exit`), and mutex/semaphore/condvar acquisition guarded by a Banker's
//! deadlock-avoidance check.

pub mod banker;
pub mod mem;
pub mod process;
pub mod sync;
pub mod sysproc;
pub mod syssync;
pub mod task;
