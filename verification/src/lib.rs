//! Per-process virtual-memory-area management and the syscalls built on it:
//! a page-granular table of non-overlapping, permission-tagged regions,
//! map/unmap/program-break handling, and task-introspection data.
use vstd::prelude::*;

pub mod laws;
pub mod syscall;
pub mod task;
pub mod vma;

verus! {

/// Size of one page in bytes.
pub const PAGE_SIZE: usize = 4096;

/// Number of distinct syscall ids a task keeps invocation counters for.
pub const MAX_SYSCALL_NUM: usize = 500;

} // verus!
