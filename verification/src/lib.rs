//! Process-and-memory core of a small teaching operating-system kernel for a
//! paged virtual-memory architecture: physical frame allocation, three-level
//! page tables, per-process address spaces, process control blocks and a
//! stride scheduler.
use vstd::prelude::*;

pub mod config;
pub mod addr;
pub mod frame_allocator;
pub mod page_table;
pub mod memory_set;
pub mod task;
pub mod manager;
pub mod kernel;
pub mod syscall;

verus! {

/// Failures surfaced by the kernel core.
///
/// Resource exhaustion is reported explicitly (there is no backing store to
/// evict to); invariant violations (double map, double release, ...) are
/// reported loudly as errors rather than silently swallowed.
#[derive(Clone, Copy, Debug, PartialEq, Eq, Structural)]
pub enum KernelError {
    /// No free physical frame is left.
    FrameExhausted,
    /// A frame was released that is not currently allocated.
    FrameNotAllocated,
    /// `map` hit a virtual page that already has a valid mapping.
    AlreadyMapped,
    /// `unmap` hit a virtual page with no valid mapping.
    NotMapped,
    /// No process identifier is left.
    PidExhausted,
    /// A process identifier was released that is not currently allocated.
    PidNotAllocated,
    /// A virtual address range clashes with an existing region.
    RegionOverlap,
    /// A region operation named a range that is not an existing region.
    NoSuchRegion,
}

} // verus!
