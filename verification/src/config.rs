//! Constants of the kernel core.
use vstd::prelude::*;

verus! {

/// Size of one page / frame in bytes.
pub const PAGE_SIZE: u64 = 4096;
/// log2 of the page size.
pub const PAGE_SIZE_BITS: u64 = 12;
/// Number of entries in one page-table node (one level of the radix tree).
pub const ENTRIES_PER_NODE: u64 = 512;
/// Virtual page numbers are 27 bits wide (three 9-bit indices).
pub const VPN_LIMIT: u64 = 0x800_0000;
/// Physical page numbers are 44 bits wide.
pub const PPN_LIMIT: u64 = 0x1000_0000_0000;
/// Mask selecting the physical-page-number field of a page-table entry.
pub const PPN_MASK: u64 = 0xFFF_FFFF_FFFF;
/// Highest virtual address plus one: a 39-bit virtual address space.
pub const VADDR_LIMIT: u64 = 0x80_0000_0000;
/// The page right below the top of the address space.
pub const TRAMPOLINE: u64 = VADDR_LIMIT - PAGE_SIZE;
/// Virtual base address of the page holding a task's trap context.
pub const TRAP_CONTEXT_BASE: u64 = TRAMPOLINE - PAGE_SIZE;
/// Size of one kernel stack in bytes.
pub const KERNEL_STACK_SIZE: u64 = 8192;
/// Size of one user stack in bytes.
pub const USER_STACK_SIZE: u64 = 8192;
/// Process identifiers stay below this bound so that every kernel-stack
/// position fits in the kernel address space.
pub const PID_LIMIT: u64 = 0x10000;
/// Syscall identifiers tracked by per-task accounting stay below this bound.
pub const MAX_SYSCALL_NUM: usize = 500;
/// Stride-scheduling constant: a selected task's stride advances by
/// `BIG_STRIDE / priority`.
pub const BIG_STRIDE: u64 = 0x10000000;
/// Default scheduling priority of a fresh process.
pub const DEFAULT_PRIORITY: i64 = 16;

/// write syscall number.
pub const SYSCALL_WRITE: u64 = 64;
/// exit syscall number.
pub const SYSCALL_EXIT: u64 = 93;
/// yield syscall number.
pub const SYSCALL_YIELD: u64 = 124;
/// get_time syscall number.
pub const SYSCALL_GET_TIME: u64 = 169;
/// sbrk syscall number.
pub const SYSCALL_SBRK: u64 = 214;
/// munmap syscall number.
pub const SYSCALL_MUNMAP: u64 = 215;
/// mmap syscall number.
pub const SYSCALL_MMAP: u64 = 222;
/// task_info syscall number.
pub const SYSCALL_TASK_INFO: u64 = 410;

} // verus!
