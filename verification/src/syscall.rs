//! The syscall layer: identifiers, per-call records, and the dispatcher
//! over the kernel context.
use vstd::prelude::*;
use crate::config::{
    SYSCALL_EXIT, SYSCALL_GET_TIME, SYSCALL_MMAP, SYSCALL_MUNMAP, SYSCALL_SBRK, SYSCALL_TASK_INFO,
    SYSCALL_WRITE, SYSCALL_YIELD,
};

verus! {

/// A record of one syscall invocation: its number and name.
#[derive(Clone, Debug)]
pub struct SyscallInfo {
    /// The syscall number.
    pub syscall_id: u64,
    /// The syscall's name, or a placeholder for an unknown number.
    pub syscall_name: &'static str,
}

impl SyscallInfo {
    /// Build the record for a syscall number.
    pub fn new(syscall_id: u64) -> (r: SyscallInfo)
        ensures
            r.syscall_id == syscall_id,
            syscall_id == SYSCALL_WRITE ==> r.syscall_name@ == "write"@,
            syscall_id == SYSCALL_EXIT ==> r.syscall_name@ == "exit"@,
            syscall_id == SYSCALL_YIELD ==> r.syscall_name@ == "yield"@,
            syscall_id == SYSCALL_GET_TIME ==> r.syscall_name@ == "get_time"@,
            syscall_id == SYSCALL_SBRK ==> r.syscall_name@ == "sbrk"@,
            syscall_id == SYSCALL_MUNMAP ==> r.syscall_name@ == "munmap"@,
            syscall_id == SYSCALL_MMAP ==> r.syscall_name@ == "mmap"@,
            syscall_id == SYSCALL_TASK_INFO ==> r.syscall_name@ == "task_info"@,
            !(syscall_id == SYSCALL_WRITE || syscall_id == SYSCALL_EXIT || syscall_id
                == SYSCALL_YIELD || syscall_id == SYSCALL_GET_TIME || syscall_id == SYSCALL_SBRK
                || syscall_id == SYSCALL_MUNMAP || syscall_id == SYSCALL_MMAP || syscall_id
                == SYSCALL_TASK_INFO) ==> r.syscall_name@ == "unknown syscall"@,
    {
        let syscall_name = match Self::get_syscall_info(syscall_id) {
            Some(n) => n,
            None => "unknown syscall",
        };
        SyscallInfo { syscall_id, syscall_name }
    }

    /// The name of a known syscall number.
    pub fn get_syscall_info(syscall_id: u64) -> (r: Option<&'static str>)
        ensures
            r is Some <==> (syscall_id == SYSCALL_WRITE || syscall_id == SYSCALL_EXIT
                || syscall_id == SYSCALL_YIELD || syscall_id == SYSCALL_GET_TIME || syscall_id
                == SYSCALL_SBRK || syscall_id == SYSCALL_MUNMAP || syscall_id == SYSCALL_MMAP
                || syscall_id == SYSCALL_TASK_INFO),
            syscall_id == SYSCALL_WRITE ==> (r matches Some(n) && n@ == "write"@),
            syscall_id == SYSCALL_EXIT ==> (r matches Some(n) && n@ == "exit"@),
            syscall_id == SYSCALL_YIELD ==> (r matches Some(n) && n@ == "yield"@),
            syscall_id == SYSCALL_GET_TIME ==> (r matches Some(n) && n@ == "get_time"@),
            syscall_id == SYSCALL_SBRK ==> (r matches Some(n) && n@ == "sbrk"@),
            syscall_id == SYSCALL_MUNMAP ==> (r matches Some(n) && n@ == "munmap"@),
            syscall_id == SYSCALL_MMAP ==> (r matches Some(n) && n@ == "mmap"@),
            syscall_id == SYSCALL_TASK_INFO ==> (r matches Some(n) && n@ == "task_info"@),
    {
        if syscall_id == SYSCALL_WRITE {
            Some("write")
        } else if syscall_id == SYSCALL_EXIT {
            Some("exit")
        } else if syscall_id == SYSCALL_YIELD {
            Some("yield")
        } else if syscall_id == SYSCALL_GET_TIME {
            Some("get_time")
        } else if syscall_id == SYSCALL_SBRK {
            Some("sbrk")
        } else if syscall_id == SYSCALL_MUNMAP {
            Some("munmap")
        } else if syscall_id == SYSCALL_MMAP {
            Some("mmap")
        } else if syscall_id == SYSCALL_TASK_INFO {
            Some("task_info")
        } else {
            None
        }
    }
}

/// A point in time: seconds and microseconds.
#[derive(Clone, Copy, Debug, PartialEq, Eq, Structural)]
pub struct TimeVal {
    /// Whole seconds.
    pub sec: u64,
    /// Microseconds below one second.
    pub usec: u64,
}

impl TimeVal {
    /// Split a microsecond count into seconds and the remainder.
    pub fn from_us(us: u64) -> (r: TimeVal)
        ensures
            r.sec == us / 1_000_000,
            r.usec == us % 1_000_000,
    {
        TimeVal { sec: us / 1_000_000, usec: us % 1_000_000 }
    }
}

/// How the dispatcher answered one syscall.
#[derive(Clone, Copy, Debug, PartialEq, Eq, Structural)]
pub enum SyscallOutcome {
    /// Completed inside the core with this return value.
    Value(i64),
    /// A pointer-carrying syscall: the caller's buffers must be translated
    /// and serviced at the edge; the core has done the accounting.
    HandleAtEdge,
}

/// Task exits with the given code: it becomes a zombie, its children are
/// handed to its own parent, and the next ready task is dispatched. In a
/// running kernel control never returns to the exiting task.
pub fn sys_exit(kernel: &mut crate::kernel::Kernel, exit_code: i32, now_us: u64) -> (r: i64)
    requires
        old(kernel).wf(),
    ensures
        final(kernel).wf(),
        r == 0,
        final(kernel).tasks@.len() == old(kernel).tasks@.len(),
        forall|pp: int|
            0 <= pp < old(kernel).tasks@.len() && old(kernel).tasks@[pp] is Some ==> (
            #[trigger] final(kernel).tasks@[pp]) is Some && final(kernel).tasks@[pp].unwrap()
                .inner.task_info.syscall_times@ == old(kernel).tasks@[pp].unwrap()
                .inner.task_info.syscall_times@ && final(kernel).tasks@[pp].unwrap()
                .inner.task_info.syscall_list@ == old(kernel).tasks@[pp].unwrap()
                .inner.task_info.syscall_list@,
        old(kernel).current matches Some(c) ==> final(kernel).tasks@[c as int].unwrap()
            .inner.task_status == crate::task::TaskStatus::Zombie && final(kernel).tasks@[c as int]
            .unwrap().inner.exit_code == exit_code,
        old(kernel).manager.ready_queue@.len() > 0 ==> final(kernel).current is Some,
{
    kernel.exit_current_and_run_next(exit_code, now_us);
    0
}

/// The current task gives up the core: it is marked ready and queued, and
/// the queued task with minimal stride runs next.
pub fn sys_yield(kernel: &mut crate::kernel::Kernel, now_us: u64) -> (r: i64)
    requires
        old(kernel).wf(),
    ensures
        final(kernel).wf(),
        r == 0,
        final(kernel).tasks@.len() == old(kernel).tasks@.len(),
        forall|pp: int|
            0 <= pp < old(kernel).tasks@.len() && old(kernel).tasks@[pp] is Some ==> (
            #[trigger] final(kernel).tasks@[pp]) is Some && final(kernel).tasks@[pp].unwrap()
                .inner.task_info.syscall_times@ == old(kernel).tasks@[pp].unwrap()
                .inner.task_info.syscall_times@ && final(kernel).tasks@[pp].unwrap()
                .inner.task_info.syscall_list@ == old(kernel).tasks@[pp].unwrap()
                .inner.task_info.syscall_list@,
        old(kernel).current is Some ==> final(kernel).current is Some,
        old(kernel).current matches Some(c) ==> (final(kernel).current matches Some(p) && (p != c
            ==> final(kernel).tasks@[c as int] is Some && final(kernel).tasks@[c as int].unwrap()
            .inner.task_status == crate::task::TaskStatus::Ready)),
{
    kernel.suspend_current_and_run_next(now_us);
    0
}

/// Map fresh memory into the current task's address space; the exact
/// validation, rejection and success behaviour is `mmap_transition`.
pub fn sys_mmap(kernel: &mut crate::kernel::Kernel, start: u64, len: u64, port: u64) -> (r: i64)
    requires
        old(kernel).wf(),
    ensures
        final(kernel).wf(),
        r == 0 || r == -1,
        old(kernel).current is None ==> r == -1 && *final(kernel) == *old(kernel),
        old(kernel).current matches Some(c) ==> final(kernel).tasks@[c as int] is Some
            && crate::task::mmap_transition(
            old(kernel).tasks@[c as int].unwrap().inner.memory_set,
            final(kernel).tasks@[c as int].unwrap().inner.memory_set,
            old(kernel).tasks@[c as int].unwrap().inner.heap_bottom,
            old(kernel).frame_allocator,
            final(kernel).frame_allocator,
            start,
            len,
            port,
            r,
        ) && final(kernel).tasks@[c as int].unwrap().inner.task_info == old(kernel).tasks@[
            c as int].unwrap().inner.task_info,
        final(kernel).tasks@.len() == old(kernel).tasks@.len(),
        old(kernel).current matches Some(c) ==> (forall|pp: int|
            0 <= pp < old(kernel).tasks@.len() && pp != c ==> final(kernel).tasks@[pp] == old(kernel).tasks@[pp]),
{
    kernel.current_task_mmap(start, len, port)
}

/// Unmap a region of the current task's address space; the exact
/// behaviour is `munmap_transition`.
pub fn sys_munmap(kernel: &mut crate::kernel::Kernel, start: u64, len: u64) -> (r: i64)
    requires
        old(kernel).wf(),
    ensures
        final(kernel).wf(),
        r == 0 || r == -1,
        old(kernel).current is None ==> r == -1 && *final(kernel) == *old(kernel),
        old(kernel).current matches Some(c) ==> final(kernel).tasks@[c as int] is Some
            && crate::task::munmap_transition(
            old(kernel).tasks@[c as int].unwrap().inner.memory_set,
            final(kernel).tasks@[c as int].unwrap().inner.memory_set,
            old(kernel).tasks@[c as int].unwrap().inner.heap_bottom,
            old(kernel).frame_allocator,
            final(kernel).frame_allocator,
            start,
            len,
            r,
        ) && final(kernel).tasks@[c as int].unwrap().inner.task_info == old(kernel).tasks@[
            c as int].unwrap().inner.task_info,
        final(kernel).tasks@.len() == old(kernel).tasks@.len(),
        old(kernel).current matches Some(c) ==> (forall|pp: int|
            0 <= pp < old(kernel).tasks@.len() && pp != c ==> final(kernel).tasks@[pp] == old(kernel).tasks@[pp]),
{
    kernel.current_task_munmap(start, len)
}

/// Move the current task's program break; the previous break on success,
/// `-1` on failure; the exact behaviour is `brk_transition`.
pub fn sys_sbrk(kernel: &mut crate::kernel::Kernel, size: i32) -> (r: i64)
    requires
        old(kernel).wf(),
    ensures
        final(kernel).wf(),
        old(kernel).current is None ==> r == -1 && *final(kernel) == *old(kernel),
        old(kernel).current matches Some(c) ==> final(kernel).tasks@[c as int] is Some
            && crate::task::brk_transition(
            old(kernel).tasks@[c as int].unwrap().inner.memory_set,
            final(kernel).tasks@[c as int].unwrap().inner.memory_set,
            old(kernel).tasks@[c as int].unwrap().inner.heap_bottom,
            old(kernel).tasks@[c as int].unwrap().inner.program_brk,
            final(kernel).tasks@[c as int].unwrap().inner.program_brk,
            old(kernel).frame_allocator,
            final(kernel).frame_allocator,
            size,
            (if r == -1 {
                None
            } else {
                Some(r as u64)
            }),
        ) && (r == -1 || r == old(kernel).tasks@[c as int].unwrap().inner.program_brk)
            && final(kernel).tasks@[c as int].unwrap().inner.task_info == old(kernel).tasks@[
            c as int].unwrap().inner.task_info,
        final(kernel).tasks@.len() == old(kernel).tasks@.len(),
        old(kernel).current matches Some(c) ==> (forall|pp: int|
            0 <= pp < old(kernel).tasks@.len() && pp != c ==> final(kernel).tasks@[pp] == old(kernel).tasks@[pp]),
{
    let r = kernel.change_program_brk(size);
    match r {
        Some(old_brk) => {
            proof {
                assert(old_brk < 0x8000_0000_0000_0000);
            }
            old_brk as i64
        },
        None => -1,
    }
}

/// The single entry point of the syscall layer: account the invocation
/// against the current task, then dispatch on the syscall number. The
/// pointer-carrying syscalls (write, get_time, task_info) are answered
/// `HandleAtEdge`: their buffers live in the caller's address space and
/// are translated and serviced outside, on top of the verified pieces.
pub fn syscall(kernel: &mut crate::kernel::Kernel, syscall_id: u64, args: [u64; 3], now_us: u64)
    -> (r: SyscallOutcome)
    requires
        old(kernel).wf(),
        syscall_id == SYSCALL_WRITE || syscall_id == SYSCALL_EXIT || syscall_id == SYSCALL_YIELD
            || syscall_id == SYSCALL_GET_TIME || syscall_id == SYSCALL_SBRK || syscall_id
            == SYSCALL_MUNMAP || syscall_id == SYSCALL_MMAP || syscall_id == SYSCALL_TASK_INFO,
    ensures
        final(kernel).wf(),
        // the invocation is accounted against the current task: its
        // counter for this number is stepped and the record appended
        old(kernel).current matches Some(c) ==> final(kernel).tasks@[c as int] is Some
            && final(kernel).tasks@[c as int].unwrap().inner.task_info.syscall_times@ == old(kernel).tasks@[c as int].unwrap().inner.task_info.syscall_times@.update(
            syscall_id as int,
            (old(kernel).tasks@[c as int].unwrap().inner.task_info.syscall_times@[
                syscall_id as int] as u32).wrapping_add(1u32),
        ) && final(kernel).tasks@[c as int].unwrap().inner.task_info.syscall_list@.len() == old(kernel).tasks@[c as int].unwrap().inner.task_info.syscall_list@.len() + 1 && final(kernel).tasks@[c as int].unwrap().inner.task_info.syscall_list@.last().syscall_id
            == syscall_id,
        // routing: the pointer-carrying numbers are handed to the edge,
        // the rest complete in the core
        (syscall_id == SYSCALL_WRITE || syscall_id == SYSCALL_GET_TIME || syscall_id
            == SYSCALL_TASK_INFO) <==> r == SyscallOutcome::HandleAtEdge,
        syscall_id == SYSCALL_EXIT ==> r == SyscallOutcome::Value(0) && (old(kernel).current
            matches Some(c) ==> final(kernel).tasks@[c as int].unwrap().inner.task_status
            == crate::task::TaskStatus::Zombie && final(kernel).tasks@[c as int].unwrap()
            .inner.exit_code == args[0] as i32),
        syscall_id == SYSCALL_YIELD ==> r == SyscallOutcome::Value(0) && (old(kernel).current
            is Some ==> final(kernel).current is Some),
        syscall_id == SYSCALL_MMAP ==> (r matches SyscallOutcome::Value(v) && (old(kernel).current matches Some(c) ==> crate::task::mmap_transition(
            old(kernel).tasks@[c as int].unwrap().inner.memory_set,
            final(kernel).tasks@[c as int].unwrap().inner.memory_set,
            old(kernel).tasks@[c as int].unwrap().inner.heap_bottom,
            old(kernel).frame_allocator,
            final(kernel).frame_allocator,
            args[0],
            args[1],
            args[2],
            v,
        ))),
        syscall_id == SYSCALL_MUNMAP ==> (r matches SyscallOutcome::Value(v) && (old(kernel).current matches Some(c) ==> crate::task::munmap_transition(
            old(kernel).tasks@[c as int].unwrap().inner.memory_set,
            final(kernel).tasks@[c as int].unwrap().inner.memory_set,
            old(kernel).tasks@[c as int].unwrap().inner.heap_bottom,
            old(kernel).frame_allocator,
            final(kernel).frame_allocator,
            args[0],
            args[1],
            v,
        ))),
        syscall_id == SYSCALL_SBRK ==> (r matches SyscallOutcome::Value(v) && (old(kernel).current matches Some(c) ==> crate::task::brk_transition(
            old(kernel).tasks@[c as int].unwrap().inner.memory_set,
            final(kernel).tasks@[c as int].unwrap().inner.memory_set,
            old(kernel).tasks@[c as int].unwrap().inner.heap_bottom,
            old(kernel).tasks@[c as int].unwrap().inner.program_brk,
            final(kernel).tasks@[c as int].unwrap().inner.program_brk,
            old(kernel).frame_allocator,
            final(kernel).frame_allocator,
            args[0] as i32,
            (if v == -1 {
                None
            } else {
                Some(v as u64)
            }),
        ))),
{
    kernel.add_current_task_syscall_times(syscall_id);
    let info = SyscallInfo::new(syscall_id);
    kernel.add_current_task_syscall_info(info);
    let a0 = args[0];
    let a1 = args[1];
    let a2 = args[2];
    if syscall_id == SYSCALL_EXIT {
        SyscallOutcome::Value(sys_exit(kernel, a0 as i32, now_us))
    } else if syscall_id == SYSCALL_YIELD {
        SyscallOutcome::Value(sys_yield(kernel, now_us))
    } else if syscall_id == SYSCALL_MMAP {
        SyscallOutcome::Value(sys_mmap(kernel, a0, a1, a2))
    } else if syscall_id == SYSCALL_MUNMAP {
        SyscallOutcome::Value(sys_munmap(kernel, a0, a1))
    } else if syscall_id == SYSCALL_SBRK {
        SyscallOutcome::Value(sys_sbrk(kernel, a0 as i32))
    } else {
        SyscallOutcome::HandleAtEdge
    }
}

/// What `task_info` reports about the current task: status, per-syscall
/// counts and elapsed time since the first dispatch.
pub struct TaskInfo {
    /// Lifecycle status of the task.
    pub status: crate::task::TaskStatus,
    /// How often each syscall number was invoked.
    pub syscall_times: Vec<u32>,
    /// Milliseconds since the task was first dispatched.
    pub time: u64,
}

} // verus!
