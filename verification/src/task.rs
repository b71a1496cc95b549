//! Process control blocks: identity, kernel stack, owned address space,
//! scheduling attributes, lifecycle status, parent/child relations and
//! per-task syscall accounting.
use vstd::prelude::*;
use crate::KernelError;
use crate::config::{
    DEFAULT_PRIORITY, KERNEL_STACK_SIZE, MAX_SYSCALL_NUM, PAGE_SIZE, PID_LIMIT, TRAMPOLINE,
    TRAP_CONTEXT_BASE, VADDR_LIMIT, VPN_LIMIT,
};
use crate::addr::{page_floor, spec_is_aligned, spec_page_ceil, spec_page_floor};
use crate::frame_allocator::StackFrameAllocator;
use crate::memory_set::{
    allocs_only_owned, area_wf, image_disjoint, image_frames_budget, image_wf, MemorySet,
    owns_delta_fresh, frees_only_owned, ProgramImage, space_frames_budget, PERM_U,
};
use crate::syscall::SyscallInfo;

verus! {

/// The allocator of process identifiers: unique, monotonically allocated,
/// reclaimed on exit. Identifiers stay below `PID_LIMIT` so that every
/// kernel stack fits below the trampoline.
pub struct PidAllocator {
    /// First identifier never yet handed out.
    pub current: u64,
    /// Reclaimed identifiers, most recent on top.
    pub recycled: Vec<u64>,
}

impl PidAllocator {
    /// Structural invariant.
    pub open spec fn wf(self) -> bool {
        &&& self.current <= PID_LIMIT
        &&& forall|i: int| 0 <= i < self.recycled@.len() ==> self.recycled@[i] < self.current
        &&& forall|i: int, j: int|
            0 <= i < j < self.recycled@.len() ==> self.recycled@[i] != self.recycled@[j]
    }

    /// An identifier counts as allocated when it is below the
    /// never-allocated range and not reclaimed.
    pub open spec fn allocated(self, pid: u64) -> bool {
        pid < self.current && !self.recycled@.contains(pid)
    }

    /// Whether a further allocation can succeed.
    pub open spec fn has_free(self) -> bool {
        self.recycled@.len() > 0 || self.current < PID_LIMIT
    }

    /// A fresh allocator; no identifier is allocated.
    pub fn new() -> (r: PidAllocator)
        ensures
            r.wf(),
            forall|p: u64| !r.allocated(p),
    {
        PidAllocator { current: 0, recycled: Vec::new() }
    }

    /// Hand out an unused identifier; `None` when all are in use.
    pub fn allocate(&mut self) -> (r: Option<u64>)
        requires
            old(self).wf(),
        ensures
            final(self).wf(),
            r is Some <==> old(self).has_free(),
            old(self).recycled@.len() > 0 ==> r == Some(old(self).recycled@.last()) && final(self).recycled@ == old(self).recycled@.drop_last() && final(self).current == old(self).current,
            old(self).recycled@.len() == 0 && old(self).current < PID_LIMIT ==> r == Some(
                old(self).current,
            ) && final(self).current == old(self).current + 1 && final(self).recycled@ == old(self).recycled@,
            r matches Some(p) ==> {
                &&& p < PID_LIMIT
                &&& !old(self).allocated(p)
                &&& final(self).allocated(p)
                &&& forall|q: u64| q != p ==> final(self).allocated(q) == old(self).allocated(q)
            },
            r is None ==> final(self).current == old(self).current && final(self).recycled@
                == old(self).recycled@,
    {
        let popped = self.recycled.pop();
        match popped {
            Some(pid) => {
                proof {
                    assert(old(self).recycled@.contains(pid));
                    assert forall|q: u64| q != pid implies self.allocated(q) == old(self).allocated(q) by {
                        if old(self).recycled@.contains(q) {
                            let i = choose|i: int|
                                0 <= i < old(self).recycled@.len() && old(self).recycled@[i] == q;
                            assert(i < old(self).recycled@.len() - 1);
                            assert(self.recycled@[i] == q);
                        } else {
                            if self.recycled@.contains(q) {
                                let i = choose|i: int|
                                    0 <= i < self.recycled@.len() && self.recycled@[i] == q;
                                assert(old(self).recycled@[i] == q);
                            }
                        }
                    }
                    if self.recycled@.contains(pid) {
                        let i = choose|i: int|
                            0 <= i < self.recycled@.len() && self.recycled@[i] == pid;
                        assert(old(self).recycled@[i] == pid);
                        assert(old(self).recycled@[old(self).recycled@.len() - 1] == pid);
                    }
                }
                Some(pid)
            },
            None => {
                if self.current == PID_LIMIT {
                    None
                } else {
                    let pid = self.current;
                    self.current = self.current + 1;
                    proof {
                        assert(!old(self).recycled@.contains(pid));
                    }
                    Some(pid)
                }
            },
        }
    }

    /// Reclaim an identifier; releasing one that is not allocated is a
    /// corruption check and is rejected.
    pub fn release(&mut self, pid: u64) -> (r: Result<(), KernelError>)
        requires
            old(self).wf(),
        ensures
            final(self).wf(),
            r is Ok <==> old(self).allocated(pid),
            r is Err ==> *final(self) == *old(self),
            r is Ok ==> {
                &&& final(self).recycled@ == old(self).recycled@.push(pid)
                &&& !final(self).allocated(pid)
                &&& forall|q: u64| q != pid ==> final(self).allocated(q) == old(self).allocated(q)
            },
    {
        if pid >= self.current {
            return Err(KernelError::PidNotAllocated);
        }
        let n = self.recycled.len();
        let mut i: usize = 0;
        while i < n
            invariant
                n == self.recycled@.len(),
                0 <= i <= n,
                self.wf(),
                forall|j: int| 0 <= j < i ==> self.recycled@[j] != pid,
                self.current == old(self).current,
                self.recycled@ == old(self).recycled@,
                pid < self.current,
            decreases n - i,
        {
            if *vstd::slice::slice_index_get(self.recycled.as_slice(), i) == pid {
                return Err(KernelError::PidNotAllocated);
            }
            i = i + 1;
        }
        proof {
            assert(!self.recycled@.contains(pid));
        }
        self.recycled.push(pid);
        proof {
            assert forall|q: u64| q != pid implies self.allocated(q) == old(self).allocated(
                q,
            ) by {
                if self.recycled@.contains(q) {
                    let k = choose|k: int|
                        0 <= k < self.recycled@.len() && self.recycled@[k] == q;
                    assert(k < self.recycled@.len() - 1);
                    assert(old(self).recycled@[k] == q);
                } else {
                    if old(self).recycled@.contains(q) {
                        let k = choose|k: int|
                            0 <= k < old(self).recycled@.len() && old(self).recycled@[k] == q;
                        assert(self.recycled@[k] == q);
                    }
                }
            }
            assert(self.recycled@[self.recycled@.len() - 1] == pid);
        }
        Ok(())
    }
}

/// No region other than the heap region (the one starting at the heap
/// bottom's page) stands in the way of growing the heap to page `ne`.
pub open spec fn heap_growth_clear(ms: MemorySet, hb: u64, ne: u64) -> bool {
    forall|ai: int|
        0 <= ai < ms.areas@.len() && (#[trigger] ms.areas@[ai]).start_vpn != spec_page_floor(hb)
            ==> (ms.areas@[ai].end_vpn <= spec_page_floor(hb) || ne <= ms.areas@[ai].start_vpn)
}

/// What `mmap` does to an address space with heap bottom `hb`: the exact
/// validation outcomes, untouched state on a rejected request, owed
/// success under a frame budget, and the mapped region on success.
pub open spec fn mmap_transition(
    ms0: MemorySet,
    ms1: MemorySet,
    hb: u64,
    fa0: StackFrameAllocator,
    fa1: StackFrameAllocator,
    start: u64,
    len: u64,
    port: u64,
    r: i64,
) -> bool {
    let s = spec_page_floor(start);
    let e = spec_page_ceil((start + len) as u64);
    let bad = !spec_is_aligned(start) || (port & 0xFFFF_FFFF_FFFF_FFF8u64) != 0 || port & 0x7
        == 0 || start >= VADDR_LIMIT || len >= (VADDR_LIMIT - start) as u64 || s
        == spec_page_floor(hb);
    &&& (r == 0 || r == -1)
    &&& bad ==> (r == -1 && ms1 == ms0 && fa1 == fa0)
    &&& (!bad && ms0.spec_overlaps(s, e)) ==> (r == -1 && ms1 == ms0 && fa1 == fa0)
    &&& (!bad && !ms0.spec_overlaps(s, e) && fa0.free_count() >= 3 * (e - s)) ==> r == 0
    &&& r == -1 ==> (forall|v: u64|
        v < VPN_LIMIT ==> ms1.page_table.is_mapped(v) == ms0.page_table.is_mapped(v))
    &&& r == 0 ==> {
        &&& !bad
        &&& !ms0.spec_overlaps(s, e)
        &&& (forall|v: u64|
            s <= v < e ==> #[trigger] ms1.page_table.is_mapped(v)
                && ms1.page_table.mapped_flags(v) == ((((port as u8) << 1u8) | PERM_U)
                | crate::page_table::FLAG_V))
        &&& (forall|v: u64|
            v < VPN_LIMIT && !(s <= v < e) ==> ms1.page_table.is_mapped(v)
                == ms0.page_table.is_mapped(v) && (ms0.page_table.is_mapped(v)
                ==> ms1.page_table.spec_translate(v) == ms0.page_table.spec_translate(v)))
        &&& ms1.areas@.len() == ms0.areas@.len() + 1
        &&& ms1.areas@[ms0.areas@.len() as int].start_vpn == s
        &&& ms1.areas@[ms0.areas@.len() as int].end_vpn == e
        &&& (forall|ai: int| 0 <= ai < ms0.areas@.len() ==> #[trigger] ms1.areas@[ai]
            == ms0.areas@[ai])
    }
}

/// What `munmap` does to an address space with heap bottom `hb`: a
/// rejected request leaves everything untouched, an exact-range region
/// below the trap-context page is always removed, and removal unmaps
/// exactly its pages.
pub open spec fn munmap_transition(
    ms0: MemorySet,
    ms1: MemorySet,
    hb: u64,
    fa0: StackFrameAllocator,
    fa1: StackFrameAllocator,
    start: u64,
    len: u64,
    r: i64,
) -> bool {
    let s = spec_page_floor(start);
    let e = spec_page_ceil((start + len) as u64);
    let bad = !spec_is_aligned(start) || start >= VADDR_LIMIT || len >= (VADDR_LIMIT
        - start) as u64 || !spec_is_aligned((start + len) as u64) || s == spec_page_floor(hb)
        || (start + len) as u64 > TRAP_CONTEXT_BASE;
    &&& (r == 0 || r == -1)
    &&& r == -1 ==> (ms1 == ms0 && fa1 == fa0)
    &&& (!bad && (exists|ai: int|
        0 <= ai < ms0.areas@.len() && (#[trigger] ms0.areas@[ai]).start_vpn == s
            && ms0.areas@[ai].end_vpn == e)) ==> r == 0
    &&& r == 0 ==> {
        &&& !bad
        &&& (exists|ai: int|
            0 <= ai < ms0.areas@.len() && (#[trigger] ms0.areas@[ai]).start_vpn == s
                && ms0.areas@[ai].end_vpn == e)
        &&& fa1.free_count() == fa0.free_count() + (e - s)
        &&& ms1.areas@.len() == ms0.areas@.len() - 1
        &&& (forall|v: u64| s <= v < e ==> !(#[trigger] ms1.page_table.is_mapped(v)))
        &&& (forall|v: u64|
            v < VPN_LIMIT && !(s <= v < e) ==> #[trigger] ms1.page_table.spec_translate(v)
                == ms0.page_table.spec_translate(v))
    }
}

/// What moving the program break by `size` does: below-bottom or
/// out-of-range requests change nothing, shrinking is always granted,
/// growth is granted whenever nothing blocks the heap and the frame
/// budget is met, and the break moves exactly on success.
pub open spec fn brk_transition(
    ms0: MemorySet,
    ms1: MemorySet,
    hb: u64,
    brk0: u64,
    brk1: u64,
    fa0: StackFrameAllocator,
    fa1: StackFrameAllocator,
    size: i32,
    r: Option<u64>,
) -> bool {
    &&& (brk0 + size < hb || brk0 + size >= TRAP_CONTEXT_BASE) ==> (r is None && ms1 == ms0
        && brk1 == brk0 && fa1 == fa0)
    &&& r is None ==> brk1 == brk0
    &&& (r matches Some(x) ==> x == brk0 && brk1 == brk0 + size)
    &&& (size <= 0 && brk0 + size >= hb) ==> r is Some
    &&& (size >= 0 && brk0 + size < TRAP_CONTEXT_BASE && heap_growth_clear(
        ms0,
        hb,
        spec_page_ceil((brk0 + size) as u64),
    ) && fa0.free_count() >= 3 * (spec_page_ceil((brk0 + size) as u64) - spec_page_ceil(brk0)))
        ==> r is Some
}

/// Rounding up to pages is monotone.
proof fn lemma_page_ceil_monotone(a: u64, b: u64)
    by (nonlinear_arith)
    requires
        a <= b,
    ensures
        spec_page_ceil(a) <= spec_page_ceil(b),
{
}

/// A value strictly below an aligned bound rounds up to at most the
/// bound's page.
proof fn lemma_page_ceil_le_floor(a: u64, b: u64)
    by (nonlinear_arith)
    requires
        a < b,
        b % PAGE_SIZE == 0,
    ensures
        spec_page_ceil(a) <= spec_page_floor(b),
{
}

/// In a copy of an address space that kept the original's regions and
/// mappings per region, the trap-context page of the original stays mapped.
proof fn lemma_copied_space_trap_mapped(src: MemorySet, dst: MemorySet)
    requires
        src.page_table.is_mapped(spec_page_floor(TRAP_CONTEXT_BASE)),
        forall|v: u64|
            v < VPN_LIMIT && #[trigger] src.page_table.is_mapped(v) ==> src.covered(v),
        forall|v: u64| dst.covered(v) == src.covered(v),
        forall|ai: int|
            0 <= ai < dst.areas@.len() ==> area_wf(#[trigger] dst.areas@[ai]),
        forall|ai: int| 0 <= ai < dst.areas@.len() ==> dst.area_maps(ai),
    ensures
        dst.page_table.is_mapped(spec_page_floor(TRAP_CONTEXT_BASE)),
{
    let tv = spec_page_floor(TRAP_CONTEXT_BASE);
    assert(tv < VPN_LIMIT);
    assert(src.covered(tv));
    assert(dst.covered(tv));
    let ai = choose|ai: int|
        0 <= ai < dst.areas@.len() && (#[trigger] dst.areas@[ai]).start_vpn <= tv
            < dst.areas@[ai].end_vpn;
    assert(dst.area_maps(ai));
    let o = tv - dst.areas@[ai].start_vpn;
    assert(crate::memory_set::page_maps(
        dst.page_table,
        (dst.areas@[ai].start_vpn + o) as u64,
        dst.areas@[ai].frames@[o as int].ppn,
        dst.areas@[ai].perm | crate::page_table::FLAG_V,
    ));
}

/// The kernel stack of a process: a fixed virtual position in the kernel
/// address space, derived from the process identifier.
pub struct KernelStack {
    /// The owning process identifier.
    pub pid: u64,
}

impl KernelStack {
    /// Highest usable address of this kernel stack.
    pub fn get_top(&self) -> (r: u64)
        requires
            self.pid < PID_LIMIT,
        ensures
            r == TRAMPOLINE - self.pid * (KERNEL_STACK_SIZE + PAGE_SIZE),
    {
        TRAMPOLINE - self.pid * (KERNEL_STACK_SIZE + PAGE_SIZE)
    }
}

/// Lifecycle states of a task. `Running -> Ready` happens only through a
/// yield or scheduler suspension; `Running -> Zombie` is terminal.
#[derive(Clone, Copy, Debug, PartialEq, Eq, Structural)]
pub enum TaskStatus {
    /// Created but not yet handed to the scheduler.
    UnInit,
    /// Ready to run, waiting in the ready queue.
    Ready,
    /// Currently running on the core.
    Running,
    /// Exited; exit code retained until reaped.
    Zombie,
}

/// Per-task accounting: first dispatch time and syscall counters.
pub struct TaskInfo {
    /// Whether the task has never been dispatched yet.
    pub is_first_time_dispatched: bool,
    /// Time of the first dispatch, in microseconds.
    pub first_dispatched_time: u64,
    /// How often each syscall number was invoked.
    pub syscall_times: Vec<u32>,
    /// Every syscall invocation, in order.
    pub syscall_list: Vec<SyscallInfo>,
}

impl TaskInfo {
    /// The counters table covers every tracked syscall number.
    pub open spec fn wf(self) -> bool {
        self.syscall_times@.len() == MAX_SYSCALL_NUM
    }

    /// Fresh accounting: never dispatched, all counters zero.
    pub fn default() -> (r: TaskInfo)
        ensures
            r.wf(),
            r.is_first_time_dispatched,
            r.first_dispatched_time == 0,
            forall|i: int| 0 <= i < MAX_SYSCALL_NUM ==> r.syscall_times@[i] == 0u32,
            r.syscall_list@.len() == 0,
    {
        let syscall_times: Vec<u32> = vec![0u32; MAX_SYSCALL_NUM];
        TaskInfo {
            is_first_time_dispatched: true,
            first_dispatched_time: 0,
            syscall_times,
            syscall_list: Vec::new(),
        }
    }

    /// On the first dispatch, record the current time and clear the flag;
    /// later dispatches change nothing.
    pub fn set_timestamp_is_first_dispatched(&mut self, now_us: u64)
        ensures
            final(self).syscall_times@ == old(self).syscall_times@,
            final(self).syscall_list@ == old(self).syscall_list@,
            !final(self).is_first_time_dispatched,
            old(self).is_first_time_dispatched ==> final(self).first_dispatched_time == now_us,
            !old(self).is_first_time_dispatched ==> *final(self) == *old(self),
            *final(self) == (TaskInfo {
                is_first_time_dispatched: final(self).is_first_time_dispatched,
                first_dispatched_time: final(self).first_dispatched_time,
                ..*old(self)
            }),
    {
        if self.is_first_time_dispatched {
            self.first_dispatched_time = now_us;
            self.is_first_time_dispatched = false;
        }
    }
}

/// The mutable part of a process control block.
pub struct TaskControlBlockInner {
    /// Physical page of the task's trap context.
    pub trap_cx_ppn: u64,
    /// Application data lies below this address.
    pub base_size: u64,
    /// Lifecycle status.
    pub task_status: TaskStatus,
    /// Scheduling priority, always at least 2.
    pub priority: i64,
    /// Accumulated stride; the scheduler picks the minimum.
    pub stride: u64,
    /// Syscall accounting.
    pub task_info: TaskInfo,
    /// The owned address space.
    pub memory_set: MemorySet,
    /// Parent process, as a lookup-only identifier; never an owning link.
    pub parent: Option<u64>,
    /// Identifiers of all child processes.
    pub children: Vec<u64>,
    /// Exit code, set when the task exits.
    pub exit_code: i32,
    /// Bottom of the heap.
    pub heap_bottom: u64,
    /// Current program break.
    pub program_brk: u64,
}

impl TaskControlBlockInner {
    /// Physical page of the trap context.
    pub fn get_trap_cx(&self) -> (r: u64)
        ensures
            r == self.trap_cx_ppn,
    {
        self.trap_cx_ppn
    }

    /// The address-space token of the owned address space.
    pub fn get_user_token(&self) -> (r: u64)
        ensures
            r == (8u64 << 60u64) | self.memory_set.page_table.root_ppn,
    {
        self.memory_set.token()
    }

    /// Current lifecycle status.
    fn get_status(&self) -> (r: TaskStatus)
        ensures
            r == self.task_status,
    {
        self.task_status
    }

    /// Whether the task has exited and awaits reaping.
    pub fn is_zombie(&self) -> (r: bool)
        ensures
            r == (self.task_status == TaskStatus::Zombie),
    {
        self.get_status() == TaskStatus::Zombie
    }
}

/// A process control block.
pub struct TaskControlBlock {
    /// The unique process identifier.
    pub pid: u64,
    /// The kernel stack tied to the identifier.
    pub kernel_stack: KernelStack,
    /// The mutable state.
    pub inner: TaskControlBlockInner,
}

impl TaskControlBlock {
    /// Well-formedness together with the frame allocator backing the
    /// address space: the heap region starts at the heap bottom, is the
    /// only region starting there, and ends exactly at the program break.
    pub open spec fn wf_with(self, fa: StackFrameAllocator) -> bool {
        &&& self.inner.memory_set.wf_with(fa)
        &&& self.inner.task_info.wf()
        &&& self.inner.priority >= 2
        &&& self.pid < PID_LIMIT
        &&& self.kernel_stack.pid == self.pid
        &&& spec_is_aligned(self.inner.heap_bottom)
        &&& 0 < self.inner.heap_bottom <= self.inner.program_brk
        &&& self.inner.program_brk < TRAP_CONTEXT_BASE
        &&& self.inner.memory_set.has_area_with_start(spec_page_floor(self.inner.heap_bottom))
        &&& self.inner.memory_set.unique_start(spec_page_floor(self.inner.heap_bottom))
        &&& self.inner.memory_set.areas@[self.inner.memory_set.area_with_start(
            spec_page_floor(self.inner.heap_bottom),
        )].end_vpn == spec_page_ceil(self.inner.program_brk)
        &&& self.inner.memory_set.page_table.is_mapped(spec_page_floor(TRAP_CONTEXT_BASE))
    }

    /// Every physical page the process owns.
    pub open spec fn owns(self, q: u64) -> bool {
        self.inner.memory_set.owns(q)
    }

    /// Exclusive access to the mutable state.
    pub fn inner_exclusive_access(&mut self) -> (r: &mut TaskControlBlockInner)
        ensures
            *r == old(self).inner,
            final(self).inner == *final(r),
            final(self).pid == old(self).pid,
            final(self).kernel_stack == old(self).kernel_stack,
    {
        &mut self.inner
    }

    /// The address-space token of the owned address space.
    pub fn get_user_token(&self) -> (r: u64)
        ensures
            r == (8u64 << 60u64) | self.inner.memory_set.page_table.root_ppn,
    {
        self.inner.get_user_token()
    }

    /// The process identifier.
    pub fn getpid(&self) -> (r: u64)
        ensures
            r == self.pid,
    {
        self.pid
    }

    /// Create a fresh process from an executable image: new address space,
    /// new identifier and kernel stack, status `Ready`, default priority,
    /// stride zero, the program break at the initial stack top.
    pub fn new(
        image: &ProgramImage,
        fa: &mut StackFrameAllocator,
        pa: &mut PidAllocator,
    ) -> (r: Result<TaskControlBlock, KernelError>)
        requires
            old(fa).wf(),
            old(pa).wf(),
            image_wf(*image),
        ensures
            final(fa).wf(),
            final(fa).end == old(fa).end,
            final(pa).wf(),
            forall|q: u64| old(fa).allocated(q) ==> final(fa).allocated(q),
            r is Err ==> final(pa).current == old(pa).current && final(pa).recycled@ == old(pa).recycled@,
            image_disjoint(*image) && old(pa).has_free() && old(fa).free_count()
                >= image_frames_budget(*image) ==> r is Ok,
            r matches Ok(t) ==> {
                &&& t.wf_with(*final(fa))
                &&& allocs_only_owned(t.inner.memory_set, *old(fa), *final(fa))
                &&& (forall|q: u64| #[trigger] t.owns(q) ==> !old(fa).allocated(q))
                &&& !old(pa).allocated(t.pid)
                &&& final(pa).allocated(t.pid)
                &&& forall|p: u64| p != t.pid ==> final(pa).allocated(p) == old(pa).allocated(p)
                &&& t.inner.task_status == TaskStatus::Ready
                &&& t.inner.priority == DEFAULT_PRIORITY
                &&& t.inner.stride == 0
                &&& t.inner.parent is None
                &&& t.inner.children@.len() == 0
                &&& t.inner.exit_code == 0
                &&& t.inner.heap_bottom == t.inner.program_brk
                &&& t.inner.base_size == t.inner.program_brk
            },
    {
        let (memory_set, user_sp) = match MemorySet::from_image(image, fa) {
            Ok(p) => p,
            Err(e) => {
                return Err(e);
            },
        };
        let trap_cx_ppn = match memory_set.translate(page_floor(TRAP_CONTEXT_BASE)) {
            Some(e) => e.ppn(),
            None => {
                unreached()
            },
        };
        let pid = match pa.allocate() {
            Some(p) => p,
            None => {
                crate::memory_set::release_fresh_space(memory_set, fa, Ghost(*old(fa)));
                return Err(KernelError::PidExhausted);
            },
        };
        let task = TaskControlBlock {
            pid,
            kernel_stack: KernelStack { pid },
            inner: TaskControlBlockInner {
                trap_cx_ppn,
                base_size: user_sp,
                task_status: TaskStatus::Ready,
                priority: DEFAULT_PRIORITY,
                stride: 0,
                task_info: TaskInfo::default(),
                memory_set,
                parent: None,
                children: Vec::new(),
                exit_code: 0,
                heap_bottom: user_sp,
                program_brk: user_sp,
            },
        };
        Ok(task)
    }

    /// Replace the address space with one built from a new image, keeping
    /// identity and kernel stack: the old space's frames are released
    /// exactly once, the break returns to the new initial stack top.
    pub fn exec(&mut self, image: &ProgramImage, fa: &mut StackFrameAllocator) -> (r: Result<
        (),
        KernelError,
    >)
        requires
            old(self).wf_with(*old(fa)),
            image_wf(*image),
        ensures
            final(fa).wf(),
            final(fa).end == old(fa).end,
            final(self).pid == old(self).pid,
            final(self).kernel_stack == old(self).kernel_stack,
            r is Err ==> final(self).inner.memory_set == old(self).inner.memory_set && (forall|
                q: u64,
            | old(fa).allocated(q) ==> final(fa).allocated(q)) && final(self).wf_with(*final(fa)),
            image_disjoint(*image) && old(fa).free_count() >= image_frames_budget(*image)
                ==> r is Ok,
            r is Ok ==> {
                &&& final(self).wf_with(*final(fa))
                &&& (forall|q: u64|
                    #[trigger] old(self).owns(q) ==> !final(fa).allocated(q))
                &&& (forall|q: u64| #[trigger] final(self).owns(q) ==> !old(fa).allocated(q))
                &&& (forall|q: u64|
                    old(fa).allocated(q) && !final(fa).allocated(q) ==> old(self).owns(q))
                &&& (forall|q: u64|
                    !old(fa).allocated(q) && final(fa).allocated(q) ==> final(self).owns(q))
                &&& final(self).inner.task_status == old(self).inner.task_status
                &&& final(self).inner.priority == old(self).inner.priority
                &&& final(self).inner.stride == old(self).inner.stride
                &&& final(self).inner.parent == old(self).inner.parent
                &&& final(self).inner.children@ == old(self).inner.children@
                &&& final(self).inner.exit_code == old(self).inner.exit_code
                &&& final(self).inner.base_size == final(self).inner.program_brk
                &&& final(self).inner.heap_bottom == final(self).inner.program_brk
            },
    {
        let (memory_set, user_sp) = match MemorySet::from_image(image, fa) {
            Ok(p) => p,
            Err(e) => {
                proof {
                    self.inner.memory_set.lemma_wf_alloc_monotone(*old(fa), *fa);
                }
                return Err(e);
            },
        };
        let trap_cx_ppn = match memory_set.translate(page_floor(TRAP_CONTEXT_BASE)) {
            Some(e) => e.ppn(),
            None => {
                unreached()
            },
        };
        let ghost fa_mid = *fa;
        let ghost g0 = *old(self);
        proof {
            assert(forall|q: u64| old(fa).allocated(q) ==> #[trigger] fa_mid.allocated(q));
        }
        let mut old_ms = memory_set;
        core::mem::swap(&mut old_ms, &mut self.inner.memory_set);
        proof {
            old_ms.lemma_wf_alloc_monotone(*old(fa), fa_mid);
        }
        let ghost gold_ms = old_ms;
        proof {
            assert forall|q: u64| #[trigger] gold_ms.owns(q) implies old(fa).allocated(q) by {
                if gold_ms.page_table.owns_frame(q) {
                    let j = choose|j: int|
                        0 <= j < gold_ms.page_table.nodes@.len() && gold_ms.page_table.node_ppn(j)
                            == q;
                } else {
                    let (ai, o) = choose|ai: int, o: int|
                        0 <= ai < gold_ms.areas@.len() && 0 <= o < gold_ms.areas@[ai].frames@.len()
                            && #[trigger] gold_ms.frame_ppn(ai, o) == q;
                }
            }
        }
        old_ms.release(fa);
        proof {
            // the fresh space owns nothing the old one did, so its frames
            // survive the release
            assert forall|q: u64|
                fa_mid.allocated(q) && !fa.allocated(q) implies !self.inner.memory_set.owns(
                q,
            ) by {
                assert(gold_ms.owns(q));
                assert(old(fa).allocated(q));
                if self.inner.memory_set.owns(q) {
                    assert(!old(fa).allocated(q));
                }
            }
            self.inner.memory_set.lemma_wf_alloc_shrink(fa_mid, *fa);
            assert(forall|q: u64|
                #![trigger fa.allocated(q)]
                fa.allocated(q) == (fa_mid.allocated(q) && !gold_ms.owns(q)));
        }
        self.inner.trap_cx_ppn = trap_cx_ppn;
        self.inner.base_size = user_sp;
        self.inner.heap_bottom = user_sp;
        self.inner.program_brk = user_sp;
        proof {
            assert forall|q: u64|
                old(fa).allocated(q) && !fa.allocated(q) implies g0.owns(q) by {
                assert(fa_mid.allocated(q));
                assert(gold_ms.owns(q));
                assert(g0.inner.memory_set == gold_ms);
            }
            assert forall|q: u64|
                !old(fa).allocated(q) && fa.allocated(q) implies self.owns(q) by {
                assert(fa.allocated(q) == (fa_mid.allocated(q) && !gold_ms.owns(q)));
                assert(fa_mid.allocated(q));
                assert(self.inner.memory_set.owns(q));
            }
        }
        Ok(())
    }

    /// Duplicate this process: an independently mutable, content-identical
    /// copy of the address space, a fresh identifier and kernel stack,
    /// inherited priority, stride reset to zero, and the child recorded in
    /// this process's children with its parent reference set back here.
    pub fn fork(
        &mut self,
        fa: &mut StackFrameAllocator,
        pa: &mut PidAllocator,
    ) -> (r: Result<TaskControlBlock, KernelError>)
        requires
            old(self).wf_with(*old(fa)),
            old(pa).wf(),
        ensures
            final(fa).wf(),
            final(fa).end == old(fa).end,
            final(pa).wf(),
            forall|q: u64| old(fa).allocated(q) ==> final(fa).allocated(q),
            final(self).wf_with(*final(fa)),
            final(self).pid == old(self).pid,
            final(self).inner.memory_set == old(self).inner.memory_set,
            final(self).inner.task_status == old(self).inner.task_status,
            r is Err ==> final(self).inner.children@ == old(self).inner.children@ && final(pa).current == old(pa).current && final(pa).recycled@ == old(pa).recycled@,
            old(pa).has_free() && old(fa).free_count() >= space_frames_budget(
                old(self).inner.memory_set,
            ) ==> r is Ok,
            r matches Ok(c) ==> {
                &&& c.wf_with(*final(fa))
                &&& (forall|q: u64| #[trigger] c.owns(q) ==> !old(fa).allocated(q))
                &&& (forall|q: u64|
                    !old(fa).allocated(q) && final(fa).allocated(q) ==> c.owns(q))
                &&& !old(pa).allocated(c.pid)
                &&& final(pa).allocated(c.pid)
                &&& (forall|p: u64| p != c.pid ==> final(pa).allocated(p) == old(pa).allocated(p))
                &&& c.inner.parent == Some(old(self).pid)
                &&& c.inner.children@.len() == 0
                &&& c.inner.task_status == TaskStatus::Ready
                &&& c.inner.priority == old(self).inner.priority
                &&& c.inner.stride == 0
                &&& c.inner.exit_code == 0
                &&& c.inner.heap_bottom == old(self).inner.heap_bottom
                &&& c.inner.program_brk == old(self).inner.program_brk
                &&& c.inner.base_size == old(self).inner.base_size
                &&& final(self).inner.children@ == old(self).inner.children@.push(c.pid)
                &&& c.inner.memory_set.areas@.len() == old(self).inner.memory_set.areas@.len()
                &&& (forall|ai: int|
                    0 <= ai < old(self).inner.memory_set.areas@.len() ==> (
                    #[trigger] c.inner.memory_set.areas@[ai]).start_vpn == old(self).inner.memory_set.areas@[ai].start_vpn && c.inner.memory_set.areas@[ai].end_vpn
                        == old(self).inner.memory_set.areas@[ai].end_vpn
                        && c.inner.memory_set.areas@[ai].perm == old(self).inner.memory_set.areas@[ai].perm)
                &&& (forall|ai: int, o: int|
                    0 <= ai < old(self).inner.memory_set.areas@.len() && 0 <= o < old(self).inner.memory_set.areas@[ai].frames@.len() ==> (
                    #[trigger] c.inner.memory_set.areas@[ai].frames@[o]).bytes@ == old(self).inner.memory_set.areas@[ai].frames@[o].bytes@)
            },
    {
        let ghost g0 = *old(self);
        let memory_set = match MemorySet::from_existed_user(&self.inner.memory_set, fa) {
            Ok(ms) => ms,
            Err(e) => {
                proof {
                    self.inner.memory_set.lemma_wf_alloc_monotone(*old(fa), *fa);
                }
                return Err(e);
            },
        };
        proof {
            lemma_copied_space_trap_mapped(old(self).inner.memory_set, memory_set);
        }
        let trap_cx_ppn = match memory_set.translate(page_floor(TRAP_CONTEXT_BASE)) {
            Some(e) => e.ppn(),
            None => {
                unreached()
            },
        };
        let pid = match pa.allocate() {
            Some(p) => p,
            None => {
                crate::memory_set::release_fresh_space(memory_set, fa, Ghost(*old(fa)));
                proof {
                    self.inner.memory_set.lemma_wf_alloc_monotone(*old(fa), *fa);
                }
                return Err(KernelError::PidExhausted);
            },
        };
        let priority = self.inner.priority;
        let base_size = self.inner.base_size;
        let heap_bottom = self.inner.heap_bottom;
        let program_brk = self.inner.program_brk;
        let child = TaskControlBlock {
            pid,
            kernel_stack: KernelStack { pid },
            inner: TaskControlBlockInner {
                trap_cx_ppn,
                base_size,
                task_status: TaskStatus::Ready,
                priority,
                stride: 0,
                task_info: TaskInfo::default(),
                memory_set,
                parent: Some(self.pid),
                children: Vec::new(),
                exit_code: 0,
                heap_bottom,
                program_brk,
            },
        };
        self.inner.children.push(pid);
        proof {
            self.inner.memory_set.lemma_wf_alloc_monotone(*old(fa), *fa);
            // the copy carries the heap region over unchanged
            let hb = spec_page_floor(g0.inner.heap_bottom);
            let cms = child.inner.memory_set;
            let pms = g0.inner.memory_set;
            assert(cms.has_area_with_start(hb)) by {
                let hi = pms.area_with_start(hb);
                assert(pms.areas@[hi].start_vpn == hb);
                assert(cms.areas@[hi].start_vpn == hb);
            }
            assert(cms.unique_start(hb)) by {
                assert forall|ai: int, bi: int|
                    #![trigger cms.areas@[ai], cms.areas@[bi]]
                    0 <= ai < cms.areas@.len() && 0 <= bi < cms.areas@.len()
                        && cms.areas@[ai].start_vpn == hb && cms.areas@[bi].start_vpn == hb
                    implies ai == bi by {
                    assert(pms.areas@[ai].start_vpn == hb);
                    assert(pms.areas@[bi].start_vpn == hb);
                    assert(pms.areas@[ai] == pms.areas@[ai]);
                }
            }
            assert(cms.areas@[cms.area_with_start(hb)].end_vpn == spec_page_ceil(
                g0.inner.program_brk,
            )) by {
                let ci = cms.area_with_start(hb);
                assert(cms.areas@[ci].start_vpn == hb);
                assert(pms.areas@[ci].start_vpn == hb);
                let pi = pms.area_with_start(hb);
                assert(pms.areas@[pi].start_vpn == hb);
                assert(ci == pi);
                assert(cms.areas@[ci].end_vpn == pms.areas@[pi].end_vpn);
            }
        }
        Ok(child)
    }

    /// Create a brand-new process from an image and attach it as a child,
    /// without duplicating this address space.
    pub fn spawn(
        &mut self,
        image: &ProgramImage,
        fa: &mut StackFrameAllocator,
        pa: &mut PidAllocator,
    ) -> (r: Result<TaskControlBlock, KernelError>)
        requires
            old(self).wf_with(*old(fa)),
            old(pa).wf(),
            image_wf(*image),
        ensures
            final(fa).wf(),
            final(fa).end == old(fa).end,
            final(pa).wf(),
            forall|q: u64| old(fa).allocated(q) ==> final(fa).allocated(q),
            final(self).wf_with(*final(fa)),
            final(self).pid == old(self).pid,
            final(self).inner.memory_set == old(self).inner.memory_set,
            r is Err ==> final(self).inner.children@ == old(self).inner.children@,
            image_disjoint(*image) && old(pa).has_free() && old(fa).free_count()
                >= image_frames_budget(*image) ==> r is Ok,
            r matches Ok(c) ==> {
                &&& c.wf_with(*final(fa))
                &&& (forall|q: u64| #[trigger] c.owns(q) ==> !old(fa).allocated(q))
                &&& (forall|q: u64|
                    !old(fa).allocated(q) && final(fa).allocated(q) ==> c.owns(q))
                &&& !old(pa).allocated(c.pid)
                &&& final(pa).allocated(c.pid)
                &&& (forall|p: u64| p != c.pid ==> final(pa).allocated(p) == old(pa).allocated(p))
                &&& c.inner.parent == Some(old(self).pid)
                &&& c.inner.task_status == TaskStatus::Ready
                &&& c.inner.stride == 0
                &&& final(self).inner.children@ == old(self).inner.children@.push(c.pid)
            },
    {
        let mut new_task = match TaskControlBlock::new(image, fa, pa) {
            Ok(t) => t,
            Err(e) => {
                proof {
                    self.inner.memory_set.lemma_wf_alloc_monotone(*old(fa), *fa);
                }
                return Err(e);
            },
        };
        let ghost gret = new_task;
        new_task.inner.parent = Some(self.pid);
        self.inner.children.push(new_task.pid);
        proof {
            self.inner.memory_set.lemma_wf_alloc_monotone(*old(fa), *fa);
            assert(new_task.inner.memory_set == gret.inner.memory_set);
            assert forall|q: u64| #[trigger] new_task.owns(q) implies !old(fa).allocated(
                q,
            ) by {
                assert(gret.owns(q));
            }
            assert forall|q: u64|
                !old(fa).allocated(q) && #[trigger] fa.allocated(q) implies new_task.owns(
                q,
            ) by {
                assert(gret.inner.memory_set.owns(q));
            }
        }
        Ok(new_task)
    }

    /// Move the program break by `size` bytes, growing or shrinking the
    /// heap region. Returns the previous break on success; a request that
    /// would move the break below the heap bottom fails and changes
    /// nothing, as does one the region operations reject.
    pub fn change_program_brk(&mut self, size: i32, fa: &mut StackFrameAllocator) -> (r: Option<
        u64,
    >)
        requires
            old(self).wf_with(*old(fa)),
        ensures
            final(self).wf_with(*final(fa)),
            final(fa).end == old(fa).end,
            final(self).pid == old(self).pid,
            final(self).kernel_stack == old(self).kernel_stack,
            final(self).inner.task_status == old(self).inner.task_status,
            final(self).inner.priority == old(self).inner.priority,
            final(self).inner.stride == old(self).inner.stride,
            final(self).inner.parent == old(self).inner.parent,
            final(self).inner.children@ == old(self).inner.children@,
            final(self).inner.heap_bottom == old(self).inner.heap_bottom,
            final(self).inner.task_info == old(self).inner.task_info,
            final(self).inner.parent == old(self).inner.parent,
            final(self).inner.children@ == old(self).inner.children@,
            final(self).inner.exit_code == old(self).inner.exit_code,
            final(self).inner.base_size == old(self).inner.base_size,
            final(self).inner.trap_cx_ppn == old(self).inner.trap_cx_ppn,
            owns_delta_fresh(
                old(self).inner.memory_set,
                final(self).inner.memory_set,
                *old(fa),
            ),
            frees_only_owned(old(self).inner.memory_set, *old(fa), *final(fa)),
            allocs_only_owned(final(self).inner.memory_set, *old(fa), *final(fa)),
            brk_transition(
                old(self).inner.memory_set,
                final(self).inner.memory_set,
                old(self).inner.heap_bottom,
                old(self).inner.program_brk,
                final(self).inner.program_brk,
                *old(fa),
                *final(fa),
                size,
                r,
            ),
            old(self).inner.program_brk + size < old(self).inner.heap_bottom ==> r is None,
            r is None ==> final(self).inner.program_brk == old(self).inner.program_brk,
            r matches Some(x) ==> {
                &&& x == old(self).inner.program_brk
                &&& final(self).inner.program_brk == old(self).inner.program_brk + size
            },
            (size <= 0 && old(self).inner.program_brk + size >= old(self).inner.heap_bottom)
                ==> r is Some,
    {
        let heap_bottom = self.inner.heap_bottom;
        let old_break = self.inner.program_brk;
        let new_brk_i: i64 = old_break as i64 + size as i64;
        if new_brk_i < heap_bottom as i64 {
            return None;
        }
        if new_brk_i >= TRAP_CONTEXT_BASE as i64 {
            return None;
        }
        let new_brk = new_brk_i as u64;
        let ghost g0 = *old(self);
        let ghost hb = spec_page_floor(heap_bottom);
        proof {
            if new_brk <= old_break {
                lemma_page_ceil_monotone(new_brk, old_break);
            } else {
                lemma_page_ceil_monotone(old_break, new_brk);
            }
        }
        let grown: bool = if size < 0 {
            self.inner.memory_set.shrink_to(heap_bottom, new_brk, fa)
        } else {
            self.inner.memory_set.append_to(heap_bottom, new_brk, fa)
        };
        if grown {
            proof {
                let pms = g0.inner.memory_set;
                let cms = self.inner.memory_set;
                let hi = pms.area_with_start(hb);
                assert(pms.areas@[hi].start_vpn == hb);
                assert(pms.areas@[hi].start_vpn == hb);
                assert(cms.areas@[hi].start_vpn == hb);
                assert(cms.has_area_with_start(hb));
                assert forall|ai: int, bi: int|
                    #![trigger cms.areas@[ai], cms.areas@[bi]]
                    0 <= ai < cms.areas@.len() && 0 <= bi < cms.areas@.len()
                        && cms.areas@[ai].start_vpn == hb && cms.areas@[bi].start_vpn == hb
                    implies ai == bi by {
                    assert(cms.areas@.len() == pms.areas@.len());
                    assert(pms.areas@[ai].start_vpn == hb) by {
                        if ai != hi {
                            assert(cms.areas@[ai] == pms.areas@[ai]);
                        }
                    }
                    assert(pms.areas@[bi].start_vpn == hb) by {
                        if bi != hi {
                            assert(cms.areas@[bi] == pms.areas@[bi]);
                        }
                    }
                }
                assert(cms.unique_start(hb));
                assert(cms.area_with_start(hb) == hi) by {
                    let c = cms.area_with_start(hb);
                    assert(cms.areas@[c].start_vpn == hb);
                }
                assert(cms.areas@[hi].end_vpn == spec_page_ceil(new_brk));
                // the trap-context page lies above the heap span and keeps
                // its mapping
                let tv = spec_page_floor(TRAP_CONTEXT_BASE);
                let e0 = pms.areas@[hi].end_vpn;
                let ne = spec_page_ceil(new_brk);
                assert(e0 <= tv) by {
                    lemma_page_ceil_le_floor(g0.inner.program_brk, TRAP_CONTEXT_BASE);
                }
                assert(ne <= tv) by {
                    lemma_page_ceil_le_floor(new_brk, TRAP_CONTEXT_BASE);
                }
                assert(cms.page_table.is_mapped(tv)) by {
                    assert(tv < VPN_LIMIT);
                }
            }
            self.inner.program_brk = new_brk;
            Some(old_break)
        } else {
            proof {
                let pms = g0.inner.memory_set;
                let hi = pms.area_with_start(hb);
                assert(pms.areas@[hi].start_vpn == hb);
                if size < 0 {
                    assert(pms.has_area_with_start(hb));
                    assert(spec_page_ceil(new_brk) <= spec_page_ceil(g0.inner.program_brk));
                    assert(false);
                } else {
                    // growth is owed whenever no other region blocks the
                    // heap and the frame budget is met
                    let ne = spec_page_ceil(new_brk);
                    if heap_growth_clear(pms, g0.inner.heap_bottom, ne)
                        && old(fa).free_count() >= 3 * (ne - spec_page_ceil(
                        g0.inner.program_brk,
                    )) {
                        assert(pms.areas@[hi].end_vpn == spec_page_ceil(g0.inner.program_brk));
                        assert(spec_page_ceil(g0.inner.program_brk) <= ne);
                        assert forall|bi: int|
                            0 <= bi < pms.areas@.len() && bi != hi implies ((
                        #[trigger] pms.areas@[bi]).end_vpn <= hb || ne
                            <= pms.areas@[bi].start_vpn) by {
                            assert(pms.areas@[bi].start_vpn != hb);
                        }
                        assert(false);
                    }
                }
            }
            None
        }
    }

    /// `mmap`: map the page range of `[start, start + len)` with fresh
    /// zero-filled frames. Rejected with `-1` when `start` is not
    /// page-aligned, when `port` has no permission bit or any bit outside
    /// read/write/execute, when the range is out of bounds, when it
    /// overlaps an existing region, or on frame exhaustion; `0` on
    /// success. A range starting exactly at the heap region's start page
    /// is also rejected: the program-break operations identify the heap
    /// region by that page, and a second region starting there (possible
    /// only while the heap is empty) would make the break's target
    /// ambiguous.
    #[verifier::rlimit(100)]
    #[verifier::spinoff_prover]
    pub fn alloc_memory(&mut self, start: u64, len: u64, port: u64, fa: &mut StackFrameAllocator)
        -> (r: i64)
        requires
            old(self).wf_with(*old(fa)),
        ensures
            final(self).wf_with(*final(fa)),
            final(fa).end == old(fa).end,
            final(self).pid == old(self).pid,
            final(self).kernel_stack == old(self).kernel_stack,
            final(self).inner.task_status == old(self).inner.task_status,
            final(self).inner.priority == old(self).inner.priority,
            final(self).inner.stride == old(self).inner.stride,
            final(self).inner.program_brk == old(self).inner.program_brk,
            final(self).inner.heap_bottom == old(self).inner.heap_bottom,
            final(self).inner.task_info == old(self).inner.task_info,
            final(self).inner.parent == old(self).inner.parent,
            final(self).inner.children@ == old(self).inner.children@,
            final(self).inner.exit_code == old(self).inner.exit_code,
            final(self).inner.base_size == old(self).inner.base_size,
            final(self).inner.trap_cx_ppn == old(self).inner.trap_cx_ppn,
            owns_delta_fresh(
                old(self).inner.memory_set,
                final(self).inner.memory_set,
                *old(fa),
            ),
            frees_only_owned(old(self).inner.memory_set, *old(fa), *final(fa)),
            allocs_only_owned(final(self).inner.memory_set, *old(fa), *final(fa)),
            mmap_transition(
                old(self).inner.memory_set,
                final(self).inner.memory_set,
                old(self).inner.heap_bottom,
                *old(fa),
                *final(fa),
                start,
                len,
                port,
                r,
            ),
            r == 0 || r == -1,
            !spec_is_aligned(start) ==> r == -1,
            (port & 0xFFFF_FFFF_FFFF_FFF8u64 != 0 || port & 0x7 == 0) ==> r == -1,
            old(self).inner.memory_set.spec_overlaps(
                spec_page_floor(start),
                spec_page_ceil((start + len) as u64),
            ) && start + len < VADDR_LIMIT ==> r == -1,
            r == -1 ==> (forall|v: u64|
                v < VPN_LIMIT ==> final(self).inner.memory_set.page_table.is_mapped(v) == old(self).inner.memory_set.page_table.is_mapped(v)),
            r == 0 ==> {
                &&& spec_is_aligned(start)
                &&& port & 0xFFFF_FFFF_FFFF_FFF8u64 == 0 && port & 0x7 != 0
                &&& start + len < VADDR_LIMIT
                &&& !old(self).inner.memory_set.spec_overlaps(
                    spec_page_floor(start),
                    spec_page_ceil((start + len) as u64),
                )
                &&& forall|v: u64|
                    spec_page_floor(start) <= v < spec_page_ceil((start + len) as u64)
                        ==> #[trigger] final(self).inner.memory_set.page_table.is_mapped(v)
                            && final(self).inner.memory_set.page_table.mapped_flags(v) == ((((
                        port as u8) << 1u8) | PERM_U) | crate::page_table::FLAG_V)
            },
    {
        if start % PAGE_SIZE != 0 {
            return -1;
        }
        if port & 0xFFFF_FFFF_FFFF_FFF8u64 != 0 || port & 0x7 == 0 {
            return -1;
        }
        if start >= VADDR_LIMIT || len >= VADDR_LIMIT - start {
            return -1;
        }
        let end = start + len;
        let s = page_floor(start);
        if s == page_floor(self.inner.heap_bottom) {
            return -1;
        }
        if self.inner.memory_set.is_allocated(start, end) {
            return -1;
        }
        let perm = ((port as u8) << 1u8) | PERM_U;
        let ghost g0 = *old(self);
        let ghost hb = spec_page_floor(g0.inner.heap_bottom);
        let res = self.inner.memory_set.insert_framed_area(start, end, perm, fa);
        match res {
            Ok(()) => {
                proof {
                    let pms = g0.inner.memory_set;
                    let cms = self.inner.memory_set;
                    let w = pms.areas@.len() as int;
                    let hi = pms.area_with_start(hb);
                    assert(pms.areas@[hi].start_vpn == hb);
                    assert(cms.areas@[hi] == pms.areas@[hi]);
                    assert(cms.has_area_with_start(hb));
                    assert forall|ai: int, bi: int|
                        #![trigger cms.areas@[ai], cms.areas@[bi]]
                        0 <= ai < cms.areas@.len() && 0 <= bi < cms.areas@.len()
                            && cms.areas@[ai].start_vpn == hb && cms.areas@[bi].start_vpn == hb
                        implies ai == bi by {
                        assert(ai < w) by {
                            if ai == w {
                                assert(cms.areas@[w].start_vpn == spec_page_floor(start));
                            }
                        }
                        assert(bi < w) by {
                            if bi == w {
                                assert(cms.areas@[w].start_vpn == spec_page_floor(start));
                            }
                        }
                        assert(pms.areas@[ai].start_vpn == hb);
                        assert(pms.areas@[bi].start_vpn == hb);
                    }
                    assert(cms.unique_start(hb));
                    assert(cms.area_with_start(hb) == hi) by {
                        let c = cms.area_with_start(hb);
                        assert(cms.areas@[c].start_vpn == hb);
                    }
                    // the trap page is outside the fresh range, else the
                    // region holding it would have clashed
                    let tv = spec_page_floor(TRAP_CONTEXT_BASE);
                    assert(cms.page_table.is_mapped(tv)) by {
                        assert(tv < VPN_LIMIT);
                        assert(pms.page_table.is_mapped(tv));
                        if spec_page_floor(start) <= tv < spec_page_ceil(end) {
                            assert(pms.covered(tv));
                            let bi = choose|bi: int|
                                0 <= bi < pms.areas@.len() && (#[trigger] pms.areas@[bi]).start_vpn
                                    <= tv < pms.areas@[bi].end_vpn;
                            assert(!(pms.areas@[bi].end_vpn <= spec_page_floor(start)
                                || spec_page_ceil(end) <= pms.areas@[bi].start_vpn));
                            assert(pms.spec_overlaps(
                                spec_page_floor(start),
                                spec_page_ceil(end),
                            ));
                        }
                    }
                    assert forall|v: u64|
                        spec_page_floor(start) <= v < spec_page_ceil(end) implies #[trigger] cms
                        .page_table.is_mapped(v) && cms.page_table.mapped_flags(v) == ((((
                    port as u8) << 1u8) | PERM_U) | crate::page_table::FLAG_V) by {
                        assert(cms.page_table.is_mapped(v));
                        assert(cms.page_table.mapped_flags(v) == (perm
                            | crate::page_table::FLAG_V));
                    }
                }
                0
            },
            Err(_) => {
                proof {
                    assert(self.inner.memory_set.areas@ == g0.inner.memory_set.areas@);
                    let pms = g0.inner.memory_set;
                    let cms = self.inner.memory_set;
                    let hi = pms.area_with_start(hb);
                    assert(pms.areas@[hi].start_vpn == hb);
                    assert(cms.areas@[hi].start_vpn == hb);
                    assert(cms.has_area_with_start(hb));
                    assert forall|ai: int, bi: int|
                        #![trigger cms.areas@[ai], cms.areas@[bi]]
                        0 <= ai < cms.areas@.len() && 0 <= bi < cms.areas@.len()
                            && cms.areas@[ai].start_vpn == hb && cms.areas@[bi].start_vpn == hb
                        implies ai == bi by {
                        assert(pms.areas@[ai].start_vpn == hb);
                        assert(pms.areas@[bi].start_vpn == hb);
                    }
                    assert(cms.unique_start(hb));
                    assert(cms.area_with_start(hb) == hi) by {
                        let c = cms.area_with_start(hb);
                        assert(cms.areas@[c].start_vpn == hb);
                    }
                    assert(cms.page_table.is_mapped(spec_page_floor(TRAP_CONTEXT_BASE))) by {
                        assert(spec_page_floor(TRAP_CONTEXT_BASE) < VPN_LIMIT);
                        assert(pms.page_table.is_mapped(spec_page_floor(TRAP_CONTEXT_BASE)));
                    }
                }
                -1
            },
        }
    }

    /// `munmap`: remove the region exactly covering the page range of
    /// `[start, start + len)`, unmapping its pages and releasing their
    /// frames. Rejected with `-1` when the bounds are not page-aligned,
    /// out of range, would touch the heap region's start or the
    /// trap-context page, or when no region matches exactly; `0` on
    /// success.
    #[verifier::rlimit(100)]
    pub fn dealloc(&mut self, start: u64, len: u64, fa: &mut StackFrameAllocator) -> (r: i64)
        requires
            old(self).wf_with(*old(fa)),
        ensures
            final(self).wf_with(*final(fa)),
            final(fa).end == old(fa).end,
            final(self).pid == old(self).pid,
            final(self).kernel_stack == old(self).kernel_stack,
            final(self).inner.task_status == old(self).inner.task_status,
            final(self).inner.priority == old(self).inner.priority,
            final(self).inner.stride == old(self).inner.stride,
            final(self).inner.program_brk == old(self).inner.program_brk,
            final(self).inner.heap_bottom == old(self).inner.heap_bottom,
            final(self).inner.task_info == old(self).inner.task_info,
            final(self).inner.parent == old(self).inner.parent,
            final(self).inner.children@ == old(self).inner.children@,
            final(self).inner.exit_code == old(self).inner.exit_code,
            final(self).inner.base_size == old(self).inner.base_size,
            final(self).inner.trap_cx_ppn == old(self).inner.trap_cx_ppn,
            owns_delta_fresh(
                old(self).inner.memory_set,
                final(self).inner.memory_set,
                *old(fa),
            ),
            frees_only_owned(old(self).inner.memory_set, *old(fa), *final(fa)),
            allocs_only_owned(final(self).inner.memory_set, *old(fa), *final(fa)),
            munmap_transition(
                old(self).inner.memory_set,
                final(self).inner.memory_set,
                old(self).inner.heap_bottom,
                *old(fa),
                *final(fa),
                start,
                len,
                r,
            ),
            r == 0 || r == -1,
            !spec_is_aligned(start) ==> r == -1,
            !spec_is_aligned((start + len) as u64) && start + len < VADDR_LIMIT ==> r == -1,
            r == -1 ==> (forall|v: u64|
                v < VPN_LIMIT ==> final(self).inner.memory_set.page_table.is_mapped(v) == old(self).inner.memory_set.page_table.is_mapped(v)),
            r == 0 ==> {
                &&& (exists|ai: int|
                    0 <= ai < old(self).inner.memory_set.areas@.len() && (#[trigger] old(self).inner.memory_set.areas@[ai]).start_vpn == spec_page_floor(start) && old(self).inner.memory_set.areas@[ai].end_vpn == spec_page_ceil((start + len) as u64))
                &&& forall|v: u64|
                    spec_page_floor(start) <= v < spec_page_ceil((start + len) as u64) ==> !(
                    #[trigger] final(self).inner.memory_set.page_table.is_mapped(v))
            },
    {
        if start % PAGE_SIZE != 0 {
            return -1;
        }
        if start >= VADDR_LIMIT || len >= VADDR_LIMIT - start {
            return -1;
        }
        let end = start + len;
        if end % PAGE_SIZE != 0 {
            return -1;
        }
        let s = page_floor(start);
        if s == page_floor(self.inner.heap_bottom) {
            return -1;
        }
        if end > TRAP_CONTEXT_BASE {
            return -1;
        }
        let ghost g0 = *old(self);
        let ghost hb = spec_page_floor(g0.inner.heap_bottom);
        let res = self.inner.memory_set.remove_framed_area(start, end, fa);
        match res {
            Ok(()) => {
                proof {
                    lemma_removal_preserves_heap(
                        g0.inner.memory_set,
                        self.inner.memory_set,
                        start,
                        end,
                        hb,
                        g0.inner.program_brk,
                    );
                }
                0
            },
            Err(_) => {
                proof {
                    assert(self.inner.memory_set == g0.inner.memory_set);
                    assert(*self == g0);
                }
                -1
            },
        }
    }

    /// Set the scheduling priority; values of one or below would let a
    /// task's stride stand still and starve the others.
    pub fn set_priority(&mut self, prio: i64)
        requires
            prio > 1,
        ensures
            final(self).inner.priority == prio,
            final(self).pid == old(self).pid,
            final(self).kernel_stack == old(self).kernel_stack,
            final(self).inner == (TaskControlBlockInner { priority: prio, ..old(self).inner }),
    {
        self.inner.priority = prio;
    }

    /// Current lifecycle status.
    pub fn get_task_status(&self) -> (r: TaskStatus)
        ensures
            r == self.inner.task_status,
    {
        self.inner.task_status
    }

    /// When the task was first dispatched.
    pub fn get_first_dispatched_time(&self) -> (r: u64)
        ensures
            r == self.inner.task_info.first_dispatched_time,
    {
        self.inner.task_info.first_dispatched_time
    }

    /// A copy of the per-syscall invocation counters.
    pub fn get_task_syscall_times(&self) -> (r: Vec<u32>)
        ensures
            r@ == self.inner.task_info.syscall_times@,
    {
        let n = self.inner.task_info.syscall_times.len();
        let mut r: Vec<u32> = Vec::new();
        let mut i: usize = 0;
        while i < n
            invariant
                n == self.inner.task_info.syscall_times@.len(),
                0 <= i <= n,
                r@ =~= self.inner.task_info.syscall_times@.subrange(0, i as int),
            decreases n - i,
        {
            r.push(self.inner.task_info.syscall_times[i]);
            i = i + 1;
        }
        proof {
            assert(r@ =~= self.inner.task_info.syscall_times@);
        }
        r
    }

    /// Count one invocation of a syscall number; numbers outside the
    /// tracked range are ignored.
    pub fn add_task_syscall_times(&mut self, syscall_id: u64)
        requires
            old(self).inner.task_info.wf(),
        ensures
            final(self).inner.task_info.wf(),
            final(self).pid == old(self).pid,
            final(self).kernel_stack == old(self).kernel_stack,
            final(self).inner.memory_set == old(self).inner.memory_set,
            final(self).inner.task_status == old(self).inner.task_status,
            final(self).inner.priority == old(self).inner.priority,
            final(self).inner.stride == old(self).inner.stride,
            final(self).inner.heap_bottom == old(self).inner.heap_bottom,
            final(self).inner.program_brk == old(self).inner.program_brk,
            final(self).inner == (TaskControlBlockInner {
                task_info: final(self).inner.task_info,
                ..old(self).inner
            }),
            final(self).inner.task_info == (TaskInfo {
                syscall_times: final(self).inner.task_info.syscall_times,
                ..old(self).inner.task_info
            }),
            syscall_id < MAX_SYSCALL_NUM as u64 ==> final(self).inner.task_info.syscall_times@
                == old(self).inner.task_info.syscall_times@.update(
                syscall_id as int,
                (old(self).inner.task_info.syscall_times@[syscall_id as int] as u32).wrapping_add(
                    1u32,
                ),
            ),
            syscall_id >= MAX_SYSCALL_NUM as u64 ==> final(self).inner.task_info.syscall_times@
                == old(self).inner.task_info.syscall_times@,
    {
        if syscall_id < MAX_SYSCALL_NUM as u64 {
            let i = syscall_id as usize;
            let v = self.inner.task_info.syscall_times[i];
            self.inner.task_info.syscall_times[i] = v.wrapping_add(1u32);
        }
    }

    /// Append one syscall record to the task's invocation list.
    pub fn add_task_syscall_info(&mut self, syscall_info: SyscallInfo)
        ensures
            final(self).inner.task_info.syscall_list@ == old(self).inner.task_info.syscall_list@.push(syscall_info),
            final(self).pid == old(self).pid,
            final(self).kernel_stack == old(self).kernel_stack,
            final(self).inner.memory_set == old(self).inner.memory_set,
            final(self).inner.task_info.syscall_times@ == old(self).inner.task_info.syscall_times@,
            final(self).inner.task_status == old(self).inner.task_status,
            final(self).inner.priority == old(self).inner.priority,
            final(self).inner.stride == old(self).inner.stride,
            final(self).inner.heap_bottom == old(self).inner.heap_bottom,
            final(self).inner.program_brk == old(self).inner.program_brk,
            old(self).inner.task_info.wf() ==> final(self).inner.task_info.wf(),
            final(self).inner == (TaskControlBlockInner {
                task_info: final(self).inner.task_info,
                ..old(self).inner
            }),
            final(self).inner.task_info == (TaskInfo {
                syscall_list: final(self).inner.task_info.syscall_list,
                ..old(self).inner.task_info
            }),
    {
        self.inner.task_info.syscall_list.push(syscall_info);
    }
}

/// Removing a region that is not the heap region and lies below the
/// trap-context page keeps the heap region, its uniqueness and the
/// trap-context mapping intact.
proof fn lemma_removal_preserves_heap(
    pms: MemorySet,
    cms: MemorySet,
    start: u64,
    end: u64,
    hb: u64,
    brk: u64,
)
    requires
        pms.has_area_with_start(hb),
        pms.unique_start(hb),
        pms.areas@[pms.area_with_start(hb)].end_vpn == spec_page_ceil(brk),
        hb != spec_page_floor(start),
        start <= end,
        end <= TRAP_CONTEXT_BASE,
        end % PAGE_SIZE == 0,
        end < VADDR_LIMIT,
        pms.page_table.is_mapped(spec_page_floor(TRAP_CONTEXT_BASE)),
        exists|ri: int|
            crate::memory_set::is_region_removal(
                pms.areas@,
                cms.areas@,
                ri,
                spec_page_floor(start),
                spec_page_ceil(end),
            ),
        forall|v: u64|
            v < VPN_LIMIT && !(spec_page_floor(start) <= v < spec_page_ceil(end))
                ==> #[trigger] cms.page_table.spec_translate(v) == pms.page_table.spec_translate(
                v,
            ),
    ensures
        cms.has_area_with_start(hb),
        cms.unique_start(hb),
        cms.areas@[cms.area_with_start(hb)].end_vpn == spec_page_ceil(brk),
        cms.page_table.is_mapped(spec_page_floor(TRAP_CONTEXT_BASE)),
{
    let hi = pms.area_with_start(hb);
    assert(pms.areas@[hi].start_vpn == hb);
    let ri = choose|ri: int|
        crate::memory_set::is_region_removal(
            pms.areas@,
            cms.areas@,
            ri,
            spec_page_floor(start),
            spec_page_ceil(end),
        );
    assert(crate::memory_set::is_region_removal(
        pms.areas@,
        cms.areas@,
        ri,
        spec_page_floor(start),
        spec_page_ceil(end),
    ));
    assert(hi != ri);
    let ci: int = if hi < ri {
        hi
    } else {
        hi - 1
    };
    assert(cms.areas@[ci] == pms.areas@[hi]);
    assert(cms.areas@[ci].start_vpn == hb);
    assert(cms.has_area_with_start(hb));
    assert forall|ai: int, bi: int|
        #![trigger cms.areas@[ai], cms.areas@[bi]]
        0 <= ai < cms.areas@.len() && 0 <= bi < cms.areas@.len() && cms.areas@[ai].start_vpn
            == hb && cms.areas@[bi].start_vpn == hb implies ai == bi by {
        let oa: int = if ai < ri {
            ai
        } else {
            ai + 1
        };
        let ob: int = if bi < ri {
            bi
        } else {
            bi + 1
        };
        assert(cms.areas@[ai] == pms.areas@[oa]);
        assert(cms.areas@[bi] == pms.areas@[ob]);
        assert(pms.areas@[oa].start_vpn == hb);
        assert(pms.areas@[ob].start_vpn == hb);
        assert(oa == ob);
    }
    assert(cms.unique_start(hb));
    assert(cms.area_with_start(hb) == ci) by {
        let c = cms.area_with_start(hb);
        assert(cms.areas@[c].start_vpn == hb);
    }
    assert(cms.areas@[ci].end_vpn == spec_page_ceil(brk));
    let tv = spec_page_floor(TRAP_CONTEXT_BASE);
    assert(cms.page_table.is_mapped(tv)) by {
        assert(tv < VPN_LIMIT);
        assert(spec_page_ceil(end) <= tv) by {
            if end < TRAP_CONTEXT_BASE {
                lemma_page_ceil_le_floor(end, TRAP_CONTEXT_BASE);
            } else {
                assert(end == TRAP_CONTEXT_BASE);
                assert(spec_page_ceil(end) == spec_page_floor(end)) by (nonlinear_arith)
                    requires
                        end % PAGE_SIZE == 0,
                        PAGE_SIZE == 4096,
                        end < 0x80_0000_0000,
                ;
            }
        }
    }
}

} // verus!
