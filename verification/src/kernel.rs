//! The kernel's single-core context object: the frame and identifier
//! allocators, the process table, the ready queue and the currently
//! running task. All kernel-global state lives here and is handed
//! explicitly to the dispatch loop instead of sitting in implicit globals.
use vstd::prelude::*;
use crate::KernelError;
use crate::config::{PID_LIMIT, PPN_LIMIT};
use crate::frame_allocator::StackFrameAllocator;
use crate::manager::{queue_ok, stride_bumped, TaskManager};
use crate::memory_set::{
    allocs_only_owned, frees_only_owned, owns_delta_fresh, ProgramImage, image_wf,
};
use crate::task::{
    brk_transition, mmap_transition, munmap_transition, PidAllocator, TaskControlBlock,
    TaskStatus,
};

verus! {

/// The kernel context.
pub struct Kernel {
    /// The physical frame allocator.
    pub frame_allocator: StackFrameAllocator,
    /// The process-identifier allocator.
    pub pid_allocator: PidAllocator,
    /// The process table, indexed by process identifier.
    pub tasks: Vec<Option<TaskControlBlock>>,
    /// The ready queue and scheduling policy.
    pub manager: TaskManager,
    /// The currently running task, if any.
    pub current: Option<u64>,
}

/// Task `p` of the table owns physical page `q`.
pub open spec fn table_owns(tasks: Seq<Option<TaskControlBlock>>, p: int, q: u64) -> bool {
    tasks[p] matches Some(t) && t.owns(q)
}

impl Kernel {
    /// Kernel-wide invariant: allocators are sound, every table entry sits
    /// at the slot of its identifier and is well formed against the frame
    /// allocator, no two tasks own the same physical page, queued tasks
    /// are `Ready`, and the current task is `Running`.
    pub open spec fn wf(self) -> bool {
        &&& self.frame_allocator.wf()
        &&& self.pid_allocator.wf()
        &&& forall|p: int|
            0 <= p < self.tasks@.len() ==> ((#[trigger] self.tasks@[p]) matches Some(t) ==> t.pid
                == p && t.wf_with(self.frame_allocator) && self.pid_allocator.allocated(p as u64))
        &&& forall|p1: int, p2: int, q: u64|
            #![trigger table_owns(self.tasks@, p1, q), table_owns(self.tasks@, p2, q)]
            0 <= p1 < self.tasks@.len() && 0 <= p2 < self.tasks@.len() && p1 != p2 ==> !(
            table_owns(self.tasks@, p1, q) && table_owns(self.tasks@, p2, q))
        &&& queue_ok(self.manager.ready_queue@, self.tasks@)
        &&& forall|i: int, j: int|
            #![trigger self.manager.ready_queue@[i], self.manager.ready_queue@[j]]
            0 <= i < j < self.manager.ready_queue@.len() ==> self.manager.ready_queue@[i]
                != self.manager.ready_queue@[j]
        &&& forall|i: int|
            0 <= i < self.manager.ready_queue@.len() ==> (#[trigger] self.tasks@[(
            self.manager.ready_queue@[i]) as int]).unwrap().inner.task_status == TaskStatus::Ready
        &&& (self.current matches Some(c) ==> c < self.tasks@.len() && self.tasks@[c as int]
            is Some && self.tasks@[c as int].unwrap().inner.task_status == TaskStatus::Running)
    }

    /// A fresh kernel managing the physical pages `[frame_start,
    /// frame_end)`: no tasks, nothing queued, nothing running.
    pub fn new(frame_start: u64, frame_end: u64) -> (r: Kernel)
        requires
            frame_start <= frame_end,
            frame_end <= PPN_LIMIT,
        ensures
            r.wf(),
            r.tasks@.len() == 0,
            r.manager.ready_queue@.len() == 0,
            r.current is None,
    {
        let mut frame_allocator = StackFrameAllocator::new();
        frame_allocator.init(frame_start, frame_end);
        Kernel {
            frame_allocator,
            pid_allocator: PidAllocator::new(),
            tasks: Vec::new(),
            manager: TaskManager::new(),
            current: None,
        }
    }

    /// Create a process from an executable image, store it in the table
    /// and queue it; returns its identifier.
    pub fn create_process(&mut self, image: &ProgramImage) -> (r: Result<u64, KernelError>)
        requires
            old(self).wf(),
            image_wf(*image),
        ensures
            final(self).wf(),
            crate::memory_set::image_disjoint(*image) && old(self).pid_allocator.has_free()
                && old(self).frame_allocator.free_count()
                >= crate::memory_set::image_frames_budget(*image) ==> r is Ok,
            r matches Ok(p) ==> {
                &&& p < final(self).tasks@.len()
                &&& final(self).tasks@[p as int] is Some
                &&& final(self).tasks@[p as int].unwrap().inner.task_status == TaskStatus::Ready
                &&& final(self).manager.ready_queue@ == old(self).manager.ready_queue@.push(p)
                &&& final(self).current == old(self).current
            },
    {
        let ghost k0 = *old(self);
        let task = match TaskControlBlock::new(
            image,
            &mut self.frame_allocator,
            &mut self.pid_allocator,
        ) {
            Ok(t) => t,
            Err(e) => {
                proof {
                    self.lemma_wf_after_alloc_growth(k0);
                }
                return Err(e);
            },
        };
        let pid = task.pid;
        proof {
            // the new task's pages are fresh, so no existing task owns them,
            // and its identifier is new, so its slot is free
            assert forall|p: int, q: u64|
                0 <= p < self.tasks@.len() implies !(#[trigger] table_owns(self.tasks@, p, q)
                && task.owns(q)) by {
                if table_owns(self.tasks@, p, q) && task.owns(q) {
                    let t = self.tasks@[p].unwrap();
                    assert(t.wf_with(k0.frame_allocator));
                    assert(k0.frame_allocator.allocated(q)) by {
                        if t.inner.memory_set.page_table.owns_frame(q) {
                            let j = choose|j: int|
                                0 <= j < t.inner.memory_set.page_table.nodes@.len()
                                    && t.inner.memory_set.page_table.node_ppn(j) == q;
                        } else {
                            let (ai, o) = choose|ai: int, o: int|
                                0 <= ai < t.inner.memory_set.areas@.len() && 0 <= o
                                    < t.inner.memory_set.areas@[ai].frames@.len()
                                    && #[trigger] t.inner.memory_set.frame_ppn(ai, o) == q;
                        }
                    }
                    assert(!k0.frame_allocator.allocated(q));
                }
            }
            if (task.pid as int) < self.tasks@.len() && self.tasks@[task.pid as int] is Some {
                assert(k0.pid_allocator.allocated(task.pid));
            }
            self.lemma_wf_after_alloc_growth(k0);
        }
        self.install_task(task);
        self.manager.add(pid);
        proof {
            assert forall|i: int| 0 <= i < self.manager.ready_queue@.len() implies (
            #[trigger] self.tasks@[(self.manager.ready_queue@[i]) as int]).unwrap()
                .inner.task_status == TaskStatus::Ready by {
                if i < k0.manager.ready_queue@.len() {
                    assert(k0.manager.ready_queue@[i] == self.manager.ready_queue@[i]);
                }
            }
            // the fresh identifier cannot already sit in the queue: its
            // table slot was empty
            assert forall|i: int, j: int|
                #![trigger self.manager.ready_queue@[i], self.manager.ready_queue@[j]]
                0 <= i < j < self.manager.ready_queue@.len() implies self.manager.ready_queue@[i]
                != self.manager.ready_queue@[j] by {
                if j < k0.manager.ready_queue@.len() {
                    assert(k0.manager.ready_queue@[i] != k0.manager.ready_queue@[j]);
                } else {
                    assert(self.manager.ready_queue@[j] == pid);
                    let qi = k0.manager.ready_queue@[i];
                    assert(k0.tasks@[qi as int] is Some);
                    if qi == pid {
                        assert((pid as int) >= k0.tasks@.len() || k0.tasks@[pid as int]
                            is None) by {
                            assert(!k0.pid_allocator.allocated(pid) ==> ((pid as int)
                                >= k0.tasks@.len() || k0.tasks@[pid as int] is None));
                        }
                    }
                }
            }
        }
        Ok(pid)
    }

    /// The table and queue survive an operation that only consumed fresh
    /// frames and identifiers.
    proof fn lemma_wf_after_alloc_growth(self, k0: Kernel)
        requires
            k0.wf(),
            self.frame_allocator.wf(),
            self.pid_allocator.wf(),
            self.tasks@ == k0.tasks@,
            self.manager == k0.manager,
            self.current == k0.current,
            forall|q: u64|
                k0.frame_allocator.allocated(q) ==> self.frame_allocator.allocated(q),
            forall|p: u64|
                k0.pid_allocator.allocated(p) ==> self.pid_allocator.allocated(p),
        ensures
            self.wf(),
    {
        assert forall|p: int|
            0 <= p < self.tasks@.len() implies ((#[trigger] self.tasks@[p]) matches Some(t)
            ==> t.pid == p && t.wf_with(self.frame_allocator) && self.pid_allocator.allocated(
                p as u64,
            )) by {
            if self.tasks@[p] is Some {
                let t = self.tasks@[p].unwrap();
                assert(t.wf_with(k0.frame_allocator));
                assert(k0.pid_allocator.allocated(p as u64));
                t.inner.memory_set.lemma_wf_alloc_monotone(
                    k0.frame_allocator,
                    self.frame_allocator,
                );
            }
        }
    }

    /// Put a freshly created task, whose frames and identifier are new, at
    /// its slot in the table.
    fn install_task(&mut self, task: TaskControlBlock)
        requires
            old(self).wf(),
            task.wf_with(old(self).frame_allocator),
            task.inner.task_status == TaskStatus::Ready,
            forall|p: int, q: u64|
                0 <= p < old(self).tasks@.len() ==> !(#[trigger] table_owns(
                    old(self).tasks@,
                    p,
                    q,
                ) && task.owns(q)),
            task.pid as int >= old(self).tasks@.len() || old(self).tasks@[task.pid as int]
                is None,
            old(self).pid_allocator.allocated(task.pid),
            task.pid < PID_LIMIT,
        ensures
            final(self).wf(),
            final(self).frame_allocator == old(self).frame_allocator,
            final(self).pid_allocator == old(self).pid_allocator,
            final(self).manager == old(self).manager,
            final(self).current == old(self).current,
            final(self).tasks@.len() > task.pid,
            final(self).tasks@[task.pid as int] == Some(task),
            forall|p: int|
                0 <= p < old(self).tasks@.len() && p != task.pid ==> final(self).tasks@[p] == old(self).tasks@[p],
            forall|p: int|
                old(self).tasks@.len() <= p < final(self).tasks@.len() && p != task.pid
                    ==> final(self).tasks@[p] is None,
    {
        let ghost k0 = *old(self);
        let pid = task.pid;
        let idx = pid as usize;
        let n0 = self.tasks.len();
        if idx < n0 {
            self.tasks[idx] = Some(task);
        } else {
            while self.tasks.len() < idx
                invariant
                    n0 <= self.tasks@.len() <= idx,
                    n0 == k0.tasks@.len(),
                    forall|p: int| 0 <= p < n0 ==> #[trigger] self.tasks@[p] == k0.tasks@[p],
                    forall|p: int| n0 <= p < self.tasks@.len() ==> self.tasks@[p] is None,
                    self.frame_allocator == k0.frame_allocator,
                    self.pid_allocator == k0.pid_allocator,
                    self.manager == k0.manager,
                    self.current == k0.current,
                decreases idx - self.tasks@.len(),
            {
                self.tasks.push(None);
            }
            self.tasks.push(Some(task));
        }
        proof {
            assert forall|p: int|
                0 <= p < self.tasks@.len() implies ((#[trigger] self.tasks@[p]) matches Some(t)
                ==> t.pid == p && t.wf_with(self.frame_allocator) && self.pid_allocator.allocated(
                p as u64,
            )) by {
                if p != idx as int && self.tasks@[p] is Some {
                    assert(p < k0.tasks@.len());
                    assert(self.tasks@[p] == k0.tasks@[p]);
                }
            }
            assert forall|p1: int, p2: int, q: u64|
                #![trigger table_owns(self.tasks@, p1, q), table_owns(self.tasks@, p2, q)]
                0 <= p1 < self.tasks@.len() && 0 <= p2 < self.tasks@.len() && p1 != p2 implies !(
            table_owns(self.tasks@, p1, q) && table_owns(self.tasks@, p2, q)) by {
                if table_owns(self.tasks@, p1, q) && table_owns(self.tasks@, p2, q) {
                    if p1 == idx as int {
                        assert(p2 < k0.tasks@.len());
                        assert(self.tasks@[p2] == k0.tasks@[p2]);
                        assert(table_owns(k0.tasks@, p2, q));
                        assert(task.owns(q));
                    } else if p2 == idx as int {
                        assert(p1 < k0.tasks@.len());
                        assert(self.tasks@[p1] == k0.tasks@[p1]);
                        assert(table_owns(k0.tasks@, p1, q));
                        assert(task.owns(q));
                    } else {
                        assert(p1 < k0.tasks@.len() && p2 < k0.tasks@.len());
                        assert(self.tasks@[p1] == k0.tasks@[p1]);
                        assert(self.tasks@[p2] == k0.tasks@[p2]);
                        assert(table_owns(k0.tasks@, p1, q) && table_owns(k0.tasks@, p2, q));
                    }
                }
            }
            assert forall|i: int| 0 <= i < self.manager.ready_queue@.len() implies (
            #[trigger] self.manager.ready_queue@[i]) < self.tasks@.len() && self.tasks@[(
            self.manager.ready_queue@[i]) as int] is Some && self.tasks@[(
            self.manager.ready_queue@[i]) as int].unwrap().inner.priority >= 2 && self.tasks@[(
            self.manager.ready_queue@[i]) as int].unwrap().inner.task_status == TaskStatus::Ready
                by {
                let qp = k0.manager.ready_queue@[i];
                assert(qp < k0.tasks@.len() && k0.tasks@[qp as int] is Some);
                assert(qp != pid || k0.tasks@[pid as int] is Some);
                assert(self.tasks@[qp as int] == k0.tasks@[qp as int]);
            }
            if self.current is Some {
                let c = self.current.unwrap();
                assert(k0.tasks@[c as int] is Some);
                assert(self.tasks@[c as int] == k0.tasks@[c as int]);
            }
        }
    }
    /// The rest of the table stays well formed after an operation on one
    /// task that freed only that task's pages and allocated only fresh
    /// ones that it now owns.
    proof fn lemma_wf_after_task_op(self, k0: Kernel, c: int)
        requires
            k0.wf(),
            0 <= c < k0.tasks@.len(),
            k0.tasks@[c] is Some,
            self.frame_allocator.wf(),
            self.pid_allocator == k0.pid_allocator,
            self.manager == k0.manager,
            self.current == k0.current,
            self.tasks@.len() == k0.tasks@.len(),
            forall|p: int| 0 <= p < k0.tasks@.len() && p != c ==> self.tasks@[p] == k0.tasks@[p],
            self.tasks@[c] matches Some(t1) && t1.pid == c && t1.wf_with(self.frame_allocator)
                && t1.inner.task_status == k0.tasks@[c].unwrap().inner.task_status,
            owns_delta_fresh(
                k0.tasks@[c].unwrap().inner.memory_set,
                self.tasks@[c].unwrap().inner.memory_set,
                k0.frame_allocator,
            ),
            frees_only_owned(
                k0.tasks@[c].unwrap().inner.memory_set,
                k0.frame_allocator,
                self.frame_allocator,
            ),
            allocs_only_owned(
                self.tasks@[c].unwrap().inner.memory_set,
                k0.frame_allocator,
                self.frame_allocator,
            ),
        ensures
            self.wf(),
    {
        let t0 = k0.tasks@[c].unwrap();
        let t1 = self.tasks@[c].unwrap();
        assert forall|p: int|
            0 <= p < self.tasks@.len() implies ((#[trigger] self.tasks@[p]) matches Some(t)
            ==> t.pid == p && t.wf_with(self.frame_allocator) && self.pid_allocator.allocated(
            p as u64,
        )) by {
            if p != c && self.tasks@[p] is Some {
                let t = self.tasks@[p].unwrap();
                assert(t.wf_with(k0.frame_allocator));
                // none of its pages was freed: they all belong to
                // it, not to the operated-on task
                assert forall|q: u64|
                    k0.frame_allocator.allocated(q) && !self.frame_allocator.allocated(q)
                    implies !t.inner.memory_set.owns(q) by {
                    assert(t0.inner.memory_set.owns(q));
                    assert(table_owns(k0.tasks@, c, q));
                    if t.inner.memory_set.owns(q) {
                        assert(table_owns(k0.tasks@, p, q));
                    }
                }
                t.inner.memory_set.lemma_wf_alloc_shrink(
                    k0.frame_allocator,
                    self.frame_allocator,
                );
            }
        }
        assert forall|p1: int, p2: int, q: u64|
            #![trigger table_owns(self.tasks@, p1, q), table_owns(self.tasks@, p2, q)]
            0 <= p1 < self.tasks@.len() && 0 <= p2 < self.tasks@.len() && p1 != p2 implies !(
        table_owns(self.tasks@, p1, q) && table_owns(self.tasks@, p2, q)) by {
            if table_owns(self.tasks@, p1, q) && table_owns(self.tasks@, p2, q) {
                if p1 == c {
                    assert(t1.inner.memory_set.owns(q));
                    assert(t0.inner.memory_set.owns(q) || !k0.frame_allocator.allocated(q));
                    assert(table_owns(k0.tasks@, p2, q));
                    let t2 = k0.tasks@[p2].unwrap();
                    assert(t2.wf_with(k0.frame_allocator));
                    assert(k0.frame_allocator.allocated(q)) by {
                        lemma_owned_is_allocated(t2, k0.frame_allocator, q);
                    }
                    assert(table_owns(k0.tasks@, c, q));
                } else if p2 == c {
                    assert(t1.inner.memory_set.owns(q));
                    assert(t0.inner.memory_set.owns(q) || !k0.frame_allocator.allocated(q));
                    assert(table_owns(k0.tasks@, p1, q));
                    let t2 = k0.tasks@[p1].unwrap();
                    assert(t2.wf_with(k0.frame_allocator));
                    assert(k0.frame_allocator.allocated(q)) by {
                        lemma_owned_is_allocated(t2, k0.frame_allocator, q);
                    }
                    assert(table_owns(k0.tasks@, c, q));
                } else {
                    assert(table_owns(k0.tasks@, p1, q));
                    assert(table_owns(k0.tasks@, p2, q));
                }
            }
        }
        assert forall|i: int| 0 <= i < self.manager.ready_queue@.len() implies (
        #[trigger] self.manager.ready_queue@[i]) < self.tasks@.len() && self.tasks@[(
        self.manager.ready_queue@[i]) as int] is Some && self.tasks@[(
        self.manager.ready_queue@[i]) as int].unwrap().inner.priority >= 2 by {
            let qp = k0.manager.ready_queue@[i];
            assert(qp < k0.tasks@.len() && k0.tasks@[qp as int] is Some);
            if qp as int != c {
                assert(self.tasks@[qp as int] == k0.tasks@[qp as int]);
            }
        }
        assert forall|i: int| 0 <= i < self.manager.ready_queue@.len() implies (
        #[trigger] self.tasks@[(self.manager.ready_queue@[i]) as int]).unwrap().inner.task_status
            == TaskStatus::Ready by {
            let qp = k0.manager.ready_queue@[i];
            if qp as int != c {
                assert(self.tasks@[qp as int] == k0.tasks@[qp as int]);
            }
        }
        if self.current is Some {
            let cc = self.current.unwrap();
            if cc as int != c {
                assert(self.tasks@[cc as int] == k0.tasks@[cc as int]);
            }
        }
    }

    /// Dispatch the next task under the stride policy: the queued task
    /// with minimal stride leaves the queue with its stride advanced, is
    /// marked `Running`, records its first dispatch time, and becomes the
    /// current task. The previously current task must have been put back
    /// or retired first. `None` when nothing is ready.
    pub fn run_next_task(&mut self, now_us: u64) -> (r: Option<u64>)
        requires
            old(self).wf(),
            old(self).current is None,
        ensures
            final(self).wf(),
            old(self).manager.ready_queue@.len() == 0 <==> r is None,
            r is None ==> final(self).tasks@ == old(self).tasks@ && final(self).manager.ready_queue@ == old(self).manager.ready_queue@ && final(self).current
                == old(self).current && final(self).frame_allocator == old(self).frame_allocator,
            final(self).tasks@.len() == old(self).tasks@.len(),
            final(self).frame_allocator == old(self).frame_allocator,
            r matches Some(p) ==> {
                &&& final(self).current == Some(p)
                &&& (forall|pp: int|
                    0 <= pp < old(self).tasks@.len() && pp != p ==> final(self).tasks@[pp]
                        == old(self).tasks@[pp])
                &&& old(self).tasks@[p as int] is Some
                &&& old(self).tasks@[p as int].unwrap().inner.task_status == TaskStatus::Ready
                &&& final(self).tasks@[p as int] is Some
                &&& final(self).tasks@[p as int].unwrap().inner.task_status
                    == TaskStatus::Running
                &&& final(self).tasks@[p as int].unwrap().inner.parent == old(self).tasks@[
                    p as int].unwrap().inner.parent
                &&& final(self).tasks@[p as int].unwrap().inner.children@ == old(self).tasks@[
                    p as int].unwrap().inner.children@
                &&& final(self).tasks@[p as int].unwrap().inner.exit_code == old(self).tasks@[
                    p as int].unwrap().inner.exit_code
                &&& final(self).tasks@[p as int].unwrap().inner.task_info.syscall_times@
                    == old(self).tasks@[p as int].unwrap().inner.task_info.syscall_times@
                &&& final(self).tasks@[p as int].unwrap().inner.task_info.syscall_list@
                    == old(self).tasks@[p as int].unwrap().inner.task_info.syscall_list@
                &&& (exists|k: int|
                    crate::manager::min_stride_selection(
                        old(self).manager.ready_queue@,
                        final(self).manager.ready_queue@,
                        old(self).tasks@,
                        p,
                        k,
                    ))
            },
    {
        let ghost k0 = *old(self);
        proof {
            assert(queue_ok(self.manager.ready_queue@, self.tasks@));
        }
        let p = match self.manager.fetch_min_stride_task(&mut self.tasks) {
            Some(p) => p,
            None => {
                return None;
            },
        };
        let ghost k1 = *self;
        let idx = p as usize;
        proof {
            assert((p as usize) as int == p as int);
        }
        let slot = &mut self.tasks[idx];
        match slot {
            Some(t) => {
                t.inner.task_status = TaskStatus::Running;
                t.inner.task_info.set_timestamp_is_first_dispatched(now_us);
            },
            None => {
                unreached()
            },
        }
        self.current = Some(p);
        proof {
            assert(k0.tasks@[p as int].unwrap().inner.task_status == TaskStatus::Ready) by {
                let k = choose|k: int|
                    crate::manager::min_stride_selection(
                        k0.manager.ready_queue@,
                        k1.manager.ready_queue@,
                        k0.tasks@,
                        p,
                        k,
                    );
                assert(k0.manager.ready_queue@[k] == p);
            }
            let t0 = k0.tasks@[p as int].unwrap();
            let tb = stride_bumped(t0);
            let t1 = self.tasks@[p as int].unwrap();
            assert(t1.inner.memory_set == t0.inner.memory_set);
            assert(t1.wf_with(self.frame_allocator)) by {
                assert(t0.wf_with(k0.frame_allocator));
            }
            assert forall|pp: int|
                0 <= pp < self.tasks@.len() implies ((#[trigger] self.tasks@[pp]) matches Some(t)
                ==> t.pid == pp && t.wf_with(self.frame_allocator)
                && self.pid_allocator.allocated(pp as u64)) by {
                if pp != p as int && self.tasks@[pp] is Some {
                    assert(self.tasks@[pp] == k0.tasks@[pp]);
                }
            }
            assert forall|p1: int, p2: int, q: u64|
                #![trigger table_owns(self.tasks@, p1, q), table_owns(self.tasks@, p2, q)]
                0 <= p1 < self.tasks@.len() && 0 <= p2 < self.tasks@.len() && p1 != p2 implies !(
            table_owns(self.tasks@, p1, q) && table_owns(self.tasks@, p2, q)) by {
                if table_owns(self.tasks@, p1, q) && table_owns(self.tasks@, p2, q) {
                    assert(table_owns(k0.tasks@, p1, q)) by {
                        if p1 != p as int {
                            assert(self.tasks@[p1] == k0.tasks@[p1]);
                        }
                    }
                    assert(table_owns(k0.tasks@, p2, q)) by {
                        if p2 != p as int {
                            assert(self.tasks@[p2] == k0.tasks@[p2]);
                        }
                    }
                }
            }
            let ghost q1 = self.manager.ready_queue@;
            let k = choose|k: int|
                crate::manager::min_stride_selection(
                    k0.manager.ready_queue@,
                    q1,
                    k0.tasks@,
                    p,
                    k,
                );
            assert forall|i: int| 0 <= i < q1.len() implies (#[trigger] q1[i])
                < self.tasks@.len() && self.tasks@[(q1[i]) as int] is Some && self.tasks@[(
            q1[i]) as int].unwrap().inner.priority >= 2 && self.tasks@[(
            q1[i]) as int].unwrap().inner.task_status == TaskStatus::Ready by {
                let oi: int = if i < k {
                    i
                } else {
                    i + 1
                };
                assert(q1[i] == k0.manager.ready_queue@[oi]);
                let qp = k0.manager.ready_queue@[oi];
                assert(qp < k0.tasks@.len() && k0.tasks@[qp as int] is Some);
                assert(k0.tasks@[qp as int].unwrap().inner.task_status == TaskStatus::Ready);
                // queue entries are pairwise distinct, so the selected
                // task cannot still sit in the queue
                assert(qp != p) by {
                    if oi < k {
                        assert(k0.manager.ready_queue@[oi] != k0.manager.ready_queue@[k]);
                    } else {
                        assert(k0.manager.ready_queue@[k] != k0.manager.ready_queue@[oi]);
                    }
                }
                assert(self.tasks@[qp as int] == k0.tasks@[qp as int]);
            }
        }
        Some(p)
    }
    /// Take the task at the front of the ready queue (plain FIFO policy);
    /// the caller decides what to run.
    pub fn fetch_task(&mut self) -> (r: Option<u64>)
        requires
            old(self).wf(),
        ensures
            final(self).wf(),
            old(self).manager.ready_queue@.len() == 0 ==> r is None,
            old(self).manager.ready_queue@.len() > 0 ==> r == Some(
                old(self).manager.ready_queue@[0],
            ) && final(self).manager.ready_queue@ == old(self).manager.ready_queue@.subrange(
                1,
                old(self).manager.ready_queue@.len() as int,
            ),
    {
        let ghost k0 = *self;
        let r = self.manager.fetch();
        proof {
            if r is Some {
                assert forall|i: int, j: int|
                    #![trigger self.manager.ready_queue@[i], self.manager.ready_queue@[j]]
                    0 <= i < j < self.manager.ready_queue@.len() implies self
                    .manager.ready_queue@[i] != self.manager.ready_queue@[j] by {
                    assert(k0.manager.ready_queue@[i + 1] != k0.manager.ready_queue@[j + 1]);
                }
                assert forall|i: int| 0 <= i < self.manager.ready_queue@.len() implies (
                #[trigger] self.manager.ready_queue@[i]) < self.tasks@.len() && self.tasks@[(
                self.manager.ready_queue@[i]) as int] is Some && self.tasks@[(
                self.manager.ready_queue@[i]) as int].unwrap().inner.priority >= 2
                    && self.tasks@[(self.manager.ready_queue@[i]) as int].unwrap()
                    .inner.task_status == TaskStatus::Ready by {
                    assert(self.manager.ready_queue@[i] == k0.manager.ready_queue@[i + 1]);
                }
            }
        }
        r
    }

    /// Take the minimal-stride task out of the ready queue, advancing its
    /// stride by `BIG_STRIDE / priority`; the caller decides what to run.
    pub fn fetch_min_task(&mut self) -> (r: Option<u64>)
        requires
            old(self).wf(),
        ensures
            final(self).wf(),
            old(self).manager.ready_queue@.len() == 0 <==> r is None,
            r matches Some(p) ==> (exists|k: int|
                crate::manager::min_stride_selection(
                    old(self).manager.ready_queue@,
                    final(self).manager.ready_queue@,
                    old(self).tasks@,
                    p,
                    k,
                )),
    {
        let ghost k0 = *self;
        let p = match self.manager.fetch_min_stride_task(&mut self.tasks) {
            Some(p) => p,
            None => {
                return None;
            },
        };
        proof {
            let t0 = k0.tasks@[p as int].unwrap();
            let tb = stride_bumped(t0);
            let t1 = self.tasks@[p as int].unwrap();
            assert(t1.inner.memory_set == t0.inner.memory_set);
            assert forall|pp: int|
                0 <= pp < self.tasks@.len() implies ((#[trigger] self.tasks@[pp]) matches Some(t)
                ==> t.pid == pp && t.wf_with(self.frame_allocator)
                && self.pid_allocator.allocated(pp as u64)) by {
                if pp != p as int && self.tasks@[pp] is Some {
                    assert(self.tasks@[pp] == k0.tasks@[pp]);
                } else if pp == p as int {
                    assert(t0.wf_with(k0.frame_allocator));
                }
            }
            assert forall|p1: int, p2: int, q: u64|
                #![trigger table_owns(self.tasks@, p1, q), table_owns(self.tasks@, p2, q)]
                0 <= p1 < self.tasks@.len() && 0 <= p2 < self.tasks@.len() && p1 != p2 implies !(
            table_owns(self.tasks@, p1, q) && table_owns(self.tasks@, p2, q)) by {
                if table_owns(self.tasks@, p1, q) && table_owns(self.tasks@, p2, q) {
                    assert(table_owns(k0.tasks@, p1, q)) by {
                        if p1 != p as int {
                            assert(self.tasks@[p1] == k0.tasks@[p1]);
                        }
                    }
                    assert(table_owns(k0.tasks@, p2, q)) by {
                        if p2 != p as int {
                            assert(self.tasks@[p2] == k0.tasks@[p2]);
                        }
                    }
                }
            }
            let ghost q1 = self.manager.ready_queue@;
            let k = choose|k: int|
                crate::manager::min_stride_selection(
                    k0.manager.ready_queue@,
                    q1,
                    k0.tasks@,
                    p,
                    k,
                );
            assert forall|i: int| 0 <= i < q1.len() implies (#[trigger] q1[i])
                < self.tasks@.len() && self.tasks@[(q1[i]) as int] is Some && self.tasks@[(
            q1[i]) as int].unwrap().inner.priority >= 2 && self.tasks@[(
            q1[i]) as int].unwrap().inner.task_status == TaskStatus::Ready by {
                let oi: int = if i < k {
                    i
                } else {
                    i + 1
                };
                assert(q1[i] == k0.manager.ready_queue@[oi]);
                let qp = k0.manager.ready_queue@[oi];
                assert(qp < k0.tasks@.len() && k0.tasks@[qp as int] is Some);
                assert(qp != p) by {
                    if oi < k {
                        assert(k0.manager.ready_queue@[oi] != k0.manager.ready_queue@[k]);
                    } else {
                        assert(k0.manager.ready_queue@[k] != k0.manager.ready_queue@[oi]);
                    }
                }
                assert(self.tasks@[qp as int] == k0.tasks@[qp as int]);
            }
            assert forall|i: int, j: int|
                #![trigger q1[i], q1[j]]
                0 <= i < j < q1.len() implies q1[i] != q1[j] by {
                let oi: int = if i < k {
                    i
                } else {
                    i + 1
                };
                let oj: int = if j < k {
                    j
                } else {
                    j + 1
                };
                assert(q1[i] == k0.manager.ready_queue@[oi]);
                assert(q1[j] == k0.manager.ready_queue@[oj]);
                assert(k0.manager.ready_queue@[oi] != k0.manager.ready_queue@[oj]);
            }
            if self.current is Some {
                let cc = self.current.unwrap();
                if cc as int != p as int {
                    assert(self.tasks@[cc as int] == k0.tasks@[cc as int]);
                } else {
                    assert(t0.inner.task_status == TaskStatus::Running);
                    assert(k0.manager.ready_queue@[k] == p);
                    assert(k0.tasks@[p as int].unwrap().inner.task_status == TaskStatus::Ready);
                }
            }
        }
        Some(p)
    }

    /// Start multiplexing: dispatch the first task.
    pub fn run_first_task(&mut self, now_us: u64) -> (r: Option<u64>)
        requires
            old(self).wf(),
            old(self).current is None,
        ensures
            final(self).wf(),
            old(self).manager.ready_queue@.len() == 0 <==> r is None,
            r matches Some(p) ==> final(self).current == Some(p) && final(self).tasks@[p as int]
                is Some && final(self).tasks@[p as int].unwrap().inner.task_status
                == TaskStatus::Running,
    {
        self.run_next_task(now_us)
    }

    /// Put a task back into the ready queue and mark it `Ready`; used when
    /// a task re-enters scheduling.
    pub fn add_task(&mut self, pid: u64)
        requires
            old(self).wf(),
            pid < old(self).tasks@.len(),
            old(self).tasks@[pid as int] is Some,
            old(self).current != Some(pid),
            forall|i: int|
                0 <= i < old(self).manager.ready_queue@.len()
                    ==> old(self).manager.ready_queue@[i] != pid,
        ensures
            final(self).wf(),
            final(self).manager.ready_queue@ == old(self).manager.ready_queue@.push(pid),
            final(self).current == old(self).current,
    {
        let ghost k0 = *old(self);
        proof {
            assert((pid as usize) as int == pid as int);
        }
        let slot = &mut self.tasks[pid as usize];
        match slot {
            Some(t) => {
                t.inner.task_status = TaskStatus::Ready;
            },
            None => {
                unreached()
            },
        }
        self.manager.add(pid);
        proof {
            self.lemma_wf_status_change(k0, pid as int);
        }
    }

    /// The invariant survives changing only the status and accounting of
    /// one task that is queued consistently.
    proof fn lemma_wf_status_change(self, k0: Kernel, c: int)
        requires
            k0.wf(),
            0 <= c < k0.tasks@.len(),
            k0.tasks@[c] is Some,
            self.frame_allocator == k0.frame_allocator,
            self.pid_allocator == k0.pid_allocator,
            self.tasks@.len() == k0.tasks@.len(),
            forall|p: int| 0 <= p < k0.tasks@.len() && p != c ==> self.tasks@[p] == k0.tasks@[p],
            self.tasks@[c] is Some,
            ({
                let t0 = k0.tasks@[c].unwrap();
                let t1 = self.tasks@[c].unwrap();
                &&& t1.pid == t0.pid
                &&& t1.kernel_stack == t0.kernel_stack
                &&& t1.inner.memory_set == t0.inner.memory_set
                &&& t1.inner.priority == t0.inner.priority
                &&& t1.inner.heap_bottom == t0.inner.heap_bottom
                &&& t1.inner.program_brk == t0.inner.program_brk
                &&& t1.inner.task_info.wf()
            }),
            queue_ok(self.manager.ready_queue@, self.tasks@) || self.manager.ready_queue@
                == k0.manager.ready_queue@ || self.manager.ready_queue@
                == k0.manager.ready_queue@.push(c as u64),
            forall|i: int, j: int|
                #![trigger self.manager.ready_queue@[i], self.manager.ready_queue@[j]]
                0 <= i < j < self.manager.ready_queue@.len() ==> self.manager.ready_queue@[i]
                    != self.manager.ready_queue@[j],
            forall|i: int|
                0 <= i < self.manager.ready_queue@.len() ==> (#[trigger] self.tasks@[(
                self.manager.ready_queue@[i]) as int]).unwrap().inner.task_status
                    == TaskStatus::Ready && (self.manager.ready_queue@[i]) < self.tasks@.len()
                    && self.tasks@[(self.manager.ready_queue@[i]) as int] is Some,
            self.current matches Some(cc) ==> cc < self.tasks@.len() && self.tasks@[cc as int]
                is Some && self.tasks@[cc as int].unwrap().inner.task_status
                == TaskStatus::Running,
        ensures
            self.wf(),
    {
        let t0 = k0.tasks@[c].unwrap();
        let t1 = self.tasks@[c].unwrap();
        assert forall|p: int|
            0 <= p < self.tasks@.len() implies ((#[trigger] self.tasks@[p]) matches Some(t)
            ==> t.pid == p && t.wf_with(self.frame_allocator) && self.pid_allocator.allocated(
            p as u64,
        )) by {
            if p != c && self.tasks@[p] is Some {
                assert(self.tasks@[p] == k0.tasks@[p]);
            } else if p == c {
                assert(t0.wf_with(k0.frame_allocator));
            }
        }
        assert forall|p1: int, p2: int, q: u64|
            #![trigger table_owns(self.tasks@, p1, q), table_owns(self.tasks@, p2, q)]
            0 <= p1 < self.tasks@.len() && 0 <= p2 < self.tasks@.len() && p1 != p2 implies !(
        table_owns(self.tasks@, p1, q) && table_owns(self.tasks@, p2, q)) by {
            if table_owns(self.tasks@, p1, q) && table_owns(self.tasks@, p2, q) {
                assert(table_owns(k0.tasks@, p1, q)) by {
                    if p1 != c {
                        assert(self.tasks@[p1] == k0.tasks@[p1]);
                    }
                }
                assert(table_owns(k0.tasks@, p2, q)) by {
                    if p2 != c {
                        assert(self.tasks@[p2] == k0.tasks@[p2]);
                    }
                }
            }
        }
        assert forall|i: int| 0 <= i < self.manager.ready_queue@.len() implies (
        #[trigger] self.manager.ready_queue@[i]) < self.tasks@.len() && self.tasks@[(
        self.manager.ready_queue@[i]) as int] is Some && self.tasks@[(
        self.manager.ready_queue@[i]) as int].unwrap().inner.priority >= 2 by {
            let qp = self.manager.ready_queue@[i];
            if qp as int != c {
                if i < k0.manager.ready_queue@.len() && self.manager.ready_queue@
                    == k0.manager.ready_queue@ {
                    assert(self.tasks@[qp as int] == k0.tasks@[qp as int]);
                }
                if self.manager.ready_queue@ == k0.manager.ready_queue@.push(c as u64) {
                    assert(qp == k0.manager.ready_queue@[i]);
                    assert(self.tasks@[qp as int] == k0.tasks@[qp as int]);
                }
            } else {
                assert(t1.inner.priority == t0.inner.priority);
                assert(t0.inner.priority >= 2);
            }
        }
    }

    /// Suspend the current task: mark it `Ready`, put it back in the
    /// queue, and dispatch the next task under the stride policy.
    pub fn suspend_current_and_run_next(&mut self, now_us: u64) -> (r: Option<u64>)
        requires
            old(self).wf(),
        ensures
            final(self).wf(),
            final(self).tasks@.len() == old(self).tasks@.len(),
            forall|pp: int|
                0 <= pp < old(self).tasks@.len() && old(self).tasks@[pp] is Some ==> (
                #[trigger] final(self).tasks@[pp]) is Some && final(self).tasks@[pp].unwrap()
                    .inner.task_info.syscall_times@ == old(self).tasks@[pp].unwrap()
                    .inner.task_info.syscall_times@ && final(self).tasks@[pp].unwrap()
                    .inner.task_info.syscall_list@ == old(self).tasks@[pp].unwrap()
                    .inner.task_info.syscall_list@,
            old(self).current is Some || old(self).manager.ready_queue@.len() > 0 <==> r
                is Some,
            r matches Some(p) ==> final(self).current == Some(p) && final(self).tasks@[p as int]
                is Some && final(self).tasks@[p as int].unwrap().inner.task_status
                == TaskStatus::Running,
            old(self).current matches Some(c) ==> (r matches Some(p) && (p != c ==> final(self).tasks@[c as int] is Some && final(self).tasks@[c as int].unwrap()
                .inner.task_status == TaskStatus::Ready) && (exists|k: int|
                crate::manager::min_stride_selection(
                    old(self).manager.ready_queue@.push(c),
                    final(self).manager.ready_queue@,
                    old(self).tasks@,
                    p,
                    k,
                ))),
    {
        let c = match self.current {
            Some(c) => c,
            None => {
                return self.run_next_task(now_us);
            },
        };
        let ghost k0 = *self;
        proof {
            assert((c as usize) as int == c as int);
        }
        let slot = &mut self.tasks[c as usize];
        match slot {
            Some(t) => {
                t.inner.task_status = TaskStatus::Ready;
            },
            None => {
                unreached()
            },
        }
        self.manager.add(c);
        self.current = None;
        proof {
            // the formerly current task was not queued: queued tasks were
            // ready, it was running
            assert forall|i: int|
                0 <= i < k0.manager.ready_queue@.len() implies #[trigger] k0
                .manager.ready_queue@[i] != c by {
                if k0.manager.ready_queue@[i] == c {
                    assert(k0.tasks@[c as int].unwrap().inner.task_status == TaskStatus::Ready);
                }
            }
            self.lemma_wf_status_change(k0, c as int);
        }
        let ghost kmid = *self;
        let r = self.run_next_task(now_us);
        proof {
            let p = r.unwrap();
            // the selection over the intermediate table carries over to the
            // entry table: only the suspended task's status differs, and
            // stride scheduling reads strides alone
            let k = choose|k: int|
                crate::manager::min_stride_selection(
                    kmid.manager.ready_queue@,
                    self.manager.ready_queue@,
                    kmid.tasks@,
                    p,
                    k,
                );
            assert(crate::manager::min_stride_selection(
                k0.manager.ready_queue@.push(c),
                self.manager.ready_queue@,
                k0.tasks@,
                p,
                k,
            )) by {
                let q0 = kmid.manager.ready_queue@;
                assert(q0 == k0.manager.ready_queue@.push(c));
                assert forall|x: u64|
                    0 <= x < kmid.tasks@.len() implies crate::manager::task_stride(
                    kmid.tasks@,
                    x,
                ) == crate::manager::task_stride(k0.tasks@, x) by {
                    if x != c {
                        assert(kmid.tasks@[x as int] == k0.tasks@[x as int]);
                    }
                }
                assert forall|j: int| 0 <= j < k implies crate::manager::task_stride(
                    k0.tasks@,
                    #[trigger] q0[j],
                ) > crate::manager::task_stride(k0.tasks@, p) by {
                    assert(crate::manager::task_stride(kmid.tasks@, q0[j])
                        > crate::manager::task_stride(kmid.tasks@, p));
                    assert(q0[j] < kmid.tasks@.len());
                    assert(p < kmid.tasks@.len());
                }
                assert forall|j: int| 0 <= j < q0.len() implies crate::manager::task_stride(
                    k0.tasks@,
                    #[trigger] q0[j],
                ) >= crate::manager::task_stride(k0.tasks@, p) by {
                    assert(crate::manager::task_stride(kmid.tasks@, q0[j])
                        >= crate::manager::task_stride(kmid.tasks@, p));
                    assert(q0[j] < kmid.tasks@.len());
                    assert(p < kmid.tasks@.len());
                }
            }
            if p != c {
                assert(self.tasks@[c as int] == kmid.tasks@[c as int]);
            }
        }
        r
    }

    /// Retire the current task: mark it a zombie holding its exit code,
    /// hand its children to its own parent (a surviving ancestor), and
    /// dispatch the next task. The zombie keeps its address space until it
    /// is reaped.
    pub fn exit_current_and_run_next(&mut self, exit_code: i32, now_us: u64) -> (r: Option<u64>)
        requires
            old(self).wf(),
        ensures
            final(self).wf(),
            final(self).tasks@.len() == old(self).tasks@.len(),
            forall|pp: int|
                0 <= pp < old(self).tasks@.len() && old(self).tasks@[pp] is Some ==> (
                #[trigger] final(self).tasks@[pp]) is Some && final(self).tasks@[pp].unwrap()
                    .inner.task_info.syscall_times@ == old(self).tasks@[pp].unwrap()
                    .inner.task_info.syscall_times@ && final(self).tasks@[pp].unwrap()
                    .inner.task_info.syscall_list@ == old(self).tasks@[pp].unwrap()
                    .inner.task_info.syscall_list@,
            old(self).current matches Some(c) ==> c < final(self).tasks@.len() && final(self).tasks@[c as int] is Some && final(self).tasks@[c as int].unwrap().inner.task_status
                == TaskStatus::Zombie && final(self).tasks@[c as int].unwrap().inner.exit_code
                == exit_code && final(self).tasks@[c as int].unwrap().inner.children@.len() == 0,
            // every child of the exiting task is handed to the exiting
            // task's own parent, a surviving ancestor
            old(self).current matches Some(c) ==> (forall|j: int|
                0 <= j < old(self).tasks@[c as int].unwrap().inner.children@.len() && (
                #[trigger] old(self).tasks@[c as int].unwrap().inner.children@[j])
                    < old(self).tasks@.len() && old(self).tasks@[(old(self).tasks@[c as int]
                    .unwrap().inner.children@[j]) as int] is Some ==> final(self).tasks@[(old(self).tasks@[c as int].unwrap().inner.children@[j]) as int] is Some && final(self).tasks@[(old(self).tasks@[c as int].unwrap().inner.children@[j]) as int].unwrap()
                    .inner.parent == old(self).tasks@[c as int].unwrap().inner.parent),
            old(self).manager.ready_queue@.len() > 0 ==> r is Some,
            r matches Some(p) ==> final(self).current == Some(p) && final(self).tasks@[p as int]
                is Some && final(self).tasks@[p as int].unwrap().inner.task_status
                == TaskStatus::Running,
    {
        let c = match self.current {
            Some(c) => c,
            None => {
                return self.run_next_task(now_us);
            },
        };
        let ghost k0 = *self;
        proof {
            assert((c as usize) as int == c as int);
        }
        let mut parent: Option<u64> = None;
        let mut children: Vec<u64> = Vec::new();
        let slot = &mut self.tasks[c as usize];
        match slot {
            Some(t) => {
                t.inner.task_status = TaskStatus::Zombie;
                t.inner.exit_code = exit_code;
                parent = t.inner.parent;
                core::mem::swap(&mut children, &mut t.inner.children);
            },
            None => {
                unreached()
            },
        }
        self.current = None;
        proof {
            assert forall|i: int|
                0 <= i < k0.manager.ready_queue@.len() implies #[trigger] k0
                .manager.ready_queue@[i] != c by {
                if k0.manager.ready_queue@[i] == c {
                    assert(k0.tasks@[c as int].unwrap().inner.task_status == TaskStatus::Ready);
                }
            }
            self.lemma_wf_status_change(k0, c as int);
        }
        // reparent the children to the exiting task's own parent
        let ghost gpar = parent;
        let n = children.len();
        let mut i: usize = 0;
        while i < n
            invariant
                n == children@.len(),
                0 <= i <= n,
                gpar == parent,
                self.wf(),
                self.current is None,
                c < self.tasks@.len(),
                self.tasks@.len() == k0.tasks@.len(),
                self.manager == k0.manager,
                self.tasks@[c as int] is Some,
                self.tasks@[c as int].unwrap().inner.task_status == TaskStatus::Zombie,
                self.tasks@[c as int].unwrap().inner.exit_code == exit_code,
                self.tasks@[c as int].unwrap().inner.children@.len() == 0,
                forall|p2: int|
                    0 <= p2 < k0.tasks@.len() ==> (#[trigger] self.tasks@[p2] is Some)
                        == (k0.tasks@[p2] is Some),
                forall|p2: int|
                    0 <= p2 < k0.tasks@.len() && k0.tasks@[p2] is Some ==> (
                    #[trigger] self.tasks@[p2]) is Some && self.tasks@[p2].unwrap()
                        .inner.task_info.syscall_times@ == k0.tasks@[p2].unwrap()
                        .inner.task_info.syscall_times@ && self.tasks@[p2].unwrap()
                        .inner.task_info.syscall_list@ == k0.tasks@[p2].unwrap()
                        .inner.task_info.syscall_list@,
                forall|j: int|
                    0 <= j < i && (#[trigger] children@[j]) < self.tasks@.len()
                        && self.tasks@[(children@[j]) as int] is Some ==> self.tasks@[(
                    children@[j]) as int].unwrap().inner.parent == gpar,
            decreases n - i,
        {
            let ghost k1 = *self;
            let child = children[i];
            if child < self.tasks.len() as u64 && self.tasks[child as usize].is_some() {
                proof {
                    assert((child as usize) as int == child as int);
                }
                let slot = &mut self.tasks[child as usize];
                match slot {
                    Some(t) => {
                        t.inner.parent = parent;
                    },
                    None => {
                        unreached()
                    },
                }
                proof {
                    assert(self.tasks@[child as int] is Some ==> self.tasks@[(
                    child) as int].unwrap().inner.parent == parent);
                    if k1.tasks@[child as int] is Some {
                        assert forall|i2: int|
                            0 <= i2 < self.manager.ready_queue@.len() implies (
                        #[trigger] self.tasks@[(self.manager.ready_queue@[i2]) as int]).unwrap()
                            .inner.task_status == TaskStatus::Ready && (
                        self.manager.ready_queue@[i2]) < self.tasks@.len() && self.tasks@[(
                        self.manager.ready_queue@[i2]) as int] is Some by {
                            let qp = k1.manager.ready_queue@[i2];
                            if qp != child {
                                assert(self.tasks@[qp as int] == k1.tasks@[qp as int]);
                            }
                        }
                        self.lemma_wf_status_change(k1, child as int);
                    } else {
                        assert(self.tasks@ =~= k1.tasks@);
                    }
                }
            }
            i = i + 1;
            proof {
                let ch = children@[i - 1];
                assert forall|j: int|
                    0 <= j < i && (#[trigger] children@[j]) < self.tasks@.len()
                        && self.tasks@[(children@[j]) as int] is Some implies self.tasks@[(
                children@[j]) as int].unwrap().inner.parent == gpar by {
                    if children@[j] != ch {
                        assert(self.tasks@[(children@[j]) as int] == k1.tasks@[(
                        children@[j]) as int]);
                    } else {
                        assert(ch < self.tasks@.len() && self.tasks@[ch as int] is Some);
                        assert(self.tasks@[ch as int].unwrap().inner.parent == gpar);
                    }
                }
            }
        }
        let ghost k2 = *self;
        proof {
            assert forall|j: int|
                0 <= j < children@.len() && (#[trigger] children@[j]) < k2.tasks@.len()
                    && k0.tasks@[(children@[j]) as int] is Some implies k2.tasks@[(
            children@[j]) as int] is Some && k2.tasks@[(children@[j]) as int].unwrap()
                .inner.parent == gpar by {}
        }
        let r = self.run_next_task(now_us);
        proof {
            if r is Some {
                let p = r.unwrap();
                assert(k2.tasks@[p as int].unwrap().inner.task_status == TaskStatus::Ready);
                assert(p != c);
                assert(self.tasks@[c as int] == k2.tasks@[c as int]);
                assert forall|j: int|
                    0 <= j < children@.len() && (#[trigger] children@[j]) < self.tasks@.len()
                        && k0.tasks@[(children@[j]) as int] is Some implies self.tasks@[(
                children@[j]) as int] is Some && self.tasks@[(children@[j]) as int].unwrap()
                    .inner.parent == gpar by {
                    let ch = children@[j];
                    assert(k2.tasks@[ch as int] is Some && k2.tasks@[ch as int].unwrap()
                        .inner.parent == gpar);
                    if ch != p {
                        assert(self.tasks@[ch as int] == k2.tasks@[ch as int]);
                    } else {
                        assert(self.tasks@[p as int].unwrap().inner.parent == k2.tasks@[p as int].unwrap().inner.parent);
                    }
                }
            }
            assert forall|pp: int|
                0 <= pp < k0.tasks@.len() && k0.tasks@[pp] is Some implies (
            #[trigger] self.tasks@[pp]) is Some && self.tasks@[pp].unwrap()
                .inner.task_info.syscall_times@ == k0.tasks@[pp].unwrap()
                .inner.task_info.syscall_times@ && self.tasks@[pp].unwrap()
                .inner.task_info.syscall_list@ == k0.tasks@[pp].unwrap()
                .inner.task_info.syscall_list@ by {
                if r is Some && pp == r.unwrap() as int {
                } else {
                    assert(self.tasks@[pp] == k2.tasks@[pp]);
                }
            }
        }
        r
    }
    /// The address-space token of the current task.
    pub fn current_user_token(&self) -> (r: Option<u64>)
        requires
            self.wf(),
        ensures
            r is Some <==> self.current is Some,
    {
        match self.current {
            Some(c) => {
                proof {
                    assert((c as usize) as int == c as int);
                }
                match &self.tasks[c as usize] {
                    Some(t) => Some(t.get_user_token()),
                    None => {
                        unreached()
                    },
                }
            },
            None => None,
        }
    }

    /// The lifecycle status of the current task.
    pub fn current_task_status(&self) -> (r: Option<TaskStatus>)
        requires
            self.wf(),
        ensures
            self.current matches Some(c) ==> r == Some(
                self.tasks@[c as int].unwrap().inner.task_status,
            ),
            self.current is None ==> r is None,
    {
        match self.current {
            Some(c) => {
                proof {
                    assert((c as usize) as int == c as int);
                }
                match &self.tasks[c as usize] {
                    Some(t) => Some(t.get_task_status()),
                    None => {
                        unreached()
                    },
                }
            },
            None => None,
        }
    }

    /// A copy of the current task's per-syscall counters.
    pub fn current_task_syscall_times(&self) -> (r: Option<Vec<u32>>)
        requires
            self.wf(),
        ensures
            self.current matches Some(c) ==> (r matches Some(v) && v@ == self.tasks@[c as int]
                .unwrap().inner.task_info.syscall_times@),
            self.current is None ==> r is None,
    {
        match self.current {
            Some(c) => {
                proof {
                    assert((c as usize) as int == c as int);
                }
                match &self.tasks[c as usize] {
                    Some(t) => Some(t.get_task_syscall_times()),
                    None => {
                        unreached()
                    },
                }
            },
            None => None,
        }
    }

    /// When the current task was first dispatched.
    pub fn current_task_first_dispatched_time(&self) -> (r: Option<u64>)
        requires
            self.wf(),
        ensures
            self.current matches Some(c) ==> r == Some(
                self.tasks@[c as int].unwrap().inner.task_info.first_dispatched_time,
            ),
            self.current is None ==> r is None,
    {
        match self.current {
            Some(c) => {
                proof {
                    assert((c as usize) as int == c as int);
                }
                match &self.tasks[c as usize] {
                    Some(t) => Some(t.get_first_dispatched_time()),
                    None => {
                        unreached()
                    },
                }
            },
            None => None,
        }
    }

    /// Count one syscall invocation against the current task.
    pub fn add_current_task_syscall_times(&mut self, syscall_id: u64)
        requires
            old(self).wf(),
        ensures
            final(self).wf(),
            final(self).current == old(self).current,
            final(self).manager == old(self).manager,
            final(self).frame_allocator == old(self).frame_allocator,
            final(self).tasks@.len() == old(self).tasks@.len(),
            old(self).current is None ==> *final(self) == *old(self),
            old(self).current matches Some(c) ==> final(self).tasks@[c as int] is Some && (forall|
                pp: int,
            |
                0 <= pp < old(self).tasks@.len() && pp != c ==> final(self).tasks@[pp] == old(self).tasks@[pp]) && (syscall_id < crate::config::MAX_SYSCALL_NUM as u64
                ==> final(self).tasks@[c as int].unwrap().inner.task_info.syscall_times@ == old(self).tasks@[c as int].unwrap().inner.task_info.syscall_times@.update(
                syscall_id as int,
                (old(self).tasks@[c as int].unwrap().inner.task_info.syscall_times@[
                    syscall_id as int] as u32).wrapping_add(1u32),
            )) && (syscall_id >= crate::config::MAX_SYSCALL_NUM as u64 ==> final(self).tasks@[
                c as int].unwrap().inner.task_info.syscall_times@ == old(self).tasks@[c as int]
                .unwrap().inner.task_info.syscall_times@) && final(self).tasks@[c as int]
                .unwrap().inner.task_info.syscall_list@ == old(self).tasks@[c as int].unwrap()
                .inner.task_info.syscall_list@ && final(self).tasks@[c as int].unwrap()
                .inner.memory_set == old(self).tasks@[c as int].unwrap().inner.memory_set
                && final(self).tasks@[c as int].unwrap().inner.heap_bottom == old(self).tasks@[
                c as int].unwrap().inner.heap_bottom && final(self).tasks@[c as int].unwrap()
                .inner.program_brk == old(self).tasks@[c as int].unwrap().inner.program_brk
                && final(self).tasks@[c as int].unwrap().inner.task_status == old(self).tasks@[
                c as int].unwrap().inner.task_status,
    {
        let c = match self.current {
            Some(c) => c,
            None => {
                return ;
            },
        };
        let ghost k0 = *self;
        proof {
            assert((c as usize) as int == c as int);
        }
        let slot = &mut self.tasks[c as usize];
        match slot {
            Some(t) => {
                t.add_task_syscall_times(syscall_id);
            },
            None => {
                unreached()
            },
        }
        proof {
            self.lemma_wf_status_change(k0, c as int);
        }
    }

    /// Record one syscall invocation in the current task's list.
    pub fn add_current_task_syscall_info(&mut self, info: crate::syscall::SyscallInfo)
        requires
            old(self).wf(),
        ensures
            final(self).wf(),
            final(self).current == old(self).current,
            final(self).manager == old(self).manager,
            final(self).frame_allocator == old(self).frame_allocator,
            final(self).tasks@.len() == old(self).tasks@.len(),
            old(self).current is None ==> *final(self) == *old(self),
            old(self).current matches Some(c) ==> final(self).tasks@[c as int] is Some && (forall|
                pp: int,
            |
                0 <= pp < old(self).tasks@.len() && pp != c ==> final(self).tasks@[pp] == old(self).tasks@[pp]) && final(self).tasks@[c as int].unwrap()
                .inner.task_info.syscall_list@ == old(self).tasks@[c as int].unwrap()
                .inner.task_info.syscall_list@.push(info) && final(self).tasks@[c as int]
                .unwrap().inner.task_info.syscall_times@ == old(self).tasks@[c as int].unwrap()
                .inner.task_info.syscall_times@ && final(self).tasks@[c as int].unwrap()
                .inner.memory_set == old(self).tasks@[c as int].unwrap().inner.memory_set
                && final(self).tasks@[c as int].unwrap().inner.heap_bottom == old(self).tasks@[
                c as int].unwrap().inner.heap_bottom && final(self).tasks@[c as int].unwrap()
                .inner.program_brk == old(self).tasks@[c as int].unwrap().inner.program_brk
                && final(self).tasks@[c as int].unwrap().inner.task_status == old(self).tasks@[
                c as int].unwrap().inner.task_status,
    {
        let c = match self.current {
            Some(c) => c,
            None => {
                return ;
            },
        };
        let ghost k0 = *self;
        proof {
            assert((c as usize) as int == c as int);
        }
        let slot = &mut self.tasks[c as usize];
        match slot {
            Some(t) => {
                t.add_task_syscall_info(info);
            },
            None => {
                unreached()
            },
        }
        proof {
            self.lemma_wf_status_change(k0, c as int);
        }
    }

    /// `mmap` for the current task; `-1` when no task is running.
    pub fn current_task_mmap(&mut self, start: u64, len: u64, port: u64) -> (r: i64)
        requires
            old(self).wf(),
        ensures
            final(self).wf(),
            final(self).current == old(self).current,
            final(self).manager == old(self).manager,
            final(self).pid_allocator == old(self).pid_allocator,
            final(self).tasks@.len() == old(self).tasks@.len(),
            r == 0 || r == -1,
            old(self).current is None ==> r == -1 && *final(self) == *old(self),
            old(self).current matches Some(c) ==> final(self).tasks@[c as int] is Some
                && (forall|pp: int|
                0 <= pp < old(self).tasks@.len() && pp != c ==> final(self).tasks@[pp] == old(self).tasks@[pp]) && mmap_transition(
                old(self).tasks@[c as int].unwrap().inner.memory_set,
                final(self).tasks@[c as int].unwrap().inner.memory_set,
                old(self).tasks@[c as int].unwrap().inner.heap_bottom,
                old(self).frame_allocator,
                final(self).frame_allocator,
                start,
                len,
                port,
                r,
            ) && final(self).tasks@[c as int].unwrap().inner.task_info == old(self).tasks@[
                c as int].unwrap().inner.task_info,
    {
        let c = match self.current {
            Some(c) => c,
            None => {
                return -1;
            },
        };
        let ghost k0 = *self;
        proof {
            assert((c as usize) as int == c as int);
        }
        let mut r: i64 = -1;
        let slot = &mut self.tasks[c as usize];
        match slot {
            Some(t) => {
                r = t.alloc_memory(start, len, port, &mut self.frame_allocator);
            },
            None => {
                unreached()
            },
        }
        proof {
            self.lemma_wf_after_task_op(k0, c as int);
        }
        r
    }

    /// `munmap` for the current task; `-1` when no task is running.
    pub fn current_task_munmap(&mut self, start: u64, len: u64) -> (r: i64)
        requires
            old(self).wf(),
        ensures
            final(self).wf(),
            final(self).current == old(self).current,
            final(self).manager == old(self).manager,
            final(self).pid_allocator == old(self).pid_allocator,
            final(self).tasks@.len() == old(self).tasks@.len(),
            r == 0 || r == -1,
            old(self).current is None ==> r == -1 && *final(self) == *old(self),
            old(self).current matches Some(c) ==> final(self).tasks@[c as int] is Some
                && (forall|pp: int|
                0 <= pp < old(self).tasks@.len() && pp != c ==> final(self).tasks@[pp] == old(self).tasks@[pp]) && munmap_transition(
                old(self).tasks@[c as int].unwrap().inner.memory_set,
                final(self).tasks@[c as int].unwrap().inner.memory_set,
                old(self).tasks@[c as int].unwrap().inner.heap_bottom,
                old(self).frame_allocator,
                final(self).frame_allocator,
                start,
                len,
                r,
            ) && final(self).tasks@[c as int].unwrap().inner.task_info == old(self).tasks@[
                c as int].unwrap().inner.task_info,
    {
        let c = match self.current {
            Some(c) => c,
            None => {
                return -1;
            },
        };
        let ghost k0 = *self;
        proof {
            assert((c as usize) as int == c as int);
        }
        let mut r: i64 = -1;
        let slot = &mut self.tasks[c as usize];
        match slot {
            Some(t) => {
                r = t.dealloc(start, len, &mut self.frame_allocator);
            },
            None => {
                unreached()
            },
        }
        proof {
            self.lemma_wf_after_task_op(k0, c as int);
        }
        r
    }

    /// Move the current task's program break; `None` when no task is
    /// running or the request is rejected.
    pub fn change_program_brk(&mut self, size: i32) -> (r: Option<u64>)
        requires
            old(self).wf(),
        ensures
            final(self).wf(),
            final(self).current == old(self).current,
            final(self).manager == old(self).manager,
            final(self).pid_allocator == old(self).pid_allocator,
            final(self).tasks@.len() == old(self).tasks@.len(),
            old(self).current is None ==> r is None && *final(self) == *old(self),
            old(self).current matches Some(c) ==> final(self).tasks@[c as int] is Some
                && (forall|pp: int|
                0 <= pp < old(self).tasks@.len() && pp != c ==> final(self).tasks@[pp] == old(self).tasks@[pp]) && brk_transition(
                old(self).tasks@[c as int].unwrap().inner.memory_set,
                final(self).tasks@[c as int].unwrap().inner.memory_set,
                old(self).tasks@[c as int].unwrap().inner.heap_bottom,
                old(self).tasks@[c as int].unwrap().inner.program_brk,
                final(self).tasks@[c as int].unwrap().inner.program_brk,
                old(self).frame_allocator,
                final(self).frame_allocator,
                size,
                r,
            ) && final(self).tasks@[c as int].unwrap().inner.task_info == old(self).tasks@[
                c as int].unwrap().inner.task_info,
    {
        let c = match self.current {
            Some(c) => c,
            None => {
                return None;
            },
        };
        let ghost k0 = *self;
        proof {
            assert((c as usize) as int == c as int);
        }
        let mut r: Option<u64> = None;
        let slot = &mut self.tasks[c as usize];
        match slot {
            Some(t) => {
                r = t.change_program_brk(size, &mut self.frame_allocator);
            },
            None => {
                unreached()
            },
        }
        proof {
            self.lemma_wf_after_task_op(k0, c as int);
        }
        r
    }
}

/// A page owned by a well-formed task is allocated.
proof fn lemma_owned_is_allocated(t: TaskControlBlock, fa: StackFrameAllocator, q: u64)
    requires
        t.wf_with(fa),
        t.inner.memory_set.owns(q),
    ensures
        fa.allocated(q),
{
    if t.inner.memory_set.page_table.owns_frame(q) {
        let j = choose|j: int|
            0 <= j < t.inner.memory_set.page_table.nodes@.len()
                && t.inner.memory_set.page_table.node_ppn(j) == q;
    } else {
        let (ai, o) = choose|ai: int, o: int|
            0 <= ai < t.inner.memory_set.areas@.len() && 0 <= o
                < t.inner.memory_set.areas@[ai].frames@.len()
                && #[trigger] t.inner.memory_set.frame_ppn(ai, o) == q;
    }
}

} // verus!
