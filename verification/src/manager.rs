//! The ready queue and its scheduling policies: plain FIFO, and stride
//! scheduling, where the task with the minimal accumulated stride is always
//! dispatched next and then advances by `BIG_STRIDE / priority`. A task
//! with twice the priority advances half as fast and is therefore picked
//! about twice as often.
use vstd::prelude::*;
use crate::config::BIG_STRIDE;
use crate::task::{TaskControlBlock, TaskControlBlockInner};

verus! {

/// The stride of the task with identifier `p`.
pub open spec fn task_stride(tasks: Seq<Option<TaskControlBlock>>, p: u64) -> u64 {
    tasks[p as int].unwrap().inner.stride
}

/// Every queued identifier names a live task with a valid priority.
pub open spec fn queue_ok(q: Seq<u64>, tasks: Seq<Option<TaskControlBlock>>) -> bool {
    forall|i: int|
        0 <= i < q.len() ==> (#[trigger] q[i]) < tasks.len() && tasks[q[i] as int] is Some
            && tasks[q[i] as int].unwrap().inner.priority >= 2
}

/// The selection `p` at position `k` obeys stride scheduling: no earlier
/// entry has a stride as small, no entry anywhere has a smaller one, and
/// the queue afterwards is the queue without that position.
pub open spec fn min_stride_selection(
    q0: Seq<u64>,
    q1: Seq<u64>,
    tasks: Seq<Option<TaskControlBlock>>,
    p: u64,
    k: int,
) -> bool {
    &&& 0 <= k < q0.len()
    &&& q0[k] == p
    &&& q1 == q0.remove(k)
    &&& forall|j: int| 0 <= j < k ==> task_stride(tasks, #[trigger] q0[j]) > task_stride(tasks, p)
    &&& forall|j: int|
        0 <= j < q0.len() ==> task_stride(tasks, #[trigger] q0[j]) >= task_stride(tasks, p)
}

/// The dispatched task with its stride advanced by `BIG_STRIDE / priority`
/// (saturating at the top of the counter's range).
pub open spec fn stride_bumped(t: TaskControlBlock) -> TaskControlBlock {
    TaskControlBlock {
        inner: TaskControlBlockInner {
            stride: if t.inner.stride + BIG_STRIDE / (t.inner.priority as u64) <= u64::MAX {
                (t.inner.stride + BIG_STRIDE / (t.inner.priority as u64)) as u64
            } else {
                u64::MAX
            },
            ..t.inner
        },
        ..t
    }
}

/// The ready queue of runnable tasks, in arrival order.
pub struct TaskManager {
    /// Identifiers of the ready tasks.
    pub ready_queue: Vec<u64>,
}

impl TaskManager {
    /// An empty ready queue.
    pub fn new() -> (r: TaskManager)
        ensures
            r.ready_queue@.len() == 0,
    {
        TaskManager { ready_queue: Vec::new() }
    }

    /// Append a task to the back of the queue.
    pub fn add(&mut self, task: u64)
        ensures
            final(self).ready_queue@ == old(self).ready_queue@.push(task),
    {
        self.ready_queue.push(task);
    }

    /// Plain FIFO policy: take the task at the front of the queue.
    pub fn fetch(&mut self) -> (r: Option<u64>)
        ensures
            old(self).ready_queue@.len() == 0 ==> r is None && final(self).ready_queue@ == old(
                self,
            ).ready_queue@,
            old(self).ready_queue@.len() > 0 ==> r == Some(old(self).ready_queue@[0]) && final(self).ready_queue@ == old(self).ready_queue@.subrange(
                1,
                old(self).ready_queue@.len() as int,
            ),
    {
        if self.ready_queue.len() == 0 {
            return None;
        }
        let p = self.ready_queue.remove(0);
        proof {
            assert(self.ready_queue@ =~= old(self).ready_queue@.subrange(
                1,
                old(self).ready_queue@.len() as int,
            ));
        }
        Some(p)
    }

    /// Stride policy: select the queued task with the smallest stride
    /// (first one wins on a tie), remove it from the queue, and advance its
    /// stride by `BIG_STRIDE / priority` before returning it.
    pub fn fetch_min_stride_task(&mut self, tasks: &mut Vec<Option<TaskControlBlock>>) -> (r:
        Option<u64>)
        requires
            queue_ok(old(self).ready_queue@, old(tasks)@),
        ensures
            final(tasks)@.len() == old(tasks)@.len(),
            old(self).ready_queue@.len() == 0 ==> r is None && final(self).ready_queue@ == old(
                self,
            ).ready_queue@ && final(tasks)@ == old(tasks)@,
            r matches Some(p) ==> {
                &&& (exists|k: int|
                    min_stride_selection(
                        old(self).ready_queue@,
                        final(self).ready_queue@,
                        old(tasks)@,
                        p,
                        k,
                    ))
                &&& p < old(tasks)@.len()
                &&& old(tasks)@[p as int] is Some
                &&& final(tasks)@ == old(tasks)@.update(
                    p as int,
                    Some(stride_bumped(old(tasks)@[p as int].unwrap())),
                )
            },
            old(self).ready_queue@.len() > 0 ==> r is Some,
    {
        let n = self.ready_queue.len();
        if n == 0 {
            return None;
        }
        let tlen = tasks.len();
        let ghost q0 = self.ready_queue@;
        let p0 = self.ready_queue[0];
        proof {
            assert(q0[0] == p0);
            assert(q0[0] < tasks@.len() && tasks@[q0[0] as int] is Some);
            assert((p0 as usize) as int == p0 as int);
        }
        let mut min_stride: u64 = match &tasks[p0 as usize] {
            Some(t) => t.inner.stride,
            None => {
                unreached()
            },
        };
        let mut min_idx: usize = 0;
        let mut i: usize = 1;
        while i < n
            invariant
                n == self.ready_queue@.len(),
                self.ready_queue@ == q0,
                queue_ok(q0, tasks@),
                tlen == tasks@.len(),
                0 <= min_idx < i <= n,
                min_stride == task_stride(tasks@, q0[min_idx as int]),
                forall|j: int| 0 <= j < i ==> task_stride(tasks@, #[trigger] q0[j]) >= min_stride,
                forall|j: int| 0 <= j < min_idx ==> task_stride(tasks@, #[trigger] q0[j])
                    > min_stride,
            decreases n - i,
        {
            let pi = self.ready_queue[i];
            proof {
                assert(q0[i as int] == pi);
                assert(q0[i as int] < tasks@.len() && tasks@[q0[i as int] as int] is Some);
                assert((pi as usize) as int == pi as int);
            }
            let s = match &tasks[pi as usize] {
                Some(t) => t.inner.stride,
                None => {
                    unreached()
                },
            };
            if s < min_stride {
                min_idx = i;
                min_stride = s;
            }
            i = i + 1;
        }
        let p = self.ready_queue.remove(min_idx);
        proof {
            assert(q0[min_idx as int] == p);
            assert(q0[min_idx as int] < tasks@.len() && tasks@[q0[min_idx as int] as int]
                is Some);
            assert((p as usize) as int == p as int);
            assert(min_stride_selection(
                q0,
                self.ready_queue@,
                tasks@,
                p,
                min_idx as int,
            ));
        }
        let slot = &mut tasks[p as usize];
        match slot {
            Some(t) => {
                let inc = BIG_STRIDE / (t.inner.priority as u64);
                if t.inner.stride <= u64::MAX - inc {
                    t.inner.stride = t.inner.stride + inc;
                } else {
                    t.inner.stride = u64::MAX;
                }
            },
            None => {
                unreached()
            },
        }
        Some(p)
    }
}

} // verus!
