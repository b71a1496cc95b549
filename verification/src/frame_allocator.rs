//! The physical frame allocator: a contiguous never-yet-allocated range
//! `[current, end)` plus a stack of recycled page numbers.
//!
//! Allocation pops the recycled stack first (most-recently-freed reuse) and
//! otherwise advances `current`. Releasing a page that is not currently
//! allocated is a corruption check and is rejected loudly.
use vstd::prelude::*;
use crate::KernelError;
use crate::config::{PAGE_SIZE, PPN_LIMIT};

verus! {

/// Ownership handle for one physical page frame, carrying the page's
/// contents. Each live frame has at most one tracker outstanding; a tracker
/// is moved, never duplicated, and its page returns to the free set only
/// through an explicit release.
pub struct FrameTracker {
    /// The physical page number this handle owns.
    pub ppn: u64,
    /// The 4 KiB of the page.
    pub bytes: Vec<u8>,
}

impl FrameTracker {
    /// The tracker owns exactly one page of bytes.
    pub open spec fn wf(self) -> bool {
        self.bytes@.len() == PAGE_SIZE
    }

    /// Create a handle for a freshly allocated frame; the page is
    /// zero-filled so that no stale data leaks across reuse.
    pub fn new(ppn: u64) -> (r: FrameTracker)
        ensures
            r.ppn == ppn,
            r.wf(),
            forall|i: int| 0 <= i < PAGE_SIZE ==> r.bytes@[i] == 0u8,
    {
        let bytes: Vec<u8> = vec![0u8; PAGE_SIZE as usize];
        FrameTracker { ppn, bytes }
    }
}

/// The recycling-stack frame allocator.
pub struct StackFrameAllocator {
    /// First physical page never yet handed out.
    pub current: u64,
    /// One past the last manageable physical page.
    pub end: u64,
    /// Previously released page numbers, most recent on top.
    pub recycled: Vec<u64>,
}

impl StackFrameAllocator {
    /// Structural invariant: recycled entries are pairwise distinct and all
    /// below `current`; the managed range is within the physical page space.
    pub open spec fn wf(self) -> bool {
        &&& self.current <= self.end
        &&& self.end <= PPN_LIMIT
        &&& forall|i: int| 0 <= i < self.recycled@.len() ==> self.recycled@[i] < self.current
        &&& forall|i: int, j: int|
            0 <= i < j < self.recycled@.len() ==> self.recycled@[i] != self.recycled@[j]
    }

    /// A page counts as allocated when it lies below the never-allocated
    /// range and is not on the recycled stack.
    pub open spec fn allocated(self, ppn: u64) -> bool {
        ppn < self.current && !self.recycled@.contains(ppn)
    }

    /// Whether a further allocation can succeed.
    pub open spec fn has_free(self) -> bool {
        self.recycled@.len() > 0 || self.current < self.end
    }

    /// How many allocations can still succeed.
    pub open spec fn free_count(self) -> int {
        self.recycled@.len() + self.end - self.current
    }

    /// An empty allocator; `init` gives it its range.
    pub fn new() -> (r: StackFrameAllocator)
        ensures
            r.wf(),
            r.current == 0,
            r.end == 0,
            r.recycled@.len() == 0,
            forall|p: u64| !r.allocated(p),
    {
        StackFrameAllocator { current: 0, end: 0, recycled: Vec::new() }
    }

    /// Hand the allocator its range of free physical pages `[l, r)`.
    pub fn init(&mut self, l: u64, r: u64)
        requires
            old(self).recycled@.len() == 0,
            l <= r,
            r <= PPN_LIMIT,
        ensures
            final(self).wf(),
            final(self).current == l,
            final(self).end == r,
            final(self).recycled@.len() == 0,
            forall|p: u64| final(self).allocated(p) == (p < l),
    {
        self.current = l;
        self.end = r;
    }

    /// Allocate one physical page: pop the recycled stack, else take
    /// `current`. Returns `None` exactly when the allocator is exhausted.
    pub fn allocate(&mut self) -> (r: Option<u64>)
        requires
            old(self).wf(),
        ensures
            final(self).wf(),
            final(self).end == old(self).end,
            r is Some <==> old(self).has_free(),
            r is Some ==> final(self).free_count() == old(self).free_count() - 1,
            r is None ==> final(self).current == old(self).current && final(self).recycled@
                == old(self).recycled@ && old(self).free_count() == 0,
            old(self).recycled@.len() > 0 ==> r == Some(old(self).recycled@.last()) && final(self).recycled@ == old(self).recycled@.drop_last() && final(self).current == old(self).current,
            old(self).recycled@.len() == 0 && old(self).current < old(self).end ==> r == Some(
                old(self).current,
            ) && final(self).current == old(self).current + 1 && final(self).recycled@ == old(self).recycled@,
            r matches Some(p) ==> {
                &&& !old(self).allocated(p)
                &&& p < old(self).end
                &&& final(self).allocated(p)
                &&& forall|q: u64| q != p ==> final(self).allocated(q) == old(self).allocated(q)
            },
    {
        let popped = self.recycled.pop();
        match popped {
            Some(ppn) => {
                proof {
                    assert(old(self).recycled@.contains(ppn));
                    assert forall|q: u64| q != ppn implies
                        self.allocated(q) == old(self).allocated(q) by {
                        if old(self).recycled@.contains(q) {
                            let i = choose|i: int|
                                0 <= i < old(self).recycled@.len() && old(self).recycled@[i] == q;
                            assert(i < old(self).recycled@.len() - 1);
                            assert(self.recycled@[i] == q);
                        } else {
                            if self.recycled@.contains(q) {
                                let i = choose|i: int|
                                    0 <= i < self.recycled@.len() && self.recycled@[i] == q;
                                assert(old(self).recycled@[i] == q);
                            }
                        }
                    }
                    if self.recycled@.contains(ppn) {
                        let i = choose|i: int|
                            0 <= i < self.recycled@.len() && self.recycled@[i] == ppn;
                        assert(old(self).recycled@[i] == ppn);
                        assert(old(self).recycled@[old(self).recycled@.len() - 1] == ppn);
                    }
                }
                Some(ppn)
            },
            None => {
                if self.current == self.end {
                    None
                } else {
                    let ppn = self.current;
                    self.current = self.current + 1;
                    proof {
                        assert(!old(self).recycled@.contains(ppn));
                    }
                    Some(ppn)
                }
            },
        }
    }

    /// Release one physical page back to the recycled stack. A page still in
    /// the never-allocated range or already recycled is rejected: releasing
    /// it would be a double release or a release of a never-allocated page.
    pub fn dealloc(&mut self, ppn: u64) -> (r: Result<(), KernelError>)
        requires
            old(self).wf(),
        ensures
            final(self).wf(),
            final(self).current == old(self).current,
            final(self).end == old(self).end,
            r is Ok <==> old(self).allocated(ppn),
            r is Ok ==> final(self).free_count() == old(self).free_count() + 1,
            r is Err ==> final(self).recycled@ == old(self).recycled@ && r == Err::<(),
                KernelError,
            >(KernelError::FrameNotAllocated),
            r is Ok ==> {
                &&& final(self).recycled@ == old(self).recycled@.push(ppn)
                &&& !final(self).allocated(ppn)
                &&& forall|q: u64| q != ppn ==> final(self).allocated(q) == old(self).allocated(q)
            },
    {
        if ppn >= self.current {
            return Err(KernelError::FrameNotAllocated);
        }
        let n = self.recycled.len();
        let mut i: usize = 0;
        while i < n
            invariant
                n == self.recycled@.len(),
                0 <= i <= n,
                forall|j: int| 0 <= j < i ==> self.recycled@[j] != ppn,
                self.wf(),
                self.current == old(self).current,
                self.end == old(self).end,
                self.recycled@ == old(self).recycled@,
                ppn < self.current,
            decreases n - i,
        {
            if *vstd::slice::slice_index_get(self.recycled.as_slice(), i) == ppn {
                return Err(KernelError::FrameNotAllocated);
            }
            i = i + 1;
        }
        proof {
            assert(!self.recycled@.contains(ppn));
        }
        self.recycled.push(ppn);
        proof {
            assert forall|q: u64| q != ppn implies
                self.allocated(q) == old(self).allocated(q) by {
                if self.recycled@.contains(q) {
                    let k = choose|k: int|
                        0 <= k < self.recycled@.len() && self.recycled@[k] == q;
                    assert(k < self.recycled@.len() - 1);
                    assert(old(self).recycled@[k] == q);
                } else {
                    if old(self).recycled@.contains(q) {
                        let k = choose|k: int|
                            0 <= k < old(self).recycled@.len() && old(self).recycled@[k] == q;
                        assert(self.recycled@[k] == q);
                    }
                }
            }
            assert(self.recycled@[self.recycled@.len() - 1] == ppn);
        }
        Ok(())
    }
}

/// Allocate a frame and wrap it in an ownership handle, zero-filled.
pub fn frame_alloc(fa: &mut StackFrameAllocator) -> (r: Option<FrameTracker>)
    requires
        old(fa).wf(),
    ensures
        final(fa).wf(),
        final(fa).end == old(fa).end,
        r is Some <==> old(fa).has_free(),
        r is Some ==> final(fa).free_count() == old(fa).free_count() - 1,
        r is None ==> final(fa).current == old(fa).current && final(fa).recycled@
            == old(fa).recycled@ && old(fa).free_count() == 0,
        old(fa).recycled@.len() > 0 ==> (r matches Some(ft) && ft.ppn == old(fa).recycled@.last()) && final(fa).recycled@ == old(fa).recycled@.drop_last(),
        old(fa).recycled@.len() == 0 && old(fa).current < old(fa).end ==> (r matches Some(ft)
            && ft.ppn == old(fa).current) && final(fa).current == old(fa).current + 1,
        r matches Some(ft) ==> {
            &&& ft.wf()
            &&& forall|i: int| 0 <= i < PAGE_SIZE ==> ft.bytes@[i] == 0u8
            &&& !old(fa).allocated(ft.ppn)
            &&& ft.ppn < old(fa).end
            &&& final(fa).allocated(ft.ppn)
            &&& forall|q: u64| q != ft.ppn ==> final(fa).allocated(q) == old(fa).allocated(q)
        },
{
    match fa.allocate() {
        Some(ppn) => Some(FrameTracker::new(ppn)),
        None => None,
    }
}

/// Release the frame a handle owns, consuming the handle.
pub fn frame_dealloc(fa: &mut StackFrameAllocator, frame: FrameTracker) -> (r: Result<
    (),
    KernelError,
>)
    requires
        old(fa).wf(),
    ensures
        final(fa).wf(),
        final(fa).current == old(fa).current,
        final(fa).end == old(fa).end,
        r is Ok <==> old(fa).allocated(frame.ppn),
        r is Ok ==> final(fa).free_count() == old(fa).free_count() + 1,
        r is Err ==> final(fa).recycled@ == old(fa).recycled@,
        r is Ok ==> {
            &&& !final(fa).allocated(frame.ppn)
            &&& forall|q: u64| q != frame.ppn ==> final(fa).allocated(q) == old(fa).allocated(q)
        },
{
    fa.dealloc(frame.ppn)
}

/// One allocation step, seen abstractly: page `p` was free, is now
/// allocated, and no other page changed state.
pub open spec fn alloc_transition(
    pre: StackFrameAllocator,
    post: StackFrameAllocator,
    p: u64,
) -> bool {
    &&& !pre.allocated(p)
    &&& post.allocated(p)
    &&& forall|q: u64| q != p ==> post.allocated(q) == pre.allocated(q)
}

/// No two live frame handles ever carry the same physical page number:
/// whatever sequence of allocations and releases led to `pre`, a page `p1`
/// that is still allocated when a further allocation returns `p2` is
/// distinct from `p2`, and stays allocated.
pub proof fn lemma_live_frames_distinct(
    pre: StackFrameAllocator,
    post: StackFrameAllocator,
    p1: u64,
    p2: u64,
)
    requires
        pre.allocated(p1),
        alloc_transition(pre, post, p2),
    ensures
        p1 != p2,
        post.allocated(p1),
{
}

} // verus!
