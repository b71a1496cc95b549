//! Address spaces: an ordered collection of mapped regions backed by one
//! page table. Regions never overlap; every page of a region is mapped in
//! the owning page table with the region's permissions, and every valid
//! mapping belongs to some region.
use vstd::prelude::*;
use crate::KernelError;
use crate::config::{
    PAGE_SIZE, TRAMPOLINE, TRAP_CONTEXT_BASE, USER_STACK_SIZE, VADDR_LIMIT, VPN_LIMIT,
};
use crate::addr::{
    page_ceil, page_floor, page_offset, spec_is_aligned, spec_page_ceil, spec_page_floor,
    spec_page_offset,
};
use crate::frame_allocator::{frame_alloc, FrameTracker, StackFrameAllocator};
use crate::page_table::{PageTable, FLAG_V};

verus! {

/// Region permission: readable.
pub const PERM_R: u8 = 2;
/// Region permission: writable.
pub const PERM_W: u8 = 4;
/// Region permission: executable.
pub const PERM_X: u8 = 8;
/// Region permission: user-accessible.
pub const PERM_U: u8 = 16;

/// One mapped region: a right-open range of virtual pages, its permissions,
/// and the frame it owns for each page.
pub struct MapArea {
    /// First virtual page of the region.
    pub start_vpn: u64,
    /// One past the last virtual page of the region.
    pub end_vpn: u64,
    /// Permission bits the region's pages are mapped with.
    pub perm: u8,
    /// The owned frame backing each page, in page order.
    pub frames: Vec<FrameTracker>,
}

/// A region is internally consistent: an in-range page span with one
/// well-formed frame per page.
pub open spec fn area_wf(a: MapArea) -> bool {
    &&& a.start_vpn <= a.end_vpn
    &&& a.end_vpn <= VPN_LIMIT
    &&& a.frames@.len() == a.end_vpn - a.start_vpn
    &&& forall|o: int| 0 <= o < a.frames@.len() ==> (#[trigger] a.frames@[o]).wf()
}

/// Two regions do not share any page.
pub open spec fn areas_disjoint(a: MapArea, b: MapArea) -> bool {
    a.end_vpn <= b.start_vpn || b.end_vpn <= a.start_vpn
}

/// An address space: mapped regions backed by one page table.
pub struct MemorySet {
    /// The page table holding every mapping of this address space.
    pub page_table: PageTable,
    /// The mapped regions.
    pub areas: Vec<MapArea>,
}

/// Page `vpn` is mapped to frame `ppn` with flag byte `fl`.
pub open spec fn page_maps(pt: PageTable, vpn: u64, ppn: u64, fl: u8) -> bool {
    &&& pt.is_mapped(vpn)
    &&& pt.mapped_ppn(vpn) == ppn
    &&& pt.mapped_flags(vpn) == fl
}

impl MemorySet {
    /// The frame number backing page `o` of region `ai`.
    pub open spec fn frame_ppn(self, ai: int, o: int) -> u64 {
        self.areas@[ai].frames@[o].ppn
    }

    /// Region `ai`'s pages are all mapped to its frames with its
    /// permissions.
    pub open spec fn area_maps(self, ai: int) -> bool {
        forall|o: int|
            0 <= o < self.areas@[ai].frames@.len() ==> page_maps(
                self.page_table,
                (self.areas@[ai].start_vpn + o) as u64,
                (#[trigger] self.areas@[ai].frames@[o]).ppn,
                self.areas@[ai].perm | FLAG_V,
            )
    }

    /// Page `vpn` lies in some region.
    pub open spec fn covered(self, vpn: u64) -> bool {
        exists|ai: int|
            0 <= ai < self.areas@.len() && (#[trigger] self.areas@[ai]).start_vpn <= vpn
                < self.areas@[ai].end_vpn
    }

    /// The region holding page `vpn`.
    pub open spec fn spec_find_area(self, vpn: u64) -> int {
        choose|ai: int|
            0 <= ai < self.areas@.len() && (#[trigger] self.areas@[ai]).start_vpn <= vpn
                < self.areas@[ai].end_vpn
    }

    /// The byte stored at virtual address `va` (meaningful when the page of
    /// `va` is covered).
    pub open spec fn spec_byte(self, va: u64) -> u8 {
        let vpn = spec_page_floor(va);
        let ai = self.spec_find_area(vpn);
        let a = self.areas@[ai];
        a.frames@[vpn - a.start_vpn].bytes@[spec_page_offset(va) as int]
    }

    /// Structural invariant of the address space together with the frame
    /// allocator that backs it.
    pub open spec fn wf_with(self, fa: StackFrameAllocator) -> bool {
        &&& self.page_table.wf_with(fa)
        &&& forall|ai: int| 0 <= ai < self.areas@.len() ==> area_wf(#[trigger] self.areas@[ai])
        &&& forall|ai: int, bi: int|
            #![trigger self.areas@[ai], self.areas@[bi]]
            0 <= ai < self.areas@.len() && 0 <= bi < self.areas@.len() && ai != bi
                ==> areas_disjoint(self.areas@[ai], self.areas@[bi])
        &&& forall|ai: int| 0 <= ai < self.areas@.len() ==> self.area_maps(ai)
        &&& forall|v: u64|
            v < VPN_LIMIT && #[trigger] self.page_table.is_mapped(v) ==> self.covered(v)
        &&& forall|ai: int, o: int|
            0 <= ai < self.areas@.len() && 0 <= o < self.areas@[ai].frames@.len()
                ==> fa.allocated(#[trigger] self.frame_ppn(ai, o))
        &&& forall|ai: int, o: int, bi: int, o2: int|
            #![trigger self.frame_ppn(ai, o), self.frame_ppn(bi, o2)]
            0 <= ai < self.areas@.len() && 0 <= o < self.areas@[ai].frames@.len() && 0 <= bi
                < self.areas@.len() && 0 <= o2 < self.areas@[bi].frames@.len() && !(ai == bi && o
                == o2) ==> self.frame_ppn(ai, o) != self.frame_ppn(bi, o2)
        &&& forall|ai: int, o: int, j: int|
            #![trigger self.frame_ppn(ai, o), self.page_table.node_ppn(j)]
            0 <= ai < self.areas@.len() && 0 <= o < self.areas@[ai].frames@.len() && 0 <= j
                < self.page_table.nodes@.len() ==> self.frame_ppn(ai, o)
                != self.page_table.node_ppn(j)
    }

    /// Pointwise mapping facts for one region give `area_maps`.
    proof fn lemma_area_maps_intro(self, bi: int)
        requires
            0 <= bi < self.areas@.len(),
            forall|o: int|
                0 <= o < self.areas@[bi].frames@.len() ==> page_maps(
                    self.page_table,
                    (self.areas@[bi].start_vpn + o) as u64,
                    (#[trigger] self.areas@[bi].frames@[o]).ppn,
                    self.areas@[bi].perm | FLAG_V,
                ),
        ensures
            self.area_maps(bi),
    {
    }

    /// Any two regions holding the same page are the same region.
    pub proof fn lemma_find_area(self, fa: StackFrameAllocator, vpn: u64) -> (ai: int)
        requires
            self.wf_with(fa),
            self.covered(vpn),
        ensures
            ai == self.spec_find_area(vpn),
            0 <= ai < self.areas@.len(),
            self.areas@[ai].start_vpn <= vpn < self.areas@[ai].end_vpn,
            forall|bi: int|
                0 <= bi < self.areas@.len() && (#[trigger] self.areas@[bi]).start_vpn <= vpn
                    < self.areas@[bi].end_vpn ==> bi == ai,
    {
        let ai = self.spec_find_area(vpn);
        assert forall|bi: int|
            0 <= bi < self.areas@.len() && (#[trigger] self.areas@[bi]).start_vpn <= vpn
                < self.areas@[bi].end_vpn implies bi == ai by {
            if bi != ai {
                assert(areas_disjoint(self.areas@[ai], self.areas@[bi]));
            }
        }
        ai
    }

    /// An address space with no regions and an empty page table.
    pub fn new_bare(fa: &mut StackFrameAllocator) -> (r: Result<MemorySet, KernelError>)
        requires
            old(fa).wf(),
        ensures
            final(fa).wf(),
            final(fa).end == old(fa).end,
            forall|q: u64| old(fa).allocated(q) ==> final(fa).allocated(q),
            r is Ok <==> old(fa).has_free(),
            r is Ok ==> final(fa).free_count() == old(fa).free_count() - 1,
            r is Err ==> r == Err::<MemorySet, KernelError>(KernelError::FrameExhausted) && (
            forall|q: u64| final(fa).allocated(q) == old(fa).allocated(q)),
            r matches Ok(ms) ==> {
                &&& ms.wf_with(*final(fa))
                &&& ms.areas@.len() == 0
                &&& ms.page_table.nodes@.len() == 1
                &&& ms.page_table.node_ppn(0) == ms.page_table.root_ppn
                &&& !old(fa).allocated(ms.page_table.root_ppn)
                &&& forall|q: u64|
                    q != ms.page_table.root_ppn ==> final(fa).allocated(q) == old(fa).allocated(
                        q,
                    )
                &&& forall|v: u64| !ms.page_table.is_mapped(v)
            },
    {
        let page_table = match PageTable::new(fa) {
            Ok(pt) => pt,
            Err(e) => {
                return Err(e);
            },
        };
        proof {
            assert(page_table.node_ppn(0) == page_table.root_ppn);
        }
        let ms = MemorySet { page_table, areas: Vec::new() };
        Ok(ms)
    }

    /// The address-space token of the backing page table.
    pub fn token(&self) -> (r: u64)
        ensures
            r == (8u64 << 60u64) | self.page_table.root_ppn,
    {
        self.page_table.token()
    }

    /// The leaf entry `vpn` walks to in the backing page table.
    pub fn translate(&self, vpn: u64) -> (r: Option<crate::page_table::PageTableEntry>)
        requires
            self.page_table.wf(),
        ensures
            r == self.page_table.spec_translate(vpn),
    {
        self.page_table.translate(vpn)
    }

    /// Whether any page of `[start_va, end_va)` lies in an existing region.
    pub open spec fn spec_overlaps(self, s: u64, e: u64) -> bool {
        exists|ai: int|
            0 <= ai < self.areas@.len() && !((#[trigger] self.areas@[ai]).end_vpn <= s
                || e <= self.areas@[ai].start_vpn)
    }

    /// Overlap probe: whether the page range of `[start_va, end_va)`
    /// touches an existing region.
    pub fn is_allocated(&self, start_va: u64, end_va: u64) -> (r: bool)
        requires
            start_va <= end_va,
            end_va < VADDR_LIMIT,
        ensures
            r == self.spec_overlaps(spec_page_floor(start_va), spec_page_ceil(end_va)),
    {
        let s = page_floor(start_va);
        let e = page_ceil(end_va);
        let n = self.areas.len();
        let mut i: usize = 0;
        while i < n
            invariant
                n == self.areas@.len(),
                0 <= i <= n,
                s == spec_page_floor(start_va),
                e == spec_page_ceil(end_va),
                forall|ai: int|
                    0 <= ai < i ==> ((#[trigger] self.areas@[ai]).end_vpn <= s || e
                        <= self.areas@[ai].start_vpn),
            decreases n - i,
        {
            let a = &self.areas[i];
            if !(a.end_vpn <= s || e <= a.start_vpn) {
                proof {
                    assert(!((self.areas@[i as int]).end_vpn <= s || e
                        <= self.areas@[i as int].start_vpn));
                }
                return true;
            }
            i = i + 1;
        }
        false
    }

    /// Find the region holding page `vpn`, if any.
    fn find_area(&self, vpn: u64) -> (r: Option<usize>)
        requires
            forall|ai: int, bi: int|
                #![trigger self.areas@[ai], self.areas@[bi]]
                0 <= ai < self.areas@.len() && 0 <= bi < self.areas@.len() && ai != bi
                    ==> areas_disjoint(self.areas@[ai], self.areas@[bi]),
        ensures
            r is Some <==> self.covered(vpn),
            r matches Some(ai) ==> ai < self.areas@.len() && self.areas@[ai as int].start_vpn
                <= vpn < self.areas@[ai as int].end_vpn && ai as int == self.spec_find_area(vpn),
    {
        let n = self.areas.len();
        let mut i: usize = 0;
        while i < n
            invariant
                n == self.areas@.len(),
                0 <= i <= n,
                forall|ai: int, bi: int|
                    #![trigger self.areas@[ai], self.areas@[bi]]
                    0 <= ai < self.areas@.len() && 0 <= bi < self.areas@.len() && ai != bi
                        ==> areas_disjoint(self.areas@[ai], self.areas@[bi]),
                forall|ai: int|
                    0 <= ai < i ==> !((#[trigger] self.areas@[ai]).start_vpn <= vpn
                        < self.areas@[ai].end_vpn),
            decreases n - i,
        {
            let a = &self.areas[i];
            if a.start_vpn <= vpn && vpn < a.end_vpn {
                proof {
                    assert(self.areas@[i as int].start_vpn <= vpn < self.areas@[i as int].end_vpn);
                    assert(self.covered(vpn));
                    let c = self.spec_find_area(vpn);
                    assert(0 <= c < self.areas@.len() && self.areas@[c].start_vpn <= vpn
                        < self.areas@[c].end_vpn);
                    if c != i {
                        assert(areas_disjoint(self.areas@[c], self.areas@[i as int]));
                    }
                }
                return Some(i);
            }
            i = i + 1;
        }
        None
    }

    /// Read the byte at virtual address `va`; `None` exactly when the page
    /// of `va` belongs to no region.
    pub fn read_byte(&self, va: u64) -> (r: Option<u8>)
        requires
            forall|ai: int| 0 <= ai < self.areas@.len() ==> area_wf(#[trigger] self.areas@[ai]),
            forall|ai: int, bi: int|
                #![trigger self.areas@[ai], self.areas@[bi]]
                0 <= ai < self.areas@.len() && 0 <= bi < self.areas@.len() && ai != bi
                    ==> areas_disjoint(self.areas@[ai], self.areas@[bi]),
        ensures
            r is Some <==> self.covered(spec_page_floor(va)),
            r matches Some(b) ==> b == self.spec_byte(va),
    {
        let vpn = page_floor(va);
        let ai = match self.find_area(vpn) {
            Some(ai) => ai,
            None => {
                return None;
            },
        };
        let a = &self.areas[ai];
        let o = vpn - a.start_vpn;
        let off = page_offset(va);
        Some(a.frames[o as usize].bytes[off as usize])
    }

    /// Write the byte at virtual address `va`; `Err` exactly when the page
    /// of `va` belongs to no region. No other byte, region or mapping
    /// changes.
    pub fn write_byte(&mut self, va: u64, val: u8, fa: &StackFrameAllocator) -> (r: Result<
        (),
        KernelError,
    >)
        requires
            old(self).wf_with(*fa),
        ensures
            final(self).wf_with(*fa),
            r is Ok <==> old(self).covered(spec_page_floor(va)),
            r is Err ==> *final(self) == *old(self) && r == Err::<(), KernelError>(
                KernelError::NotMapped,
            ),
            r is Ok ==> {
                &&& final(self).spec_byte(va) == val
                &&& forall|va2: u64|
                    old(self).covered(spec_page_floor(va2)) && (spec_page_floor(va2)
                        != spec_page_floor(va) || spec_page_offset(va2) != spec_page_offset(
                        va,
                    )) ==> final(self).spec_byte(va2) == old(self).spec_byte(va2)
                &&& final(self).page_table == old(self).page_table
                &&& final(self).areas@.len() == old(self).areas@.len()
                &&& forall|ai: int|
                    0 <= ai < old(self).areas@.len() ==> {
                        &&& (#[trigger] final(self).areas@[ai]).start_vpn == old(
                            self,
                        ).areas@[ai].start_vpn
                        &&& final(self).areas@[ai].end_vpn == old(self).areas@[ai].end_vpn
                        &&& final(self).areas@[ai].perm == old(self).areas@[ai].perm
                    }
                &&& forall|v: u64| final(self).covered(v) == old(self).covered(v)
            },
    {
        let ghost g0 = *self;
        let vpn = page_floor(va);
        let ai = match self.find_area(vpn) {
            Some(ai) => ai,
            None => {
                return Err(KernelError::NotMapped);
            },
        };
        let off = page_offset(va);
        let a = &mut self.areas[ai];
        let o = (vpn - a.start_vpn) as usize;
        let f = &mut a.frames[o];
        f.bytes[off as usize] = val;
        proof {
            let ai = ai as int;
            let o = o as int;
            assert(self.areas@ =~= g0.areas@.update(
                ai,
                MapArea {
                    start_vpn: g0.areas@[ai].start_vpn,
                    end_vpn: g0.areas@[ai].end_vpn,
                    perm: g0.areas@[ai].perm,
                    frames: self.areas@[ai].frames,
                },
            ));
            assert(self.areas@[ai].frames@ =~= g0.areas@[ai].frames@.update(
                o,
                FrameTracker {
                    ppn: g0.areas@[ai].frames@[o].ppn,
                    bytes: self.areas@[ai].frames@[o].bytes,
                },
            ));
            assert(self.areas@[ai].frames@[o].bytes@ =~= g0.areas@[ai].frames@[o].bytes@.update(
                spec_page_offset(va) as int,
                val,
            ));
            g0.lemma_byte_update(*self, *fa, va, val);
        }
        Ok(())
    }

    /// A byte write inside one frame of one region changes that byte alone
    /// and preserves the invariant.
    proof fn lemma_byte_update(self, post: MemorySet, fa: StackFrameAllocator, va: u64, val: u8)
        requires
            self.wf_with(fa),
            self.covered(spec_page_floor(va)),
            ({
                let vpn = spec_page_floor(va);
                let ai = self.spec_find_area(vpn);
                let o = vpn - self.areas@[ai].start_vpn;
                &&& post.page_table == self.page_table
                &&& post.areas@.len() == self.areas@.len()
                &&& forall|bi: int|
                    0 <= bi < self.areas@.len() && bi != ai ==> post.areas@[bi]
                        == self.areas@[bi]
                &&& post.areas@[ai].start_vpn == self.areas@[ai].start_vpn
                &&& post.areas@[ai].end_vpn == self.areas@[ai].end_vpn
                &&& post.areas@[ai].perm == self.areas@[ai].perm
                &&& post.areas@[ai].frames@.len() == self.areas@[ai].frames@.len()
                &&& forall|o2: int|
                    0 <= o2 < self.areas@[ai].frames@.len() && o2 != o
                        ==> post.areas@[ai].frames@[o2] == self.areas@[ai].frames@[o2]
                &&& post.areas@[ai].frames@[o as int].ppn == self.areas@[ai].frames@[o as int].ppn
                &&& post.areas@[ai].frames@[o as int].bytes@ == self.areas@[ai].frames@[o
                    as int].bytes@.update(spec_page_offset(va) as int, val)
            }),
        ensures
            post.wf_with(fa),
            post.spec_byte(va) == val,
            forall|va2: u64|
                self.covered(spec_page_floor(va2)) && (spec_page_floor(va2) != spec_page_floor(
                    va,
                ) || spec_page_offset(va2) != spec_page_offset(va)) ==> post.spec_byte(va2)
                    == self.spec_byte(va2),
            forall|v: u64| post.covered(v) == self.covered(v),
    {
        let vpn = spec_page_floor(va);
        let ai = self.spec_find_area(vpn);
        let a = self.areas@[ai];
        let o = vpn - a.start_vpn;

        assert forall|v: u64| post.covered(v) == self.covered(v) by {
            if self.covered(v) {
                let bi = self.spec_find_area(v);
                assert(post.areas@[bi].start_vpn <= v < post.areas@[bi].end_vpn);
                assert(post.covered(v));
            }
            if post.covered(v) {
                let bi = choose|bi: int|
                    0 <= bi < post.areas@.len() && (#[trigger] post.areas@[bi]).start_vpn <= v
                        < post.areas@[bi].end_vpn;
                assert(self.areas@[bi].start_vpn <= v < self.areas@[bi].end_vpn);
                assert(self.covered(v));
            }
        }
        assert forall|bi: int| 0 <= bi < post.areas@.len() implies area_wf(
            #[trigger] post.areas@[bi],
        ) && post.area_maps(bi) by {
            assert(area_wf(self.areas@[bi]));
            assert(self.area_maps(bi));
            assert forall|o2: int|
                #![trigger post.areas@[bi].frames@[o2]]
                0 <= o2 < post.areas@[bi].frames@.len() implies {
                &&& post.areas@[bi].frames@[o2].wf()
                &&& page_maps(
                    post.page_table,
                    (post.areas@[bi].start_vpn + o2) as u64,
                    post.areas@[bi].frames@[o2].ppn,
                    post.areas@[bi].perm | FLAG_V,
                )
            } by {
                assert(self.areas@[bi].frames@[o2].wf());
                assert(page_maps(
                    self.page_table,
                    (self.areas@[bi].start_vpn + o2) as u64,
                    self.areas@[bi].frames@[o2].ppn,
                    self.areas@[bi].perm | FLAG_V,
                ));
                assert(post.page_table == self.page_table);
                if bi != ai {
                    assert(post.areas@[bi] == self.areas@[bi]);
                } else {
                    assert(post.areas@[bi].start_vpn == self.areas@[bi].start_vpn);
                    if o2 == o {
                        assert(post.areas@[bi].frames@[o2].bytes@.len() == self
                            .areas@[bi].frames@[o2].bytes@.len());
                    } else {
                        assert(post.areas@[bi].frames@[o2] == self.areas@[bi].frames@[o2]);
                    }
                }
                assert(page_maps(
                    post.page_table,
                    (post.areas@[bi].start_vpn + o2) as u64,
                    post.areas@[bi].frames@[o2].ppn,
                    post.areas@[bi].perm | FLAG_V,
                ));
            }
            assert(post.area_maps(bi));
        }
        assert forall|bi: int, o2: int|
            0 <= bi < post.areas@.len() && 0 <= o2 < post.areas@[bi].frames@.len() implies
            fa.allocated(#[trigger] post.frame_ppn(bi, o2)) by {
            assert(post.frame_ppn(bi, o2) == self.frame_ppn(bi, o2));
        }
        assert forall|bi: int, o2: int, ci: int, o3: int|
            #![trigger post.frame_ppn(bi, o2), post.frame_ppn(ci, o3)]
            0 <= bi < post.areas@.len() && 0 <= o2 < post.areas@[bi].frames@.len() && 0 <= ci
                < post.areas@.len() && 0 <= o3 < post.areas@[ci].frames@.len() && !(bi == ci && o2
                == o3) implies post.frame_ppn(bi, o2) != post.frame_ppn(ci, o3) by {
            assert(post.frame_ppn(bi, o2) == self.frame_ppn(bi, o2));
            assert(post.frame_ppn(ci, o3) == self.frame_ppn(ci, o3));
        }
        assert forall|bi: int, o2: int, j: int|
            #![trigger post.frame_ppn(bi, o2), post.page_table.node_ppn(j)]
            0 <= bi < post.areas@.len() && 0 <= o2 < post.areas@[bi].frames@.len() && 0 <= j
                < post.page_table.nodes@.len() implies post.frame_ppn(bi, o2)
                != post.page_table.node_ppn(j) by {
            assert(post.frame_ppn(bi, o2) == self.frame_ppn(bi, o2));
            assert(self.frame_ppn(bi, o2) != self.page_table.node_ppn(j));
        }
        assert(post.wf_with(fa));

        // the written byte and all others
        let pai = post.spec_find_area(vpn);
        assert(post.areas@[pai].start_vpn <= vpn < post.areas@[pai].end_vpn);
        assert(self.areas@[pai].start_vpn <= vpn < self.areas@[pai].end_vpn);
        if pai != ai {
            assert(areas_disjoint(self.areas@[pai], self.areas@[ai]));
        }
        assert(pai == ai);
        assert(post.spec_byte(va) == val);
        assert forall|va2: u64|
            self.covered(spec_page_floor(va2)) && (spec_page_floor(va2) != spec_page_floor(va)
                || spec_page_offset(va2) != spec_page_offset(va)) implies post.spec_byte(va2)
            == self.spec_byte(va2) by {
            let vpn2 = spec_page_floor(va2);
            let bi = self.spec_find_area(vpn2);
            let pbi = post.spec_find_area(vpn2);
            assert(post.areas@[bi].start_vpn <= vpn2 < post.areas@[bi].end_vpn);
            assert(self.areas@[pbi].start_vpn <= vpn2 < self.areas@[pbi].end_vpn);
            if pbi != bi {
                assert(areas_disjoint(self.areas@[pbi], self.areas@[bi]));
            }
            assert(pbi == bi);
            if bi == ai && vpn2 - self.areas@[bi].start_vpn == o {
                assert(vpn2 == vpn);
                assert(spec_page_offset(va2) != spec_page_offset(va));
            }
        }
    }
}

impl MemorySet {
    /// Insert a framed region covering `[start_va, end_va)` with permission
    /// `perm`, mapping a fresh zero-filled frame for each page. A range that
    /// overlaps an existing region is rejected; on frame exhaustion nothing
    /// changes and the failure is reported.
    pub fn insert_framed_area(
        &mut self,
        start_va: u64,
        end_va: u64,
        perm: u8,
        fa: &mut StackFrameAllocator,
    ) -> (r: Result<(), KernelError>)
        requires
            old(self).wf_with(*old(fa)),
            start_va <= end_va,
            end_va < VADDR_LIMIT,
        ensures
            final(self).wf_with(*final(fa)),
            final(fa).end == old(fa).end,
            forall|q: u64| old(fa).allocated(q) ==> final(fa).allocated(q),
            final(self).page_table.root_ppn == old(self).page_table.root_ppn,
            owns_delta_fresh(*old(self), *final(self), *old(fa)),
            frees_only_owned(*old(self), *old(fa), *final(fa)),
            allocs_only_owned(*final(self), *old(fa), *final(fa)),
            forall|q: u64| old(self).owns(q) ==> #[trigger] final(self).owns(q),
            r == Err::<(), KernelError>(KernelError::RegionOverlap) <==> old(self).spec_overlaps(
                spec_page_floor(start_va),
                spec_page_ceil(end_va),
            ),
            r is Err ==> final(self).areas@ == old(self).areas@ && (forall|v: u64|
                v < VPN_LIMIT ==> final(self).page_table.is_mapped(v) == old(
                    self,
                ).page_table.is_mapped(v)),
            r is Err ==> (r == Err::<(), KernelError>(KernelError::RegionOverlap) || r == Err::<
                (),
                KernelError,
            >(KernelError::FrameExhausted)),
            !old(self).spec_overlaps(spec_page_floor(start_va), spec_page_ceil(end_va)) && old(
                fa,
            ).free_count() >= 3 * (spec_page_ceil(end_va) - spec_page_floor(start_va)) ==> r
                is Ok,
            r is Ok ==> final(fa).free_count() >= old(fa).free_count() - 3 * (spec_page_ceil(
                end_va,
            ) - spec_page_floor(start_va)),
            r is Ok ==> {
                &&& final(self).areas@.len() == old(self).areas@.len() + 1
                &&& forall|ai: int|
                    0 <= ai < old(self).areas@.len() ==> #[trigger] final(self).areas@[ai] == old(
                        self,
                    ).areas@[ai]
                &&& final(self).areas@[old(self).areas@.len() as int].start_vpn == spec_page_floor(
                    start_va,
                )
                &&& final(self).areas@[old(self).areas@.len() as int].end_vpn == spec_page_ceil(
                    end_va,
                )
                &&& final(self).areas@[old(self).areas@.len() as int].perm == perm
                &&& forall|v: u64|
                    spec_page_floor(start_va) <= v < spec_page_ceil(end_va)
                        ==> #[trigger] final(self).page_table.is_mapped(v) && final(self).page_table.mapped_flags(v) == (perm | FLAG_V)
                &&& forall|v: u64|
                    v < VPN_LIMIT && !(spec_page_floor(start_va) <= v < spec_page_ceil(end_va))
                        ==> final(self).page_table.is_mapped(v) == old(
                        self,
                    ).page_table.is_mapped(v) && (old(self).page_table.is_mapped(v) ==> final(self).page_table.spec_translate(v) == old(self).page_table.spec_translate(v))
                &&& forall|v: u64|
                    final(self).covered(v) == (old(self).covered(v) || (spec_page_floor(start_va)
                        <= v < spec_page_ceil(end_va)))
            },
    {
        let ghost g0 = *self;
        let s = page_floor(start_va);
        let e = page_ceil(end_va);
        if self.is_allocated(start_va, end_va) {
            return Err(KernelError::RegionOverlap);
        }
        proof {
            assert forall|v: u64| s <= v < e implies !(#[trigger] g0.page_table.is_mapped(
                v,
            )) by {
                if g0.page_table.is_mapped(v) {
                    assert(g0.covered(v));
                    let ai = g0.lemma_find_area(*fa, v);
                    assert(!(g0.areas@[ai].end_vpn <= s || e <= g0.areas@[ai].start_vpn));
                }
            }
        }
        let frames = match map_range(&mut self.page_table, s, e, perm, fa) {
            Ok(frames) => frames,
            Err(err) => {
                proof {
                    assert forall|ai: int| 0 <= ai < self.areas@.len() implies self.area_maps(
                        ai,
                    ) by {
                        assert(g0.area_maps(ai));
                        assert forall|o: int|
                            0 <= o < self.areas@[ai].frames@.len() implies page_maps(
                            self.page_table,
                            (self.areas@[ai].start_vpn + o) as u64,
                            (#[trigger] self.areas@[ai].frames@[o]).ppn,
                            self.areas@[ai].perm | FLAG_V,
                        ) by {
                            let v = (g0.areas@[ai].start_vpn + o) as u64;
                            assert(page_maps(
                                g0.page_table,
                                v,
                                g0.areas@[ai].frames@[o].ppn,
                                g0.areas@[ai].perm | FLAG_V,
                            ));
                            assert(self.page_table.spec_translate(v)
                                == g0.page_table.spec_translate(v));
                        }
                        self.lemma_area_maps_intro(ai);
                    }
                    assert forall|v: u64|
                        v < VPN_LIMIT && #[trigger] self.page_table.is_mapped(v) implies self
                        .covered(v) by {
                        assert(g0.page_table.is_mapped(v));
                    }
                    assert forall|ai: int, o: int|
                        0 <= ai < self.areas@.len() && 0 <= o < self.areas@[ai].frames@.len()
                        implies fa.allocated(#[trigger] self.frame_ppn(ai, o)) by {
                        assert(old(fa).allocated(g0.frame_ppn(ai, o)));
                    }
                    assert forall|ai: int, o: int, bi: int, o2: int|
                        #![trigger self.frame_ppn(ai, o), self.frame_ppn(bi, o2)]
                        0 <= ai < self.areas@.len() && 0 <= o < self.areas@[ai].frames@.len() && 0
                        <= bi < self.areas@.len() && 0 <= o2 < self.areas@[bi].frames@.len() && !(
                        ai == bi && o == o2) implies self.frame_ppn(ai, o) != self.frame_ppn(
                        bi,
                        o2,
                    ) by {
                        assert(g0.frame_ppn(ai, o) != g0.frame_ppn(bi, o2));
                    }
                    assert forall|ai: int, o: int, j: int|
                        #![trigger self.frame_ppn(ai, o), self.page_table.node_ppn(j)]
                        0 <= ai < self.areas@.len() && 0 <= o < self.areas@[ai].frames@.len() && 0
                        <= j < self.page_table.nodes@.len() implies self.frame_ppn(ai, o)
                        != self.page_table.node_ppn(j) by {
                        if g0.page_table.owns_frame(self.page_table.node_ppn(j)) {
                            let j0 = choose|j0: int|
                                0 <= j0 < g0.page_table.nodes@.len() && g0.page_table.node_ppn(j0)
                                    == self.page_table.node_ppn(j);
                            assert(g0.frame_ppn(ai, o) != g0.page_table.node_ppn(j0));
                        } else {
                            assert(!old(fa).allocated(self.page_table.node_ppn(j)));
                            assert(old(fa).allocated(g0.frame_ppn(ai, o)));
                        }
                    }
                    assert forall|q: u64| #[trigger] self.owns(q) implies g0.owns(q) || !old(
                        fa,
                    ).allocated(q) by {
                        if self.page_table.owns_frame(q) {
                            let j = choose|j: int|
                                0 <= j < self.page_table.nodes@.len()
                                    && self.page_table.node_ppn(j) == q;
                            if g0.page_table.owns_frame(self.page_table.node_ppn(j)) {
                                assert(g0.owns(q));
                            } else {
                                assert(!old(fa).allocated(self.page_table.node_ppn(j)));
                            }
                        } else {
                            let (ai, o) = choose|ai: int, o: int|
                                0 <= ai < self.areas@.len() && 0 <= o
                                    < self.areas@[ai].frames@.len() && #[trigger] self.frame_ppn(
                                    ai,
                                    o,
                                ) == q;
                            assert(g0.frame_ppn(ai, o) == q);
                            assert(g0.owns(q));
                        }
                    }
                    assert forall|q: u64| g0.owns(q) implies #[trigger] self.owns(q) by {
                        if g0.page_table.owns_frame(q) {
                            let j = choose|j: int|
                                0 <= j < g0.page_table.nodes@.len() && g0.page_table.node_ppn(j) == q;
                            assert(self.page_table.node_ppn(j) == q);
                            assert(self.page_table.owns_frame(q));
                        } else {
                            let (ai, o) = choose|ai: int, o: int|
                                0 <= ai < g0.areas@.len() && 0 <= o < g0.areas@[ai].frames@.len()
                                    && #[trigger] g0.frame_ppn(ai, o) == q;
                            assert(self.frame_ppn(ai, o) == q);
                        }
            }
                    assert(owns_delta_fresh(g0, *self, *old(fa)));
                }
                return Err(err);
            },
        };
        let ghost gframes = frames@;
        let area = MapArea { start_vpn: s, end_vpn: e, perm, frames };
        self.areas.push(area);
        proof {
            let w = g0.areas@.len() as int;
            let fa1 = *fa;
            assert(self.areas@.len() == w + 1);
            assert(self.areas@[w].frames@ == gframes);
            assert forall|ai: int| 0 <= ai < w implies #[trigger] self.areas@[ai]
                == g0.areas@[ai] by {}

            // old regions are untouched and still correctly mapped
            assert forall|ai: int| 0 <= ai < self.areas@.len() implies area_wf(
                #[trigger] self.areas@[ai],
            ) by {
                if ai < w {
                    assert(area_wf(g0.areas@[ai]));
                }
            }
            assert forall|ai: int, bi: int|
                #![trigger self.areas@[ai], self.areas@[bi]]
                0 <= ai < self.areas@.len() && 0 <= bi < self.areas@.len() && ai != bi implies
                areas_disjoint(self.areas@[ai], self.areas@[bi]) by {
                if ai < w && bi < w {
                    assert(areas_disjoint(g0.areas@[ai], g0.areas@[bi]));
                } else if ai < w {
                    assert(!(g0.spec_overlaps(s, e) && true));
                    assert(!(g0.areas@[ai].end_vpn <= s || e <= g0.areas@[ai].start_vpn)
                        ==> g0.spec_overlaps(s, e));
                } else if bi < w {
                    assert(!(g0.areas@[bi].end_vpn <= s || e <= g0.areas@[bi].start_vpn)
                        ==> g0.spec_overlaps(s, e));
                }
            }
            assert forall|ai: int| 0 <= ai < self.areas@.len() implies self.area_maps(ai) by {
                if ai < w {
                    assert(g0.area_maps(ai));
                    assert forall|o: int|
                        0 <= o < self.areas@[ai].frames@.len() implies page_maps(
                        self.page_table,
                        (self.areas@[ai].start_vpn + o) as u64,
                        (#[trigger] self.areas@[ai].frames@[o]).ppn,
                        self.areas@[ai].perm | FLAG_V,
                    ) by {
                        let v = (g0.areas@[ai].start_vpn + o) as u64;
                        assert(page_maps(
                            g0.page_table,
                            v,
                            g0.areas@[ai].frames@[o].ppn,
                            g0.areas@[ai].perm | FLAG_V,
                        ));
                        assert(g0.areas@[ai].end_vpn <= s || e <= g0.areas@[ai].start_vpn);
                        assert(!(s <= v < e));
                        assert(self.page_table.spec_translate(v) == g0.page_table.spec_translate(
                            v,
                        ));
                    }
                    self.lemma_area_maps_intro(ai);
                } else {
                    assert forall|o: int|
                        0 <= o < self.areas@[ai].frames@.len() implies page_maps(
                        self.page_table,
                        (self.areas@[ai].start_vpn + o) as u64,
                        (#[trigger] self.areas@[ai].frames@[o]).ppn,
                        self.areas@[ai].perm | FLAG_V,
                    ) by {
                        let v = (s + o) as u64;
                        assert(self.page_table.is_mapped(v));
                        assert(self.page_table.mapped_ppn(v) == gframes[(v - s) as int].ppn);
                        assert(self.page_table.mapped_flags(v) == (perm | FLAG_V));
                    }
                    self.lemma_area_maps_intro(ai);
                }
            }
            assert forall|v: u64|
                v < VPN_LIMIT && #[trigger] self.page_table.is_mapped(v) implies self.covered(
                v,
            ) by {
                if s <= v < e {
                    assert(self.areas@[w].start_vpn <= v < self.areas@[w].end_vpn);
                } else {
                    assert(g0.page_table.is_mapped(v));
                    assert(g0.covered(v));
                    let ai = choose|ai: int|
                        0 <= ai < g0.areas@.len() && (#[trigger] g0.areas@[ai]).start_vpn <= v
                            < g0.areas@[ai].end_vpn;
                    assert(self.areas@[ai].start_vpn <= v < self.areas@[ai].end_vpn);
                }
            }
            assert forall|ai: int, o: int|
                0 <= ai < self.areas@.len() && 0 <= o < self.areas@[ai].frames@.len() implies
                fa.allocated(#[trigger] self.frame_ppn(ai, o)) by {
                if ai < w {
                    assert(g0.frame_ppn(ai, o) == self.frame_ppn(ai, o));
                    assert(old(fa).allocated(g0.frame_ppn(ai, o)));
                }
            }
            assert forall|ai: int, o: int, bi: int, o2: int|
                #![trigger self.frame_ppn(ai, o), self.frame_ppn(bi, o2)]
                0 <= ai < self.areas@.len() && 0 <= o < self.areas@[ai].frames@.len() && 0 <= bi
                    < self.areas@.len() && 0 <= o2 < self.areas@[bi].frames@.len() && !(ai == bi
                    && o == o2) implies self.frame_ppn(ai, o) != self.frame_ppn(bi, o2) by {
                if ai < w && bi < w {
                    assert(g0.frame_ppn(ai, o) != g0.frame_ppn(bi, o2));
                } else if ai < w {
                    assert(old(fa).allocated(g0.frame_ppn(ai, o)));
                    assert(!old(fa).allocated(gframes[o2].ppn));
                } else if bi < w {
                    assert(old(fa).allocated(g0.frame_ppn(bi, o2)));
                    assert(!old(fa).allocated(gframes[o].ppn));
                } else {
                    assert(gframes[o].ppn != gframes[o2].ppn);
                }
            }
            assert forall|ai: int, o: int, j: int|
                #![trigger self.frame_ppn(ai, o), self.page_table.node_ppn(j)]
                0 <= ai < self.areas@.len() && 0 <= o < self.areas@[ai].frames@.len() && 0 <= j
                    < self.page_table.nodes@.len() implies self.frame_ppn(ai, o)
                != self.page_table.node_ppn(j) by {
                if ai < w {
                    if g0.page_table.owns_frame(self.page_table.node_ppn(j)) {
                        let j0 = choose|j0: int|
                            0 <= j0 < g0.page_table.nodes@.len() && g0.page_table.node_ppn(j0)
                                == self.page_table.node_ppn(j);
                        assert(g0.frame_ppn(ai, o) != g0.page_table.node_ppn(j0));
                    } else {
                        assert(!old(fa).allocated(self.page_table.node_ppn(j)));
                        assert(old(fa).allocated(g0.frame_ppn(ai, o)));
                    }
                }
            }
            // covered set: the old regions plus the new range
            assert forall|v: u64| self.covered(v) == (g0.covered(v) || (s <= v < e)) by {
                if g0.covered(v) {
                    let ai = choose|ai: int|
                        0 <= ai < g0.areas@.len() && (#[trigger] g0.areas@[ai]).start_vpn <= v
                            < g0.areas@[ai].end_vpn;
                    assert(self.areas@[ai].start_vpn <= v < self.areas@[ai].end_vpn);
                    assert(self.covered(v));
                }
                if s <= v < e {
                    assert(self.areas@[w].start_vpn <= v < self.areas@[w].end_vpn);
                    assert(self.covered(v));
                }
                if self.covered(v) {
                    let ai = choose|ai: int|
                        0 <= ai < self.areas@.len() && (#[trigger] self.areas@[ai]).start_vpn <= v
                            < self.areas@[ai].end_vpn;
                    if ai < w {
                        assert(g0.areas@[ai].start_vpn <= v < g0.areas@[ai].end_vpn);
                        assert(g0.covered(v));
                    }
                }
            }
            assert forall|q: u64| #[trigger] self.owns(q) implies g0.owns(q) || !old(
                fa,
            ).allocated(q) by {
                if self.page_table.owns_frame(q) {
                    let j = choose|j: int|
                        0 <= j < self.page_table.nodes@.len() && self.page_table.node_ppn(j) == q;
                    if g0.page_table.owns_frame(self.page_table.node_ppn(j)) {
                        assert(g0.owns(q));
                    } else {
                        assert(!old(fa).allocated(self.page_table.node_ppn(j)));
                    }
                } else {
                    let (ai, o) = choose|ai: int, o: int|
                        0 <= ai < self.areas@.len() && 0 <= o < self.areas@[ai].frames@.len()
                            && #[trigger] self.frame_ppn(ai, o) == q;
                    if ai < w {
                        assert(g0.frame_ppn(ai, o) == q);
                        assert(g0.owns(q));
                    } else {
                        assert(gframes[o].ppn == q);
                        assert(!old(fa).allocated(q));
                    }
                }
            }
            assert(owns_delta_fresh(g0, *self, *old(fa)));
            assert forall|q: u64|
                !old(fa).allocated(q) && #[trigger] fa.allocated(q) implies self.owns(q) by {
                assert((exists|o: int|
                    0 <= o < gframes.len() && (#[trigger] gframes[o]).ppn == q)
                    || self.page_table.owns_frame(q));
                if exists|o: int| 0 <= o < gframes.len() && (#[trigger] gframes[o]).ppn == q {
                    let o = choose|o: int|
                        0 <= o < gframes.len() && (#[trigger] gframes[o]).ppn == q;
                    assert(self.frame_ppn(w, o) == q);
                    assert(self.owns(q));
                }
            }
            assert forall|q: u64| g0.owns(q) implies #[trigger] self.owns(q) by {
                if g0.page_table.owns_frame(q) {
                    let j = choose|j: int|
                        0 <= j < g0.page_table.nodes@.len() && g0.page_table.node_ppn(j) == q;
                    assert(self.page_table.node_ppn(j) == q);
                    assert(self.page_table.owns_frame(q));
                } else {
                    let (ai, o) = choose|ai: int, o: int|
                        0 <= ai < g0.areas@.len() && 0 <= o < g0.areas@[ai].frames@.len()
                            && #[trigger] g0.frame_ppn(ai, o) == q;
                    assert(self.frame_ppn(ai, o) == q);
                }
            }
            assert(allocs_only_owned(*self, *old(fa), *fa));
        }
        Ok(())
    }
    /// Remove the region exactly covering `[start_va, end_va)`: unmap each
    /// of its pages and release its frames. A range that is not exactly an
    /// existing region is rejected.
    pub fn remove_framed_area(
        &mut self,
        start_va: u64,
        end_va: u64,
        fa: &mut StackFrameAllocator,
    ) -> (r: Result<(), KernelError>)
        requires
            old(self).wf_with(*old(fa)),
            start_va <= end_va,
            end_va < VADDR_LIMIT,
        ensures
            final(self).wf_with(*final(fa)),
            final(fa).end == old(fa).end,
            final(self).page_table.root_ppn == old(self).page_table.root_ppn,
            owns_delta_fresh(*old(self), *final(self), *old(fa)),
            frees_only_owned(*old(self), *old(fa), *final(fa)),
            allocs_only_owned(*final(self), *old(fa), *final(fa)),
            r is Ok <==> (exists|ai: int|
                0 <= ai < old(self).areas@.len() && (#[trigger] old(self).areas@[ai]).start_vpn
                    == spec_page_floor(start_va) && old(self).areas@[ai].end_vpn == spec_page_ceil(
                    end_va,
                )),
            r is Err ==> *final(self) == *old(self) && *final(fa) == *old(fa) && r == Err::<
                (),
                KernelError,
            >(KernelError::NoSuchRegion),
            r is Ok ==> final(fa).free_count() == old(fa).free_count() + (spec_page_ceil(
                end_va,
            ) - spec_page_floor(start_va)),
            r is Ok ==> {
                &&& final(self).areas@.len() == old(self).areas@.len() - 1
                &&& (exists|ri: int|
                    is_region_removal(
                        old(self).areas@,
                        final(self).areas@,
                        ri,
                        spec_page_floor(start_va),
                        spec_page_ceil(end_va),
                    ))
                &&& (forall|ci: int|
                    0 <= ci < final(self).areas@.len() ==> exists|oi: int|
                        0 <= oi < old(self).areas@.len() && #[trigger] final(self).areas@[ci]
                            == old(self).areas@[oi])
                &&& (forall|oi: int|
                    0 <= oi < old(self).areas@.len() && (#[trigger] old(
                        self,
                    ).areas@[oi]).start_vpn != spec_page_floor(start_va) ==> exists|ci: int|
                        0 <= ci < final(self).areas@.len() && final(self).areas@[ci] == old(
                            self,
                        ).areas@[oi])
                &&& (forall|v: u64|
                    spec_page_floor(start_va) <= v < spec_page_ceil(end_va) ==> !(
                    #[trigger] final(self).page_table.is_mapped(v)))
                &&& forall|v: u64|
                    v < VPN_LIMIT && !(spec_page_floor(start_va) <= v < spec_page_ceil(end_va))
                        ==> #[trigger] final(self).page_table.spec_translate(v) == old(
                        self,
                    ).page_table.spec_translate(v)
                &&& forall|v: u64|
                    final(self).covered(v) == (old(self).covered(v) && !(spec_page_floor(start_va)
                        <= v < spec_page_ceil(end_va)))
            },
    {
        let ghost g0 = *self;
        let s = page_floor(start_va);
        let e = page_ceil(end_va);
        let n = self.areas.len();
        let mut i: usize = 0;
        let mut found: Option<usize> = None;
        while i < n
            invariant
                n == self.areas@.len(),
                0 <= i <= n,
                found is None ==> forall|ai: int|
                    0 <= ai < i ==> !((#[trigger] self.areas@[ai]).start_vpn == s
                        && self.areas@[ai].end_vpn == e),
                found matches Some(k) ==> k < n && self.areas@[k as int].start_vpn == s
                    && self.areas@[k as int].end_vpn == e,
            decreases n - i,
        {
            let a = &self.areas[i];
            if a.start_vpn == s && a.end_vpn == e {
                found = Some(i);
                i = n;
            } else {
                i = i + 1;
            }
        }
        let ai = match found {
            Some(k) => k,
            None => {
                proof {
                    assert forall|bi: int| 0 <= bi < old(self).areas@.len() implies !((
                    #[trigger] old(self).areas@[bi]).start_vpn == s && old(
                        self,
                    ).areas@[bi].end_vpn == e) by {
                        assert(self.areas@[bi].start_vpn != s || self.areas@[bi].end_vpn != e);
                    }
                }
                return Err(KernelError::NoSuchRegion);
            },
        };
        let area = self.areas.remove(ai);
        proof {
            // the pages of the removed region carry exactly its frames
            assert(g0.area_maps(ai as int));
            assert forall|v: u64| s <= v < s + area.frames@.len() implies #[trigger] self
                .page_table.is_mapped(v) && self.page_table.mapped_ppn(v) == area.frames@[(v
                - s) as int].ppn by {
                let o = (v - s) as int;
                assert(page_maps(
                    g0.page_table,
                    (g0.areas@[ai as int].start_vpn + o) as u64,
                    g0.areas@[ai as int].frames@[o].ppn,
                    g0.areas@[ai as int].perm | FLAG_V,
                ));
            }
            assert forall|o: int, o2: int|
                #![trigger area.frames@[o], area.frames@[o2]]
                0 <= o < area.frames@.len() && 0 <= o2 < area.frames@.len() && o != o2 implies
                area.frames@[o].ppn != area.frames@[o2].ppn by {
                assert(g0.frame_ppn(ai as int, o) != g0.frame_ppn(ai as int, o2));
            }
            assert forall|o: int, j: int|
                #![trigger area.frames@[o], self.page_table.node_ppn(j)]
                0 <= o < area.frames@.len() && 0 <= j < self.page_table.nodes@.len() implies
                area.frames@[o].ppn != self.page_table.node_ppn(j) by {
                assert(g0.frame_ppn(ai as int, o) != g0.page_table.node_ppn(j));
            }
            assert forall|o: int| 0 <= o < area.frames@.len() implies fa.allocated(
                (#[trigger] area.frames@[o]).ppn,
            ) by {
                assert(fa.allocated(g0.frame_ppn(ai as int, o)));
            }
        }
        let ghost gframes = area.frames@;
        unmap_and_free(&mut self.page_table, area.frames, s, fa);
        proof {
            let w = g0.areas@.len() as int;
            let aii = ai as int;
            // each surviving region keeps its index or shifts down by one
            assert forall|ci: int| 0 <= ci < self.areas@.len() implies #[trigger] self.areas@[ci]
                == g0.areas@[if ci < aii {
                ci
            } else {
                ci + 1
            }] by {}
            assert forall|ci: int| 0 <= ci < self.areas@.len() implies area_wf(
                #[trigger] self.areas@[ci],
            ) by {
                let oi: int = if ci < aii {
                    ci
                } else {
                    ci + 1
                };
                assert(area_wf(g0.areas@[oi]));
            }
            assert forall|ci: int, di: int|
                #![trigger self.areas@[ci], self.areas@[di]]
                0 <= ci < self.areas@.len() && 0 <= di < self.areas@.len() && ci != di implies
                areas_disjoint(self.areas@[ci], self.areas@[di]) by {
                let oi: int = if ci < aii {
                    ci
                } else {
                    ci + 1
                };
                let pi: int = if di < aii {
                    di
                } else {
                    di + 1
                };
                assert(areas_disjoint(g0.areas@[oi], g0.areas@[pi]));
            }
            assert forall|ci: int| 0 <= ci < self.areas@.len() implies self.area_maps(ci) by {
                let oi: int = if ci < aii {
                    ci
                } else {
                    ci + 1
                };
                assert(g0.area_maps(oi));
                assert forall|o: int|
                    0 <= o < self.areas@[ci].frames@.len() implies page_maps(
                    self.page_table,
                    (self.areas@[ci].start_vpn + o) as u64,
                    (#[trigger] self.areas@[ci].frames@[o]).ppn,
                    self.areas@[ci].perm | FLAG_V,
                ) by {
                    let v = (g0.areas@[oi].start_vpn + o) as u64;
                    assert(page_maps(
                        g0.page_table,
                        v,
                        g0.areas@[oi].frames@[o].ppn,
                        g0.areas@[oi].perm | FLAG_V,
                    ));
                    assert(areas_disjoint(g0.areas@[oi], g0.areas@[aii]));
                    assert(!(s <= v < s + gframes.len()));
                    assert(self.page_table.spec_translate(v) == g0.page_table.spec_translate(v));
                }
                self.lemma_area_maps_intro(ci);
            }
            assert forall|v: u64|
                v < VPN_LIMIT && #[trigger] self.page_table.is_mapped(v) implies self.covered(
                v,
            ) by {
                assert(!(s <= v < s + gframes.len()));
                assert(self.page_table.spec_translate(v) == g0.page_table.spec_translate(v));
                assert(g0.page_table.is_mapped(v));
                assert(g0.covered(v));
                let bi = choose|bi: int|
                    0 <= bi < g0.areas@.len() && (#[trigger] g0.areas@[bi]).start_vpn <= v
                        < g0.areas@[bi].end_vpn;
                assert(bi != aii);
                let ci: int = if bi < aii {
                    bi
                } else {
                    bi - 1
                };
                assert(self.areas@[ci] == g0.areas@[bi]);
                assert(self.areas@[ci].start_vpn <= v < self.areas@[ci].end_vpn);
            }
            assert forall|ci: int, o: int|
                0 <= ci < self.areas@.len() && 0 <= o < self.areas@[ci].frames@.len() implies
                fa.allocated(#[trigger] self.frame_ppn(ci, o)) by {
                let oi: int = if ci < aii {
                    ci
                } else {
                    ci + 1
                };
                assert(old(fa).allocated(g0.frame_ppn(oi, o)));
                assert(self.frame_ppn(ci, o) == g0.frame_ppn(oi, o));
                assert(g0.frame_ppn(oi, o) != g0.frame_ppn(aii, (0 as int)) || true);
                if exists|o2: int|
                    0 <= o2 < gframes.len() && (#[trigger] gframes[o2]).ppn == self.frame_ppn(
                        ci,
                        o,
                    ) {
                    let o2 = choose|o2: int|
                        0 <= o2 < gframes.len() && (#[trigger] gframes[o2]).ppn == self.frame_ppn(
                            ci,
                            o,
                        );
                    assert(g0.frame_ppn(oi, o) != g0.frame_ppn(aii, o2));
                }
            }
            assert forall|ci: int, o: int, di: int, o2: int|
                #![trigger self.frame_ppn(ci, o), self.frame_ppn(di, o2)]
                0 <= ci < self.areas@.len() && 0 <= o < self.areas@[ci].frames@.len() && 0 <= di
                    < self.areas@.len() && 0 <= o2 < self.areas@[di].frames@.len() && !(ci == di
                    && o == o2) implies self.frame_ppn(ci, o) != self.frame_ppn(di, o2) by {
                let oi: int = if ci < aii {
                    ci
                } else {
                    ci + 1
                };
                let pi: int = if di < aii {
                    di
                } else {
                    di + 1
                };
                assert(g0.frame_ppn(oi, o) != g0.frame_ppn(pi, o2));
            }
            assert forall|ci: int, o: int, j: int|
                #![trigger self.frame_ppn(ci, o), self.page_table.node_ppn(j)]
                0 <= ci < self.areas@.len() && 0 <= o < self.areas@[ci].frames@.len() && 0 <= j
                    < self.page_table.nodes@.len() implies self.frame_ppn(ci, o)
                != self.page_table.node_ppn(j) by {
                let oi: int = if ci < aii {
                    ci
                } else {
                    ci + 1
                };
                assert(self.page_table.node_ppn(j) == g0.page_table.node_ppn(j));
                assert(g0.frame_ppn(oi, o) != g0.page_table.node_ppn(j));
            }
            assert forall|v: u64| final(self).covered(v) == (g0.covered(v) && !(s <= v
                < e)) by {
                if self.covered(v) {
                    let ci = choose|ci: int|
                        0 <= ci < self.areas@.len() && (#[trigger] self.areas@[ci]).start_vpn <= v
                            < self.areas@[ci].end_vpn;
                    let oi: int = if ci < aii {
                        ci
                    } else {
                        ci + 1
                    };
                    assert(g0.areas@[oi].start_vpn <= v < g0.areas@[oi].end_vpn);
                    assert(g0.covered(v));
                    assert(areas_disjoint(g0.areas@[oi], g0.areas@[aii]));
                }
                if g0.covered(v) && !(s <= v < e) {
                    let bi = choose|bi: int|
                        0 <= bi < g0.areas@.len() && (#[trigger] g0.areas@[bi]).start_vpn <= v
                            < g0.areas@[bi].end_vpn;
                    assert(bi != aii);
                    let ci: int = if bi < aii {
                        bi
                    } else {
                        bi - 1
                    };
                    assert(self.areas@[ci] == g0.areas@[bi]);
                    assert(self.areas@[ci].start_vpn <= v < self.areas@[ci].end_vpn);
                    assert(self.covered(v));
                }
            }
            assert forall|q: u64| #[trigger] self.owns(q) implies g0.owns(q) || !old(
                fa,
            ).allocated(q) by {
                if self.page_table.owns_frame(q) {
                    let j = choose|j: int|
                        0 <= j < self.page_table.nodes@.len() && self.page_table.node_ppn(j) == q;
                    assert(g0.page_table.node_ppn(j) == q);
                    assert(g0.owns(q));
                } else {
                    let (ai2, o) = choose|ai2: int, o: int|
                        0 <= ai2 < self.areas@.len() && 0 <= o < self.areas@[ai2].frames@.len()
                            && #[trigger] self.frame_ppn(ai2, o) == q;
                    let oi: int = if ai2 < aii {
                        ai2
                    } else {
                        ai2 + 1
                    };
                    assert(g0.frame_ppn(oi, o) == q);
                    assert(g0.owns(q));
                }
            }
            assert(owns_delta_fresh(g0, *self, *old(fa)));
            assert forall|q: u64|
                old(fa).allocated(q) && !(#[trigger] fa.allocated(q)) implies g0.owns(q) by {
                assert(exists|o: int|
                    0 <= o < gframes.len() && (#[trigger] gframes[o]).ppn == q);
                let o = choose|o: int|
                    0 <= o < gframes.len() && (#[trigger] gframes[o]).ppn == q;
                assert(g0.frame_ppn(aii, o) == q);
                assert(g0.owns(q));
            }
            assert(frees_only_owned(g0, *old(fa), *fa));
            assert forall|ci: int| 0 <= ci < self.areas@.len() implies exists|oi: int|
                0 <= oi < g0.areas@.len() && #[trigger] self.areas@[ci] == g0.areas@[oi] by {
                let oi: int = if ci < aii {
                    ci
                } else {
                    ci + 1
                };
                assert(self.areas@[ci] == g0.areas@[oi]);
            }
            assert forall|oi: int|
                0 <= oi < g0.areas@.len() && (#[trigger] g0.areas@[oi]).start_vpn
                    != spec_page_floor(start_va) implies exists|ci: int|
                0 <= ci < self.areas@.len() && self.areas@[ci] == g0.areas@[oi] by {
                assert(oi != aii);
                let ci: int = if oi < aii {
                    oi
                } else {
                    oi - 1
                };
                assert(self.areas@[ci] == g0.areas@[oi]);
            }
            assert(g0.areas@[aii].start_vpn == s && g0.areas@[aii].end_vpn == e);
            assert forall|ci: int| 0 <= ci < self.areas@.len() implies #[trigger] self.areas@[ci]
                == g0.areas@[if ci < aii {
                ci
            } else {
                ci + 1
            }] by {}
            assert(is_region_removal(g0.areas@, self.areas@, aii, s, e));
        }
        Ok(())
    }
    /// Some region starts exactly at page `s0`.
    pub open spec fn has_area_with_start(self, s0: u64) -> bool {
        exists|ai: int|
            0 <= ai < self.areas@.len() && (#[trigger] self.areas@[ai]).start_vpn == s0
    }

    /// The region starting at page `s0`.
    pub open spec fn area_with_start(self, s0: u64) -> int {
        choose|ai: int|
            0 <= ai < self.areas@.len() && (#[trigger] self.areas@[ai]).start_vpn == s0
    }

    /// At most one region starts at page `s0`.
    pub open spec fn unique_start(self, s0: u64) -> bool {
        forall|ai: int, bi: int|
            #![trigger self.areas@[ai], self.areas@[bi]]
            0 <= ai < self.areas@.len() && 0 <= bi < self.areas@.len()
                && self.areas@[ai].start_vpn == s0 && self.areas@[bi].start_vpn == s0 ==> ai == bi
    }

    /// Grow the region starting at `start` so that it ends at `new_end`,
    /// mapping fresh zero-filled pages; `false` when there is no such
    /// region, the new end is below the old one, the growth would overlap
    /// another region, or frames run out — nothing changes then.
    pub fn append_to(&mut self, start: u64, new_end: u64, fa: &mut StackFrameAllocator) -> (r:
        bool)
        requires
            old(self).wf_with(*old(fa)),
            old(self).unique_start(spec_page_floor(start)),
            start <= new_end,
            new_end < VADDR_LIMIT,
        ensures
            final(self).wf_with(*final(fa)),
            final(fa).end == old(fa).end,
            forall|q: u64| old(fa).allocated(q) ==> final(fa).allocated(q),
            final(self).page_table.root_ppn == old(self).page_table.root_ppn,
            owns_delta_fresh(*old(self), *final(self), *old(fa)),
            frees_only_owned(*old(self), *old(fa), *final(fa)),
            allocs_only_owned(*final(self), *old(fa), *final(fa)),
            !r ==> final(self).areas@ == old(self).areas@ && (forall|v: u64|
                v < VPN_LIMIT ==> final(self).page_table.is_mapped(v) == old(
                    self,
                ).page_table.is_mapped(v)),
            r ==> old(self).has_area_with_start(spec_page_floor(start)),
            ({
                let s0 = spec_page_floor(start);
                let hi = old(self).area_with_start(s0);
                let e0 = old(self).areas@[hi].end_vpn;
                let ne = spec_page_ceil(new_end);
                &&& (old(self).has_area_with_start(s0) && e0 <= ne && (forall|bi: int|
                    0 <= bi < old(self).areas@.len() && bi != hi ==> ((#[trigger] old(
                        self,
                    ).areas@[bi]).end_vpn <= s0 || ne <= old(self).areas@[bi].start_vpn)) && old(
                    fa,
                ).free_count() >= 3 * (ne - e0)) ==> r
                &&& (r ==> {
                    &&& e0 <= ne
                    &&& final(self).areas@.len() == old(self).areas@.len()
                    &&& forall|bi: int|
                        0 <= bi < old(self).areas@.len() && bi != hi ==> #[trigger] final(self).areas@[bi] == old(self).areas@[bi]
                    &&& final(self).areas@[hi].start_vpn == s0
                    &&& final(self).areas@[hi].end_vpn == ne
                    &&& final(self).areas@[hi].perm == old(self).areas@[hi].perm
                    &&& forall|o: int|
                        0 <= o < old(self).areas@[hi].frames@.len() ==> #[trigger] final(self).areas@[hi].frames@[o] == old(self).areas@[hi].frames@[o]
                    &&& forall|v: u64|
                        e0 <= v < ne ==> #[trigger] final(self).page_table.is_mapped(v)
                    &&& forall|v: u64|
                        v < VPN_LIMIT && !(e0 <= v < ne) ==> final(self).page_table.is_mapped(v)
                            == old(self).page_table.is_mapped(v) && (old(
                            self,
                        ).page_table.is_mapped(v) ==> final(self).page_table.spec_translate(v)
                            == old(self).page_table.spec_translate(v))
                    &&& forall|v: u64|
                        final(self).covered(v) == (old(self).covered(v) || (e0 <= v < ne))
                })
            }),
    {
        let ghost g0 = *self;
        let s0 = page_floor(start);
        let ne = page_ceil(new_end);
        let n = self.areas.len();
        let mut i: usize = 0;
        let mut found: Option<usize> = None;
        while i < n
            invariant
                n == self.areas@.len(),
                0 <= i <= n,
                found is None ==> forall|ai: int|
                    0 <= ai < i ==> (#[trigger] self.areas@[ai]).start_vpn != s0,
                found matches Some(k) ==> k < n && self.areas@[k as int].start_vpn == s0,
            decreases n - i,
        {
            if self.areas[i].start_vpn == s0 {
                found = Some(i);
                i = n;
            } else {
                i = i + 1;
            }
        }
        let hi = match found {
            Some(k) => k,
            None => {
                proof {
                    assert forall|bi: int| 0 <= bi < g0.areas@.len() implies (
                    #[trigger] g0.areas@[bi]).start_vpn != s0 by {
                        assert(self.areas@[bi].start_vpn != s0);
                    }
                }
                return false;
            },
        };
        proof {
            assert(g0.has_area_with_start(s0));
            let c = g0.area_with_start(s0);
            assert(g0.areas@[c].start_vpn == s0);
            assert(c == hi as int);
        }
        let e0 = self.areas[hi].end_vpn;
        if ne < e0 {
            return false;
        }
        // the grown span must not collide with any other region
        let mut j: usize = 0;
        let mut clash: bool = false;
        while j < n
            invariant
                n == self.areas@.len(),
                0 <= j <= n,
                hi < n,
                e0 == self.areas@[hi as int].end_vpn,
                s0 == self.areas@[hi as int].start_vpn,
                !clash ==> forall|bi: int|
                    0 <= bi < j && bi != hi ==> ((#[trigger] self.areas@[bi]).end_vpn <= s0 || ne
                        <= self.areas@[bi].start_vpn),
                clash ==> exists|bi: int|
                    0 <= bi < n && bi != hi && !((#[trigger] self.areas@[bi]).end_vpn <= s0 || ne
                        <= self.areas@[bi].start_vpn),
            decreases n - j,
        {
            if j != hi {
                let b = &self.areas[j];
                if !(b.end_vpn <= s0 || ne <= b.start_vpn) {
                    proof {
                        assert(!((self.areas@[j as int]).end_vpn <= s0 || ne
                            <= self.areas@[j as int].start_vpn));
                    }
                    clash = true;
                    j = n;
                } else {
                    j = j + 1;
                }
            } else {
                j = j + 1;
            }
        }
        if clash {
            return false;
        }
        proof {
            // the span to map is not currently mapped
            assert forall|v: u64| e0 <= v < ne implies !(#[trigger] g0.page_table.is_mapped(
                v,
            )) by {
                if g0.page_table.is_mapped(v) {
                    assert(g0.covered(v));
                    let bi = choose|bi: int|
                        0 <= bi < g0.areas@.len() && (#[trigger] g0.areas@[bi]).start_vpn <= v
                            < g0.areas@[bi].end_vpn;
                    if bi == hi as int {
                        assert(v < e0);
                    } else {
                        assert(g0.areas@[bi].end_vpn <= e0 || ne <= g0.areas@[bi].start_vpn);
                    }
                }
            }
        }
        let new_frames = match map_range(&mut self.page_table, e0, ne, self.areas[hi].perm, fa) {
            Ok(fs) => fs,
            Err(_) => {
                proof {
                    self.lemma_restore_after_pt_change(g0, *old(fa), *fa);
                    assert forall|q: u64| #[trigger] self.owns(q) implies g0.owns(q) || !old(
                        fa,
                    ).allocated(q) by {
                        if self.page_table.owns_frame(q) {
                            let j = choose|j: int|
                                0 <= j < self.page_table.nodes@.len()
                                    && self.page_table.node_ppn(j) == q;
                            if g0.page_table.owns_frame(self.page_table.node_ppn(j)) {
                                assert(g0.owns(q));
                            } else {
                                assert(!old(fa).allocated(self.page_table.node_ppn(j)));
                            }
                        } else {
                            let (ai2, o) = choose|ai2: int, o: int|
                                0 <= ai2 < self.areas@.len() && 0 <= o
                                    < self.areas@[ai2].frames@.len() && #[trigger] self.frame_ppn(
                                    ai2,
                                    o,
                                ) == q;
                            assert(g0.frame_ppn(ai2, o) == q);
                            assert(g0.owns(q));
                        }
                    }
                    assert(owns_delta_fresh(g0, *self, *old(fa)));
                }
                return false;
            },
        };
        let ghost gnew = new_frames@;
        let mut moved = new_frames;
        let area = &mut self.areas[hi];
        area.frames.append(&mut moved);
        area.end_vpn = ne;
        proof {
            let w = g0.areas@.len() as int;
            let hii = hi as int;
            let olen = g0.areas@[hii].frames@.len() as int;
            assert(self.areas@[hii].frames@ == g0.areas@[hii].frames@ + gnew);
            assert forall|bi: int| 0 <= bi < w && bi != hii implies #[trigger] self.areas@[bi]
                == g0.areas@[bi] by {}
            assert forall|bi: int| 0 <= bi < self.areas@.len() implies area_wf(
                #[trigger] self.areas@[bi],
            ) by {
                assert(area_wf(g0.areas@[bi]));
            }
            assert forall|bi: int, ci: int|
                #![trigger self.areas@[bi], self.areas@[ci]]
                0 <= bi < self.areas@.len() && 0 <= ci < self.areas@.len() && bi != ci implies
                areas_disjoint(self.areas@[bi], self.areas@[ci]) by {
                assert(areas_disjoint(g0.areas@[bi], g0.areas@[ci]));
                if bi == hii {
                    assert(g0.areas@[ci].end_vpn <= s0 || ne <= g0.areas@[ci].start_vpn);
                } else if ci == hii {
                    assert(g0.areas@[bi].end_vpn <= s0 || ne <= g0.areas@[bi].start_vpn);
                }
            }
            assert forall|bi: int| 0 <= bi < self.areas@.len() implies self.area_maps(bi) by {
                assert(g0.area_maps(bi));
                assert forall|o: int|
                    0 <= o < self.areas@[bi].frames@.len() implies page_maps(
                    self.page_table,
                    (self.areas@[bi].start_vpn + o) as u64,
                    (#[trigger] self.areas@[bi].frames@[o]).ppn,
                    self.areas@[bi].perm | FLAG_V,
                ) by {
                    let v = (self.areas@[bi].start_vpn + o) as u64;
                    if bi == hii && o >= olen {
                        assert(self.areas@[bi].frames@[o] == gnew[o - olen]);
                        assert(e0 <= v < ne);
                        assert(self.page_table.is_mapped(v));
                        assert(self.page_table.mapped_ppn(v) == gnew[(v - e0) as int].ppn);
                        assert((v - e0) as int == o - olen);
                    } else {
                        assert(self.areas@[bi].frames@[o] == g0.areas@[bi].frames@[o]);
                        assert(page_maps(
                            g0.page_table,
                            v,
                            g0.areas@[bi].frames@[o].ppn,
                            g0.areas@[bi].perm | FLAG_V,
                        ));
                        assert(!(e0 <= v < ne)) by {
                            if bi == hii {
                                assert(v < e0);
                            } else {
                                assert(g0.areas@[bi].end_vpn <= e0 || ne
                                    <= g0.areas@[bi].start_vpn);
                            }
                        }
                        assert(self.page_table.spec_translate(v) == g0.page_table.spec_translate(
                            v,
                        ));
                    }
                }
                self.lemma_area_maps_intro(bi);
            }
            assert forall|v: u64|
                v < VPN_LIMIT && #[trigger] self.page_table.is_mapped(v) implies self.covered(
                v,
            ) by {
                if e0 <= v < ne {
                    assert(self.areas@[hii].start_vpn <= v < self.areas@[hii].end_vpn);
                } else {
                    assert(g0.page_table.is_mapped(v));
                    assert(g0.covered(v));
                    let bi = choose|bi: int|
                        0 <= bi < g0.areas@.len() && (#[trigger] g0.areas@[bi]).start_vpn <= v
                            < g0.areas@[bi].end_vpn;
                    assert(self.areas@[bi].start_vpn <= v < self.areas@[bi].end_vpn);
                }
            }
            assert forall|bi: int, o: int|
                0 <= bi < self.areas@.len() && 0 <= o < self.areas@[bi].frames@.len() implies
                fa.allocated(#[trigger] self.frame_ppn(bi, o)) by {
                if bi == hii && o >= olen {
                    assert(self.frame_ppn(bi, o) == gnew[o - olen].ppn);
                } else {
                    assert(self.frame_ppn(bi, o) == g0.frame_ppn(bi, o));
                    assert(old(fa).allocated(g0.frame_ppn(bi, o)));
                }
            }
            assert forall|bi: int, o: int, ci: int, o2: int|
                #![trigger self.frame_ppn(bi, o), self.frame_ppn(ci, o2)]
                0 <= bi < self.areas@.len() && 0 <= o < self.areas@[bi].frames@.len() && 0 <= ci
                    < self.areas@.len() && 0 <= o2 < self.areas@[ci].frames@.len() && !(bi == ci
                    && o == o2) implies self.frame_ppn(bi, o) != self.frame_ppn(ci, o2) by {
                let fresh_b = bi == hii && o >= olen;
                let fresh_c = ci == hii && o2 >= olen;
                if fresh_b && fresh_c {
                    assert(gnew[o - olen].ppn != gnew[o2 - olen].ppn);
                } else if fresh_b {
                    assert(old(fa).allocated(g0.frame_ppn(ci, o2)));
                    assert(!old(fa).allocated(gnew[o - olen].ppn));
                    assert(self.frame_ppn(ci, o2) == g0.frame_ppn(ci, o2));
                } else if fresh_c {
                    assert(old(fa).allocated(g0.frame_ppn(bi, o)));
                    assert(!old(fa).allocated(gnew[o2 - olen].ppn));
                    assert(self.frame_ppn(bi, o) == g0.frame_ppn(bi, o));
                } else {
                    assert(g0.frame_ppn(bi, o) != g0.frame_ppn(ci, o2));
                }
            }
            assert forall|bi: int, o: int, j2: int|
                #![trigger self.frame_ppn(bi, o), self.page_table.node_ppn(j2)]
                0 <= bi < self.areas@.len() && 0 <= o < self.areas@[bi].frames@.len() && 0 <= j2
                    < self.page_table.nodes@.len() implies self.frame_ppn(bi, o)
                != self.page_table.node_ppn(j2) by {
                if bi == hii && o >= olen {
                    assert(self.frame_ppn(bi, o) == gnew[o - olen].ppn);
                } else {
                    assert(self.frame_ppn(bi, o) == g0.frame_ppn(bi, o));
                    if g0.page_table.owns_frame(self.page_table.node_ppn(j2)) {
                        let j0 = choose|j0: int|
                            0 <= j0 < g0.page_table.nodes@.len() && g0.page_table.node_ppn(j0)
                                == self.page_table.node_ppn(j2);
                        assert(g0.frame_ppn(bi, o) != g0.page_table.node_ppn(j0));
                    } else {
                        assert(!old(fa).allocated(self.page_table.node_ppn(j2)));
                        assert(old(fa).allocated(g0.frame_ppn(bi, o)));
                    }
                }
            }
            assert forall|v: u64| self.covered(v) == (g0.covered(v) || (e0 <= v < ne)) by {
                if g0.covered(v) {
                    let bi = choose|bi: int|
                        0 <= bi < g0.areas@.len() && (#[trigger] g0.areas@[bi]).start_vpn <= v
                            < g0.areas@[bi].end_vpn;
                    assert(self.areas@[bi].start_vpn <= v < self.areas@[bi].end_vpn);
                }
                if e0 <= v < ne {
                    assert(self.areas@[hii].start_vpn <= v < self.areas@[hii].end_vpn);
                }
                if self.covered(v) {
                    let bi = choose|bi: int|
                        0 <= bi < self.areas@.len() && (#[trigger] self.areas@[bi]).start_vpn <= v
                            < self.areas@[bi].end_vpn;
                    if !(bi == hii && !(v < e0)) {
                        assert(g0.areas@[bi].start_vpn <= v < g0.areas@[bi].end_vpn);
                        assert(g0.covered(v));
                    }
                }
            }
            assert forall|q: u64| #[trigger] self.owns(q) implies g0.owns(q) || !old(
                fa,
            ).allocated(q) by {
                if self.page_table.owns_frame(q) {
                    let j2 = choose|j2: int|
                        0 <= j2 < self.page_table.nodes@.len() && self.page_table.node_ppn(j2)
                            == q;
                    if g0.page_table.owns_frame(self.page_table.node_ppn(j2)) {
                        assert(g0.owns(q));
                    } else {
                        assert(!old(fa).allocated(self.page_table.node_ppn(j2)));
                    }
                } else {
                    let (ai2, o) = choose|ai2: int, o: int|
                        0 <= ai2 < self.areas@.len() && 0 <= o < self.areas@[ai2].frames@.len()
                            && #[trigger] self.frame_ppn(ai2, o) == q;
                    if ai2 == hii && o >= olen {
                        assert(gnew[o - olen].ppn == q);
                        assert(!old(fa).allocated(q));
                    } else {
                        assert(g0.frame_ppn(ai2, o) == q);
                        assert(g0.owns(q));
                    }
                }
            }
            assert(owns_delta_fresh(g0, *self, *old(fa)));
            assert forall|q: u64|
                !old(fa).allocated(q) && #[trigger] fa.allocated(q) implies self.owns(q) by {
                assert((exists|o: int|
                    0 <= o < gnew.len() && (#[trigger] gnew[o]).ppn == q)
                    || self.page_table.owns_frame(q));
                if exists|o: int| 0 <= o < gnew.len() && (#[trigger] gnew[o]).ppn == q {
                    let o = choose|o: int| 0 <= o < gnew.len() && (#[trigger] gnew[o]).ppn == q;
                    assert(self.frame_ppn(hii, o + olen) == q);
                    assert(self.owns(q));
                }
            }
            assert(allocs_only_owned(*self, *old(fa), *fa));
        }
        true
    }

    /// Shrink the region starting at `start` so that it ends at `new_end`,
    /// unmapping the cut pages and releasing their frames; `false` when
    /// there is no such region or the new end lies above the old one.
    pub fn shrink_to(&mut self, start: u64, new_end: u64, fa: &mut StackFrameAllocator) -> (r:
        bool)
        requires
            old(self).wf_with(*old(fa)),
            old(self).unique_start(spec_page_floor(start)),
            start <= new_end,
            new_end < VADDR_LIMIT,
        ensures
            final(self).wf_with(*final(fa)),
            final(fa).end == old(fa).end,
            final(self).page_table.root_ppn == old(self).page_table.root_ppn,
            owns_delta_fresh(*old(self), *final(self), *old(fa)),
            frees_only_owned(*old(self), *old(fa), *final(fa)),
            allocs_only_owned(*final(self), *old(fa), *final(fa)),
            !r ==> *final(self) == *old(self) && *final(fa) == *old(fa),
            ({
                let s0 = spec_page_floor(start);
                let hi = old(self).area_with_start(s0);
                let e0 = old(self).areas@[hi].end_vpn;
                let ns = spec_page_ceil(new_end);
                &&& r <==> (old(self).has_area_with_start(s0) && ns <= e0)
                &&& (r ==> {
                    &&& final(self).areas@.len() == old(self).areas@.len()
                    &&& forall|bi: int|
                        0 <= bi < old(self).areas@.len() && bi != hi ==> #[trigger] final(self).areas@[bi] == old(self).areas@[bi]
                    &&& final(self).areas@[hi].start_vpn == s0
                    &&& final(self).areas@[hi].end_vpn == ns
                    &&& final(self).areas@[hi].perm == old(self).areas@[hi].perm
                    &&& forall|o: int|
                        0 <= o < ns - s0 ==> #[trigger] final(self).areas@[hi].frames@[o] == old(
                            self,
                        ).areas@[hi].frames@[o]
                    &&& forall|v: u64|
                        ns <= v < e0 ==> !(#[trigger] final(self).page_table.is_mapped(v))
                    &&& forall|v: u64|
                        v < VPN_LIMIT && !(ns <= v < e0) ==> #[trigger] final(self).page_table.spec_translate(v) == old(self).page_table.spec_translate(v)
                    &&& forall|v: u64|
                        final(self).covered(v) == (old(self).covered(v) && !(ns <= v < e0))
                })
            }),
    {
        let ghost g0 = *self;
        let s0 = page_floor(start);
        let ns = page_ceil(new_end);
        let n = self.areas.len();
        let mut i: usize = 0;
        let mut found: Option<usize> = None;
        while i < n
            invariant
                n == self.areas@.len(),
                0 <= i <= n,
                found is None ==> forall|ai: int|
                    0 <= ai < i ==> (#[trigger] self.areas@[ai]).start_vpn != s0,
                found matches Some(k) ==> k < n && self.areas@[k as int].start_vpn == s0,
            decreases n - i,
        {
            if self.areas[i].start_vpn == s0 {
                found = Some(i);
                i = n;
            } else {
                i = i + 1;
            }
        }
        let hi = match found {
            Some(k) => k,
            None => {
                proof {
                    assert forall|bi: int| 0 <= bi < g0.areas@.len() implies (
                    #[trigger] g0.areas@[bi]).start_vpn != s0 by {
                        assert(self.areas@[bi].start_vpn != s0);
                    }
                }
                return false;
            },
        };
        proof {
            assert(g0.has_area_with_start(s0));
            let c = g0.area_with_start(s0);
            assert(g0.areas@[c].start_vpn == s0);
            assert(c == hi as int);
        }
        let e0 = self.areas[hi].end_vpn;
        if ns > e0 {
            return false;
        }
        proof {
            assert(g0.area_maps(hi as int));
        }
        let area = &mut self.areas[hi];
        let tail = area.frames.split_off((ns - s0) as usize);
        area.end_vpn = ns;
        let ghost gtail = tail@;
        proof {
            let hii = hi as int;
            assert(self.areas@[hii].frames@ == g0.areas@[hii].frames@.subrange(
                0,
                (ns - s0) as int,
            ));
            assert(gtail == g0.areas@[hii].frames@.subrange(
                (ns - s0) as int,
                g0.areas@[hii].frames@.len() as int,
            ));
            assert forall|v: u64| ns <= v < ns + gtail.len() implies #[trigger] self
                .page_table.is_mapped(v) && self.page_table.mapped_ppn(v) == gtail[(v
                - ns) as int].ppn by {
                let o = (v - s0) as int;
                assert(page_maps(
                    g0.page_table,
                    (g0.areas@[hii].start_vpn + o) as u64,
                    g0.areas@[hii].frames@[o].ppn,
                    g0.areas@[hii].perm | FLAG_V,
                ));
                assert(gtail[(v - ns) as int] == g0.areas@[hii].frames@[o]);
            }
            assert forall|o: int, o2: int|
                #![trigger gtail[o], gtail[o2]]
                0 <= o < gtail.len() && 0 <= o2 < gtail.len() && o != o2 implies gtail[o].ppn
                != gtail[o2].ppn by {
                assert(g0.frame_ppn(hii, o + (ns - s0)) != g0.frame_ppn(hii, o2 + (ns - s0)));
            }
            assert forall|o: int, j: int|
                #![trigger gtail[o], self.page_table.node_ppn(j)]
                0 <= o < gtail.len() && 0 <= j < self.page_table.nodes@.len() implies gtail[o].ppn
                != self.page_table.node_ppn(j) by {
                assert(g0.frame_ppn(hii, o + (ns - s0)) != g0.page_table.node_ppn(j));
            }
            assert forall|o: int| 0 <= o < gtail.len() implies fa.allocated(
                (#[trigger] gtail[o]).ppn,
            ) by {
                assert(fa.allocated(g0.frame_ppn(hii, o + (ns - s0))));
            }
        }
        unmap_and_free(&mut self.page_table, tail, ns, fa);
        proof {
            let hii = hi as int;
            let olen = g0.areas@[hii].frames@.len() as int;
            assert forall|bi: int| 0 <= bi < self.areas@.len() && bi != hii implies
                #[trigger] self.areas@[bi] == g0.areas@[bi] by {}
            assert forall|bi: int| 0 <= bi < self.areas@.len() implies area_wf(
                #[trigger] self.areas@[bi],
            ) by {
                assert(area_wf(g0.areas@[bi]));
            }
            assert forall|bi: int, ci: int|
                #![trigger self.areas@[bi], self.areas@[ci]]
                0 <= bi < self.areas@.len() && 0 <= ci < self.areas@.len() && bi != ci implies
                areas_disjoint(self.areas@[bi], self.areas@[ci]) by {
                assert(areas_disjoint(g0.areas@[bi], g0.areas@[ci]));
            }
            assert forall|bi: int| 0 <= bi < self.areas@.len() implies self.area_maps(bi) by {
                assert(g0.area_maps(bi));
                assert forall|o: int|
                    0 <= o < self.areas@[bi].frames@.len() implies page_maps(
                    self.page_table,
                    (self.areas@[bi].start_vpn + o) as u64,
                    (#[trigger] self.areas@[bi].frames@[o]).ppn,
                    self.areas@[bi].perm | FLAG_V,
                ) by {
                    let v = (self.areas@[bi].start_vpn + o) as u64;
                    assert(self.areas@[bi].frames@[o] == g0.areas@[bi].frames@[o]);
                    assert(page_maps(
                        g0.page_table,
                        v,
                        g0.areas@[bi].frames@[o].ppn,
                        g0.areas@[bi].perm | FLAG_V,
                    ));
                    assert(!(ns <= v < ns + gtail.len())) by {
                        if bi == hii {
                            assert(v < ns);
                        } else {
                            assert(areas_disjoint(g0.areas@[bi], g0.areas@[hii]));
                        }
                    }
                    assert(self.page_table.spec_translate(v) == g0.page_table.spec_translate(v));
                }
                self.lemma_area_maps_intro(bi);
            }
            assert forall|v: u64|
                v < VPN_LIMIT && #[trigger] self.page_table.is_mapped(v) implies self.covered(
                v,
            ) by {
                assert(!(ns <= v < ns + gtail.len()));
                assert(self.page_table.spec_translate(v) == g0.page_table.spec_translate(v));
                assert(g0.page_table.is_mapped(v));
                assert(g0.covered(v));
                let bi = choose|bi: int|
                    0 <= bi < g0.areas@.len() && (#[trigger] g0.areas@[bi]).start_vpn <= v
                        < g0.areas@[bi].end_vpn;
                if bi == hii {
                    assert(v < ns);
                    assert(self.areas@[hii].start_vpn <= v < self.areas@[hii].end_vpn);
                } else {
                    assert(self.areas@[bi].start_vpn <= v < self.areas@[bi].end_vpn);
                }
            }
            assert forall|bi: int, o: int|
                0 <= bi < self.areas@.len() && 0 <= o < self.areas@[bi].frames@.len() implies
                fa.allocated(#[trigger] self.frame_ppn(bi, o)) by {
                assert(self.frame_ppn(bi, o) == g0.frame_ppn(bi, o));
                assert(old(fa).allocated(g0.frame_ppn(bi, o)));
                if exists|o2: int|
                    0 <= o2 < gtail.len() && (#[trigger] gtail[o2]).ppn == self.frame_ppn(bi, o) {
                    let o2 = choose|o2: int|
                        0 <= o2 < gtail.len() && (#[trigger] gtail[o2]).ppn == self.frame_ppn(
                            bi,
                            o,
                        );
                    assert(gtail[o2].ppn == g0.frame_ppn(hii, o2 + (ns - s0)));
                    assert(g0.frame_ppn(bi, o) != g0.frame_ppn(hii, o2 + (ns - s0)));
                }
            }
            assert forall|bi: int, o: int, ci: int, o2: int|
                #![trigger self.frame_ppn(bi, o), self.frame_ppn(ci, o2)]
                0 <= bi < self.areas@.len() && 0 <= o < self.areas@[bi].frames@.len() && 0 <= ci
                    < self.areas@.len() && 0 <= o2 < self.areas@[ci].frames@.len() && !(bi == ci
                    && o == o2) implies self.frame_ppn(bi, o) != self.frame_ppn(ci, o2) by {
                assert(g0.frame_ppn(bi, o) != g0.frame_ppn(ci, o2));
            }
            assert forall|bi: int, o: int, j: int|
                #![trigger self.frame_ppn(bi, o), self.page_table.node_ppn(j)]
                0 <= bi < self.areas@.len() && 0 <= o < self.areas@[bi].frames@.len() && 0 <= j
                    < self.page_table.nodes@.len() implies self.frame_ppn(bi, o)
                != self.page_table.node_ppn(j) by {
                assert(self.page_table.node_ppn(j) == g0.page_table.node_ppn(j));
                assert(g0.frame_ppn(bi, o) != g0.page_table.node_ppn(j));
            }
            assert forall|v: u64| self.covered(v) == (g0.covered(v) && !(ns <= v < e0)) by {
                if self.covered(v) {
                    let bi = choose|bi: int|
                        0 <= bi < self.areas@.len() && (#[trigger] self.areas@[bi]).start_vpn <= v
                            < self.areas@[bi].end_vpn;
                    assert(g0.areas@[bi].start_vpn <= v < g0.areas@[bi].end_vpn);
                    assert(g0.covered(v));
                    if ns <= v < e0 {
                        assert(bi != hii);
                        assert(areas_disjoint(g0.areas@[bi], g0.areas@[hii]));
                    }
                }
                if g0.covered(v) && !(ns <= v < e0) {
                    let bi = choose|bi: int|
                        0 <= bi < g0.areas@.len() && (#[trigger] g0.areas@[bi]).start_vpn <= v
                            < g0.areas@[bi].end_vpn;
                    if bi == hii {
                        assert(v < ns);
                        assert(self.areas@[hii].start_vpn <= v < self.areas@[hii].end_vpn);
                    } else {
                        assert(self.areas@[bi].start_vpn <= v < self.areas@[bi].end_vpn);
                    }
                    assert(self.covered(v));
                }
            }
            assert forall|q: u64| #[trigger] self.owns(q) implies g0.owns(q) || !old(
                fa,
            ).allocated(q) by {
                if self.page_table.owns_frame(q) {
                    let j = choose|j: int|
                        0 <= j < self.page_table.nodes@.len() && self.page_table.node_ppn(j) == q;
                    assert(g0.page_table.node_ppn(j) == q);
                    assert(g0.owns(q));
                } else {
                    let (ai2, o) = choose|ai2: int, o: int|
                        0 <= ai2 < self.areas@.len() && 0 <= o < self.areas@[ai2].frames@.len()
                            && #[trigger] self.frame_ppn(ai2, o) == q;
                    assert(g0.frame_ppn(ai2, o) == q);
                    assert(g0.owns(q));
                }
            }
            assert(owns_delta_fresh(g0, *self, *old(fa)));
            assert forall|q: u64|
                old(fa).allocated(q) && !(#[trigger] fa.allocated(q)) implies g0.owns(q) by {
                assert(exists|o: int|
                    0 <= o < gtail.len() && (#[trigger] gtail[o]).ppn == q);
                let o = choose|o: int| 0 <= o < gtail.len() && (#[trigger] gtail[o]).ppn == q;
                assert(g0.frame_ppn(hii, o + (ns - s0)) == q);
                assert(g0.owns(q));
            }
            assert(frees_only_owned(g0, *old(fa), *fa));
        }
        true
    }

    /// Whether this address space owns physical page `q`: as a page-table
    /// node or as the backing frame of some region page.
    pub open spec fn owns(self, q: u64) -> bool {
        self.page_table.owns_frame(q) || (exists|ai: int, o: int|
            0 <= ai < self.areas@.len() && 0 <= o < self.areas@[ai].frames@.len()
                && #[trigger] self.frame_ppn(ai, o) == q)
    }

    /// Tear the whole address space down: unmap every region, release every
    /// backing frame and every page-table frame, each exactly once.
    pub fn release(self, fa: &mut StackFrameAllocator)
        requires
            self.wf_with(*old(fa)),
        ensures
            final(fa).wf(),
            final(fa).end == old(fa).end,
            forall|q: u64|
                #![trigger final(fa).allocated(q)]
                #![trigger old(fa).allocated(q)]
                final(fa).allocated(q) == (old(fa).allocated(q) && !self.owns(q)),
    {
        let ghost g0 = self;
        let ghost fa0 = *old(fa);
        let MemorySet { mut page_table, mut areas } = self;
        let ghost n = g0.areas@.len() as int;
        proof {
            assert forall|ai: int|
                #![trigger g0.areas@[ai]]
                0 <= ai < areas@.len() implies forall|o: int|
                0 <= o < g0.areas@[ai].frames@.len() ==> page_maps(
                    page_table,
                    (g0.areas@[ai].start_vpn + o) as u64,
                    (#[trigger] g0.areas@[ai].frames@[o]).ppn,
                    g0.areas@[ai].perm | FLAG_V,
                ) by {
                assert(g0.area_maps(ai));
                assert forall|o: int|
                    0 <= o < g0.areas@[ai].frames@.len() implies page_maps(
                    page_table,
                    (g0.areas@[ai].start_vpn + o) as u64,
                    (#[trigger] g0.areas@[ai].frames@[o]).ppn,
                    g0.areas@[ai].perm | FLAG_V,
                ) by {
                    assert(page_maps(
                        g0.page_table,
                        (g0.areas@[ai].start_vpn + o) as u64,
                        g0.areas@[ai].frames@[o].ppn,
                        g0.areas@[ai].perm | FLAG_V,
                    ));
                }
            }
        }
        while areas.len() > 0
            invariant
                fa.wf(),
                fa.end == fa0.end,
                n == g0.areas@.len(),
                areas@.len() <= n,
                areas@ =~= g0.areas@.subrange(0, areas@.len() as int),
                page_table.wf_with(*fa),
                page_table.nodes@.len() == g0.page_table.nodes@.len(),
                forall|j: int|
                    0 <= j < g0.page_table.nodes@.len() ==> #[trigger] page_table.node_ppn(j)
                        == g0.page_table.node_ppn(j),
                g0.wf_with(fa0),
                forall|q: u64|
                    fa.allocated(q) == (fa0.allocated(q) && !(exists|ai: int, o: int|
                        areas@.len() <= ai < n && 0 <= o < g0.areas@[ai].frames@.len()
                            && #[trigger] g0.frame_ppn(ai, o) == q)),
                forall|ai: int|
                    #![trigger g0.areas@[ai]]
                    0 <= ai < areas@.len() ==> forall|o: int|
                        0 <= o < g0.areas@[ai].frames@.len() ==> page_maps(
                            page_table,
                            (g0.areas@[ai].start_vpn + o) as u64,
                            (#[trigger] g0.areas@[ai].frames@[o]).ppn,
                            g0.areas@[ai].perm | FLAG_V,
                        ),
            decreases areas@.len(),
        {
            let ghost pt_pre = page_table;
            let ghost fa_pre = *fa;
            let area = match areas.pop() {
                Some(a) => a,
                None => {
                    unreached()
                },
            };
            let ghost ki = areas@.len() as int;
            let ghost gframes = area.frames@;
            let ghost s = g0.areas@[ki].start_vpn;
            proof {
                assert(area == g0.areas@[ki]);
                assert forall|v: u64| s <= v < s + gframes.len() implies #[trigger] page_table
                    .is_mapped(v) && page_table.mapped_ppn(v) == gframes[(v - s) as int].ppn by {
                    let o = (v - s) as int;
                    assert(page_maps(
                        page_table,
                        (g0.areas@[ki].start_vpn + o) as u64,
                        g0.areas@[ki].frames@[o].ppn,
                        g0.areas@[ki].perm | FLAG_V,
                    ));
                }
                assert forall|o: int, o2: int|
                    #![trigger gframes[o], gframes[o2]]
                    0 <= o < gframes.len() && 0 <= o2 < gframes.len() && o != o2 implies
                    gframes[o].ppn != gframes[o2].ppn by {
                    assert(g0.frame_ppn(ki, o) != g0.frame_ppn(ki, o2));
                }
                assert forall|o: int, j: int|
                    #![trigger gframes[o], page_table.node_ppn(j)]
                    0 <= o < gframes.len() && 0 <= j < page_table.nodes@.len() implies
                    gframes[o].ppn != page_table.node_ppn(j) by {
                    assert(g0.frame_ppn(ki, o) != g0.page_table.node_ppn(j));
                }
                assert forall|o: int| 0 <= o < gframes.len() implies fa.allocated(
                    (#[trigger] gframes[o]).ppn,
                ) by {
                    assert(fa0.allocated(g0.frame_ppn(ki, o)));
                    if exists|ai: int, o2: int|
                        ki + 1 <= ai < n && 0 <= o2 < g0.areas@[ai].frames@.len()
                            && #[trigger] g0.frame_ppn(ai, o2) == gframes[o].ppn {
                        let (ai, o2) = choose|ai: int, o2: int|
                            ki + 1 <= ai < n && 0 <= o2 < g0.areas@[ai].frames@.len()
                                && #[trigger] g0.frame_ppn(ai, o2) == gframes[o].ppn;
                        assert(g0.frame_ppn(ai, o2) != g0.frame_ppn(ki, o));
                    }
                }
            }
            unmap_and_free(&mut page_table, area.frames, area.start_vpn, fa);
            proof {
                assert forall|q: u64| fa.allocated(q) == (fa0.allocated(q) && !(exists|
                    ai: int,
                    o: int,
                |
                    ki <= ai < n && 0 <= o < g0.areas@[ai].frames@.len() && #[trigger] g0
                        .frame_ppn(ai, o) == q)) by {
                    if exists|ai: int, o: int|
                        ki <= ai < n && 0 <= o < g0.areas@[ai].frames@.len()
                            && #[trigger] g0.frame_ppn(ai, o) == q {
                        let (ai, o) = choose|ai: int, o: int|
                            ki <= ai < n && 0 <= o < g0.areas@[ai].frames@.len()
                                && #[trigger] g0.frame_ppn(ai, o) == q;
                        if ai > ki {
                            assert(!fa_pre.allocated(q));
                            assert(fa.allocated(q) ==> fa_pre.allocated(q));
                        } else {
                            assert(gframes[o].ppn == q);
                            assert(!fa.allocated(q));
                        }
                        assert(!fa.allocated(q));
                    } else {
                        if fa0.allocated(q) {
                            assert(fa_pre.allocated(q)) by {
                                if exists|ai: int, o: int|
                                    ki + 1 <= ai < n && 0 <= o < g0.areas@[ai].frames@.len()
                                        && #[trigger] g0.frame_ppn(ai, o) == q {
                                    let (ai, o) = choose|ai: int, o: int|
                                        ki + 1 <= ai < n && 0 <= o
                                            < g0.areas@[ai].frames@.len() && #[trigger] g0
                                            .frame_ppn(ai, o) == q;
                                }
                            }
                            assert(fa.allocated(q)) by {
                                if exists|o: int|
                                    0 <= o < gframes.len() && (#[trigger] gframes[o]).ppn == q {
                                    let o = choose|o: int|
                                        0 <= o < gframes.len() && (#[trigger] gframes[o]).ppn
                                            == q;
                                    assert(g0.frame_ppn(ki, o) == q);
                                }
                            }
                        }
                    }
                }
                assert forall|ai: int|
                    #![trigger g0.areas@[ai]]
                    0 <= ai < areas@.len() implies forall|o: int|
                    0 <= o < g0.areas@[ai].frames@.len() ==> page_maps(
                        page_table,
                        (g0.areas@[ai].start_vpn + o) as u64,
                        (#[trigger] g0.areas@[ai].frames@[o]).ppn,
                        g0.areas@[ai].perm | FLAG_V,
                    ) by {
                    assert forall|o: int|
                        0 <= o < g0.areas@[ai].frames@.len() implies page_maps(
                        page_table,
                        (g0.areas@[ai].start_vpn + o) as u64,
                        (#[trigger] g0.areas@[ai].frames@[o]).ppn,
                        g0.areas@[ai].perm | FLAG_V,
                    ) by {
                        let v = (g0.areas@[ai].start_vpn + o) as u64;
                        assert(page_maps(
                            pt_pre,
                            v,
                            g0.areas@[ai].frames@[o].ppn,
                            g0.areas@[ai].perm | FLAG_V,
                        ));
                        assert(areas_disjoint(g0.areas@[ai], g0.areas@[ki]));
                        assert(!(s <= v < s + gframes.len()));
                        assert(page_table.spec_translate(v) == pt_pre.spec_translate(v));
                    }
                }
            }
        }
        let ghost gpt_last = page_table;
        let ghost fa_mid = *fa;
        page_table.release_frames(fa);
        proof {
            assert forall|q: u64| fa.allocated(q) == (fa0.allocated(q) && !g0.owns(q)) by {
                assert(gpt_last.owns_frame(q) == g0.page_table.owns_frame(q)) by {
                    if gpt_last.owns_frame(q) {
                        let j = choose|j: int|
                            0 <= j < gpt_last.nodes@.len() && gpt_last.node_ppn(j) == q;
                        assert(g0.page_table.node_ppn(j) == q);
                    }
                    if g0.page_table.owns_frame(q) {
                        let j = choose|j: int|
                            0 <= j < g0.page_table.nodes@.len() && g0.page_table.node_ppn(j) == q;
                        assert(gpt_last.node_ppn(j) == q);
                    }
                }
                if g0.owns(q) {
                    if g0.page_table.owns_frame(q) {
                        assert(!fa.allocated(q));
                    } else {
                        let (ai, o) = choose|ai: int, o: int|
                            0 <= ai < g0.areas@.len() && 0 <= o < g0.areas@[ai].frames@.len()
                                && #[trigger] g0.frame_ppn(ai, o) == q;
                        assert(!fa_mid.allocated(q));
                        assert(!fa.allocated(q));
                    }
                }
            }
        }
    }

    /// Clone another address space, page for page: same regions, same
    /// permissions and identical page contents, but backed throughout by
    /// fresh frames, so that the copy is independently mutable. On frame
    /// exhaustion everything built so far is released again.
    pub fn from_existed_user(src: &MemorySet, fa: &mut StackFrameAllocator) -> (r: Result<
        MemorySet,
        KernelError,
    >)
        requires
            src.wf_with(*old(fa)),
        ensures
            final(fa).wf(),
            final(fa).end == old(fa).end,
            forall|q: u64| old(fa).allocated(q) ==> final(fa).allocated(q),
            r is Err ==> r == Err::<MemorySet, KernelError>(KernelError::FrameExhausted),
            old(fa).free_count() >= space_frames_budget(*src) ==> r is Ok,
            r matches Ok(ms) ==> allocs_only_owned(ms, *old(fa), *final(fa)),
            r matches Ok(ms) ==> forall|q: u64| #[trigger] ms.owns(q) ==> !old(fa).allocated(q),
            r matches Ok(ms) ==> {
                &&& ms.wf_with(*final(fa))
                &&& ms.areas@.len() == src.areas@.len()
                &&& forall|ai: int|
                    0 <= ai < src.areas@.len() ==> (#[trigger] ms.areas@[ai]).start_vpn
                        == src.areas@[ai].start_vpn && ms.areas@[ai].end_vpn
                        == src.areas@[ai].end_vpn && ms.areas@[ai].perm == src.areas@[ai].perm
                &&& forall|ai: int, o: int|
                    0 <= ai < src.areas@.len() && 0 <= o < src.areas@[ai].frames@.len() ==> (
                    #[trigger] ms.areas@[ai].frames@[o]).bytes@ == src.areas@[ai].frames@[o].bytes@
                &&& forall|ai: int, o: int|
                    0 <= ai < ms.areas@.len() && 0 <= o < ms.areas@[ai].frames@.len() ==> !old(
                        fa,
                    ).allocated(#[trigger] ms.frame_ppn(ai, o))
                &&& forall|v: u64| ms.covered(v) == src.covered(v)
            },
    {
        let mut ms = match MemorySet::new_bare(fa) {
            Ok(ms) => ms,
            Err(e) => {
                proof {
                    if old(fa).free_count() >= space_frames_budget(*src) {
                        lemma_areas_pages_mono(*src, 0, src.areas@.len() as int);
                        assert(old(fa).has_free());
                        assert(false);
                    }
                }
                return Err(e);
            },
        };
        proof {
            assert forall|q: u64|
                !old(fa).allocated(q) && #[trigger] fa.allocated(q) implies ms.owns(q) by {
                assert(q == ms.page_table.root_ppn);
                assert(ms.page_table.node_ppn(0) == q);
                assert(ms.page_table.owns_frame(q));
            }
        }
        let n = src.areas.len();
        let mut i: usize = 0;
        while i < n
            invariant
                fa.wf(),
                fa.end == old(fa).end,
                n == src.areas@.len(),
                0 <= i <= n,
                src.wf_with(*old(fa)),
                ms.wf_with(*fa),
                forall|q: u64| old(fa).allocated(q) ==> fa.allocated(q),
                fa.free_count() >= old(fa).free_count() - 1 - 3 * areas_pages(*src, i as int),
                ms.areas@.len() == i,
                forall|ai: int|
                    0 <= ai < i ==> (#[trigger] ms.areas@[ai]).start_vpn
                        == src.areas@[ai].start_vpn && ms.areas@[ai].end_vpn
                        == src.areas@[ai].end_vpn && ms.areas@[ai].perm == src.areas@[ai].perm,
                forall|ai: int, o: int|
                    0 <= ai < i && 0 <= o < src.areas@[ai].frames@.len() ==> (
                    #[trigger] ms.areas@[ai].frames@[o]).bytes@
                        == src.areas@[ai].frames@[o].bytes@,
                forall|ai: int, o: int|
                    0 <= ai < ms.areas@.len() && 0 <= o < ms.areas@[ai].frames@.len() ==> !old(
                        fa,
                    ).allocated(#[trigger] ms.frame_ppn(ai, o)),
                forall|j: int|
                    0 <= j < ms.page_table.nodes@.len() ==> !old(fa).allocated(
                        #[trigger] ms.page_table.node_ppn(j),
                    ),
                forall|q: u64|
                    !old(fa).allocated(q) && #[trigger] fa.allocated(q) ==> ms.owns(q),
                forall|v: u64|
                    #![trigger ms.covered(v)]
                    ms.covered(v) == (exists|ai: int|
                        0 <= ai < i && (#[trigger] src.areas@[ai]).start_vpn <= v
                            < src.areas@[ai].end_vpn),
            decreases n - i,
        {
            let ghost gms = ms;
            let ghost fa_pre = *fa;
            let sa = &src.areas[i];
            proof {
                assert(area_wf(src.areas@[i as int]));
                assert forall|v: u64| sa.start_vpn <= v < sa.end_vpn implies !(
                #[trigger] ms.page_table.is_mapped(v)) by {
                    if ms.page_table.is_mapped(v) {
                        assert(ms.covered(v));
                        let ai = choose|ai: int|
                            0 <= ai < i && (#[trigger] src.areas@[ai]).start_vpn <= v
                                < src.areas@[ai].end_vpn;
                        assert(areas_disjoint(src.areas@[ai], src.areas@[i as int]));
                    }
                }
            }
            let mut frames = match map_range(
                &mut ms.page_table,
                sa.start_vpn,
                sa.end_vpn,
                sa.perm,
                fa,
            ) {
                Ok(fs) => fs,
                Err(_) => {
                    proof {
                        if old(fa).free_count() >= space_frames_budget(*src) {
                            assert(area_wf(src.areas@[i as int]));
                            lemma_areas_pages_mono(*src, i as int + 1, src.areas@.len() as int);
                            assert(areas_pages(*src, i as int + 1) == areas_pages(
                                *src,
                                i as int,
                            ) + (src.areas@[i as int].end_vpn - src.areas@[i as int].start_vpn));
                            assert(fa_pre.free_count() >= 3 * (sa.end_vpn - sa.start_vpn));
                            assert(false);
                        }
                    }
                    proof {
                        ms.lemma_restore_after_pt_change(gms, fa_pre, *fa);
                        assert forall|j: int|
                            0 <= j < ms.page_table.nodes@.len() implies !old(fa).allocated(
                            #[trigger] ms.page_table.node_ppn(j),
                        ) by {
                            if gms.page_table.owns_frame(ms.page_table.node_ppn(j)) {
                                let j0 = choose|j0: int|
                                    0 <= j0 < gms.page_table.nodes@.len()
                                        && gms.page_table.node_ppn(j0) == ms.page_table.node_ppn(
                                        j,
                                    );
                            } else {
                                assert(!fa_pre.allocated(ms.page_table.node_ppn(j)));
                            }
                        }
                    }
                    let ghost fa_mid = *fa;
                    let ghost gms2 = ms;
                    ms.release(fa);
                    proof {
                        assert forall|q: u64| old(fa).allocated(q) implies fa.allocated(q) by {
                            assert(fa_mid.allocated(q));
                            assert(!gms2.owns(q)) by {
                                if gms2.page_table.owns_frame(q) {
                                    let j = choose|j: int|
                                        0 <= j < gms2.page_table.nodes@.len()
                                            && gms2.page_table.node_ppn(j) == q;
                                    assert(!old(fa).allocated(q));
                                }
                                if exists|ai: int, o: int|
                                    0 <= ai < gms2.areas@.len() && 0 <= o
                                        < gms2.areas@[ai].frames@.len() && #[trigger] gms2
                                        .frame_ppn(ai, o) == q {
                                    let (ai, o) = choose|ai: int, o: int|
                                        0 <= ai < gms2.areas@.len() && 0 <= o
                                            < gms2.areas@[ai].frames@.len() && #[trigger] gms2
                                            .frame_ppn(ai, o) == q;
                                    assert(gms.frame_ppn(ai, o) == q);
                                    assert(!old(fa).allocated(gms.frame_ppn(ai, o)));
                                    assert(!old(fa).allocated(q));
                                }
                            }
                        }
                    }
                    return Err(KernelError::FrameExhausted);
                },
            };
            // carry the source page contents over into the fresh frames
            let ghost frames0 = frames@;
            let m = frames.len();
            let mut o: usize = 0;
            while o < m
                invariant
                    m == frames@.len(),
                    0 <= o <= m,
                    m == sa.frames@.len(),
                    forall|o2: int|
                        0 <= o2 < m ==> (#[trigger] frames@[o2]).ppn == frames0[o2].ppn,
                    forall|o2: int|
                        0 <= o2 < o ==> (#[trigger] frames@[o2]).bytes@
                            == sa.frames@[o2].bytes@,
                    forall|o2: int|
                        o <= o2 < m ==> (#[trigger] frames@[o2]).bytes@ == frames0[o2].bytes@,
                    forall|o2: int| 0 <= o2 < m ==> (#[trigger] sa.frames@[o2]).wf(),
                decreases m - o,
            {
                let nb = copied_bytes(&sa.frames[o].bytes);
                let fr = &mut frames[o];
                fr.bytes = nb;
                o = o + 1;
            }
            let ghost gframes = frames@;
            ms.areas.push(
                MapArea {
                    start_vpn: sa.start_vpn,
                    end_vpn: sa.end_vpn,
                    perm: sa.perm,
                    frames,
                },
            );
            i = i + 1;
            proof {
                assert(areas_pages(*src, i as int) == areas_pages(*src, i as int - 1) + (
                src.areas@[i as int - 1].end_vpn - src.areas@[i as int - 1].start_vpn));
                let w = (i - 1) as int;
                let s = src.areas@[w].start_vpn;
                let e = src.areas@[w].end_vpn;
                assert(ms.areas@[w].frames@ == gframes);
                assert forall|ai: int| 0 <= ai < w implies #[trigger] ms.areas@[ai]
                    == gms.areas@[ai] by {}

                assert forall|ai: int| 0 <= ai < ms.areas@.len() implies area_wf(
                    #[trigger] ms.areas@[ai],
                ) && ms.area_maps(ai) by {
                    if ai < w {
                        assert(area_wf(gms.areas@[ai]));
                        assert(gms.area_maps(ai));
                        assert forall|o2: int|
                            0 <= o2 < ms.areas@[ai].frames@.len() implies page_maps(
                            ms.page_table,
                            (ms.areas@[ai].start_vpn + o2) as u64,
                            (#[trigger] ms.areas@[ai].frames@[o2]).ppn,
                            ms.areas@[ai].perm | FLAG_V,
                        ) by {
                            let v = (gms.areas@[ai].start_vpn + o2) as u64;
                            assert(page_maps(
                                gms.page_table,
                                v,
                                gms.areas@[ai].frames@[o2].ppn,
                                gms.areas@[ai].perm | FLAG_V,
                            ));
                            assert(gms.covered(v)) by {
                                assert(gms.areas@[ai].start_vpn <= v < gms.areas@[ai].end_vpn);
                            }
                            let bi = choose|bi: int|
                                0 <= bi < w && (#[trigger] src.areas@[bi]).start_vpn <= v
                                    < src.areas@[bi].end_vpn;
                            assert(areas_disjoint(src.areas@[bi], src.areas@[w]));
                            assert(!(s <= v < e));
                            assert(ms.page_table.spec_translate(v)
                                == gms.page_table.spec_translate(v));
                        }
                        ms.lemma_area_maps_intro(ai);
                    } else {
                        assert forall|o2: int|
                            0 <= o2 < ms.areas@[ai].frames@.len() implies page_maps(
                            ms.page_table,
                            (ms.areas@[ai].start_vpn + o2) as u64,
                            (#[trigger] ms.areas@[ai].frames@[o2]).ppn,
                            ms.areas@[ai].perm | FLAG_V,
                        ) by {
                            let v = (s + o2) as u64;
                            assert(ms.page_table.is_mapped(v));
                            assert(ms.page_table.mapped_ppn(v) == gframes[(v - s) as int].ppn);
                        }
                        ms.lemma_area_maps_intro(ai);
                        assert(area_wf(ms.areas@[ai]));
                    }
                }
                assert forall|ai: int, bi: int|
                    #![trigger ms.areas@[ai], ms.areas@[bi]]
                    0 <= ai < ms.areas@.len() && 0 <= bi < ms.areas@.len() && ai != bi implies
                    areas_disjoint(ms.areas@[ai], ms.areas@[bi]) by {
                    assert(areas_disjoint(src.areas@[ai], src.areas@[bi]));
                }
                assert forall|v: u64|
                    v < VPN_LIMIT && #[trigger] ms.page_table.is_mapped(v) implies ms.covered(
                    v,
                ) by {
                    if s <= v < e {
                        assert(ms.areas@[w].start_vpn <= v < ms.areas@[w].end_vpn);
                    } else {
                        assert(gms.page_table.is_mapped(v));
                        assert(gms.covered(v));
                        let ai = choose|ai: int|
                            0 <= ai < gms.areas@.len() && (#[trigger] gms.areas@[ai]).start_vpn
                                <= v < gms.areas@[ai].end_vpn;
                        assert(ms.areas@[ai].start_vpn <= v < ms.areas@[ai].end_vpn);
                    }
                }
                assert forall|ai: int, o2: int|
                    0 <= ai < ms.areas@.len() && 0 <= o2 < ms.areas@[ai].frames@.len() implies
                    fa.allocated(#[trigger] ms.frame_ppn(ai, o2)) && !old(fa).allocated(
                    ms.frame_ppn(ai, o2),
                ) by {
                    if ai < w {
                        assert(ms.frame_ppn(ai, o2) == gms.frame_ppn(ai, o2));
                        assert(fa_pre.allocated(gms.frame_ppn(ai, o2)));
                        assert(!old(fa).allocated(gms.frame_ppn(ai, o2)));
                    } else {
                        assert(ms.frame_ppn(ai, o2) == gframes[o2].ppn);
                        assert(!fa_pre.allocated(gframes[o2].ppn));
                    }
                }
                assert forall|ai: int, o2: int, bi: int, o3: int|
                    #![trigger ms.frame_ppn(ai, o2), ms.frame_ppn(bi, o3)]
                    0 <= ai < ms.areas@.len() && 0 <= o2 < ms.areas@[ai].frames@.len() && 0 <= bi
                        < ms.areas@.len() && 0 <= o3 < ms.areas@[bi].frames@.len() && !(ai == bi
                        && o2 == o3) implies ms.frame_ppn(ai, o2) != ms.frame_ppn(bi, o3) by {
                    if ai < w && bi < w {
                        assert(gms.frame_ppn(ai, o2) != gms.frame_ppn(bi, o3));
                    } else if ai < w {
                        assert(fa_pre.allocated(gms.frame_ppn(ai, o2)));
                        assert(!fa_pre.allocated(gframes[o3].ppn));
                    } else if bi < w {
                        assert(fa_pre.allocated(gms.frame_ppn(bi, o3)));
                        assert(!fa_pre.allocated(gframes[o2].ppn));
                    } else {
                        assert(gframes[o2].ppn != gframes[o3].ppn);
                    }
                }
                assert forall|ai: int, o2: int, j: int|
                    #![trigger ms.frame_ppn(ai, o2), ms.page_table.node_ppn(j)]
                    0 <= ai < ms.areas@.len() && 0 <= o2 < ms.areas@[ai].frames@.len() && 0 <= j
                        < ms.page_table.nodes@.len() implies ms.frame_ppn(ai, o2)
                    != ms.page_table.node_ppn(j) by {
                    if ai < w {
                        if gms.page_table.owns_frame(ms.page_table.node_ppn(j)) {
                            let j0 = choose|j0: int|
                                0 <= j0 < gms.page_table.nodes@.len() && gms.page_table.node_ppn(
                                    j0,
                                ) == ms.page_table.node_ppn(j);
                            assert(gms.frame_ppn(ai, o2) != gms.page_table.node_ppn(j0));
                        } else {
                            assert(!fa_pre.allocated(ms.page_table.node_ppn(j)));
                            assert(fa_pre.allocated(gms.frame_ppn(ai, o2)));
                        }
                    } else {
                        assert(ms.frame_ppn(ai, o2) == gframes[o2].ppn);
                    }
                }
                assert forall|j: int| 0 <= j < ms.page_table.nodes@.len() implies !old(
                    fa,
                ).allocated(#[trigger] ms.page_table.node_ppn(j)) by {
                    if gms.page_table.owns_frame(ms.page_table.node_ppn(j)) {
                        let j0 = choose|j0: int|
                            0 <= j0 < gms.page_table.nodes@.len() && gms.page_table.node_ppn(j0)
                                == ms.page_table.node_ppn(j);
                        assert(!old(fa).allocated(gms.page_table.node_ppn(j0)));
                    } else {
                        assert(!fa_pre.allocated(ms.page_table.node_ppn(j)));
                    }
                }
                assert forall|q: u64|
                    !old(fa).allocated(q) && #[trigger] fa.allocated(q) implies ms.owns(q) by {
                    if fa_pre.allocated(q) {
                        assert(gms.owns(q));
                        if gms.page_table.owns_frame(q) {
                            let j0 = choose|j0: int|
                                0 <= j0 < gms.page_table.nodes@.len()
                                    && gms.page_table.node_ppn(j0) == q;
                            assert(ms.page_table.node_ppn(j0) == q);
                            assert(ms.owns(q));
                        } else {
                            let (ai2, o2) = choose|ai2: int, o2: int|
                                0 <= ai2 < gms.areas@.len() && 0 <= o2
                                    < gms.areas@[ai2].frames@.len() && #[trigger] gms.frame_ppn(
                                    ai2,
                                    o2,
                                ) == q;
                            assert(ms.frame_ppn(ai2, o2) == q);
                            assert(ms.owns(q));
                        }
                    } else {
                        assert((exists|o2: int|
                            0 <= o2 < frames0.len() && (#[trigger] frames0[o2]).ppn == q)
                            || ms.page_table.owns_frame(q));
                        if exists|o2: int|
                            0 <= o2 < frames0.len() && (#[trigger] frames0[o2]).ppn == q {
                            let o2 = choose|o2: int|
                                0 <= o2 < frames0.len() && (#[trigger] frames0[o2]).ppn == q;
                            assert(gframes[o2].ppn == q);
                            assert(ms.frame_ppn(w, o2) == q);
                            assert(ms.owns(q));
                        }
                    }
                }
                assert forall|v: u64|
                    #![trigger ms.covered(v)]
                    ms.covered(v) == (exists|ai: int|
                        0 <= ai < i && (#[trigger] src.areas@[ai]).start_vpn <= v
                            < src.areas@[ai].end_vpn) by {
                    if ms.covered(v) {
                        let ai = choose|ai: int|
                            0 <= ai < ms.areas@.len() && (#[trigger] ms.areas@[ai]).start_vpn <= v
                                < ms.areas@[ai].end_vpn;
                        assert(src.areas@[ai].start_vpn <= v < src.areas@[ai].end_vpn);
                    }
                    if exists|ai: int|
                        0 <= ai < i && (#[trigger] src.areas@[ai]).start_vpn <= v
                            < src.areas@[ai].end_vpn {
                        let ai = choose|ai: int|
                            0 <= ai < i && (#[trigger] src.areas@[ai]).start_vpn <= v
                                < src.areas@[ai].end_vpn;
                        assert(ms.areas@[ai].start_vpn <= v < ms.areas@[ai].end_vpn);
                        assert(ms.covered(v));
                    }
                }
            }
        }
        proof {
            assert(allocs_only_owned(ms, *old(fa), *fa));
            assert forall|q: u64| #[trigger] ms.owns(q) implies !old(fa).allocated(q) by {
                if ms.page_table.owns_frame(q) {
                    let j = choose|j: int|
                        0 <= j < ms.page_table.nodes@.len() && ms.page_table.node_ppn(j) == q;
                } else {
                    let (ai, o) = choose|ai: int, o: int|
                        0 <= ai < ms.areas@.len() && 0 <= o < ms.areas@[ai].frames@.len()
                            && #[trigger] ms.frame_ppn(ai, o) == q;
                }
            }
            assert forall|v: u64| ms.covered(v) == src.covered(v) by {
                if src.covered(v) {
                    let ai = choose|ai: int|
                        0 <= ai < src.areas@.len() && (#[trigger] src.areas@[ai]).start_vpn <= v
                            < src.areas@[ai].end_vpn;
                    assert(exists|ai2: int|
                        0 <= ai2 < n && (#[trigger] src.areas@[ai2]).start_vpn <= v
                            < src.areas@[ai2].end_vpn);
                }
            }
        }
        Ok(ms)
    }

    /// Read the zero-terminated byte string starting at `ptr`, walking one
    /// byte at a time through fresh translations so that page boundaries
    /// are crossed correctly. `None` exactly when no terminator is reached
    /// over covered pages.
    pub fn translated_str(&self, ptr: u64) -> (r: Option<Vec<u8>>)
        requires
            forall|ai: int| 0 <= ai < self.areas@.len() ==> area_wf(#[trigger] self.areas@[ai]),
            forall|ai: int, bi: int|
                #![trigger self.areas@[ai], self.areas@[bi]]
                0 <= ai < self.areas@.len() && 0 <= bi < self.areas@.len() && ai != bi
                    ==> areas_disjoint(self.areas@[ai], self.areas@[bi]),
        ensures
            r matches Some(s) ==> {
                &&& ptr + s@.len() < VADDR_LIMIT
                &&& forall|k: int|
                    0 <= k < s@.len() ==> (#[trigger] s@[k]) == self.spec_byte((ptr + k) as u64)
                        && s@[k] != 0
                &&& forall|w: u64|
                    ptr <= w <= ptr + s@.len() ==> self.covered(#[trigger] spec_page_floor(w))
                &&& self.spec_byte((ptr + s@.len()) as u64) == 0
            },
            r is None ==> !(exists|m: u64|
                {
                    &&& ptr + m < VADDR_LIMIT
                    &&& #[trigger] self.spec_byte((ptr + m) as u64) == 0
                    &&& forall|w: u64|
                        ptr <= w <= ptr + m ==> self.covered(#[trigger] spec_page_floor(w))
                    &&& forall|w: u64| ptr <= w < ptr + m ==> #[trigger] self.spec_byte(w) != 0
                }),
    {
        if ptr >= VADDR_LIMIT {
            return None;
        }
        let mut out: Vec<u8> = Vec::new();
        let mut va = ptr;
        while va < VADDR_LIMIT
            invariant
                forall|ai: int|
                    0 <= ai < self.areas@.len() ==> area_wf(#[trigger] self.areas@[ai]),
                forall|ai: int, bi: int|
                    #![trigger self.areas@[ai], self.areas@[bi]]
                    0 <= ai < self.areas@.len() && 0 <= bi < self.areas@.len() && ai != bi
                        ==> areas_disjoint(self.areas@[ai], self.areas@[bi]),
                ptr <= va <= VADDR_LIMIT,
                out@.len() == va - ptr,
                forall|k: int|
                    0 <= k < out@.len() ==> (#[trigger] out@[k]) == self.spec_byte(
                        (ptr + k) as u64,
                    ) && out@[k] != 0,
                forall|w: u64| ptr <= w < va ==> self.covered(#[trigger] spec_page_floor(w)),
            decreases VADDR_LIMIT - va,
        {
            let b = match self.read_byte(va) {
                Some(b) => b,
                None => {
                    proof {
                        let len = out@.len() as int;
                        assert forall|m: u64|
                            {
                                &&& ptr + m < VADDR_LIMIT
                                &&& #[trigger] self.spec_byte((ptr + m) as u64) == 0
                                &&& forall|w: u64|
                                    ptr <= w <= ptr + m ==> self.covered(
                                        #[trigger] spec_page_floor(w),
                                    )
                                &&& forall|w: u64|
                                    ptr <= w < ptr + m ==> #[trigger] self.spec_byte(w) != 0
                            } implies false by {
                            if m < len {
                                assert(out@[m as int] == self.spec_byte((ptr + m) as u64));
                                assert(self.spec_byte((ptr + m) as u64) != 0);
                            } else {
                                assert(self.covered(spec_page_floor(va)));
                            }
                        }
                    }
                    return None;
                },
            };
            if b == 0 {
                return Some(out);
            }
            out.push(b);
            va = va + 1;
        }
        proof {
            let len = out@.len() as int;
            assert forall|m: u64|
                {
                    &&& ptr + m < VADDR_LIMIT
                    &&& #[trigger] self.spec_byte((ptr + m) as u64) == 0
                    &&& forall|w: u64|
                        ptr <= w <= ptr + m ==> self.covered(#[trigger] spec_page_floor(w))
                    &&& forall|w: u64| ptr <= w < ptr + m ==> #[trigger] self.spec_byte(w) != 0
                } implies false by {
                assert(m < len);
                assert(out@[m as int] == self.spec_byte((ptr + m) as u64));
                assert(self.spec_byte((ptr + m) as u64) != 0);
            }
        }
        None
    }

    /// Re-establish the whole-address-space invariant after an operation
    /// that changed the page table without changing any valid mapping and
    /// left the regions untouched.
    proof fn lemma_restore_after_pt_change(
        self,
        g0: MemorySet,
        fa0: StackFrameAllocator,
        fa: StackFrameAllocator,
    )
        requires
            g0.wf_with(fa0),
            self.areas@ == g0.areas@,
            self.page_table.wf_with(fa),
            forall|q: u64| fa0.allocated(q) ==> fa.allocated(q),
            forall|j: int|
                0 <= j < self.page_table.nodes@.len() ==> g0.page_table.owns_frame(
                    #[trigger] self.page_table.node_ppn(j),
                ) || !fa0.allocated(self.page_table.node_ppn(j)),
            forall|v: u64|
                v < VPN_LIMIT ==> self.page_table.is_mapped(v) == g0.page_table.is_mapped(v) && (
                g0.page_table.is_mapped(v) ==> self.page_table.spec_translate(v)
                    == g0.page_table.spec_translate(v)),
        ensures
            self.wf_with(fa),
    {
        assert forall|bi: int| 0 <= bi < self.areas@.len() implies self.area_maps(bi) by {
            assert(g0.area_maps(bi));
            assert forall|o: int|
                0 <= o < self.areas@[bi].frames@.len() implies page_maps(
                self.page_table,
                (self.areas@[bi].start_vpn + o) as u64,
                (#[trigger] self.areas@[bi].frames@[o]).ppn,
                self.areas@[bi].perm | FLAG_V,
            ) by {
                let v = (g0.areas@[bi].start_vpn + o) as u64;
                assert(page_maps(
                    g0.page_table,
                    v,
                    g0.areas@[bi].frames@[o].ppn,
                    g0.areas@[bi].perm | FLAG_V,
                ));
                assert(self.page_table.spec_translate(v) == g0.page_table.spec_translate(v));
            }
            self.lemma_area_maps_intro(bi);
        }
        assert forall|v: u64|
            v < VPN_LIMIT && #[trigger] self.page_table.is_mapped(v) implies self.covered(v) by {
            assert(g0.page_table.is_mapped(v));
            assert(g0.covered(v));
            let bi = choose|bi: int|
                0 <= bi < g0.areas@.len() && (#[trigger] g0.areas@[bi]).start_vpn <= v
                    < g0.areas@[bi].end_vpn;
            assert(self.areas@[bi].start_vpn <= v < self.areas@[bi].end_vpn);
        }
        assert forall|bi: int, o: int|
            0 <= bi < self.areas@.len() && 0 <= o < self.areas@[bi].frames@.len() implies
            fa.allocated(#[trigger] self.frame_ppn(bi, o)) by {
            assert(self.frame_ppn(bi, o) == g0.frame_ppn(bi, o));
            assert(fa0.allocated(g0.frame_ppn(bi, o)));
        }
        assert forall|bi: int, o: int, ci: int, o2: int|
            #![trigger self.frame_ppn(bi, o), self.frame_ppn(ci, o2)]
            0 <= bi < self.areas@.len() && 0 <= o < self.areas@[bi].frames@.len() && 0 <= ci
                < self.areas@.len() && 0 <= o2 < self.areas@[ci].frames@.len() && !(bi == ci && o
                == o2) implies self.frame_ppn(bi, o) != self.frame_ppn(ci, o2) by {
            assert(g0.frame_ppn(bi, o) != g0.frame_ppn(ci, o2));
        }
        assert forall|bi: int, o: int, j: int|
            #![trigger self.frame_ppn(bi, o), self.page_table.node_ppn(j)]
            0 <= bi < self.areas@.len() && 0 <= o < self.areas@[bi].frames@.len() && 0 <= j
                < self.page_table.nodes@.len() implies self.frame_ppn(bi, o)
            != self.page_table.node_ppn(j) by {
            if g0.page_table.owns_frame(self.page_table.node_ppn(j)) {
                let j0 = choose|j0: int|
                    0 <= j0 < g0.page_table.nodes@.len() && g0.page_table.node_ppn(j0)
                        == self.page_table.node_ppn(j);
                assert(g0.frame_ppn(bi, o) != g0.page_table.node_ppn(j0));
            } else {
                assert(!fa0.allocated(self.page_table.node_ppn(j)));
                assert(fa0.allocated(g0.frame_ppn(bi, o)));
            }
        }
    }
}

/// The region list `post` is `pre` with the region at `ri` removed; that
/// region covered exactly the pages `[s, e)`.
pub open spec fn is_region_removal(
    pre: Seq<MapArea>,
    post: Seq<MapArea>,
    ri: int,
    s: u64,
    e: u64,
) -> bool {
    &&& 0 <= ri < pre.len()
    &&& post.len() == pre.len() - 1
    &&& pre[ri].start_vpn == s
    &&& pre[ri].end_vpn == e
    &&& forall|ci: int|
        0 <= ci < post.len() ==> #[trigger] post[ci] == pre[if ci < ri {
            ci
        } else {
            ci + 1
        }]
}

/// A changed address space owns nothing it did not own before, except
/// pages that were free beforehand.
pub open spec fn owns_delta_fresh(pre: MemorySet, post: MemorySet, fa0: StackFrameAllocator) -> bool {
    forall|q: u64| #[trigger] post.owns(q) ==> pre.owns(q) || !fa0.allocated(q)
}

/// An operation released only pages its address space owned.
pub open spec fn frees_only_owned(
    pre: MemorySet,
    fa0: StackFrameAllocator,
    fa1: StackFrameAllocator,
) -> bool {
    forall|q: u64|
        fa0.allocated(q) && !(#[trigger] fa1.allocated(q)) ==> pre.owns(q)
}

/// An operation allocated only pages its address space now owns.
pub open spec fn allocs_only_owned(
    post: MemorySet,
    fa0: StackFrameAllocator,
    fa1: StackFrameAllocator,
) -> bool {
    forall|q: u64|
        !fa0.allocated(q) && #[trigger] fa1.allocated(q) ==> post.owns(q)
}

/// Every page allocated between two allocator states is accounted for:
/// it is one of the listed frames or a node of the page table.
pub open spec fn fresh_allocs_owned(
    fa0: StackFrameAllocator,
    fa1: StackFrameAllocator,
    frames: Seq<FrameTracker>,
    pt: PageTable,
) -> bool {
    forall|q: u64|
        !fa0.allocated(q) && fa1.allocated(q) ==> (exists|o: int|
            0 <= o < frames.len() && (#[trigger] frames[o]).ppn == q) || pt.owns_frame(q)
}

/// One loadable piece of an executable image: a virtual range and its
/// permissions. The image provider (an external collaborator) supplies
/// these; the core only needs the layout.
pub struct Segment {
    /// First virtual address of the piece.
    pub start_va: u64,
    /// One past the last virtual address of the piece.
    pub end_va: u64,
    /// Permission bits (read / write / execute) of the piece.
    pub perm: u8,
}

/// The layout of an executable image: its loadable segments and entry point.
pub struct ProgramImage {
    /// The loadable pieces, non-overlapping.
    pub segments: Vec<Segment>,
    /// Address of the first instruction.
    pub entry_point: u64,
}

/// Highest virtual address a segment may reach; the user stack is placed
/// above all segments and below the trap-context page.
pub const USER_SEG_LIMIT: u64 = 0x4_0000_0000;

/// Every segment of an image lies within the allowed range.
pub open spec fn image_wf(image: ProgramImage) -> bool {
    forall|si: int|
        0 <= si < image.segments@.len() ==> (#[trigger] image.segments@[si]).start_va
            <= image.segments@[si].end_va && image.segments@[si].end_va <= USER_SEG_LIMIT
}

/// Pages covered by one segment.
pub open spec fn segment_pages(seg: Segment) -> int {
    spec_page_ceil(seg.end_va) - spec_page_floor(seg.start_va)
}

/// Pages covered by the first `i` segments of an image, summed.
pub open spec fn seg_pages(image: ProgramImage, i: int) -> int
    decreases i,
{
    if i <= 0 {
        0
    } else {
        seg_pages(image, i - 1) + segment_pages(image.segments@[i - 1])
    }
}

/// The partial page sums of an image never shrink.
pub proof fn lemma_seg_pages_mono(image: ProgramImage, a: int, b: int)
    requires
        0 <= a <= b,
        b <= image.segments@.len(),
        image_wf(image),
    ensures
        seg_pages(image, a) <= seg_pages(image, b),
    decreases b - a,
{
    if a < b {
        lemma_seg_pages_mono(image, a, b - 1);
        assert(segment_pages(image.segments@[b - 1]) >= 0) by {
            let seg = image.segments@[b - 1];
            lemma_floor_le_ceil(seg.start_va, seg.end_va);
        }
    }
}

/// The floor of the lower bound never exceeds the ceiling of the upper.
proof fn lemma_floor_le_ceil(a: u64, b: u64)
    by (nonlinear_arith)
    requires
        a <= b,
    ensures
        spec_page_floor(a) <= spec_page_ceil(b),
{
}

/// Frames that suffice to build an address space from an image: the root
/// node, three per segment page, three per stack page and three per
/// trap-context page (one data frame and at most two table nodes each).
pub open spec fn image_frames_budget(image: ProgramImage) -> int {
    1 + 3 * seg_pages(image, image.segments@.len() as int) + 3 * ((USER_STACK_SIZE as int)
        / (PAGE_SIZE as int)) + 3 * (((TRAMPOLINE - TRAP_CONTEXT_BASE) as int) / (
    PAGE_SIZE as int))
}

/// Pages covered by the first `i` regions of an address space, summed.
pub open spec fn areas_pages(ms: MemorySet, i: int) -> int
    decreases i,
{
    if i <= 0 {
        0
    } else {
        areas_pages(ms, i - 1) + (ms.areas@[i - 1].end_vpn - ms.areas@[i - 1].start_vpn)
    }
}

/// The partial page sums of a well-formed address space never shrink.
pub proof fn lemma_areas_pages_mono(ms: MemorySet, a: int, b: int)
    requires
        0 <= a <= b,
        b <= ms.areas@.len(),
        forall|ai: int| 0 <= ai < ms.areas@.len() ==> area_wf(#[trigger] ms.areas@[ai]),
    ensures
        areas_pages(ms, a) <= areas_pages(ms, b),
    decreases b - a,
{
    if a < b {
        lemma_areas_pages_mono(ms, a, b - 1);
        assert(area_wf(ms.areas@[b - 1]));
    }
}

/// Frames that suffice to clone an address space: the root node plus
/// three per copied page.
pub open spec fn space_frames_budget(ms: MemorySet) -> int {
    1 + 3 * areas_pages(ms, ms.areas@.len() as int)
}

/// The image's segments cover pairwise disjoint page ranges.
pub open spec fn image_disjoint(image: ProgramImage) -> bool {
    forall|i: int, j: int|
        #![trigger image.segments@[i], image.segments@[j]]
        0 <= i < j < image.segments@.len() ==> (spec_page_ceil(image.segments@[i].end_va)
            <= spec_page_floor(image.segments@[j].start_va) || spec_page_ceil(
            image.segments@[j].end_va,
        ) <= spec_page_floor(image.segments@[i].start_va))
}

impl MemorySet {
    /// Build a fresh address space from an executable image: one region per
    /// segment, a user stack above the segments, the trap-context page
    /// below the top of the address space, and an empty heap region at the
    /// initial stack top. Returns the address space and the initial user
    /// stack pointer.
    pub fn from_image(image: &ProgramImage, fa: &mut StackFrameAllocator) -> (r: Result<
        (MemorySet, u64),
        KernelError,
    >)
        requires
            old(fa).wf(),
            image_wf(*image),
        ensures
            final(fa).wf(),
            final(fa).end == old(fa).end,
            forall|q: u64| old(fa).allocated(q) ==> final(fa).allocated(q),
            image_disjoint(*image) && old(fa).free_count() >= image_frames_budget(*image)
                ==> r is Ok,
            r matches Ok(p) ==> {
                &&& p.0.wf_with(*final(fa))
                &&& allocs_only_owned(p.0, *old(fa), *final(fa))
                &&& (forall|q: u64| #[trigger] p.0.owns(q) ==> !old(fa).allocated(q))
                &&& spec_is_aligned(p.1)
                &&& 0 < p.1 < TRAP_CONTEXT_BASE
                &&& p.0.has_area_with_start(spec_page_floor(p.1))
                &&& p.0.unique_start(spec_page_floor(p.1))
                &&& p.0.areas@[p.0.area_with_start(spec_page_floor(p.1))].end_vpn
                    == spec_page_floor(p.1)
                &&& p.0.page_table.is_mapped(spec_page_floor(TRAP_CONTEXT_BASE))
                &&& (forall|si: int, v: u64|
                    #![trigger image.segments@[si], p.0.page_table.is_mapped(v)]
                    0 <= si < image.segments@.len() && spec_page_floor(
                        image.segments@[si].start_va,
                    ) <= v < spec_page_ceil(image.segments@[si].end_va)
                        ==> p.0.page_table.is_mapped(v) && p.0.page_table.mapped_flags(v) == ((
                    image.segments@[si].perm | PERM_U) | crate::page_table::FLAG_V))
            },
    {
        let mut ms = match MemorySet::new_bare(fa) {
            Ok(ms) => ms,
            Err(e) => {
                proof {
                    if image_disjoint(*image) && old(fa).free_count() >= image_frames_budget(
                        *image,
                    ) {
                        lemma_seg_pages_mono(*image, 0, image.segments@.len() as int);
                        assert(old(fa).free_count() >= 1);
                        assert(old(fa).has_free());
                        assert(false);
                    }
                }
                return Err(e);
            },
        };
        proof {
            assert forall|q: u64| #[trigger] ms.owns(q) implies !old(fa).allocated(q) by {
                if ms.page_table.owns_frame(q) {
                    let j = choose|j: int|
                        0 <= j < ms.page_table.nodes@.len() && ms.page_table.node_ppn(j) == q;
                    assert(j == 0);
                } else {
                    let (ai, o) = choose|ai: int, o: int|
                        0 <= ai < ms.areas@.len() && 0 <= o < ms.areas@[ai].frames@.len()
                            && #[trigger] ms.frame_ppn(ai, o) == q;
                }
            }
            assert forall|q: u64|
                !old(fa).allocated(q) && #[trigger] fa.allocated(q) implies ms.owns(q) by {
                assert(q == ms.page_table.root_ppn);
                assert(ms.page_table.node_ppn(0) == q);
                assert(ms.page_table.owns_frame(q));
            }
        }
        let n = image.segments.len();
        let mut si: usize = 0;
        let mut max_end: u64 = 0;
        while si < n
            invariant
                fa.wf(),
                fa.end == old(fa).end,
                n == image.segments@.len(),
                0 <= si <= n,
                image_wf(*image),
                ms.wf_with(*fa),
                max_end <= USER_SEG_LIMIT,
                forall|q: u64| old(fa).allocated(q) ==> fa.allocated(q),
                forall|q: u64| #[trigger] ms.owns(q) ==> !old(fa).allocated(q),
                forall|q: u64| !old(fa).allocated(q) && #[trigger] fa.allocated(q) ==> ms.owns(q),
                ms.areas@.len() == si,
                forall|ai: int|
                    0 <= ai < ms.areas@.len() ==> (#[trigger] ms.areas@[ai]).start_vpn
                        == spec_page_floor(image.segments@[ai].start_va)
                        && ms.areas@[ai].end_vpn == spec_page_ceil(image.segments@[ai].end_va)
                        && ms.areas@[ai].perm == (image.segments@[ai].perm | PERM_U),
                fa.free_count() >= old(fa).free_count() - 1 - 3 * seg_pages(*image, si as int),
                forall|ai: int|
                    0 <= ai < ms.areas@.len() ==> (#[trigger] ms.areas@[ai]).end_vpn
                        <= spec_page_ceil(max_end),
            decreases n - si,
        {
            let seg = &image.segments[si];
            let ghost gms = ms;
            let ghost fa_pre = *fa;
            let res = ms.insert_framed_area(seg.start_va, seg.end_va, seg.perm | PERM_U, fa);
            match res {
                Ok(()) => {},
                Err(e) => {
                    proof {
                        let s0 = spec_page_floor(seg.start_va);
                        let e0 = spec_page_ceil(seg.end_va);
                        if image_disjoint(*image) && old(fa).free_count()
                            >= image_frames_budget(*image) {
                            assert(!gms.spec_overlaps(s0, e0)) by {
                                if gms.spec_overlaps(s0, e0) {
                                    let ai = choose|ai: int|
                                        0 <= ai < gms.areas@.len() && !((
                                        #[trigger] gms.areas@[ai]).end_vpn <= s0 || e0
                                            <= gms.areas@[ai].start_vpn);
                                    assert(image.segments@[ai] == image.segments@[ai]);
                                    assert(image.segments@[si as int]
                                        == image.segments@[si as int]);
                                }
                            }
                            assert(fa_pre.free_count() >= 3 * (e0 - s0)) by {
                                lemma_seg_pages_mono(*image, si as int + 1, n as int);
                                assert(seg_pages(*image, si as int + 1) == seg_pages(
                                    *image,
                                    si as int,
                                ) + segment_pages(image.segments@[si as int]));
                            }
                            assert(res is Ok);
                            assert(false);
                        }
                    }
                    release_fresh_space(ms, fa, Ghost(*old(fa)));
                    return Err(e);
                },
            }
            if seg.end_va > max_end {
                max_end = seg.end_va;
            }
            proof {
                assert forall|q: u64| #[trigger] ms.owns(q) implies !old(fa).allocated(q) by {
                    assert(gms.owns(q) || !fa_pre.allocated(q));
                }
                assert forall|q: u64|
                    !old(fa).allocated(q) && #[trigger] fa.allocated(q) implies ms.owns(q) by {
                    if fa_pre.allocated(q) {
                        assert(gms.owns(q));
                        assert(ms.owns(q));
                    } else {
                        assert(ms.owns(q));
                    }
                }
                assert forall|ai: int|
                    0 <= ai < ms.areas@.len() implies (#[trigger] ms.areas@[ai]).end_vpn
                    <= spec_page_ceil(max_end) by {
                    if ai < gms.areas@.len() {
                        assert(ms.areas@[ai] == gms.areas@[ai]);
                    } else {
                        assert(ms.areas@[ai].end_vpn == spec_page_ceil(seg.end_va));
                    }
                }
                assert forall|ai: int|
                    0 <= ai < ms.areas@.len() implies (#[trigger] ms.areas@[ai]).start_vpn
                    == spec_page_floor(image.segments@[ai].start_va) && ms.areas@[ai].end_vpn
                    == spec_page_ceil(image.segments@[ai].end_va) && ms.areas@[ai].perm == (
                image.segments@[ai].perm | PERM_U) by {
                    if ai < gms.areas@.len() {
                        assert(ms.areas@[ai] == gms.areas@[ai]);
                    }
                }
                assert(seg_pages(*image, si as int + 1) == seg_pages(*image, si as int)
                    + segment_pages(image.segments@[si as int]));
            }
            si = si + 1;
        }
        let stack_bottom = (page_ceil(max_end) + 1) * PAGE_SIZE;
        let user_sp = stack_bottom + USER_STACK_SIZE;
        proof {
            assert(spec_page_ceil(max_end) <= USER_SEG_LIMIT / PAGE_SIZE + 1);
            assert(user_sp < TRAP_CONTEXT_BASE);
            assert(user_sp % PAGE_SIZE == 0) by {
                assert(stack_bottom % PAGE_SIZE == 0) by (nonlinear_arith)
                    requires
                        stack_bottom == (spec_page_ceil(max_end) + 1) * PAGE_SIZE,
                        PAGE_SIZE == 4096,
                ;
            }
        }
        let ghost gms1 = ms;
        let ghost fab1 = *fa;
        proof {
            assert(spec_page_floor(stack_bottom) == spec_page_ceil(max_end) + 1
                && spec_page_ceil(user_sp) == spec_page_ceil(max_end) + 3)
                by (nonlinear_arith)
                requires
                    stack_bottom == (spec_page_ceil(max_end) + 1) * PAGE_SIZE,
                    user_sp == stack_bottom + USER_STACK_SIZE,
                    PAGE_SIZE == 4096,
                    USER_STACK_SIZE == 8192,
                    spec_page_ceil(max_end) <= 0x1000_0000 + 1,
            ;
        }
        let res1 = ms.insert_framed_area(stack_bottom, user_sp, PERM_R | PERM_W | PERM_U, fa);
        match res1 {
            Ok(()) => {},
            Err(e) => {
                proof {
                    if image_disjoint(*image) && old(fa).free_count() >= image_frames_budget(
                        *image,
                    ) {
                        let s0 = spec_page_floor(stack_bottom);
                        let e0 = spec_page_ceil(user_sp);
                        assert(!gms1.spec_overlaps(s0, e0)) by {
                            if gms1.spec_overlaps(s0, e0) {
                                let ai = choose|ai: int|
                                    0 <= ai < gms1.areas@.len() && !((
                                    #[trigger] gms1.areas@[ai]).end_vpn <= s0 || e0
                                        <= gms1.areas@[ai].start_vpn);
                                assert(gms1.areas@[ai].end_vpn <= spec_page_ceil(max_end));
                            }
                        }
                        assert(fab1.free_count() >= 3 * (e0 - s0));
                        assert(res1 is Ok);
                        assert(false);
                    }
                }
                release_fresh_space(ms, fa, Ghost(*old(fa)));
                return Err(e);
            },
        }
        proof {
            from_image_step_glue(gms1, ms, fab1, *fa, *old(fa));
        }
        let ghost gms2 = ms;
        let ghost fab2 = *fa;
        proof {
            assert(spec_page_floor(TRAP_CONTEXT_BASE) == spec_page_ceil(TRAMPOLINE) - 1
                && spec_page_ceil(user_sp) <= spec_page_floor(TRAP_CONTEXT_BASE))
                by (nonlinear_arith)
                requires
                    user_sp % PAGE_SIZE == 0,
                    user_sp < TRAP_CONTEXT_BASE,
                    PAGE_SIZE == 4096,
                    TRAP_CONTEXT_BASE == 0x7F_FFFF_E000,
                    TRAMPOLINE == 0x7F_FFFF_F000,
            ;
        }
        let res2 = ms.insert_framed_area(TRAP_CONTEXT_BASE, TRAMPOLINE, PERM_R | PERM_W, fa);
        match res2 {
            Ok(()) => {},
            Err(e) => {
                proof {
                    if image_disjoint(*image) && old(fa).free_count() >= image_frames_budget(
                        *image,
                    ) {
                        let s0 = spec_page_floor(TRAP_CONTEXT_BASE);
                        let e0 = spec_page_ceil(TRAMPOLINE);
                        assert(!gms2.spec_overlaps(s0, e0)) by {
                            if gms2.spec_overlaps(s0, e0) {
                                let ai = choose|ai: int|
                                    0 <= ai < gms2.areas@.len() && !((
                                    #[trigger] gms2.areas@[ai]).end_vpn <= s0 || e0
                                        <= gms2.areas@[ai].start_vpn);
                                if ai < gms1.areas@.len() {
                                    assert(gms2.areas@[ai] == gms1.areas@[ai]);
                                    assert(gms1.areas@[ai].end_vpn <= spec_page_ceil(max_end));
                                } else {
                                    assert(gms2.areas@[ai].end_vpn == spec_page_ceil(user_sp));
                                }
                            }
                        }
                        assert(fab2.free_count() >= 3 * (e0 - s0));
                        assert(res2 is Ok);
                        assert(false);
                    }
                }
                release_fresh_space(ms, fa, Ghost(*old(fa)));
                return Err(e);
            },
        }
        proof {
            from_image_step_glue(gms2, ms, fab2, *fa, *old(fa));
        }
        let ghost gms3 = ms;
        let ghost fab3 = *fa;
        let res3 = ms.insert_framed_area(user_sp, user_sp, PERM_R | PERM_W | PERM_U, fa);
        match res3 {
            Ok(()) => {},
            Err(e) => {
                proof {
                    // an empty region overlaps nothing and needs no frame,
                    // so this insertion cannot fail
                    let s0 = spec_page_floor(user_sp);
                    assert(spec_page_ceil(user_sp) == s0) by {
                        assert((user_sp + (PAGE_SIZE - 1) as int) / (PAGE_SIZE as int) == (
                        user_sp as int) / (PAGE_SIZE as int)) by (nonlinear_arith)
                            requires
                                user_sp % PAGE_SIZE == 0,
                                user_sp < 0x80_0000_0000,
                        ;
                    }
                    assert(!gms3.spec_overlaps(s0, s0)) by {
                        if gms3.spec_overlaps(s0, s0) {
                            let ai = choose|ai: int|
                                0 <= ai < gms3.areas@.len() && !((
                                #[trigger] gms3.areas@[ai]).end_vpn <= s0 || s0
                                    <= gms3.areas@[ai].start_vpn);
                            if ai < gms1.areas@.len() {
                                assert(gms3.areas@[ai] == gms2.areas@[ai]);
                                assert(gms2.areas@[ai] == gms1.areas@[ai]);
                                assert(gms1.areas@[ai].end_vpn <= spec_page_ceil(max_end));
                            } else if ai < gms2.areas@.len() {
                                assert(gms3.areas@[ai] == gms2.areas@[ai]);
                                assert(gms2.areas@[ai].end_vpn == spec_page_ceil(user_sp));
                            } else {
                                assert(gms3.areas@[ai].start_vpn == spec_page_floor(
                                    TRAP_CONTEXT_BASE,
                                ));
                            }
                        }
                    }
                    assert(fab3.free_count() >= 0);
                    assert(res3 is Ok);
                    assert(false);
                }
                release_fresh_space(ms, fa, Ghost(*old(fa)));
                return Err(e);
            },
        }
        proof {
            from_image_step_glue(gms3, ms, fab3, *fa, *old(fa));
            let sp_vpn = spec_page_floor(user_sp);
            let last = ms.areas@.len() - 1;
            assert(ms.areas@[last].start_vpn == sp_vpn);
            assert(ms.areas@[last].end_vpn == spec_page_ceil(user_sp));
            assert(spec_page_ceil(user_sp) == sp_vpn) by {
                assert(user_sp % PAGE_SIZE == 0);
                assert((user_sp + (PAGE_SIZE - 1) as int) / (PAGE_SIZE as int) == (
                user_sp as int) / (PAGE_SIZE as int)) by (nonlinear_arith)
                    requires
                        user_sp % PAGE_SIZE == 0,
                        user_sp < 0x80_0000_0000,
                ;
            }
            assert(ms.has_area_with_start(sp_vpn)) by {
                assert(ms.areas@[last].start_vpn == sp_vpn);
            }
            // no other region starts at the stack top
            assert forall|ai: int, bi: int|
                #![trigger ms.areas@[ai], ms.areas@[bi]]
                0 <= ai < ms.areas@.len() && 0 <= bi < ms.areas@.len() && ms.areas@[ai].start_vpn
                    == sp_vpn && ms.areas@[bi].start_vpn == sp_vpn implies ai == bi by {
                assert(forall|ci: int|
                    0 <= ci < gms1.areas@.len() ==> (#[trigger] gms1.areas@[ci]).end_vpn
                        <= spec_page_ceil(max_end));
                if ai != bi {
                    let lo: int = if ai < bi {
                        ai
                    } else {
                        bi
                    };
                    let hi2: int = if ai < bi {
                        bi
                    } else {
                        ai
                    };
                    assert(hi2 >= gms1.areas@.len() || ms.areas@[hi2].start_vpn != sp_vpn) by {
                        if hi2 < gms1.areas@.len() {
                            assert(ms.areas@[hi2] == gms1.areas@[hi2]);
                            assert(gms1.areas@[hi2].start_vpn <= gms1.areas@[hi2].end_vpn);
                            assert(gms1.areas@[hi2].end_vpn <= spec_page_ceil(max_end));
                            assert(spec_page_ceil(max_end) < sp_vpn) by (nonlinear_arith)
                                requires
                                    stack_bottom == (spec_page_ceil(max_end) + 1) * PAGE_SIZE,
                                    user_sp == stack_bottom + USER_STACK_SIZE,
                                    sp_vpn == (user_sp as int) / (PAGE_SIZE as int),
                                    PAGE_SIZE == 4096,
                                    USER_STACK_SIZE == 8192,
                                    spec_page_ceil(max_end) <= USER_SEG_LIMIT / PAGE_SIZE + 1,
                            ;
                        }
                    }
                    // so both indices lie among the three trailing regions
                    if lo < gms1.areas@.len() {
                        assert(ms.areas@[lo] == gms1.areas@[lo]);
                        assert(ms.areas@[lo].start_vpn != sp_vpn);
                    } else {
                        // stack, trap and heap regions have distinct starts
                        assert(ms.areas@[gms1.areas@.len() as int].start_vpn == spec_page_floor(
                            stack_bottom,
                        ));
                        assert(ms.areas@[gms1.areas@.len() as int + 1].start_vpn
                            == spec_page_floor(TRAP_CONTEXT_BASE));
                        assert(spec_page_floor(stack_bottom) != sp_vpn) by (nonlinear_arith)
                            requires
                                user_sp == stack_bottom + USER_STACK_SIZE,
                                sp_vpn == (user_sp as int) / (PAGE_SIZE as int),
                                stack_bottom % PAGE_SIZE == 0,
                                PAGE_SIZE == 4096,
                                USER_STACK_SIZE == 8192,
                                stack_bottom < 0x80_0000_0000,
                        ;
                        assert(spec_page_floor(TRAP_CONTEXT_BASE) != sp_vpn);
                    }
                }
            }
            assert(ms.unique_start(sp_vpn));
            assert(ms.area_with_start(sp_vpn) == last) by {
                let c = ms.area_with_start(sp_vpn);
                assert(ms.areas@[c].start_vpn == sp_vpn);
            }
            assert(ms.page_table.is_mapped(spec_page_floor(TRAP_CONTEXT_BASE))) by {
                assert(gms3.page_table.is_mapped(spec_page_floor(TRAP_CONTEXT_BASE)));
                assert(spec_page_floor(TRAP_CONTEXT_BASE) < VPN_LIMIT);
            }
            // every image segment's pages are mapped with its permissions
            assert forall|si2: int, v: u64|
                #![trigger image.segments@[si2], ms.page_table.is_mapped(v)]
                0 <= si2 < image.segments@.len() && spec_page_floor(
                    image.segments@[si2].start_va,
                ) <= v < spec_page_ceil(image.segments@[si2].end_va) implies ms
                .page_table.is_mapped(v) && ms.page_table.mapped_flags(v) == ((
            image.segments@[si2].perm | PERM_U) | crate::page_table::FLAG_V) by {
                assert(ms.areas@[si2] == gms3.areas@[si2]);
                assert(gms3.areas@[si2] == gms2.areas@[si2]);
                assert(gms2.areas@[si2] == gms1.areas@[si2]);
                let a = ms.areas@[si2];
                assert(a.start_vpn == spec_page_floor(image.segments@[si2].start_va));
                assert(a.end_vpn == spec_page_ceil(image.segments@[si2].end_va));
                assert(a.perm == (image.segments@[si2].perm | PERM_U));
                assert(ms.area_maps(si2));
                let o = v - a.start_vpn;
                assert(area_wf(a));
                assert(page_maps(
                    ms.page_table,
                    (a.start_vpn + o) as u64,
                    (#[trigger] a.frames@[o as int]).ppn,
                    a.perm | FLAG_V,
                ));
                assert((a.start_vpn + o) as u64 == v);
            }
        }
        Ok((ms, user_sp))
    }
}

impl MemorySet {
    /// Well-formedness survives growth of the allocator's allocated set.
    pub proof fn lemma_wf_alloc_monotone(
        self,
        fa0: StackFrameAllocator,
        fa1: StackFrameAllocator,
    )
        requires
            self.wf_with(fa0),
            fa1.wf(),
            forall|q: u64| fa0.allocated(q) ==> fa1.allocated(q),
        ensures
            self.wf_with(fa1),
    {
        assert forall|j: int| 0 <= j < self.page_table.nodes@.len() implies fa1.allocated(
            #[trigger] self.page_table.node_ppn(j),
        ) by {
            assert(fa0.allocated(self.page_table.node_ppn(j)));
        }
        assert forall|ai: int, o: int|
            0 <= ai < self.areas@.len() && 0 <= o < self.areas@[ai].frames@.len() implies
            fa1.allocated(#[trigger] self.frame_ppn(ai, o)) by {
            assert(fa0.allocated(self.frame_ppn(ai, o)));
        }
    }

    /// Well-formedness survives the release of pages this space does not
    /// own.
    pub proof fn lemma_wf_alloc_shrink(
        self,
        fa0: StackFrameAllocator,
        fa1: StackFrameAllocator,
    )
        requires
            self.wf_with(fa0),
            fa1.wf(),
            forall|q: u64| fa0.allocated(q) && !fa1.allocated(q) ==> !self.owns(q),
        ensures
            self.wf_with(fa1),
    {
        assert forall|j: int| 0 <= j < self.page_table.nodes@.len() implies fa1.allocated(
            #[trigger] self.page_table.node_ppn(j),
        ) by {
            assert(fa0.allocated(self.page_table.node_ppn(j)));
            assert(self.page_table.owns_frame(self.page_table.node_ppn(j)));
            assert(self.owns(self.page_table.node_ppn(j)));
        }
        assert forall|ai: int, o: int|
            0 <= ai < self.areas@.len() && 0 <= o < self.areas@[ai].frames@.len() implies
            fa1.allocated(#[trigger] self.frame_ppn(ai, o)) by {
            assert(fa0.allocated(self.frame_ppn(ai, o)));
            assert(self.owns(self.frame_ppn(ai, o)));
        }
    }
}

/// Release an address space whose every owned page was allocated after the
/// state `fa0`: afterwards every page allocated in `fa0` is still allocated.
pub(crate) fn release_fresh_space(ms: MemorySet, fa: &mut StackFrameAllocator, Ghost(fa0): Ghost<
    StackFrameAllocator,
>)
    requires
        ms.wf_with(*old(fa)),
        forall|q: u64| #[trigger] ms.owns(q) ==> !fa0.allocated(q),
        forall|q: u64| fa0.allocated(q) ==> old(fa).allocated(q),
        old(fa).end == fa0.end,
    ensures
        final(fa).wf(),
        final(fa).end == fa0.end,
        forall|q: u64| fa0.allocated(q) ==> final(fa).allocated(q),
{
    let ghost gms = ms;
    ms.release(fa);
    proof {
        assert forall|q: u64| fa0.allocated(q) implies fa.allocated(q) by {
            assert(!gms.owns(q));
            assert(old(fa).allocated(q));
        }
    }
}

/// After one more region insertion during image construction, the address
/// space still owns only pages that were free at the start.
proof fn from_image_step_glue(
    pre: MemorySet,
    post: MemorySet,
    fa_pre: StackFrameAllocator,
    fa_post: StackFrameAllocator,
    fa0: StackFrameAllocator,
)
    requires
        owns_delta_fresh(pre, post, fa_pre),
        allocs_only_owned(post, fa_pre, fa_post),
        forall|q: u64| #[trigger] pre.owns(q) ==> !fa0.allocated(q),
        forall|q: u64| fa0.allocated(q) ==> fa_pre.allocated(q),
        forall|q: u64| !fa0.allocated(q) && #[trigger] fa_pre.allocated(q) ==> pre.owns(q),
        forall|q: u64| pre.owns(q) ==> #[trigger] post.owns(q),
        forall|q: u64| fa_pre.allocated(q) ==> fa_post.allocated(q),
    ensures
        forall|q: u64| #[trigger] post.owns(q) ==> !fa0.allocated(q),
        forall|q: u64| !fa0.allocated(q) && #[trigger] fa_post.allocated(q) ==> post.owns(q),
{
    assert forall|q: u64| #[trigger] post.owns(q) implies !fa0.allocated(q) by {
        assert(pre.owns(q) || !fa_pre.allocated(q));
    }
    assert forall|q: u64|
        !fa0.allocated(q) && #[trigger] fa_post.allocated(q) implies post.owns(q) by {
        if fa_pre.allocated(q) {
            assert(pre.owns(q));
        }
    }
}

/// An owned copy of one page's bytes.
fn copied_bytes(src: &Vec<u8>) -> (r: Vec<u8>)
    ensures
        r@ == src@,
{
    let n = src.len();
    let mut r: Vec<u8> = Vec::new();
    let mut i: usize = 0;
    while i < n
        invariant
            n == src@.len(),
            0 <= i <= n,
            r@ =~= src@.subrange(0, i as int),
        decreases n - i,
    {
        r.push(src[i]);
        i = i + 1;
    }
    proof {
        assert(r@ =~= src@);
    }
    r
}

/// Map the pages `[s, e)` with fresh zero-filled frames and permission
/// `perm`, returning the frames in page order. On exhaustion every page
/// mapped so far is unmapped again and its frame released, so the set of
/// valid mappings is exactly as before.
#[verifier::rlimit(100)]
fn map_range(pt: &mut PageTable, s: u64, e: u64, perm: u8, fa: &mut StackFrameAllocator) -> (r:
    Result<Vec<FrameTracker>, KernelError>)
    requires
        old(pt).wf_with(*old(fa)),
        s <= e <= VPN_LIMIT,
        forall|v: u64| s <= v < e ==> !(#[trigger] old(pt).is_mapped(v)),
    ensures
        final(pt).wf_with(*final(fa)),
        final(fa).end == old(fa).end,
        final(pt).root_ppn == old(pt).root_ppn,
        forall|q: u64| old(fa).allocated(q) ==> final(fa).allocated(q),
        forall|j: int|
            0 <= j < final(pt).nodes@.len() ==> old(pt).owns_frame(#[trigger] final(pt).node_ppn(j))
                || !old(fa).allocated(final(pt).node_ppn(j)),
        final(pt).nodes@.len() >= old(pt).nodes@.len(),
        forall|j: int|
            0 <= j < old(pt).nodes@.len() ==> #[trigger] final(pt).node_ppn(j) == old(
                pt,
            ).node_ppn(j),
        old(fa).free_count() >= 3 * (e - s) ==> r is Ok,
        r is Ok ==> final(fa).free_count() >= old(fa).free_count() - 3 * (e - s),
        r is Err ==> r == Err::<Vec<FrameTracker>, KernelError>(KernelError::FrameExhausted),
        r is Err ==> forall|q: u64|
            !old(fa).allocated(q) && final(fa).allocated(q) ==> final(pt).owns_frame(q),
        r matches Ok(frames) ==> fresh_allocs_owned(*old(fa), *final(fa), frames@, *final(pt)),
        r is Err ==> forall|v: u64|
            v < VPN_LIMIT ==> final(pt).is_mapped(v) == old(pt).is_mapped(v) && (old(
                pt,
            ).is_mapped(v) ==> final(pt).spec_translate(v) == old(pt).spec_translate(v)),
        r matches Ok(frames) ==> {
            &&& frames@.len() == e - s
            &&& forall|o: int|
                0 <= o < frames@.len() ==> (#[trigger] frames@[o]).wf() && !old(fa).allocated(
                    frames@[o].ppn,
                ) && final(fa).allocated(frames@[o].ppn)
            &&& forall|o: int, b: int|
                0 <= o < frames@.len() && 0 <= b < PAGE_SIZE ==> (#[trigger] frames@[o].bytes@[b])
                    == 0u8
            &&& forall|o: int, o2: int|
                #![trigger frames@[o], frames@[o2]]
                0 <= o < frames@.len() && 0 <= o2 < frames@.len() && o != o2 ==> frames@[o].ppn
                    != frames@[o2].ppn
            &&& forall|o: int, j: int|
                #![trigger frames@[o], final(pt).node_ppn(j)]
                0 <= o < frames@.len() && 0 <= j < final(pt).nodes@.len() ==> frames@[o].ppn
                    != final(pt).node_ppn(j)
            &&& forall|v: u64| s <= v < e ==> #[trigger] final(pt).is_mapped(v)
            &&& forall|v: u64|
                s <= v < e ==> #[trigger] final(pt).mapped_ppn(v) == frames@[(v - s) as int].ppn
            &&& forall|v: u64|
                s <= v < e ==> #[trigger] final(pt).mapped_flags(v) == (perm | FLAG_V)
            &&& forall|v: u64|
                v < VPN_LIMIT && !(s <= v < e) ==> final(pt).is_mapped(v) == old(pt).is_mapped(v)
                    && (old(pt).is_mapped(v) ==> final(pt).spec_translate(v) == old(
                    pt,
                ).spec_translate(v))
        },
{
        let mut frames: Vec<FrameTracker> = Vec::new();
    let mut i: u64 = 0;
    let n = e - s;
    while i < n
        invariant
            pt.wf_with(*fa),
            s <= e <= VPN_LIMIT,
            n == e - s,
            0 <= i <= n,
            old(pt).root_ppn == pt.root_ppn,
            fa.end == old(fa).end,
            frames@.len() == i,
            forall|q: u64| old(fa).allocated(q) ==> fa.allocated(q),
            fa.free_count() >= old(fa).free_count() - 3 * i,
            forall|o: int|
                0 <= o < frames@.len() ==> (#[trigger] frames@[o]).wf() && !old(fa).allocated(
                    frames@[o].ppn,
                ) && fa.allocated(frames@[o].ppn),
            forall|o: int, b: int|
                0 <= o < frames@.len() && 0 <= b < PAGE_SIZE ==> (#[trigger] frames@[o].bytes@[b])
                    == 0u8,
            forall|o: int, o2: int|
                #![trigger frames@[o], frames@[o2]]
                0 <= o < frames@.len() && 0 <= o2 < frames@.len() && o != o2 ==> frames@[o].ppn
                    != frames@[o2].ppn,
            forall|o: int, j: int|
                #![trigger frames@[o], pt.node_ppn(j)]
                0 <= o < frames@.len() && 0 <= j < pt.nodes@.len() ==> frames@[o].ppn
                    != pt.node_ppn(j),
            forall|v: u64| s <= v < s + i ==> #[trigger] pt.is_mapped(v),
            forall|v: u64|
                s <= v < s + i ==> #[trigger] pt.mapped_ppn(v) == frames@[(v - s) as int].ppn,
            forall|v: u64| s <= v < s + i ==> #[trigger] pt.mapped_flags(v) == (perm | FLAG_V),
            forall|v: u64| s + i <= v < e ==> !(#[trigger] pt.is_mapped(v)),
            forall|v: u64| s <= v < e ==> !(#[trigger] old(pt).is_mapped(v)),
            forall|j: int|
                0 <= j < pt.nodes@.len() ==> old(pt).owns_frame(#[trigger] pt.node_ppn(j))
                    || !old(fa).allocated(pt.node_ppn(j)),
            pt.nodes@.len() >= old(pt).nodes@.len(),
            forall|j: int|
                0 <= j < old(pt).nodes@.len() ==> #[trigger] pt.node_ppn(j) == old(pt).node_ppn(
                    j,
                ),
            forall|q: u64|
                !old(fa).allocated(q) && fa.allocated(q) ==> (exists|o: int|
                    0 <= o < frames@.len() && (#[trigger] frames@[o]).ppn == q) || pt.owns_frame(
                    q,
                ),
            forall|v: u64|
                v < VPN_LIMIT && !(s <= v < e) ==> pt.is_mapped(v) == old(pt).is_mapped(v) && (old(
                pt,
            ).is_mapped(v) ==> pt.spec_translate(v) == old(pt).spec_translate(v)),
        decreases n - i,
    {
        let vpn = s + i;
        let ghost pt_pre = *pt;
        let ghost fa_pre = *fa;
        let ft = match frame_alloc(fa) {
            Some(ft) => ft,
            None => {
                let ghost pt_mid = *pt;
                let ghost fa_roll = *fa;
                let ghost gframes_err = frames@;
                unmap_and_free(pt, frames, s, fa);
                proof {
                    assert forall|v: u64| v < VPN_LIMIT implies pt.is_mapped(v) == old(
                        pt,
                    ).is_mapped(v) && (old(pt).is_mapped(v) ==> pt.spec_translate(v) == old(
                        pt,
                    ).spec_translate(v)) by {
                        if s <= v < s + i {
                            assert(!pt.is_mapped(v));
                            assert(!old(pt).is_mapped(v));
                        } else {
                            assert(pt.spec_translate(v) == pt_mid.spec_translate(v));
                            if s + i <= v < e {
                                assert(!pt_mid.is_mapped(v));
                                assert(!old(pt).is_mapped(v));
                            }
                        }
                    }
                    assert forall|q: u64|
                        !old(fa).allocated(q) && fa.allocated(q) implies pt.owns_frame(q) by {
                        if exists|o: int|
                            0 <= o < gframes_err.len() && (#[trigger] gframes_err[o]).ppn == q {
                            let o = choose|o: int|
                                0 <= o < gframes_err.len() && (#[trigger] gframes_err[o]).ppn
                                    == q;
                            assert(!fa.allocated(q));
                        } else {
                            assert(fa_roll.allocated(q));
                            assert(pt_mid.owns_frame(q));
                            let j = choose|j: int|
                                0 <= j < pt_mid.nodes@.len() && pt_mid.node_ppn(j) == q;
                            assert(pt.node_ppn(j) == q);
                        }
                    }
                }
                return Err(KernelError::FrameExhausted);
            },
        };
        let res = pt.map(vpn, ft.ppn, perm, fa);
        match res {
            Ok(()) => {},
            Err(_) => {
                proof {
                    assert(!pt_pre.is_mapped(vpn));
                }
                let dres = fa.dealloc(ft.ppn);
                proof {
                    assert(dres is Ok);
                    // the failed map left the set of valid mappings as it was
                    assert forall|v: u64| s <= v < s + i implies #[trigger] pt.is_mapped(v)
                        && pt.mapped_ppn(v) == frames@[(v - s) as int].ppn by {
                        assert(pt_pre.is_mapped(v));
                        assert(pt_pre.mapped_ppn(v) == frames@[(v - s) as int].ppn);
                        assert(pt.is_mapped(v) == pt_pre.is_mapped(v));
                        assert(pt.spec_translate(v) == pt_pre.spec_translate(v));
                    }
                    // any node the failed map created is fresh, so it is not
                    // one of the data frames
                    assert forall|o: int, j: int|
                        #![trigger frames@[o], pt.node_ppn(j)]
                        0 <= o < frames@.len() && 0 <= j < pt.nodes@.len() implies frames@[o].ppn
                        != pt.node_ppn(j) by {
                        if pt_pre.owns_frame(pt.node_ppn(j)) {
                            let j0 = choose|j0: int|
                                0 <= j0 < pt_pre.nodes@.len() && pt_pre.node_ppn(j0)
                                    == pt.node_ppn(j);
                            assert(frames@[o].ppn != pt_pre.node_ppn(j0));
                        } else {
                            assert(!fa_pre.allocated(pt.node_ppn(j)));
                            assert(fa_pre.allocated(frames@[o].ppn));
                        }
                    }
                }
                let ghost pt_mid = *pt;
                let ghost fa_roll = *fa;
                let ghost gframes_err = frames@;
                proof {
                    assert forall|q: u64|
                        !old(fa).allocated(q) && fa_roll.allocated(q) implies (exists|o: int|
                        0 <= o < gframes_err.len() && (#[trigger] gframes_err[o]).ppn == q)
                        || pt_mid.owns_frame(q) by {
                        if q != ft.ppn {
                            if fa_pre.allocated(q) {
                                assert((exists|o: int|
                                    0 <= o < gframes_err.len() && (#[trigger] gframes_err[o]).ppn
                                        == q) || pt_pre.owns_frame(q));
                                if pt_pre.owns_frame(q) {
                                    let j = choose|j: int|
                                        0 <= j < pt_pre.nodes@.len() && pt_pre.node_ppn(j) == q;
                                    assert(pt_mid.node_ppn(j) == q);
                                }
                            } else {
                                assert(pt_mid.owns_frame(q));
                            }
                        } else {
                            assert(!fa_roll.allocated(q));
                        }
                    }
                }
                unmap_and_free(pt, frames, s, fa);
                proof {
                    assert forall|v: u64| v < VPN_LIMIT implies pt.is_mapped(v) == old(
                        pt,
                    ).is_mapped(v) && (old(pt).is_mapped(v) ==> pt.spec_translate(v) == old(
                        pt,
                    ).spec_translate(v)) by {
                        if s <= v < s + i {
                            assert(!pt.is_mapped(v));
                            assert(!old(pt).is_mapped(v));
                        } else {
                            assert(pt.spec_translate(v) == pt_mid.spec_translate(v));
                            if s + i <= v < e {
                                assert(!pt_mid.is_mapped(v));
                                assert(!old(pt).is_mapped(v));
                            } else {
                                assert(pt_mid.is_mapped(v) == pt_pre.is_mapped(v) && (
                                pt_pre.is_mapped(v) ==> pt_mid.spec_translate(v)
                                    == pt_pre.spec_translate(v)));
                            }
                        }
                    }
                    assert forall|q: u64|
                        !old(fa).allocated(q) && fa.allocated(q) implies pt.owns_frame(q) by {
                        if exists|o: int|
                            0 <= o < gframes_err.len() && (#[trigger] gframes_err[o]).ppn == q {
                            let o = choose|o: int|
                                0 <= o < gframes_err.len() && (#[trigger] gframes_err[o]).ppn
                                    == q;
                            assert(!fa.allocated(q));
                        } else {
                            assert(fa_roll.allocated(q));
                            assert(pt_mid.owns_frame(q));
                            let j = choose|j: int|
                                0 <= j < pt_mid.nodes@.len() && pt_mid.node_ppn(j) == q;
                            assert(pt.node_ppn(j) == q);
                        }
                    }
                }
                return Err(KernelError::FrameExhausted);
            },
        }
        let ghost gframes_pre = frames@;
        frames.push(ft);
        i = i + 1;
        proof {
            assert forall|q: u64|
                !old(fa).allocated(q) && fa.allocated(q) implies (exists|o: int|
                0 <= o < frames@.len() && (#[trigger] frames@[o]).ppn == q) || pt.owns_frame(
                q,
            ) by {
                if q == ft.ppn {
                    assert(frames@[frames@.len() - 1].ppn == q);
                } else if fa_pre.allocated(q) {
                    assert((exists|o: int|
                        0 <= o < gframes_pre.len() && (#[trigger] gframes_pre[o]).ppn == q)
                        || pt_pre.owns_frame(q));
                    if exists|o: int|
                        0 <= o < gframes_pre.len() && (#[trigger] gframes_pre[o]).ppn == q {
                        let o = choose|o: int|
                            0 <= o < gframes_pre.len() && (#[trigger] gframes_pre[o]).ppn == q;
                        assert(frames@[o].ppn == q);
                    } else {
                        let j = choose|j: int|
                            0 <= j < pt_pre.nodes@.len() && pt_pre.node_ppn(j) == q;
                        assert(pt.node_ppn(j) == q);
                    }
                } else {
                    assert(pt.owns_frame(q));
                }
            }
            assert forall|j: int| 0 <= j < pt.nodes@.len() implies old(pt).owns_frame(
                #[trigger] pt.node_ppn(j),
            ) || !old(fa).allocated(pt.node_ppn(j)) by {
                if pt_pre.owns_frame(pt.node_ppn(j)) {
                    let j0 = choose|j0: int|
                        0 <= j0 < pt_pre.nodes@.len() && pt_pre.node_ppn(j0) == pt.node_ppn(j);
                } else {
                    assert(!fa_pre.allocated(pt.node_ppn(j)));
                }
            }
            assert forall|v: u64| s <= v < s + i implies #[trigger] pt.is_mapped(v) && pt
                .mapped_ppn(v) == frames@[(v - s) as int].ppn && pt.mapped_flags(v) == (perm
                | FLAG_V) by {
                if v == vpn {
                    assert(frames@[(v - s) as int] == ft);
                } else {
                    assert(pt_pre.is_mapped(v));
                    assert(pt_pre.mapped_ppn(v) == frames@[(v - s) as int].ppn);
                    assert(pt_pre.mapped_flags(v) == (perm | FLAG_V));
                    assert(pt.spec_translate(v) == pt_pre.spec_translate(v));
                }
            }
        }
    }
    proof {
        assert forall|q: u64|
            !old(fa).allocated(q) && fa.allocated(q) implies (exists|o: int|
            0 <= o < frames@.len() && (#[trigger] frames@[o]).ppn == q) || pt.owns_frame(q) by {}
        assert(fresh_allocs_owned(*old(fa), *fa, frames@, *pt));
    }
    Ok(frames)
}

/// Unmap the pages `[s, s + frames.len())` and release their frames,
/// leaving every other page's walk unchanged.
fn unmap_and_free(
    pt: &mut PageTable,
    frames: Vec<FrameTracker>,
    s: u64,
    fa: &mut StackFrameAllocator,
)
    requires
        old(pt).wf_with(*old(fa)),
        s + frames@.len() <= VPN_LIMIT,
        forall|v: u64| s <= v < s + frames@.len() ==> #[trigger] old(pt).is_mapped(v),
        forall|v: u64|
            s <= v < s + frames@.len() ==> #[trigger] old(pt).mapped_ppn(v) == frames@[(v
                - s) as int].ppn,
        forall|o: int| 0 <= o < frames@.len() ==> old(fa).allocated((#[trigger] frames@[o]).ppn),
        forall|o: int, o2: int|
            #![trigger frames@[o], frames@[o2]]
            0 <= o < frames@.len() && 0 <= o2 < frames@.len() && o != o2 ==> frames@[o].ppn
                != frames@[o2].ppn,
        forall|o: int, j: int|
            #![trigger frames@[o], old(pt).node_ppn(j)]
            0 <= o < frames@.len() && 0 <= j < old(pt).nodes@.len() ==> frames@[o].ppn != old(
                pt,
            ).node_ppn(j),
    ensures
        final(pt).wf_with(*final(fa)),
        final(fa).end == old(fa).end,
        final(pt).root_ppn == old(pt).root_ppn,
        final(pt).nodes@.len() == old(pt).nodes@.len(),
        forall|j: int|
            0 <= j < old(pt).nodes@.len() ==> #[trigger] final(pt).node_ppn(j)
                == old(pt).node_ppn(j),
        forall|v: u64| s <= v < s + frames@.len() ==> !(#[trigger] final(pt).is_mapped(v)),
        forall|v: u64|
            v < VPN_LIMIT && !(s <= v < s + frames@.len()) ==> #[trigger] final(pt).spec_translate(
                v,
            ) == old(pt).spec_translate(v),
        final(fa).free_count() == old(fa).free_count() + frames@.len(),
        forall|q: u64|
            final(fa).allocated(q) == (old(fa).allocated(q) && !(exists|o: int|
                0 <= o < frames@.len() && (#[trigger] frames@[o]).ppn == q)),
{
    let ghost g0 = *pt;
    let ghost fa0 = *fa;
    let n = frames.len();
    let mut i: usize = 0;
    while i < n
        invariant
            pt.wf(),
            fa.wf(),
            n == frames@.len(),
            0 <= i <= n,
            s + n <= VPN_LIMIT,
            *fa == fa0,
            g0.root_ppn == pt.root_ppn,
            pt.nodes@.len() == g0.nodes@.len(),
            forall|j: int|
                0 <= j < g0.nodes@.len() ==> #[trigger] pt.node_ppn(j) == g0.node_ppn(j),
            forall|j: int| 0 <= j < g0.nodes@.len() ==> fa0.allocated(#[trigger] g0.node_ppn(j)),
            forall|v: u64| s <= v < s + i ==> !(#[trigger] pt.is_mapped(v)),
            forall|v: u64| s + i <= v < s + n ==> #[trigger] pt.is_mapped(v),
            forall|v: u64|
                v < VPN_LIMIT && !(s <= v < s + i) ==> #[trigger] pt.spec_translate(v)
                    == g0.spec_translate(v),
        decreases n - i,
    {
        let vpn = s + (i as u64);
        let ghost pt_prev = *pt;
        let res = pt.unmap(vpn);
        proof {
            assert(res is Ok);
        }
        i = i + 1;
        proof {
            assert forall|v: u64| s <= v < s + i implies !(#[trigger] pt.is_mapped(v)) by {
                if v != vpn {
                    assert(pt.spec_translate(v) == pt_prev.spec_translate(v));
                    assert(!pt_prev.is_mapped(v));
                }
            }
            assert forall|v: u64| s + i <= v < s + n implies #[trigger] pt.is_mapped(v) by {
                assert(pt.spec_translate(v) == pt_prev.spec_translate(v));
                assert(pt_prev.is_mapped(v));
            }
        }
    }
    proof {
        assert forall|j: int| 0 <= j < pt.nodes@.len() implies fa.allocated(
            #[trigger] pt.node_ppn(j),
        ) by {
            assert(pt.node_ppn(j) == g0.node_ppn(j));
        }
    }
    let mut rest = frames;
    let ghost orig = rest@;
    let mut k: usize = 0;
    while k < n
        invariant
            fa.wf(),
            fa.end == fa0.end,
            n == orig.len(),
            0 <= k <= n,
            rest@ == orig,
            forall|o: int, o2: int|
                #![trigger orig[o], orig[o2]]
                0 <= o < orig.len() && 0 <= o2 < orig.len() && o != o2 ==> orig[o].ppn
                    != orig[o2].ppn,
            forall|o: int| 0 <= o < orig.len() ==> fa0.allocated((#[trigger] orig[o]).ppn),
            fa.free_count() == fa0.free_count() + k,
            forall|q: u64|
                fa.allocated(q) == (fa0.allocated(q) && !(exists|o: int|
                    0 <= o < k && (#[trigger] orig[o]).ppn == q)),
        decreases n - k,
    {
        let ppn = rest[k].ppn;
        proof {
            assert(fa.allocated(ppn)) by {
                assert(fa0.allocated(orig[k as int].ppn));
                if exists|o: int| 0 <= o < k && (#[trigger] orig[o]).ppn == ppn {
                    let o = choose|o: int| 0 <= o < k && (#[trigger] orig[o]).ppn == ppn;
                    assert(orig[o].ppn != orig[k as int].ppn);
                }
            }
        }
        let dres = fa.dealloc(ppn);
        proof {
            assert(dres is Ok);
            assert forall|q: u64| fa.allocated(q) == (fa0.allocated(q) && !(exists|o: int|
                0 <= o < k + 1 && (#[trigger] orig[o]).ppn == q)) by {
                if q == ppn {
                    assert(orig[k as int].ppn == q);
                    assert(!fa.allocated(q));
                } else {
                    if exists|o: int| 0 <= o < k + 1 && (#[trigger] orig[o]).ppn == q {
                        let o = choose|o: int| 0 <= o < k + 1 && (#[trigger] orig[o]).ppn == q;
                        assert(o < k);
                        assert(exists|o2: int| 0 <= o2 < k && (#[trigger] orig[o2]).ppn == q);
                    }
                }
            }
        }
        k = k + 1;
    }
    proof {
        // node frames are untouched by the releases
        assert forall|j: int| 0 <= j < pt.nodes@.len() implies fa.allocated(
            #[trigger] pt.node_ppn(j),
        ) by {
            assert(pt.node_ppn(j) == g0.node_ppn(j));
            assert(fa0.allocated(g0.node_ppn(j)));
            if exists|o: int| 0 <= o < n && (#[trigger] orig[o]).ppn == g0.node_ppn(j) {
                let o = choose|o: int| 0 <= o < n && (#[trigger] orig[o]).ppn == g0.node_ppn(j);
                assert(orig[o].ppn != g0.node_ppn(j));
            }
        }
    }
}

} // verus!
