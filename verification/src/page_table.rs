//! The three-level radix page table: entries, the tree of node frames, and
//! address translation.
//!
//! A virtual page number splits into three 9-bit indices, most significant
//! first. Every node of the tree lives in a physical frame obtained from the
//! frame allocator and owned by the page table; the leaf entries map virtual
//! pages to physical pages with permission flags.
use vstd::prelude::*;
use crate::KernelError;
use crate::config::{PAGE_SIZE, PPN_LIMIT, PPN_MASK, VADDR_LIMIT, VPN_LIMIT};
use crate::addr::{
    spec_idx0, spec_idx1, spec_idx2, idx0, idx1, idx2, lemma_idx_bounds, lemma_idx_unique,
    spec_page_floor, spec_page_offset, page_floor, page_offset,
};
use crate::frame_allocator::{frame_alloc, FrameTracker, StackFrameAllocator};

verus! {

/// Entry flag: the entry is valid.
pub const FLAG_V: u8 = 1;
/// Entry flag: readable.
pub const FLAG_R: u8 = 2;
/// Entry flag: writable.
pub const FLAG_W: u8 = 4;
/// Entry flag: executable.
pub const FLAG_X: u8 = 8;
/// Entry flag: user-accessible.
pub const FLAG_U: u8 = 16;
/// Entry flag: global.
pub const FLAG_G: u8 = 32;
/// Entry flag: accessed.
pub const FLAG_A: u8 = 64;
/// Entry flag: dirty.
pub const FLAG_D: u8 = 128;

/// One page-table entry: a physical page number and flag bits packed into a
/// single word (flags in the low 8 bits, the page number from bit 10 up).
#[derive(Clone, Copy, Debug, PartialEq, Eq, Structural)]
pub struct PageTableEntry {
    /// The packed bits of the entry.
    pub bits: u64,
}

/// Packing an in-range page number with flags and reading both back.
proof fn lemma_pte_encode(ppn: u64, flags: u8)
    by (bit_vector)
    requires
        ppn < 0x1000_0000_0000,
    ensures
        ((ppn << 10) | (flags as u64)) >> 10 & 0xFFF_FFFF_FFFF == ppn,
        (((ppn << 10) | (flags as u64)) & 0xff) as u8 == flags,
{
}

/// The all-zero entry has no flags set and page number zero.
proof fn lemma_pte_zero()
    by (bit_vector)
    ensures
        (0u64 >> 10) & 0xFFF_FFFF_FFFF == 0u64,
        ((0u64 & 0xff) as u8) == 0u8,
        0u8 & 1u8 == 0u8,
{
}

/// A flag test on a combined flag byte sees each component.
proof fn lemma_flag_or(f: u8, g: u8)
    by (bit_vector)
    ensures
        (f | g) & g == g,
        g != 0 ==> ((f | g) & g) != 0,
        forall|h: u8| #![auto] ((f | g) & h) == ((f & h) | (g & h)),
{
}

impl PageTableEntry {
    /// The physical page number stored in the entry.
    pub open spec fn spec_ppn(self) -> u64 {
        (self.bits >> 10) & PPN_MASK
    }

    /// The flag byte stored in the entry.
    pub open spec fn spec_flags(self) -> u8 {
        (self.bits & 0xff) as u8
    }

    /// Whether the valid flag is set.
    pub open spec fn spec_is_valid(self) -> bool {
        self.spec_flags() & FLAG_V != 0
    }

    /// Pack a physical page number and flags into an entry.
    pub fn new(ppn: u64, flags: u8) -> (r: PageTableEntry)
        requires
            ppn < PPN_LIMIT,
        ensures
            r.spec_ppn() == ppn,
            r.spec_flags() == flags,
    {
        proof {
            lemma_pte_encode(ppn, flags);
        }
        PageTableEntry { bits: (ppn << 10u64) | (flags as u64) }
    }

    /// The empty (invalid) entry.
    pub fn empty() -> (r: PageTableEntry)
        ensures
            r == spec_empty_pte(),
            !r.spec_is_valid(),
            r.spec_flags() == 0,
            r.spec_ppn() == 0,
    {
        proof {
            lemma_pte_zero();
        }
        PageTableEntry { bits: 0 }
    }

    /// The physical page number stored in the entry.
    pub fn ppn(&self) -> (r: u64)
        ensures
            r == self.spec_ppn(),
            r < PPN_LIMIT,
    {
        proof {
            let b = self.bits;
            assert((b >> 10) & 0xFFF_FFFF_FFFF < 0x1000_0000_0000) by (bit_vector);
        }
        (self.bits >> 10u64) & PPN_MASK
    }

    /// The flag byte stored in the entry.
    pub fn flags(&self) -> (r: u8)
        ensures
            r == self.spec_flags(),
    {
        (self.bits & 0xff) as u8
    }

    /// Whether the entry is valid.
    pub fn is_valid(&self) -> (r: bool)
        ensures
            r == self.spec_is_valid(),
    {
        (self.flags() & FLAG_V) != 0
    }

    /// Whether the entry permits reads.
    pub fn readable(&self) -> (r: bool)
        ensures
            r == (self.spec_flags() & FLAG_R != 0),
    {
        (self.flags() & FLAG_R) != 0
    }

    /// Whether the entry permits writes.
    pub fn writable(&self) -> (r: bool)
        ensures
            r == (self.spec_flags() & FLAG_W != 0),
    {
        (self.flags() & FLAG_W) != 0
    }

    /// Whether the entry permits execution.
    pub fn executable(&self) -> (r: bool)
        ensures
            r == (self.spec_flags() & FLAG_X != 0),
    {
        (self.flags() & FLAG_X) != 0
    }
}

/// The all-zero entry.
pub open spec fn spec_empty_pte() -> PageTableEntry {
    PageTableEntry { bits: 0 }
}

/// The all-zero entry is invalid.
pub proof fn lemma_empty_pte_invalid()
    ensures
        !spec_empty_pte().spec_is_valid(),
        spec_empty_pte().spec_flags() == 0,
{
    lemma_pte_zero();
}

/// One node of the radix tree: its owning frame plus 512 entries.
pub struct PtNode {
    /// The physical frame this node lives in.
    pub frame: FrameTracker,
    /// The node's 512 entries.
    pub entries: Vec<PageTableEntry>,
}

/// Ghost description of where a node sits in the tree: its depth and the
/// virtual-page-number prefix (base-512 digits) that leads to it.
pub ghost struct NodePath {
    /// Depth in the tree: 0 is the root, 2 a leaf node.
    pub level: nat,
    /// The radix-tree indices walked to reach this node, as one base-512
    /// number with `level` digits.
    pub prefix: nat,
}

/// A per-address-space three-level page table. It owns the root frame and
/// every intermediate frame it allocates.
pub struct PageTable {
    /// Physical page number of the root node.
    pub root_ppn: u64,
    /// Every node of the tree; index 0 is the root.
    pub nodes: Vec<PtNode>,
    /// Ghost: the tree position of each node.
    pub paths: Ghost<Seq<NodePath>>,
}

impl PageTable {
    /// The physical page number of node `i`.
    pub open spec fn node_ppn(self, i: int) -> u64 {
        self.nodes@[i].frame.ppn
    }

    /// Entry `k` of node `i`.
    pub open spec fn node_entry(self, i: int, k: int) -> PageTableEntry {
        self.nodes@[i].entries@[k]
    }

    /// The tree position of node `i`.
    pub open spec fn path(self, i: int) -> NodePath {
        self.paths@[i]
    }

    /// Node `j` is the child that entry `k` of node `i` points to.
    pub open spec fn is_child_of(self, j: int, i: int, k: int) -> bool {
        &&& 0 <= j < self.nodes@.len()
        &&& self.node_ppn(j) == self.node_entry(i, k).spec_ppn()
        &&& self.path(j).level == self.path(i).level + 1
        &&& self.path(j).prefix == self.path(i).prefix * 512 + k
    }

    /// Entry `k` of node `i` has a child node.
    pub open spec fn has_child(self, i: int, k: int) -> bool {
        exists|j: int| self.is_child_of(j, i, k)
    }

    /// The index of the child node that entry `k` of node `i` points to.
    pub open spec fn child_index(self, i: int, k: int) -> int {
        choose|j: int| self.is_child_of(j, i, k)
    }

    /// Every node has 512 entries, an in-range frame, and depth at most 2.
    pub open spec fn nodes_wf(self) -> bool {
        forall|i: int|
            0 <= i < self.nodes@.len() ==> (#[trigger] self.nodes@[i]).entries@.len() == 512
                && self.nodes@[i].frame.ppn < PPN_LIMIT && self.nodes@[i].frame.wf()
                && self.paths@[i].level <= 2
    }

    /// No two nodes share a physical frame.
    pub open spec fn ppns_distinct(self) -> bool {
        forall|i: int, j: int|
            #![trigger self.node_ppn(i), self.node_ppn(j)]
            0 <= i < self.nodes@.len() && 0 <= j < self.nodes@.len() && i != j
                ==> self.node_ppn(i) != self.node_ppn(j)
    }

    /// No two nodes sit at the same tree position.
    pub open spec fn paths_distinct(self) -> bool {
        forall|i: int, j: int|
            #![trigger self.path(i), self.path(j)]
            0 <= i < self.nodes@.len() && 0 <= j < self.nodes@.len() && i != j ==> self.path(i)
                != self.path(j)
    }

    /// Every valid entry of a non-leaf node points to a node one level
    /// further down, at the position the entry's index dictates.
    pub open spec fn down_links(self) -> bool {
        forall|i: int, k: int|
            0 <= i < self.nodes@.len() && self.path(i).level < 2 && 0 <= k < 512 && (
            #[trigger] self.node_entry(i, k)).spec_is_valid() ==> self.has_child(i, k)
    }

    /// Node `j` is reachable through a valid entry of some parent node.
    pub open spec fn has_parent(self, j: int) -> bool {
        exists|i: int, k: int|
            #![trigger self.is_child_of(j, i, k)]
            0 <= i < self.nodes@.len() && 0 <= k < 512 && self.node_entry(i, k).spec_is_valid()
                && self.is_child_of(j, i, k)
    }

    /// Every node but the root is linked from a parent.
    pub open spec fn up_links(self) -> bool {
        forall|j: int| 1 <= j < self.nodes@.len() ==> #[trigger] self.has_parent(j)
    }

    /// Structural invariant of the whole tree.
    pub open spec fn wf(self) -> bool {
        &&& 1 <= self.nodes@.len()
        &&& self.paths@.len() == self.nodes@.len()
        &&& self.root_ppn == self.node_ppn(0)
        &&& self.path(0) == (NodePath { level: 0, prefix: 0 })
        &&& self.nodes_wf()
        &&& self.ppns_distinct()
        &&& self.paths_distinct()
        &&& self.down_links()
        &&& self.up_links()
    }

    /// The page table together with the frame allocator: every node frame
    /// is a page currently allocated by `fa`.
    pub open spec fn wf_with(self, fa: StackFrameAllocator) -> bool {
        &&& self.wf()
        &&& fa.wf()
        &&& forall|i: int|
            0 <= i < self.nodes@.len() ==> fa.allocated(#[trigger] self.node_ppn(i))
    }

    /// The walk of `vpn` through the tree: the leaf entry it reaches, or
    /// `None` if an intermediate entry is invalid.
    pub open spec fn spec_translate(self, vpn: u64) -> Option<PageTableEntry> {
        let k0 = spec_idx0(vpn) as int;
        let k1 = spec_idx1(vpn) as int;
        let k2 = spec_idx2(vpn) as int;
        if !self.node_entry(0, k0).spec_is_valid() {
            None
        } else {
            let n1 = self.child_index(0, k0);
            if !self.node_entry(n1, k1).spec_is_valid() {
                None
            } else {
                let n2 = self.child_index(n1, k1);
                Some(self.node_entry(n2, k2))
            }
        }
    }

    /// Whether `vpn` has a valid leaf mapping.
    pub open spec fn is_mapped(self, vpn: u64) -> bool {
        match self.spec_translate(vpn) {
            Some(e) => e.spec_is_valid(),
            None => false,
        }
    }

    /// The physical page `vpn` maps to (meaningful when mapped).
    pub open spec fn mapped_ppn(self, vpn: u64) -> u64 {
        self.spec_translate(vpn).unwrap().spec_ppn()
    }

    /// The flags `vpn` maps with (meaningful when mapped).
    pub open spec fn mapped_flags(self, vpn: u64) -> u8 {
        self.spec_translate(vpn).unwrap().spec_flags()
    }

    /// Nodes with equal frame page numbers are the same node.
    pub proof fn lemma_ppn_unique(self, i: int, j: int)
        requires
            self.wf(),
            0 <= i < self.nodes@.len(),
            0 <= j < self.nodes@.len(),
            self.node_ppn(i) == self.node_ppn(j),
        ensures
            i == j,
    {
        if i != j {
            assert(self.node_ppn(i) != self.node_ppn(j));
        }
    }

    /// The child of a valid non-leaf entry: its index is in range, it is
    /// the unique node with the entry's frame number, and its position is
    /// the parent's extended by the entry index.
    pub proof fn lemma_child(self, i: int, k: int) -> (j: int)
        requires
            self.wf(),
            0 <= i < self.nodes@.len(),
            self.path(i).level < 2,
            0 <= k < 512,
            self.node_entry(i, k).spec_is_valid(),
        ensures
            j == self.child_index(i, k),
            self.is_child_of(j, i, k),
            forall|j2: int|
                0 <= j2 < self.nodes@.len() && self.node_ppn(j2) == self.node_entry(i,
                k).spec_ppn() ==> j2 == j,
    {
        assert(self.has_child(i, k));
        let j = self.child_index(i, k);
        assert(self.is_child_of(j, i, k));
        assert forall|j2: int|
            0 <= j2 < self.nodes@.len() && self.node_ppn(j2) == self.node_entry(i,
            k).spec_ppn() implies j2 == j by {
            self.lemma_ppn_unique(j2, j);
        }
        j
    }

    /// Where the walk of `vpn` passes: the level-1 node has position
    /// `(1, idx0)` and the leaf node position `(2, idx0 * 512 + idx1)`.
    pub proof fn lemma_walk_path(self, vpn: u64)
        requires
            self.wf(),
            self.node_entry(0, spec_idx0(vpn) as int).spec_is_valid(),
        ensures
            ({
                let n1 = self.child_index(0, spec_idx0(vpn) as int);
                &&& 0 <= n1 < self.nodes@.len()
                &&& self.path(n1).level == 1
                &&& self.path(n1).prefix == spec_idx0(vpn)
                &&& (self.node_entry(n1, spec_idx1(vpn) as int).spec_is_valid() ==> {
                    let n2 = self.child_index(n1, spec_idx1(vpn) as int);
                    &&& 0 <= n2 < self.nodes@.len()
                    &&& self.path(n2).level == 2
                    &&& self.path(n2).prefix == spec_idx0(vpn) * 512 + spec_idx1(vpn)
                })
            }),
    {
        lemma_idx_bounds(vpn);
        let k0 = spec_idx0(vpn) as int;
        let n1 = self.lemma_child(0, k0);
        assert(self.path(n1).prefix == 0 * 512 + k0);
        if self.node_entry(n1, spec_idx1(vpn) as int).spec_is_valid() {
            let n2 = self.lemma_child(n1, spec_idx1(vpn) as int);
        }
    }

    /// Find the node holding a given frame by scanning the node list.
    fn node_index(&self, ppn: u64) -> (r: usize)
        requires
            self.wf(),
            exists|j: int| 0 <= j < self.nodes@.len() && self.node_ppn(j) == ppn,
        ensures
            r < self.nodes@.len(),
            self.node_ppn(r as int) == ppn,
    {
        let n = self.nodes.len();
        let mut i: usize = 0;
        while i < n
            invariant
                n == self.nodes@.len(),
                0 <= i <= n,
                forall|j: int| 0 <= j < i ==> self.node_ppn(j) != ppn,
                exists|j: int| 0 <= j < self.nodes@.len() && self.node_ppn(j) == ppn,
            decreases n - i,
        {
            if self.nodes[i].frame.ppn == ppn {
                return i;
            }
            i = i + 1;
        }
        proof {
            let j = choose|j: int| 0 <= j < self.nodes@.len() && self.node_ppn(j) == ppn;
            assert(false);
        }
        unreached()
    }

    /// Create a fresh page table holding only a zeroed root node.
    pub fn new(fa: &mut StackFrameAllocator) -> (r: Result<PageTable, KernelError>)
        requires
            old(fa).wf(),
        ensures
            final(fa).wf(),
            final(fa).end == old(fa).end,
            r is Ok <==> old(fa).has_free(),
            r is Ok ==> final(fa).free_count() == old(fa).free_count() - 1,
            r is Err ==> final(fa).current == old(fa).current && final(fa).recycled@ == old(
                fa,
            ).recycled@ && r == Err::<PageTable, KernelError>(KernelError::FrameExhausted),
            r matches Ok(pt) ==> {
                &&& pt.wf_with(*final(fa))
                &&& pt.nodes@.len() == 1
                &&& pt.node_ppn(0) == pt.root_ppn
                &&& !old(fa).allocated(pt.root_ppn)
                &&& final(fa).allocated(pt.root_ppn)
                &&& forall|q: u64|
                    q != pt.root_ppn ==> final(fa).allocated(q) == old(fa).allocated(q)
                &&& forall|v: u64| !pt.is_mapped(v)
            },
    {
        let ft = match frame_alloc(fa) {
            Some(ft) => ft,
            None => {
                return Err(KernelError::FrameExhausted);
            },
        };
        let root_ppn = ft.ppn;
        let entries = empty_node_entries();
        let node = PtNode { frame: ft, entries };
        let mut nodes: Vec<PtNode> = Vec::new();
        nodes.push(node);
        let pt = PageTable {
            root_ppn,
            nodes,
            paths: Ghost(Seq::empty().push(NodePath { level: 0, prefix: 0 })),
        };
        proof {
            lemma_empty_pte_invalid();
            assert forall|v: u64| !pt.is_mapped(v) by {
                lemma_idx_bounds(v);
                assert(pt.node_entry(0, spec_idx0(v) as int) == spec_empty_pte());
            }
            assert(pt.wf_with(*fa));
        }
        Ok(pt)
    }

    /// The opaque address-space token: a fixed mode tag in the high bits
    /// plus the root frame number.
    pub fn token(&self) -> (r: u64)
        ensures
            r == (8u64 << 60u64) | self.root_ppn,
    {
        (8u64 << 60u64) | self.root_ppn
    }

    /// Walk `vpn` through the tree without allocating; a copy of the leaf
    /// entry, or `None` if an intermediate entry is invalid.
    pub fn translate(&self, vpn: u64) -> (r: Option<PageTableEntry>)
        requires
            self.wf(),
        ensures
            r == self.spec_translate(vpn),
    {
        proof {
            lemma_idx_bounds(vpn);
        }
        let k0 = idx0(vpn);
        let e0 = self.nodes[0].entries[k0 as usize];
        if !e0.is_valid() {
            return None;
        }
        proof {
            self.lemma_child(0, k0 as int);
        }
        let n1 = self.node_index(e0.ppn());
        proof {
            self.lemma_ppn_unique(n1 as int, self.child_index(0, k0 as int));
        }
        let k1 = idx1(vpn);
        let e1 = self.nodes[n1].entries[k1 as usize];
        if !e1.is_valid() {
            return None;
        }
        proof {
            self.lemma_child(n1 as int, k1 as int);
            self.lemma_walk_path(vpn);
        }
        let n2 = self.node_index(e1.ppn());
        proof {
            self.lemma_ppn_unique(n2 as int, self.child_index(n1 as int, k1 as int));
        }
        let k2 = idx2(vpn);
        Some(self.nodes[n2].entries[k2 as usize])
    }

    /// Translate a virtual address to a physical address: the mapped frame
    /// of its page plus the in-page byte offset.
    pub fn translate_va(&self, va: u64) -> (r: Option<u64>)
        requires
            self.wf(),
        ensures
            r is Some <==> self.is_mapped(crate::addr::spec_page_floor(va)),
            r matches Some(pa) ==> pa == self.mapped_ppn(crate::addr::spec_page_floor(va))
                * PAGE_SIZE + crate::addr::spec_page_offset(va),
    {
        let vpn = crate::addr::page_floor(va);
        match self.translate(vpn) {
            Some(e) => {
                if e.is_valid() {
                    Some(e.ppn() * PAGE_SIZE + crate::addr::page_offset(va))
                } else {
                    None
                }
            },
            None => None,
        }
    }
}

/// Base-512 digits are unique: equal two-digit numbers have equal digits.
proof fn lemma_digits_unique(p: nat, k: nat, p2: nat, k2: nat)
    by (nonlinear_arith)
    requires
        p * 512 + k == p2 * 512 + k2,
        k < 512,
        k2 < 512,
    ensures
        p == p2,
        k == k2,
{
}

impl PageTable {
    /// Overwrite one entry of one node, leaving everything else in place.
    fn set_entry(&mut self, n: usize, k: usize, e: PageTableEntry)
        requires
            n < old(self).nodes@.len(),
            k < old(self).nodes@[n as int].entries@.len(),
        ensures
            final(self).nodes@.len() == old(self).nodes@.len(),
            forall|j: int|
                0 <= j < old(self).nodes@.len() && j != n ==> final(self).nodes@[j] == old(
                    self,
                ).nodes@[j],
            final(self).nodes@[n as int].frame == old(self).nodes@[n as int].frame,
            final(self).nodes@[n as int].entries@ == old(self).nodes@[n as int].entries@.update(
                k as int,
                e,
            ),
            final(self).root_ppn == old(self).root_ppn,
            final(self).paths@ == old(self).paths@,
    {
        let node = &mut self.nodes[n];
        node.entries[k] = e;
    }

    /// After overwriting the leaf entry on the walk of `vpn`, the tree is
    /// still well formed, `vpn` walks to the new entry, and the walk of
    /// every other in-range page is unchanged.
    proof fn lemma_set_leaf(pre: PageTable, post: PageTable, vpn: u64, e_new: PageTableEntry)
        requires
            pre.wf(),
            vpn < VPN_LIMIT,
            pre.node_entry(0, spec_idx0(vpn) as int).spec_is_valid(),
            pre.node_entry(
                pre.child_index(0, spec_idx0(vpn) as int),
                spec_idx1(vpn) as int,
            ).spec_is_valid(),
            ({
                let n2 = pre.child_index(
                    pre.child_index(0, spec_idx0(vpn) as int),
                    spec_idx1(vpn) as int,
                );
                &&& post.nodes@.len() == pre.nodes@.len()
                &&& post.paths@ == pre.paths@
                &&& post.root_ppn == pre.root_ppn
                &&& forall|j: int|
                    0 <= j < pre.nodes@.len() && j != n2 ==> post.nodes@[j] == pre.nodes@[j]
                &&& post.nodes@[n2].frame == pre.nodes@[n2].frame
                &&& post.nodes@[n2].entries@ == pre.nodes@[n2].entries@.update(
                    spec_idx2(vpn) as int,
                    e_new,
                )
            }),
        ensures
            post.wf(),
            post.spec_translate(vpn) == Some(e_new),
            forall|v: u64|
                v < VPN_LIMIT && v != vpn ==> post.spec_translate(v) == pre.spec_translate(v),
            forall|j: int|
                0 <= j < pre.nodes@.len() ==> #[trigger] post.node_ppn(j) == pre.node_ppn(j),
    {
        lemma_idx_bounds(vpn);
        pre.lemma_walk_path(vpn);
        let k0 = spec_idx0(vpn) as int;
        let k1 = spec_idx1(vpn) as int;
        let k2 = spec_idx2(vpn) as int;
        let n1 = pre.child_index(0, k0);
        let n2 = pre.child_index(n1, k1);
        assert(pre.path(n2).level == 2);
        assert(n2 != 0);

        // frames are untouched
        assert forall|j: int| 0 <= j < pre.nodes@.len() implies #[trigger] post.node_ppn(j)
            == pre.node_ppn(j) by {
            if j != n2 {
                assert(post.nodes@[j] == pre.nodes@[j]);
            }
        }
        assert forall|j: int| 0 <= j < pre.nodes@.len() implies #[trigger] post.path(j)
            == pre.path(j) by {}

        // well-formedness
        assert forall|i: int| 0 <= i < post.nodes@.len() implies (
            #[trigger] post.nodes@[i]).entries@.len() == 512 && post.nodes@[i].frame.ppn
            < PPN_LIMIT && post.nodes@[i].frame.wf() && post.paths@[i].level <= 2 by {
            assert(pre.nodes@[i].entries@.len() == 512);
            if i != n2 {
                assert(post.nodes@[i] == pre.nodes@[i]);
            }
        }
        assert(post.nodes_wf());
        assert(post.ppns_distinct());
        assert(post.paths_distinct());
        assert forall|i: int, k: int|
            0 <= i < post.nodes@.len() && post.path(i).level < 2 && 0 <= k < 512 && (
            #[trigger] post.node_entry(i, k)).spec_is_valid() implies post.has_child(i, k) by {
            assert(i != n2);
            assert(post.node_entry(i, k) == pre.node_entry(i, k));
            assert(pre.has_child(i, k));
            let j = pre.child_index(i, k);
            assert(pre.is_child_of(j, i, k));
            assert(post.is_child_of(j, i, k));
        }
        assert forall|j: int| 1 <= j < post.nodes@.len() implies #[trigger] post.has_parent(
            j,
        ) by {
            assert(pre.has_parent(j));
            let (i, k) = choose|i: int, k: int|
                #![trigger pre.is_child_of(j, i, k)]
                0 <= i < pre.nodes@.len() && 0 <= k < 512 && pre.node_entry(i,
                k).spec_is_valid() && pre.is_child_of(j, i, k);
            assert(pre.path(i).level < 2) by {
                assert(pre.path(j).level <= 2);
            }
            assert(i != n2);
            assert(post.node_entry(i, k) == pre.node_entry(i, k));
            assert(post.is_child_of(j, i, k));
        }
        assert(post.wf());

        // the walk of any in-range page
        assert forall|v: u64| v < VPN_LIMIT implies post.spec_translate(v) == (if v == vpn {
            Some(e_new)
        } else {
            pre.spec_translate(v)
        }) by {
            lemma_idx_bounds(v);
            let c0 = spec_idx0(v) as int;
            let c1 = spec_idx1(v) as int;
            let c2 = spec_idx2(v) as int;
            assert(post.node_entry(0, c0) == pre.node_entry(0, c0));
            if pre.node_entry(0, c0).spec_is_valid() {
                pre.lemma_walk_path(v);
                let m1_pre = pre.child_index(0, c0);
                let m1_post = post.lemma_child(0, c0);
                assert(post.node_ppn(m1_post) == pre.node_ppn(m1_post));
                pre.lemma_ppn_unique(m1_post, m1_pre);
                assert(m1_post == m1_pre);
                assert(pre.path(m1_pre).level == 1);
                assert(m1_pre != n2);
                assert(post.node_entry(m1_pre, c1) == pre.node_entry(m1_pre, c1));
                if pre.node_entry(m1_pre, c1).spec_is_valid() {
                    let m2_pre = pre.child_index(m1_pre, c1);
                    let m2_post = post.lemma_child(m1_pre, c1);
                    assert(post.node_ppn(m2_post) == pre.node_ppn(m2_post));
                    pre.lemma_ppn_unique(m2_post, m2_pre);
                    assert(m2_post == m2_pre);
                    if m2_pre == n2 {
                        assert(pre.path(m2_pre).prefix == spec_idx0(v) * 512 + spec_idx1(v));
                        assert(pre.path(n2).prefix == spec_idx0(vpn) * 512 + spec_idx1(vpn));
                        lemma_digits_unique(
                            spec_idx0(v) as nat,
                            spec_idx1(v) as nat,
                            spec_idx0(vpn) as nat,
                            spec_idx1(vpn) as nat,
                        );
                        assert(spec_idx0(v) == spec_idx0(vpn) && spec_idx1(v) == spec_idx1(vpn));
                        if c2 == k2 {
                            lemma_idx_unique(v, vpn);
                            assert(v == vpn);
                            assert(post.node_entry(n2, k2) == e_new);
                        } else {
                            assert(v != vpn);
                            assert(post.node_entry(n2, c2) == pre.node_entry(n2, c2));
                        }
                    } else {
                        assert(v != vpn) by {
                            if v == vpn {
                                assert(m2_pre == n2);
                            }
                        }
                        assert(post.nodes@[m2_pre] == pre.nodes@[m2_pre]);
                    }
                } else {
                    assert(v != vpn);
                }
            } else {
                assert(v != vpn);
            }
        }
    }
    /// After hanging a fresh, zeroed node under the previously invalid
    /// entry `k` of node `i`, the tree is still well formed and the set of
    /// valid leaf mappings is unchanged.
    proof fn lemma_add_node(pre: PageTable, post: PageTable, i: int, k: int, fresh: u64)
        requires
            pre.wf(),
            0 <= i < pre.nodes@.len(),
            pre.path(i).level < 2,
            0 <= k < 512,
            !pre.node_entry(i, k).spec_is_valid(),
            fresh < PPN_LIMIT,
            forall|j: int| 0 <= j < pre.nodes@.len() ==> #[trigger] pre.node_ppn(j) != fresh,
            post.root_ppn == pre.root_ppn,
            post.nodes@.len() == pre.nodes@.len() + 1,
            post.paths@ == pre.paths@.push(
                NodePath {
                    level: (pre.path(i).level + 1) as nat,
                    prefix: (pre.path(i).prefix * 512 + k) as nat,
                },
            ),
            forall|j: int|
                0 <= j < pre.nodes@.len() && j != i ==> post.nodes@[j] == pre.nodes@[j],
            post.nodes@[i].frame == pre.nodes@[i].frame,
            post.node_entry(i, k).spec_is_valid(),
            post.node_entry(i, k).spec_ppn() == fresh,
            post.nodes@[i].entries@ == pre.nodes@[i].entries@.update(
                k,
                post.nodes@[i].entries@[k],
            ),
            post.nodes@[pre.nodes@.len() as int].frame.ppn == fresh,
            post.nodes@[pre.nodes@.len() as int].frame.wf(),
            post.nodes@[pre.nodes@.len() as int].entries@.len() == 512,
            forall|m: int|
                0 <= m < 512 ==> post.nodes@[pre.nodes@.len() as int].entries@[m]
                    == spec_empty_pte(),
        ensures
            post.wf(),
            post.child_index(i, k) == pre.nodes@.len(),
            forall|v: u64|
                v < VPN_LIMIT ==> post.is_mapped(v) == pre.is_mapped(v) && (pre.is_mapped(v)
                    ==> post.spec_translate(v) == pre.spec_translate(v)),
            forall|j: int|
                0 <= j < pre.nodes@.len() ==> #[trigger] post.node_ppn(j) == pre.node_ppn(j),
            forall|j: int|
                0 <= j < pre.nodes@.len() ==> #[trigger] post.path(j) == pre.path(j),
            forall|i2: int, k2: int|
                0 <= i2 < pre.nodes@.len() && 0 <= k2 < 512 && !(i2 == i && k2 == k)
                    ==> #[trigger] post.node_entry(i2, k2) == pre.node_entry(i2, k2),
    {
        lemma_empty_pte_invalid();
        let w = pre.nodes@.len() as int;
        let lvl = pre.path(i).level;
        let pfx = pre.path(i).prefix;
        let newpath = NodePath { level: (lvl + 1) as nat, prefix: (pfx * 512 + k) as nat };

        assert forall|j: int| 0 <= j < w implies #[trigger] post.node_ppn(j) == pre.node_ppn(
            j,
        ) by {
            if j != i {
                assert(post.nodes@[j] == pre.nodes@[j]);
            }
        }
        assert forall|j: int| 0 <= j < w implies #[trigger] post.path(j) == pre.path(j) by {}
        assert forall|i2: int, k2: int|
            0 <= i2 < w && 0 <= k2 < 512 && !(i2 == i && k2 == k) implies #[trigger] post
            .node_entry(i2, k2) == pre.node_entry(i2, k2) by {
            if i2 != i {
                assert(post.nodes@[i2] == pre.nodes@[i2]);
            } else {
                assert(post.nodes@[i].entries@[k2] == pre.nodes@[i].entries@[k2]);
            }
        }

        // the new path is nowhere in the old tree
        assert forall|j: int| 0 <= j < w implies pre.path(j) != newpath by {
            if pre.path(j) == newpath {
                assert(pre.path(j).level == lvl + 1);
                assert(j != 0 || pre.path(0).level == 0);
                assert(j >= 1);
                assert(pre.has_parent(j));
                let (i2, k2) = choose|i2: int, k2: int|
                    #![trigger pre.is_child_of(j, i2, k2)]
                    0 <= i2 < pre.nodes@.len() && 0 <= k2 < 512 && pre.node_entry(i2,
                    k2).spec_is_valid() && pre.is_child_of(j, i2, k2);
                assert(pre.path(i2).prefix * 512 + k2 == pfx * 512 + k);
                lemma_digits_unique(pre.path(i2).prefix, k2 as nat, pfx, k as nat);
                assert(pre.path(i2).prefix == pfx && k2 == k);
                assert(pre.path(i2).level == lvl);
                assert(pre.path(i2) == pre.path(i));
                if i2 != i {
                    assert(pre.path(i2) != pre.path(i));
                }
                assert(pre.node_entry(i, k).spec_is_valid());
            }
        }

        // well-formedness of the grown tree
        assert(post.path(0) == pre.path(0));
        assert(post.node_ppn(0) == pre.node_ppn(0));
        assert forall|i2: int| 0 <= i2 < post.nodes@.len() implies (
            #[trigger] post.nodes@[i2]).entries@.len() == 512 && post.nodes@[i2].frame.ppn
            < PPN_LIMIT && post.nodes@[i2].frame.wf() && post.paths@[i2].level <= 2 by {
            if i2 < w {
                assert(pre.nodes@[i2].entries@.len() == 512);
                if i2 != i {
                    assert(post.nodes@[i2] == pre.nodes@[i2]);
                }
            }
        }
        assert(post.nodes_wf());
        assert forall|a: int, b: int|
            #![trigger post.node_ppn(a), post.node_ppn(b)]
            0 <= a < post.nodes@.len() && 0 <= b < post.nodes@.len() && a != b implies post
            .node_ppn(a) != post.node_ppn(b) by {
            if a < w && b < w {
                assert(pre.node_ppn(a) != pre.node_ppn(b));
            } else if a < w {
                assert(pre.node_ppn(a) != fresh);
            } else if b < w {
                assert(pre.node_ppn(b) != fresh);
            }
        }
        assert forall|a: int, b: int|
            #![trigger post.path(a), post.path(b)]
            0 <= a < post.nodes@.len() && 0 <= b < post.nodes@.len() && a != b implies post
            .path(a) != post.path(b) by {
            if a < w && b < w {
                assert(pre.path(a) != pre.path(b));
            } else if a < w {
                assert(pre.path(a) != newpath);
            } else if b < w {
                assert(pre.path(b) != newpath);
            }
        }
        assert(post.is_child_of(w, i, k));
        assert forall|i2: int, k2: int|
            0 <= i2 < post.nodes@.len() && post.path(i2).level < 2 && 0 <= k2 < 512 && (
            #[trigger] post.node_entry(i2, k2)).spec_is_valid() implies post.has_child(
            i2,
            k2,
        ) by {
            if i2 == w {
                assert(post.node_entry(i2, k2) == spec_empty_pte());
            } else if i2 == i && k2 == k {
                assert(post.is_child_of(w, i, k));
            } else {
                assert(post.node_entry(i2, k2) == pre.node_entry(i2, k2));
                assert(pre.has_child(i2, k2));
                let j = pre.child_index(i2, k2);
                assert(pre.is_child_of(j, i2, k2));
                assert(post.is_child_of(j, i2, k2));
            }
        }
        assert forall|j: int| 1 <= j < post.nodes@.len() implies #[trigger] post.has_parent(
            j,
        ) by {
            if j < w {
                assert(pre.has_parent(j));
                let (i2, k2) = choose|i2: int, k2: int|
                    #![trigger pre.is_child_of(j, i2, k2)]
                    0 <= i2 < pre.nodes@.len() && 0 <= k2 < 512 && pre.node_entry(i2,
                    k2).spec_is_valid() && pre.is_child_of(j, i2, k2);
                assert(!(i2 == i && k2 == k));
                assert(post.node_entry(i2, k2) == pre.node_entry(i2, k2));
                assert(post.is_child_of(j, i2, k2));
            } else {
                assert(post.is_child_of(w, i, k));
                assert(post.node_entry(i, k).spec_is_valid());
            }
        }
        assert(post.wf());
        post.lemma_ppn_unique(post.child_index(i, k), w);

        // no valid leaf mapping changes
        assert forall|v: u64| v < VPN_LIMIT implies post.is_mapped(v) == pre.is_mapped(v) && (
        pre.is_mapped(v) ==> post.spec_translate(v) == pre.spec_translate(v)) by {
            lemma_idx_bounds(v);
            let c0 = spec_idx0(v) as int;
            let c1 = spec_idx1(v) as int;
            let c2 = spec_idx2(v) as int;
            if i == 0 && k == c0 {
                // the walk of v used to stop at the root; it now reaches the
                // fresh, still-empty node
                assert(!pre.node_entry(0, c0).spec_is_valid());
                assert(pre.spec_translate(v) is None);
                let m1 = post.lemma_child(0, c0);
                assert(m1 == w);
                assert(post.node_entry(w, c1) == spec_empty_pte());
                assert(post.spec_translate(v) is None);
            } else {
                assert(post.node_entry(0, c0) == pre.node_entry(0, c0));
                if !pre.node_entry(0, c0).spec_is_valid() {
                    assert(pre.spec_translate(v) is None);
                    assert(post.spec_translate(v) is None);
                } else {
                    pre.lemma_walk_path(v);
                    let m1_pre = pre.child_index(0, c0);
                    let m1_post = post.lemma_child(0, c0);
                    assert(post.node_ppn(m1_pre) == pre.node_ppn(m1_pre));
                    post.lemma_ppn_unique(m1_post, m1_pre);
                    assert(m1_post == m1_pre);
                    if m1_pre == i && k == c1 {
                        // the walk of v used to stop at level one; it now
                        // reaches the fresh, still-empty leaf node
                        assert(!pre.node_entry(i, c1).spec_is_valid());
                        assert(pre.spec_translate(v) is None);
                        let m2 = post.lemma_child(m1_pre, c1);
                        assert(m2 == w);
                        assert(post.node_entry(w, c2) == spec_empty_pte());
                        assert(post.spec_translate(v) == Some(spec_empty_pte()));
                        assert(!post.is_mapped(v));
                    } else {
                        assert(post.node_entry(m1_pre, c1) == pre.node_entry(m1_pre, c1));
                        if !pre.node_entry(m1_pre, c1).spec_is_valid() {
                            assert(pre.spec_translate(v) is None);
                            assert(post.spec_translate(v) is None);
                        } else {
                            let m2_pre = pre.child_index(m1_pre, c1);
                            let m2_post = post.lemma_child(m1_pre, c1);
                            assert(post.node_ppn(m2_pre) == pre.node_ppn(m2_pre));
                            post.lemma_ppn_unique(m2_post, m2_pre);
                            assert(m2_post == m2_pre);
                            assert(pre.path(m2_pre).level == 2);
                            assert(m2_pre != i);
                            assert(m2_pre != w);
                            assert(post.node_entry(m2_pre, c2) == pre.node_entry(m2_pre, c2));
                        }
                    }
                }
            }
        }
    }
    /// How many fresh node frames a `map` of `vpn` would have to allocate.
    pub open spec fn needed_frames(self, vpn: u64) -> int {
        let k0 = spec_idx0(vpn) as int;
        if !self.node_entry(0, k0).spec_is_valid() {
            2
        } else {
            let n1 = self.child_index(0, k0);
            if !self.node_entry(n1, spec_idx1(vpn) as int).spec_is_valid() {
                1
            } else {
                0
            }
        }
    }

    /// Allocate a fresh zeroed node, hang it under entry `k` of node `i`,
    /// and return its index; `Err` exactly on frame exhaustion.
    fn create_child(&mut self, i: usize, k: usize, fa: &mut StackFrameAllocator) -> (r: Result<
        usize,
        KernelError,
    >)
        requires
            old(self).wf_with(*old(fa)),
            i < old(self).nodes@.len(),
            old(self).path(i as int).level < 2,
            k < 512,
            !old(self).node_entry(i as int, k as int).spec_is_valid(),
        ensures
            final(fa).wf(),
            final(fa).end == old(fa).end,
            forall|q: u64| old(fa).allocated(q) ==> final(fa).allocated(q),
            r is Ok <==> old(fa).has_free(),
            r is Ok ==> final(fa).free_count() == old(fa).free_count() - 1,
            forall|q: u64|
                !old(fa).allocated(q) && final(fa).allocated(q) ==> final(self).owns_frame(q),
            r is Err ==> *final(self) == *old(self) && final(fa).free_count() == old(
                fa,
            ).free_count() && old(fa).free_count() == 0 && r == Err::<usize, KernelError>(
                KernelError::FrameExhausted,
            ) && (forall|q: u64| final(fa).allocated(q) == old(fa).allocated(q)),
            r matches Ok(n) ==> {
                &&& final(self).wf_with(*final(fa))
                &&& final(self).root_ppn == old(self).root_ppn
                &&& n as int == final(self).nodes@.len() - 1
                &&& final(self).nodes@.len() == old(self).nodes@.len() + 1
                &&& final(self).child_index(i as int, k as int) == n
                &&& !old(fa).allocated(final(self).node_ppn(n as int))
                &&& final(self).path(n as int).level == old(self).path(i as int).level + 1
                &&& final(self).node_entry(i as int, k as int).spec_is_valid()
                &&& forall|m: int|
                    0 <= m < 512 ==> final(self).node_entry(n as int, m) == spec_empty_pte()
                &&& forall|v: u64|
                    v < VPN_LIMIT ==> final(self).is_mapped(v) == old(self).is_mapped(v) && (
                    old(self).is_mapped(v) ==> final(self).spec_translate(v) == old(
                        self,
                    ).spec_translate(v))
                &&& forall|j: int|
                    0 <= j < old(self).nodes@.len() ==> #[trigger] final(self).node_ppn(j)
                        == old(self).node_ppn(j)
                &&& forall|j: int|
                    0 <= j < old(self).nodes@.len() ==> #[trigger] final(self).path(j) == old(
                        self,
                    ).path(j)
                &&& forall|i2: int, k2: int|
                    0 <= i2 < old(self).nodes@.len() && 0 <= k2 < 512 && !(i2 == i && k2 == k)
                        ==> #[trigger] final(self).node_entry(i2, k2) == old(self).node_entry(
                        i2,
                        k2,
                    )
            },
    {
        let ft = match frame_alloc(fa) {
            Some(ft) => ft,
            None => {
                return Err(KernelError::FrameExhausted);
            },
        };
        let fresh = ft.ppn;
        proof {
            assert(1u8 & 1u8 != 0) by (bit_vector);
        }
        let e_link = PageTableEntry::new(fresh, FLAG_V);
        let ghost pre = *self;
        let entries = empty_node_entries();
        self.nodes.push(PtNode { frame: ft, entries });
        self.paths = Ghost(
            pre.paths@.push(
                NodePath {
                    level: (pre.path(i as int).level + 1) as nat,
                    prefix: (pre.path(i as int).prefix * 512 + k) as nat,
                },
            ),
        );
        let n = self.nodes.len() - 1;
        self.set_entry(i, k, e_link);
        proof {
            assert forall|j: int| 0 <= j < pre.nodes@.len() implies #[trigger] pre.node_ppn(j)
                != fresh by {
                assert(old(fa).allocated(pre.node_ppn(j)));
            }
            assert(self.nodes@[pre.nodes@.len() as int].frame.ppn == fresh);
            PageTable::lemma_add_node(pre, *self, i as int, k as int, fresh);
            assert forall|j: int| 0 <= j < self.nodes@.len() implies fa.allocated(
                #[trigger] self.node_ppn(j),
            ) by {
                if j < pre.nodes@.len() {
                    assert(old(fa).allocated(pre.node_ppn(j)));
                }
            }
        }
        Ok(n)
    }

    /// Install the mapping `vpn -> (ppn, flags | V)`, allocating missing
    /// intermediate nodes. Mapping an already-mapped page is rejected as
    /// `AlreadyMapped`; running out of frames as `FrameExhausted`, leaving
    /// the set of valid mappings unchanged either way.
    pub fn map(&mut self, vpn: u64, ppn: u64, flags: u8, fa: &mut StackFrameAllocator) -> (r:
        Result<(), KernelError>)
        requires
            old(self).wf_with(*old(fa)),
            vpn < VPN_LIMIT,
            ppn < PPN_LIMIT,
        ensures
            final(self).wf_with(*final(fa)),
            final(self).root_ppn == old(self).root_ppn,
            final(fa).end == old(fa).end,
            forall|q: u64| old(fa).allocated(q) ==> final(fa).allocated(q),
            forall|j: int|
                0 <= j < final(self).nodes@.len() ==> old(self).owns_frame(
                    #[trigger] final(self).node_ppn(j),
                ) || !old(fa).allocated(final(self).node_ppn(j)),
            forall|q: u64|
                !old(fa).allocated(q) && final(fa).allocated(q) ==> final(self).owns_frame(q),
            final(self).nodes@.len() >= old(self).nodes@.len(),
            forall|j: int|
                0 <= j < old(self).nodes@.len() ==> #[trigger] final(self).node_ppn(j) == old(
                    self,
                ).node_ppn(j),
            old(fa).free_count() - 2 <= final(fa).free_count() <= old(fa).free_count(),
            r is Ok <==> (!old(self).is_mapped(vpn) && old(fa).free_count() >= old(
                self,
            ).needed_frames(vpn)),
            r == Err::<(), KernelError>(KernelError::AlreadyMapped) <==> old(self).is_mapped(
                vpn,
            ),
            r is Err ==> forall|v: u64|
                v < VPN_LIMIT ==> final(self).is_mapped(v) == old(self).is_mapped(v) && (old(
                    self,
                ).is_mapped(v) ==> final(self).spec_translate(v) == old(self).spec_translate(
                    v,
                )),
            r is Ok ==> {
                &&& final(self).is_mapped(vpn)
                &&& final(self).mapped_ppn(vpn) == ppn
                &&& final(self).mapped_flags(vpn) == (flags | FLAG_V)
                &&& forall|v: u64|
                    v < VPN_LIMIT && v != vpn ==> final(self).is_mapped(v) == old(
                        self,
                    ).is_mapped(v) && (old(self).is_mapped(v) ==> final(self).spec_translate(v)
                        == old(self).spec_translate(v))
            },
    {
        proof {
            lemma_idx_bounds(vpn);
            lemma_empty_pte_invalid();
        }
        let k0 = idx0(vpn) as usize;
        let k1 = idx1(vpn) as usize;
        let k2 = idx2(vpn) as usize;
        let ghost g0 = *self;
        let ghost fa0 = *fa;

        let e0 = self.nodes[0].entries[k0];
        let n1: usize;
        if e0.is_valid() {
            proof {
                self.lemma_child(0, k0 as int);
            }
            let t = self.node_index(e0.ppn());
            proof {
                self.lemma_ppn_unique(t as int, self.child_index(0, k0 as int));
            }
            n1 = t;
        } else {
            proof {
                assert(!g0.is_mapped(vpn));
                assert(g0.needed_frames(vpn) == 2);
            }
            n1 = match self.create_child(0, k0, fa) {
                Ok(n) => n,
                Err(e) => {
                    return Err(e);
                },
            };
        }
        let ghost g1 = *self;
        let ghost fa1 = *fa;
        proof {
            assert(g1.path(n1 as int).level == 1);
            if !e0.spec_is_valid() {
                assert(fa1.free_count() == fa0.free_count() - 1);
            }
        }

        let e1 = self.nodes[n1].entries[k1];
        let n2: usize;
        if e1.is_valid() {
            proof {
                self.lemma_child(n1 as int, k1 as int);
            }
            let t = self.node_index(e1.ppn());
            proof {
                self.lemma_ppn_unique(t as int, self.child_index(n1 as int, k1 as int));
            }
            n2 = t;
        } else {
            proof {
                if e0.spec_is_valid() {
                    assert(!g0.is_mapped(vpn));
                    assert(g0.needed_frames(vpn) == 1);
                } else {
                    assert(old(fa).free_count() >= 2 ==> fa.has_free());
                }
            }
            n2 = match self.create_child(n1, k1, fa) {
                Ok(n) => n,
                Err(e) => {
                    proof {
                        if !e0.spec_is_valid() {
                            assert(old(fa).free_count() <= 1);
                        }
                    }
                    return Err(e);
                },
            };
        }
        let ghost g2 = *self;
        proof {
            if !e0.spec_is_valid() {
                assert(fa.free_count() == fa0.free_count() - 2);
                assert(fa0.free_count() >= 2);
                assert(g0.needed_frames(vpn) == 2);
            } else if !e1.spec_is_valid() {
                assert(fa.free_count() == fa0.free_count() - 1);
                assert(fa0.free_count() >= 1);
                assert(g0.needed_frames(vpn) == 1);
            } else {
                assert(g0.needed_frames(vpn) == 0);
                assert(fa0.free_count() >= 0);
            }
            // re-establish the walk of vpn in the current state
            assert(g2.node_entry(0, k0 as int).spec_is_valid());
            let m1 = g2.lemma_child(0, k0 as int);
            assert(g2.node_ppn(n1 as int) == g2.node_entry(0, k0 as int).spec_ppn());
            g2.lemma_ppn_unique(m1, n1 as int);
            assert(g2.child_index(0, k0 as int) == n1 as int);
            assert(g2.node_entry(n1 as int, k1 as int).spec_is_valid());
            let m2 = g2.lemma_child(n1 as int, k1 as int);
            assert(g2.node_ppn(n2 as int) == g2.node_entry(n1 as int, k1 as int).spec_ppn());
            g2.lemma_ppn_unique(m2, n2 as int);
            assert(g2.child_index(n1 as int, k1 as int) == n2 as int);
        }

        let e2 = self.nodes[n2].entries[k2];
        if e2.is_valid() {
            proof {
                assert(g2.spec_translate(vpn) == Some(e2));
                assert(g0.is_mapped(vpn));
                assert(*self == g0);
            }
            return Err(KernelError::AlreadyMapped);
        }
        proof {
            assert(g2.spec_translate(vpn) == Some(e2));
            assert(!g2.is_mapped(vpn));
            assert(!g0.is_mapped(vpn));
            lemma_flag_or(flags, FLAG_V);
        }
        let e_leaf = PageTableEntry::new(ppn, flags | FLAG_V);
        self.set_entry(n2, k2, e_leaf);
        proof {
            PageTable::lemma_set_leaf(g2, *self, vpn, e_leaf);
            assert(self.spec_translate(vpn) == Some(e_leaf));
            assert(e_leaf.spec_is_valid());
            assert forall|j: int| 0 <= j < self.nodes@.len() implies fa.allocated(
                #[trigger] self.node_ppn(j),
            ) by {
                assert(self.node_ppn(j) == g2.node_ppn(j));
            }
        }
        Ok(())
    }

    /// Remove the mapping of `vpn`, clearing its leaf entry. Unmapping a
    /// page with no valid mapping is rejected as `NotMapped`.
    pub fn unmap(&mut self, vpn: u64) -> (r: Result<(), KernelError>)
        requires
            old(self).wf(),
            vpn < VPN_LIMIT,
        ensures
            final(self).wf(),
            final(self).root_ppn == old(self).root_ppn,
            final(self).nodes@.len() == old(self).nodes@.len(),
            forall|j: int|
                0 <= j < old(self).nodes@.len() ==> #[trigger] final(self).node_ppn(j) == old(
                    self,
                ).node_ppn(j),
            r is Ok <==> old(self).is_mapped(vpn),
            r is Err ==> *final(self) == *old(self) && r == Err::<(), KernelError>(
                KernelError::NotMapped,
            ),
            r is Ok ==> {
                &&& !final(self).is_mapped(vpn)
                &&& forall|v: u64|
                    v < VPN_LIMIT && v != vpn ==> final(self).spec_translate(v) == old(
                        self,
                    ).spec_translate(v)
            },
    {
        proof {
            lemma_idx_bounds(vpn);
        }
        let k0 = idx0(vpn) as usize;
        let k1 = idx1(vpn) as usize;
        let k2 = idx2(vpn) as usize;
        let ghost g0 = *self;
        let e0 = self.nodes[0].entries[k0];
        if !e0.is_valid() {
            return Err(KernelError::NotMapped);
        }
        proof {
            self.lemma_child(0, k0 as int);
        }
        let n1 = self.node_index(e0.ppn());
        proof {
            self.lemma_ppn_unique(n1 as int, self.child_index(0, k0 as int));
        }
        let e1 = self.nodes[n1].entries[k1];
        if !e1.is_valid() {
            return Err(KernelError::NotMapped);
        }
        proof {
            self.lemma_child(n1 as int, k1 as int);
        }
        let n2 = self.node_index(e1.ppn());
        proof {
            self.lemma_ppn_unique(n2 as int, self.child_index(n1 as int, k1 as int));
        }
        let e2 = self.nodes[n2].entries[k2];
        if !e2.is_valid() {
            proof {
                assert(g0.spec_translate(vpn) == Some(e2));
            }
            return Err(KernelError::NotMapped);
        }
        proof {
            assert(g0.spec_translate(vpn) == Some(e2));
            assert(g0.is_mapped(vpn));
        }
        let e_new = PageTableEntry::empty();
        self.set_entry(n2, k2, e_new);
        proof {
            PageTable::lemma_set_leaf(g0, *self, vpn, e_new);
            lemma_empty_pte_invalid();
            assert(self.spec_translate(vpn) == Some(e_new));
        }
        Ok(())
    }
    /// Whether one of the table's node frames is page `q`.
    pub open spec fn owns_frame(self, q: u64) -> bool {
        exists|j: int| 0 <= j < self.nodes@.len() && self.node_ppn(j) == q
    }

    /// Tear the table down: return the root and every intermediate frame to
    /// the allocator, exactly once each. This is the only point at which a
    /// table's frames are released.
    pub fn release_frames(self, fa: &mut StackFrameAllocator)
        requires
            self.wf_with(*old(fa)),
        ensures
            final(fa).wf(),
            final(fa).end == old(fa).end,
            forall|q: u64|
                final(fa).allocated(q) == (old(fa).allocated(q) && !self.owns_frame(q)),
    {
        let ghost gpt = self;
        let ghost orig = self.nodes@;
        let ghost fa0 = *old(fa);
        let mut nodes = self.nodes;
        proof {
            assert forall|a: int, b: int|
                0 <= a < orig.len() && 0 <= b < orig.len() && a != b implies orig[a].frame.ppn
                != orig[b].frame.ppn by {
                assert(gpt.node_ppn(a) != gpt.node_ppn(b));
            }
            assert forall|j: int| 0 <= j < orig.len() implies fa0.allocated(
                #[trigger] orig[j].frame.ppn,
            ) by {
                assert(fa0.allocated(gpt.node_ppn(j)));
            }
        }
        while nodes.len() > 0
            invariant
                fa.wf(),
                fa.end == fa0.end,
                nodes@.len() <= orig.len(),
                nodes@ =~= orig.subrange(0, nodes@.len() as int),
                forall|a: int, b: int|
                    0 <= a < orig.len() && 0 <= b < orig.len() && a != b ==> orig[a].frame.ppn
                        != orig[b].frame.ppn,
                forall|q: u64|
                    fa.allocated(q) == (fa0.allocated(q) && !(exists|j: int|
                        nodes@.len() <= j < orig.len() && orig[j].frame.ppn == q)),
                forall|j: int| 0 <= j < orig.len() ==> fa0.allocated(#[trigger] orig[j].frame.ppn),
            decreases nodes@.len(),
        {
            let node = match nodes.pop() {
                Some(n) => n,
                None => {
                    unreached()
                },
            };
            let ghost m = nodes@.len() as int;
            proof {
                assert(node.frame.ppn == orig[m].frame.ppn);
                assert(fa.allocated(node.frame.ppn)) by {
                    assert(fa0.allocated(orig[m].frame.ppn));
                    if exists|j: int| m + 1 <= j < orig.len() && orig[j].frame.ppn
                        == node.frame.ppn {
                        let j = choose|j: int|
                            m + 1 <= j < orig.len() && orig[j].frame.ppn == node.frame.ppn;
                        assert(orig[j].frame.ppn != orig[m].frame.ppn);
                    }
                }
            }
            let res = fa.dealloc(node.frame.ppn);
            proof {
                assert(res is Ok);
                assert forall|q: u64| fa.allocated(q) == (fa0.allocated(q) && !(exists|j: int|
                    nodes@.len() <= j < orig.len() && orig[j].frame.ppn == q)) by {
                    if q == node.frame.ppn {
                        assert(orig[m].frame.ppn == q);
                        assert(m < orig.len());
                        assert(!fa.allocated(q));
                    } else {
                        if exists|j: int| m <= j < orig.len() && orig[j].frame.ppn == q {
                            let j = choose|j: int| m <= j < orig.len() && orig[j].frame.ppn == q;
                            if j == m {
                                assert(q == node.frame.ppn);
                            } else {
                                assert(m + 1 <= j < orig.len() && orig[j].frame.ppn == q);
                            }
                        }
                    }
                }
            }
        }
        proof {
            assert forall|q: u64| fa.allocated(q) == (fa0.allocated(q) && !gpt.owns_frame(
                q,
            )) by {
                if gpt.owns_frame(q) {
                    let j = choose|j: int| 0 <= j < gpt.nodes@.len() && gpt.node_ppn(j) == q;
                    assert(orig[j].frame.ppn == q);
                }
                if exists|j: int| 0 <= j < orig.len() && orig[j].frame.ppn == q {
                    let j = choose|j: int| 0 <= j < orig.len() && orig[j].frame.ppn == q;
                    assert(gpt.node_ppn(j) == q);
                    assert(gpt.owns_frame(q));
                }
            }
        }
    }
}

/// One physically contiguous piece of a translated byte range: the byte
/// span `[start, end)` inside physical page `ppn`.
#[derive(Clone, Copy, Debug, PartialEq, Eq, Structural)]
pub struct BufferSegment {
    /// The physical page the bytes lie in.
    pub ppn: u64,
    /// First byte offset inside the page.
    pub start: u64,
    /// One past the last byte offset inside the page.
    pub end: u64,
}

/// The segments a byte range `[start, start + len)` splits into: one per
/// touched page, cut at page boundaries, in address order.
pub open spec fn spec_segment(pt: PageTable, start: u64, len: u64, i: int) -> BufferSegment {
    let first = spec_page_floor(start);
    let last = spec_page_floor((start + len - 1) as u64);
    BufferSegment {
        ppn: pt.mapped_ppn((first + i) as u64),
        start: if i == 0 {
            spec_page_offset(start)
        } else {
            0
        },
        end: if first + i == last {
            (spec_page_offset((start + len - 1) as u64) + 1) as u64
        } else {
            PAGE_SIZE
        },
    }
}

/// Translate the byte range `[start, start + len)` of another address space
/// into the physically contiguous pieces it is made of. The range may cross
/// page boundaries and must never be assumed physically contiguous; `None`
/// exactly when some touched page has no valid mapping.
pub fn translated_byte_buffer(pt: &PageTable, start: u64, len: u64) -> (r: Option<
    Vec<BufferSegment>,
>)
    requires
        pt.wf(),
        start + len < VADDR_LIMIT,
    ensures
        len == 0 ==> (r matches Some(v) && v@.len() == 0),
        len > 0 ==> (r is Some <==> (forall|vpn: u64|
            spec_page_floor(start) <= vpn <= spec_page_floor((start + len - 1) as u64)
                ==> pt.is_mapped(vpn))),
        len > 0 ==> (r matches Some(v) ==> {
            &&& v@.len() == spec_page_floor((start + len - 1) as u64) - spec_page_floor(start) + 1
            &&& forall|i: int| 0 <= i < v@.len() ==> v@[i] == spec_segment(*pt, start, len, i)
        }),
{
    if len == 0 {
        let v: Vec<BufferSegment> = Vec::new();
        return Some(v);
    }
    let first = page_floor(start);
    let last = page_floor(start + len - 1);
    let count = last - first + 1;
    let mut v: Vec<BufferSegment> = Vec::new();
    let mut i: u64 = 0;
    while i < count
        invariant
            pt.wf(),
            len > 0,
            start + len < VADDR_LIMIT,
            first == spec_page_floor(start),
            last == spec_page_floor((start + len - 1) as u64),
            first <= last,
            count == last - first + 1,
            0 <= i <= count,
            v@.len() == i,
            forall|vpn: u64| first <= vpn < first + i ==> pt.is_mapped(vpn),
            forall|j: int| 0 <= j < i ==> v@[j] == spec_segment(*pt, start, len, j),
        decreases count - i,
    {
        let vpn = first + i;
        let e = match pt.translate(vpn) {
            Some(e) => e,
            None => {
                proof {
                    assert(first <= vpn <= last);
                    assert(!pt.is_mapped(vpn));
                }
                return None;
            },
        };
        if !e.is_valid() {
            proof {
                assert(first <= vpn <= last);
                assert(!pt.is_mapped(vpn));
            }
            return None;
        }
        let seg_start = if i == 0 {
            page_offset(start)
        } else {
            0
        };
        let seg_end = if vpn == last {
            page_offset(start + len - 1) + 1
        } else {
            PAGE_SIZE
        };
        v.push(BufferSegment { ppn: e.ppn(), start: seg_start, end: seg_end });
        i = i + 1;
    }
    Some(v)
}

/// Sum of the byte counts of a sequence of segments.
pub open spec fn spec_segments_len(s: Seq<BufferSegment>) -> int
    decreases s.len(),
{
    if s.len() == 0 {
        0
    } else {
        spec_segments_len(s.drop_last()) + (s.last().end - s.last().start)
    }
}

/// A buffer handed in from another address space: the physically contiguous
/// pieces a virtual byte range translates to.
pub struct UserBuffer {
    /// The pieces, in address order.
    pub buffers: Vec<BufferSegment>,
}

impl UserBuffer {
    /// Wrap a list of translated pieces.
    pub fn new(buffers: Vec<BufferSegment>) -> (r: UserBuffer)
        ensures
            r.buffers@ == buffers@,
    {
        UserBuffer { buffers }
    }

    /// Total byte count of the buffer.
    pub fn len(&self) -> (r: u64)
        requires
            forall|i: int|
                0 <= i < self.buffers@.len() ==> (#[trigger] self.buffers@[i]).start
                    <= self.buffers@[i].end <= PAGE_SIZE,
            self.buffers@.len() * PAGE_SIZE < u64::MAX,
        ensures
            r == spec_segments_len(self.buffers@),
    {
        let mut total: u64 = 0;
        let mut i: usize = 0;
        let n = self.buffers.len();
        while i < n
            invariant
                n == self.buffers@.len(),
                0 <= i <= n,
                forall|j: int|
                    0 <= j < n ==> (#[trigger] self.buffers@[j]).start <= self.buffers@[j].end
                        <= PAGE_SIZE,
                n * PAGE_SIZE < u64::MAX,
                total == spec_segments_len(self.buffers@.subrange(0, i as int)),
                total <= i * PAGE_SIZE,
            decreases n - i,
        {
            let seg = self.buffers[i];
            proof {
                assert(self.buffers@.subrange(0, i + 1 as int).drop_last() =~= self
                    .buffers@.subrange(0, i as int));
                assert(self.buffers@.subrange(0, i + 1 as int).last() == self.buffers@[i as int]);
                assert((i + 1) * PAGE_SIZE == i * PAGE_SIZE + PAGE_SIZE) by (nonlinear_arith);
                assert(i * PAGE_SIZE <= n * PAGE_SIZE) by (nonlinear_arith)
                    requires
                        0 <= i <= n,
                ;
            }
            total = total + (seg.end - seg.start);
            i = i + 1;
        }
        proof {
            assert(self.buffers@.subrange(0, n as int) =~= self.buffers@);
        }
        total
    }
}

/// The physical address a virtual address of another address space resolves
/// to; the page must be mapped.
pub fn get_phyical_address(pt: &PageTable, ptr: u64) -> (r: u64)
    requires
        pt.wf(),
        pt.is_mapped(spec_page_floor(ptr)),
    ensures
        r == pt.mapped_ppn(spec_page_floor(ptr)) * PAGE_SIZE + spec_page_offset(ptr),
{
    let vpn = page_floor(ptr);
    let e = match pt.translate(vpn) {
        Some(e) => e,
        None => {
            unreached()
        },
    };
    e.ppn() * PAGE_SIZE + page_offset(ptr)
}

/// A mapped page walks to exactly the entry that was installed for it:
/// the supplied frame and flags, with the valid bit set.
pub proof fn lemma_mapped_translate_exact(pt: PageTable, vpn: u64, ppn: u64, fl: u8)
    requires
        pt.wf(),
        pt.is_mapped(vpn),
        pt.mapped_ppn(vpn) == ppn,
        pt.mapped_flags(vpn) == fl,
    ensures
        pt.spec_translate(vpn) matches Some(e) && e.spec_is_valid() && e.spec_ppn() == ppn
            && e.spec_flags() == fl,
{
}

/// A page without a valid mapping walks to nothing, or to an entry whose
/// valid bit is clear: translation reports it as absent either way.
pub proof fn lemma_unmapped_translate_absent(pt: PageTable, vpn: u64)
    requires
        pt.wf(),
        !pt.is_mapped(vpn),
    ensures
        pt.spec_translate(vpn) matches Some(e) ==> !e.spec_is_valid(),
{
}

/// A node's worth of empty entries.
fn empty_node_entries() -> (r: Vec<PageTableEntry>)
    ensures
        r@.len() == 512,
        forall|k: int| 0 <= k < 512 ==> r@[k] == spec_empty_pte(),
{
    let mut v: Vec<PageTableEntry> = Vec::new();
    let mut i: usize = 0;
    while i < 512
        invariant
            0 <= i <= 512,
            v@.len() == i,
            forall|k: int| 0 <= k < i ==> v@[k] == spec_empty_pte(),
        decreases 512 - i,
    {
        v.push(PageTableEntry::empty());
        i = i + 1;
    }
    v
}

} // verus!
