//! Virtual and physical addresses, page numbers and the decomposition of a
//! virtual page number into the three radix-tree indices.
//!
//! Addresses and page numbers are plain `u64` values; a virtual page number
//! is never a physical one without an explicit translation step.
use vstd::prelude::*;
use crate::config::{PAGE_SIZE, VPN_LIMIT};

verus! {

/// The page containing this address: its virtual page number.
pub open spec fn spec_page_floor(va: u64) -> u64 {
    va / PAGE_SIZE
}

/// The first page at or above this address.
pub open spec fn spec_page_ceil(va: u64) -> u64 {
    ((va + (PAGE_SIZE - 1) as int) / PAGE_SIZE as int) as u64
}

/// Byte offset of an address inside its page.
pub open spec fn spec_page_offset(va: u64) -> u64 {
    va % PAGE_SIZE
}

/// Whether an address lies exactly on a page boundary.
pub open spec fn spec_is_aligned(va: u64) -> bool {
    va % PAGE_SIZE == 0
}

/// Radix-tree index of a virtual page number at the top level.
pub open spec fn spec_idx0(vpn: u64) -> u64 {
    (vpn >> 18) & 0x1ff
}

/// Radix-tree index of a virtual page number at the middle level.
pub open spec fn spec_idx1(vpn: u64) -> u64 {
    (vpn >> 9) & 0x1ff
}

/// Radix-tree index of a virtual page number at the leaf level.
pub open spec fn spec_idx2(vpn: u64) -> u64 {
    vpn & 0x1ff
}

/// The page containing this address.
pub fn page_floor(va: u64) -> (r: u64)
    ensures
        r == spec_page_floor(va),
{
    va / PAGE_SIZE
}

/// The first page at or above this address.
pub fn page_ceil(va: u64) -> (r: u64)
    requires
        va < u64::MAX - PAGE_SIZE,
    ensures
        r == spec_page_ceil(va),
{
    (va + (PAGE_SIZE - 1)) / PAGE_SIZE
}

/// Byte offset of an address inside its page.
pub fn page_offset(va: u64) -> (r: u64)
    ensures
        r == spec_page_offset(va),
{
    va % PAGE_SIZE
}

/// Whether an address lies exactly on a page boundary.
pub fn is_aligned(va: u64) -> (r: bool)
    ensures
        r == spec_is_aligned(va),
{
    va % PAGE_SIZE == 0
}

/// Top-level radix-tree index of a virtual page number.
pub fn idx0(vpn: u64) -> (r: u64)
    ensures
        r == spec_idx0(vpn),
{
    (vpn >> 18) & 0x1ff
}

/// Middle-level radix-tree index of a virtual page number.
pub fn idx1(vpn: u64) -> (r: u64)
    ensures
        r == spec_idx1(vpn),
{
    (vpn >> 9) & 0x1ff
}

/// Leaf-level radix-tree index of a virtual page number.
pub fn idx2(vpn: u64) -> (r: u64)
    ensures
        r == spec_idx2(vpn),
{
    vpn & 0x1ff
}

/// The three indices of a virtual page number are each below 512.
pub proof fn lemma_idx_bounds(vpn: u64)
    by (bit_vector)
    ensures
        spec_idx0(vpn) < 512,
        spec_idx1(vpn) < 512,
        spec_idx2(vpn) < 512,
{
}

/// Two in-range virtual page numbers with the same three indices are equal:
/// the radix-tree path determines the page.
pub proof fn lemma_idx_unique(a: u64, b: u64)
    by (bit_vector)
    requires
        a < VPN_LIMIT,
        b < VPN_LIMIT,
        spec_idx0(a) == spec_idx0(b),
        spec_idx1(a) == spec_idx1(b),
        spec_idx2(a) == spec_idx2(b),
    ensures
        a == b,
{
}

} // verus!
