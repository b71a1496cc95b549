use oskernel::frame_allocator::{frame_alloc, frame_dealloc, FrameTracker, StackFrameAllocator};
use oskernel::page_table::{PageTable, FLAG_R, FLAG_V, FLAG_W};
use oskernel::KernelError;

fn fresh_allocator() -> StackFrameAllocator {
    let mut fa = StackFrameAllocator::new();
    fa.init(0x1000, 0x2000);
    fa
}

#[test]
fn allocated_frames_are_distinct() {
    let mut fa = fresh_allocator();
    let mut seen: Vec<u64> = Vec::new();
    for _ in 0..32 {
        let ft = frame_alloc(&mut fa).unwrap();
        assert!(!seen.contains(&ft.ppn));
        seen.push(ft.ppn);
    }
}

#[test]
fn distinctness_holds_across_release_and_reuse() {
    let mut fa = fresh_allocator();
    let a = frame_alloc(&mut fa).unwrap();
    let b = frame_alloc(&mut fa).unwrap();
    let b_ppn = b.ppn;
    frame_dealloc(&mut fa, b).unwrap();
    let c = frame_alloc(&mut fa).unwrap();
    // most-recently-freed page is reused first, and never clashes with a
    // live handle
    assert_eq!(c.ppn, b_ppn);
    assert_ne!(c.ppn, a.ppn);
}

#[test]
fn releasing_unallocated_page_is_rejected() {
    let mut fa = fresh_allocator();
    let _a = frame_alloc(&mut fa).unwrap();
    // a page still in the never-allocated range
    let bogus = FrameTracker::new(0x1f00);
    assert_eq!(
        frame_dealloc(&mut fa, bogus),
        Err(KernelError::FrameNotAllocated)
    );
}

#[test]
fn releasing_twice_is_rejected() {
    let mut fa = fresh_allocator();
    let a = frame_alloc(&mut fa).unwrap();
    let ppn = a.ppn;
    frame_dealloc(&mut fa, a).unwrap();
    let again = FrameTracker::new(ppn);
    assert_eq!(
        frame_dealloc(&mut fa, again),
        Err(KernelError::FrameNotAllocated)
    );
}

#[test]
fn exhaustion_is_reported() {
    let mut fa = StackFrameAllocator::new();
    fa.init(0x10, 0x12);
    assert!(fa.allocate().is_some());
    assert!(fa.allocate().is_some());
    assert!(fa.allocate().is_none());
}

#[test]
fn map_then_translate_returns_mapped_entry() {
    let mut fa = fresh_allocator();
    let mut pt = PageTable::new(&mut fa).unwrap();
    let vpn = 0x42u64;
    let ppn = 0x1234u64;
    pt.map(vpn, ppn, FLAG_R | FLAG_W, &mut fa).unwrap();
    let e = pt.translate(vpn).unwrap();
    assert!(e.is_valid());
    assert_eq!(e.ppn(), ppn);
    assert_eq!(e.flags(), FLAG_R | FLAG_W | FLAG_V);
    assert!(e.readable());
    assert!(e.writable());
    assert!(!e.executable());
}

#[test]
fn unmap_then_translate_is_absent() {
    let mut fa = fresh_allocator();
    let mut pt = PageTable::new(&mut fa).unwrap();
    let vpn = 0x42u64;
    pt.map(vpn, 0x1234, FLAG_R, &mut fa).unwrap();
    pt.unmap(vpn).unwrap();
    match pt.translate(vpn) {
        None => {}
        Some(e) => assert!(!e.is_valid()),
    }
}

#[test]
fn double_map_is_rejected() {
    let mut fa = fresh_allocator();
    let mut pt = PageTable::new(&mut fa).unwrap();
    pt.map(7, 0x100, FLAG_R, &mut fa).unwrap();
    assert_eq!(
        pt.map(7, 0x200, FLAG_R, &mut fa),
        Err(KernelError::AlreadyMapped)
    );
    // the original mapping is untouched
    assert_eq!(pt.translate(7).unwrap().ppn(), 0x100);
}

#[test]
fn unmap_of_unmapped_page_is_rejected() {
    let mut fa = fresh_allocator();
    let mut pt = PageTable::new(&mut fa).unwrap();
    assert_eq!(pt.unmap(7), Err(KernelError::NotMapped));
    pt.map(7, 0x100, FLAG_R, &mut fa).unwrap();
    pt.unmap(7).unwrap();
    assert_eq!(pt.unmap(7), Err(KernelError::NotMapped));
}

#[test]
fn mappings_are_independent() {
    let mut fa = fresh_allocator();
    let mut pt = PageTable::new(&mut fa).unwrap();
    pt.map(1, 0x100, FLAG_R, &mut fa).unwrap();
    pt.map(2, 0x200, FLAG_W, &mut fa).unwrap();
    // the same leaf node, different slots
    pt.unmap(1).unwrap();
    let e = pt.translate(2).unwrap();
    assert!(e.is_valid());
    assert_eq!(e.ppn(), 0x200);
}

#[test]
fn token_carries_mode_tag_and_root() {
    let mut fa = fresh_allocator();
    let pt = PageTable::new(&mut fa).unwrap();
    let token = pt.token();
    assert_eq!(token >> 60, 8);
    assert_eq!(token & 0xFFF_FFFF_FFFF, pt.root_ppn);
}

#[test]
fn translate_va_combines_frame_and_offset() {
    let mut fa = fresh_allocator();
    let mut pt = PageTable::new(&mut fa).unwrap();
    pt.map(3, 0x500, FLAG_R, &mut fa).unwrap();
    let pa = pt.translate_va(3 * 4096 + 123).unwrap();
    assert_eq!(pa, 0x500 * 4096 + 123);
    assert!(pt.translate_va(9 * 4096).is_none());
}

#[test]
fn byte_buffer_splits_at_page_boundaries() {
    let mut fa = fresh_allocator();
    let mut pt = PageTable::new(&mut fa).unwrap();
    pt.map(10, 0x700, FLAG_R, &mut fa).unwrap();
    pt.map(11, 0x800, FLAG_R, &mut fa).unwrap();
    // a range straddling the boundary between pages 10 and 11
    let start = 10 * 4096 + 4000;
    let v = oskernel::page_table::translated_byte_buffer(&pt, start, 200).unwrap();
    assert_eq!(v.len(), 2);
    assert_eq!(v[0].ppn, 0x700);
    assert_eq!(v[0].start, 4000);
    assert_eq!(v[0].end, 4096);
    assert_eq!(v[1].ppn, 0x800);
    assert_eq!(v[1].start, 0);
    assert_eq!(v[1].end, 104);
    let buf = oskernel::page_table::UserBuffer::new(v);
    assert_eq!(buf.len(), 200);
}

#[test]
fn byte_buffer_requires_every_page_mapped() {
    let mut fa = fresh_allocator();
    let mut pt = PageTable::new(&mut fa).unwrap();
    pt.map(10, 0x700, FLAG_R, &mut fa).unwrap();
    let start = 10 * 4096 + 4000;
    assert!(oskernel::page_table::translated_byte_buffer(&pt, start, 200).is_none());
}

#[test]
fn get_phyical_address_resolves_offsets() {
    let mut fa = fresh_allocator();
    let mut pt = PageTable::new(&mut fa).unwrap();
    pt.map(5, 0x900, FLAG_R, &mut fa).unwrap();
    let pa = oskernel::page_table::get_phyical_address(&pt, 5 * 4096 + 77);
    assert_eq!(pa, 0x900 * 4096 + 77);
}
