use oskernel::frame_allocator::StackFrameAllocator;
use oskernel::memory_set::{MemorySet, ProgramImage, Segment, PERM_R, PERM_W, PERM_X};
use oskernel::task::{PidAllocator, TaskControlBlock, TaskStatus};
use oskernel::KernelError;

fn fresh_allocator() -> StackFrameAllocator {
    let mut fa = StackFrameAllocator::new();
    fa.init(0x1000, 0x9000);
    fa
}

fn small_image() -> ProgramImage {
    ProgramImage {
        segments: vec![Segment {
            start_va: 0x10000,
            end_va: 0x12000,
            perm: PERM_R | PERM_W | PERM_X,
        }],
        entry_point: 0x10000,
    }
}

#[test]
fn insert_rejects_overlap() {
    let mut fa = fresh_allocator();
    let mut ms = MemorySet::new_bare(&mut fa).unwrap();
    ms.insert_framed_area(0x4000, 0x8000, PERM_R | PERM_W, &mut fa)
        .unwrap();
    assert_eq!(
        ms.insert_framed_area(0x6000, 0xa000, PERM_R, &mut fa),
        Err(KernelError::RegionOverlap)
    );
}

#[test]
fn inserted_region_is_mapped_and_zeroed() {
    let mut fa = fresh_allocator();
    let mut ms = MemorySet::new_bare(&mut fa).unwrap();
    ms.insert_framed_area(0x4000, 0x6000, PERM_R | PERM_W, &mut fa)
        .unwrap();
    assert!(ms.translate(4).unwrap().is_valid());
    assert!(ms.translate(5).unwrap().is_valid());
    assert_eq!(ms.read_byte(0x4000), Some(0));
    assert_eq!(ms.read_byte(0x5fff), Some(0));
    assert_eq!(ms.read_byte(0x9000), None);
}

#[test]
fn bytes_round_trip_through_write_and_read() {
    let mut fa = fresh_allocator();
    let mut ms = MemorySet::new_bare(&mut fa).unwrap();
    ms.insert_framed_area(0x4000, 0x6000, PERM_R | PERM_W, &mut fa)
        .unwrap();
    ms.write_byte(0x4abc, 0x5a, &fa).unwrap();
    assert_eq!(ms.read_byte(0x4abc), Some(0x5a));
    assert_eq!(ms.read_byte(0x4abd), Some(0));
}

#[test]
fn removed_region_translates_to_absent() {
    let mut fa = fresh_allocator();
    let mut ms = MemorySet::new_bare(&mut fa).unwrap();
    ms.insert_framed_area(0x4000, 0x6000, PERM_R | PERM_W, &mut fa)
        .unwrap();
    ms.remove_framed_area(0x4000, 0x6000, &mut fa).unwrap();
    for vpn in 4..6u64 {
        match ms.translate(vpn) {
            None => {}
            Some(e) => assert!(!e.is_valid()),
        }
    }
    // removal must name the exact region
    ms.insert_framed_area(0x4000, 0x6000, PERM_R | PERM_W, &mut fa)
        .unwrap();
    assert_eq!(
        ms.remove_framed_area(0x4000, 0x5000, &mut fa),
        Err(KernelError::NoSuchRegion)
    );
}

#[test]
fn translated_str_walks_page_boundaries() {
    let mut fa = fresh_allocator();
    let mut ms = MemorySet::new_bare(&mut fa).unwrap();
    ms.insert_framed_area(0x4000, 0x6000, PERM_R | PERM_W, &mut fa)
        .unwrap();
    // "hey" straddling the boundary between the two pages
    let base = 0x4ffe;
    ms.write_byte(base, b'h', &fa).unwrap();
    ms.write_byte(base + 1, b'e', &fa).unwrap();
    ms.write_byte(base + 2, b'y', &fa).unwrap();
    let s = ms.translated_str(base).unwrap();
    assert_eq!(s, b"hey".to_vec());
    assert!(ms.translated_str(0x7000).is_none());
}

#[test]
fn new_task_has_default_scheduling_state() {
    let mut fa = fresh_allocator();
    let mut pa = PidAllocator::new();
    let image = small_image();
    let t = TaskControlBlock::new(&image, &mut fa, &mut pa).unwrap();
    assert_eq!(t.get_task_status(), TaskStatus::Ready);
    assert_eq!(t.inner.priority, 16);
    assert_eq!(t.inner.stride, 0);
    assert_eq!(t.inner.heap_bottom, t.inner.program_brk);
    assert_eq!(t.getpid(), t.pid);
    assert!(t.inner.parent.is_none());
}

#[test]
fn program_break_grows_and_shrinks() {
    let mut fa = fresh_allocator();
    let mut pa = PidAllocator::new();
    let image = small_image();
    let mut t = TaskControlBlock::new(&image, &mut fa, &mut pa).unwrap();
    let base = t.inner.program_brk;
    let old = t.change_program_brk(8192, &mut fa).unwrap();
    assert_eq!(old, base);
    assert_eq!(t.inner.program_brk, base + 8192);
    let old2 = t.change_program_brk(-4096, &mut fa).unwrap();
    assert_eq!(old2, base + 8192);
    assert_eq!(t.inner.program_brk, base + 4096);
}

#[test]
fn break_never_retreats_below_heap_bottom() {
    let mut fa = fresh_allocator();
    let mut pa = PidAllocator::new();
    let image = small_image();
    let mut t = TaskControlBlock::new(&image, &mut fa, &mut pa).unwrap();
    let base = t.inner.program_brk;
    t.change_program_brk(4096, &mut fa).unwrap();
    assert!(t.change_program_brk(-8192, &mut fa).is_none());
    // the break is unchanged after the failure
    assert_eq!(t.inner.program_brk, base + 4096);
}

#[test]
fn mmap_validates_alignment_port_and_overlap() {
    let mut fa = fresh_allocator();
    let mut pa = PidAllocator::new();
    let image = small_image();
    let mut t = TaskControlBlock::new(&image, &mut fa, &mut pa).unwrap();
    // misaligned start
    assert_eq!(t.alloc_memory(0x20001, 4096, 1, &mut fa), -1);
    // no permission bit at all
    assert_eq!(t.alloc_memory(0x20000, 4096, 0, &mut fa), -1);
    // a bit outside read/write/execute
    assert_eq!(t.alloc_memory(0x20000, 4096, 8, &mut fa), -1);
    assert_eq!(t.alloc_memory(0x20000, 4096, 0x17, &mut fa), -1);
    // a valid call
    assert_eq!(t.alloc_memory(0x20000, 8192, 3, &mut fa), 0);
    // overlapping an existing region
    assert_eq!(t.alloc_memory(0x21000, 4096, 3, &mut fa), -1);
}

#[test]
fn munmap_of_exact_range_unmaps_every_page() {
    let mut fa = fresh_allocator();
    let mut pa = PidAllocator::new();
    let image = small_image();
    let mut t = TaskControlBlock::new(&image, &mut fa, &mut pa).unwrap();
    assert_eq!(t.alloc_memory(0x20000, 8192, 3, &mut fa), 0);
    assert!(t.inner.memory_set.translate(0x20).unwrap().is_valid());
    assert_eq!(t.dealloc(0x20000, 8192, &mut fa), 0);
    for vpn in 0x20..0x22u64 {
        match t.inner.memory_set.translate(vpn) {
            None => {}
            Some(e) => assert!(!e.is_valid()),
        }
    }
    // a second unmap of the same range is rejected
    assert_eq!(t.dealloc(0x20000, 8192, &mut fa), -1);
    // misaligned bounds are rejected
    assert_eq!(t.dealloc(0x20001, 4096, &mut fa), -1);
}

#[test]
fn fork_copies_contents_and_is_independent() {
    let mut fa = fresh_allocator();
    let mut pa = PidAllocator::new();
    let image = small_image();
    let mut parent = TaskControlBlock::new(&image, &mut fa, &mut pa).unwrap();
    parent
        .inner
        .memory_set
        .write_byte(0x10010, 0xaa, &fa)
        .unwrap();
    let mut child = parent.fork(&mut fa, &mut pa).unwrap();
    // content-identical
    assert_eq!(child.inner.memory_set.read_byte(0x10010), Some(0xaa));
    assert_eq!(child.inner.parent, Some(parent.pid));
    assert_eq!(parent.inner.children, vec![child.pid]);
    assert_ne!(child.pid, parent.pid);
    // independently mutable: writing the child never affects the parent
    child
        .inner
        .memory_set
        .write_byte(0x10010, 0x55, &fa)
        .unwrap();
    assert_eq!(parent.inner.memory_set.read_byte(0x10010), Some(0xaa));
    assert_eq!(child.inner.memory_set.read_byte(0x10010), Some(0x55));
    // and the other way round
    parent
        .inner
        .memory_set
        .write_byte(0x10011, 0x77, &fa)
        .unwrap();
    assert_eq!(child.inner.memory_set.read_byte(0x10011), Some(0));
}

#[test]
fn exec_replaces_the_address_space() {
    let mut fa = fresh_allocator();
    let mut pa = PidAllocator::new();
    let image = small_image();
    let mut t = TaskControlBlock::new(&image, &mut fa, &mut pa).unwrap();
    let pid = t.pid;
    let old_token = t.get_user_token();
    t.inner
        .memory_set
        .write_byte(0x10010, 0xaa, &fa)
        .unwrap();
    let image2 = ProgramImage {
        segments: vec![Segment {
            start_va: 0x30000,
            end_va: 0x31000,
            perm: PERM_R | PERM_X,
        }],
        entry_point: 0x30000,
    };
    t.exec(&image2, &mut fa).unwrap();
    assert_eq!(t.pid, pid);
    assert_ne!(t.get_user_token(), old_token);
    // the old mappings are gone, the new segment is there
    assert_eq!(t.inner.memory_set.read_byte(0x10010), None);
    assert_eq!(t.inner.memory_set.read_byte(0x30010), Some(0));
}

#[test]
fn spawn_attaches_a_fresh_child() {
    let mut fa = fresh_allocator();
    let mut pa = PidAllocator::new();
    let image = small_image();
    let mut t = TaskControlBlock::new(&image, &mut fa, &mut pa).unwrap();
    let child = t.spawn(&image, &mut fa, &mut pa).unwrap();
    assert_eq!(child.inner.parent, Some(t.pid));
    assert_eq!(t.inner.children, vec![child.pid]);
    assert_eq!(child.get_task_status(), TaskStatus::Ready);
}

#[test]
fn syscall_accounting_counts_invocations() {
    let mut fa = fresh_allocator();
    let mut pa = PidAllocator::new();
    let image = small_image();
    let mut t = TaskControlBlock::new(&image, &mut fa, &mut pa).unwrap();
    t.add_task_syscall_times(124);
    t.add_task_syscall_times(124);
    t.add_task_syscall_times(93);
    let times = t.get_task_syscall_times();
    assert_eq!(times[124], 2);
    assert_eq!(times[93], 1);
    assert_eq!(times[0], 0);
}
