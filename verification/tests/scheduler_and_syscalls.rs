use oskernel::config::{BIG_STRIDE, SYSCALL_GET_TIME, SYSCALL_MMAP, SYSCALL_SBRK, SYSCALL_YIELD};
use oskernel::frame_allocator::StackFrameAllocator;
use oskernel::kernel::Kernel;
use oskernel::manager::TaskManager;
use oskernel::memory_set::{ProgramImage, Segment, PERM_R, PERM_W, PERM_X};
use oskernel::syscall::{syscall, sys_exit, SyscallInfo, SyscallOutcome, TimeVal};
use oskernel::task::TaskStatus;

fn small_image() -> ProgramImage {
    ProgramImage {
        segments: vec![Segment {
            start_va: 0x10000,
            end_va: 0x11000,
            perm: PERM_R | PERM_W | PERM_X,
        }],
        entry_point: 0x10000,
    }
}

fn two_task_kernel() -> (Kernel, u64, u64) {
    let mut k = Kernel::new(0x1000, 0x9000);
    let image = small_image();
    let p1 = k.create_process(&image).unwrap();
    let p2 = k.create_process(&image).unwrap();
    (k, p1, p2)
}

#[test]
fn fifo_fetch_returns_arrival_order() {
    let mut m = TaskManager::new();
    m.add(3);
    m.add(1);
    m.add(2);
    assert_eq!(m.fetch(), Some(3));
    assert_eq!(m.fetch(), Some(1));
    assert_eq!(m.fetch(), Some(2));
    assert_eq!(m.fetch(), None);
}

#[test]
fn min_stride_task_is_selected_and_advanced() {
    let (mut k, p1, p2) = two_task_kernel();
    // give the tasks unequal strides by hand
    k.tasks[p1 as usize].as_mut().unwrap().inner.stride = 500;
    k.tasks[p2 as usize].as_mut().unwrap().inner.stride = 200;
    let picked = k.manager.fetch_min_stride_task(&mut k.tasks).unwrap();
    assert_eq!(picked, p2);
    // the stride advanced by exactly BIG_STRIDE / priority
    let t = k.tasks[p2 as usize].as_ref().unwrap();
    assert_eq!(t.inner.stride, 200 + BIG_STRIDE / 16);
}

#[test]
fn stride_ties_break_by_queue_order() {
    let (mut k, p1, _p2) = two_task_kernel();
    let picked = k.manager.fetch_min_stride_task(&mut k.tasks).unwrap();
    assert_eq!(picked, p1);
}

#[test]
fn dispatch_ratio_follows_priorities() {
    let (mut k, p1, p2) = two_task_kernel();
    k.tasks[p1 as usize].as_mut().unwrap().set_priority(30);
    k.tasks[p2 as usize].as_mut().unwrap().set_priority(15);
    let mut count1 = 0u64;
    let mut count2 = 0u64;
    let mut now = 0u64;
    k.run_first_task(now);
    for _ in 0..900 {
        now += 10;
        let cur = k.current.unwrap();
        if cur == p1 {
            count1 += 1;
        } else if cur == p2 {
            count2 += 1;
        }
        k.suspend_current_and_run_next(now);
    }
    // priority 30 : priority 15 should dispatch about 2 : 1
    assert!(count1 + count2 == 900);
    let ratio_low = 2 * count2 - count2 / 4;
    let ratio_high = 2 * count2 + count2 / 4;
    assert!(
        count1 >= ratio_low && count1 <= ratio_high,
        "dispatch counts {} vs {}",
        count1,
        count2
    );
}

#[test]
fn first_dispatch_time_is_recorded_once() {
    let (mut k, p1, _p2) = two_task_kernel();
    k.run_first_task(111);
    assert_eq!(k.current, Some(p1));
    assert_eq!(k.current_task_first_dispatched_time(), Some(111));
    k.suspend_current_and_run_next(222);
    k.suspend_current_and_run_next(333);
    let t1 = k.tasks[p1 as usize].as_ref().unwrap();
    assert_eq!(t1.inner.task_info.first_dispatched_time, 111);
}

#[test]
fn exit_makes_a_zombie_and_schedules_the_next() {
    let (mut k, p1, p2) = two_task_kernel();
    k.run_first_task(0);
    assert_eq!(k.current, Some(p1));
    sys_exit(&mut k, 42, 10);
    let t1 = k.tasks[p1 as usize].as_ref().unwrap();
    assert_eq!(t1.get_task_status(), TaskStatus::Zombie);
    assert!(t1.inner.is_zombie());
    assert_eq!(t1.inner.exit_code, 42);
    assert_eq!(k.current, Some(p2));
}

#[test]
fn reparenting_hands_children_to_a_surviving_ancestor() {
    let mut k = Kernel::new(0x1000, 0x9000);
    let image = small_image();
    let p1 = k.create_process(&image).unwrap();
    k.run_first_task(0);
    // p1 spawns a child through the table
    let child = {
        let (tasks, fa, pa) = (&mut k.tasks, &mut k.frame_allocator, &mut k.pid_allocator);
        let t1 = tasks[p1 as usize].as_mut().unwrap();
        t1.spawn(&image, fa, pa).unwrap()
    };
    let cpid = child.pid;
    assert_eq!(child.inner.parent, Some(p1));
    let grand = {
        let (tasks, fa, pa) = (&mut k.tasks, &mut k.frame_allocator, &mut k.pid_allocator);
        tasks.push(Some(child));
        let c = tasks[cpid as usize].as_mut().unwrap();
        c.spawn(&image, fa, pa).unwrap()
    };
    let gpid = grand.pid;
    k.tasks.push(Some(grand));
    // the child exits; its own child is handed to its parent
    k.current = Some(cpid);
    k.tasks[cpid as usize].as_mut().unwrap().inner.task_status = TaskStatus::Running;
    k.tasks[p1 as usize].as_mut().unwrap().inner.task_status = TaskStatus::Ready;
    k.exit_current_and_run_next(0, 50);
    assert_eq!(
        k.tasks[gpid as usize].as_ref().unwrap().inner.parent,
        Some(p1)
    );
}

#[test]
fn dispatcher_routes_yield_mmap_and_sbrk() {
    let (mut k, p1, _p2) = two_task_kernel();
    k.run_first_task(0);
    assert_eq!(
        syscall(&mut k, SYSCALL_YIELD, [0, 0, 0], 10),
        SyscallOutcome::Value(0)
    );
    // after one yield with two equal-priority tasks, the other one runs;
    // run back around to p1
    while k.current != Some(p1) {
        syscall(&mut k, SYSCALL_YIELD, [0, 0, 0], 10);
    }
    assert_eq!(
        syscall(&mut k, SYSCALL_MMAP, [0x40000, 4096, 3], 20),
        SyscallOutcome::Value(0)
    );
    assert_eq!(
        syscall(&mut k, SYSCALL_MMAP, [0x40001, 4096, 3], 20),
        SyscallOutcome::Value(-1)
    );
    let brk = match syscall(&mut k, SYSCALL_SBRK, [0, 0, 0], 30) {
        SyscallOutcome::Value(v) => v,
        SyscallOutcome::HandleAtEdge => unreachable!(),
    };
    assert!(brk > 0);
    let brk2 = match syscall(&mut k, SYSCALL_SBRK, [4096, 0, 0], 30) {
        SyscallOutcome::Value(v) => v,
        SyscallOutcome::HandleAtEdge => unreachable!(),
    };
    assert_eq!(brk, brk2);
    // the accounting recorded each invocation
    let times = k.current_task_syscall_times().unwrap();
    assert_eq!(times[SYSCALL_MMAP as usize], 2);
    assert_eq!(times[SYSCALL_SBRK as usize], 2);
}

#[test]
fn pointer_syscalls_are_accounted_and_handed_to_the_edge() {
    let (mut k, _p1, _p2) = two_task_kernel();
    k.run_first_task(0);
    assert_eq!(
        syscall(&mut k, SYSCALL_GET_TIME, [0x50000, 0, 0], 10),
        SyscallOutcome::HandleAtEdge
    );
    assert_eq!(
        syscall(&mut k, SYSCALL_GET_TIME, [0x50000, 0, 0], 20),
        SyscallOutcome::HandleAtEdge
    );
    let times = k.current_task_syscall_times().unwrap();
    assert_eq!(times[SYSCALL_GET_TIME as usize], 2);
}

#[test]
fn allocator_reuses_the_most_recent_release_first() {
    let mut fa = StackFrameAllocator::new();
    fa.init(0x100, 0x200);
    let a = fa.allocate().unwrap();
    let b = fa.allocate().unwrap();
    fa.dealloc(a).unwrap();
    fa.dealloc(b).unwrap();
    // most recently freed comes back first
    assert_eq!(fa.allocate(), Some(b));
    assert_eq!(fa.allocate(), Some(a));
    // and only then the never-yet-allocated range advances
    assert_eq!(fa.allocate(), Some(0x102));
}

#[test]
fn time_value_splits_microseconds() {
    let tv = TimeVal::from_us(3_400_567);
    assert_eq!(tv.sec, 3);
    assert_eq!(tv.usec, 400_567);
    let zero = TimeVal::from_us(0);
    assert_eq!(zero.sec, 0);
    assert_eq!(zero.usec, 0);
}

#[test]
fn syscall_names_are_reported() {
    assert_eq!(SyscallInfo::get_syscall_info(93), Some("exit"));
    assert_eq!(SyscallInfo::get_syscall_info(124), Some("yield"));
    assert_eq!(SyscallInfo::get_syscall_info(222), Some("mmap"));
    assert_eq!(SyscallInfo::get_syscall_info(999), None);
    let info = SyscallInfo::new(214);
    assert_eq!(info.syscall_id, 214);
    assert_eq!(info.syscall_name, "sbrk");
}

#[test]
fn create_process_fails_cleanly_on_exhaustion() {
    let mut k = Kernel::new(0x10, 0x14);
    let image = small_image();
    assert!(k.create_process(&image).is_err());
    assert_eq!(k.manager.ready_queue.len(), 0);
}
