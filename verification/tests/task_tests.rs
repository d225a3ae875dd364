use os_x86::heap::Heap;
use os_x86::syscall::{dispatch, SysEffect, SYS_EXIT, SYS_GETPID, SYS_SLEEP, SYS_WRITE, SYS_YIELD};
use os_x86::task::{Scheduler, BOOT_STACK_TOP, INITIAL_EFLAGS};

const BASE: u64 = 0x40_0000;

fn booted() -> (Heap, Scheduler) {
    let mut h = Heap::new();
    h.init_at(BASE);
    let mut s = Scheduler::new();
    let f = s.init(&mut h, 0x1111, 0x2222).unwrap();
    assert_eq!(f.entry, 0x1111);
    (h, s)
}

#[test]
fn init_registers_boot_task_and_idle() {
    let (_h, s) = booted();
    assert_eq!(s.count(), 2);
    assert_eq!(s.get(0), (0, 2));
    assert_eq!(s.get(1), (1, 1));
    assert_eq!(s.tasks[0].kstack_top, BOOT_STACK_TOP);
    assert_eq!(s.current_id(), 0);
}

#[test]
fn spawn_builds_the_initial_frame() {
    let (mut h, mut s) = booted();
    let f = s.spawn(&mut h, 0xAAAA, 0xBBBB).unwrap();
    // The idle stack took the first 8 KiB block; this one follows it.
    let stack = (BASE + 16 + 8192 + 16) as u32;
    assert_eq!(f.esp, stack + 8192 - 44);
    assert_eq!(f.entry, 0xAAAA);
    assert_eq!(f.exit_trampoline, 0xBBBB);
    assert_eq!(f.eflags, INITIAL_EFLAGS);
    assert_eq!(s.get(2), (2, 1));
}

#[test]
fn spawn_refuses_a_full_table() {
    let (mut h, mut s) = booted();
    for _ in 0..6 {
        assert!(s.spawn(&mut h, 1, 2).is_some());
    }
    assert_eq!(s.count(), 8);
    assert!(s.spawn(&mut h, 1, 2).is_none());
    assert_eq!(s.count(), 8);
}

#[test]
fn schedule_is_round_robin() {
    let (mut h, mut s) = booted();
    s.spawn(&mut h, 1, 2);
    let a = s.schedule().unwrap();
    assert_eq!((a.prev, a.next), (0, 1));
    let b = s.schedule().unwrap();
    assert_eq!((b.prev, b.next), (1, 2));
    let c = s.schedule().unwrap();
    assert_eq!((c.prev, c.next), (2, 0));
    assert_eq!(s.get(0), (0, 2));
    assert_eq!(s.get(2), (2, 1));
}

#[test]
fn sleep_blocks_until_woken() {
    let (_h, mut s) = booted();
    s.enable();
    let sw = s.sleep(100, 10).unwrap();
    assert_eq!(sw.next, 1);
    assert_eq!(s.get(0), (0, 3));
    assert_eq!(s.tasks[0].wake_tick, 15);
    s.wake_sleepers(14);
    assert_eq!(s.get(0), (0, 3));
    s.wake_sleepers(15);
    assert_eq!(s.get(0), (0, 1));
}

#[test]
fn short_sleeps_wake_on_the_next_tick_check() {
    let (_h, mut s) = booted();
    s.sleep(10, 7);
    assert_eq!(s.tasks[0].wake_tick, 7);
    s.wake_sleepers(7);
    assert!(s.tasks[0].state == os_x86::task::State::Ready);
}

#[test]
fn exit_needs_scheduling_enabled() {
    let (_h, mut s) = booted();
    assert!(s.exit_current().is_none());
    assert_eq!(s.get(0), (0, 2));
    s.enable();
    assert!(s.enabled());
    let sw = s.exit_current().unwrap();
    assert_eq!(sw.next, 1);
    assert_eq!(s.get(0), (0, 4));
}

#[test]
fn tick_hook_wakes_and_schedules_once_enabled() {
    let (_h, mut s) = booted();
    assert!(s.on_tick(5).is_none());
    s.enable();
    let sw = s.on_tick(5).unwrap();
    assert_eq!((sw.prev, sw.next), (0, 1));
}

#[test]
fn page_directory_goes_with_the_switch() {
    let (_h, mut s) = booted();
    s.schedule();
    s.set_current_page_dir(0x7000);
    let sw = s.schedule().unwrap();
    assert_eq!(sw.page_dir, 0);
    let back = s.schedule().unwrap();
    assert_eq!(back.page_dir, 0x7000);
}

#[test]
fn syscalls_dispatch() {
    let (_h, mut s) = booted();
    s.enable();
    let (r, e) = dispatch(&mut s, SYS_WRITE, 1, 0x8000, 12, 0);
    assert_eq!(r, 12);
    assert!(matches!(e, SysEffect::Write(0x8000, 12)));
    let (r, e) = dispatch(&mut s, SYS_GETPID, 0, 0, 0, 0);
    assert_eq!(r, 0);
    assert!(matches!(e, SysEffect::Nothing));
    let (r, e) = dispatch(&mut s, 99, 0, 0, 0, 0);
    assert_eq!(r, u32::MAX);
    assert!(matches!(e, SysEffect::Nothing));
    let (r, e) = dispatch(&mut s, SYS_YIELD, 0, 0, 0, 0);
    assert_eq!(r, 0);
    assert!(matches!(e, SysEffect::Yield(Some(_))));
    let (_, e) = dispatch(&mut s, SYS_SLEEP, 40, 0, 0, 100);
    assert!(matches!(e, SysEffect::Yield(Some(_))));
    assert_eq!(s.tasks[1].wake_tick, 102);
    let (r, e) = dispatch(&mut s, SYS_EXIT, 7, 0, 0, 0);
    assert_eq!(r, 0);
    match e {
        SysEffect::Exit(m, _) => assert_eq!(m, b"[exit code=7]\n".to_vec()),
        _ => panic!("expected exit"),
    }
}

#[test]
fn init_gives_the_idle_task_a_heap_stack() {
    let mut h = Heap::new();
    h.init_at(BASE);
    let mut s = Scheduler::new();
    let f = s.init(&mut h, 0x1111, 0x2222).unwrap();
    let idle = s.tasks[1];
    assert_eq!(idle.stack as u64, BASE + 16);
    assert_eq!(idle.kstack_top, idle.stack + 8192);
    assert_eq!(idle.esp, idle.kstack_top - 44);
    assert_eq!(f.esp, idle.esp);
    assert_eq!(f.eflags, INITIAL_EFLAGS);
    assert_eq!(f.exit_trampoline, 0x2222);
    assert_eq!(s.tasks[0].kstack_top, BOOT_STACK_TOP);
    assert_eq!(h.stats().1, 8192);
}
