use os_x86::heap::Heap;
use os_x86::micro::{client_request, echo_reply_text, Mailboxes, MicroScheduler, MicroState, RecvStep, SERVER};

fn two_tasks() -> (Heap, MicroScheduler) {
    let mut h = Heap::new();
    h.init_at(0x40_0000);
    let mut s = MicroScheduler::new();
    s.init();
    s.spawn(&mut h, 0x100, 0x200);
    s.spawn(&mut h, 0x300, 0x200);
    (h, s)
}

#[test]
fn spawn_numbers_tasks_in_order() {
    let (mut h, mut s) = two_tasks();
    assert_eq!(s.n, 3);
    let (slot, f) = s.spawn(&mut h, 0x400, 0x200);
    assert_eq!(slot, 3);
    assert_eq!(f.entry, 0x400);
}

#[test]
fn message_arrives_as_sent() {
    let (_h, mut s) = two_tasks();
    let mut mb = Mailboxes::new();
    mb.send(&mut s, SERVER, 0xAB00);
    let sw = s.schedule().unwrap();
    assert_eq!(sw.next, 1);
    assert_eq!(s.current(), 1);
    assert!(matches!(mb.recv_step(&mut s), RecvStep::Got(0, 0xAB00)));
    // The mailbox is empty again: the next receive blocks.
    match mb.recv_step(&mut s) {
        RecvStep::Blocked(Some(sw)) => assert_eq!(sw.next, 2),
        _ => panic!("expected to block"),
    }
    assert!(s.tasks[1].state == MicroState::Blocked);
}

#[test]
fn send_wakes_a_blocked_receiver() {
    let (_h, mut s) = two_tasks();
    let mut mb = Mailboxes::new();
    assert!(matches!(mb.recv_step(&mut s), RecvStep::Blocked(Some(_))));
    assert!(s.tasks[0].state == MicroState::Blocked);
    mb.send(&mut s, 0, 5);
    assert!(s.tasks[0].state == MicroState::Ready);
}

#[test]
fn scheduler_skips_blocked_and_unused() {
    let (_h, mut s) = two_tasks();
    s.unblock(3);
    s.block_current();
    assert_eq!(s.current(), 1);
    s.task_exit();
    assert_eq!(s.current(), 2);
    assert!(s.schedule().is_none());
}

#[test]
fn client_requests_and_reply_line() {
    assert_eq!(client_request(2), 0xAB02);
    assert_eq!(echo_reply_text(0xAB01), b"client: echo reply = 0xab01\n".to_vec());
}
