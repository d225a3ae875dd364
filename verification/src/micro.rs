//! The microkernel's scheduler and its one real service: synchronous message
//! passing between tasks. `recv` blocks the caller until a message arrives;
//! `send` delivers one and wakes the receiver.
use vstd::prelude::*;
use crate::heap::Heap;
use crate::roundrobin::{after, pick_offset, pick_next, lemma_pick_offset};
use crate::task::{SpawnFrame, INITIAL_EFLAGS};
use crate::string::hex_str;
use crate::text::{ascii, push_str, push_hex};

verus! {

pub const MAX: usize = 4;
pub const STACK: usize = 8192;

#[derive(Clone, Copy, PartialEq, Eq, Structural)]
pub enum MicroState {
    Unused,
    Ready,
    Running,
    Blocked,
}

#[derive(Clone, Copy, PartialEq, Eq, Structural)]
pub struct MicroTask {
    pub esp: u32,
    pub state: MicroState,
}

/// The microkernel's task table.
pub struct MicroScheduler {
    pub tasks: Vec<MicroTask>,
    pub cur: usize,
    pub n: usize,
}

/// A context switch for the caller: save the stack pointer into
/// `tasks[prev].esp` and resume `new_esp`.
#[derive(Clone, Copy, PartialEq, Eq, Structural)]
pub struct MicroSwitch {
    pub prev: usize,
    pub next: usize,
    pub new_esp: u32,
}

pub open spec fn micro_runnable(s: MicroState) -> bool {
    s == MicroState::Ready || s == MicroState::Running
}

pub open spec fn micro_flags(t: Seq<MicroTask>) -> Seq<bool> {
    Seq::new(t.len(), |i: int| micro_runnable(t[i].state))
}

/// Table, current task and switch after one scheduling decision.
pub open spec fn micro_schedule_spec(t: Seq<MicroTask>, cur: int, n: int) -> (Seq<MicroTask>, int, Option<MicroSwitch>) {
    if n < 2 {
        (t, cur, None)
    } else {
        match pick_next(micro_flags(t), cur, n) {
            None => (t, cur, None),
            Some(k) => if k == cur {
                (t, cur, None)
            } else {
                let t1 = if t[cur].state == MicroState::Running {
                    t.update(cur, MicroTask { state: MicroState::Ready, ..t[cur] })
                } else {
                    t
                };
                (
                    t1.update(k, MicroTask { state: MicroState::Running, ..t1[k] }),
                    k,
                    Some(MicroSwitch { prev: cur as usize, next: k as usize, new_esp: t[k].esp }),
                )
            },
        }
    }
}

impl MicroScheduler {
    pub open spec fn wf(&self) -> bool {
        &&& self.tasks@.len() == MAX
        &&& self.n <= MAX
        &&& self.cur < MAX
        &&& self.n > 0 ==> self.cur < self.n
        &&& self.n == 0 ==> self.cur == 0
        &&& forall|i: int| 0 <= i < self.n && #[trigger] self.tasks@[i].state == MicroState::Running ==> i == self.cur
    }

    /// The empty table.
    pub fn new() -> (s: MicroScheduler)
        ensures
            s.wf(),
            s.n == 0,
            forall|i: int| 0 <= i < MAX ==> #[trigger] s.tasks@[i] == (MicroTask { esp: 0, state: MicroState::Unused }),
    {
        let mut tasks: Vec<MicroTask> = Vec::new();
        let mut i: usize = 0;
        while i < MAX
            invariant
                i <= MAX,
                tasks@.len() == i,
                forall|k: int| 0 <= k < i ==> #[trigger] tasks@[k] == (MicroTask { esp: 0, state: MicroState::Unused }),
            decreases MAX - i,
        {
            tasks.push(MicroTask { esp: 0, state: MicroState::Unused });
            i += 1;
        }
        MicroScheduler { tasks, cur: 0, n: 0 }
    }

    /// Registers the running execution as task 0.
    pub fn init(&mut self)
        requires
            old(self).wf(),
        ensures
            final(self).wf(),
            final(self).n == 1,
            final(self).cur == 0,
            final(self).tasks@ == old(self).tasks@.update(0, MicroTask { esp: 0, state: MicroState::Running }),
    {
        self.tasks.set(0, MicroTask { esp: 0, state: MicroState::Running });
        self.n = 1;
        self.cur = 0;
    }

    /// Adds a task that starts at `entry` on a heap-allocated stack (address
    /// 0 when the heap is exhausted); returns its slot and the initial frame
    /// the caller writes onto the stack.
    pub fn spawn(&mut self, heap: &mut Heap, entry: u32, exit_trampoline: u32) -> (r: (usize, SpawnFrame))
        requires
            old(self).wf(),
            old(self).n < MAX,
            old(heap).wf(),
            old(heap).base + crate::heap::HEAP_BYTES < 0x1_0000_0000,
        ensures
            final(self).wf(),
            final(heap).wf(),
            final(heap).base == old(heap).base,
            ({
                let a = crate::heap::alloc_spec(old(heap).base, old(heap).blocks@, STACK);
                let stack: u32 = match a.1 { Some(p) => p as u32, None => 0 };
                &&& final(heap).blocks@ == a.0
                &&& r.0 == old(self).n
                &&& r.1 == (SpawnFrame { esp: (stack + STACK - 44) as u32, exit_trampoline, entry, eflags: INITIAL_EFLAGS })
                &&& final(self).tasks@ == old(self).tasks@.update(old(self).n as int, MicroTask {
                    esp: (stack + STACK - 44) as u32,
                    state: MicroState::Ready,
                })
            }),
            final(self).n == old(self).n + 1,
            final(self).cur == old(self).cur,
    {
        let p = heap.kmalloc(STACK);
        let stack: u32 = match p {
            Some(a) => {
                proof {
                    crate::heap::lemma_alloc_addr_bound(old(heap).base, old(heap).blocks@, STACK);
                }
                a as u32
            },
            None => 0,
        };
        let sp = stack + STACK as u32 - 44;
        let slot = self.n;
        self.tasks.set(slot, MicroTask { esp: sp, state: MicroState::Ready });
        self.n = slot + 1;
        (slot, SpawnFrame { esp: sp, exit_trampoline, entry, eflags: INITIAL_EFLAGS })
    }

    /// Index of the running task.
    pub fn current(&self) -> (r: usize)
        ensures
            r == self.cur,
    {
        self.cur
    }

    /// Makes a blocked task `i` ready again.
    pub fn unblock(&mut self, i: usize)
        requires
            old(self).wf(),
            i < MAX,
        ensures
            final(self).wf(),
            old(self).tasks@[i as int].state == MicroState::Blocked ==> final(self).tasks@ == old(self).tasks@.update(
                i as int,
                MicroTask { state: MicroState::Ready, ..old(self).tasks@[i as int] },
            ),
            old(self).tasks@[i as int].state != MicroState::Blocked ==> final(self).tasks@ == old(self).tasks@,
            final(self).cur == old(self).cur,
            final(self).n == old(self).n,
    {
        let t = self.tasks[i];
        if t.state == MicroState::Blocked {
            self.tasks.set(i, MicroTask { state: MicroState::Ready, ..t });
        }
    }

    /// Round-robin: picks the next Ready/Running task after the current one.
    pub fn schedule(&mut self) -> (r: Option<MicroSwitch>)
        requires
            old(self).wf(),
        ensures
            final(self).wf(),
            (final(self).tasks@, final(self).cur as int, r) == micro_schedule_spec(old(self).tasks@, old(self).cur as int, old(self).n as int),
            final(self).n == old(self).n,
    {
        let num = self.n;
        if num < 2 {
            return None;
        }
        let prev = self.cur;
        let mut next = prev;
        let mut found = false;
        let mut k: usize = 0;
        proof {
            vstd::arithmetic::div_mod::lemma_small_mod(prev as nat, num as nat);
        }
        while k < num
            invariant_except_break
                k <= num,
                next as int == (prev + k) % (num as int),
                !found,
                pick_offset(micro_flags(self.tasks@), prev as int, num as int, 1) == pick_offset(micro_flags(self.tasks@), prev as int, num as int, k + 1),
            invariant
                self.wf(),
                self.n == num,
                self.cur == prev,
                self.tasks@ == old(self).tasks@,
                num >= 2,
                next < num,
            ensures
                found ==> pick_next(micro_flags(self.tasks@), prev as int, num as int) == Some(next as int),
                !found ==> pick_next(micro_flags(self.tasks@), prev as int, num as int) is None,
            decreases num - k,
        {
            next = (next + 1) % num;
            proof {
                assert(next as int == (prev + k + 1) % (num as int)) by (nonlinear_arith)
                    requires
                        next == (((prev + k) % (num as int)) + 1) % (num as int),
                        num >= 2,
                        prev >= 0,
                        k >= 0,
                ;
                reveal(after);
                assert(next as int == after(prev as int, k + 1, num as int));
            }
            let s = self.tasks[next].state;
            if s == MicroState::Ready || s == MicroState::Running {
                found = true;
                break;
            }
            k += 1;
        }
        if !found || next == prev {
            return None;
        }
        let tp = self.tasks[prev];
        if tp.state == MicroState::Running {
            self.tasks.set(prev, MicroTask { state: MicroState::Ready, ..tp });
        }
        let tn = self.tasks[next];
        self.tasks.set(next, MicroTask { state: MicroState::Running, ..tn });
        self.cur = next;
        Some(MicroSwitch { prev, next, new_esp: tn.esp })
    }

    /// Blocks the running task and yields.
    pub fn block_current(&mut self) -> (r: Option<MicroSwitch>)
        requires
            old(self).wf(),
        ensures
            final(self).wf(),
            (final(self).tasks@, final(self).cur as int, r) == micro_schedule_spec(
                old(self).tasks@.update(old(self).cur as int, MicroTask { state: MicroState::Blocked, ..old(self).tasks@[old(self).cur as int] }),
                old(self).cur as int,
                old(self).n as int,
            ),
            final(self).n == old(self).n,
    {
        let c = self.cur;
        let t = self.tasks[c];
        self.tasks.set(c, MicroTask { state: MicroState::Blocked, ..t });
        self.schedule()
    }

    /// Where a task lands when its function returns: its slot becomes unused
    /// and the scheduler moves on.
    pub fn task_exit(&mut self) -> (r: Option<MicroSwitch>)
        requires
            old(self).wf(),
        ensures
            final(self).wf(),
            (final(self).tasks@, final(self).cur as int, r) == micro_schedule_spec(
                old(self).tasks@.update(old(self).cur as int, MicroTask { state: MicroState::Unused, ..old(self).tasks@[old(self).cur as int] }),
                old(self).cur as int,
                old(self).n as int,
            ),
            final(self).n == old(self).n,
    {
        let c = self.cur;
        let t = self.tasks[c];
        self.tasks.set(c, MicroTask { state: MicroState::Unused, ..t });
        self.schedule()
    }
}

/// One mailbox per task: the last message sent to it, its sender, and
/// whether it is waiting to be received.
pub struct Mailboxes {
    pub msg: Vec<u32>,
    pub src: Vec<usize>,
    pub full: Vec<bool>,
}

/// What a receive attempt did: took the waiting message `(sender, value)`,
/// or found none and blocked the caller (with the switch to perform).
#[derive(PartialEq, Eq, Structural)]
pub enum RecvStep {
    Got(usize, u32),
    Blocked(Option<MicroSwitch>),
}

/// Mailbox contents after the running task `me` sends `val` to `dst`.
pub open spec fn send_spec(msg: Seq<u32>, src: Seq<usize>, full: Seq<bool>, me: usize, dst: int, val: u32) -> (Seq<u32>, Seq<usize>, Seq<bool>) {
    (msg.update(dst, val), src.update(dst, me), full.update(dst, true))
}

impl Mailboxes {
    pub open spec fn wf(&self) -> bool {
        &&& self.msg@.len() == MAX
        &&& self.src@.len() == MAX
        &&& self.full@.len() == MAX
    }

    /// All mailboxes empty.
    pub fn new() -> (m: Mailboxes)
        ensures
            m.wf(),
            forall|i: int| 0 <= i < MAX ==> !(#[trigger] m.full@[i]) && m.msg@[i] == 0 && m.src@[i] == 0,
    {
        let mut msg: Vec<u32> = Vec::new();
        let mut src: Vec<usize> = Vec::new();
        let mut full: Vec<bool> = Vec::new();
        let mut i: usize = 0;
        while i < MAX
            invariant
                i <= MAX,
                msg@.len() == i,
                src@.len() == i,
                full@.len() == i,
                forall|k: int| 0 <= k < i ==> !(#[trigger] full@[k]) && msg@[k] == 0 && src@[k] == 0,
            decreases MAX - i,
        {
            msg.push(0);
            src.push(0);
            full.push(false);
            i += 1;
        }
        Mailboxes { msg, src, full }
    }

    /// Sends `val` from the running task to task `dst` and wakes `dst` if it
    /// was blocked waiting.
    pub fn send(&mut self, sched: &mut MicroScheduler, dst: usize, val: u32)
        requires
            old(self).wf(),
            old(sched).wf(),
            dst < MAX,
        ensures
            final(self).wf(),
            (final(self).msg@, final(self).src@, final(self).full@) == send_spec(
                old(self).msg@, old(self).src@, old(self).full@, old(sched).cur, dst as int, val),
            final(sched).wf(),
            old(sched).tasks@[dst as int].state == MicroState::Blocked ==> final(sched).tasks@ == old(sched).tasks@.update(
                dst as int,
                MicroTask { state: MicroState::Ready, ..old(sched).tasks@[dst as int] },
            ),
            old(sched).tasks@[dst as int].state != MicroState::Blocked ==> final(sched).tasks@ == old(sched).tasks@,
            final(sched).cur == old(sched).cur,
            final(sched).n == old(sched).n,
    {
        let me = sched.current();
        self.msg.set(dst, val);
        self.src.set(dst, me);
        self.full.set(dst, true);
        sched.unblock(dst);
    }

    /// One attempt by the running task to receive: takes its waiting message
    /// if there is one, otherwise blocks it and yields. The caller repeats
    /// after the switch until a message is taken.
    pub fn recv_step(&mut self, sched: &mut MicroScheduler) -> (r: RecvStep)
        requires
            old(self).wf(),
            old(sched).wf(),
        ensures
            final(self).wf(),
            final(sched).wf(),
            final(sched).n == old(sched).n,
            ({
                let me = old(sched).cur as int;
                if old(self).full@[me] {
                    &&& r == RecvStep::Got(old(self).src@[me], old(self).msg@[me])
                    &&& final(self).full@ == old(self).full@.update(me, false)
                    &&& final(self).msg@ == old(self).msg@
                    &&& final(self).src@ == old(self).src@
                    &&& final(sched).tasks@ == old(sched).tasks@
                    &&& final(sched).cur == old(sched).cur
                } else {
                    &&& r matches RecvStep::Blocked(sw)
                    &&& (final(sched).tasks@, final(sched).cur as int, sw) == micro_schedule_spec(
                        old(sched).tasks@.update(me, MicroTask { state: MicroState::Blocked, ..old(sched).tasks@[me] }),
                        me,
                        old(sched).n as int,
                    )
                    &&& final(self).msg@ == old(self).msg@
                    &&& final(self).src@ == old(self).src@
                    &&& final(self).full@ == old(self).full@
                }
            }),
    {
        let me = sched.current();
        if self.full[me] {
            self.full.set(me, false);
            RecvStep::Got(self.src[me], self.msg[me])
        } else {
            let sw = sched.block_current();
            RecvStep::Blocked(sw)
        }
    }
}

/// A message is received exactly as it was sent: after the running task `me`
/// sends `val` to `dst`, the next receive by `dst` takes `(me, val)` and
/// empties the mailbox again.
pub proof fn lemma_send_then_recv(msg: Seq<u32>, src: Seq<usize>, full: Seq<bool>, me: usize, dst: int, val: u32)
    requires
        msg.len() == MAX,
        src.len() == MAX,
        full.len() == MAX,
        0 <= dst < MAX,
    ensures
        ({
            let (m1, s1, f1) = send_spec(msg, src, full, me, dst, val);
            &&& f1[dst]
            &&& s1[dst] == me
            &&& m1[dst] == val
            &&& f1.update(dst, false) == full.update(dst, false)
            &&& forall|i: int| 0 <= i < MAX && i != dst ==> #[trigger] f1[i] == full[i] && m1[i] == msg[i] && s1[i] == src[i]
        }),
{
    let (m1, s1, f1) = send_spec(msg, src, full, me, dst, val);
    assert(f1.update(dst, false) =~= full.update(dst, false));
}

/// Task index of the echo server.
pub const SERVER: usize = 1;
/// Requests the client sends.
pub const CLIENT_REQUESTS: u32 = 3;

/// The `i`-th request of the client: 0xAB00 + i.
pub fn client_request(i: u32) -> (r: u32)
    requires
        i < CLIENT_REQUESTS,
    ensures
        r == 0xAB00 + i,
{
    0xAB00 + i
}

/// The line the client prints for a reply.
pub open spec fn reply_line(reply: u32) -> Seq<u8> {
    ascii("client: echo reply = "@) + seq![48u8, 120u8] + hex_str(reply) + seq![10u8]
}

/// The line the client prints for `reply`.
pub fn echo_reply_text(reply: u32) -> (r: Vec<u8>)
    ensures
        r@ == reply_line(reply),
{
    let mut out: Vec<u8> = Vec::new();
    proof {
        reveal_strlit("client: echo reply = ");
    }
    push_str(&mut out, "client: echo reply = ");
    push_hex(&mut out, reply);
    out.push(10);
    out
}

} // verus!
