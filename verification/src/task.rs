//! Task table + round-robin scheduler for ring-0 kernel threads.
//!
//! The table holds up to `MAX_TASKS` tasks; slot 0 is the boot execution.
//! Scheduling decisions are made here; the caller performs the stack switch
//! (`switch_context`), loads the kernel stack into the TSS and the address
//! space into CR3 as the returned `Switch` says.
use vstd::prelude::*;
use crate::heap::Heap;
use crate::roundrobin::{after, pick_offset, pick_next, lemma_pick_offset, lemma_after_range, lemma_after_hits};

verus! {

pub const MAX_TASKS: usize = 8;
pub const STACK_SIZE: usize = 8192;
/// Timer interrupts per second.
pub const TIMER_HZ: u32 = 50;
/// Top of the boot stack.
pub const BOOT_STACK_TOP: u32 = 0x90000;
/// EFLAGS with the interrupt flag set.
pub const INITIAL_EFLAGS: u32 = 0x202;

#[derive(Clone, Copy, PartialEq, Eq, Structural)]
pub enum State {
    Unused,
    Ready,
    Running,
    /// Sleeping until `wake_tick`.
    Blocked,
    Finished,
}

#[derive(Clone, Copy, PartialEq, Eq, Structural)]
pub struct Task {
    /// Saved stack pointer (the switch frame lives here).
    pub esp: u32,
    /// Base of the allocated kernel stack.
    pub stack: u32,
    /// Top of the kernel stack.
    pub kstack_top: u32,
    /// Physical page directory; 0 = use the shared kernel space.
    pub page_dir: u32,
    pub id: u32,
    pub state: State,
    /// Timer tick at which a Blocked task becomes Ready.
    pub wake_tick: u32,
}

/// The task table.
pub struct Scheduler {
    pub tasks: Vec<Task>,
    pub current: usize,
    pub num_tasks: usize,
    pub next_id: u32,
    pub enabled: bool,
}

/// A context switch the caller carries out: save the running stack pointer
/// into `tasks[prev].esp`, load `kstack_top` into the TSS, switch to
/// `page_dir` (the kernel space when 0) and resume `tasks[next].esp`.
#[derive(Clone, Copy, PartialEq, Eq, Structural)]
pub struct Switch {
    pub prev: usize,
    pub next: usize,
    pub kstack_top: u32,
    pub page_dir: u32,
    pub new_esp: u32,
}

/// The initial frame a new task's stack holds, from the top down: the
/// return address into `exit_trampoline`, the entry point, the EFLAGS
/// value, then 8 zero registers; `esp` points at the lowest of them.
#[derive(Clone, Copy, PartialEq, Eq, Structural)]
pub struct SpawnFrame {
    pub esp: u32,
    pub exit_trampoline: u32,
    pub entry: u32,
    pub eflags: u32,
}

/// Tasks that the scheduler may run.
pub open spec fn runnable(s: State) -> bool {
    s == State::Ready || s == State::Running
}

/// Which slots the scheduler may run.
pub open spec fn runnable_flags(t: Seq<Task>) -> Seq<bool> {
    Seq::new(t.len(), |i: int| runnable(t[i].state))
}

/// Table after a switch from `prev` to `next`.
pub open spec fn switched(t: Seq<Task>, prev: int, next: int) -> Seq<Task> {
    let t1 = if t[prev].state == State::Running { t.update(prev, Task { state: State::Ready, ..t[prev] }) } else { t };
    t1.update(next, Task { state: State::Running, ..t1[next] })
}

/// The table after the sleepers due at `now` are woken.
pub open spec fn woken(t: Seq<Task>, num: int, now: u32) -> Seq<Task> {
    Seq::new(t.len(), |i: int| if i < num && t[i].state == State::Blocked && now >= t[i].wake_tick {
        Task { state: State::Ready, ..t[i] }
    } else {
        t[i]
    })
}

/// Table, current task and switch after one scheduling decision.
pub open spec fn schedule_spec(t: Seq<Task>, cur: int, num: int) -> (Seq<Task>, int, Option<Switch>) {
    if num < 2 {
        (t, cur, None)
    } else {
        match pick_next(runnable_flags(t), cur, num) {
            None => (t, cur, None),
            Some(n) => if n == cur {
                (t, cur, None)
            } else {
                (
                    switched(t, cur, n),
                    n,
                    Some(Switch { prev: cur as usize, next: n as usize, kstack_top: t[n].kstack_top, page_dir: t[n].page_dir, new_esp: t[n].esp }),
                )
            },
        }
    }
}

/// Tick at which a task sleeping `ms` milliseconds from `now` wakes.
pub open spec fn wake_at(now: u32, ms: u32) -> int {
    now + (ms * TIMER_HZ) / 1000
}


/// Law: while some task other than the current one can run (the idle task
/// always can), scheduling switches to another task.
pub proof fn lemma_schedule_switches(t: Seq<Task>, cur: int, num: int, other: int)
    requires
        2 <= num <= t.len(),
        0 <= cur < num,
        0 <= other < num,
        other != cur,
        runnable(t[other].state),
    ensures
        schedule_spec(t, cur, num).2 is Some,
        schedule_spec(t, cur, num).1 != cur,
{
    let r = runnable_flags(t);
    lemma_pick_offset(r, cur, num, 1);
    let m = lemma_after_hits(cur, other, num);
    let mm = pick_offset(r, cur, num, 1);
    if mm > m {
        assert(!r[after(cur, m, num)]);
    }
    assert(mm <= m);
    lemma_after_range(cur, mm, num);
}

/// Law: a context switch the scheduler decides resumes the task it picks:
/// the switch leaves the current task for a different runnable task, hands
/// over that task's saved stack pointer, kernel stack top and address space,
/// makes it current and marks it running.
pub proof fn lemma_switch_resumes_next(t: Seq<Task>, cur: int, num: int)
    requires
        0 <= cur < num <= t.len(),
        num <= usize::MAX,
    ensures
        schedule_spec(t, cur, num).2 matches Some(sw) ==> ({
            let n = sw.next as int;
            let (t2, c2, _) = schedule_spec(t, cur, num);
            &&& sw.prev == cur
            &&& 0 <= n < num
            &&& n != cur
            &&& runnable(t[n].state)
            &&& sw.new_esp == t[n].esp
            &&& sw.kstack_top == t[n].kstack_top
            &&& sw.page_dir == t[n].page_dir
            &&& c2 == n
            &&& t2[n].state == State::Running
            &&& t2[n].esp == t[n].esp
        }),
{
    if num >= 2 {
        let r = runnable_flags(t);
        crate::roundrobin::lemma_round_robin(r, cur, num);
        if let Some(n) = pick_next(r, cur, num) {
            assert(r[n] == runnable(t[n].state));
        }
    }
}

/// State code reported for a task: 0=Unused 1=Ready 2=Running 3=Blocked 4=Finished.
pub open spec fn state_code(s: State) -> u8 {
    match s {
        State::Unused => 0,
        State::Ready => 1,
        State::Running => 2,
        State::Blocked => 3,
        State::Finished => 4,
    }
}

/// The empty table slot.
pub open spec fn unused_task() -> Task {
    Task { esp: 0, stack: 0, kstack_top: 0, page_dir: 0, id: 0, state: State::Unused, wake_tick: 0 }
}

/// The empty table slot.
pub fn empty_task() -> (t: Task)
    ensures
        t == unused_task(),
{
    Task { esp: 0, stack: 0, kstack_top: 0, page_dir: 0, id: 0, state: State::Unused, wake_tick: 0 }
}

/// The boot execution as task 0: running on the boot stack.
pub open spec fn boot_task() -> Task {
    Task { esp: 0, stack: 0, kstack_top: BOOT_STACK_TOP, page_dir: 0, id: 0, state: State::Running, wake_tick: 0 }
}

/// Table, task count, next id, heap blocks and initial frame after spawning
/// a task at `entry`: nothing changes when the table is full; otherwise an
/// 8 KiB stack is taken from the heap (address 0 when that fails) and the new
/// task is appended, ready, with the next id.
pub open spec fn spawn_spec(
    t: Seq<Task>,
    num: usize,
    next_id: u32,
    base: u64,
    blocks: Seq<crate::heap::Block>,
    entry: u32,
    exit_trampoline: u32,
) -> (Seq<Task>, usize, u32, Seq<crate::heap::Block>, Option<SpawnFrame>) {
    if num >= MAX_TASKS {
        (t, num, next_id, blocks, None)
    } else {
        let a = crate::heap::alloc_spec(base, blocks, STACK_SIZE);
        let stack: u32 = match a.1 { Some(p) => p as u32, None => 0 };
        let esp = (stack + STACK_SIZE - 44) as u32;
        (
            t.update(num as int, Task {
                esp,
                stack,
                kstack_top: (stack + STACK_SIZE) as u32,
                page_dir: 0,
                id: next_id,
                state: State::Ready,
                wake_tick: 0,
            }),
            (num + 1) as usize,
            (next_id + 1) as u32,
            a.0,
            Some(SpawnFrame { esp, exit_trampoline, entry, eflags: INITIAL_EFLAGS }),
        )
    }
}

impl Scheduler {
    /// Table shape, running task is the current one, ids distinct and below
    /// `next_id`.
    pub open spec fn wf(&self) -> bool {
        &&& self.tasks@.len() == MAX_TASKS
        &&& self.num_tasks <= MAX_TASKS
        &&& self.current < MAX_TASKS
        &&& self.num_tasks > 0 ==> self.current < self.num_tasks
        &&& self.num_tasks == 0 ==> self.current == 0
        &&& self.next_id >= 1
        &&& forall|i: int| 0 <= i < self.num_tasks && #[trigger] self.tasks@[i].state == State::Running ==> i == self.current
        &&& forall|i: int| 0 <= i < self.num_tasks ==> #[trigger] self.tasks@[i].id < self.next_id
        &&& forall|i: int, j: int| 0 <= i < j < self.num_tasks ==> self.tasks@[i].id != self.tasks@[j].id
    }

    /// The table before `init`: every slot unused.
    pub fn new() -> (s: Scheduler)
        ensures
            s.wf(),
            s.num_tasks == 0,
            s.current == 0,
            s.next_id == 1,
            !s.enabled,
            forall|i: int| 0 <= i < MAX_TASKS ==> #[trigger] s.tasks@[i] == unused_task(),
    {
        let mut tasks: Vec<Task> = Vec::new();
        let mut i: usize = 0;
        while i < MAX_TASKS
            invariant
                i <= MAX_TASKS,
                tasks@.len() == i,
                forall|k: int| 0 <= k < i ==> #[trigger] tasks@[k] == unused_task(),
            decreases MAX_TASKS - i,
        {
            tasks.push(empty_task());
            i += 1;
        }
        Scheduler { tasks, current: 0, num_tasks: 0, next_id: 1, enabled: false }
    }

    /// Creates a kernel thread that begins executing `entry`; its stack comes
    /// from the heap (address 0 when the heap is exhausted, as a null
    /// pointer). Returns the initial frame the caller writes onto that stack,
    /// or `None` when the table is full.
    pub fn spawn(&mut self, heap: &mut Heap, entry: u32, exit_trampoline: u32) -> (r: Option<SpawnFrame>)
        requires
            old(self).wf(),
            old(heap).wf(),
            old(heap).base + crate::heap::HEAP_BYTES < 0x1_0000_0000,
            old(self).next_id < u32::MAX,
        ensures
            final(self).wf(),
            final(heap).wf(),
            final(heap).base == old(heap).base,
            (final(self).tasks@, final(self).num_tasks, final(self).next_id, final(heap).blocks@, r) == spawn_spec(
                old(self).tasks@, old(self).num_tasks, old(self).next_id, old(heap).base, old(heap).blocks@, entry, exit_trampoline),
            final(self).current == old(self).current,
            final(self).enabled == old(self).enabled,
    {
        if self.num_tasks >= MAX_TASKS {
            return None;
        }
        let p = heap.kmalloc(STACK_SIZE);
        let stack: u32 = match p {
            Some(a) => {
                proof {
                    let s = old(heap).blocks@;
                    let need = crate::heap::request_size(STACK_SIZE);
                    crate::heap::lemma_alloc_addr_bound(old(heap).base, s, STACK_SIZE);
                }
                a as u32
            },
            None => 0,
        };
        let top = stack + STACK_SIZE as u32;
        let sp = top - 44;
        let n = self.num_tasks;
        let t = Task { esp: sp, stack, kstack_top: top, page_dir: 0, id: self.next_id, state: State::Ready, wake_tick: 0 };
        self.tasks.set(n, t);
        self.next_id = self.next_id + 1;
        self.num_tasks = n + 1;
        Some(SpawnFrame { esp: sp, exit_trampoline, entry, eflags: INITIAL_EFLAGS })
    }

    /// Registers the running (boot) execution as task 0 and spawns the idle
    /// task, which runs `hlt` when nothing else is runnable.
    pub fn init(&mut self, heap: &mut Heap, idle_entry: u32, exit_trampoline: u32) -> (r: Option<SpawnFrame>)
        requires
            old(self).wf(),
            old(heap).wf(),
            old(heap).base + crate::heap::HEAP_BYTES < 0x1_0000_0000,
            old(self).next_id < u32::MAX,
        ensures
            final(self).wf(),
            final(heap).wf(),
            final(self).current == 0,
            final(self).num_tasks == 2,
            final(self).tasks@[0] == (Task { esp: 0, stack: 0, kstack_top: BOOT_STACK_TOP, page_dir: 0, id: 0, state: State::Running, wake_tick: 0 }),
            final(self).tasks@[1].state == State::Ready,
            final(self).tasks@[1].id == old(self).next_id,
            r is Some && r.unwrap().entry == idle_entry,
            final(self).enabled == old(self).enabled,
            final(heap).base == old(heap).base,
            (final(self).tasks@, final(self).num_tasks, final(self).next_id, final(heap).blocks@, r) == spawn_spec(
                old(self).tasks@.update(0, boot_task()), 1, old(self).next_id, old(heap).base, old(heap).blocks@,
                idle_entry, exit_trampoline),
    {
        self.tasks.set(0, Task { esp: 0, stack: 0, kstack_top: BOOT_STACK_TOP, page_dir: 0, id: 0, state: State::Running, wake_tick: 0 });
        self.num_tasks = 1;
        self.current = 0;
        self.spawn(heap, idle_entry, exit_trampoline)
    }

    /// Blocks the current task for `ms` milliseconds from tick `now` and
    /// yields; returns the switch to perform.
    pub fn sleep(&mut self, ms: u32, now: u32) -> (r: Option<Switch>)
        requires
            old(self).wf(),
            ms * TIMER_HZ <= u32::MAX,
            wake_at(now, ms) <= u32::MAX,
        ensures
            final(self).wf(),
            ({
                let c = old(self).current as int;
                let t = old(self).tasks@.update(c, Task { state: State::Blocked, wake_tick: wake_at(now, ms) as u32, ..old(self).tasks@[c] });
                (final(self).tasks@, final(self).current as int, r) == schedule_spec(t, c, old(self).num_tasks as int)
            }),
            final(self).num_tasks == old(self).num_tasks,
            final(self).next_id == old(self).next_id,
            final(self).enabled == old(self).enabled,
    {
        let delay = (ms * TIMER_HZ) / 1000;
        let c = self.current;
        let t = self.tasks[c];
        self.tasks.set(c, Task { state: State::Blocked, wake_tick: now + delay, ..t });
        self.schedule()
    }

    /// Terminates the current task and switches away. If scheduling is not
    /// running (or this is the only task), nothing happens.
    pub fn exit_current(&mut self) -> (r: Option<Switch>)
        requires
            old(self).wf(),
        ensures
            final(self).wf(),
            !old(self).enabled || old(self).num_tasks < 2 ==> r is None && final(self).tasks@ == old(self).tasks@
                && final(self).current == old(self).current,
            old(self).enabled && old(self).num_tasks >= 2 ==> ({
                let c = old(self).current as int;
                let t = old(self).tasks@.update(c, Task { state: State::Finished, ..old(self).tasks@[c] });
                (final(self).tasks@, final(self).current as int, r) == schedule_spec(t, c, old(self).num_tasks as int)
            }),
            final(self).num_tasks == old(self).num_tasks,
            final(self).next_id == old(self).next_id,
            final(self).enabled == old(self).enabled,
    {
        if !self.enabled || self.num_tasks < 2 {
            return None;
        }
        self.task_exit()
    }

    /// Where a thread lands when its function returns: marks it finished and
    /// yields (the caller keeps yielding for as long as it is resumed).
    pub fn task_exit(&mut self) -> (r: Option<Switch>)
        requires
            old(self).wf(),
        ensures
            final(self).wf(),
            ({
                let c = old(self).current as int;
                let t = old(self).tasks@.update(c, Task { state: State::Finished, ..old(self).tasks@[c] });
                (final(self).tasks@, final(self).current as int, r) == schedule_spec(t, c, old(self).num_tasks as int)
            }),
            final(self).num_tasks == old(self).num_tasks,
            final(self).next_id == old(self).next_id,
            final(self).enabled == old(self).enabled,
    {
        let c = self.current;
        let t = self.tasks[c];
        self.tasks.set(c, Task { state: State::Finished, ..t });
        self.schedule()
    }

    /// Binds the address space `dir` to the current task.
    pub fn set_current_page_dir(&mut self, dir: u32)
        requires
            old(self).wf(),
        ensures
            final(self).wf(),
            final(self).tasks@ == old(self).tasks@.update(old(self).current as int, Task { page_dir: dir, ..old(self).tasks@[old(self).current as int] }),
            final(self).current == old(self).current,
            final(self).num_tasks == old(self).num_tasks,
            final(self).next_id == old(self).next_id,
            final(self).enabled == old(self).enabled,
    {
        let c = self.current;
        let t = self.tasks[c];
        self.tasks.set(c, Task { page_dir: dir, ..t });
    }

    /// Number of tasks in the table.
    pub fn count(&self) -> (r: usize)
        ensures
            r == self.num_tasks,
    {
        self.num_tasks
    }

    /// Id of the currently running task.
    pub fn current_id(&self) -> (r: u32)
        requires
            self.wf(),
        ensures
            r == self.tasks@[self.current as int].id,
    {
        self.tasks[self.current].id
    }

    /// (id, state code) of task `i`.
    pub fn get(&self, i: usize) -> (r: (u32, u8))
        requires
            self.wf(),
            i < MAX_TASKS,
        ensures
            r == (self.tasks@[i as int].id, state_code(self.tasks@[i as int].state)),
    {
        let t = self.tasks[i];
        let code: u8 = match t.state {
            State::Unused => 0,
            State::Ready => 1,
            State::Running => 2,
            State::Blocked => 3,
            State::Finished => 4,
        };
        (t.id, code)
    }

    /// Begin preemptive scheduling (the timer interrupt calls `schedule`).
    pub fn enable(&mut self)
        ensures
            final(self).enabled,
            final(self).tasks@ == old(self).tasks@,
            final(self).current == old(self).current,
            final(self).num_tasks == old(self).num_tasks,
            final(self).next_id == old(self).next_id,
    {
        self.enabled = true;
    }

    /// Scheduling has been enabled.
    pub fn enabled(&self) -> (r: bool)
        ensures
            r == self.enabled,
    {
        self.enabled
    }

    /// Round-robin: picks the next Ready/Running task after the current one
    /// and makes it the running task; returns the switch to perform.
    pub fn schedule(&mut self) -> (r: Option<Switch>)
        requires
            old(self).wf(),
        ensures
            final(self).wf(),
            (final(self).tasks@, final(self).current as int, r) == schedule_spec(
                old(self).tasks@,
                old(self).current as int,
                old(self).num_tasks as int,
            ),
            final(self).num_tasks == old(self).num_tasks,
            final(self).next_id == old(self).next_id,
            final(self).enabled == old(self).enabled,
    {
        let num = self.num_tasks;
        if num < 2 {
            return None;
        }
        let prev = self.current;
        let mut next = prev;
        let mut found = false;
        let mut k: usize = 0;
        proof {
            vstd::arithmetic::div_mod::lemma_small_mod(prev as nat, num as nat);
        }
        while k < num
            invariant_except_break
                k <= num,
                next as int == (prev + k) % (num as int),
                !found,
                pick_offset(runnable_flags(self.tasks@), prev as int, num as int, 1) == pick_offset(runnable_flags(self.tasks@), prev as int, num as int, k + 1),
            invariant
                self.wf(),
                self.num_tasks == num,
                self.current == prev,
                self.tasks@ == old(self).tasks@,
                num >= 2,
                next < num,
            ensures
                found ==> pick_next(runnable_flags(self.tasks@), prev as int, num as int) == Some(next as int),
                !found ==> pick_next(runnable_flags(self.tasks@), prev as int, num as int) is None,
            decreases num - k,
        {
            next = (next + 1) % num;
            proof {
                assert(next as int == (prev + k + 1) % (num as int)) by (nonlinear_arith)
                    requires
                        next == (((prev + k) % (num as int)) + 1) % (num as int),
                        num >= 2,
                        prev >= 0,
                        k >= 0,
                ;
                reveal(after);
                assert(next as int == after(prev as int, k + 1, num as int));
            }
            let s = self.tasks[next].state;
            if s == State::Ready || s == State::Running {
                found = true;
                break;
            }
            k += 1;
        }
        if !found {
            return None;
        }
        if next == prev {
            return None;
        }
        let tp = self.tasks[prev];
        if tp.state == State::Running {
            self.tasks.set(prev, Task { state: State::Ready, ..tp });
        }
        let tn = self.tasks[next];
        self.tasks.set(next, Task { state: State::Running, ..tn });
        self.current = next;
        Some(Switch { prev, next, kstack_top: tn.kstack_top, page_dir: tn.page_dir, new_esp: tn.esp })
    }

    /// Wakes every Blocked task whose deadline has passed.
    pub fn wake_sleepers(&mut self, now: u32)
        requires
            old(self).wf(),
        ensures
            final(self).wf(),
            final(self).tasks@ == woken(old(self).tasks@, old(self).num_tasks as int, now),
            final(self).current == old(self).current,
            final(self).num_tasks == old(self).num_tasks,
            final(self).next_id == old(self).next_id,
            final(self).enabled == old(self).enabled,
    {
        let ghost t0 = self.tasks@;
        let mut i: usize = 0;
        while i < self.num_tasks
            invariant
                self.wf(),
                t0 == old(self).tasks@,
                t0.len() == MAX_TASKS,
                self.current == old(self).current,
                self.num_tasks == old(self).num_tasks,
                self.next_id == old(self).next_id,
                self.enabled == old(self).enabled,
                i <= self.num_tasks,
                self.tasks@.len() == MAX_TASKS,
                forall|k: int| 0 <= k < MAX_TASKS ==> #[trigger] self.tasks@[k] == (if k < i { woken(t0, self.num_tasks as int, now)[k] } else { t0[k] }),
            decreases self.num_tasks - i,
        {
            let t = self.tasks[i];
            let ghost before = self.tasks@;
            if t.state == State::Blocked && now >= t.wake_tick {
                self.tasks.set(i, Task { state: State::Ready, ..t });
            }
            proof {
                assert forall|k: int| 0 <= k < MAX_TASKS implies #[trigger] self.tasks@[k] == (if k < i + 1 {
                    woken(t0, self.num_tasks as int, now)[k]
                } else {
                    t0[k]
                }) by {
                    if k != i {
                        assert(self.tasks@[k] == before[k]);
                    } else {
                        assert(before[k] == t0[k]);
                        assert(t == t0[k]);
                        assert(k < self.num_tasks);
                    }
                }
            }
            i += 1;
        }
        proof {
            assert(self.tasks@ =~= woken(t0, self.num_tasks as int, now));
        }
    }

    /// The timer hook: once scheduling is enabled, wakes the sleepers whose
    /// tick has come and picks the next task.
    pub fn on_tick(&mut self, now: u32) -> (r: Option<Switch>)
        requires
            old(self).wf(),
        ensures
            final(self).wf(),
            !old(self).enabled ==> r is None && *final(self) == *old(self),
            old(self).enabled ==> (final(self).tasks@, final(self).current as int, r) == schedule_spec(
                woken(old(self).tasks@, old(self).num_tasks as int, now), old(self).current as int, old(self).num_tasks as int),
            final(self).num_tasks == old(self).num_tasks,
            final(self).next_id == old(self).next_id,
            final(self).enabled == old(self).enabled,
    {
        if !self.enabled {
            return None;
        }
        self.wake_sleepers(now);
        self.schedule()
    }
}

} // verus!
