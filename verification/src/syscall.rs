//! System calls: the gateway from ring 3 into the kernel. A program puts the
//! call number in EAX and arguments in EBX/ECX/EDX and executes `int 0x80`;
//! the result goes back in EAX.
use vstd::prelude::*;
use crate::string::dec_str;
use crate::task::{Scheduler, Switch, Task, State, schedule_spec, wake_at, TIMER_HZ};
use crate::text::{ascii, push_str, push_dec};

verus! {

pub const SYS_WRITE: u32 = 1;
pub const SYS_EXIT: u32 = 2;
pub const SYS_GETPID: u32 = 3;
pub const SYS_YIELD: u32 = 4;
pub const SYS_SLEEP: u32 = 5;

/// What the caller carries out after a system call.
pub enum SysEffect {
    Nothing,
    /// Send `len` bytes from user address `buf` to the serial console.
    Write(u32, u32),
    /// Print the exit report, then perform the switch (if any).
    Exit(Vec<u8>, Option<Switch>),
    /// Perform the switch (if any).
    Yield(Option<Switch>),
}

/// The report `exit(code)` prints.
pub open spec fn exit_text(code: u32) -> Seq<u8> {
    ascii("[exit code="@) + dec_str((code as i32) as int) + ascii("]\n"@)
}

/// Runs system call `num` with arguments `a1`, `a2`, `a3` for the current
/// task at tick `now`; returns the value for EAX (`u32::MAX` for an unknown
/// call) and what to carry out.
pub fn dispatch(sched: &mut Scheduler, num: u32, a1: u32, a2: u32, a3: u32, now: u32) -> (r: (u32, SysEffect))
    requires
        old(sched).wf(),
        num == SYS_EXIT ==> a1 != 0x8000_0000,
        num == SYS_SLEEP ==> a1 * TIMER_HZ <= u32::MAX && wake_at(now, a1) <= u32::MAX,
    ensures
        final(sched).wf(),
        final(sched).num_tasks == old(sched).num_tasks,
        final(sched).next_id == old(sched).next_id,
        final(sched).enabled == old(sched).enabled,
        num == SYS_WRITE ==> r.0 == a3 && (r.1 matches SysEffect::Write(b, l) && b == a2 && l == a3)
            && *final(sched) == *old(sched),
        num == SYS_EXIT ==> r.0 == 0 && (r.1 matches SysEffect::Exit(m, sw) && m@ == exit_text(a1) && ({
            let c = old(sched).current as int;
            if !old(sched).enabled || old(sched).num_tasks < 2 {
                sw is None && final(sched).tasks@ == old(sched).tasks@ && final(sched).current == old(sched).current
            } else {
                let t = old(sched).tasks@.update(c, Task { state: State::Finished, ..old(sched).tasks@[c] });
                (final(sched).tasks@, final(sched).current as int, sw) == schedule_spec(t, c, old(sched).num_tasks as int)
            }
        })),
        num == SYS_GETPID ==> r.0 == old(sched).tasks@[old(sched).current as int].id && r.1 is Nothing
            && *final(sched) == *old(sched),
        num == SYS_YIELD ==> r.0 == 0 && (r.1 matches SysEffect::Yield(sw)
            && (final(sched).tasks@, final(sched).current as int, sw) == schedule_spec(
                old(sched).tasks@, old(sched).current as int, old(sched).num_tasks as int)),
        num == SYS_SLEEP ==> r.0 == 0 && (r.1 matches SysEffect::Yield(sw) && ({
            let c = old(sched).current as int;
            let t = old(sched).tasks@.update(c, Task { state: State::Blocked, wake_tick: wake_at(now, a1) as u32, ..old(sched).tasks@[c] });
            (final(sched).tasks@, final(sched).current as int, sw) == schedule_spec(t, c, old(sched).num_tasks as int)
        })),
        !(SYS_WRITE <= num <= SYS_SLEEP) ==> r.0 == u32::MAX && r.1 is Nothing && *final(sched) == *old(sched),
{
    if num == SYS_WRITE {
        (a3, SysEffect::Write(a2, a3))
    } else if num == SYS_EXIT {
        let mut m: Vec<u8> = Vec::new();
        proof {
            reveal_strlit("[exit code=");
            reveal_strlit("]\n");
        }
        push_str(&mut m, "[exit code=");
        let code = a1 as i32;
        assert(code != i32::MIN) by (bit_vector)
            requires
                code == a1 as i32,
                a1 != 0x8000_0000u32,
        ;
        push_dec(&mut m, code);
        push_str(&mut m, "]\n");
        let sw = sched.exit_current();
        (0, SysEffect::Exit(m, sw))
    } else if num == SYS_GETPID {
        (sched.current_id(), SysEffect::Nothing)
    } else if num == SYS_YIELD {
        let sw = sched.schedule();
        (0, SysEffect::Yield(sw))
    } else if num == SYS_SLEEP {
        let sw = sched.sleep(a1, now);
        (0, SysEffect::Yield(sw))
    } else {
        (u32::MAX, SysEffect::Nothing)
    }
}

} // verus!
