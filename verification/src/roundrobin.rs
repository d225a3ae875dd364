//! Round-robin choice over a table of task slots.
use vstd::prelude::*;

verus! {

/// Slot `m` places after `cur` in a table of `num` tasks, wrapping around.
#[verifier::opaque]
pub open spec fn after(cur: int, m: int, num: int) -> int {
    (cur + m) % num
}

/// Offset (from `k` on) of the first runnable task after `cur`, wrapping
/// around with `cur` itself at offset `num`; `num + 1` when none can run.
pub open spec fn pick_offset(r: Seq<bool>, cur: int, num: int, k: int) -> int
    decreases num + 1 - k,
{
    if k > num || num <= 0 {
        num + 1
    } else if r[after(cur, k, num)] {
        k
    } else {
        pick_offset(r, cur, num, k + 1)
    }
}

/// The scheduler's choice: the first runnable task after the current one.
pub open spec fn pick_next(r: Seq<bool>, cur: int, num: int) -> Option<int> {
    let m = pick_offset(r, cur, num, 1);
    if 1 <= m <= num { Some(after(cur, m, num)) } else { None }
}

pub proof fn lemma_pick_offset(r: Seq<bool>, cur: int, num: int, k: int)
    requires
        1 <= k <= num + 1,
        num >= 1,
    ensures
        k <= pick_offset(r, cur, num, k) <= num + 1,
        forall|j: int| k <= j < pick_offset(r, cur, num, k) ==> !#[trigger] r[after(cur, j, num)],
        pick_offset(r, cur, num, k) <= num ==> r[after(cur, pick_offset(r, cur, num, k), num)],
    decreases num + 1 - k,
{
    if k > num {
    } else if r[after(cur, k, num)] {
    } else {
        lemma_pick_offset(r, cur, num, k + 1);
    }
}

pub proof fn lemma_after_range(cur: int, m: int, num: int)
    requires
        0 <= cur < num,
    ensures
        0 <= after(cur, m, num) < num,
        1 <= m < num ==> after(cur, m, num) != cur,
        m == num ==> after(cur, m, num) == cur,
{
    reveal(after);
    if 1 <= m < num {
        assert((cur + m) % num != cur) by (nonlinear_arith)
            requires
                0 <= cur < num,
                1 <= m < num,
        ;
    }
    if m == num {
        assert((cur + num) % num == cur) by (nonlinear_arith)
            requires
                0 <= cur < num,
        ;
    }
}

/// The offset at which slot `i` comes after `cur`.
pub proof fn lemma_after_hits(cur: int, i: int, num: int) -> (m: int)
    requires
        0 <= cur < num,
        0 <= i < num,
    ensures
        1 <= m <= num,
        after(cur, m, num) == i,
        i != cur ==> m < num,
{
    reveal(after);
    let m = if i > cur { i - cur } else { i - cur + num };
    assert((cur + m) % num == i) by (nonlinear_arith)
        requires
            0 <= cur < num,
            0 <= i < num,
            m == (if i > cur { i - cur } else { i - cur + num }),
    ;
    m
}

/// Law: the round-robin choice is a runnable slot: the first Ready or Running one
/// after the current task in table order, wrapping around, the current task
/// itself considered last; when it picks none, no task can run.
pub proof fn lemma_round_robin(r: Seq<bool>, cur: int, num: int)
    requires
        0 <= cur < num,
        num <= r.len(),
    ensures
        pick_next(r, cur, num) matches Some(n) ==> 0 <= n < num && r[n]
            && n == after(cur, pick_offset(r, cur, num, 1), num)
            && forall|j: int| 1 <= j < pick_offset(r, cur, num, 1) ==> !#[trigger] r[after(cur, j, num)],
        pick_next(r, cur, num) is None ==> forall|i: int| 0 <= i < num ==> !#[trigger] r[i],
{
    lemma_pick_offset(r, cur, num, 1);
    lemma_after_range(cur, pick_offset(r, cur, num, 1), num);
    if pick_next(r, cur, num) is None {
        assert forall|i: int| 0 <= i < num implies !#[trigger] r[i] by {
            let m = lemma_after_hits(cur, i, num);
            assert(!r[after(cur, m, num)]);
        }
    }
}

} // verus!
