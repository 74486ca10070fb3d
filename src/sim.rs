use crate::context::Context;
use crate::scheduler::lemma_next_in_prefix;
use crate::table::{lemma_wf_filled, occupancy, KernelError, TaskTable};
use vstd::prelude::*;

verus! {

/// How many of the first `t` ticks ran slot `i`, when `n` tasks take turns
/// from slot 0 on.
pub open spec fn turns(n: nat, t: nat, i: int) -> nat
    decreases t,
{
    if t == 0 {
        0
    } else {
        turns(n, (t - 1) as nat, i) + if (t - 1) % (n as int) == i {
            1nat
        } else {
            0nat
        }
    }
}

proof fn lemma_turns_bounded(n: nat, t: nat, i: int)
    ensures
        turns(n, t, i) <= t,
    decreases t,
{
    if t > 0 {
        lemma_turns_bounded(n, (t - 1) as nat, i);
    }
}

/// Tick-driven interleaving of always-ready tasks whose loop bodies cost
/// `costs[i]` busy units each: for `ticks` timer periods the running task
/// gets `quantum` units, then the tick switches to the next one. Returns
/// how many loop iterations each task completed. Fails with `NoTasks`
/// exactly when there is no task.
pub fn simulate_busy_work(costs: &Vec<u64>, quantum: u64, ticks: u64) -> (r: Result<
    Vec<u64>,
    KernelError,
>)
    requires
        forall|i: int| 0 <= i < costs@.len() ==> costs@[i] > 0,
        quantum * ticks <= u64::MAX,
    ensures
        costs@.len() == 0 ==> r == Err::<Vec<u64>, KernelError>(KernelError::NoTasks),
        costs@.len() > 0 ==> r is Ok && r->Ok_0@.len() == costs@.len() && forall|i: int|
            0 <= i < costs@.len() ==> #[trigger] r->Ok_0@[i] == (quantum as int) * turns(
                costs@.len(),
                ticks as nat,
                i,
            ) / (costs@[i] as int),
{
    let n = costs.len();
    let mut table = TaskTable::new(n, 0, 0);
    let mut k: usize = 0;
    while k < n
        invariant
            k <= n,
            table.wf(),
            !table@.started,
            table@.count == k,
            table@.slots.len() == n,
        decreases n - k,
    {
        match table.task_create(0) {
            Ok(_) => {},
            Err(e) => {
                return Err(e);
            },
        }
        k = k + 1;
    }
    let mut ctx: Context = match table.start() {
        Ok(c) => c,
        Err(e) => {
            return Err(e);
        },
    };
    let mut work: Vec<u64> = Vec::new();
    while work.len() < n
        invariant
            work@.len() <= n,
            forall|i: int| 0 <= i < work@.len() ==> work@[i] == 0,
        decreases n - work@.len(),
    {
        work.push(0);
    }
    let mut t: u64 = 0;
    assert forall|i: int| 0 <= i < n implies #[trigger] work@[i] == (quantum as int) * turns(
        n as nat,
        0,
        i,
    ) by {
        assert(turns(n as nat, 0, i) == 0);
        assert((quantum as int) * 0 == 0);
    };
    while t < ticks
        invariant
            n > 0,
            n == costs@.len(),
            t <= ticks,
            quantum * ticks <= u64::MAX,
            table.wf(),
            table@.started,
            table@.count == n,
            table@.slots.len() == n,
            table@.current == (t as int) % (n as int),
            work@.len() == n,
            forall|i: int| 0 <= i < n ==> #[trigger] work@[i] == (quantum as int) * turns(n as nat, t as nat, i),
        decreases ticks - t,
    {
        let cur = table.current();
        proof {
            lemma_turns_bounded(n as nat, t as nat, cur as int);
            let q = quantum as int;
            let m = turns(n as nat, t as nat, cur as int) as int;
            assert(q * (m + 1) == q * m + q && q * (m + 1) <= q * (t + 1) && q * (t + 1) <= q
                * ticks) by (nonlinear_arith)
                requires
                    0 <= q,
                    0 <= m <= t,
                    t + 1 <= ticks,
            ;
        }
        let w = work[cur] + quantum;
        work.set(cur, w);
        proof {
            let v = table@;
            lemma_wf_filled(v);
            lemma_next_in_prefix(occupancy(v.slots), v.count, v.current);
            vstd::arithmetic::div_mod::lemma_add_mod_noop(t as int, 1, n as int);
            vstd::arithmetic::div_mod::lemma_add_mod_noop(t as int % n as int, 1, n as int);
            vstd::arithmetic::div_mod::lemma_mod_twice(t as int, n as int);
        }
        table.task_switch(&mut ctx);
        t = t + 1;
        proof {
            assert forall|i: int| 0 <= i < n implies #[trigger] work@[i] == (quantum as int) * turns(
                n as nat,
                t as nat,
                i,
            ) by {
                assert(turns(n as nat, t as nat, i) == turns(n as nat, (t - 1) as nat, i) + if (t
                    - 1) % (n as int) == i {
                    1nat
                } else {
                    0nat
                });
            };
        }
    }
    let mut done: Vec<u64> = Vec::new();
    let mut i: usize = 0;
    while i < n
        invariant
            i <= n,
            n == costs@.len(),
            work@.len() == n,
            done@.len() == i,
            forall|i: int| 0 <= i < costs@.len() ==> costs@[i] > 0,
            forall|j: int| 0 <= j < i ==> #[trigger] done@[j] == work@[j] / costs@[j],
        decreases n - i,
    {
        done.push(work[i] / costs[i]);
        i = i + 1;
    }
    Ok(done)
}

} // verus!
