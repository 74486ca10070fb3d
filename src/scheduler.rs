use vstd::arithmetic::div_mod::{
    lemma_add_mod_noop,
    lemma_mod_equivalence,
    lemma_mod_self_0,
    lemma_mod_twice,
    lemma_small_mod,
};
use vstd::prelude::*;

verus! {

/// The slot chosen after `cur`, scanning cyclically from offset `k` on:
/// the first occupied slot at `(cur + k) % n`, `(cur + k + 1) % n`, ...,
/// or `cur` itself once a whole turn has found none.
pub open spec fn next_from(occ: Seq<bool>, cur: int, k: int) -> int
    decreases occ.len() - k,
{
    if k >= occ.len() || k < 1 {
        cur
    } else if occ[(cur + k) % (occ.len() as int)] {
        (cur + k) % (occ.len() as int)
    } else {
        next_from(occ, cur, k + 1)
    }
}

/// Round-robin choice: the next occupied slot after `cur` in cyclic slot
/// order, or `cur` again when no other slot is occupied.
pub open spec fn next_slot(occ: Seq<bool>, cur: int) -> int {
    next_from(occ, cur, 1)
}

/// The slot running after `t` ticks when the table's occupancy stays `occ`.
pub open spec fn slot_after(occ: Seq<bool>, cur: int, t: nat) -> int
    decreases t,
{
    if t == 0 {
        cur
    } else {
        next_slot(occ, slot_after(occ, cur, (t - 1) as nat))
    }
}

/// The first `count` slots are occupied and the others are empty, as
/// registration in slot order leaves a table.
pub open spec fn filled_prefix(occ: Seq<bool>, count: nat) -> bool {
    &&& 1 <= count <= occ.len()
    &&& forall|i: int| 0 <= i < occ.len() ==> (occ[i] <==> i < count)
}

/// Slot `i` is the running slot after some tick `t` with `lo < t <= hi`.
pub open spec fn selected_between(occ: Seq<bool>, cur: int, lo: nat, hi: nat, i: int) -> bool {
    exists|t: nat| lo < t <= hi && #[trigger] slot_after(occ, cur, t) == i
}

/// Scanning past empty slots does not change the choice.
proof fn lemma_skip_empty(occ: Seq<bool>, cur: int, j: int, m: int)
    requires
        1 <= j <= m <= occ.len(),
        forall|t: int| j <= t < m ==> !#[trigger] occ[(cur + t) % (occ.len() as int)],
    ensures
        next_from(occ, cur, j) == next_from(occ, cur, m),
    decreases m - j,
{
    if j < m {
        lemma_skip_empty(occ, cur, j + 1, m);
    }
}

/// Whatever the occupancy, the choice is an occupied slot or `cur` itself.
pub proof fn lemma_next_occupied_or_same(occ: Seq<bool>, cur: int, k: int)
    requires
        occ.len() > 0,
        0 <= cur < occ.len(),
    ensures
        next_from(occ, cur, k) == cur || (0 <= next_from(occ, cur, k) < occ.len()
            && occ[next_from(occ, cur, k)]),
    decreases occ.len() - k,
{
    if k >= occ.len() || k < 1 {
    } else if occ[(cur + k) % (occ.len() as int)] {
    } else {
        lemma_next_occupied_or_same(occ, cur, k + 1);
    }
}

/// On a table filled in slot order with `count` tasks, the slot after `cur`
/// is `(cur + 1) % count`.
pub proof fn lemma_next_in_prefix(occ: Seq<bool>, count: nat, cur: int)
    requires
        filled_prefix(occ, count),
        0 <= cur < count,
    ensures
        next_slot(occ, cur) == (cur + 1) % (count as int),
{
    let n = occ.len() as int;
    if cur + 1 < count {
        lemma_small_mod((cur + 1) as nat, n as nat);
        lemma_small_mod((cur + 1) as nat, count);
    } else {
        assert((cur + 1) % (count as int) == 0) by {
            lemma_mod_self_0(count as int);
        };
        assert forall|t: int| 1 <= t < n - cur implies !#[trigger] occ[(cur + t) % n] by {
            lemma_small_mod((cur + t) as nat, n as nat);
        };
        lemma_skip_empty(occ, cur, 1, n - cur);
        if cur > 0 {
            lemma_mod_self_0(n);
            assert((cur + (n - cur)) % n == 0);
        }
    }
}

/// On a table filled in slot order with `count` tasks, `t` ticks after `cur`
/// the running slot is `(cur + t) % count`.
pub proof fn lemma_slot_after_in_prefix(occ: Seq<bool>, count: nat, cur: int, t: nat)
    requires
        filled_prefix(occ, count),
        0 <= cur < count,
    ensures
        slot_after(occ, cur, t) == (cur + t) % (count as int),
    decreases t,
{
    if t > 0 {
        let k = count as int;
        lemma_slot_after_in_prefix(occ, count, cur, (t - 1) as nat);
        let prev = (cur + t - 1) % k;
        lemma_next_in_prefix(occ, count, prev);
        lemma_add_mod_noop(cur + t - 1, 1, k);
        lemma_add_mod_noop(prev, 1, k);
        lemma_mod_twice(cur + t - 1, k);
    } else {
        lemma_small_mod(cur as nat, count);
    }
}

/// Round-robin fairness: with `count` always-ready tasks, over any window of
/// `count` consecutive ticks every task is selected exactly once.
pub proof fn lemma_round_robin_fair(occ: Seq<bool>, count: nat, cur: int, start: nat)
    requires
        filled_prefix(occ, count),
        0 <= cur < count,
    ensures
        forall|i: int|
            0 <= i < count ==> #[trigger] selected_between(occ, cur, start, start + count, i),
        forall|t1: nat, t2: nat|
            start < t1 < t2 <= start + count ==> #[trigger] slot_after(occ, cur, t1)
                != #[trigger] slot_after(occ, cur, t2),
{
    let k = count as int;
    assert forall|i: int| 0 <= i < count implies #[trigger] selected_between(
        occ,
        cur,
        start,
        start + count,
        i,
    ) by {
        let x = cur + start + 1;
        let d = (i - x) % k;
        let t = (start + 1 + d) as nat;
        lemma_slot_after_in_prefix(occ, count, cur, t);
        lemma_add_mod_noop(x, i - x, k);
        lemma_add_mod_noop(x, d, k);
        lemma_mod_twice(i - x, k);
        lemma_small_mod(i as nat, count);
        assert(slot_after(occ, cur, t) == i);
    };
    assert forall|t1: nat, t2: nat| start < t1 < t2 <= start + count implies #[trigger] slot_after(
        occ,
        cur,
        t1,
    ) != #[trigger] slot_after(occ, cur, t2) by {
        lemma_slot_after_in_prefix(occ, count, cur, t1);
        lemma_slot_after_in_prefix(occ, count, cur, t2);
        lemma_mod_equivalence(cur + t2, cur + t1, k);
        lemma_small_mod((t2 - t1) as nat, count);
    };
}

/// With a single task, every tick selects that task again.
pub proof fn lemma_single_task_reselected(occ: Seq<bool>, t: nat)
    requires
        filled_prefix(occ, 1),
    ensures
        next_slot(occ, 0) == 0,
        slot_after(occ, 0, t) == 0,
{
    lemma_next_in_prefix(occ, 1, 0);
    lemma_slot_after_in_prefix(occ, 1, 0, t);
}

} // verus!
