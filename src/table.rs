use crate::context::Context;
use crate::scheduler::{
    filled_prefix,
    lemma_next_in_prefix,
    lemma_next_occupied_or_same,
    next_from,
    next_slot,
};
use vstd::arithmetic::div_mod::{lemma_add_mod_noop, lemma_mod_sub_multiples_vanish, lemma_small_mod};
use vstd::prelude::*;

verus! {

/// Lifecycle state of one task slot.
#[derive(Clone, Copy, Debug, PartialEq, Eq, Structural)]
pub enum TaskState {
    Empty,
    Ready,
    Running,
}

/// Why a table operation was refused.
#[derive(Clone, Copy, Debug, PartialEq, Eq, Structural)]
pub enum KernelError {
    /// Every slot already holds a task.
    TableFull,
    /// Scheduling cannot begin with no task registered.
    NoTasks,
}

/// One slot of the task table: its state, its stack region
/// `[stack_bottom, stack_top)`, and the snapshot it resumes from while it is
/// not running.
#[derive(Clone, Copy, Debug, PartialEq, Eq)]
pub struct TaskSlot {
    pub state: TaskState,
    pub stack_bottom: u32,
    pub stack_top: u32,
    pub saved: Context,
}

/// The mathematical model of a task table.
pub struct TableView {
    pub slots: Seq<TaskSlot>,
    pub count: nat,
    pub current: int,
    pub started: bool,
    pub stack_base: nat,
    pub stack_size: nat,
}

/// Which slots hold a task.
pub open spec fn occupancy(slots: Seq<TaskSlot>) -> Seq<bool> {
    slots.map_values(|s: TaskSlot| s.state != TaskState::Empty)
}

impl TableView {
    /// Lowest address of the stack region reserved for slot `i`.
    pub open spec fn stack_bottom_of(self, i: int) -> int {
        self.stack_base + i * self.stack_size
    }

    /// One past the highest address of the stack region of slot `i`.
    pub open spec fn stack_top_of(self, i: int) -> int {
        self.stack_base + (i + 1) * self.stack_size
    }

    pub open spec fn running(self, i: int) -> bool {
        self.slots[i].state == TaskState::Running
    }

    pub open spec fn wf(self) -> bool {
        &&& self.count <= self.slots.len()
        &&& self.stack_base + self.slots.len() * self.stack_size <= u32::MAX
        &&& forall|i: int|
            0 <= i < self.slots.len() ==> (#[trigger] self.slots[i].state != TaskState::Empty
                <==> i < self.count)
        &&& forall|i: int|
            0 <= i < self.count ==> #[trigger] self.slots[i].stack_bottom == self.stack_bottom_of(i)
                && self.slots[i].stack_top == self.stack_top_of(i)
        &&& self.started ==> {
            &&& 1 <= self.count
            &&& 0 <= self.current < self.count
            &&& forall|i: int| 0 <= i < self.slots.len() ==> (#[trigger] self.running(i) <==> i == self.current)
        }
        &&& !self.started ==> {
            &&& self.current == 0
            &&& forall|i: int| 0 <= i < self.slots.len() ==> !#[trigger] self.running(i)
        }
    }
}

/// One tick's switch: the snapshot `ctx` of the interrupted task is stored
/// in its slot, which becomes Ready; the round-robin successor becomes
/// Running, and its saved snapshot is the one handed back for resumption.
pub open spec fn switch_model(v: TableView, ctx: Context) -> (TableView, Context) {
    let c = v.current;
    let n = next_slot(occupancy(v.slots), c);
    let stored = v.slots.update(
        c,
        TaskSlot {
            state: TaskState::Ready,
            stack_bottom: v.slots[c].stack_bottom,
            stack_top: v.slots[c].stack_top,
            saved: ctx,
        },
    );
    let resumed = stored.update(
        n,
        TaskSlot {
            state: TaskState::Running,
            stack_bottom: stored[n].stack_bottom,
            stack_top: stored[n].stack_top,
            saved: stored[n].saved,
        },
    );
    (
        TableView {
            slots: resumed,
            count: v.count,
            current: n,
            started: v.started,
            stack_base: v.stack_base,
            stack_size: v.stack_size,
        },
        stored[n].saved,
    )
}

/// Fixed-capacity table of tasks with the round-robin switch that the timer
/// tick drives.
pub struct TaskTable {
    slots: Vec<TaskSlot>,
    count: usize,
    current: usize,
    started: bool,
    stack_base: u32,
    stack_size: u32,
}

impl View for TaskTable {
    type V = TableView;

    closed spec fn view(&self) -> TableView {
        TableView {
            slots: self.slots@,
            count: self.count as nat,
            current: self.current as int,
            started: self.started,
            stack_base: self.stack_base as nat,
            stack_size: self.stack_size as nat,
        }
    }
}

impl TaskTable {
    pub open spec fn wf(&self) -> bool {
        self@.wf()
    }

    /// An empty table of `capacity` slots. Slot `i` will own the stack
    /// region `[stack_base + i * stack_size, stack_base + (i + 1) * stack_size)`.
    pub fn new(capacity: usize, stack_base: u32, stack_size: u32) -> (t: TaskTable)
        requires
            stack_base + capacity * stack_size <= u32::MAX,
        ensures
            t.wf(),
            t@.slots.len() == capacity,
            t@.count == 0,
            !t@.started,
            t@.stack_base == stack_base,
            t@.stack_size == stack_size,
    {
        let mut slots: Vec<TaskSlot> = Vec::new();
        let mut i: usize = 0;
        while i < capacity
            invariant
                i <= capacity,
                slots@.len() == i,
                forall|j: int| 0 <= j < i ==> (#[trigger] slots@[j]).state == TaskState::Empty,
            decreases capacity - i,
        {
            slots.push(
                TaskSlot {
                    state: TaskState::Empty,
                    stack_bottom: 0,
                    stack_top: 0,
                    saved: Context::initial(0, 0),
                },
            );
            i = i + 1;
        }
        TaskTable { slots, count: 0, current: 0, started: false, stack_base, stack_size }
    }

    /// Registers a task entering at address `entry` in the next empty slot,
    /// with its own stack and a fresh snapshot. Allowed only before
    /// scheduling starts; fails with `TableFull` exactly when every slot is
    /// taken, leaving the table unchanged.
    pub fn task_create(&mut self, entry: u32) -> (r: Result<usize, KernelError>)
        requires
            old(self).wf(),
            !old(self)@.started,
        ensures
            final(self).wf(),
            old(self)@.count < old(self)@.slots.len() ==> {
                let k = old(self)@.count as int;
                let s = final(self)@.slots[k];
                &&& r == Ok::<usize, KernelError>(k as usize)
                &&& final(self)@.count == old(self)@.count + 1
                &&& final(self)@.slots == old(self)@.slots.update(k, s)
                &&& s.state == TaskState::Ready
                &&& s.stack_bottom == old(self)@.stack_bottom_of(k)
                &&& s.stack_top == old(self)@.stack_top_of(k)
                &&& s.saved.is_initial(entry, s.stack_top)
                &&& !final(self)@.started
                &&& final(self)@.current == old(self)@.current
                &&& final(self)@.stack_base == old(self)@.stack_base
                &&& final(self)@.stack_size == old(self)@.stack_size
            },
            old(self)@.count >= old(self)@.slots.len() ==> {
                &&& r == Err::<usize, KernelError>(KernelError::TableFull)
                &&& final(self)@ == old(self)@
            },
    {
        if self.count >= self.slots.len() {
            return Err(KernelError::TableFull);
        }
        let k = self.count;
        proof {
            let len = self.slots@.len() as int;
            let size = self.stack_size as int;
            assert(k * size <= (k + 1) * size <= len * size && (size >= 1 ==> k + 1 <= (k + 1)
                * size)) by (nonlinear_arith)
                requires
                    0 <= k < len,
                    0 <= size,
            ;
        }
        let bottom: u32 = if self.stack_size == 0 {
            assert(k * self.stack_size == 0);
            self.stack_base
        } else {
            assert(k < u32::MAX);
            assert((k as u32) as int == k as int);
            self.stack_base + (k as u32) * self.stack_size
        };
        assert(bottom == self.stack_base + k * self.stack_size);
        assert((k + 1) * self.stack_size == k * self.stack_size + self.stack_size) by (nonlinear_arith);
        let top = bottom + self.stack_size;
        let slot = TaskSlot {
            state: TaskState::Ready,
            stack_bottom: bottom,
            stack_top: top,
            saved: Context::initial(entry, top),
        };
        self.slots.set(k, slot);
        self.count = k + 1;
        proof {
            let size = self.stack_size as int;
            assert((k + 1) * size == k * size + size) by (nonlinear_arith);
            assert(self@.slots[k as int] == slot);
            assert forall|i: int| 0 <= i < self@.count implies #[trigger] self@.slots[i].stack_bottom
                == self@.stack_bottom_of(i) && self@.slots[i].stack_top == self@.stack_top_of(i) by {
                if i < k {
                    assert(self@.slots[i] == old(self)@.slots[i]);
                }
            };
            assert forall|i: int| 0 <= i < self@.slots.len() implies (
            #[trigger] self@.slots[i].state != TaskState::Empty <==> i < self@.count) by {
                if i != k {
                    assert(self@.slots[i] == old(self)@.slots[i]);
                }
            };
            assert forall|i: int| 0 <= i < self@.slots.len() implies !#[trigger] self@.running(i) by {
                if i != k {
                    assert(self@.slots[i] == old(self)@.slots[i]);
                    assert(!old(self)@.running(i));
                }
            };
        }
        Ok(k)
    }

    /// Begins scheduling: task 0 becomes Running and its snapshot is
    /// returned for the first resumption. Fails with `NoTasks`, leaving the
    /// table unchanged, exactly when no task is registered.
    pub fn start(&mut self) -> (r: Result<Context, KernelError>)
        requires
            old(self).wf(),
            !old(self)@.started,
        ensures
            final(self).wf(),
            old(self)@.count == 0 ==> {
                &&& r == Err::<Context, KernelError>(KernelError::NoTasks)
                &&& final(self)@ == old(self)@
            },
            old(self)@.count > 0 ==> {
                let s = old(self)@.slots[0];
                &&& r == Ok::<Context, KernelError>(s.saved)
                &&& final(self)@.started
                &&& final(self)@.current == 0
                &&& final(self)@.count == old(self)@.count
                &&& final(self)@.slots == old(self)@.slots.update(
                    0,
                    TaskSlot {
                        state: TaskState::Running,
                        stack_bottom: s.stack_bottom,
                        stack_top: s.stack_top,
                        saved: s.saved,
                    },
                )
                &&& final(self)@.stack_base == old(self)@.stack_base
                &&& final(self)@.stack_size == old(self)@.stack_size
            },
    {
        if self.count == 0 {
            return Err(KernelError::NoTasks);
        }
        let mut first = self.slots[0];
        first.state = TaskState::Running;
        self.slots.set(0, first);
        self.current = 0;
        self.started = true;
        proof {
            assert forall|i: int| 0 <= i < self@.slots.len() implies (#[trigger] self@.running(i)
                <==> i == 0) by {
                if i != 0 {
                    assert(self@.slots[i] == old(self)@.slots[i]);
                    assert(!old(self)@.running(i));
                }
            };
            assert forall|i: int| 0 <= i < self@.slots.len() implies (
            #[trigger] self@.slots[i].state != TaskState::Empty <==> i < self@.count) by {
                if i != 0 {
                    assert(self@.slots[i] == old(self)@.slots[i]);
                }
            };
            assert forall|i: int| 0 <= i < self@.count implies #[trigger] self@.slots[i].stack_bottom
                == self@.stack_bottom_of(i) && self@.slots[i].stack_top == self@.stack_top_of(i) by {
                assert(old(self)@.slots[i].stack_bottom == old(self)@.stack_bottom_of(i));
                if i != 0 {
                    assert(self@.slots[i] == old(self)@.slots[i]);
                }
            };
        }
        Ok(first.saved)
    }

    /// The round-robin successor of the running task: the next occupied slot
    /// in cyclic order, or the running task itself when it is alone.
    pub fn next_index(&self) -> (r: usize)
        requires
            self.wf(),
            self@.started,
        ensures
            r == next_slot(occupancy(self@.slots), self@.current),
    {
        let n = self.slots.len();
        let cur = self.current;
        let ghost occ = occupancy(self@.slots);
        let mut k: usize = 1;
        while k < n
            invariant
                1 <= k,
                n == self@.slots.len(),
                cur == self@.current,
                0 <= cur < n,
                occ == occupancy(self@.slots),
                next_from(occ, cur as int, 1) == next_from(occ, cur as int, k as int),
            decreases n - k,
        {
            let j: usize = if k < n - cur {
                cur + k
            } else {
                k - (n - cur)
            };
            assert(j == (cur + k) % (n as int)) by {
                if k < n - cur {
                    vstd::arithmetic::div_mod::lemma_small_mod((cur + k) as nat, n as nat);
                } else {
                    vstd::arithmetic::div_mod::lemma_mod_sub_multiples_vanish((cur + k) as int, n as int);
                    vstd::arithmetic::div_mod::lemma_small_mod(j as nat, n as nat);
                }
            };
            if self.slots[j].state != TaskState::Empty {
                return j;
            }
            k = k + 1;
        }
        cur
    }

    /// The tick's switch. `ctx` holds the snapshot of the interrupted task on
    /// entry; it is stored in that task's slot, the round-robin successor
    /// becomes Running, and on return `ctx` holds the successor's snapshot.
    /// Bounded: one scan of the table, no allocation.
    pub fn task_switch(&mut self, ctx: &mut Context)
        requires
            old(self).wf(),
            old(self)@.started,
        ensures
            final(self).wf(),
            (final(self)@, *final(ctx)) == switch_model(old(self)@, *old(ctx)),
    {
        let c = self.current;
        let n = self.next_index();
        proof {
            lemma_next_occupied_or_same(occupancy(self@.slots), c as int, 1);
        }
        let mut out = self.slots[c];
        out.state = TaskState::Ready;
        out.saved = *ctx;
        self.slots.set(c, out);
        let mut next = self.slots[n];
        next.state = TaskState::Running;
        self.slots.set(n, next);
        *ctx = next.saved;
        self.current = n;
        proof {
            lemma_switch_wf(old(self)@, *old(ctx));
            assert(self@ == switch_model(old(self)@, *old(ctx)).0);
        }
    }

    /// Registers the tasks entering at `entries`, in order, one call of
    /// `task_create` each. The calls that find a free slot succeed with
    /// consecutive slots; every call after the table is full is rejected.
    pub fn task_create_all(&mut self, entries: &Vec<u32>) -> (r: Vec<Result<usize, KernelError>>)
        requires
            old(self).wf(),
            !old(self)@.started,
        ensures
            final(self).wf(),
            !final(self)@.started,
            r@.len() == entries@.len(),
            final(self)@.slots.len() == old(self)@.slots.len(),
            forall|i: int|
                0 <= i < entries@.len() ==> #[trigger] r@[i] == if old(self)@.count + i
                    < old(self)@.slots.len() {
                    Ok::<usize, KernelError>((old(self)@.count + i) as usize)
                } else {
                    Err::<usize, KernelError>(KernelError::TableFull)
                },
            final(self)@.count == vstd::math::min(
                (old(self)@.count + entries@.len()) as int,
                old(self)@.slots.len() as int,
            ),
    {
        let mut results: Vec<Result<usize, KernelError>> = Vec::new();
        let mut i: usize = 0;
        while i < entries.len()
            invariant
                i <= entries@.len(),
                self.wf(),
                !self@.started,
                self@.slots.len() == old(self)@.slots.len(),
                self@.count == vstd::math::min(
                    (old(self)@.count + i) as int,
                    old(self)@.slots.len() as int,
                ),
                results@.len() == i,
                forall|j: int|
                    0 <= j < i ==> #[trigger] results@[j] == if old(self)@.count + j
                        < old(self)@.slots.len() {
                        Ok::<usize, KernelError>((old(self)@.count + j) as usize)
                    } else {
                        Err::<usize, KernelError>(KernelError::TableFull)
                    },
            decreases entries@.len() - i,
        {
            let r = self.task_create(entries[i]);
            results.push(r);
            i = i + 1;
        }
        results
    }

    /// Index of the running task (0 before scheduling starts).
    pub fn current(&self) -> (r: usize)
        ensures
            r == self@.current,
    {
        self.current
    }

    /// Number of registered tasks.
    pub fn count(&self) -> (r: usize)
        ensures
            r == self@.count,
    {
        self.count
    }

    /// Number of slots, fixed at construction.
    pub fn capacity(&self) -> (r: usize)
        ensures
            r == self@.slots.len(),
    {
        self.slots.len()
    }

    /// Whether scheduling has begun.
    pub fn is_started(&self) -> (r: bool)
        ensures
            r == self@.started,
    {
        self.started
    }

    /// The slot at index `i`.
    pub fn slot(&self, i: usize) -> (r: TaskSlot)
        requires
            i < self@.slots.len(),
        ensures
            r == self@.slots[i as int],
    {
        self.slots[i]
    }
}

/// Exactly one slot of a running table holds state Running, and it is the
/// current one.
pub proof fn lemma_single_running(v: TableView)
    requires
        v.wf(),
        v.started,
    ensures
        v.running(v.current),
        forall|i: int, j: int|
            0 <= i < v.slots.len() && 0 <= j < v.slots.len() && #[trigger] v.running(i)
                && #[trigger] v.running(j) ==> i == j,
{
}

/// With a single task, the tick hands back the very snapshot it was given
/// and the task keeps running.
pub proof fn lemma_single_task_switch(v: TableView, ctx: Context)
    requires
        v.wf(),
        v.started,
        v.count == 1,
    ensures
        switch_model(v, ctx).0.current == 0,
        switch_model(v, ctx).1 == ctx,
{
    lemma_wf_filled(v);
    lemma_next_in_prefix(occupancy(v.slots), 1, 0);
}

/// The stack regions of two different registered tasks do not overlap.
pub proof fn lemma_stacks_disjoint(v: TableView, i: int, j: int)
    requires
        v.wf(),
        0 <= i < j < v.count,
    ensures
        v.slots[i].stack_top <= v.slots[j].stack_bottom,
{
    let size = v.stack_size as int;
    assert((i + 1) * size <= j * size) by (nonlinear_arith)
        requires
            i + 1 <= j,
            0 <= size,
    ;
    assert(v.slots[i].stack_bottom == v.stack_bottom_of(i));
    assert(v.slots[j].stack_bottom == v.stack_bottom_of(j));
}

/// The switch keeps a running table well formed.
pub proof fn lemma_switch_wf(v: TableView, ctx: Context)
    requires
        v.wf(),
        v.started,
    ensures
        switch_model(v, ctx).0.wf(),
        switch_model(v, ctx).0.started,
        switch_model(v, ctx).0.count == v.count,
        switch_model(v, ctx).0.slots.len() == v.slots.len(),
{
    let c = v.current;
    let n = next_slot(occupancy(v.slots), c);
    lemma_next_occupied_or_same(occupancy(v.slots), c, 1);
    let w = switch_model(v, ctx).0;
    assert forall|i: int| 0 <= i < w.slots.len() implies (#[trigger] w.running(i) <==> i == n) by {
        if i != n && i != c {
            assert(w.slots[i] == v.slots[i]);
            assert(!v.running(i));
        }
    };
    assert forall|i: int| 0 <= i < w.slots.len() implies (#[trigger] w.slots[i].state
        != TaskState::Empty <==> i < w.count) by {
        if i != n && i != c {
            assert(w.slots[i] == v.slots[i]);
        }
        assert(v.slots[i].state != TaskState::Empty <==> i < v.count);
    };
    assert forall|i: int| 0 <= i < w.count implies #[trigger] w.slots[i].stack_bottom
        == w.stack_bottom_of(i) && w.slots[i].stack_top == w.stack_top_of(i) by {
        assert(v.slots[i].stack_bottom == v.stack_bottom_of(i));
    };
}

/// A well-formed table is filled in slot order.
pub proof fn lemma_wf_filled(v: TableView)
    requires
        v.wf(),
        v.started,
    ensures
        filled_prefix(occupancy(v.slots), v.count),
{
    assert forall|i: int| 0 <= i < v.slots.len() implies (#[trigger] occupancy(v.slots)[i] <==> i
        < v.count) by {
        assert(v.slots[i].state != TaskState::Empty <==> i < v.count);
    };
}

/// `cs.len()` ticks in a row, the `i`-th interrupting with snapshot `cs[i]`:
/// the table after them, and the snapshot that each tick resumed.
pub open spec fn run_ticks(v: TableView, cs: Seq<Context>) -> (TableView, Seq<Context>)
    decreases cs.len(),
{
    if cs.len() == 0 {
        (v, Seq::empty())
    } else {
        let before = run_ticks(v, cs.drop_last());
        let after = switch_model(before.0, cs.last());
        (after.0, before.1.push(after.1))
    }
}

/// Over up to `count` ticks the running slot advances one place per tick,
/// and the first task suspended keeps the snapshot it was suspended with.
proof fn lemma_run_ticks(v: TableView, cs: Seq<Context>)
    requires
        v.wf(),
        v.started,
        cs.len() <= v.count,
    ensures
        run_ticks(v, cs).0.wf(),
        run_ticks(v, cs).0.started,
        run_ticks(v, cs).0.count == v.count,
        run_ticks(v, cs).0.slots.len() == v.slots.len(),
        run_ticks(v, cs).0.current == (v.current + cs.len()) % (v.count as int),
        run_ticks(v, cs).1.len() == cs.len(),
        cs.len() >= 1 ==> run_ticks(v, cs).0.slots[v.current].saved == cs[0],
    decreases cs.len(),
{
    let k = v.count as int;
    let cur = v.current;
    if cs.len() == 0 {
        lemma_small_mod(cur as nat, v.count);
    } else {
        let p = cs.drop_last();
        lemma_run_ticks(v, p);
        let w = run_ticks(v, p).0;
        lemma_switch_wf(w, cs.last());
        lemma_wf_filled(w);
        lemma_next_in_prefix(occupancy(w.slots), w.count, w.current);
        let x = cur + p.len();
        lemma_add_mod_noop(x, 1, k);
        lemma_add_mod_noop(x % k, 1, k);
        vstd::arithmetic::div_mod::lemma_mod_twice(x, k);
        if p.len() >= 1 {
            assert(p[0] == cs[0]);
            if x < k {
                lemma_small_mod(x as nat, v.count);
            } else {
                lemma_mod_sub_multiples_vanish(x, k);
                lemma_small_mod((x - k) as nat, v.count);
            }
            assert(w.current != cur);
        }
    }
}

/// Context fidelity: with `count` tasks, a task suspended with snapshot
/// `cs[0]` is resumed, after each other task had one turn, with exactly that
/// snapshot, and the running slot is back where it started.
pub proof fn lemma_context_fidelity(v: TableView, cs: Seq<Context>)
    requires
        v.wf(),
        v.started,
        cs.len() == v.count,
    ensures
        run_ticks(v, cs).1[cs.len() - 1] == cs[0],
        run_ticks(v, cs).0.current == v.current,
{
    let k = v.count as int;
    let cur = v.current;
    let p = cs.drop_last();
    lemma_run_ticks(v, p);
    lemma_run_ticks(v, cs);
    let w = run_ticks(v, p).0;
    lemma_wf_filled(w);
    lemma_next_in_prefix(occupancy(w.slots), w.count, w.current);
    vstd::arithmetic::div_mod::lemma_mod_self_0(k);
    lemma_mod_sub_multiples_vanish(cur + k, k);
    lemma_small_mod(cur as nat, v.count);
    let x = cur + p.len();
    lemma_add_mod_noop(x, 1, k);
    lemma_add_mod_noop(x % k, 1, k);
    vstd::arithmetic::div_mod::lemma_mod_twice(x, k);
    assert(next_slot(occupancy(w.slots), w.current) == cur);
    if p.len() >= 1 {
        assert(p[0] == cs[0]);
        if x < k {
            lemma_small_mod(x as nat, v.count);
        } else {
            lemma_mod_sub_multiples_vanish(x, k);
            lemma_small_mod((x - k) as nat, v.count);
        }
        assert(w.current != cur);
    }
}

} // verus!
