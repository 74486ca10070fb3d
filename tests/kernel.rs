use preempt::context::Context;
use preempt::guard::{guarded_increment, run_interleaving, Actor, SharedResource};
use preempt::sim::simulate_busy_work;
use preempt::table::{KernelError, TaskState, TaskTable};

fn running_slots(t: &TaskTable) -> Vec<usize> {
    (0..t.capacity()).filter(|&i| t.slot(i).state == TaskState::Running).collect()
}

fn started_table(capacity: usize, tasks: usize) -> (TaskTable, Context) {
    let mut t = TaskTable::new(capacity, 0x3FFB_0000, 0x1000);
    for i in 0..tasks {
        assert_eq!(t.task_create(0x4008_0000 + 0x100 * i as u32), Ok(i));
    }
    let ctx = t.start().unwrap();
    (t, ctx)
}

fn snapshot(seed: u32) -> Context {
    let mut regs = [0u32; 16];
    for (i, r) in regs.iter_mut().enumerate() {
        *r = seed.wrapping_mul(31).wrapping_add(i as u32 * 7 + 1);
    }
    let mut special = [0u32; 16];
    special[0] = 0x0006_0020 + seed;
    special[1] = seed % 32;
    Context {
        pc: 0x4000_0000 + seed,
        sp: 0x3FFB_0F00 - seed,
        regs,
        int_enabled: seed % 2 == 0,
        special,
    }
}

#[test]
fn round_robin_visits_each_task_once_per_window() {
    let (mut t, mut ctx) = started_table(3, 3);
    let mut seen = Vec::new();
    for _ in 0..9 {
        t.task_switch(&mut ctx);
        seen.push(t.current());
    }
    assert_eq!(seen, vec![1, 2, 0, 1, 2, 0, 1, 2, 0]);
    for w in 0..=6 {
        let mut window: Vec<usize> = seen[w..w + 3].to_vec();
        window.sort();
        assert_eq!(window, vec![0, 1, 2]);
    }
}

#[test]
fn empty_slots_are_skipped() {
    let (mut t, mut ctx) = started_table(5, 2);
    let mut seen = Vec::new();
    for _ in 0..4 {
        t.task_switch(&mut ctx);
        seen.push(t.current());
    }
    assert_eq!(seen, vec![1, 0, 1, 0]);
    assert_eq!(t.next_index(), 1);
}

#[test]
fn exactly_one_task_runs_at_every_tick() {
    let (mut t, mut ctx) = started_table(4, 4);
    assert_eq!(running_slots(&t), vec![0]);
    for _ in 0..10 {
        t.task_switch(&mut ctx);
        assert_eq!(running_slots(&t), vec![t.current()]);
    }
}

#[test]
fn no_task_runs_before_start() {
    let mut t = TaskTable::new(2, 0, 0x100);
    t.task_create(0x10).unwrap();
    assert!(!t.is_started());
    assert!(running_slots(&t).is_empty());
}

#[test]
fn guarded_counter_loses_no_increment() {
    let mut counter = SharedResource::new(0u64);
    let events = vec![
        Actor::Task,
        Actor::Tick,
        Actor::Task,
        Actor::Task,
        Actor::Tick,
        Actor::Tick,
        Actor::Task,
    ];
    run_interleaving(&mut counter, &events);
    assert!(!counter.is_locked());
    assert_eq!(counter.into_inner(), 7);
}

#[test]
fn guarded_increment_reports_new_count() {
    let mut counter = SharedResource::new(41u64);
    assert_eq!(guarded_increment(&mut counter), 42);
    assert_eq!(guarded_increment(&mut counter), 43);
    assert_eq!(counter.into_inner(), 43);
}

#[test]
fn lock_hands_value_and_result() {
    let mut log = SharedResource::new(vec![1u8, 2]);
    let len = log.lock(|mut v: Vec<u8>| {
        v.push(3);
        let n = v.len();
        (v, n)
    });
    assert_eq!(len, 3);
    assert!(!log.is_locked());
    assert_eq!(log.into_inner(), vec![1, 2, 3]);
}

#[test]
fn single_task_is_reselected_every_tick() {
    let (mut t, mut ctx) = started_table(1, 1);
    let c = snapshot(9);
    ctx = c;
    for _ in 0..5 {
        t.task_switch(&mut ctx);
        assert_eq!(t.current(), 0);
        assert_eq!(ctx, c);
        assert_eq!(running_slots(&t), vec![0]);
    }
}

#[test]
fn registration_beyond_capacity_is_rejected() {
    let mut t = TaskTable::new(3, 0x1000, 0x200);
    assert_eq!(t.task_create(0xA0), Ok(0));
    assert_eq!(t.task_create(0xA4), Ok(1));
    assert_eq!(t.task_create(0xA8), Ok(2));
    assert_eq!(t.task_create(0xAC), Err(KernelError::TableFull));
    assert_eq!(t.count(), 3);
    assert_eq!(t.task_create(0xB0), Err(KernelError::TableFull));
}

#[test]
fn zero_capacity_rejects_every_task() {
    let mut t = TaskTable::new(0, 0, 0);
    assert_eq!(t.task_create(0xA0), Err(KernelError::TableFull));
    assert_eq!(t.start(), Err(KernelError::NoTasks));
}

#[test]
fn start_without_tasks_fails() {
    let mut t = TaskTable::new(2, 0, 0x100);
    assert_eq!(t.start(), Err(KernelError::NoTasks));
    assert!(!t.is_started());
}

#[test]
fn new_task_gets_own_stack_and_fresh_context() {
    let mut t = TaskTable::new(3, 0x3FFB_0000, 0x800);
    t.task_create(0x4008_1234).unwrap();
    t.task_create(0x4008_5678).unwrap();
    let a = t.slot(0);
    let b = t.slot(1);
    assert_eq!(a.state, TaskState::Ready);
    assert_eq!((a.stack_bottom, a.stack_top), (0x3FFB_0000, 0x3FFB_0800));
    assert_eq!((b.stack_bottom, b.stack_top), (0x3FFB_0800, 0x3FFB_1000));
    assert_eq!(b.saved.pc, 0x4008_5678);
    assert_eq!(b.saved.sp, 0x3FFB_1000);
    assert_eq!(b.saved.regs, [0u32; 16]);
    assert!(b.saved.int_enabled);
    assert_eq!(t.slot(2).state, TaskState::Empty);
}

#[test]
fn start_resumes_task_zero() {
    let (t, ctx) = started_table(3, 2);
    assert_eq!(ctx.pc, 0x4008_0000);
    assert_eq!(ctx.sp, 0x3FFB_1000);
    assert_eq!(t.current(), 0);
    assert_eq!(t.slot(0).state, TaskState::Running);
    assert_eq!(t.slot(1).state, TaskState::Ready);
}

#[test]
fn initial_context_is_reset() {
    let c = Context::initial(0x400D_0000, 0x3FFC_0000);
    assert_eq!(c.pc, 0x400D_0000);
    assert_eq!(c.sp, 0x3FFC_0000);
    assert_eq!(c.regs, [0u32; 16]);
    assert_eq!(c.special, [0u32; 16]);
    assert!(c.int_enabled);
}

#[test]
fn suspended_context_is_restored_bit_identical() {
    let (mut t, mut ctx) = started_table(3, 3);
    let suspended = snapshot(1);
    ctx = suspended;
    t.task_switch(&mut ctx);
    assert_eq!(t.current(), 1);
    assert_eq!(ctx.pc, 0x4008_0100);
    ctx = snapshot(2);
    t.task_switch(&mut ctx);
    assert_eq!(ctx.pc, 0x4008_0200);
    ctx = snapshot(3);
    t.task_switch(&mut ctx);
    assert_eq!(t.current(), 0);
    assert_eq!(ctx, suspended);
    ctx = snapshot(4);
    t.task_switch(&mut ctx);
    assert_eq!(ctx, snapshot(2));
}

#[test]
fn switch_stores_snapshot_in_suspended_slot() {
    let (mut t, mut ctx) = started_table(2, 2);
    let c = snapshot(5);
    ctx = c;
    t.task_switch(&mut ctx);
    assert_eq!(t.slot(0).saved, c);
    assert_eq!(t.slot(0).state, TaskState::Ready);
    assert_eq!(t.slot(1).state, TaskState::Running);
    assert_eq!(ctx.sp, 0x3FFB_2000);
}

#[test]
fn busy_work_interleaves_by_tick() {
    let costs = vec![50_000u64, 100_000, 200_000];
    let done = simulate_busy_work(&costs, 10_000, 300).unwrap();
    assert_eq!(done, vec![20, 10, 5]);
}

#[test]
fn busy_work_uneven_ticks() {
    let costs = vec![30u64, 20];
    let done = simulate_busy_work(&costs, 10, 5).unwrap();
    assert_eq!(done, vec![1, 1]);
}

#[test]
fn busy_work_without_tasks_fails() {
    assert_eq!(simulate_busy_work(&Vec::new(), 10, 5), Err(KernelError::NoTasks));
}

#[test]
fn batch_registration_stops_at_capacity() {
    let mut t = TaskTable::new(3, 0x2000, 0x100);
    t.task_create(0x10).unwrap();
    let r = t.task_create_all(&vec![0x20, 0x30, 0x40, 0x50]);
    assert_eq!(
        r,
        vec![Ok(1), Ok(2), Err(KernelError::TableFull), Err(KernelError::TableFull)]
    );
    assert_eq!(t.count(), 3);
    assert_eq!(t.slot(2).saved.pc, 0x30);
    assert_eq!(t.slot(2).stack_bottom, 0x2200);
}
