use vstd::prelude::*;

verus! {

/// A value shared between foreground tasks and the tick handler, reachable
/// only through a scoped critical section. The lock flag is raised for the
/// whole section and lowered again on the way out.
pub struct SharedResource<T> {
    value: Option<T>,
    locked: bool,
}

impl<T> View for SharedResource<T> {
    type V = T;

    closed spec fn view(&self) -> T {
        self.value->Some_0
    }
}

impl<T> SharedResource<T> {
    /// Free, and holding its value.
    pub closed spec fn wf(&self) -> bool {
        self.value is Some && !self.locked
    }

    /// Wraps `value`; the lock starts free.
    pub fn new(value: T) -> (r: SharedResource<T>)
        ensures
            r.wf(),
            r@ == value,
    {
        SharedResource { value: Some(value), locked: false }
    }

    /// Whether a critical section is in progress.
    pub fn is_locked(&self) -> (r: bool)
        requires
            self.wf(),
        ensures
            !r,
    {
        self.locked
    }

    /// Runs `body` as a critical section: it receives the guarded value and
    /// returns the value to keep together with a result for the caller.
    /// The lock is free again afterwards.
    pub fn lock<R, F: FnOnce(T) -> (T, R)>(&mut self, body: F) -> (r: R)
        requires
            old(self).wf(),
            body.requires((old(self)@,)),
        ensures
            final(self).wf(),
            body.ensures((old(self)@,), (final(self)@, r)),
    {
        self.locked = true;
        let held = self.value.take();
        let inner = held.unwrap();
        let (kept, r) = body(inner);
        self.value = Some(kept);
        self.locked = false;
        r
    }

    /// Gives the value back once nobody shares it any more.
    pub fn into_inner(self) -> (v: T)
        requires
            self.wf(),
        ensures
            v == self@,
    {
        self.value.unwrap()
    }
}

/// Which side of the system runs a critical section.
#[derive(Clone, Copy, Debug, PartialEq, Eq, Structural)]
pub enum Actor {
    Task,
    Tick,
}

/// The body of an increment's critical section: the counter to keep and
/// the count to report.
fn increment_step(v: u64) -> (out: (u64, u64))
    requires
        v < u64::MAX,
    ensures
        out.0 == v + 1,
        out.1 == v + 1,
{
    (v + 1, v + 1)
}

/// One critical section of either side on a guarded counter: adds one and
/// returns the new count.
pub fn guarded_increment(counter: &mut SharedResource<u64>) -> (r: u64)
    requires
        old(counter).wf(),
        old(counter)@ < u64::MAX,
    ensures
        final(counter).wf(),
        final(counter)@ == old(counter)@ + 1,
        r == final(counter)@,
{
    counter.lock(increment_step)
}

/// Mutual exclusion: the task and the tick take turns as `events` says,
/// each incrementing the guarded counter in a critical section; no increment
/// is lost, whatever the interleaving.
pub fn run_interleaving(counter: &mut SharedResource<u64>, events: &Vec<Actor>)
    requires
        old(counter).wf(),
        old(counter)@ + events@.len() <= u64::MAX,
    ensures
        final(counter).wf(),
        final(counter)@ == old(counter)@ + events@.len(),
{
    let mut i: usize = 0;
    while i < events.len()
        invariant
            i <= events@.len(),
            counter.wf(),
            counter@ == old(counter)@ + i,
            old(counter)@ + events@.len() <= u64::MAX,
        decreases events@.len() - i,
    {
        match events[i] {
            Actor::Task => {
                guarded_increment(counter);
            },
            Actor::Tick => {
                guarded_increment(counter);
            },
        }
        i = i + 1;
    }
}

} // verus!
