//! Deferred reclamation: garbage waits in a per-thread queue and is dropped
//! only at a moment when no thread is inside a pause.
use atomic::Atomic;
use vstd::prelude::*;

verus! {

/// The `atomic` crate's shared cell, opaque here: it only carries the
/// pause counter between threads.
#[verifier::external_type_specification]
#[verifier::external_body]
#[verifier::reject_recursive_types(T)]
pub struct ExAtomic<T>(Atomic<T>);

/// Relies on `atomic::Atomic::new`: a counter that starts at zero.
#[verifier::external_body]
fn counter_new() -> (r: Atomic<usize>) {
    Atomic::new(0usize)
}

/// Relies on `atomic::Atomic::load` (acquire). Other threads move the
/// counter, so nothing is known of the value read.
#[verifier::external_body]
fn counter_load(c: &Atomic<usize>) -> (r: usize) {
    c.load(std::sync::atomic::Ordering::Acquire)
}

/// Relies on `atomic::Atomic::<usize>::fetch_add` (acquire): adds one and
/// returns whatever the counter held just before.
#[verifier::external_body]
fn counter_increment(c: &Atomic<usize>) -> (r: usize) {
    c.fetch_add(1, std::sync::atomic::Ordering::Acquire)
}

/// Relies on `atomic::Atomic::<usize>::fetch_sub` (release): takes one
/// away. For `usize` it is the native atomic subtraction, which wraps and
/// does not panic.
#[verifier::external_body]
fn counter_decrement(c: &Atomic<usize>)
    opens_invariants none
    no_unwind
{
    c.fetch_sub(1, std::sync::atomic::Ordering::Release);
}

/// The garbage of one thread, in the order in which it was added.
pub struct GarbageQueue<G> {
    items: std::collections::VecDeque<G>,
}

impl<G> View for GarbageQueue<G> {
    type V = Seq<G>;

    closed spec fn view(&self) -> Seq<G> {
        self.items@
    }
}

impl<G> GarbageQueue<G> {
    /// An empty queue.
    pub fn new() -> (r: Self)
        ensures
            r@ == Seq::<G>::empty(),
    {
        GarbageQueue { items: std::collections::VecDeque::with_capacity(16) }
    }

    /// Number of items waiting.
    pub fn len(&self) -> (r: usize)
        ensures
            r == self@.len(),
    {
        self.items.len()
    }

    /// Puts one item at the back of the queue.
    fn add(&mut self, garbage: G)
        ensures
            final(self)@ == old(self)@.push(garbage),
    {
        self.items.push_back(garbage);
    }

    /// Drops every waiting item, oldest first.
    fn delete(&mut self)
        ensures
            final(self)@ == Seq::<G>::empty(),
    {
        while self.items.len() > 0
            decreases self.items@.len(),
        {
            let _oldest = self.items.pop_front();
        }
    }
}

/// The decision of `Incinerator::try_force`: the queue is emptied exactly
/// when the pause count read was zero, and left as it was otherwise.
pub fn collect<G>(queue: &mut GarbageQueue<G>, paused_count: usize) -> (r: bool)
    ensures
        r == (paused_count == 0),
        r ==> final(queue)@ == Seq::<G>::empty(),
        !r ==> final(queue)@ == old(queue)@,
{
    if paused_count == 0 {
        queue.delete();
        true
    } else {
        false
    }
}

/// The decision of `Incinerator::pause`, once the counter has been raised:
/// `exec` runs, and its result comes back, exactly when the count read
/// before the raise was not already at its maximum.
pub fn run_unless_full<F, T>(previous: usize, exec: F) -> (r: Option<T>)
    where
        F: FnOnce() -> T,
    requires
        exec.requires(()),
    ensures
        (r is None) == (previous == usize::MAX),
        r matches Some(v) ==> exec.ensures((), v),
{
    if previous == usize::MAX {
        None
    } else {
        Some(exec())
    }
}

/// One raise of the pause counter. Dropping it, also while unwinding out
/// of a pause, takes the raise back.
struct Pause<'a> {
    incinerator: &'a Incinerator,
}

impl<'a> Pause<'a> {
    /// Raises the counter; returns the guard and the count read before.
    fn new(incinerator: &'a Incinerator) -> (r: (Pause<'a>, usize))
        ensures
            r.0.incinerator == incinerator,
    {
        let previous = counter_increment(&incinerator.paused_count);
        (Pause { incinerator }, previous)
    }
}

impl<'a> Drop for Pause<'a> {
    fn drop(&mut self)
        opens_invariants none
        no_unwind
    {
        counter_decrement(&self.incinerator.paused_count);
    }
}

/// The shared pause counter. Threads that read shared pointers do so
/// inside a pause; garbage is dropped only when the counter is zero.
pub struct Incinerator {
    paused_count: Atomic<usize>,
}

impl Incinerator {
    /// A counter with no pause in effect.
    pub fn new() -> (r: Self) {
        Incinerator { paused_count: counter_new() }
    }

    /// Runs `exec` as critical code: no queue is emptied while it runs.
    /// The counter is raised before and lowered after, on every exit path.
    /// Returns `None`, without running `exec`, when the counter was full.
    pub fn pause<F, T>(&self, exec: F) -> (r: Option<T>)
        where
            F: FnOnce() -> T,
        requires
            exec.requires(()),
        ensures
            r matches Some(v) ==> exec.ensures((), v),
    {
        let (_guard, previous) = Pause::new(self);
        run_unless_full(previous, exec)
    }

    /// Puts `garbage` on the caller's queue, then reads the pause count; if
    /// it is zero, the whole queue is dropped. Returns whether it was.
    pub fn add<G>(&self, queue: &mut GarbageQueue<G>, garbage: G) -> (r: bool)
        ensures
            r ==> final(queue)@ == Seq::<G>::empty(),
            !r ==> final(queue)@ == old(queue)@.push(garbage),
    {
        queue.add(garbage);
        let count = counter_load(&self.paused_count);
        collect(queue, count)
    }

    /// Drops the caller's queue if no pause is in effect when the count is
    /// read. Returns whether it did.
    pub fn try_force<G>(&self, queue: &mut GarbageQueue<G>) -> (r: bool)
        ensures
            r ==> final(queue)@ == Seq::<G>::empty(),
            !r ==> final(queue)@ == old(queue)@,
    {
        let count = counter_load(&self.paused_count);
        collect(queue, count)
    }
}

} // verus!
