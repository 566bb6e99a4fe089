//! A cooperative scheduler: a bounded first-in first-out queue of task
//! handles. Spawning or waking a task puts its handle at the back; one
//! turn of the run loop takes the handle at the front. The tasks
//! themselves are polled by the caller, who reports which have finished.

use std::collections::VecDeque;
use vstd::prelude::*;

verus! {

/// The number of handles that the ready queue can hold.
pub const QUEUE_CAPACITY: usize = 1024;

/// The scheduler as plain values.
pub struct ExecutorView {
    /// The handles that wait to be polled, oldest first.
    pub queue: Seq<usize>,
    /// Per task, in the order of spawning: whether it has finished.
    pub finished: Seq<bool>,
}

impl ExecutorView {
    /// A scheduler on which nothing has happened yet.
    pub open spec fn fresh() -> ExecutorView {
        ExecutorView { queue: Seq::empty(), finished: Seq::empty() }
    }

    /// The queue is within its capacity and holds handles of spawned
    /// tasks only.
    pub open spec fn wf(self) -> bool {
        &&& self.queue.len() <= QUEUE_CAPACITY
        &&& self.finished.len() <= usize::MAX
        &&& forall|i: int| 0 <= i < self.queue.len() ==> #[trigger] self.queue[i] < self.finished.len()
    }

    /// Whether one more handle fits in the queue.
    pub open spec fn has_room(self) -> bool {
        self.queue.len() < QUEUE_CAPACITY
    }

    /// Whether a task can be spawned: its handle fits in the queue and a
    /// handle is left to give it.
    pub open spec fn can_spawn(self) -> bool {
        self.has_room() && self.finished.len() < usize::MAX
    }

    /// The state after a spawn that found room: the new task has the next
    /// handle and waits at the back of the queue.
    pub open spec fn spawn(self) -> ExecutorView {
        ExecutorView {
            queue: self.queue.push(self.finished.len() as usize),
            finished: self.finished.push(false),
        }
    }

    /// Whether a wake of `id` puts its handle on the queue.
    pub open spec fn can_wake(self, id: usize) -> bool {
        id < self.finished.len() && self.has_room()
    }

    /// The state after a wake of `id`: its handle is at the back of the
    /// queue once more, if it could be put there.
    pub open spec fn wake(self, id: usize) -> ExecutorView {
        if self.can_wake(id) {
            ExecutorView { queue: self.queue.push(id), ..self }
        } else {
            self
        }
    }

    /// Whether task `id` has finished.
    pub open spec fn is_finished(self, id: usize) -> bool {
        id < self.finished.len() && self.finished[id as int]
    }

    /// How many handles at the front of the queue belong to tasks that
    /// have finished.
    pub open spec fn stale(self) -> nat
        decreases self.queue.len(),
    {
        if self.queue.len() > 0 && self.is_finished(self.queue[0]) {
            1 + (ExecutorView { queue: self.queue.drop_first(), ..self }).stale()
        } else {
            0
        }
    }

    /// The task that one turn of the run loop polls: the oldest handle of
    /// a task that has not finished, if there is one.
    pub open spec fn next(self) -> Option<usize> {
        if self.stale() < self.queue.len() {
            Some(self.queue[self.stale() as int])
        } else {
            None
        }
    }

    /// The state after one turn of the run loop: the handles of finished
    /// tasks at the front are gone, and so is the handle that was taken.
    pub open spec fn run(self) -> ExecutorView {
        ExecutorView {
            queue: if self.stale() < self.queue.len() {
                self.queue.skip(self.stale() as int + 1)
            } else {
                Seq::empty()
            },
            ..self
        }
    }

    /// The state after task `id` has reported that it is finished.
    pub open spec fn complete(self, id: usize) -> ExecutorView {
        if id < self.finished.len() {
            ExecutorView { finished: self.finished.update(id as int, true), ..self }
        } else {
            self
        }
    }
}

/// The scheduler: the ready queue and the record of which tasks have
/// finished.
pub struct Executor {
    queue: VecDeque<usize>,
    finished: Vec<bool>,
}

/// A handle for spawning tasks on a scheduler.
pub struct Spawner {}

impl View for Executor {
    type V = ExecutorView;

    closed spec fn view(&self) -> ExecutorView {
        ExecutorView { queue: self.queue@, finished: self.finished@ }
    }
}

impl Executor {
    /// A scheduler with no task and an empty queue.
    pub fn new() -> (ex: Executor)
        ensures
            ex@ == ExecutorView::fresh(),
            ex@.wf(),
    {
        let ex = Executor { queue: VecDeque::with_capacity(QUEUE_CAPACITY), finished: Vec::new() };
        assert(ex@.finished =~= Seq::empty());
        assert(ex@.queue =~= Seq::empty());
        ex
    }

    /// How many handles wait on the queue.
    pub fn queued(&self) -> (n: usize)
        ensures
            n == self@.queue.len(),
    {
        self.queue.len()
    }

    /// How many tasks have been spawned.
    pub fn tasks(&self) -> (n: usize)
        ensures
            n == self@.finished.len(),
    {
        self.finished.len()
    }

    /// Whether task `id` has finished; false for a handle that no task
    /// has.
    pub fn is_finished(&self, id: usize) -> (b: bool)
        ensures
            b == self@.is_finished(id),
    {
        id < self.finished.len() && self.finished[id]
    }

    /// A handle for spawning tasks on this scheduler.
    pub fn get_spawner(&self) -> (sp: Spawner) {
        Spawner {  }
    }

    /// Puts the handle of task `id` at the back of the queue. Returns
    /// false, and changes nothing, when `id` is no task or the queue is
    /// full.
    pub fn wake(&mut self, id: usize) -> (woken: bool)
        ensures
            woken == old(self)@.can_wake(id),
            final(self)@ == old(self)@.wake(id),
            old(self)@.wf() ==> final(self)@.wf(),
    {
        if id < self.finished.len() && self.queue.len() < QUEUE_CAPACITY {
            self.queue.push_back(id);
            true
        } else {
            false
        }
    }

    /// One turn of the run loop: takes handles from the front of the
    /// queue until one belongs to a task that has not finished, and
    /// returns that task for the caller to poll once. Returns nothing
    /// when the queue runs empty.
    pub fn run(&mut self) -> (task: Option<usize>)
        ensures
            task == old(self)@.next(),
            final(self)@ == old(self)@.run(),
            old(self)@.wf() ==> final(self)@.wf(),
    {
        let ghost start = self@;
        let ghost mut skipped: nat = 0;
        loop
            invariant
                start == old(self)@,
                self@.finished == start.finished,
                skipped <= start.queue.len(),
                self@.queue == start.queue.skip(skipped as int),
                start.stale() == skipped + self@.stale(),
            decreases self@.queue.len(),
        {
            match self.queue.pop_front() {
                None => {
                    proof {
                        assert(self@.queue =~= Seq::empty());
                    }
                    return None;
                },
                Some(id) => {
                    let ghost before = start.queue.skip(skipped as int);
                    proof {
                        assert(before[0] == id);
                        assert(before.drop_first() =~= start.queue.skip(skipped as int + 1));
                        assert(start.queue[skipped as int] == id);
                    }
                    if !(id < self.finished.len() && self.finished[id]) {
                        proof {
                            assert(self@.queue =~= start.queue.skip(start.stale() as int + 1));
                        }
                        return Some(id);
                    }
                    proof {
                        skipped = skipped + 1;
                    }
                },
            }
        }
    }

    /// Records that task `id` has finished: its handles that are still on
    /// the queue will be dropped, not polled.
    pub fn complete(&mut self, id: usize)
        ensures
            final(self)@ == old(self)@.complete(id),
            old(self)@.wf() ==> final(self)@.wf(),
    {
        if id < self.finished.len() {
            self.finished[id] = true;
        }
    }
}

impl Spawner {
    /// Spawns a task on `ex`: gives it the next handle and puts the handle
    /// at the back of the queue. Returns the handle, or nothing, with the
    /// scheduler unchanged, when the queue is full.
    pub fn spawn(&self, ex: &mut Executor) -> (task: Option<usize>)
        ensures
            task is Some == old(ex)@.can_spawn(),
            task matches Some(id) ==> id == old(ex)@.finished.len() && final(ex)@ == old(
                ex,
            )@.spawn(),
            task is None ==> final(ex)@ == old(ex)@,
            old(ex)@.wf() ==> final(ex)@.wf(),
    {
        let id: usize = ex.finished.len();
        if ex.queue.len() < QUEUE_CAPACITY && id < usize::MAX {
            ex.finished.push(false);
            ex.queue.push_back(id);
            Some(id)
        } else {
            None
        }
    }
}


impl ExecutorView {
    /// The state after `n` spawns in a row.
    pub open spec fn spawn_many(self, n: nat) -> ExecutorView
        decreases n,
    {
        if n == 0 {
            self
        } else {
            self.spawn_many((n - 1) as nat).spawn()
        }
    }

    /// The tasks in the order in which the run loop polls them, when each
    /// task finishes at its first poll and wakes nobody.
    pub open spec fn poll_order(self) -> Seq<usize>
        decreases self.queue.len(),
    {
        match self.next() {
            None => Seq::empty(),
            Some(id) => seq![id] + self.run().complete(id).poll_order(),
        }
    }

    /// How many times the run loop polls a task that is taken next, wakes
    /// itself at each of `k` suspensions and then finishes; and the state
    /// that this leaves.
    pub open spec fn self_waking_run(self, k: nat) -> (nat, ExecutorView)
        decreases k,
    {
        match self.next() {
            None => (0, self),
            Some(id) => if k == 0 {
                (1, self.run().complete(id))
            } else {
                let rest = self.run().wake(id).self_waking_run((k - 1) as nat);
                (rest.0 + 1, rest.1)
            },
        }
    }
}

/// Spawning keeps the queue in the order of spawning: after `n` spawns on
/// a fresh scheduler the queue holds the handles 0 to `n - 1` in turn, and
/// no task has finished.
proof fn lemma_spawn_many(n: nat)
    requires
        n <= QUEUE_CAPACITY,
    ensures
        ExecutorView::fresh().spawn_many(n).queue == Seq::new(n, |i: int| i as usize),
        ExecutorView::fresh().spawn_many(n).finished == Seq::new(n, |i: int| false),
    decreases n,
{
    if n == 0 {
        assert(ExecutorView::fresh().spawn_many(n).queue =~= Seq::new(n, |i: int| i as usize));
        assert(ExecutorView::fresh().spawn_many(n).finished =~= Seq::new(n, |i: int| false));
    } else {
        lemma_spawn_many((n - 1) as nat);
        assert(ExecutorView::fresh().spawn_many(n).queue =~= Seq::new(n, |i: int| i as usize));
        assert(ExecutorView::fresh().spawn_many(n).finished =~= Seq::new(n, |i: int| false));
    }
}

/// A queue of distinct tasks in rising order, none of them finished and
/// none finished below them, is polled in that order.
proof fn lemma_rising_queue_order(ex: ExecutorView, from: nat, n: nat)
    requires
        from <= n <= usize::MAX,
        ex.finished.len() == n,
        ex.queue == Seq::new((n - from) as nat, |i: int| (from + i) as usize),
        forall|t: int| from <= t < n ==> !#[trigger] ex.finished[t],
    ensures
        ex.poll_order() == ex.queue,
    decreases n - from,
{
    if from == n {
        assert(ex.stale() == 0);
        assert(ex.poll_order() =~= ex.queue);
    } else {
        assert(ex.queue[0] == from);
        assert(!ex.finished[from as int]);
        assert(ex.stale() == 0);
        let after = ex.run().complete(from as usize);
        assert(after.queue =~= Seq::new((n - from - 1) as nat, |i: int| (from + 1 + i) as usize));
        lemma_rising_queue_order(after, from + 1, n);
        assert(ex.poll_order() =~= ex.queue);
    }
}

/// The run loop polls in the order of the queue: where the oldest handle
/// belongs to a task that has not finished, that task is polled next and
/// the rest of the queue stays as it is. Spawns and wakes add at the back,
/// so tasks are polled in the order in which their handles were queued.
pub proof fn law_oldest_first(ex: ExecutorView)
    requires
        ex.queue.len() > 0,
        !ex.is_finished(ex.queue[0]),
    ensures
        ex.next() == Some(ex.queue[0]),
        ex.run().queue == ex.queue.drop_first(),
        ex.can_spawn() ==> ex.spawn().queue.drop_last() == ex.queue,
        forall|id: usize| #[trigger] ex.can_wake(id) ==> ex.wake(id).queue.drop_last() == ex.queue,
{
    assert(ex.stale() == 0);
    assert(ex.queue.skip(1) =~= ex.queue.drop_first());
    assert(ex.spawn().queue.drop_last() =~= ex.queue);
    assert forall|id: usize| #[trigger] ex.can_wake(id) implies ex.wake(id).queue.drop_last()
        == ex.queue by {
        assert(ex.wake(id).queue.drop_last() =~= ex.queue);
    }
}

/// Tasks that are spawned one after the other on a fresh scheduler, and
/// that each finish at their first poll without waking anyone, are polled
/// in the order in which they were spawned.
pub proof fn law_fifo(n: nat)
    requires
        n <= QUEUE_CAPACITY,
    ensures
        ExecutorView::fresh().spawn_many(n).poll_order() == Seq::new(n, |i: int| i as usize),
{
    lemma_spawn_many(n);
    assert(Seq::new(n, |i: int| i as usize) =~= Seq::new((n - 0) as nat, |i: int| (0 + i) as usize));
    lemma_rising_queue_order(ExecutorView::fresh().spawn_many(n), 0, n);
}

/// A task that is alone on the queue, wakes itself at each of `k`
/// suspensions and then finishes is polled exactly `k + 1` times; it is
/// then finished and the queue is empty.
pub proof fn law_self_wake_converges(ex: ExecutorView, id: usize, k: nat)
    requires
        ex.wf(),
        ex.queue == seq![id],
        !ex.is_finished(id),
    ensures
        ex.self_waking_run(k).0 == k + 1,
        ex.self_waking_run(k).1.queue == Seq::<usize>::empty(),
        ex.self_waking_run(k).1.finished == ex.finished.update(id as int, true),
        ex.self_waking_run(k).1.next() is None,
    decreases k,
{
    assert(ex.queue[0] == id);
    assert(ex.stale() == 0);
    assert(ex.next() == Some(id));
    assert(ex.run().queue =~= Seq::<usize>::empty());
    if k == 0 {
        let end = ex.run().complete(id);
        assert(end.stale() == 0);
    } else {
        let woken = ex.run().wake(id);
        assert(woken.queue =~= seq![id]);
        law_self_wake_converges(woken, id, (k - 1) as nat);
    }
}

} // verus!
