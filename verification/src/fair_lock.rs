//! A mutual-exclusion lock with bounded waiting. Each contender owns one
//! of a fixed number of slots; a release hands the lock to the slot whose
//! turn it is, if that slot is waiting. Announcing, one turn of the wait
//! loop, and the release are each one atomic step on the lock's state; a
//! contender that is not let in keeps a ticket and spins with it.

use vstd::prelude::*;

verus! {

/// The number of slots.
pub const NUM_LOCK: usize = 8;

const MASK: usize = NUM_LOCK - 1;

/// The state of the lock as plain values.
pub struct LockView {
    /// Per slot: whether its owner has announced itself and has not been
    /// served yet.
    pub waiting: Seq<bool>,
    /// Whether the lock is taken.
    pub lock: bool,
    /// The slot that a release serves first.
    pub turn: usize,
}

impl LockView {
    /// A free lock: no slot waits and the turn is slot 0.
    pub open spec fn free() -> LockView {
        LockView { waiting: Seq::new(NUM_LOCK as nat, |i: int| false), lock: false, turn: 0 }
    }

    /// There is one flag per slot and the turn names a slot.
    pub open spec fn wf(self) -> bool {
        self.waiting.len() == NUM_LOCK && self.turn < NUM_LOCK
    }

    /// The state after slot `idx` has announced that it waits.
    pub open spec fn announce(self, idx: usize) -> LockView {
        LockView { waiting: self.waiting.update(idx as int, true), ..self }
    }

    /// Whether one turn of the wait loop lets slot `idx` in: the lock was
    /// handed to it, or the lock is free.
    pub open spec fn admits(self, idx: usize) -> bool {
        !self.waiting[idx as int] || !self.lock
    }

    /// The state after one turn of the wait loop of slot `idx`. A slot
    /// that was handed the lock changes nothing; else a free lock is
    /// taken.
    pub open spec fn spin(self, idx: usize) -> LockView {
        if self.waiting[idx as int] && !self.lock {
            LockView { lock: true, ..self }
        } else {
            self
        }
    }

    /// The slot that a release by `idx` looks at: the one after the turn
    /// if the turn is the releaser's own, else the turn.
    pub open spec fn successor(self, idx: usize) -> usize {
        if self.turn == idx {
            ((self.turn + 1) % (NUM_LOCK as int)) as usize
        } else {
            self.turn
        }
    }

    /// The state after slot `idx` has released the lock. If the successor
    /// waits, the turn and the lock pass to it and the lock stays taken;
    /// else the turn moves past the successor and the lock is freed.
    pub open spec fn release(self, idx: usize) -> LockView {
        let cleared = self.waiting.update(idx as int, false);
        let next = self.successor(idx);
        if cleared[next as int] {
            LockView { waiting: cleared.update(next as int, false), lock: self.lock, turn: next }
        } else {
            LockView { waiting: cleared, lock: false, turn: ((next + 1) % (NUM_LOCK as int)) as usize }
        }
    }
}

/// The flags, the lock and the turn.
struct LockState {
    waiting: [bool; NUM_LOCK],
    lock: bool,
    turn: usize,
}

impl LockState {
    #[verifier::type_invariant]
    closed spec fn turn_in_range(self) -> bool {
        self.turn < NUM_LOCK
    }
}

/// A lock around a value of type `T`, with `NUM_LOCK` slots.
pub struct FairLock<T> {
    state: LockState,
    data: T,
}

/// The proof of having entered the lock through one slot. It is given up
/// to release the lock.
pub struct FairLockGuard {
    idx: usize,
}

/// The proof of having announced a slot without having been let in yet.
/// It is given up for one turn of the wait loop.
pub struct FairLockTicket {
    idx: usize,
}

/// What a contender gets from a turn of the wait loop.
pub enum Acquire {
    /// The contender is inside the lock.
    Entered(FairLockGuard),
    /// The contender has to spin once more.
    Waiting(FairLockTicket),
}

impl Acquire {
    /// Whether the contender is inside the lock.
    pub fn is_entered(&self) -> (b: bool)
        ensures
            b == (self is Entered),
    {
        match self {
            Acquire::Entered(_) => true,
            Acquire::Waiting(_) => false,
        }
    }

    /// The slot of the contender.
    pub open spec fn slot(self) -> usize {
        match self {
            Acquire::Entered(guard) => guard.slot(),
            Acquire::Waiting(ticket) => ticket.slot(),
        }
    }
}

impl FairLockTicket {
    #[verifier::type_invariant]
    closed spec fn in_range(self) -> bool {
        self.idx < NUM_LOCK
    }

    /// The slot that was announced.
    pub closed spec fn slot(&self) -> usize {
        self.idx
    }

    /// The slot that was announced.
    pub fn idx(&self) -> (i: usize)
        ensures
            i == self.slot(),
            i < NUM_LOCK,
    {
        proof {
            use_type_invariant(self);
        }
        self.idx
    }
}

impl FairLockGuard {
    #[verifier::type_invariant]
    closed spec fn in_range(self) -> bool {
        self.idx < NUM_LOCK
    }

    /// The slot through which the lock was entered.
    pub closed spec fn slot(&self) -> usize {
        self.idx
    }

    /// The slot through which the lock was entered.
    pub fn idx(&self) -> (i: usize)
        ensures
            i == self.slot(),
            i < NUM_LOCK,
    {
        proof {
            use_type_invariant(self);
        }
        self.idx
    }
}

impl<T> View for FairLock<T> {
    type V = LockView;

    closed spec fn view(&self) -> LockView {
        LockView { waiting: self.state.waiting@, lock: self.state.lock, turn: self.state.turn }
    }
}

impl<T> FairLock<T> {
    /// The protected value.
    pub closed spec fn value(&self) -> T {
        self.data
    }

    /// A free lock around `v`: no slot waits and the turn is slot 0.
    pub fn new(v: T) -> (fl: Self)
        ensures
            fl@ == LockView::free(),
            fl@.wf(),
            fl.value() == v,
    {
        let fl = FairLock {
            state: LockState { waiting: [false; NUM_LOCK], lock: false, turn: 0 },
            data: v,
        };
        assert(fl@.waiting =~= LockView::free().waiting);
        fl
    }

    /// Announces that slot `idx` waits and takes one turn of the wait
    /// loop. What the contender is not given at once it gets by spinning
    /// with its ticket.
    pub fn lock(&mut self, idx: usize) -> (got: Acquire)
        requires
            idx < NUM_LOCK,
        ensures
            final(self)@ == old(self)@.announce(idx).spin(idx),
            final(self)@.wf(),
            final(self).value() == old(self).value(),
            got is Entered == old(self)@.announce(idx).admits(idx),
            got.slot() == idx,
    {
        proof {
            use_type_invariant(&self.state);
        }
        self.state.waiting[idx] = true;
        self.spin(FairLockTicket { idx })
    }

    /// One turn of the wait loop of the ticket's slot: enters if the lock
    /// was handed to the slot, or if the lock is free, which takes it.
    pub fn spin(&mut self, ticket: FairLockTicket) -> (got: Acquire)
        ensures
            final(self)@ == old(self)@.spin(ticket.slot()),
            final(self)@.wf(),
            final(self).value() == old(self).value(),
            got is Entered == old(self)@.admits(ticket.slot()),
            got.slot() == ticket.slot(),
    {
        proof {
            use_type_invariant(&ticket);
            use_type_invariant(&self.state);
        }
        let idx: usize = ticket.idx;
        if !self.state.waiting[idx] {
            return Acquire::Entered(FairLockGuard { idx });
        }
        if !self.state.lock {
            self.state.lock = true;
            return Acquire::Entered(FairLockGuard { idx });
        }
        Acquire::Waiting(ticket)
    }

    /// Releases the lock that was entered through the guard's slot: hands
    /// it to the successor if that slot waits, else frees it.
    pub fn unlock(&mut self, guard: FairLockGuard)
        ensures
            final(self)@ == old(self)@.release(guard.slot()),
            final(self)@.wf(),
            final(self).value() == old(self).value(),
    {
        proof {
            use_type_invariant(&guard);
            use_type_invariant(&self.state);
        }
        let idx: usize = guard.idx;
        self.state.waiting[idx] = false;
        let turn: usize = self.state.turn;
        let next: usize = if turn == idx {
            let up: usize = turn + 1;
            assert(up & 7 == up % 8) by (bit_vector);
            up & MASK
        } else {
            turn
        };
        if self.state.waiting[next] {
            self.state.turn = next;
            self.state.waiting[next] = false;
        } else {
            let up: usize = next + 1;
            assert(up & 7 == up % 8) by (bit_vector);
            self.state.turn = up & MASK;
            self.state.lock = false;
        }
        assert(self@.waiting =~= old(self)@.release(guard.slot()).waiting);
    }

    /// Whether the lock is taken.
    pub fn is_locked(&self) -> (b: bool)
        ensures
            b == self@.lock,
    {
        self.state.lock
    }

    /// Whether slot `idx` has announced itself and has not been served.
    pub fn is_waiting(&self, idx: usize) -> (b: bool)
        requires
            idx < NUM_LOCK,
        ensures
            b == self@.waiting[idx as int],
    {
        self.state.waiting[idx]
    }

    /// The slot that a release serves first.
    pub fn turn(&self) -> (t: usize)
        ensures
            t == self@.turn,
    {
        self.state.turn
    }

    /// The protected value, for the holder of the guard.
    pub fn get(&self, guard: &FairLockGuard) -> (v: &T)
        ensures
            *v == self.value(),
    {
        &self.data
    }

    /// The protected value, for the holder of the guard to change.
    pub fn get_mut(&mut self, guard: &FairLockGuard) -> (v: &mut T)
        ensures
            *v == old(self).value(),
            final(self).value() == *final(v),
            final(self)@ == old(self)@,
    {
        &mut self.data
    }
}

/// Where the owner of a slot stands.
pub enum Phase {
    /// Outside the lock, not asking for it.
    Idle,
    /// Announced, in the wait loop.
    Waiting,
    /// Inside the lock.
    Holding,
}

/// One atomic step of a contender. A call of `lock` is an announcement
/// followed at once by a turn of the wait loop; `spin` is one turn;
/// `unlock` is the release.
pub enum Step {
    /// The owner of the slot announces that it waits.
    Announce(usize),
    /// The owner of the slot takes one turn of its wait loop.
    Spin(usize),
    /// The owner of the slot releases the lock.
    Release(usize),
}

impl Step {
    /// The slot whose owner takes the step.
    pub open spec fn slot(self) -> usize {
        match self {
            Step::Announce(i) => i,
            Step::Spin(i) => i,
            Step::Release(i) => i,
        }
    }
}

/// A lock together with where the owner of each slot stands.
pub struct Contest {
    /// The state of the lock.
    pub lock: LockView,
    /// Per slot: where its owner stands.
    pub phase: Seq<Phase>,
}

impl Contest {
    /// A new lock that nobody has asked for.
    pub open spec fn start() -> Contest {
        Contest {
            lock: LockView::free(),
            phase: Seq::new(NUM_LOCK as nat, |i: int| Phase::Idle),
        }
    }

    /// Whether the owner of a slot may take the step: it announces from
    /// outside, spins after it has announced, which takes its ticket, and
    /// releases from inside, which takes its guard. No two contenders
    /// share a slot.
    pub open spec fn allows(self, step: Step) -> bool {
        &&& step.slot() < NUM_LOCK
        &&& match step {
            Step::Announce(i) => self.phase[i as int] is Idle,
            Step::Spin(i) => self.phase[i as int] is Waiting,
            Step::Release(i) => self.phase[i as int] is Holding,
        }
    }

    /// Whether the step lets its contender into the lock.
    pub open spec fn enters(self, step: Step) -> bool {
        step matches Step::Spin(i) && self.lock.admits(i)
    }

    /// The contest after the step.
    pub open spec fn after(self, step: Step) -> Contest {
        match step {
            Step::Announce(i) => Contest {
                lock: self.lock.announce(i),
                phase: self.phase.update(i as int, Phase::Waiting),
            },
            Step::Spin(i) => Contest {
                lock: self.lock.spin(i),
                phase: if self.lock.admits(i) {
                    self.phase.update(i as int, Phase::Holding)
                } else {
                    self.phase
                },
            },
            Step::Release(i) => Contest {
                lock: self.lock.release(i),
                phase: self.phase.update(i as int, Phase::Idle),
            },
        }
    }

    /// Whether each of the steps may be taken in turn.
    pub open spec fn allows_all(self, steps: Seq<Step>) -> bool
        decreases steps.len(),
    {
        steps.len() == 0 || (self.allows(steps[0]) && self.after(steps[0]).allows_all(
            steps.drop_first(),
        ))
    }

    /// The contest after the steps have been taken in turn.
    pub open spec fn after_all(self, steps: Seq<Step>) -> Contest
        decreases steps.len(),
    {
        if steps.len() == 0 {
            self
        } else {
            self.after(steps[0]).after_all(steps.drop_first())
        }
    }

    /// How many times a contender other than the owner of slot `x` enters
    /// the lock in the course of the steps, as long as `x` is waiting.
    pub open spec fn bypasses(self, steps: Seq<Step>, x: usize) -> nat
        decreases steps.len(),
    {
        if steps.len() == 0 || !(self.phase[x as int] is Waiting) {
            0
        } else {
            let one: nat = if steps[0].slot() != x && self.enters(steps[0]) {
                1
            } else {
                0
            };
            one + self.after(steps[0]).bypasses(steps.drop_first(), x)
        }
    }

    /// At most one contender is inside the lock.
    pub open spec fn exclusive(self) -> bool {
        forall|i: int, j: int|
            0 <= i < NUM_LOCK && 0 <= j < NUM_LOCK && self.phase[i] is Holding
                && self.phase[j] is Holding ==> i == j
    }

    /// Whether the lock is the slot's: its owner is inside, or the lock
    /// was handed to it and its owner has yet to notice.
    pub open spec fn owns(self, i: int) -> bool {
        self.phase[i] is Holding || (self.phase[i] is Waiting && !self.lock.waiting[i])
    }

    /// What holds of every contest that can be reached: the lock is taken
    /// exactly while a slot owns it, at most one slot owns it, a slot
    /// outside does not wait, and a slot that was handed the lock has the
    /// turn.
    pub open spec fn inv(self) -> bool {
        &&& self.lock.wf()
        &&& self.phase.len() == NUM_LOCK
        &&& forall|i: int| 0 <= i < NUM_LOCK && self.phase[i] is Idle ==> !self.lock.waiting[i]
        &&& forall|i: int| 0 <= i < NUM_LOCK && #[trigger] self.owns(i) ==> self.lock.lock
        &&& forall|i: int, j: int|
            0 <= i < NUM_LOCK && 0 <= j < NUM_LOCK && #[trigger] self.owns(i) && #[trigger] self.owns(
                j,
            ) ==> i == j
        &&& forall|i: int|
            0 <= i < NUM_LOCK && #[trigger] self.owns(i) && self.phase[i] is Waiting ==> i
                == self.lock.turn
        &&& self.lock.lock ==> self.owned()
    }

    /// Some slot owns the lock.
    pub open spec fn owned(self) -> bool {
        exists|i: int| 0 <= i < NUM_LOCK && #[trigger] self.owns(i)
    }

    /// How far the turn is from slot `x`, going round.
    pub open spec fn gap(self, x: usize) -> nat {
        if x >= self.lock.turn {
            (x - self.lock.turn) as nat
        } else {
            (x + NUM_LOCK - self.lock.turn) as nat
        }
    }

    /// How many contenders can still enter before the waiting owner of
    /// slot `x`: none once the lock was handed to `x`; else as many as the
    /// turn is from `x`, one more while the lock is free, one fewer while
    /// the slot that has the turn is inside.
    pub open spec fn budget(self, x: usize) -> nat {
        if !self.lock.waiting[x as int] {
            0
        } else if !self.lock.lock {
            self.gap(x) + 1
        } else if self.phase[self.lock.turn as int] is Holding {
            (self.gap(x) - 1) as nat
        } else {
            self.gap(x)
        }
    }
}

/// The invariant holds at the start.
proof fn lemma_inv_start()
    ensures
        Contest::start().inv(),
{
}

/// A step that may be taken keeps the invariant.
proof fn lemma_inv_step(c: Contest, step: Step)
    requires
        c.inv(),
        c.allows(step),
    ensures
        c.after(step).inv(),
{
    let d = c.after(step);
    match step {
        Step::Announce(i) => {
            assert forall|k: int| 0 <= k < NUM_LOCK && #[trigger] d.owns(k) implies c.owns(k) by {}
            if c.lock.lock {
                let k = choose|k: int| 0 <= k < NUM_LOCK && #[trigger] c.owns(k);
                assert(d.owns(k));
            }
        },
        Step::Spin(i) => {
            if c.lock.admits(i) {
                if c.lock.waiting[i as int] {
                    assert forall|k: int| 0 <= k < NUM_LOCK && #[trigger] d.owns(k) implies k
                        == i by {
                        if k != i {
                            assert(c.owns(k));
                        }
                    }
                } else {
                    assert(c.owns(i as int));
                    assert forall|k: int| 0 <= k < NUM_LOCK && #[trigger] d.owns(k) implies c.owns(
                        k,
                    ) by {}
                }
                assert(d.owns(i as int));
            } else {
                assert forall|k: int| 0 <= k < NUM_LOCK && #[trigger] d.owns(k) implies c.owns(
                    k,
                ) by {}
                if c.lock.lock {
                    let k = choose|k: int| 0 <= k < NUM_LOCK && #[trigger] c.owns(k);
                    assert(d.owns(k));
                }
            }
        },
        Step::Release(i) => {
            assert(c.owns(i as int));
            let next = c.lock.successor(i) as int;
            assert(next != i);
            assert forall|k: int| 0 <= k < NUM_LOCK && k != i implies !#[trigger] c.owns(k) by {
                if c.owns(k) {
                    assert(c.owns(i as int));
                }
            }
            if c.lock.waiting[next] {
                assert(!c.owns(next));
                assert(c.phase[next] is Waiting);
                assert(d.owns(next));
                assert forall|k: int| 0 <= k < NUM_LOCK && #[trigger] d.owns(k) implies k
                    == next by {
                    if k != next && k != i {
                        assert(!c.owns(k));
                    }
                }
            } else {
                assert forall|k: int| 0 <= k < NUM_LOCK implies !#[trigger] d.owns(k) by {
                    if k != i {
                        assert(!c.owns(k));
                    }
                }
            }
        },
    }
}

/// Steps that may be taken in turn keep the invariant.
proof fn lemma_inv_run(c: Contest, steps: Seq<Step>)
    requires
        c.inv(),
        c.allows_all(steps),
    ensures
        c.after_all(steps).inv(),
    decreases steps.len(),
{
    if steps.len() > 0 {
        lemma_inv_step(c, steps[0]);
        lemma_inv_run(c.after(steps[0]), steps.drop_first());
    }
}

/// Whatever the order in which contenders that each keep to their own
/// slot announce, spin and release, at most one of them is inside the lock.
pub proof fn law_mutual_exclusion(steps: Seq<Step>)
    requires
        Contest::start().allows_all(steps),
    ensures
        Contest::start().after_all(steps).exclusive(),
{
    lemma_inv_start();
    lemma_inv_run(Contest::start(), steps);
    let end = Contest::start().after_all(steps);
    assert forall|i: int, j: int|
        0 <= i < NUM_LOCK && 0 <= j < NUM_LOCK && end.phase[i] is Holding
            && end.phase[j] is Holding implies i == j by {
        assert(end.owns(i) && end.owns(j));
    }
}

/// The lock is never lost: whatever the order of the steps, while the
/// lock is taken there is a contender to release it, one that is inside
/// or one that was handed the lock and will find itself let in at its
/// next turn; and while a contender is inside, the lock is taken.
pub proof fn law_lock_has_an_owner(steps: Seq<Step>)
    requires
        Contest::start().allows_all(steps),
    ensures
        Contest::start().after_all(steps).lock.lock == Contest::start().after_all(steps).owned(),
{
    lemma_inv_start();
    lemma_inv_run(Contest::start(), steps);
    let end = Contest::start().after_all(steps);
    if end.owned() {
        let k = choose|k: int| 0 <= k < NUM_LOCK && #[trigger] end.owns(k);
        assert(end.lock.lock);
    }
}

/// While the owner of slot `x` waits, a step of another contender that
/// enters the lock uses up one of the entries left before `x`, and no
/// step adds to them.
proof fn lemma_budget_step(c: Contest, step: Step, x: usize)
    requires
        c.inv(),
        c.allows(step),
        x < NUM_LOCK,
        c.phase[x as int] is Waiting,
        step.slot() != x,
    ensures
        c.after(step).phase[x as int] is Waiting,
        c.after(step).budget(x) + (if c.enters(step) {
            1nat
        } else {
            0nat
        }) <= c.budget(x),
{
    let d = c.after(step);
    let t = c.lock.turn as int;
    lemma_inv_step(c, step);
    if !c.lock.waiting[x as int] {
        assert(c.owns(x as int));
        match step {
            Step::Announce(i) => {},
            Step::Spin(i) => {
                if c.lock.admits(i) {
                    if !c.lock.waiting[i as int] {
                        assert(c.owns(i as int));
                    }
                }
            },
            Step::Release(i) => {
                assert(c.owns(i as int));
            },
        }
    } else {
        match step {
            Step::Announce(i) => {},
            Step::Spin(i) => {
                if c.lock.admits(i) {
                    if !c.lock.waiting[i as int] {
                        assert(c.owns(i as int));
                        assert(i == t);
                        assert(!(c.phase[t] is Holding));
                    } else {
                        if c.phase[t] is Holding {
                            assert(c.owns(t));
                        }
                    }
                }
            },
            Step::Release(i) => {
                assert(c.owns(i as int));
                let next = c.lock.successor(i) as int;
                if c.phase[t] is Holding {
                    assert(c.owns(t));
                    assert(t == i);
                }
                if d.lock.lock {
                    if d.phase[d.lock.turn as int] is Holding {
                        assert(c.owns(d.lock.turn as int));
                    }
                }
            },
        }
    }
}

/// Along steps that may be taken in turn, the contenders that enter
/// before the waiting owner of slot `x` are no more than the entries left
/// before `x` at the outset.
proof fn lemma_budget_run(c: Contest, steps: Seq<Step>, x: usize)
    requires
        c.inv(),
        c.allows_all(steps),
        x < NUM_LOCK,
    ensures
        c.phase[x as int] is Waiting ==> c.bypasses(steps, x) <= c.budget(x),
    decreases steps.len(),
{
    if steps.len() > 0 && c.phase[x as int] is Waiting {
        let step = steps[0];
        let rest = steps.drop_first();
        let next = c.after(step);
        assert(c.allows(step));
        assert(next.allows_all(rest));
        lemma_inv_step(c, step);
        lemma_budget_run(next, rest, x);
        if step.slot() != x {
            lemma_budget_step(c, step, x);
            assert(c.bypasses(steps, x) == (if c.enters(step) {
                1nat
            } else {
                0nat
            }) + next.bypasses(rest, x));
        } else {
            assert(c.bypasses(steps, x) == next.bypasses(rest, x));
            match step {
                Step::Announce(i) => {},
                Step::Spin(i) => {
                    if c.lock.admits(i) {
                        assert(next.phase[x as int] is Holding);
                        assert(next.bypasses(rest, x) == 0);
                    } else {
                        assert(next == c);
                    }
                },
                Step::Release(i) => {},
            }
        }
    }
}

/// Once the owner of a slot has announced that it waits, at most
/// `NUM_LOCK` other contenders enter the lock before it does, whatever the
/// order of the steps.
pub proof fn law_bounded_waiting(before: Seq<Step>, x: usize, after: Seq<Step>)
    requires
        Contest::start().allows_all(before),
        Contest::start().after_all(before).allows(Step::Announce(x)),
        Contest::start().after_all(before).after(Step::Announce(x)).allows_all(after),
    ensures
        Contest::start().after_all(before).after(Step::Announce(x)).bypasses(after, x)
            <= NUM_LOCK,
{
    lemma_inv_start();
    lemma_inv_run(Contest::start(), before);
    let asked = Contest::start().after_all(before);
    lemma_inv_step(asked, Step::Announce(x));
    lemma_budget_run(asked.after(Step::Announce(x)), after, x);
}

} // verus!
