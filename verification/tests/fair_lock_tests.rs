use oreilly_concurrent::fair_lock::Acquire;
use oreilly_concurrent::fair_lock::FairLock;
use oreilly_concurrent::fair_lock::FairLockGuard;
use oreilly_concurrent::fair_lock::FairLockTicket;
use oreilly_concurrent::fair_lock::NUM_LOCK;

/// The guard of a contender that must have been let in.
fn entered(got: Acquire) -> FairLockGuard {
    match got {
        Acquire::Entered(guard) => guard,
        Acquire::Waiting(ticket) => panic!("slot {} was not let in", ticket.idx()),
    }
}

/// The ticket of a contender that must have been kept out.
fn kept_out(got: Acquire) -> FairLockTicket {
    match got {
        Acquire::Entered(guard) => panic!("slot {} was let in", guard.idx()),
        Acquire::Waiting(ticket) => ticket,
    }
}

/// A small linear congruential generator, to pick who moves next.
struct Dice {
    state: u64,
}

impl Dice {
    fn roll(&mut self, sides: usize) -> usize {
        self.state = self.state.wrapping_mul(6364136223846793005).wrapping_add(1442695040888963407);
        ((self.state >> 33) as usize) % sides
    }
}

#[test]
fn there_are_eight_slots() {
    assert_eq!(NUM_LOCK, 8);
}

#[test]
fn a_new_lock_is_free() {
    let lock = FairLock::new(17u32);
    assert!(!lock.is_locked());
    assert_eq!(lock.turn(), 0);
    for slot in 0..NUM_LOCK {
        assert!(!lock.is_waiting(slot));
    }
}

#[test]
fn a_free_lock_is_entered_at_once() {
    let mut lock = FairLock::new(0u32);
    let got = lock.lock(3);
    assert!(got.is_entered());
    let guard = entered(got);
    assert_eq!(guard.idx(), 3);
    assert!(lock.is_locked());
    assert!(lock.is_waiting(3));
    assert_eq!(lock.turn(), 0);
}

#[test]
fn the_guard_reaches_the_value() {
    let mut lock = FairLock::new(String::from("a"));
    let guard = entered(lock.lock(0));
    assert_eq!(lock.get(&guard), "a");
    lock.get_mut(&guard).push('b');
    assert_eq!(lock.get(&guard), "ab");
    lock.unlock(guard);
    let guard = entered(lock.lock(1));
    assert_eq!(lock.get(&guard), "ab");
}

#[test]
fn a_taken_lock_makes_the_next_one_wait() {
    let mut lock = FairLock::new(0u32);
    let _first = entered(lock.lock(0));
    let got = lock.lock(1);
    assert!(!got.is_entered());
    let ticket = kept_out(got);
    assert_eq!(ticket.idx(), 1);
    assert!(lock.is_waiting(1));
    let ticket = kept_out(lock.spin(ticket));
    let _ticket = kept_out(lock.spin(ticket));
    assert!(lock.is_locked());
}

#[test]
fn a_release_hands_the_lock_to_the_waiting_successor() {
    let mut lock = FairLock::new(0u32);
    let first = entered(lock.lock(0));
    let second = kept_out(lock.lock(1));
    lock.unlock(first);
    // Handed over: the lock never became free, the turn moved, the flag fell.
    assert!(lock.is_locked());
    assert_eq!(lock.turn(), 1);
    assert!(!lock.is_waiting(0));
    assert!(!lock.is_waiting(1));
    // Nobody else gets in before slot 1 notices.
    let third = kept_out(lock.lock(2));
    let second = entered(lock.spin(second));
    assert_eq!(second.idx(), 1);
    lock.unlock(second);
    assert_eq!(lock.turn(), 2);
    assert!(lock.is_locked());
    assert_eq!(entered(lock.spin(third)).idx(), 2);
}

#[test]
fn a_release_without_waiting_successor_frees_the_lock() {
    let mut lock = FairLock::new(0u32);
    let guard = entered(lock.lock(0));
    lock.unlock(guard);
    // The turn was slot 0's own: slot 1 was looked at, the turn moves past it.
    assert!(!lock.is_locked());
    assert_eq!(lock.turn(), 2);
    let guard = entered(lock.lock(5));
    lock.unlock(guard);
    // The turn was not slot 5's: slot 2 was looked at, the turn moves past it.
    assert!(!lock.is_locked());
    assert_eq!(lock.turn(), 3);
    assert!(!lock.is_waiting(5));
}

#[test]
fn only_the_successor_is_looked_at() {
    let mut lock = FairLock::new(0u32);
    let guard = entered(lock.lock(0));
    let ticket = kept_out(lock.lock(4));
    lock.unlock(guard);
    // Slot 1 does not wait, so the lock is freed though slot 4 waits.
    assert!(!lock.is_locked());
    assert!(lock.is_waiting(4));
    assert_eq!(lock.turn(), 2);
    assert!(lock.spin(ticket).is_entered());
}

#[test]
fn the_turn_wraps_round() {
    let mut lock = FairLock::new(0u32);
    let mut turns = Vec::new();
    for _ in 0..5 {
        let guard = entered(lock.lock(7));
        lock.unlock(guard);
        turns.push(lock.turn());
    }
    // Slot 7 never has the turn until the turn reaches it; then the turn
    // steps over slot 0 as well.
    assert_eq!(turns, vec![1, 2, 3, 4, 5]);
    let guard = entered(lock.lock(7));
    lock.unlock(guard);
    let guard = entered(lock.lock(7));
    lock.unlock(guard);
    assert_eq!(lock.turn(), 7);
    let guard = entered(lock.lock(7));
    lock.unlock(guard);
    assert_eq!(lock.turn(), 1);
}

#[test]
fn the_lock_is_handed_round_the_end() {
    let mut lock = FairLock::new(0u32);
    // Bring the turn to slot 7: a slot that has not the turn moves it by one.
    for _ in 0..7 {
        let guard = entered(lock.lock(7));
        lock.unlock(guard);
    }
    assert_eq!(lock.turn(), 7);
    let last = entered(lock.lock(7));
    let first = kept_out(lock.lock(0));
    lock.unlock(last);
    assert_eq!(lock.turn(), 0);
    assert!(lock.is_locked());
    let first = entered(lock.spin(first));
    // Slot 0 has the turn and nobody waits at slot 1: the lock is freed.
    lock.unlock(first);
    assert!(!lock.is_locked());
    assert_eq!(lock.turn(), 2);
}

#[test]
fn a_waiter_that_is_not_the_successor_is_served_when_the_turn_reaches_it() {
    let mut lock = FairLock::new(0u32);
    let holder = entered(lock.lock(0));
    let waiter = kept_out(lock.lock(3));
    lock.unlock(holder);
    // Freed, turn at 2. Slot 0 comes back before slot 3 moves.
    let holder = entered(lock.lock(0));
    let waiter = kept_out(lock.spin(waiter));
    lock.unlock(holder);
    // The turn was 2, not slot 0's: slot 2 was looked at; turn 3, freed.
    assert_eq!(lock.turn(), 3);
    assert!(!lock.is_locked());
    let holder = entered(lock.lock(0));
    let waiter = kept_out(lock.spin(waiter));
    lock.unlock(holder);
    // Now the successor is slot 3, which waits: it is handed the lock.
    assert_eq!(lock.turn(), 3);
    assert!(lock.is_locked());
    assert!(!lock.is_waiting(3));
    assert_eq!(entered(lock.spin(waiter)).idx(), 3);
}

/// Where a simulated thread stands.
enum At {
    Outside,
    Spinning(FairLockTicket),
    Inside(FairLockGuard),
}

impl At {
    fn from(got: Acquire) -> At {
        match got {
            Acquire::Entered(guard) => At::Inside(guard),
            Acquire::Waiting(ticket) => At::Spinning(ticket),
        }
    }
}

#[test]
fn four_contenders_count_to_four_hundred_thousand() {
    const ROUNDS: usize = 100_000;
    const CONTENDERS: usize = 4;
    let mut lock = FairLock::new(0usize);
    let mut dice = Dice { state: 7 };
    let mut at: Vec<At> = (0..CONTENDERS).map(|_| At::Outside).collect();
    let mut done = [0usize; CONTENDERS];
    loop {
        let open: Vec<usize> = (0..CONTENDERS)
            .filter(|&i| done[i] < ROUNDS || !matches!(at[i], At::Outside))
            .collect();
        if open.is_empty() {
            break;
        }
        let who = open[dice.roll(open.len())];
        let inside = at.iter().filter(|a| matches!(a, At::Inside(_))).count();
        assert!(inside <= 1);
        let now = std::mem::replace(&mut at[who], At::Outside);
        at[who] = match now {
            At::Outside => At::from(lock.lock(who)),
            At::Spinning(ticket) => At::from(lock.spin(ticket)),
            At::Inside(guard) => {
                assert_eq!(inside, 1);
                *lock.get_mut(&guard) += 1;
                lock.unlock(guard);
                done[who] += 1;
                At::Outside
            },
        };
    }
    let guard = entered(lock.lock(0));
    assert_eq!(*lock.get(&guard), ROUNDS * CONTENDERS);
}

#[test]
fn nobody_is_passed_more_than_eight_times() {
    let mut lock = FairLock::new(());
    let mut dice = Dice { state: 99 };
    let mut at: Vec<At> = (0..NUM_LOCK).map(|_| At::Outside).collect();
    // Per slot: how many others have entered since it announced itself.
    let mut passed = [0usize; NUM_LOCK];
    let mut worst = 0usize;
    for _ in 0..400_000 {
        // Slot 0 is starved of moves: it announces and then spins only rarely.
        let who = if dice.roll(50) == 0 { 0 } else { 1 + dice.roll(NUM_LOCK - 1) };
        let now = std::mem::replace(&mut at[who], At::Outside);
        let was_outside = matches!(now, At::Outside);
        let next = match now {
            At::Outside => At::from(lock.lock(who)),
            At::Spinning(ticket) => At::from(lock.spin(ticket)),
            At::Inside(guard) => {
                lock.unlock(guard);
                At::Outside
            },
        };
        if was_outside {
            passed[who] = 0;
        }
        if matches!(next, At::Inside(_)) {
            for other in 0..NUM_LOCK {
                if other != who && matches!(at[other], At::Spinning(_)) {
                    passed[other] += 1;
                    assert!(passed[other] <= NUM_LOCK);
                    worst = worst.max(passed[other]);
                }
            }
        }
        at[who] = next;
    }
    assert!(worst >= 1);
}
