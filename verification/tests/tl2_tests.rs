use oreilly_concurrent::tl2::Attempt;
use oreilly_concurrent::tl2::Memory;
use oreilly_concurrent::tl2::ReadTrans;
use oreilly_concurrent::tl2::STMResult;
use oreilly_concurrent::tl2::WriteTrans;
use oreilly_concurrent::tl2::LOCK_BIT;
use oreilly_concurrent::tl2::MAX_VERSION;
use oreilly_concurrent::tl2::MEM_SIZE;
use oreilly_concurrent::tl2::STM;
use oreilly_concurrent::tl2::STRIPE_NUM;
use oreilly_concurrent::tl2::STRIPE_SIZE;

const A: usize = 24;
const B: usize = 64;
const ONES: [u8; 8] = [1, 1, 1, 1, 1, 1, 1, 1];
const COUNT: [u8; 8] = [1, 2, 3, 4, 5, 6, 7, 8];

/// Reads one stripe outside any transaction of interest.
fn peek(mem: &Memory, addr: usize) -> Option<[u8; 8]> {
    ReadTrans::new(mem).load(mem, addr)
}

/// Commits one store as a transaction of its own.
fn poke(mem: &mut Memory, addr: usize, val: [u8; 8]) {
    let mut tr = WriteTrans::new(mem);
    tr.store(addr, val);
    assert!(tr.try_commit(mem));
}

#[test]
fn the_image_has_sixty_four_stripes_of_eight_bytes() {
    assert_eq!(STRIPE_SIZE, 8);
    assert_eq!(MEM_SIZE, 512);
    assert_eq!(STRIPE_NUM, 64);
    assert_eq!(LOCK_BIT, 1u64 << 63);
    assert_eq!(MAX_VERSION, (1u64 << 63) - 1);
}

#[test]
fn a_new_memory_is_zeroed_and_unlocked() {
    let mem = Memory::new();
    assert_eq!(mem.clock(), 0);
    let mut tr = ReadTrans::new(&mem);
    for stripe in 0..STRIPE_NUM {
        let addr = stripe * STRIPE_SIZE;
        assert_eq!(tr.load(&mem, addr), Some([0u8; 8]));
        assert!(!mem.is_locked(addr));
        assert_eq!(mem.get_addr_ver(addr), 0);
        assert!(mem.test_not_modify(addr, 0));
    }
    assert!(!tr.is_abort());
}

#[test]
fn the_clock_hands_out_its_old_value() {
    let mut mem = Memory::new();
    assert_eq!(mem.inc_global_clock(), 0);
    assert_eq!(mem.inc_global_clock(), 1);
    assert_eq!(mem.clock(), 2);
    assert_eq!(ReadTrans::new(&mem).read_ver(), 2);
    assert_eq!(WriteTrans::new(&mem).read_ver(), 2);
}

#[test]
fn a_stripe_is_locked_once() {
    let mut mem = Memory::new();
    poke(&mut mem, A, COUNT);
    assert_eq!(mem.get_addr_ver(A), 1);
    assert!(mem.lock_addr(A));
    assert!(mem.is_locked(A));
    assert!(!mem.lock_addr(A));
    // The lock flag hides no version, and a locked stripe is never readable.
    assert_eq!(mem.get_addr_ver(A), 1);
    assert!(!mem.test_not_modify(A, 1));
    assert!(!mem.test_not_modify(A, MAX_VERSION));
    // Every byte of the stripe is guarded by the same word.
    assert!(mem.is_locked(A + 7));
    assert!(!mem.is_locked(A + 8));
    assert!(!mem.is_locked(A - 1));
    mem.unlock_addr(A);
    assert!(!mem.is_locked(A));
    assert_eq!(mem.get_addr_ver(A), 1);
    assert!(mem.test_not_modify(A, 1));
    assert!(!mem.test_not_modify(A, 0));
    mem.unlock_addr(A);
    assert_eq!(mem.get_addr_ver(A), 1);
}

#[test]
fn a_store_is_buffered_until_the_commit() {
    let mut mem = Memory::new();
    let mut tr = WriteTrans::new(&mem);
    tr.store(A, COUNT);
    assert_eq!(tr.load(&mem, A), Some(COUNT));
    assert_eq!(peek(&mem, A), Some([0u8; 8]));
    assert!(tr.try_commit(&mut mem));
    assert_eq!(peek(&mem, A), Some(COUNT));
    assert_eq!(mem.clock(), 1);
    assert_eq!(mem.get_addr_ver(A), 1);
    assert!(!mem.is_locked(A));
    assert_eq!(tr.locked_len(), 0);
    // The neighbours are untouched.
    assert_eq!(peek(&mem, A - 8), Some([0u8; 8]));
    assert_eq!(peek(&mem, A + 8), Some([0u8; 8]));
    assert_eq!(mem.get_addr_ver(A + 8), 0);
}

#[test]
fn the_last_store_to_an_address_wins() {
    let mut mem = Memory::new();
    let mut tr = WriteTrans::new(&mem);
    tr.store(A, ONES);
    tr.store(B, ONES);
    tr.store(A, COUNT);
    assert_eq!(tr.load(&mem, A), Some(COUNT));
    assert!(tr.try_commit(&mut mem));
    assert_eq!(peek(&mem, A), Some(COUNT));
    assert_eq!(peek(&mem, B), Some(ONES));
    assert_eq!(mem.get_addr_ver(A), 1);
    assert_eq!(mem.get_addr_ver(B), 1);
    assert_eq!(mem.clock(), 1);
}

#[test]
fn a_reader_gives_up_on_a_stripe_committed_after_it_began() {
    let mut mem = Memory::new();
    let mut early = ReadTrans::new(&mem);
    poke(&mut mem, A, COUNT);
    assert_eq!(early.load(&mem, B), Some([0u8; 8]));
    assert!(!early.is_abort());
    assert_eq!(early.load(&mem, A), None);
    assert!(early.is_abort());
    // The flag is sticky: a stripe that is fine is no longer read.
    assert_eq!(early.load(&mem, B), None);
    assert_eq!(early.finish(STMResult::Success(5)), Attempt::Restart);
    // Begun again, the reader sees the commit.
    let mut late = ReadTrans::new(&mem);
    assert_eq!(late.load(&mem, A), Some(COUNT));
    assert_eq!(late.finish(STMResult::Success(5)), Attempt::Done(Some(5)));
}

#[test]
fn a_reader_gives_up_on_a_locked_stripe() {
    let mut mem = Memory::new();
    let mut writer = WriteTrans::new(&mem);
    writer.store(A, COUNT);
    assert!(writer.lock_write_set(&mut mem));
    let mut reader = ReadTrans::new(&mem);
    assert_eq!(reader.load(&mem, A), None);
    assert!(reader.is_abort());
}

#[test]
fn the_body_decides_how_a_consistent_attempt_ends() {
    let mem = Memory::new();
    assert_eq!(ReadTrans::new(&mem).finish(STMResult::Success(5)), Attempt::Done(Some(5)));
    assert_eq!(ReadTrans::new(&mem).finish(STMResult::<u8>::Retry), Attempt::Done(None));
    assert_eq!(ReadTrans::new(&mem).finish(STMResult::<u8>::Abort), Attempt::Done(None));
}

#[test]
fn an_inconsistent_attempt_starts_again_unless_the_body_aborts() {
    let mut mem = Memory::new();
    let mut spoiled = Vec::new();
    for _ in 0..3 {
        let mut tr = ReadTrans::new(&mem);
        mem.lock_addr(A);
        assert_eq!(tr.load(&mem, A), None);
        mem.unlock_addr(A);
        spoiled.push(tr);
    }
    assert_eq!(spoiled.pop().unwrap().finish(STMResult::Success(5)), Attempt::Restart);
    assert_eq!(spoiled.pop().unwrap().finish(STMResult::<u8>::Retry), Attempt::Restart);
    assert_eq!(spoiled.pop().unwrap().finish(STMResult::<u8>::Abort), Attempt::Done(None));
}

#[test]
fn a_writer_reads_like_a_reader_where_it_has_not_stored() {
    let mut mem = Memory::new();
    poke(&mut mem, A, COUNT);
    let mut tr = WriteTrans::new(&mem);
    assert_eq!(tr.load(&mem, A), Some(COUNT));
    poke(&mut mem, B, ONES);
    assert_eq!(tr.load(&mem, B), None);
    assert!(tr.is_abort());
    assert_eq!(tr.load(&mem, A), None);
    // A store still goes to the buffer, but the attempt is lost.
    tr.store(A, ONES);
    assert_eq!(tr.finish(&mut mem, STMResult::Success(())), Attempt::Restart);
    assert_eq!(peek(&mem, A), Some(COUNT));
    assert_eq!(mem.clock(), 2);
}

#[test]
fn a_buffered_store_is_read_back_even_when_memory_has_moved_on() {
    let mut mem = Memory::new();
    let mut tr = WriteTrans::new(&mem);
    tr.store(A, ONES);
    poke(&mut mem, A, COUNT);
    assert_eq!(tr.load(&mem, A), Some(ONES));
    assert!(!tr.is_abort());
}

#[test]
fn a_commit_fails_on_a_stripe_that_another_writer_holds() {
    let mut mem = Memory::new();
    let mut first = WriteTrans::new(&mem);
    first.store(A, ONES);
    assert!(first.lock_write_set(&mut mem));
    assert_eq!(first.locked_len(), 1);
    let mut second = WriteTrans::new(&mem);
    second.store(A, COUNT);
    second.store(B, COUNT);
    assert!(!second.try_commit(&mut mem));
    // The loser holds nothing, the winner still holds its stripe, and the
    // clock has not moved.
    assert_eq!(second.locked_len(), 0);
    assert!(mem.is_locked(A));
    assert!(!mem.is_locked(B));
    assert_eq!(mem.clock(), 0);
    let ver = 1 + mem.inc_global_clock();
    first.commit(&mut mem, ver);
    assert_eq!(peek(&mem, A), Some(ONES));
    assert_eq!(peek(&mem, B), Some([0u8; 8]));
    // Run again, the second writer gets through.
    let mut again = WriteTrans::new(&mem);
    again.store(A, COUNT);
    again.store(B, COUNT);
    assert!(again.try_commit(&mut mem));
    assert_eq!(peek(&mem, A), Some(COUNT));
    assert_eq!(mem.get_addr_ver(A), 2);
    assert_eq!(mem.get_addr_ver(B), 2);
}

#[test]
fn a_commit_fails_when_what_was_read_has_changed() {
    let mut mem = Memory::new();
    let mut tr = WriteTrans::new(&mem);
    assert_eq!(tr.load(&mem, A), Some([0u8; 8]));
    tr.store(B, ONES);
    poke(&mut mem, A, COUNT);
    assert!(!tr.validate_read_set(&mem));
    assert!(!tr.try_commit(&mut mem));
    // Nothing was written and nothing stays locked; the clock was drawn.
    assert_eq!(peek(&mem, B), Some([0u8; 8]));
    assert!(!mem.is_locked(B));
    assert_eq!(mem.get_addr_ver(B), 0);
    assert_eq!(mem.clock(), 2);
}

#[test]
fn a_commit_fails_when_a_read_stripe_is_locked_by_another() {
    let mut mem = Memory::new();
    let mut tr = WriteTrans::new(&mem);
    assert_eq!(tr.load(&mem, A), Some([0u8; 8]));
    tr.store(B, ONES);
    poke(&mut mem, 0, COUNT);
    let mut other = WriteTrans::new(&mem);
    other.store(A, COUNT);
    assert!(other.lock_write_set(&mut mem));
    assert!(!tr.validate_read_set(&mem));
    assert!(!tr.try_commit(&mut mem));
    assert!(mem.is_locked(A));
    assert!(!mem.is_locked(B));
}

#[test]
fn its_own_lock_does_not_stop_a_writer() {
    let mut mem = Memory::new();
    let mut tr = WriteTrans::new(&mem);
    assert_eq!(tr.load(&mem, A), Some([0u8; 8]));
    tr.store(A, ONES);
    poke(&mut mem, B, COUNT);
    // The clock has moved, so the read set is checked, under the writer's
    // own lock on the stripe that it both read and writes.
    assert!(tr.try_commit(&mut mem));
    assert_eq!(peek(&mem, A), Some(ONES));
    assert_eq!(mem.get_addr_ver(A), 2);
    assert_eq!(mem.clock(), 2);
}

#[test]
fn a_stripe_read_and_written_must_not_have_changed() {
    let mut mem = Memory::new();
    let mut tr = WriteTrans::new(&mem);
    tr.store(A, ONES);
    assert_eq!(tr.load(&mem, A), Some(ONES));
    poke(&mut mem, A, COUNT);
    assert!(!tr.try_commit(&mut mem));
    assert_eq!(peek(&mem, A), Some(COUNT));
    assert!(!mem.is_locked(A));
}

#[test]
fn the_check_is_skipped_when_the_clock_moved_by_one() {
    let mut mem = Memory::new();
    poke(&mut mem, 0, COUNT);
    let mut tr = WriteTrans::new(&mem);
    assert_eq!(tr.load(&mem, A), Some([0u8; 8]));
    tr.store(B, ONES);
    // Another writer holds the stripe that was read, but has committed
    // nothing: a check would fail, yet nothing that was read is stale.
    let mut other = WriteTrans::new(&mem);
    other.store(A, COUNT);
    assert!(other.lock_write_set(&mut mem));
    assert!(!tr.validate_read_set(&mem));
    assert!(tr.try_commit(&mut mem));
    assert_eq!(mem.clock(), 2);
    assert_eq!(mem.get_addr_ver(B), 2);
    assert_eq!(mem.get_addr_ver(A), 0);
    other.release(&mut mem);
    assert_eq!(peek(&mem, A), Some([0u8; 8]));
    assert_eq!(peek(&mem, B), Some(ONES));
}

#[test]
fn an_abandoned_writer_leaves_no_stripe_locked() {
    let mut mem = Memory::new();
    poke(&mut mem, A, COUNT);
    let mut tr = WriteTrans::new(&mem);
    tr.store(A, ONES);
    tr.store(B, ONES);
    assert!(tr.lock_write_set(&mut mem));
    assert_eq!(tr.locked_len(), 2);
    assert!(mem.is_locked(A));
    assert!(mem.is_locked(B));
    tr.release(&mut mem);
    assert_eq!(tr.locked_len(), 0);
    assert!(!mem.is_locked(A));
    assert!(!mem.is_locked(B));
    assert_eq!(mem.get_addr_ver(A), 1);
    assert_eq!(mem.get_addr_ver(B), 0);
    assert_eq!(mem.clock(), 1);
    // Later transactions go ahead.
    assert_eq!(peek(&mem, A), Some(COUNT));
    assert_eq!(peek(&mem, B), Some([0u8; 8]));
    poke(&mut mem, B, COUNT);
    assert_eq!(peek(&mem, B), Some(COUNT));
}

#[test]
fn a_writer_that_cannot_lock_everything_gives_back_what_it_locked() {
    let mut mem = Memory::new();
    assert!(mem.lock_addr(B));
    let mut tr = WriteTrans::new(&mem);
    for stripe in 0..16 {
        tr.store(stripe * STRIPE_SIZE, ONES);
    }
    assert!(!tr.lock_write_set(&mut mem));
    assert!(tr.locked_len() < 16);
    tr.release(&mut mem);
    for stripe in 0..16 {
        assert_eq!(mem.is_locked(stripe * STRIPE_SIZE), stripe * STRIPE_SIZE == B);
    }
}

#[test]
fn an_aborted_write_leaves_memory_as_it_was() {
    let mut stm = STM::new();
    let out = stm.write_tansaction(|tr, _mem| {
        tr.store(A, ONES);
        tr.store(B, ONES);
        STMResult::<()>::Abort
    });
    assert_eq!(out, Attempt::Done(None));
    assert_eq!(stm.memory().clock(), 0);
    for stripe in 0..STRIPE_NUM {
        assert!(!stm.memory().is_locked(stripe * STRIPE_SIZE));
        assert_eq!(stm.memory().get_addr_ver(stripe * STRIPE_SIZE), 0);
    }
    let seen = stm.read_transaction(|tr, mem| match (tr.load(mem, A), tr.load(mem, B)) {
        (Some(a), Some(b)) => STMResult::Success((a, b)),
        _ => STMResult::Retry,
    });
    assert_eq!(seen, Attempt::Done(Some(([0u8; 8], [0u8; 8]))));
}

#[test]
fn a_retry_without_conflict_ends_with_nothing() {
    let mut stm = STM::new();
    let out = stm.write_tansaction(|tr, _mem| {
        tr.store(A, ONES);
        STMResult::<()>::Retry
    });
    assert_eq!(out, Attempt::Done(None));
    assert_eq!(stm.read_transaction(|_tr, _mem| STMResult::<u8>::Retry), Attempt::Done(None));
    assert_eq!(peek(stm.memory(), A), Some([0u8; 8]));
}

#[test]
fn a_transaction_moves_a_value_between_stripes() {
    let mut stm = STM::new();
    assert_eq!(
        stm.write_tansaction(|tr, _mem| {
            tr.store(A, COUNT);
            STMResult::Success(1)
        }),
        Attempt::Done(Some(1))
    );
    let moved = stm.write_tansaction(|tr, mem| {
        let from = match tr.load(mem, A) {
            Some(v) => v,
            None => return STMResult::Retry,
        };
        tr.store(B, from);
        tr.store(A, [0u8; 8]);
        STMResult::Success(from[7])
    });
    assert_eq!(moved, Attempt::Done(Some(8)));
    assert_eq!(stm.memory().clock(), 2);
    let seen = stm.read_transaction(|tr, mem| match (tr.load(mem, A), tr.load(mem, B)) {
        (Some(a), Some(b)) => STMResult::Success((a, b)),
        _ => STMResult::Retry,
    });
    assert_eq!(seen, Attempt::Done(Some(([0u8; 8], COUNT))));
}

#[test]
fn an_attempt_that_saw_a_conflict_asks_to_be_run_again() {
    let mut held = Memory::new();
    assert!(held.lock_addr(A));
    let mut stm = STM::new();
    // The bodies look at a memory in which the stripe is locked.
    let read = stm.read_transaction(|tr, _mem| match tr.load(&held, A) {
        Some(v) => STMResult::Success(v),
        None => STMResult::Retry,
    });
    assert_eq!(read, Attempt::Restart);
    let write = stm.write_tansaction(|tr, _mem| {
        tr.store(B, ONES);
        match tr.load(&held, A) {
            Some(_) => STMResult::Success(()),
            None => STMResult::Retry,
        }
    });
    assert_eq!(write, Attempt::Restart);
    let stubborn = stm.write_tansaction(|tr, _mem| {
        tr.store(B, ONES);
        let _ = tr.load(&held, A);
        STMResult::Success(())
    });
    assert_eq!(stubborn, Attempt::Restart);
    let gives_up = stm.write_tansaction(|tr, _mem| {
        let _ = tr.load(&held, A);
        STMResult::<()>::Abort
    });
    assert_eq!(gives_up, Attempt::Done(None));
    assert_eq!(peek(stm.memory(), B), Some([0u8; 8]));
    assert_eq!(stm.memory().clock(), 0);
}

#[test]
fn giving_up_after_locking_releases_the_stripes() {
    let mut mem = Memory::new();
    for result in [STMResult::<u8>::Abort, STMResult::<u8>::Retry] {
        let mut tr = WriteTrans::new(&mem);
        tr.store(A, ONES);
        assert!(tr.lock_write_set(&mut mem));
        assert!(mem.is_locked(A));
        assert_eq!(tr.finish(&mut mem, result), Attempt::Done(None));
        assert!(!mem.is_locked(A));
        assert_eq!(peek(&mem, A), Some([0u8; 8]));
    }
    assert_eq!(mem.clock(), 0);
}

#[test]
fn a_transaction_without_stores_still_draws_a_version() {
    let mut stm = STM::new();
    let out = stm.write_tansaction(|tr, mem| match tr.load(mem, A) {
        Some(v) => STMResult::Success(v[0] == 0),
        None => STMResult::Retry,
    });
    assert_eq!(out, Attempt::Done(Some(true)));
    assert_eq!(stm.memory().clock(), 1);
    assert_eq!(stm.memory().get_addr_ver(A), 0);
}

#[test]
fn versions_of_a_stripe_only_grow() {
    let mut mem = Memory::new();
    let mut last = 0;
    for round in 1..=5u8 {
        poke(&mut mem, A, [round; 8]);
        poke(&mut mem, B, [round; 8]);
        let ver = mem.get_addr_ver(A);
        assert!(ver > last);
        assert_eq!(ver, 2 * round as u64 - 1);
        assert_eq!(mem.get_addr_ver(B), 2 * round as u64);
        assert!(mem.lock_addr(A));
        assert_eq!(mem.get_addr_ver(A), ver);
        mem.unlock_addr(A);
        assert_eq!(mem.get_addr_ver(A), ver);
        last = ver;
    }
    assert_eq!(mem.clock(), 10);
    assert_eq!(peek(&mem, A), Some([5u8; 8]));
}

#[test]
fn the_default_memories_are_new_ones() {
    let mem = Memory::default();
    assert_eq!(mem.clock(), 0);
    assert_eq!(peek(&mem, MEM_SIZE - STRIPE_SIZE), Some([0u8; 8]));
    let stm = STM::default();
    assert_eq!(stm.memory().clock(), 0);
    assert_eq!(peek(stm.memory(), 0), Some([0u8; 8]));
}

/// A small linear congruential generator, to pick who moves next.
struct Dice {
    state: u64,
}

impl Dice {
    fn roll(&mut self, sides: usize) -> usize {
        self.state = self.state.wrapping_mul(6364136223846793005).wrapping_add(1442695040888963407);
        ((self.state >> 33) as usize) % sides
    }
}

/// A philosopher who takes both chopsticks in one transaction and puts
/// them back in another, one step of a transaction per move.
struct Philosopher {
    left: usize,
    right: usize,
    holds: bool,
    meals: usize,
    step: usize,
    tr: Option<WriteTrans>,
    seen: [[u8; 8]; 2],
    takes: bool,
    ver: u64,
}

impl Philosopher {
    fn restart(&mut self, mem: &mut Memory) {
        if let Some(mut tr) = self.tr.take() {
            tr.release(mem);
        }
        self.step = 0;
    }

    fn advance(&mut self, mem: &mut Memory) {
        match self.step {
            0 => {
                self.tr = Some(WriteTrans::new(mem));
                self.step = 1;
            },
            1 | 2 => {
                let addr = if self.step == 1 { self.left } else { self.right };
                match self.tr.as_mut().unwrap().load(mem, addr) {
                    Some(v) => {
                        self.seen[self.step - 1] = v;
                        self.step += 1;
                    },
                    None => self.restart(mem),
                }
            },
            3 => {
                let tr = self.tr.as_mut().unwrap();
                let free = self.seen[0][0] == 0 && self.seen[1][0] == 0;
                self.takes = !self.holds && free;
                if self.holds || free {
                    let mark = if self.holds { 0 } else { 1 };
                    let mut f1 = self.seen[0];
                    let mut f2 = self.seen[1];
                    f1[0] = mark;
                    f2[0] = mark;
                    tr.store(self.left, f1);
                    tr.store(self.right, f2);
                }
                self.step = 4;
            },
            4 => {
                if self.tr.as_mut().unwrap().lock_write_set(mem) {
                    self.step = 5;
                } else {
                    self.restart(mem);
                }
            },
            5 => {
                self.ver = 1 + mem.inc_global_clock();
                self.step = 6;
            },
            6 => {
                let tr = self.tr.as_ref().unwrap();
                if tr.read_ver() + 1 != self.ver && !tr.validate_read_set(mem) {
                    self.restart(mem);
                } else {
                    self.step = 7;
                }
            },
            _ => {
                let mut tr = self.tr.take().unwrap();
                tr.commit(mem, self.ver);
                if self.holds {
                    self.holds = false;
                    self.meals += 1;
                } else if self.takes {
                    self.holds = true;
                }
                self.step = 0;
            },
        }
    }
}

#[test]
fn an_observer_never_sees_an_odd_number_of_chopsticks_taken() {
    const SEATS: usize = 8;
    const MEALS: usize = 100_000;
    let mut mem = Memory::new();
    let mut dice = Dice { state: 2024 };
    let mut table: Vec<Philosopher> = (0..SEATS)
        .map(|n| Philosopher {
            left: 8 * n,
            right: 8 * ((n + 1) % SEATS),
            holds: false,
            meals: 0,
            step: 0,
            tr: None,
            seen: [[0u8; 8]; 2],
            takes: false,
            ver: 0,
        })
        .collect();
    let mut watcher: Option<ReadTrans> = None;
    let mut watched: Vec<u8> = Vec::new();
    let mut samples = 0usize;
    let mut taken_seen = 0usize;
    let mut restarts = 0usize;
    while table.iter().any(|p| p.meals < MEALS) {
        let who = dice.roll(SEATS + 2);
        if who < SEATS {
            if table[who].meals < MEALS {
                table[who].advance(&mut mem);
            }
            continue;
        }
        match watcher.as_mut() {
            None => {
                watcher = Some(ReadTrans::new(&mem));
                watched.clear();
            },
            Some(tr) => match tr.load(&mem, 8 * watched.len()) {
                Some(v) => {
                    watched.push(v[0]);
                    if watched.len() == SEATS {
                        let taken = watched.iter().filter(|&&c| c == 1).count();
                        assert_eq!(taken % 2, 0, "inconsistent: {:?}", watched);
                        taken_seen += taken;
                        samples += 1;
                        watcher = None;
                    }
                },
                None => {
                    restarts += 1;
                    watcher = None;
                },
            },
        }
    }
    assert!(samples >= 10_000, "only {} samples", samples);
    assert!(taken_seen > 0);
    assert!(restarts > 0);
    for seat in 0..SEATS {
        assert_eq!(table[seat].meals, MEALS);
        assert!(!mem.is_locked(8 * seat));
        assert_eq!(peek(&mem, 8 * seat), Some([0u8; 8]));
    }
}
