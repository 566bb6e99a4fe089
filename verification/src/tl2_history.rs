//! Transactions that run side by side on one memory, one atomic step of
//! one transaction at a time, and what they can observe: every value that
//! a load hands out belongs to the memory as it was committed up to the
//! version at which the reading transaction began.

use crate::tl2::lemma_relock;
use crate::tl2::stripe_of;
use crate::tl2::valid_addr;
use crate::tl2::word_locked;
use crate::tl2::word_set_lock;
use crate::tl2::word_version;
use crate::tl2::MemoryView;
use crate::tl2::WriteView;
use crate::tl2::MAX_VERSION;
use crate::tl2::MEM_SIZE;
use vstd::prelude::*;

verus! {

/// How far a transaction has come.
pub enum Stage {
    /// The body runs: the transaction loads and stores.
    Active,
    /// The whole write set is locked.
    Holding,
    /// A step of the commit has failed: all that is left is to release.
    Doomed,
    /// The write version is drawn.
    Ticked(u64),
    /// The read set has been checked, or the check was skipped.
    Cleared(u64),
    /// Committed at this write version; nothing is held.
    Committed(u64),
    /// Given up; nothing is held.
    Dropped,
}

/// One value that a load took from memory.
pub struct Sight {
    /// The address that was loaded.
    pub addr: usize,
    /// The bytes that the load returned.
    pub bytes: Seq<u8>,
}

/// One transaction in flight. A transaction that never stores is a
/// read-only transaction.
pub struct Actor {
    /// The transaction's own state.
    pub tx: WriteView,
    /// How far it has come.
    pub stage: Stage,
    /// What its loads took from memory, in the order of the loads.
    pub seen: Seq<Sight>,
}

/// One atomic step of one transaction, named by its position among the
/// transactions begun so far. Each step is one call of a function of
/// `ReadTrans`, `WriteTrans` or `Memory`.
pub enum Event {
    /// A new transaction begins (`new`).
    Begin,
    /// The transaction loads an address (`load`).
    Load(int, usize),
    /// The transaction buffers a store (`store`).
    Store(int, usize, [u8; 8]),
    /// The transaction locks its write set (`lock_write_set`) and gets
    /// these stripes locked, in this order, before it is through or meets
    /// a locked one.
    Lock(int, Seq<usize>),
    /// The transaction advances the clock (`inc_global_clock`) and takes
    /// the new value as its write version.
    Tick(int),
    /// The transaction checks its read set (`validate_read_set`), unless
    /// its write version is its read version plus one.
    Check(int),
    /// The transaction writes its stores and releases its stripes at its
    /// write version (`commit`).
    Commit(int),
    /// The transaction is given up and releases what it holds
    /// (`release`).
    Release(int),
}

/// A memory, the transactions that run on it, and the write sets that
/// have been committed, by write version.
pub struct World {
    /// The memory image.
    pub mem: MemoryView,
    /// The transactions, in the order in which they began.
    pub actors: Seq<Actor>,
    /// The write set of each transaction that has committed, under its
    /// write version.
    pub log: Map<u64, Map<usize, [u8; 8]>>,
    /// The bytes of the memory before any of the transactions began.
    pub origin: Seq<u8>,
}

/// The stripe at `addr` as it was committed up to version `ver`: what the
/// newest commit at or below `ver` that wrote the stripe stored there, or
/// the bytes from before any commit if there is none.
pub open spec fn stripe_as_of(
    origin: Seq<u8>,
    log: Map<u64, Map<usize, [u8; 8]>>,
    ver: nat,
    addr: usize,
) -> Seq<u8>
    decreases ver,
{
    if ver == 0 {
        origin.subrange(addr as int, addr as int + 8)
    } else if log.contains_key(ver as u64) && log[ver as u64].contains_key(addr) {
        log[ver as u64][addr]@
    } else {
        stripe_as_of(origin, log, (ver - 1) as nat, addr)
    }
}

impl Actor {
    /// The write version, once it is drawn and the transaction is still on
    /// its way to the commit.
    pub open spec fn write_ver(self) -> Option<u64> {
        match self.stage {
            Stage::Ticked(wv) => Some(wv),
            Stage::Cleared(wv) => Some(wv),
            _ => None,
        }
    }

    /// The write version, once the read set has been checked or the check
    /// was skipped.
    pub open spec fn settled_ver(self) -> Option<u64> {
        match self.stage {
            Stage::Cleared(wv) => Some(wv),
            Stage::Committed(wv) => Some(wv),
            _ => None,
        }
    }

    /// Whether the transaction holds the stripe at `addr` locked.
    pub open spec fn holds(self, addr: usize) -> bool {
        self.tx.locked.contains(addr)
    }
}

impl World {
    /// A memory on which no transaction has begun yet.
    pub open spec fn start(mem: MemoryView) -> World {
        World { mem, actors: Seq::empty(), log: Map::empty(), origin: mem.bytes }
    }

    /// The stripe at `addr` as it was committed up to version `ver`.
    pub open spec fn stripe_at(self, ver: nat, addr: usize) -> Seq<u8> {
        stripe_as_of(self.origin, self.log, ver, addr)
    }

    /// Whether `t` names a transaction.
    pub open spec fn has(self, t: int) -> bool {
        0 <= t < self.actors.len()
    }

    /// Whether the step may be taken: a transaction loads and stores
    /// while its body runs, then locks, draws its version, checks and
    /// commits in this order, and can be given up as long as it is not
    /// over. What a locking step gets locked is as `lock_write_set` says.
    pub open spec fn allows(self, e: Event) -> bool {
        match e {
            Event::Begin => true,
            Event::Load(t, addr) => self.has(t) && self.actors[t].stage is Active && valid_addr(
                addr,
            ),
            Event::Store(t, addr, val) => self.has(t) && self.actors[t].stage is Active
                && valid_addr(addr),
            Event::Lock(t, got) => {
                &&& self.has(t)
                &&& self.actors[t].stage is Active
                &&& got.no_duplicates()
                &&& got.to_set().subset_of(self.actors[t].tx.write_set.dom())
                &&& self.mem.all_unlocked(got.to_set())
                &&& self.mem.all_unlocked(self.actors[t].tx.write_set.dom()) ==> got.to_set()
                    == self.actors[t].tx.write_set.dom()
            },
            Event::Tick(t) => self.has(t) && self.actors[t].stage is Holding && self.mem.clock
                < MAX_VERSION,
            Event::Check(t) => self.has(t) && self.actors[t].stage is Ticked,
            Event::Commit(t) => self.has(t) && self.actors[t].stage is Cleared,
            Event::Release(t) => self.has(t) && !(self.actors[t].stage is Committed)
                && !(self.actors[t].stage is Dropped),
        }
    }

    /// The world with transaction `t` replaced.
    pub open spec fn with_actor(self, t: int, actor: Actor) -> World {
        World { actors: self.actors.update(t, actor), ..self }
    }

    /// The world after the step. Each step changes the memory and the
    /// transaction as the function of the same name does.
    pub open spec fn after(self, e: Event) -> World {
        match e {
            Event::Begin => World {
                actors: self.actors.push(
                    Actor {
                        tx: WriteView::begun(self.mem.clock),
                        stage: Stage::Active,
                        seen: Seq::empty(),
                    },
                ),
                ..self
            },
            Event::Load(t, addr) => {
                let actor = self.actors[t];
                let from_memory = !actor.tx.is_abort && !actor.tx.write_set.contains_key(addr)
                    && actor.tx.load_outcome(self.mem, addr) is Some;
                self.with_actor(
                    t,
                    Actor {
                        tx: actor.tx.after_load(self.mem, addr),
                        seen: if from_memory {
                            actor.seen.push(Sight { addr, bytes: self.mem.stripe_bytes(addr) })
                        } else {
                            actor.seen
                        },
                        ..actor
                    },
                )
            },
            Event::Store(t, addr, val) => {
                let actor = self.actors[t];
                self.with_actor(
                    t,
                    Actor {
                        tx: WriteView { write_set: actor.tx.write_set.insert(addr, val), ..actor.tx },
                        ..actor
                    },
                )
            },
            Event::Lock(t, got) => {
                let actor = self.actors[t];
                World { mem: self.mem.lock_all(got.to_set()), ..self }.with_actor(
                    t,
                    Actor {
                        tx: WriteView { locked: actor.tx.locked + got, ..actor.tx },
                        stage: if self.mem.all_unlocked(actor.tx.write_set.dom()) {
                            Stage::Holding
                        } else {
                            Stage::Doomed
                        },
                        ..actor
                    },
                )
            },
            Event::Tick(t) => {
                let actor = self.actors[t];
                World { mem: self.mem.ticked(), ..self }.with_actor(
                    t,
                    Actor { stage: Stage::Ticked((self.mem.clock + 1) as u64), ..actor },
                )
            },
            Event::Check(t) => {
                let actor = self.actors[t];
                let wv = actor.stage->Ticked_0;
                self.with_actor(
                    t,
                    Actor {
                        stage: if actor.tx.read_ver + 1 != wv && !actor.tx.read_set_valid(
                            self.mem,
                        ) {
                            Stage::Doomed
                        } else {
                            Stage::Cleared(wv)
                        },
                        ..actor
                    },
                )
            },
            Event::Commit(t) => {
                let actor = self.actors[t];
                let wv = actor.stage->Cleared_0;
                World {
                    mem: self.mem.committed(actor.tx.write_set, wv),
                    log: self.log.insert(wv, actor.tx.write_set),
                    ..self
                }.with_actor(
                    t,
                    Actor {
                        tx: WriteView { locked: Seq::empty(), ..actor.tx },
                        stage: Stage::Committed(wv),
                        ..actor
                    },
                )
            },
            Event::Release(t) => {
                let actor = self.actors[t];
                World { mem: self.mem.unlock_all(actor.tx.locked.to_set()), ..self }.with_actor(
                    t,
                    Actor {
                        tx: WriteView { locked: Seq::empty(), ..actor.tx },
                        stage: Stage::Dropped,
                        ..actor
                    },
                )
            },
        }
    }

    /// Whether each of the steps may be taken in turn.
    pub open spec fn allows_all(self, events: Seq<Event>) -> bool
        decreases events.len(),
    {
        events.len() == 0 || (self.allows(events[0]) && self.after(events[0]).allows_all(
            events.drop_first(),
        ))
    }

    /// The world after the steps have been taken in turn.
    pub open spec fn after_all(self, events: Seq<Event>) -> World
        decreases events.len(),
    {
        if events.len() == 0 {
            self
        } else {
            self.after(events[0]).after_all(events.drop_first())
        }
    }

    /// Every value that a load of any transaction took from memory is the
    /// stripe as it was committed up to the version at which that
    /// transaction began.
    pub open spec fn opaque(self) -> bool {
        forall|t: int, i: int|
            self.has(t) && 0 <= i < self.actors[t].seen.len() ==> (#[trigger] self.actors[t].seen[i]).bytes
                == self.stripe_at(
                self.actors[t].tx.read_ver as nat,
                self.actors[t].seen[i].addr,
            )
    }
}


impl World {
    /// The memory has its size and no version is ahead of the clock.
    pub open spec fn shape_ok(self) -> bool {
        self.mem.shaped() && self.mem.versions_bounded() && self.origin.len() == MEM_SIZE
    }

    /// Each transaction is well formed and stands where its stage says.
    pub open spec fn actor_ok(self, t: int) -> bool {
        let a = self.actors[t];
        &&& a.tx.wf()
        &&& a.tx.read_ver <= self.mem.clock
        &&& (a.stage is Active || a.stage is Committed || a.stage is Dropped)
            ==> a.tx.locked.len() == 0
        &&& a.stage matches Stage::Committed(wv) ==> self.log.contains_key(wv) && self.log[wv]
            == a.tx.write_set
        &&& (a.stage is Holding || a.stage is Ticked || a.stage is Cleared)
            ==> a.tx.locked.to_set() == a.tx.write_set.dom()
        &&& a.write_ver() matches Some(wv) ==> {
            &&& a.tx.read_ver < wv
            &&& wv <= self.mem.clock
            &&& !self.log.contains_key(wv)
            &&& forall|x: usize| #[trigger]
                a.tx.write_set.contains_key(x) ==> word_version(self.mem.word_at(x)) < wv
        }
    }

    /// Every transaction is as its stage says.
    pub open spec fn actors_ok(self) -> bool {
        forall|t: int| self.has(t) ==> #[trigger] self.actor_ok(t)
    }

    /// A stripe that a transaction holds is locked, and no two hold one
    /// stripe.
    pub open spec fn locks_ok(self) -> bool {
        &&& forall|t: int, x: usize|
            self.has(t) && #[trigger] self.actors[t].holds(x) ==> word_locked(self.mem.word_at(x))
        &&& forall|t: int, u: int, x: usize|
            self.has(t) && self.has(u) && t != u && #[trigger] self.actors[t].holds(x)
                ==> !#[trigger] self.actors[u].holds(x)
    }

    /// No two transactions have drawn the same write version.
    pub open spec fn versions_apart(self) -> bool {
        forall|t: int, u: int|
            self.has(t) && self.has(u) && t != u && (#[trigger] self.actors[t].write_ver()) is Some
                ==> self.actors[t].write_ver() != #[trigger] self.actors[u].write_ver()
    }

    /// The commits on record are at or below the clock, none of them is
    /// newer than the version of a stripe it wrote, and every stripe
    /// holds what was committed up to its version.
    pub open spec fn log_ok(self) -> bool {
        &&& forall|w: u64| #[trigger] self.log.contains_key(w) ==> 1 <= w <= self.mem.clock
        &&& forall|w: u64, x: usize|
            self.log.contains_key(w) && valid_addr(x) && #[trigger] self.log[w].contains_key(x)
                ==> w <= word_version(self.mem.word_at(x))
        &&& forall|x: usize|
            valid_addr(x) ==> #[trigger] self.mem.stripe_bytes(x) == self.stripe_at(
                word_version(self.mem.word_at(x)) as nat,
                x,
            )
    }

    /// What transaction `t` saw at its `i`-th load from memory is what was
    /// committed up to its read version, and no transaction that has
    /// drawn a write version at or below that read version is about to
    /// write that stripe.
    pub open spec fn sight_ok(self, t: int, i: int) -> bool {
        let sight = self.actors[t].seen[i];
        let rv = self.actors[t].tx.read_ver;
        &&& valid_addr(sight.addr)
        &&& self.actors[t].tx.read_set.contains(sight.addr)
        &&& sight.bytes == self.stripe_at(rv as nat, sight.addr)
        &&& forall|u: int|
            self.has(u) && (#[trigger] self.actors[u].write_ver()) is Some
                && self.actors[u].write_ver()->0 <= rv
                ==> !self.actors[u].tx.write_set.contains_key(sight.addr)
    }

    /// Every load that took a value from memory saw a committed state.
    pub open spec fn sights_ok(self) -> bool {
        forall|t: int, i: int|
            self.has(t) && 0 <= i < self.actors[t].seen.len() ==> #[trigger] self.sight_ok(t, i)
    }

    /// Once the read set of transaction `t` is cleared, what `t` saw at
    /// its `i`-th load from memory is what was committed below its write
    /// version, and no transaction that has drawn a lower write version
    /// is about to write that stripe.
    pub open spec fn serial_ok(self, t: int, i: int) -> bool {
        let sight = self.actors[t].seen[i];
        self.actors[t].settled_ver() matches Some(wv) ==> {
            &&& wv >= 1
            &&& sight.bytes == self.stripe_at((wv - 1) as nat, sight.addr)
            &&& forall|u: int|
                self.has(u) && u != t && (#[trigger] self.actors[u].write_ver()) is Some
                    && self.actors[u].write_ver()->0 < wv
                    ==> !self.actors[u].tx.write_set.contains_key(sight.addr)
        }
    }

    /// Every transaction whose read set is cleared saw what was committed
    /// below its write version.
    pub open spec fn serials_ok(self) -> bool {
        forall|t: int, i: int|
            self.has(t) && 0 <= i < self.actors[t].seen.len() ==> #[trigger] self.serial_ok(t, i)
    }

    /// Every transaction that has committed has its write set on record
    /// under its write version, and saw at each load from memory what the
    /// commits below that version had left.
    pub open spec fn serial(self) -> bool {
        forall|t: int|
            self.has(t) && (#[trigger] self.actors[t].stage) is Committed ==> {
                let wv = self.actors[t].stage->Committed_0;
                &&& wv >= 1
                &&& self.log.contains_key(wv)
                &&& self.log[wv] == self.actors[t].tx.write_set
                &&& forall|i: int|
                    0 <= i < self.actors[t].seen.len() ==> (#[trigger] self.actors[t].seen[i]).bytes
                        == self.stripe_at((wv - 1) as nat, self.actors[t].seen[i].addr)
            }
    }

    /// What holds of every world that can be reached.
    pub open spec fn inv(self) -> bool {
        &&& self.serials_ok()
        &&& self.shape_ok()
        &&& self.actors_ok()
        &&& self.locks_ok()
        &&& self.versions_apart()
        &&& self.log_ok()
        &&& self.sights_ok()
    }
}

/// The lock word and the bytes of a stripe after stripes have been locked.
proof fn lemma_lock_all_at(mem: MemoryView, addrs: Set<usize>, x: usize)
    requires
        mem.shaped(),
        valid_addr(x),
    ensures
        mem.lock_all(addrs).word_at(x) == if addrs.contains(x) {
            word_set_lock(mem.word_at(x))
        } else {
            mem.word_at(x)
        },
        word_version(mem.lock_all(addrs).word_at(x)) == word_version(mem.word_at(x)),
        mem.lock_all(addrs).stripe_bytes(x) == mem.stripe_bytes(x),
{
    assert((8 * stripe_of(x)) as usize == x);
}

/// The lock word and the bytes of a stripe after stripes have been
/// released.
proof fn lemma_unlock_all_at(mem: MemoryView, addrs: Set<usize>, x: usize)
    requires
        mem.shaped(),
        valid_addr(x),
    ensures
        mem.unlock_all(addrs).word_at(x) == if addrs.contains(x) {
            word_version(mem.word_at(x))
        } else {
            mem.word_at(x)
        },
        word_version(mem.unlock_all(addrs).word_at(x)) == word_version(mem.word_at(x)),
        mem.unlock_all(addrs).stripe_bytes(x) == mem.stripe_bytes(x),
{
    assert((8 * stripe_of(x)) as usize == x);
}

/// The lock word and the bytes of a stripe after a commit.
proof fn lemma_committed_at(mem: MemoryView, ws: Map<usize, [u8; 8]>, ver: u64, x: usize)
    requires
        mem.shaped(),
        valid_addr(x),
    ensures
        mem.committed(ws, ver).word_at(x) == if ws.contains_key(x) {
            ver
        } else {
            mem.word_at(x)
        },
        mem.committed(ws, ver).stripe_bytes(x) == if ws.contains_key(x) {
            ws[x]@
        } else {
            mem.stripe_bytes(x)
        },
{
    assert((8 * stripe_of(x)) as usize == x);
    let after = mem.committed(ws, ver);
    if ws.contains_key(x) {
        assert(after.stripe_bytes(x) =~= ws[x]@) by {
            assert forall|j: int| 0 <= j < 8 implies after.stripe_bytes(x)[j] == ws[x]@[j] by {
                let i = x + j;
                assert((i - i % 8) as usize == x);
                assert(i % 8 == j);
            }
        }
    } else {
        assert(after.stripe_bytes(x) =~= mem.stripe_bytes(x)) by {
            assert forall|j: int| 0 <= j < 8 implies after.stripe_bytes(x)[j] == mem.stripe_bytes(
                x,
            )[j] by {
                let i = x + j;
                assert((i - i % 8) as usize == x);
            }
        }
    }
}

/// A stripe as committed up to a version does not depend on commits
/// above that version: where no commit between two versions wrote the
/// stripe, it is the same at both.
proof fn lemma_stripe_at_gap(
    origin: Seq<u8>,
    log: Map<u64, Map<usize, [u8; 8]>>,
    lo: nat,
    hi: nat,
    x: usize,
)
    requires
        lo <= hi,
        forall|v: u64| lo < v <= hi && #[trigger] log.contains_key(v) ==> !log[v].contains_key(x),
        hi <= u64::MAX,
    ensures
        stripe_as_of(origin, log, hi, x) == stripe_as_of(origin, log, lo, x),
    decreases hi,
{
    if lo < hi {
        assert(log.contains_key(hi as u64) ==> !log[hi as u64].contains_key(x));
        lemma_stripe_at_gap(origin, log, lo, (hi - 1) as nat, x);
    }
}

/// One more commit on record changes a stripe as committed up to a
/// version only if it wrote the stripe and is not above that version.
proof fn lemma_stripe_at_grow(
    origin: Seq<u8>,
    log: Map<u64, Map<usize, [u8; 8]>>,
    wv: u64,
    ws: Map<usize, [u8; 8]>,
    ver: nat,
    x: usize,
)
    requires
        !log.contains_key(wv),
        wv > ver || !ws.contains_key(x),
        ver <= u64::MAX,
    ensures
        stripe_as_of(origin, log.insert(wv, ws), ver, x) == stripe_as_of(origin, log, ver, x),
    decreases ver,
{
    if ver > 0 {
        lemma_stripe_at_grow(origin, log, wv, ws, (ver - 1) as nat, x);
    }
}

/// A world on which nothing has happened meets the invariant, if its
/// memory is between transactions.
proof fn lemma_inv_start(mem: MemoryView)
    requires
        mem.shaped(),
        mem.versions_bounded(),
    ensures
        World::start(mem).inv(),
{
    let w = World::start(mem);
    assert forall|x: usize| valid_addr(x) implies #[trigger] w.mem.stripe_bytes(x) == w.stripe_at(
        word_version(w.mem.word_at(x)) as nat,
        x,
    ) by {
        lemma_stripe_at_gap(w.origin, w.log, 0, word_version(w.mem.word_at(x)) as nat, x);
    }
}

/// Beginning a transaction keeps the invariant.
proof fn lemma_inv_begin(w: World)
    requires
        w.inv(),
    ensures
        w.after(Event::Begin).inv(),
{
    let d = w.after(Event::Begin);
    let n = w.actors.len() as int;
    assert forall|t: int| d.has(t) implies #[trigger] d.actor_ok(t) by {
        if t < n {
            assert(w.actor_ok(t));
            assert(d.actors[t] == w.actors[t]);
        }
    }
    assert forall|t: int, i: int| d.has(t) && 0 <= i < d.actors[t].seen.len() implies #[trigger] d.sight_ok(
        t,
        i,
    ) by {
        assert(t < n);
        assert(w.sight_ok(t, i));
        assert forall|u: int| d.has(u) && (#[trigger] d.actors[u].write_ver()) is Some implies u
            < n by {}
    }
    assert(d.locks_ok()) by {
        assert forall|t: int, x: usize| d.has(t) && #[trigger] d.actors[t].holds(x) implies t
            < n by {}
    }
    assert(d.versions_apart()) by {
        assert forall|t: int| d.has(t) && (#[trigger] d.actors[t].write_ver()) is Some implies t
            < n by {}
    }
    assert forall|u: int, i: int| d.has(u) && 0 <= i < d.actors[u].seen.len() implies #[trigger] d.serial_ok(
        u,
        i,
    ) by {
        if d.actors[u].settled_ver() is Some {
            assert(w.serial_ok(u, i));
            assert forall|v: int|
                d.has(v) && v != u && (#[trigger] d.actors[v].write_ver()) is Some implies w.has(v)
                && w.actors[v].write_ver() == d.actors[v].write_ver() && w.actors[v].tx.write_set
                == d.actors[v].tx.write_set by {}
        }
    }
}

/// A load keeps the invariant.
proof fn lemma_inv_load(w: World, t: int, addr: usize)
    requires
        w.inv(),
        w.allows(Event::Load(t, addr)),
    ensures
        w.after(Event::Load(t, addr)).inv(),
{
    let d = w.after(Event::Load(t, addr));
    let a = w.actors[t];
    assert(w.actor_ok(t));
    assert forall|u: int| d.has(u) implies #[trigger] d.actor_ok(u) by {
        assert(w.actor_ok(u));
    }
    assert forall|u: int, i: int| d.has(u) && 0 <= i < d.actors[u].seen.len() implies #[trigger] d.sight_ok(
        u,
        i,
    ) by {
        if u == t && i == a.seen.len() {
            let ver = word_version(w.mem.word_at(addr));
            assert(w.mem.word_at(addr) <= a.tx.read_ver);
            assert(!word_locked(w.mem.word_at(addr)));
            lemma_stripe_at_gap(w.origin, w.log, ver as nat, a.tx.read_ver as nat, addr);
            assert(w.mem.stripe_bytes(addr) == w.stripe_at(ver as nat, addr));
            assert forall|v: int|
                d.has(v) && (#[trigger] d.actors[v].write_ver()) is Some
                    && d.actors[v].write_ver()->0
                    <= a.tx.read_ver implies !d.actors[v].tx.write_set.contains_key(addr) by {
                assert(w.actor_ok(v));
                if w.actors[v].tx.write_set.contains_key(addr) {
                    assert(w.actors[v].tx.locked.to_set().contains(addr));
                    assert(w.actors[v].holds(addr));
                }
            }
        } else {
            assert(w.sight_ok(u, i));
        }
    }
    assert forall|u: int, i: int| d.has(u) && 0 <= i < d.actors[u].seen.len() implies #[trigger] d.serial_ok(
        u,
        i,
    ) by {
        if d.actors[u].settled_ver() is Some {
            assert(w.serial_ok(u, i));
            assert forall|v: int|
                d.has(v) && v != u && (#[trigger] d.actors[v].write_ver()) is Some implies w.has(v)
                && w.actors[v].write_ver() == d.actors[v].write_ver() && w.actors[v].tx.write_set
                == d.actors[v].tx.write_set by {}
        }
    }
}

/// A store keeps the invariant.
proof fn lemma_inv_store(w: World, t: int, addr: usize, val: [u8; 8])
    requires
        w.inv(),
        w.allows(Event::Store(t, addr, val)),
    ensures
        w.after(Event::Store(t, addr, val)).inv(),
{
    let d = w.after(Event::Store(t, addr, val));
    assert forall|u: int| d.has(u) implies #[trigger] d.actor_ok(u) by {
        assert(w.actor_ok(u));
    }
    assert forall|u: int, x: usize| d.has(u) && #[trigger] d.actors[u].holds(x) implies w.actors[u].holds(
        x,
    ) by {}
    assert forall|u: int, i: int| d.has(u) && 0 <= i < d.actors[u].seen.len() implies #[trigger] d.sight_ok(
        u,
        i,
    ) by {
        assert(w.sight_ok(u, i));
    }
    assert forall|u: int, i: int| d.has(u) && 0 <= i < d.actors[u].seen.len() implies #[trigger] d.serial_ok(
        u,
        i,
    ) by {
        if d.actors[u].settled_ver() is Some {
            assert(w.serial_ok(u, i));
            assert forall|v: int|
                d.has(v) && v != u && (#[trigger] d.actors[v].write_ver()) is Some implies w.has(v)
                && w.actors[v].write_ver() == d.actors[v].write_ver() && w.actors[v].tx.write_set
                == d.actors[v].tx.write_set by {}
        }
    }
}


/// Locking keeps the invariant.
proof fn lemma_inv_lock(w: World, t: int, got: Seq<usize>)
    requires
        w.inv(),
        w.allows(Event::Lock(t, got)),
    ensures
        w.after(Event::Lock(t, got)).inv(),
{
    let d = w.after(Event::Lock(t, got));
    let a = w.actors[t];
    assert(w.actor_ok(t));
    assert(a.tx.locked + got =~= got);
    assert forall|x: usize| valid_addr(x) implies word_version(#[trigger] d.mem.word_at(x))
        == word_version(w.mem.word_at(x)) && d.mem.stripe_bytes(x) == w.mem.stripe_bytes(x) && (
    word_locked(w.mem.word_at(x)) ==> word_locked(d.mem.word_at(x))) && (got.contains(x)
        ==> word_locked(d.mem.word_at(x))) by {
        lemma_lock_all_at(w.mem, got.to_set(), x);
    }
    assert forall|x: usize| got.contains(x) implies valid_addr(x) by {
        assert(got.to_set().contains(x));
        assert(a.tx.write_set.contains_key(x));
    }
    assert(d.shape_ok()) by {
        assert forall|s: int| 0 <= s < d.mem.words.len() implies word_version(
            #[trigger] d.mem.words[s],
        ) <= d.mem.clock by {
            assert(word_version(w.mem.words[s]) <= w.mem.clock);
        }
    }
    assert forall|u: int| d.has(u) implies #[trigger] d.actor_ok(u) by {
        assert(w.actor_ok(u));
        if u == t {
            assert forall|i: int| 0 <= i < d.actors[t].tx.locked.len() implies valid_addr(
                #[trigger] d.actors[t].tx.locked[i],
            ) by {
                assert(got.contains(got[i]));
            }
        } else {
            assert(d.actors[u] == w.actors[u]);
            if w.actors[u].write_ver() is Some {
                assert forall|x: usize| #[trigger]
                    w.actors[u].tx.write_set.contains_key(x) implies word_version(
                    d.mem.word_at(x),
                ) < w.actors[u].write_ver()->0 by {
                    assert(valid_addr(x));
                }
            }
        }
    }
    assert(d.locks_ok()) by {
        assert forall|u: int, x: usize| d.has(u) && #[trigger] d.actors[u].holds(x) implies word_locked(
            d.mem.word_at(x),
        ) by {
            assert(w.actor_ok(u));
            if u == t {
                assert(got.contains(x));
            } else {
                assert(w.actors[u].holds(x));
                let i = choose|i: int| 0 <= i < w.actors[u].tx.locked.len() && w.actors[u].tx.locked[i] == x;
                assert(valid_addr(w.actors[u].tx.locked[i]));
            }
        }
        assert forall|u: int, v: int, x: usize|
            d.has(u) && d.has(v) && u != v && #[trigger] d.actors[u].holds(x) implies !#[trigger] d.actors[v].holds(
            x,
        ) by {
            if d.actors[v].holds(x) {
                if u != t && v != t {
                    assert(w.actors[u].holds(x) && w.actors[v].holds(x));
                } else {
                    let other = if u == t { v } else { u };
                    assert(w.actors[other].holds(x));
                    assert(got.contains(x));
                    assert(got.to_set().contains(x));
                    assert(!word_locked(w.mem.word_at(x)));
                }
            }
        }
    }
    assert(d.versions_apart()) by {
        assert forall|u: int| d.has(u) && (#[trigger] d.actors[u].write_ver()) is Some implies u != t
            && w.actors[u].write_ver() == d.actors[u].write_ver() by {}
    }
    assert(d.log_ok());
    assert forall|u: int, i: int| d.has(u) && 0 <= i < d.actors[u].seen.len() implies #[trigger] d.sight_ok(
        u,
        i,
    ) by {
        assert(w.sight_ok(u, i));
        assert forall|v: int| d.has(v) && (#[trigger] d.actors[v].write_ver()) is Some implies v
            != t && w.actors[v].write_ver() == d.actors[v].write_ver() by {}
    }
    assert forall|u: int, i: int| d.has(u) && 0 <= i < d.actors[u].seen.len() implies #[trigger] d.serial_ok(
        u,
        i,
    ) by {
        if d.actors[u].settled_ver() is Some {
            assert(w.serial_ok(u, i));
            assert forall|v: int|
                d.has(v) && v != u && (#[trigger] d.actors[v].write_ver()) is Some implies w.has(v)
                && w.actors[v].write_ver() == d.actors[v].write_ver() && w.actors[v].tx.write_set
                == d.actors[v].tx.write_set by {}
        }
    }
}

/// Drawing a write version keeps the invariant.
proof fn lemma_inv_tick(w: World, t: int)
    requires
        w.inv(),
        w.allows(Event::Tick(t)),
    ensures
        w.after(Event::Tick(t)).inv(),
{
    let d = w.after(Event::Tick(t));
    let wv = (w.mem.clock + 1) as u64;
    assert(w.actor_ok(t));
    assert forall|x: usize| valid_addr(x) implies #[trigger] d.mem.stripe_bytes(x)
        == w.mem.stripe_bytes(x) by {}
    assert forall|u: int| d.has(u) implies #[trigger] d.actor_ok(u) by {
        assert(w.actor_ok(u));
        if u == t {
            assert forall|x: usize| #[trigger]
                w.actors[t].tx.write_set.contains_key(x) implies word_version(d.mem.word_at(x))
                < wv by {
                assert(valid_addr(x));
                assert(word_version(w.mem.words[stripe_of(x)]) <= w.mem.clock);
            }
            if w.log.contains_key(wv) {
                assert(wv <= w.mem.clock);
            }
        }
    }
    assert forall|u: int, x: usize| d.has(u) && #[trigger] d.actors[u].holds(x) implies w.actors[u].holds(
        x,
    ) by {}
    assert(d.versions_apart()) by {
        assert forall|u: int, v: int|
            d.has(u) && d.has(v) && u != v && (#[trigger] d.actors[u].write_ver()) is Some implies d.actors[u].write_ver()
            != #[trigger] d.actors[v].write_ver() by {
            assert(w.actor_ok(u));
            assert(w.actor_ok(v));
            if u != t && v != t {
                assert(w.actors[u].write_ver() is Some);
            }
        }
    }
    assert forall|u: int, i: int| d.has(u) && 0 <= i < d.actors[u].seen.len() implies #[trigger] d.sight_ok(
        u,
        i,
    ) by {
        assert(w.sight_ok(u, i));
        assert(w.actor_ok(u));
        assert forall|v: int|
            d.has(v) && (#[trigger] d.actors[v].write_ver()) is Some && d.actors[v].write_ver()->0
                <= d.actors[u].tx.read_ver implies !d.actors[v].tx.write_set.contains_key(
            d.actors[u].seen[i].addr,
        ) by {
            if v != t {
                assert(w.actors[v].write_ver() is Some);
            }
        }
    }
    assert forall|u: int, i: int| d.has(u) && 0 <= i < d.actors[u].seen.len() implies #[trigger] d.serial_ok(
        u,
        i,
    ) by {
        if d.actors[u].settled_ver() is Some {
            assert(w.serial_ok(u, i));
            assert(w.actor_ok(u));
            assert(d.actors[u].settled_ver()->0 <= w.mem.clock);
            assert forall|v: int|
                d.has(v) && v != u && (#[trigger] d.actors[v].write_ver()) is Some
                    && d.actors[v].write_ver()->0
                    < d.actors[u].settled_ver()->0 implies !d.actors[v].tx.write_set.contains_key(
                d.actors[u].seen[i].addr,
            ) by {
                if v != t {
                    assert(w.actors[v].write_ver() is Some);
                }
            }
        }
    }
}

/// Checking the read set keeps the invariant.
proof fn lemma_inv_check(w: World, t: int)
    requires
        w.inv(),
        w.allows(Event::Check(t)),
    ensures
        w.after(Event::Check(t)).inv(),
{
    let d = w.after(Event::Check(t));
    assert forall|u: int| d.has(u) implies #[trigger] d.actor_ok(u) by {
        assert(w.actor_ok(u));
    }
    assert forall|u: int, x: usize| d.has(u) && #[trigger] d.actors[u].holds(x) implies w.actors[u].holds(
        x,
    ) by {}
    assert forall|u: int| d.has(u) && (#[trigger] d.actors[u].write_ver()) is Some implies w.actors[u].write_ver()
        == d.actors[u].write_ver() by {}
    assert forall|u: int, i: int| d.has(u) && 0 <= i < d.actors[u].seen.len() implies #[trigger] d.sight_ok(
        u,
        i,
    ) by {
        assert(w.sight_ok(u, i));
    }
    assert forall|u: int, i: int| d.has(u) && 0 <= i < d.actors[u].seen.len() implies #[trigger] d.serial_ok(
        u,
        i,
    ) by {
        if d.actors[u].settled_ver() is Some {
            if u != t {
                assert(w.serial_ok(u, i));
            } else {
                let a = w.actors[t];
                let wv = a.stage->Ticked_0;
                let x = a.seen[i].addr;
                assert(w.actor_ok(t));
                assert(w.sight_ok(t, i));
                assert(a.write_ver() == Some(wv));
                if a.tx.read_ver + 1 != wv {
                    assert(a.tx.read_set_valid(w.mem));
                    assert(a.tx.read_set.contains(x));
                    assert(word_version(w.mem.word_at(x)) <= a.tx.read_ver);
                    lemma_stripe_at_gap(w.origin, w.log, a.tx.read_ver as nat, (wv - 1) as nat, x);
                    assert forall|v: int|
                        d.has(v) && v != t && (#[trigger] d.actors[v].write_ver()) is Some
                            && d.actors[v].write_ver()->0
                            < wv implies !d.actors[v].tx.write_set.contains_key(x) by {
                        assert(w.actor_ok(v));
                        if w.actors[v].tx.write_set.contains_key(x) {
                            assert(w.actors[v].tx.locked.to_set().contains(x));
                            assert(w.actors[v].holds(x));
                            if a.tx.write_set.contains_key(x) {
                                assert(a.tx.locked.to_set().contains(x));
                                assert(w.actors[t].holds(x));
                            }
                        }
                    }
                }
            }
        }
    }
}

/// Giving a transaction up keeps the invariant.
proof fn lemma_inv_release(w: World, t: int)
    requires
        w.inv(),
        w.allows(Event::Release(t)),
    ensures
        w.after(Event::Release(t)).inv(),
{
    let d = w.after(Event::Release(t));
    let a = w.actors[t];
    let held = a.tx.locked.to_set();
    assert(w.actor_ok(t));
    assert forall|x: usize| valid_addr(x) implies word_version(#[trigger] d.mem.word_at(x))
        == word_version(w.mem.word_at(x)) && d.mem.stripe_bytes(x) == w.mem.stripe_bytes(x) && (
    !held.contains(x) ==> d.mem.word_at(x) == w.mem.word_at(x)) by {
        lemma_unlock_all_at(w.mem, held, x);
    }
    assert(d.shape_ok()) by {
        assert forall|s: int| 0 <= s < d.mem.words.len() implies word_version(
            #[trigger] d.mem.words[s],
        ) <= d.mem.clock by {
            assert(word_version(w.mem.words[s]) <= w.mem.clock);
        }
    }
    assert forall|u: int| d.has(u) implies #[trigger] d.actor_ok(u) by {
        assert(w.actor_ok(u));
        if u != t {
            assert(d.actors[u] == w.actors[u]);
            if w.actors[u].write_ver() is Some {
                assert forall|x: usize| #[trigger]
                    w.actors[u].tx.write_set.contains_key(x) implies word_version(
                    d.mem.word_at(x),
                ) < w.actors[u].write_ver()->0 by {
                    assert(valid_addr(x));
                }
            }
        }
    }
    assert(d.locks_ok()) by {
        assert forall|u: int, x: usize| d.has(u) && #[trigger] d.actors[u].holds(x) implies word_locked(
            d.mem.word_at(x),
        ) by {
            assert(u != t);
            assert(w.actors[u].holds(x));
            assert(w.actor_ok(u));
            let i = choose|i: int| 0 <= i < w.actors[u].tx.locked.len() && w.actors[u].tx.locked[i] == x;
            assert(valid_addr(w.actors[u].tx.locked[i]));
            if held.contains(x) {
                assert(w.actors[t].holds(x));
            }
        }
        assert forall|u: int, v: int, x: usize|
            d.has(u) && d.has(v) && u != v && #[trigger] d.actors[u].holds(x) implies !#[trigger] d.actors[v].holds(
            x,
        ) by {
            if d.actors[v].holds(x) {
                assert(w.actors[u].holds(x) && w.actors[v].holds(x));
            }
        }
    }
    assert(d.versions_apart()) by {
        assert forall|u: int| d.has(u) && (#[trigger] d.actors[u].write_ver()) is Some implies u != t
            && w.actors[u].write_ver() == d.actors[u].write_ver() by {}
    }
    assert(d.log_ok());
    assert forall|u: int, i: int| d.has(u) && 0 <= i < d.actors[u].seen.len() implies #[trigger] d.sight_ok(
        u,
        i,
    ) by {
        assert(w.sight_ok(u, i));
        assert forall|v: int| d.has(v) && (#[trigger] d.actors[v].write_ver()) is Some implies v
            != t && w.actors[v].write_ver() == d.actors[v].write_ver() by {}
    }
    assert forall|u: int, i: int| d.has(u) && 0 <= i < d.actors[u].seen.len() implies #[trigger] d.serial_ok(
        u,
        i,
    ) by {
        if d.actors[u].settled_ver() is Some {
            assert(w.serial_ok(u, i));
            assert forall|v: int|
                d.has(v) && v != u && (#[trigger] d.actors[v].write_ver()) is Some implies w.has(v)
                && w.actors[v].write_ver() == d.actors[v].write_ver() && w.actors[v].tx.write_set
                == d.actors[v].tx.write_set by {}
        }
    }
}


/// A commit keeps the invariant.
proof fn lemma_inv_commit(w: World, t: int)
    requires
        w.inv(),
        w.allows(Event::Commit(t)),
    ensures
        w.after(Event::Commit(t)).inv(),
{
    let d = w.after(Event::Commit(t));
    let a = w.actors[t];
    let ws = a.tx.write_set;
    let wv = a.stage->Cleared_0;
    assert(w.actor_ok(t));
    assert(a.write_ver() == Some(wv));
    assert forall|x: usize| valid_addr(x) implies (#[trigger] d.mem.word_at(x)) == (if ws.contains_key(
        x,
    ) {
        wv
    } else {
        w.mem.word_at(x)
    }) && d.mem.stripe_bytes(x) == (if ws.contains_key(x) {
        ws[x]@
    } else {
        w.mem.stripe_bytes(x)
    }) by {
        lemma_committed_at(w.mem, ws, wv, x);
    }
    assert forall|x: usize| ws.contains_key(x) implies a.holds(x) by {
        assert(a.tx.locked.to_set().contains(x));
    }
    assert(d.shape_ok()) by {
        assert forall|s: int| 0 <= s < d.mem.words.len() implies word_version(
            #[trigger] d.mem.words[s],
        ) <= d.mem.clock by {
            assert(word_version(w.mem.words[s]) <= w.mem.clock);
        }
    }
    assert forall|u: int| d.has(u) implies #[trigger] d.actor_ok(u) by {
        assert(w.actor_ok(u));
        if u != t {
            assert(d.actors[u] == w.actors[u]);
            if w.actors[u].write_ver() is Some {
                assert(w.actors[u].write_ver() != w.actors[t].write_ver());
                assert forall|x: usize| #[trigger]
                    w.actors[u].tx.write_set.contains_key(x) implies word_version(
                    d.mem.word_at(x),
                ) < w.actors[u].write_ver()->0 by {
                    assert(valid_addr(x));
                    assert(w.actors[u].tx.locked.to_set().contains(x));
                    assert(w.actors[u].holds(x));
                    if ws.contains_key(x) {
                        assert(w.actors[t].holds(x));
                    }
                }
            }
        }
    }
    assert(d.locks_ok()) by {
        assert forall|u: int, x: usize| d.has(u) && #[trigger] d.actors[u].holds(x) implies word_locked(
            d.mem.word_at(x),
        ) by {
            assert(u != t);
            assert(w.actors[u].holds(x));
            assert(w.actor_ok(u));
            let i = choose|i: int| 0 <= i < w.actors[u].tx.locked.len() && w.actors[u].tx.locked[i] == x;
            assert(valid_addr(w.actors[u].tx.locked[i]));
            if ws.contains_key(x) {
                assert(w.actors[t].holds(x));
            }
        }
        assert forall|u: int, v: int, x: usize|
            d.has(u) && d.has(v) && u != v && #[trigger] d.actors[u].holds(x) implies !#[trigger] d.actors[v].holds(
            x,
        ) by {
            if d.actors[v].holds(x) {
                assert(w.actors[u].holds(x) && w.actors[v].holds(x));
            }
        }
    }
    assert(d.versions_apart()) by {
        assert forall|u: int| d.has(u) && (#[trigger] d.actors[u].write_ver()) is Some implies u != t
            && w.actors[u].write_ver() == d.actors[u].write_ver() by {}
    }
    assert(d.log_ok()) by {
        assert forall|v: u64| #[trigger] d.log.contains_key(v) implies 1 <= v <= d.mem.clock by {
            if v != wv {
                assert(w.log.contains_key(v));
            }
        }
        assert forall|v: u64, x: usize|
            d.log.contains_key(v) && valid_addr(x) && #[trigger] d.log[v].contains_key(
                x,
            ) implies v <= word_version(d.mem.word_at(x)) by {
            if v != wv {
                assert(w.log.contains_key(v) && w.log[v].contains_key(x));
                assert(v <= word_version(w.mem.word_at(x)));
                if ws.contains_key(x) {
                    assert(word_version(w.mem.word_at(x)) < wv);
                }
            }
        }
        assert forall|x: usize| valid_addr(x) implies #[trigger] d.mem.stripe_bytes(x)
            == d.stripe_at(word_version(d.mem.word_at(x)) as nat, x) by {
            if !ws.contains_key(x) {
                lemma_stripe_at_grow(
                    w.origin,
                    w.log,
                    wv,
                    ws,
                    word_version(w.mem.word_at(x)) as nat,
                    x,
                );
                assert(w.mem.stripe_bytes(x) == w.stripe_at(
                    word_version(w.mem.word_at(x)) as nat,
                    x,
                ));
            }
        }
    }
    assert forall|u: int, i: int| d.has(u) && 0 <= i < d.actors[u].seen.len() implies #[trigger] d.sight_ok(
        u,
        i,
    ) by {
        assert(w.sight_ok(u, i));
        let sight = w.actors[u].seen[i];
        let rv = w.actors[u].tx.read_ver;
        if wv <= rv {
            assert(!ws.contains_key(sight.addr));
        }
        lemma_stripe_at_grow(w.origin, w.log, wv, ws, rv as nat, sight.addr);
        assert forall|v: int| d.has(v) && (#[trigger] d.actors[v].write_ver()) is Some implies v
            != t && w.actors[v].write_ver() == d.actors[v].write_ver() by {}
    }
    assert forall|u: int, i: int| d.has(u) && 0 <= i < d.actors[u].seen.len() implies #[trigger] d.serial_ok(
        u,
        i,
    ) by {
        if d.actors[u].settled_ver() is Some {
            assert(w.serial_ok(u, i));
            let wu = w.actors[u].settled_ver()->0;
            let x = w.actors[u].seen[i].addr;
            if u != t && wv < wu {
                assert(!ws.contains_key(x));
            }
            lemma_stripe_at_grow(w.origin, w.log, wv, ws, (wu - 1) as nat, x);
            assert forall|v: int|
                d.has(v) && v != u && (#[trigger] d.actors[v].write_ver()) is Some implies w.has(v)
                && w.actors[v].write_ver() == d.actors[v].write_ver() && w.actors[v].tx.write_set
                == d.actors[v].tx.write_set by {}
        }
    }
}

/// A step that may be taken keeps the invariant.
proof fn lemma_inv_step(w: World, e: Event)
    requires
        w.inv(),
        w.allows(e),
    ensures
        w.after(e).inv(),
{
    match e {
        Event::Begin => lemma_inv_begin(w),
        Event::Load(t, addr) => lemma_inv_load(w, t, addr),
        Event::Store(t, addr, val) => lemma_inv_store(w, t, addr, val),
        Event::Lock(t, got) => lemma_inv_lock(w, t, got),
        Event::Tick(t) => lemma_inv_tick(w, t),
        Event::Check(t) => lemma_inv_check(w, t),
        Event::Commit(t) => lemma_inv_commit(w, t),
        Event::Release(t) => lemma_inv_release(w, t),
    }
}

/// Steps that may be taken in turn keep the invariant.
proof fn lemma_inv_run(w: World, events: Seq<Event>)
    requires
        w.inv(),
        w.allows_all(events),
    ensures
        w.after_all(events).inv(),
    decreases events.len(),
{
    if events.len() > 0 {
        lemma_inv_step(w, events[0]);
        lemma_inv_run(w.after(events[0]), events.drop_first());
    }
}

/// On a memory that starts out between transactions, however the steps
/// of any number of transactions interleave, every value that a load of
/// a transaction takes from memory is the stripe as it was committed up
/// to the version at which that transaction began. Since a commit enters
/// the record whole, under one version, no transaction sees part of
/// another's write set without the rest.
pub proof fn law_opacity(mem: MemoryView, events: Seq<Event>)
    requires
        mem.shaped(),
        mem.versions_bounded(),
        World::start(mem).allows_all(events),
    ensures
        World::start(mem).after_all(events).opaque(),
{
    lemma_inv_start(mem);
    lemma_inv_run(World::start(mem), events);
    let end = World::start(mem).after_all(events);
    assert forall|t: int, i: int| end.has(t) && 0 <= i < end.actors[t].seen.len() implies (#[trigger] end.actors[t].seen[i]).bytes
        == end.stripe_at(end.actors[t].tx.read_ver as nat, end.actors[t].seen[i].addr) by {
        assert(end.sight_ok(t, i));
    }
}


/// On a memory that starts out between transactions, however the steps
/// of any number of transactions interleave, the transactions that commit
/// do so as if they had run one after the other in the order of their
/// write versions: each has its write set on record under its version,
/// and saw at every load from memory what the commits below that version
/// had left. This holds whether its read set was checked or the check
/// was skipped because the clock had moved by one.
pub proof fn law_commits_in_version_order(mem: MemoryView, events: Seq<Event>)
    requires
        mem.shaped(),
        mem.versions_bounded(),
        World::start(mem).allows_all(events),
    ensures
        World::start(mem).after_all(events).serial(),
{
    lemma_inv_start(mem);
    lemma_inv_run(World::start(mem), events);
    let end = World::start(mem).after_all(events);
    assert forall|t: int| end.has(t) && (#[trigger] end.actors[t].stage) is Committed implies {
        let wv = end.actors[t].stage->Committed_0;
        &&& wv >= 1
        &&& end.log.contains_key(wv)
        &&& end.log[wv] == end.actors[t].tx.write_set
        &&& forall|i: int|
            0 <= i < end.actors[t].seen.len() ==> (#[trigger] end.actors[t].seen[i]).bytes
                == end.stripe_at((wv - 1) as nat, end.actors[t].seen[i].addr)
    } by {
        assert(end.actor_ok(t));
        let wv = end.actors[t].stage->Committed_0;
        assert forall|i: int| 0 <= i < end.actors[t].seen.len() implies (#[trigger] end.actors[t].seen[i]).bytes
            == end.stripe_at((wv - 1) as nat, end.actors[t].seen[i].addr) by {
            assert(end.serial_ok(t, i));
        }
    }
}


impl World {
    /// The steps that a commit attempt of transaction `t` takes when its
    /// locking step gets the stripes `got`: it locks; if it did not get
    /// its whole write set it releases; else it draws its version and
    /// checks; and then commits or, if the check failed, releases.
    pub open spec fn attempt(self, t: int, got: Seq<usize>) -> Seq<Event> {
        let tx = self.actors[t].tx;
        let dom = tx.write_set.dom();
        if !self.mem.all_unlocked(dom) {
            seq![Event::Lock(t, got), Event::Release(t)]
        } else if tx.read_ver + 1 != self.mem.clock + 1 && !tx.read_set_valid(
            self.mem.lock_all(dom),
        ) {
            seq![Event::Lock(t, got), Event::Tick(t), Event::Check(t), Event::Release(t)]
        } else {
            seq![Event::Lock(t, got), Event::Tick(t), Event::Check(t), Event::Commit(t)]
        }
    }
}

/// A commit attempt that is made in one go, as `try_commit` makes it, is
/// the steps of the protocol taken in a row with nothing in between: the
/// steps may be taken, they leave the memory that the attempt leaves, and
/// they end in a commit exactly when the attempt commits. So what holds
/// of all interleavings of the steps holds of attempts made in one go.
pub proof fn law_attempt_is_steps(w: World, t: int, got: Seq<usize>)
    requires
        w.inv(),
        w.mem.clock < MAX_VERSION,
        w.allows(Event::Lock(t, got)),
    ensures
        w.allows_all(w.attempt(t, got)),
        w.after_all(w.attempt(t, got)).mem == w.actors[t].tx.commit_outcome(w.mem).0,
        w.after_all(w.attempt(t, got)).actors[t].stage is Committed
            == w.actors[t].tx.commit_outcome(w.mem).1,
{
    let tx = w.actors[t].tx;
    let dom = tx.write_set.dom();
    let steps = w.attempt(t, got);
    assert(w.actor_ok(t));
    assert(tx.locked =~= Seq::empty());
    assert(tx.locked + got =~= got);
    assert(tx.locked.to_set() =~= Set::empty());
    assert forall|x: usize| #[trigger] got.to_set().contains(x) implies valid_addr(x) by {
        assert(tx.write_set.contains_key(x));
    }
    let w1 = w.after(Event::Lock(t, got));
    lemma_relock(w.mem, got.to_set(), Set::empty());
    assert(Set::<usize>::empty().union(got.to_set()) =~= got.to_set());
    assert(w.mem.unlock_all(Set::empty()).words =~= w.mem.words);
    if !w.mem.all_unlocked(dom) {
        assert(steps.drop_first() =~= seq![Event::Release(t)]);
        assert(steps.drop_first().drop_first() =~= Seq::<Event>::empty());
        let w2 = w1.after(Event::Release(t));
        assert(w1.allows(Event::Release(t)));
        assert(w1.allows_all(steps.drop_first())) by {
            assert(w2.allows_all(steps.drop_first().drop_first()));
        }
        assert(w1.after_all(steps.drop_first()) == w2) by {
            assert(w2.after_all(steps.drop_first().drop_first()) == w2);
        }
        assert(w2.mem == w.mem);
    } else {
        assert(got.to_set() == dom);
        let w2 = w1.after(Event::Tick(t));
        let w3 = w2.after(Event::Check(t));
        let last = steps[3];
        let s1 = steps.drop_first();
        let s2 = s1.drop_first();
        let s3 = s2.drop_first();
        let s4 = s3.drop_first();
        assert(s1[0] == Event::Tick(t));
        assert(s2[0] == Event::Check(t));
        assert(s3[0] == last);
        assert(s4 =~= Seq::<Event>::empty());
        let w4 = w3.after(last);
        assert(w1.allows(Event::Tick(t)));
        assert(w2.allows(Event::Check(t)));
        assert(w2.actors[t].tx.read_set_valid(w2.mem) == tx.read_set_valid(w.mem.lock_all(dom)));
        assert(w3.allows(last));
        assert(w3.allows_all(s3)) by {
            assert(w4.allows_all(s4));
        }
        assert(w2.allows_all(s2));
        assert(w1.allows_all(s1));
        assert(w3.after_all(s3) == w4) by {
            assert(w4.after_all(s4) == w4);
        }
        assert(w2.after_all(s2) == w4);
        assert(w1.after_all(s1) == w4);
        let wv = (w.mem.clock + 1) as u64;
        if tx.read_ver + 1 != wv && !tx.read_set_valid(w.mem.lock_all(dom)) {
            assert(w3.actors[t].tx.locked.to_set() == dom);
            lemma_relock(w.mem.ticked(), dom, Set::empty());
            assert(Set::<usize>::empty().union(dom) =~= dom);
            assert(w.mem.ticked().unlock_all(Set::empty()).words =~= w.mem.ticked().words);
            assert(w4.mem == w.mem.ticked());
        } else {
            assert(w4.mem.words =~= w.mem.ticked().committed(tx.write_set, wv).words);
            assert(w4.mem.bytes =~= w.mem.ticked().committed(tx.write_set, wv).bytes);
        }
    }
}


/// The version of a stripe never goes back. Locking a stripe and giving
/// it back leave its version as it is; a commit puts every stripe that
/// it writes at the commit's write version, which is above the version
/// that the stripe had, and releases it; no other stripe changes.
pub proof fn law_versions_only_grow(w: World, e: Event, x: usize)
    requires
        w.inv(),
        w.allows(e),
        valid_addr(x),
    ensures
        word_version(w.mem.word_at(x)) <= word_version(w.after(e).mem.word_at(x)),
        e matches Event::Commit(t) ==> (w.actors[t].tx.write_set.contains_key(x) ==> {
            &&& word_version(w.mem.word_at(x)) < word_version(w.after(e).mem.word_at(x))
            &&& w.after(e).mem.word_at(x) == w.actors[t].stage->Cleared_0
            &&& word_locked(w.mem.word_at(x))
            &&& !word_locked(w.after(e).mem.word_at(x))
        }),
        !(e matches Event::Commit(t) && w.actors[t].tx.write_set.contains_key(x))
            ==> word_version(w.mem.word_at(x)) == word_version(w.after(e).mem.word_at(x)),
        e matches Event::Lock(t, got) ==> (got.contains(x) ==> word_locked(
            w.after(e).mem.word_at(x),
        )),
        e matches Event::Release(t) ==> (w.actors[t].holds(x) ==> !word_locked(
            w.after(e).mem.word_at(x),
        )),
{
    match e {
        Event::Lock(t, got) => {
            lemma_lock_all_at(w.mem, got.to_set(), x);
        },
        Event::Commit(t) => {
            let a = w.actors[t];
            assert(w.actor_ok(t));
            assert(a.write_ver() == Some(a.stage->Cleared_0));
            lemma_committed_at(w.mem, a.tx.write_set, a.stage->Cleared_0, x);
            if a.tx.write_set.contains_key(x) {
                assert(a.tx.locked.to_set().contains(x));
                assert(a.holds(x));
            }
        },
        Event::Release(t) => {
            lemma_unlock_all_at(w.mem, w.actors[t].tx.locked.to_set(), x);
        },
        _ => {},
    }
}

} // verus!
