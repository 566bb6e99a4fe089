//! A word-striped transactional memory in the style of TL2: a global clock,
//! one versioned lock word per stripe, optimistic reads and a two-phase
//! commit. Every function here is one atomic step of the protocol.

use std::collections::HashMap;
use std::collections::HashSet;
use vstd::prelude::*;
use vstd::std_specs::hash::spec_hash_keys_iter;
use vstd::std_specs::hash::spec_keys_iter;
use vstd::std_specs::iter::IteratorSpec;

verus! {

/// Bytes in one stripe, the unit of locking.
pub const STRIPE_SIZE: usize = 8;

/// Bytes in the memory image.
pub const MEM_SIZE: usize = 512;

/// Stripes in the memory image.
pub const STRIPE_NUM: usize = 64;

/// The lock flag of a versioned lock word: its highest bit.
pub const LOCK_BIT: u64 = 0x8000_0000_0000_0000;

/// The largest version that a lock word can hold beside the lock flag.
pub const MAX_VERSION: u64 = 0x7fff_ffff_ffff_ffff;

/// Whether the lock flag of the word is set.
pub open spec fn word_locked(w: u64) -> bool {
    w >= LOCK_BIT
}

/// The version held in the low 63 bits of the word.
pub open spec fn word_version(w: u64) -> u64 {
    if w >= LOCK_BIT {
        (w - LOCK_BIT) as u64
    } else {
        w
    }
}

/// The word with its lock flag set and its version kept.
pub open spec fn word_set_lock(w: u64) -> u64 {
    if w >= LOCK_BIT {
        w
    } else {
        (w + LOCK_BIT) as u64
    }
}

/// Whether a reader that started at `rv` may use a stripe guarded by `w`:
/// the stripe is unlocked and was last committed at or before `rv`.
pub open spec fn word_readable(w: u64, rv: u64) -> bool {
    !word_locked(w) && word_version(w) <= rv
}

/// Whether `addr` is the first byte of a stripe of the image.
pub open spec fn valid_addr(addr: usize) -> bool {
    addr < MEM_SIZE && addr % STRIPE_SIZE == 0
}

/// The stripe that holds the byte at `addr`.
pub open spec fn stripe_of(addr: usize) -> int {
    addr as int / 8
}

/// The memory image as plain values.
pub struct MemoryView {
    /// The bytes of the image.
    pub bytes: Seq<u8>,
    /// The versioned lock word of each stripe.
    pub words: Seq<u64>,
    /// The global clock.
    pub clock: u64,
}

impl MemoryView {
    /// The image has its fixed size.
    pub open spec fn shaped(self) -> bool {
        self.bytes.len() == MEM_SIZE && self.words.len() == STRIPE_NUM
    }

    /// The eight bytes of the stripe that starts at `addr`.
    pub open spec fn stripe_bytes(self, addr: usize) -> Seq<u8> {
        self.bytes.subrange(addr as int, addr as int + 8)
    }

    /// The lock word that guards `addr`.
    pub open spec fn word_at(self, addr: usize) -> u64 {
        self.words[stripe_of(addr)]
    }

    /// The image with the lock word that guards `addr` replaced.
    pub open spec fn with_word(self, addr: usize, w: u64) -> MemoryView {
        MemoryView { words: self.words.update(stripe_of(addr), w), ..self }
    }

    /// The image with the stripe at `addr` overwritten by `val`.
    pub open spec fn with_stripe(self, addr: usize, val: Seq<u8>) -> MemoryView {
        MemoryView {
            bytes: Seq::new(
                self.bytes.len(),
                |i: int| if addr <= i < addr + 8 { val[i - addr] } else { self.bytes[i] },
            ),
            ..self
        }
    }

    /// The image after the clock has advanced by one, wrapping at the end
    /// of its range.
    pub open spec fn ticked(self) -> MemoryView {
        MemoryView {
            clock: if self.clock == u64::MAX { 0 } else { (self.clock + 1) as u64 },
            ..self
        }
    }

    /// The image with the lock flag set on the stripe of every address in
    /// `addrs`.
    pub open spec fn lock_all(self, addrs: Set<usize>) -> MemoryView {
        MemoryView {
            words: Seq::new(
                self.words.len(),
                |s: int|
                    if addrs.contains((8 * s) as usize) {
                        word_set_lock(self.words[s])
                    } else {
                        self.words[s]
                    },
            ),
            ..self
        }
    }

    /// The image with the lock flag cleared on the stripe of every address
    /// in `addrs`, versions kept.
    pub open spec fn unlock_all(self, addrs: Set<usize>) -> MemoryView {
        MemoryView {
            words: Seq::new(
                self.words.len(),
                |s: int|
                    if addrs.contains((8 * s) as usize) {
                        word_version(self.words[s])
                    } else {
                        self.words[s]
                    },
            ),
            ..self
        }
    }

    /// Whether the stripe of every address in `addrs` is unlocked.
    pub open spec fn all_unlocked(self, addrs: Set<usize>) -> bool {
        forall|a: usize| #[trigger] addrs.contains(a) ==> !word_locked(self.word_at(a))
    }

    /// The image after the stores of `ws` have been written and each
    /// written stripe has been released at version `ver`.
    pub open spec fn committed(self, ws: Map<usize, [u8; 8]>, ver: u64) -> MemoryView {
        MemoryView {
            bytes: Seq::new(
                self.bytes.len(),
                |i: int|
                    if ws.contains_key((i - i % 8) as usize) {
                        ws[(i - i % 8) as usize]@[i % 8]
                    } else {
                        self.bytes[i]
                    },
            ),
            words: Seq::new(
                self.words.len(),
                |s: int|
                    if ws.contains_key((8 * s) as usize) {
                        ver
                    } else {
                        self.words[s]
                    },
            ),
            ..self
        }
    }

    /// No stripe is locked.
    pub open spec fn unlocked(self) -> bool {
        forall|s: int| 0 <= s < self.words.len() ==> !word_locked(#[trigger] self.words[s])
    }

    /// No stripe carries a version beyond the clock, and the clock has not
    /// reached the lock flag.
    pub open spec fn versions_bounded(self) -> bool {
        &&& self.clock <= MAX_VERSION
        &&& forall|s: int|
            0 <= s < self.words.len() ==> word_version(#[trigger] self.words[s]) <= self.clock
    }
}

/// The shared memory image: 512 bytes in 64 stripes of 8, one versioned
/// lock word per stripe, and the global clock that orders commits.
pub struct Memory {
    mem: [u8; MEM_SIZE],
    lock_ver: [u64; STRIPE_NUM],
    global_clock: u64,
}

impl View for Memory {
    type V = MemoryView;

    closed spec fn view(&self) -> MemoryView {
        MemoryView { bytes: self.mem@, words: self.lock_ver@, clock: self.global_clock }
    }
}

impl Memory {
    /// An image of zero bytes, every stripe unlocked at version 0, clock 0.
    pub fn new() -> (m: Memory)
        ensures
            m@.bytes == Seq::new(MEM_SIZE as nat, |i: int| 0u8),
            m@.words == Seq::new(STRIPE_NUM as nat, |i: int| 0u64),
            m@.clock == 0,
    {
        Memory { mem: [0u8; MEM_SIZE], lock_ver: [0u64; STRIPE_NUM], global_clock: 0 }
    }

    /// Every image has the fixed size.
    pub proof fn lemma_shaped(&self)
        ensures
            self@.shaped(),
    {
    }

    /// Advances the clock by one and returns the value it had before.
    pub fn inc_global_clock(&mut self) -> (prev: u64)
        ensures
            prev == old(self)@.clock,
            final(self)@ == old(self)@.ticked(),
    {
        let prev: u64 = self.global_clock;
        self.global_clock = prev.wrapping_add(1);
        prev
    }

    /// The value of the global clock.
    pub fn clock(&self) -> (c: u64)
        ensures
            c == self@.clock,
    {
        self.global_clock
    }

    /// Whether the stripe that holds `addr` is locked.
    pub fn is_locked(&self, addr: usize) -> (b: bool)
        requires
            addr < MEM_SIZE,
        ensures
            b == word_locked(self@.word_at(addr)),
    {
        let idx: usize = addr >> 3;
        assert(addr >> 3 == addr / 8) by (bit_vector);
        self.lock_ver[idx] >= LOCK_BIT
    }

    /// The version of the stripe that holds `addr`, without its lock flag.
    pub fn get_addr_ver(&self, addr: usize) -> (ver: u64)
        requires
            addr < MEM_SIZE,
        ensures
            ver == word_version(self@.word_at(addr)),
    {
        let idx: usize = addr >> 3;
        assert(addr >> 3 == addr / 8) by (bit_vector);
        let n: u64 = self.lock_ver[idx];
        assert(n & !(1u64 << 63) == if n >= 0x8000_0000_0000_0000u64 {
            (n - 0x8000_0000_0000_0000u64) as u64
        } else {
            n
        }) by (bit_vector);
        n & !(1u64 << 63)
    }

    /// Whether the stripe that holds `addr` is unlocked and was last
    /// committed at or before `rv`.
    pub fn test_not_modify(&self, addr: usize, rv: u64) -> (ok: bool)
        requires
            addr < MEM_SIZE,
        ensures
            ok == (self@.word_at(addr) <= rv),
            rv <= MAX_VERSION ==> ok == word_readable(self@.word_at(addr), rv),
    {
        let idx: usize = addr >> 3;
        assert(addr >> 3 == addr / 8) by (bit_vector);
        let n: u64 = self.lock_ver[idx];
        n <= rv
    }

    /// Sets the lock flag of the stripe that holds `addr` if it is clear.
    /// Returns whether this call set it.
    pub fn lock_addr(&mut self, addr: usize) -> (won: bool)
        requires
            addr < MEM_SIZE,
        ensures
            won == !word_locked(old(self)@.word_at(addr)),
            final(self)@ == old(self)@.with_word(addr, word_set_lock(old(self)@.word_at(addr))),
    {
        let idx: usize = addr >> 3;
        assert(addr >> 3 == addr / 8) by (bit_vector);
        let val: u64 = self.lock_ver[idx];
        let n: u64 = val & (1u64 << 63);
        assert((val & (1u64 << 63) == 0) == (val < 0x8000_0000_0000_0000u64)) by (bit_vector);
        if n == 0 {
            assert(val < 0x8000_0000_0000_0000u64 ==> val | (1u64 << 63) == val
                + 0x8000_0000_0000_0000u64) by (bit_vector);
            self.lock_ver[idx] = val | (1u64 << 63);
            assert(self@.words =~= old(self)@.words.update(
                stripe_of(addr),
                word_set_lock(old(self)@.word_at(addr)),
            ));
            true
        } else {
            assert(self@.words =~= old(self)@.words.update(
                stripe_of(addr),
                word_set_lock(old(self)@.word_at(addr)),
            ));
            false
        }
    }

    /// Overwrites the stripe at `addr` with `val`.
    fn write_stripe(&mut self, addr: usize, val: &[u8; 8])
        requires
            valid_addr(addr),
        ensures
            final(self)@ == old(self)@.with_stripe(addr, val@),
    {
        let mut i: usize = 0;
        while i < 8
            invariant
                i <= 8,
                valid_addr(addr),
                self.lock_ver == old(self).lock_ver,
                self.global_clock == old(self).global_clock,
                forall|j: int|
                    0 <= j < 512 ==> self.mem@[j] == if addr <= j < addr + i {
                        val@[j - addr]
                    } else {
                        old(self).mem@[j]
                    },
            decreases 8 - i,
        {
            self.mem[addr + i] = val[i];
            i = i + 1;
        }
        assert(self@.bytes =~= old(self)@.with_stripe(addr, val@).bytes);
    }

    /// Replaces the lock word of the stripe that holds `addr`.
    fn store_word(&mut self, addr: usize, w: u64)
        requires
            addr < MEM_SIZE,
        ensures
            final(self)@ == old(self)@.with_word(addr, w),
    {
        let idx: usize = addr >> 3;
        assert(addr >> 3 == addr / 8) by (bit_vector);
        self.lock_ver[idx] = w;
        assert(self@.words =~= old(self)@.words.update(stripe_of(addr), w));
    }

    /// Clears the lock flag of the stripe that holds `addr` and keeps its
    /// version.
    pub fn unlock_addr(&mut self, addr: usize)
        requires
            addr < MEM_SIZE,
        ensures
            final(self)@ == old(self)@.with_word(addr, word_version(old(self)@.word_at(addr))),
    {
        let idx: usize = addr >> 3;
        assert(addr >> 3 == addr / 8) by (bit_vector);
        let n: u64 = self.lock_ver[idx];
        assert(n & !(1u64 << 63) == if n >= 0x8000_0000_0000_0000u64 {
            (n - 0x8000_0000_0000_0000u64) as u64
        } else {
            n
        }) by (bit_vector);
        self.lock_ver[idx] = n & !(1u64 << 63);
        assert(self@.words =~= old(self)@.words.update(
            stripe_of(addr),
            word_version(old(self)@.word_at(addr)),
        ));
    }
}

impl Default for Memory {
    /// The same as `Memory::new`.
    fn default() -> (m: Memory)
        ensures
            m@.bytes == Seq::new(MEM_SIZE as nat, |i: int| 0u8),
            m@.words == Seq::new(STRIPE_NUM as nat, |i: int| 0u64),
            m@.clock == 0,
    {
        Memory::new()
    }
}

/// What the body of a transaction asks for when it returns.
#[derive(Debug, PartialEq, Eq)]
pub enum STMResult<T> {
    /// The body finished with a value; a write transaction goes on to
    /// commit.
    Success(T),
    /// The body wants to be run again if what it saw was inconsistent.
    Retry,
    /// The body gives the transaction up.
    Abort,
}

/// How one attempt of a transaction ended.
#[derive(Debug, PartialEq, Eq)]
pub enum Attempt<R> {
    /// The transaction is over and hands this to its caller.
    Done(Option<R>),
    /// The attempt met a conflict: the transaction must be run again from
    /// its beginning.
    Restart,
}

/// How an attempt ends whose body returned `result`, before any commit:
/// `Abort` ends the transaction with nothing; an attempt that saw a
/// conflict starts again; `Retry` without a conflict ends with nothing.
pub open spec fn body_verdict<R>(result: STMResult<R>, is_abort: bool) -> Attempt<R> {
    match result {
        STMResult::Abort => Attempt::Done(None),
        STMResult::Retry => if is_abort {
            Attempt::Restart
        } else {
            Attempt::Done(None)
        },
        STMResult::Success(v) => if is_abort {
            Attempt::Restart
        } else {
            Attempt::Done(Some(v))
        },
    }
}

/// What a load returns to a transaction that started at `rv`: nothing once
/// the transaction is aborted or when the stripe is locked or newer than
/// `rv`, else the stripe's eight bytes.
pub open spec fn load_outcome(aborted: bool, rv: u64, mem: MemoryView, addr: usize) -> Option<
    Seq<u8>,
> {
    if aborted || mem.word_at(addr) > rv {
        None
    } else {
        Some(mem.stripe_bytes(addr))
    }
}

/// Copies the stripe at `addr` out of the image.
fn copy_stripe(mem: &Memory, addr: usize) -> (out: [u8; 8])
    requires
        valid_addr(addr),
    ensures
        out@ == mem@.stripe_bytes(addr),
{
    let mut out: [u8; 8] = [0u8; 8];
    let mut i: usize = 0;
    while i < 8
        invariant
            i <= 8,
            valid_addr(addr),
            forall|j: int| 0 <= j < i ==> out@[j] == mem@.bytes[addr + j],
        decreases 8 - i,
    {
        out[i] = mem.mem[addr + i];
        i = i + 1;
    }
    assert(out@ =~= mem@.stripe_bytes(addr));
    out
}

/// A read-only transaction as plain values.
pub struct ReadView {
    /// The clock value sampled when the transaction began.
    pub read_ver: u64,
    /// Whether a load has failed; once set it stays set.
    pub is_abort: bool,
}

/// A read-only transaction: the version it reads at and its sticky abort
/// flag.
pub struct ReadTrans {
    read_ver: u64,
    is_abort: bool,
}

impl View for ReadTrans {
    type V = ReadView;

    closed spec fn view(&self) -> ReadView {
        ReadView { read_ver: self.read_ver, is_abort: self.is_abort }
    }
}

impl ReadTrans {
    /// Begins a read-only transaction at the current clock.
    pub fn new(mem: &Memory) -> (tr: ReadTrans)
        ensures
            tr@ == (ReadView { read_ver: mem@.clock, is_abort: false }),
    {
        ReadTrans { read_ver: mem.global_clock, is_abort: false }
    }

    /// Whether a load of this transaction has failed.
    pub fn is_abort(&self) -> (b: bool)
        ensures
            b == self@.is_abort,
    {
        self.is_abort
    }

    /// The clock value at which the transaction began.
    pub fn read_ver(&self) -> (v: u64)
        ensures
            v == self@.read_ver,
    {
        self.read_ver
    }

    /// Reads the stripe at `addr`. Returns nothing, and aborts the
    /// transaction, when the stripe is locked or was committed after the
    /// transaction began; returns nothing once the transaction is aborted.
    pub fn load(&mut self, mem: &Memory, addr: usize) -> (r: Option<[u8; 8]>)
        requires
            valid_addr(addr),
        ensures
            final(self)@.read_ver == old(self)@.read_ver,
            final(self)@.is_abort == (old(self)@.is_abort || mem@.word_at(addr) > old(
                self,
            )@.read_ver),
            match r {
                Some(v) => load_outcome(old(self)@.is_abort, old(self)@.read_ver, mem@, addr)
                    == Some(v@),
                None => load_outcome(old(self)@.is_abort, old(self)@.read_ver, mem@, addr)
                    is None,
            },
    {
        if self.is_abort {
            return None;
        }
        if !mem.test_not_modify(addr, self.read_ver) {
            self.is_abort = true;
            return None;
        }
        let out: [u8; 8] = copy_stripe(mem, addr);
        if !mem.test_not_modify(addr, self.read_ver) {
            self.is_abort = true;
            return None;
        }
        Some(out)
    }

    /// Ends one attempt of a read-only transaction whose body returned
    /// `result`.
    pub fn finish<R>(self, result: STMResult<R>) -> (out: Attempt<R>)
        ensures
            out == body_verdict(result, self@.is_abort),
    {
        match result {
            STMResult::Abort => Attempt::Done(None),
            STMResult::Retry => {
                if self.is_abort {
                    Attempt::Restart
                } else {
                    Attempt::Done(None)
                }
            },
            STMResult::Success(val) => {
                if self.is_abort {
                    Attempt::Restart
                } else {
                    Attempt::Done(Some(val))
                }
            },
        }
    }
}

/// A read-write transaction as plain values.
pub struct WriteView {
    /// The clock value sampled when the transaction began.
    pub read_ver: u64,
    /// The addresses that the transaction has loaded.
    pub read_set: Set<usize>,
    /// The stores that the transaction has buffered, the last one per
    /// address.
    pub write_set: Map<usize, [u8; 8]>,
    /// The addresses whose stripes the transaction holds locked.
    pub locked: Seq<usize>,
    /// Whether a load has failed; once set it stays set.
    pub is_abort: bool,
}

impl WriteView {
    /// A transaction that began at clock value `clock` and has done
    /// nothing yet.
    pub open spec fn begun(clock: u64) -> WriteView {
        WriteView {
            read_ver: clock,
            read_set: Set::empty(),
            write_set: Map::empty(),
            locked: Seq::empty(),
            is_abort: false,
        }
    }

    /// Every address that the transaction holds is the start of a stripe.
    pub open spec fn wf(self) -> bool {
        &&& self.read_set.finite()
        &&& self.write_set.dom().finite()
        &&& forall|a: usize| #[trigger] self.read_set.contains(a) ==> valid_addr(a)
        &&& forall|a: usize| #[trigger] self.write_set.contains_key(a) ==> valid_addr(a)
        &&& forall|i: int| 0 <= i < self.locked.len() ==> valid_addr(#[trigger] self.locked[i])
    }

    /// What a load of `addr` returns: the buffered store if there is one,
    /// else what a read-only transaction would get.
    pub open spec fn load_outcome(self, mem: MemoryView, addr: usize) -> Option<Seq<u8>> {
        if self.is_abort {
            None
        } else if self.write_set.contains_key(addr) {
            Some(self.write_set[addr]@)
        } else {
            load_outcome(false, self.read_ver, mem, addr)
        }
    }

    /// Whether what the transaction has read is still current: a stripe it
    /// also writes must not be newer than the read version, whoever holds
    /// its lock; any other stripe must be unlocked and not newer.
    pub open spec fn read_set_valid(self, mem: MemoryView) -> bool {
        forall|a: usize| #[trigger]
            self.read_set.contains(a) ==> if self.write_set.contains_key(a) {
                word_version(mem.word_at(a)) <= self.read_ver
            } else {
                mem.word_at(a) <= self.read_ver
            }
    }

    /// What an attempt to commit does to memory, and whether it commits.
    /// The attempt gives up, leaving no stripe of the transaction locked,
    /// when a stripe it writes is already locked, or when another commit
    /// has moved the clock since the transaction began and what it read
    /// is no longer current. Else the clock advances by one, the stores
    /// are written, and each written stripe is released at the new clock
    /// value.
    pub open spec fn commit_outcome(self, mem: MemoryView) -> (MemoryView, bool) {
        let held = self.locked.to_set();
        let wv = (mem.clock + 1) as u64;
        if !mem.all_unlocked(self.write_set.dom()) {
            (mem.unlock_all(held), false)
        } else if self.read_ver + 1 != wv && !self.read_set_valid(
            mem.lock_all(self.write_set.dom()),
        ) {
            (mem.ticked().unlock_all(held), false)
        } else {
            (mem.ticked().committed(self.write_set, wv), true)
        }
    }

    /// The transaction after a load of `addr`.
    pub open spec fn after_load(self, mem: MemoryView, addr: usize) -> WriteView {
        if self.is_abort {
            self
        } else {
            WriteView {
                read_set: self.read_set.insert(addr),
                is_abort: !self.write_set.contains_key(addr) && mem.word_at(addr)
                    > self.read_ver,
                ..self
            }
        }
    }

    /// How an attempt of a read-write transaction ends whose body returned
    /// `result`, and the memory it leaves. Whatever the body asked for, no
    /// stripe of the transaction stays locked.
    pub open spec fn finish_outcome<R>(self, mem: MemoryView, result: STMResult<R>) -> (
        Attempt<R>,
        MemoryView,
    ) {
        match body_verdict(result, self.is_abort) {
            Attempt::Done(Some(v)) => {
                let (after, ok) = self.commit_outcome(mem);
                if ok {
                    (Attempt::Done(Some(v)), after)
                } else {
                    (Attempt::Restart, after)
                }
            },
            verdict => (verdict, mem.unlock_all(self.locked.to_set())),
        }
    }
}

/// A read-write transaction: the version it reads at, what it has read,
/// the stores it has buffered, the stripes it holds locked and its sticky
/// abort flag.
pub struct WriteTrans {
    read_ver: u64,
    read_set: HashSet<usize>,
    write_set: HashMap<usize, [u8; 8]>,
    locked: Vec<usize>,
    is_abort: bool,
}

impl View for WriteTrans {
    type V = WriteView;

    closed spec fn view(&self) -> WriteView {
        WriteView {
            read_ver: self.read_ver,
            read_set: self.read_set@,
            write_set: self.write_set@,
            locked: self.locked@,
            is_abort: self.is_abort,
        }
    }
}

impl WriteTrans {
    #[verifier::type_invariant]
    closed spec fn well_formed(self) -> bool {
        self@.wf()
    }

    /// Begins a read-write transaction at the current clock, with nothing
    /// read, stored or locked.
    pub fn new(mem: &Memory) -> (tr: WriteTrans)
        ensures
            tr@ == WriteView::begun(mem@.clock),
            tr@.wf(),
    {
        let tr = WriteTrans {
            read_set: HashSet::new(),
            write_set: HashMap::new(),
            locked: Vec::new(),
            is_abort: false,
            read_ver: mem.global_clock,
        };
        assert(tr@.locked =~= Seq::empty());
        tr
    }

    /// Whether a load of this transaction has failed.
    pub fn is_abort(&self) -> (b: bool)
        ensures
            b == self@.is_abort,
    {
        self.is_abort
    }

    /// The clock value at which the transaction began.
    pub fn read_ver(&self) -> (v: u64)
        ensures
            v == self@.read_ver,
    {
        self.read_ver
    }

    /// How many stripes the transaction holds locked.
    pub fn locked_len(&self) -> (n: usize)
        ensures
            n == self@.locked.len(),
    {
        self.locked.len()
    }

    /// Buffers a store of `val` to the stripe at `addr`; memory is not
    /// touched. A later store to the same address replaces this one.
    pub fn store(&mut self, addr: usize, val: [u8; 8])
        requires
            valid_addr(addr),
        ensures
            final(self)@ == (WriteView {
                write_set: old(self)@.write_set.insert(addr, val),
                ..old(self)@
            }),
            final(self)@.wf(),
    {
        proof {
            use_type_invariant(&*self);
        }
        // The set is taken out while it changes.
        let mut write_set: HashMap<usize, [u8; 8]> = HashMap::new();
        core::mem::swap(&mut self.write_set, &mut write_set);
        write_set.insert(addr, val);
        core::mem::swap(&mut self.write_set, &mut write_set);
    }

    /// Loads the stripe at `addr` and records the address as read. Returns
    /// the buffered store if the transaction has one for it; else reads
    /// memory as a read-only transaction does.
    pub fn load(&mut self, mem: &Memory, addr: usize) -> (r: Option<[u8; 8]>)
        requires
            valid_addr(addr),
        ensures
            final(self)@ == old(self)@.after_load(mem@, addr),
            final(self)@.wf(),
            match r {
                Some(v) => old(self)@.load_outcome(mem@, addr) == Some(v@),
                None => old(self)@.load_outcome(mem@, addr) is None,
            },
    {
        proof {
            use_type_invariant(&*self);
        }
        if self.is_abort {
            return None;
        }
        // The set is taken out while it changes.
        let mut read_set: HashSet<usize> = HashSet::new();
        assert((WriteView { read_set: read_set@, ..self@ }).wf());
        core::mem::swap(&mut self.read_set, &mut read_set);
        read_set.insert(addr);
        assert((WriteView { read_set: read_set@, ..self@ }).wf());
        core::mem::swap(&mut self.read_set, &mut read_set);
        if let Some(m) = self.write_set.get(&addr) {
            return Some(*m);
        }
        if !mem.test_not_modify(addr, self.read_ver) {
            self.is_abort = true;
            return None;
        }
        let out: [u8; 8] = copy_stripe(mem, addr);
        if !mem.test_not_modify(addr, self.read_ver) {
            self.is_abort = true;
            return None;
        }
        Some(out)
    }

    /// Locks the stripe of every buffered store, in the order in which the
    /// write set hands its addresses out, and records each stripe it
    /// locks. Stops at the first stripe that is already locked and returns
    /// false; returns true when all are locked.
    pub fn lock_write_set(&mut self, mem: &mut Memory) -> (ok: bool)
        ensures
            final(self)@.wf(),
            ok == old(mem)@.all_unlocked(old(self)@.write_set.dom()),
            old(self)@.locked.len() <= final(self)@.locked.len(),
            ({
                let added = final(self)@.locked.subrange(
                    old(self)@.locked.len() as int,
                    final(self)@.locked.len() as int,
                );
                &&& final(self)@ == (WriteView {
                    locked: old(self)@.locked + added,
                    ..old(self)@
                })
                &&& added.no_duplicates()
                &&& added.to_set().subset_of(old(self)@.write_set.dom())
                &&& ok ==> added.to_set() == old(self)@.write_set.dom()
                &&& old(mem)@.all_unlocked(added.to_set())
                &&& final(mem)@ == old(mem)@.lock_all(added.to_set())
            }),
    {
        let ghost base = self.locked@;
        let ghost mem0 = mem@;
        let ghost keys = spec_keys_iter(&self.write_set).remaining().unref();
        proof {
            use_type_invariant(&*self);
            mem.lemma_shaped();
            lemma_unref_keys(spec_keys_iter(&self.write_set).remaining());
            assert(keys.to_set() == self.write_set@.dom());
            assert(self.locked@.subrange(base.len() as int, base.len() as int) =~= keys.take(0));
            assert(mem0.lock_all(keys.take(0).to_set()).words =~= mem0.words);
        }
        // The list is taken out while it grows.
        let mut locked: Vec<usize> = Vec::new();
        core::mem::swap(&mut self.locked, &mut locked);
        for k in it: self.write_set.keys()
            invariant
                self.read_ver == old(self).read_ver,
                self.read_set == old(self).read_set,
                self.write_set == old(self).write_set,
                self.is_abort == old(self).is_abort,
                self.locked@.len() == 0,
                old(self)@.wf(),
                base == old(self)@.locked,
                mem0 == old(mem)@,
                mem0.shaped(),
                it.seq().unref() == keys,
                keys.no_duplicates(),
                keys.to_set() == old(self)@.write_set.dom(),
                locked@ == base + keys.take(it.index()),
                forall|i: int| 0 <= i < locked@.len() ==> valid_addr(#[trigger] locked@[i]),
                mem0.all_unlocked(keys.take(it.index()).to_set()),
                mem@ == mem0.lock_all(keys.take(it.index()).to_set()),
        {
            let addr: usize = *k;
            let ghost n = it.index();
            assert(keys[n] == addr);
            assert(keys.to_set().contains(addr));
            assert(old(self)@.write_set.contains_key(addr));
            assert(valid_addr(addr));
            proof {
                lemma_take_push(keys, n);
                if keys.take(n).to_set().contains(addr) {
                    let j = choose|j: int| 0 <= j < n && keys.take(n)[j] == addr;
                    assert(keys[j] == keys[n]);
                }
                assert(mem@.word_at(addr) == mem0.word_at(addr));
            }
            if mem.lock_addr(addr) {
                locked.push(addr);
                proof {
                    assert(locked@ =~= base + keys.take(n + 1));
                    assert(mem@.words =~= mem0.lock_all(keys.take(n + 1).to_set()).words);
                }
            } else {
                proof {
                    assert(locked@.subrange(base.len() as int, locked@.len() as int) =~= keys.take(
                        n,
                    ));
                    assert(mem@.words =~= mem0.lock_all(keys.take(n).to_set()).words);
                    lemma_take_subset(keys, n);
                }
                core::mem::swap(&mut self.locked, &mut locked);
                return false;
            }
        }
        proof {
            assert(keys.take(keys.len() as int) =~= keys);
            assert(locked@.subrange(base.len() as int, locked@.len() as int) =~= keys);
        }
        core::mem::swap(&mut self.locked, &mut locked);
        true
    }

    /// Checks that every stripe the transaction has read is still at or
    /// below its read version; a stripe that it does not also write must
    /// be unlocked as well.
    pub fn validate_read_set(&self, mem: &Memory) -> (ok: bool)
        ensures
            ok == self@.read_set_valid(mem@),
    {
        let ghost keys = spec_hash_keys_iter(&self.read_set).remaining().unref();
        proof {
            use_type_invariant(self);
            lemma_unref_keys(spec_hash_keys_iter(&self.read_set).remaining());
            assert(keys.to_set() == self.read_set@);
        }
        for k in it: self.read_set.iter()
            invariant
                self@.wf(),
                it.seq().unref() == keys,
                keys.to_set() == self@.read_set,
                forall|j: int|
                    0 <= j < it.index() ==> if self@.write_set.contains_key(#[trigger] keys[j]) {
                        word_version(mem@.word_at(keys[j])) <= self@.read_ver
                    } else {
                        mem@.word_at(keys[j]) <= self@.read_ver
                    },
        {
            let addr: usize = *k;
            assert(keys[it.index()] == addr);
            assert(keys.to_set().contains(addr));
            assert(self@.read_set.contains(addr));
            if self.write_set.contains_key(&addr) {
                let ver: u64 = mem.get_addr_ver(addr);
                if ver > self.read_ver {
                    return false;
                }
            } else if !mem.test_not_modify(addr, self.read_ver) {
                return false;
            }
        }
        proof {
            assert forall|a: usize| #[trigger] self@.read_set.contains(a) implies if self@.write_set.contains_key(
                a,
            ) {
                word_version(mem@.word_at(a)) <= self@.read_ver
            } else {
                mem@.word_at(a) <= self@.read_ver
            } by {
                assert(keys.to_set().contains(a));
                let j = choose|j: int| 0 <= j < keys.len() && keys[j] == a;
                assert(keys[j] == a);
            }
        }
        true
    }

    /// Writes every buffered store to memory, then releases each written
    /// stripe at version `ver`, and forgets which stripes were locked.
    pub fn commit(&mut self, mem: &mut Memory, ver: u64)
        ensures
            final(self)@ == (WriteView { locked: Seq::empty(), ..old(self)@ }),
            final(self)@.wf(),
            final(mem)@ == old(mem)@.committed(old(self)@.write_set, ver),
    {
        let ghost mem0 = mem@;
        let ghost ws = self.write_set@;
        let ghost keys = spec_keys_iter(&self.write_set).remaining().unref();
        proof {
            use_type_invariant(&*self);
            mem.lemma_shaped();
            lemma_unref_keys(spec_keys_iter(&self.write_set).remaining());
            assert(keys.to_set() == ws.dom());
            assert(mem0.committed(ws.restrict(keys.take(0).to_set()), ver).bytes =~= mem0.bytes);
        }
        for k in it: self.write_set.keys()
            invariant
                *self == *old(self),
                self@.wf(),
                ws == self@.write_set,
                mem0 == old(mem)@,
                mem0.shaped(),
                it.seq().unref() == keys,
                keys.no_duplicates(),
                keys.to_set() == ws.dom(),
                mem@.words == mem0.words,
                mem@.clock == mem0.clock,
                mem@.bytes == mem0.committed(
                    ws.restrict(keys.take(it.index()).to_set()),
                    ver,
                ).bytes,
        {
            let addr: usize = *k;
            let ghost n = it.index();
            assert(keys[n] == addr);
            assert(keys.to_set().contains(addr));
            assert(ws.contains_key(addr));
            assert(valid_addr(addr));
            let val = self.write_set.get(&addr);
            match val {
                Some(v) => {
                    mem.write_stripe(addr, v);
                    proof {
                        lemma_take_push(keys, n);
                        assert(mem@.bytes =~= mem0.committed(
                            ws.restrict(keys.take(n + 1).to_set()),
                            ver,
                        ).bytes);
                    }
                },
                None => {
                    assert(false);
                },
            }
        }
        proof {
            assert(keys.take(keys.len() as int) =~= keys);
            assert(ws.restrict(keys.to_set()) =~= ws);
            assert(mem0.committed(ws.restrict(keys.take(0).to_set()), ver).words =~= mem0.words);
        }
        for k in it: self.write_set.keys()
            invariant
                *self == *old(self),
                self@.wf(),
                ws == self@.write_set,
                mem0 == old(mem)@,
                mem0.shaped(),
                it.seq().unref() == keys,
                keys.no_duplicates(),
                keys.to_set() == ws.dom(),
                mem@.bytes == mem0.committed(ws, ver).bytes,
                mem@.clock == mem0.clock,
                mem@.words == mem0.committed(
                    ws.restrict(keys.take(it.index()).to_set()),
                    ver,
                ).words,
        {
            let addr: usize = *k;
            let ghost n = it.index();
            assert(keys[n] == addr);
            assert(keys.to_set().contains(addr));
            assert(ws.contains_key(addr));
            assert(valid_addr(addr));
            mem.store_word(addr, ver);
            proof {
                lemma_take_push(keys, n);
                assert(mem@.words =~= mem0.committed(
                    ws.restrict(keys.take(n + 1).to_set()),
                    ver,
                ).words);
            }
        }
        proof {
            assert(keys.take(keys.len() as int) =~= keys);
            assert(ws.restrict(keys.to_set()) =~= ws);
        }
        self.forget_locked();
    }

    /// Clears the lock flag of every stripe that the transaction holds
    /// locked, versions untouched, and forgets them. This is what
    /// abandoning a transaction does.
    pub fn release(&mut self, mem: &mut Memory)
        ensures
            final(self)@ == (WriteView { locked: Seq::empty(), ..old(self)@ }),
            final(self)@.wf(),
            final(mem)@ == old(mem)@.unlock_all(old(self)@.locked.to_set()),
    {
        let ghost mem0 = mem@;
        let ghost held = self.locked@;
        proof {
            use_type_invariant(&*self);
            mem.lemma_shaped();
            assert(mem0.unlock_all(held.take(0).to_set()).words =~= mem0.words);
        }
        let mut i: usize = 0;
        while i < self.locked.len()
            invariant
                *self == *old(self),
                self@.wf(),
                held == self.locked@,
                mem0 == old(mem)@,
                mem0.shaped(),
                i <= held.len(),
                mem@ == mem0.unlock_all(held.take(i as int).to_set()),
            decreases held.len() - i,
        {
            let addr: usize = self.locked[i];
            assert(valid_addr(self@.locked[i as int]));
            mem.unlock_addr(addr);
            proof {
                assert(held.take(i + 1) =~= held.take(i as int).push(addr));
                held.take(i as int).lemma_push_to_set_commute(addr);
                assert(mem@.words =~= mem0.unlock_all(held.take(i + 1).to_set()).words);
            }
            i = i + 1;
        }
        proof {
            assert(held.take(held.len() as int) =~= held);
        }
        self.forget_locked();
    }

    /// Empties the list of locked stripes.
    fn forget_locked(&mut self)
        ensures
            final(self)@ == (WriteView { locked: Seq::empty(), ..old(self)@ }),
    {
        proof {
            use_type_invariant(&*self);
        }
        let mut locked: Vec<usize> = Vec::new();
        core::mem::swap(&mut self.locked, &mut locked);
        assert(self@.locked =~= Seq::empty());
    }

    /// Tries to commit: locks the write set, advances the clock, checks
    /// the read set unless the clock moved by exactly one since the
    /// transaction began, then writes the stores and releases the stripes
    /// at the new version. Where a step fails, every stripe that the
    /// transaction holds is released and nothing is written.
    pub fn try_commit(&mut self, mem: &mut Memory) -> (ok: bool)
        requires
            old(mem)@.clock < MAX_VERSION,
        ensures
            final(self)@ == (WriteView { locked: Seq::empty(), ..old(self)@ }),
            final(self)@.wf(),
            (final(mem)@, ok) == old(self)@.commit_outcome(old(mem)@),
    {
        let ghost tx0 = self@;
        let ghost mem0 = mem@;
        let ghost dom = self@.write_set.dom();
        proof {
            use_type_invariant(&*self);
            mem.lemma_shaped();
        }
        if !self.lock_write_set(mem) {
            proof {
                let added = self@.locked.subrange(tx0.locked.len() as int, self@.locked.len() as int);
                lemma_concat_to_set(tx0.locked, added);
                lemma_relock(mem0, added.to_set(), tx0.locked.to_set());
            }
            self.release(mem);
            return false;
        }
        let ghost added = self@.locked.subrange(tx0.locked.len() as int, self@.locked.len() as int);
        let prev: u64 = mem.inc_global_clock();
        let ver: u64 = prev + 1;
        if self.read_ver != prev && !self.validate_read_set(mem) {
            proof {
                lemma_concat_to_set(tx0.locked, added);
                lemma_relock(mem0.ticked(), dom, tx0.locked.to_set());
                assert(mem@ == mem0.ticked().lock_all(dom));
                assert(self@.read_set_valid(mem@) == tx0.read_set_valid(mem0.lock_all(dom)));
            }
            self.release(mem);
            return false;
        }
        proof {
            assert(self@.read_set_valid(mem@) == tx0.read_set_valid(mem0.lock_all(dom)));
        }
        self.commit(mem, ver);
        proof {
            assert(mem@.words =~= mem0.ticked().committed(tx0.write_set, ver).words);
            assert(mem@.bytes =~= mem0.ticked().committed(tx0.write_set, ver).bytes);
        }
        true
    }

    /// Ends one attempt of a read-write transaction whose body returned
    /// `result`: commits where the body finished with a value and saw no
    /// conflict, and releases every stripe that the transaction holds.
    pub fn finish<R>(self, mem: &mut Memory, result: STMResult<R>) -> (out: Attempt<R>)
        requires
            old(mem)@.clock < MAX_VERSION,
        ensures
            (out, final(mem)@) == self@.finish_outcome(old(mem)@, result),
    {
        let mut tr = self;
        match result {
            STMResult::Abort => {
                tr.release(mem);
                Attempt::Done(None)
            },
            STMResult::Retry => {
                tr.release(mem);
                if tr.is_abort {
                    Attempt::Restart
                } else {
                    Attempt::Done(None)
                }
            },
            STMResult::Success(val) => {
                if tr.is_abort {
                    tr.release(mem);
                    Attempt::Restart
                } else if tr.try_commit(mem) {
                    Attempt::Done(Some(val))
                } else {
                    Attempt::Restart
                }
            },
        }
    }
}

/// A transactional memory: one memory image, reached only through
/// transactions. Between transactions no stripe is locked.
pub struct STM {
    mem: Memory,
}

impl View for STM {
    type V = MemoryView;

    closed spec fn view(&self) -> MemoryView {
        self.mem@
    }
}

impl STM {
    /// The memory image that transactions of this memory read.
    pub closed spec fn image(&self) -> Memory {
        self.mem
    }

    /// No stripe is locked and no version is ahead of the clock.
    pub open spec fn quiescent(&self) -> bool {
        self@.unlocked() && self@.versions_bounded()
    }

    /// A transactional memory over a zeroed image at clock 0.
    pub fn new() -> (stm: STM)
        ensures
            stm@.bytes == Seq::new(MEM_SIZE as nat, |i: int| 0u8),
            stm@.words == Seq::new(STRIPE_NUM as nat, |i: int| 0u64),
            stm@.clock == 0,
            stm.quiescent(),
            stm.image()@ == stm@,
    {
        STM { mem: Memory::new() }
    }

    /// The memory image, for reading.
    pub fn memory(&self) -> (mem: &Memory)
        ensures
            *mem == self.image(),
            mem@ == self@,
    {
        &self.mem
    }

    /// Runs one attempt of a read-only transaction: begins it at the
    /// current clock, runs `f` on it once, and ends it by what `f`
    /// returned.
    pub fn read_transaction<R>(&self, f: impl Fn(&mut ReadTrans, &Memory) -> STMResult<R>) -> (out:
        Attempt<R>)
        requires
            forall|tr: &mut ReadTrans|
                tr@ == (ReadView { read_ver: self@.clock, is_abort: false }) ==> call_requires(
                    f,
                    (tr, &self.image()),
                ),
        ensures
            exists|tr: &mut ReadTrans, result: STMResult<R>|
                {
                    &&& tr@ == (ReadView { read_ver: self@.clock, is_abort: false })
                    &&& #[trigger] call_ensures(f, (tr, &self.image()), result)
                    &&& out == body_verdict(result, final(tr)@.is_abort)
                },
    {
        let mut tr = ReadTrans::new(&self.mem);
        let result = f(&mut tr, &self.mem);
        tr.finish(result)
    }

    /// Runs one attempt of a read-write transaction: begins it at the
    /// current clock, runs `f` on it once, and ends it by what `f`
    /// returned, committing the buffered stores where `f` finished with a
    /// value and nothing conflicts.
    pub fn write_tansaction<R>(
        &mut self,
        f: impl Fn(&mut WriteTrans, &Memory) -> STMResult<R>,
    ) -> (out: Attempt<R>)
        requires
            old(self)@.clock < MAX_VERSION,
            forall|tr: &mut WriteTrans|
                tr@ == WriteView::begun(old(self)@.clock) ==> call_requires(
                    f,
                    (tr, &old(self).image()),
                ),
        ensures
            exists|tr: &mut WriteTrans, result: STMResult<R>|
                {
                    &&& tr@ == WriteView::begun(old(self)@.clock)
                    &&& #[trigger] call_ensures(f, (tr, &old(self).image()), result)
                    &&& (out, final(self)@) == final(tr)@.finish_outcome(old(self)@, result)
                },
            old(self).quiescent() ==> final(self).quiescent(),
    {
        let mut tr = WriteTrans::new(&self.mem);
        let result = f(&mut tr, &self.mem);
        proof {
            use_type_invariant(&tr);
            self.mem.lemma_shaped();
            if self.quiescent() {
                law_attempt_keeps_quiescence(tr@, self.mem@, result);
            }
        }
        tr.finish(&mut self.mem, result)
    }
}

impl Default for STM {
    /// The same as `STM::new`.
    fn default() -> (stm: STM)
        ensures
            stm@.bytes == Seq::new(MEM_SIZE as nat, |i: int| 0u8),
            stm@.words == Seq::new(STRIPE_NUM as nat, |i: int| 0u64),
            stm@.clock == 0,
            stm.quiescent(),
    {
        STM::new()
    }
}

/// An attempt on a memory with no stripe locked and no version ahead of
/// the clock leaves such a memory.
pub proof fn law_attempt_keeps_quiescence<R>(tx: WriteView, mem: MemoryView, result: STMResult<R>)
    requires
        tx.wf(),
        mem.shaped(),
        mem.clock < MAX_VERSION,
        mem.unlocked(),
        mem.versions_bounded(),
    ensures
        tx.finish_outcome(mem, result).1.unlocked(),
        tx.finish_outcome(mem, result).1.versions_bounded(),
        tx.finish_outcome(mem, result).1.shaped(),
{
    let held = tx.locked.to_set();
    assert(mem.unlock_all(held).words =~= mem.words);
    assert(mem.ticked().unlock_all(held).words =~= mem.words);
    let wv = (mem.clock + 1) as u64;
    let after = mem.ticked().committed(tx.write_set, wv);
    assert forall|s: int| 0 <= s < after.words.len() implies !word_locked(#[trigger] after.words[s])
        && word_version(after.words[s]) <= after.clock by {
        assert(!word_locked(mem.words[s]));
        assert(word_version(mem.words[s]) <= mem.clock);
    }
}

/// A transaction that is abandoned after it has locked stripes, with
/// nothing written, leaves no trace: the stripes it released are unlocked,
/// every version, every byte and the clock are as before it locked, and
/// if it had found the stripes unlocked the memory is what it was.
pub proof fn law_abandon_restores(mem: MemoryView, held: Set<usize>)
    requires
        mem.shaped(),
        forall|a: usize| #[trigger] held.contains(a) ==> valid_addr(a),
    ensures
        ({
            let after = mem.lock_all(held).unlock_all(held);
            &&& after.bytes == mem.bytes
            &&& after.clock == mem.clock
            &&& after.all_unlocked(held)
            &&& forall|s: int|
                0 <= s < STRIPE_NUM ==> word_version(#[trigger] after.words[s]) == word_version(
                    mem.words[s],
                )
            &&& forall|a: usize, rv: u64|
                valid_addr(a) && !word_locked(mem.word_at(a)) ==> #[trigger] load_outcome(
                    false,
                    rv,
                    after,
                    a,
                ) == load_outcome(false, rv, mem, a)
            &&& mem.all_unlocked(held) ==> after == mem
        }),
{
    let after = mem.lock_all(held).unlock_all(held);
    assert forall|a: usize| #[trigger] held.contains(a) implies !word_locked(after.word_at(a)) by {
        assert(stripe_of(a) * 8 == a);
    }
    assert forall|a: usize| valid_addr(a) && !word_locked(mem.word_at(a)) implies after.word_at(a)
        == mem.word_at(a) by {}
    if mem.all_unlocked(held) {
        lemma_relock(mem, held, Set::empty());
        assert(Set::<usize>::empty().union(held) =~= held);
        assert(mem.unlock_all(Set::empty()).words =~= mem.words);
    }
}

/// When the clock has not moved between the begin of a transaction and
/// its commit, so that its write version is its read version plus one,
/// no stripe can have been committed in between: every stripe is still
/// at or below the read version, whoever holds its lock. What the
/// transaction read is what a check of the versions would confirm, and
/// the commit goes through as soon as its own stripes are free.
pub proof fn law_clock_skip(tx: WriteView, mem: MemoryView)
    requires
        mem.shaped(),
        mem.versions_bounded(),
        mem.clock < MAX_VERSION,
        tx.wf(),
        tx.read_ver == mem.clock,
    ensures
        forall|a: usize|
            valid_addr(a) ==> word_version(
                #[trigger] mem.lock_all(tx.write_set.dom()).word_at(a),
            ) <= tx.read_ver,
        tx.commit_outcome(mem).1 == mem.all_unlocked(tx.write_set.dom()),
        tx.commit_outcome(mem).1 ==> tx.commit_outcome(mem).0 == mem.ticked().committed(
            tx.write_set,
            (tx.read_ver + 1) as u64,
        ),
{
    assert forall|a: usize| valid_addr(a) implies word_version(
        #[trigger] mem.lock_all(tx.write_set.dom()).word_at(a),
    ) <= tx.read_ver by {
        assert(word_version(mem.words[stripe_of(a)]) <= mem.clock);
    }
}

/// The keys behind a sequence of distinct references are distinct.
proof fn lemma_unref_keys(refs: Seq<&usize>)
    requires
        refs.no_duplicates(),
    ensures
        refs.unref().no_duplicates(),
        refs.unref().len() == refs.len(),
{
    assert forall|i: int, j: int|
        0 <= i < refs.unref().len() && 0 <= j < refs.unref().len() && i != j implies refs.unref()[i]
        != refs.unref()[j] by {
        assert(refs[i] != refs[j]);
    }
}

/// One more element of a sequence without repeats adds that element to
/// the set of its prefix, and the prefix has no repeats.
proof fn lemma_take_push(keys: Seq<usize>, n: int)
    requires
        0 <= n < keys.len(),
        keys.no_duplicates(),
    ensures
        keys.take(n + 1) == keys.take(n).push(keys[n]),
        keys.take(n + 1).to_set() == keys.take(n).to_set().insert(keys[n]),
        !keys.take(n).to_set().contains(keys[n]),
        keys.take(n + 1).no_duplicates(),
{
    assert(keys.take(n + 1) =~= keys.take(n).push(keys[n]));
    keys.take(n).lemma_push_to_set_commute(keys[n]);
    if keys.take(n).contains(keys[n]) {
        let j = choose|j: int| 0 <= j < n && keys.take(n)[j] == keys[n];
        assert(keys[j] == keys[n]);
    }
}

/// A prefix of a sequence without repeats has no repeats and holds only
/// elements of the sequence.
proof fn lemma_take_subset(keys: Seq<usize>, n: int)
    requires
        0 <= n <= keys.len(),
        keys.no_duplicates(),
    ensures
        keys.take(n).no_duplicates(),
        keys.take(n).to_set().subset_of(keys.to_set()),
{
    assert forall|a: usize| keys.take(n).to_set().contains(a) implies keys.to_set().contains(
        a,
    ) by {
        let j = choose|j: int| 0 <= j < n && keys.take(n)[j] == a;
        assert(keys[j] == a);
    }
}

/// The elements of two sequences joined are those of both.
proof fn lemma_concat_to_set(a: Seq<usize>, b: Seq<usize>)
    ensures
        (a + b).to_set() == a.to_set().union(b.to_set()),
{
    assert forall|x: usize| (a + b).to_set().contains(x) <==> a.to_set().union(
        b.to_set(),
    ).contains(x) by {
        if (a + b).contains(x) {
            let j = choose|j: int| 0 <= j < (a + b).len() && (a + b)[j] == x;
            if j < a.len() {
                assert(a[j] == x);
            } else {
                assert(b[j - a.len()] == x);
            }
        }
        if a.contains(x) {
            let j = choose|j: int| 0 <= j < a.len() && a[j] == x;
            assert((a + b)[j] == x);
        }
        if b.contains(x) {
            let j = choose|j: int| 0 <= j < b.len() && b[j] == x;
            assert((a + b)[a.len() + j] == x);
        }
    }
    assert((a + b).to_set() =~= a.to_set().union(b.to_set()));
}

/// Locking stripes that were unlocked and then releasing them, together
/// with others, is the same as releasing the others alone.
pub(crate) proof fn lemma_relock(mem: MemoryView, fresh: Set<usize>, held: Set<usize>)
    requires
        mem.shaped(),
        mem.all_unlocked(fresh),
        forall|a: usize| #[trigger] fresh.contains(a) ==> valid_addr(a),
    ensures
        mem.lock_all(fresh).unlock_all(held.union(fresh)) == mem.unlock_all(held),
{
    assert forall|s: int| 0 <= s < mem.words.len() implies mem.lock_all(fresh).unlock_all(
        held.union(fresh),
    ).words[s] == mem.unlock_all(held).words[s] by {
        let a = (8 * s) as usize;
        if fresh.contains(a) {
            assert(!word_locked(mem.word_at(a)));
            assert(stripe_of(a) == s);
        }
    }
    assert(mem.lock_all(fresh).unlock_all(held.union(fresh)).words =~= mem.unlock_all(held).words);
}

} // verus!
