//! Verified cores of four shared-memory coordination primitives: a LIFO
//! stack, a bounded-waiting lock, a cooperative scheduler and a word-striped
//! transactional memory.
//!
//! Every operation is one atomic step on plain state, with a contract that
//! says exactly what the step does. Whoever shares a core between threads
//! has to make each step atomic and does the waiting between steps. What
//! holds however the steps of several contenders interleave is stated and
//! proved beside the code: mutual exclusion and bounded waiting for the
//! lock, conservation of values for the stack, polling order for the
//! scheduler, and consistent reads and serial commits for the memory.

pub mod fair_lock;
pub mod scheduling;
pub mod stack;
pub mod tl2;
pub mod tl2_history;
