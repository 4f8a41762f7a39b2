//! A generalized LL (GLL) parser runtime: a deduplicating thread scheduler,
//! a graph-structured stack of return continuations, a memoizer of accepted
//! lengths, and the driver operations that compiled grammar steps call.
pub mod span;
pub mod thread;
pub mod sched;
pub mod gss;
pub mod memo;
pub mod forest;
pub mod runtime;
pub mod cursor;
pub mod laws;
