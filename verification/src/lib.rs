//! A verified safety layer for driving an embedded logic-programming engine.
//!
//! The engine underneath is a Prolog-style resolution machine with a global
//! mutable term stack, backtracking and an exception channel. Its raw
//! interface is unchecked: misuse (closing frames out of order, running two
//! queries at once, touching a term from the wrong engine) corrupts memory
//! instead of failing. This crate makes that protocol safe by construction:
//! it models the engine's observable state — term slots, the binding trail,
//! the pending exception and the predicate table — as explicit verified data,
//! and every operation of the activation/context/frame/query lifecycle
//! carries a contract that pins down exactly how it moves that state.
//!
//! The layering mirrors the protocol itself:
//! - [`engine`]: engine handles, the per-thread activation slot, and the
//!   rule that at most one engine is active on a thread at a time.
//! - [`context`]: the capability object through which all engine state is
//!   touched; stack-shaped frame scopes with exactly-scoped rewind.
//! - [`term`]: term handles, term values, and the unification/readback
//!   traits.
//! - [`callable`]: predicates as callable values, the query lifecycle with
//!   its tri-state result (solution / logical failure / exception), and the
//!   lazily cached predicate resolution.

pub mod callable;
pub mod context;
pub mod engine;
pub mod predicate;
pub mod result;
pub mod store;
pub mod term;
