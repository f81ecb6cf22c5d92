//! A reminder scheduler: a compact command language with relative and
//! absolute time expressions, a per-user reminder store with a strict
//! ordering invariant, preference handling, snapshot persistence and a
//! periodic scheduler tick.

pub mod civil;
pub mod time;
pub mod store;
pub mod parse;
pub mod render;
pub mod handler;
pub mod persist;
pub mod sched;
