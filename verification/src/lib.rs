//! Conflict-free replicated data types: a vector clock and a composable
//! map with reset-remove semantics.
pub mod ctx;
pub mod laws;
pub mod map;
pub mod map_model;
pub mod traits;
pub mod vclock;
pub mod vclock_laws;

pub use crate::ctx::{AddCtx, ReadCtx, RmCtx};
pub use crate::map::{CrdtMap, Deferred, Entry, Key, Op, Val};
pub use crate::traits::{Causal, CmRDT, CvRDT, Valid};
pub use crate::vclock::{Actor, Counter, Dot, VClock};
