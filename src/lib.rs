//! A small tracing garbage collector over an arena of object headers.
//!
//! Objects live in the slots of a [`Manager`]; handles are addresses into it.
//! Each collection cycle drains the intake list, ages every adopted object,
//! marks what is reachable from pinned objects and frees what has aged past
//! the death threshold.

pub mod mem_block;
pub mod traceable;
pub mod manager;
pub mod graph;
pub mod laws;

pub use mem_block::{Data, PinPtr, Ptr};
pub use traceable::Traceable;
pub use manager::{start_gc_manager, CycleReport, GcState, Manager, TracingContext, DEATH_THRESHOLD};
