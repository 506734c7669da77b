//! Process-governance core of a small teaching operating-system kernel:
//! stride scheduling, resource slots with Banker's-algorithm deadlock
//! avoidance, and page-aligned virtual-memory region management.
//!
//! The surrounding kernel (trap dispatch, context switching, user-memory
//! translation, the timer interrupt source) is out of scope; it drives this
//! core by translating raw syscall arguments into plain values, invoking the
//! operations below on explicit state, and acting on the returned codes.

pub mod detector;
pub mod kernel;
pub mod mem;
pub mod sched;
pub mod task;
