//! Symbolic execution of bytecode for a stack machine, one instruction at a
//! time. Instead of running one concrete trace, the engine enumerates at
//! each instruction every outcome that an SMT solver finds reachable under
//! the constraints of the path, and the caller commits one of them.
//!
//! - [`smt`] is the boundary to the solver: what its terms and sessions
//!   denote, and the calls into it.
//! - [`word`], [`stack`], [`outcome`], [`program`] and [`execution`] hold the
//!   data of the machine.
//! - [`ops`] holds the instructions, each with its enumeration and its
//!   commit; [`ops::jumpi`] is the conditional jump.
//! - [`engine`] is the driver, with `step`, `apply` and `fork`.
//! - [`laws`] states what holds of every enumeration and of every commit.

pub mod engine;
pub mod error;
pub mod execution;
pub mod laws;
pub mod ops;
pub mod outcome;
pub mod program;
pub mod query;
pub mod smt;
pub mod stack;
pub mod storage;
pub mod word;

pub use engine::{Builder, ZEvm};
pub use outcome::{Halt, Offset, Outcome, Run};
