//! jos: the verified core of a small AArch64 teaching kernel.
//!
//! The hardware-facing edges (system registers, MMIO, context switches, the
//! vector table) live outside this crate; everything that decides or computes
//! is here, stated against mathematical models and proved by Verus.
use vstd::prelude::*;

pub mod abi;
pub mod kernel;
pub mod early;
pub mod ulib;
pub mod laws;

verus! {

} // verus!
