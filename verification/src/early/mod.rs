//! The first-phase kernel: a single EL0 routine, a bump-allocated heap, the
//! exception vectors, cooperative threads and the demo syscalls.
pub mod exceptions;
pub mod heap;
pub mod mem;
pub mod timer;
pub mod sched;
pub mod syscall;
pub mod user;
