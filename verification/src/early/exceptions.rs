//! AArch64 exception handling decisions: which vector group an exception came
//! through, what its syndrome says, and how an IRQ is serviced.
//!
//! The vector stubs save every general register plus `ELR` and `SPSR` into a
//! [`TrapFrame`]; the handler classifies the exception with
//! [`exception_dispatch`] and acts on the answer.
use vstd::prelude::*;
use crate::kernel::gic::{SPURIOUS_MIN, is_spurious};

verus! {

/// Saved processor state on exception entry (layout of the vector stubs).
pub struct TrapFrame {
    /// General registers x0..x30.
    pub x: [u64; 31],
    /// Exception Link Register (the return address).
    pub elr: u64,
    /// Saved Program Status Register.
    pub spsr: u64,
    /// Padding to keep the frame 16-byte aligned.
    pub _pad: u64,
}

/// Exception class (`ESR_EL1.EC`) of an AArch64 `SVC`.
pub const EC_SVC: u64 = 0x15;

/// INTID of the EL1 physical timer on the `virt` machine (PPI 14).
pub const TIMER_INTID: u32 = 30;

/// What the common handler does with an exception.
#[derive(Clone, Copy, PartialEq, Eq, Structural, Debug)]
pub enum ExceptionAction {
    /// Service an IRQ.
    Irq,
    /// Dispatch a syscall; `from_user` when the `SVC` came from EL0.
    Syscall { from_user: bool },
    /// Report the exception and halt.
    Fatal,
}

/// What servicing an IRQ does after acknowledging it.
#[derive(Clone, Copy, PartialEq, Eq, Structural, Debug)]
pub enum IrqAction {
    /// No real interrupt: nothing to do, no EOI.
    Spurious,
    /// The timer: count the tick, signal EOI, then run the scheduler tick.
    Timer,
    /// Any other interrupt: just signal EOI.
    Other,
}

/// The exception class field (`ESR_EL1` bits [31:26]).
pub open spec fn ec_of(esr: u64) -> u64 {
    (esr >> 26u64) & 0x3F
}

/// The exception class of the syndrome `esr`.
pub fn exception_class(esr: u64) -> (ec: u64)
    ensures
        ec == ec_of(esr),
        ec < 64,
{
    assert((esr >> 26u64) & 0x3F < 64) by (bit_vector);
    (esr >> 26u64) & 0x3F
}

/// Classify an exception taken through vector `kind` (0-15) with syndrome
/// `esr`. The 16 vectors come in groups of four; index 1 of each group is the
/// IRQ entry, index 0 the synchronous one, where an `SVC` is a syscall (from
/// EL0 when `kind >= 8`). Everything else is fatal.
pub fn exception_dispatch(kind: u64, esr: u64) -> (a: ExceptionAction)
    ensures
        kind % 4 == 1 ==> a == ExceptionAction::Irq,
        kind % 4 == 0 && ec_of(esr) == EC_SVC ==> a == (ExceptionAction::Syscall { from_user: kind >= 8 }),
        kind % 4 == 0 && ec_of(esr) != EC_SVC ==> a == ExceptionAction::Fatal,
        kind % 4 >= 2 ==> a == ExceptionAction::Fatal,
{
    let m = kind % 4;
    if m == 1 {
        ExceptionAction::Irq
    } else if m == 0 {
        let ec = exception_class(esr);
        if ec == EC_SVC {
            ExceptionAction::Syscall { from_user: kind >= 8 }
        } else {
            ExceptionAction::Fatal
        }
    } else {
        ExceptionAction::Fatal
    }
}

/// Service an acknowledged IRQ: spurious ones are ignored; the timer's is
/// counted, ended and followed by the scheduler tick; others are just ended.
pub fn handle_irq(intid: u32) -> (a: IrqAction)
    ensures
        intid >= SPURIOUS_MIN ==> a == IrqAction::Spurious,
        intid < SPURIOUS_MIN && intid == TIMER_INTID ==> a == IrqAction::Timer,
        intid < SPURIOUS_MIN && intid != TIMER_INTID ==> a == IrqAction::Other,
{
    if is_spurious(intid) {
        return IrqAction::Spurious;
    }
    if intid == TIMER_INTID {
        return IrqAction::Timer;
    }
    IrqAction::Other
}

/// The name of exception class `ec`.
pub open spec fn ec_name_spec(ec: u64) -> Seq<char> {
    if ec == 0x00 {
        "unknown"@
    } else if ec == 0x07 {
        "SIMD/FP access trapped"@
    } else if ec == 0x15 {
        "SVC (AArch64 syscall)"@
    } else if ec == 0x20 {
        "instruction abort (lower EL)"@
    } else if ec == 0x21 {
        "instruction abort (same EL)"@
    } else if ec == 0x24 {
        "data abort (lower EL)"@
    } else if ec == 0x25 {
        "data abort (same EL)"@
    } else if ec == 0x3C {
        "BRK (AArch64 breakpoint)"@
    } else {
        "other"@
    }
}

/// Human-readable name for an exception class (`ESR_EL1.EC`).
pub fn ec_name(ec: u64) -> (r: &'static str)
    ensures
        r@ == ec_name_spec(ec),
{
    if ec == 0x00 {
        "unknown"
    } else if ec == 0x07 {
        "SIMD/FP access trapped"
    } else if ec == 0x15 {
        "SVC (AArch64 syscall)"
    } else if ec == 0x20 {
        "instruction abort (lower EL)"
    } else if ec == 0x21 {
        "instruction abort (same EL)"
    } else if ec == 0x24 {
        "data abort (lower EL)"
    } else if ec == 0x25 {
        "data abort (same EL)"
    } else if ec == 0x3C {
        "BRK (AArch64 breakpoint)"
    } else {
        "other"
    }
}

/// The name of the vector group of entry `kind`.
pub open spec fn vector_name_spec(kind: u64) -> Seq<char> {
    if kind <= 3 {
        "current EL, SP0"@
    } else if kind <= 7 {
        "current EL, SPx"@
    } else if kind <= 11 {
        "lower EL, AArch64"@
    } else {
        "lower EL, AArch32"@
    }
}

/// Which of the four vector-table groups entry `kind` belongs to.
pub fn vector_name(kind: u64) -> (r: &'static str)
    ensures
        r@ == vector_name_spec(kind),
{
    if kind <= 3 {
        "current EL, SP0"
    } else if kind <= 7 {
        "current EL, SPx"
    } else if kind <= 11 {
        "lower EL, AArch64"
    } else {
        "lower EL, AArch32"
    }
}

} // verus!
