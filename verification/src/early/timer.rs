//! The ARM generic timer (EL1 physical timer): a periodic tick at ~100 Hz.
//! The count and the reload value are decided here; the timer registers are
//! programmed outside.
use vstd::prelude::*;

verus! {

/// INTID of the EL1 physical timer on the `virt` machine (PPI 14).
pub const TIMER_INTID: u32 = 30;
/// Target interrupt rate (ticks per second).
pub const TICK_HZ: u64 = 100;

/// The timer's frequency and the ticks seen since boot.
pub struct Timer {
    /// Timer input frequency in Hz (`CNTFRQ_EL0`).
    pub freq: u64,
    /// Ticks since boot.
    pub ticks: u64,
}

/// Number of timer ticks since boot.
pub fn ticks(t: &Timer) -> (r: u64)
    ensures
        r == t.ticks,
{
    t.ticks
}

/// Countdown value (timer cycles) of one tick interval.
fn interval(t: &Timer) -> (r: u64)
    ensures
        r == t.freq / TICK_HZ,
{
    t.freq / TICK_HZ
}

/// Start the periodic timer at frequency `freq`: no ticks yet, and the first
/// countdown to load.
pub fn init(freq: u64) -> (r: (Timer, u64))
    ensures
        r.0.freq == freq,
        r.0.ticks == 0,
        r.1 == freq / TICK_HZ,
{
    let t = Timer { freq, ticks: 0 };
    let tval = interval(&t);
    (t, tval)
}

/// Handle one tick: count it (wrapping) and return the countdown to reload.
pub fn on_tick(t: &mut Timer) -> (tval: u64)
    ensures
        final(t).freq == old(t).freq,
        final(t).ticks == old(t).ticks.wrapping_add(1),
        tval == old(t).freq / TICK_HZ,
{
    t.ticks = t.ticks.wrapping_add(1);
    interval(t)
}

} // verus!
