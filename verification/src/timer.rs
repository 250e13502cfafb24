//! Time: the board's timer counts `CLOCK_FREQ` ticks a second.
use vstd::prelude::*;

use crate::config::CLOCK_FREQ;

verus! {

pub const MSEC_PER_SEC: usize = 1_000;

pub const USEC_PER_SEC: usize = 1_000_000;

/// Timer interrupts a second.
pub const TICKS_PER_SEC: usize = 100;

/// The milliseconds that `ticks` timer counts make. The count is divided by the ticks
/// per millisecond, not first by the frequency, so that no precision is lost.
pub fn get_time_ms(ticks: usize) -> (r: usize)
    ensures
        r == ticks / 12_500,
{
    ticks / (CLOCK_FREQ / MSEC_PER_SEC)
}

/// The microseconds that `ticks` timer counts make.
pub fn get_time_us(ticks: usize) -> (r: usize)
    ensures
        r == ticks / 12,
{
    ticks / (CLOCK_FREQ / USEC_PER_SEC)
}

/// When the next timer interrupt is due, seen at timer count `now`: one period of
/// `1 / TICKS_PER_SEC` seconds later.
pub fn set_next_trigger(now: usize) -> (r: usize)
    requires
        now + CLOCK_FREQ / TICKS_PER_SEC <= usize::MAX,
    ensures
        r == now + 125_000,
{
    now + CLOCK_FREQ / TICKS_PER_SEC
}

} // verus!
