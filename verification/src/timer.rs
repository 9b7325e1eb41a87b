//! The early machine timer: a wrapping tick counter and the compare value that arms
//! the next interrupt.
use vstd::prelude::*;

verus! {

use crate::drivers::timer::{wrapped_add, next_deadline, TIMER_INTERVAL};

/// The compare value that arms the first timer interrupt, given the machine time
/// `now`.
pub fn init_timer(now: u64) -> (deadline: u64)
    ensures
        deadline == wrapped_add(now, TIMER_INTERVAL),
{
    next_deadline(now)
}

/// The tick count after one more timer interrupt, wrapping around.
pub fn handle_timer_interrupt(tick_count: u64) -> (next: u64)
    ensures
        next == wrapped_add(tick_count, 1),
{
    tick_count.wrapping_add(1)
}

} // verus!
