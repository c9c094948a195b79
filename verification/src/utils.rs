//! The clock texts the timer shows in its title: elapsed time for a
//! count-up session, remaining time for a countdown.

use vstd::prelude::*;
use crate::text::{clock_string, time_text};

verus! {

/// `HH:MM:SS` of the seconds elapsed so far.
pub fn format_time_timer(elapsed: u32) -> (r: String)
    ensures
        r@ == time_text(elapsed as int),
{
    clock_string(elapsed as u64)
}

/// `HH:MM:SS` of the seconds still to run.
pub fn format_time_countdown(elapsed: usize, total: usize) -> (r: String)
    requires
        elapsed <= total,
    ensures
        r@ == time_text(total - elapsed),
{
    clock_string((total - elapsed) as u64)
}

} // verus!
