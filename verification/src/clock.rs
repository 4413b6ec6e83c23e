//! Ticks and deadlines.
//!
//! The library is handed the present tick with every event. A deadline is a
//! tick; it has passed once the present tick is above it.

use vstd::prelude::*;

verus! {

/// The deadline of something that starts at `now` and has `after` ticks: their
/// sum, or the last tick there is where the sum is beyond it.
pub open spec fn deadline_spec(now: u64, after: u64) -> u64 {
    if now + after > u64::MAX {
        u64::MAX
    } else {
        (now + after) as u64
    }
}

/// The deadline of something that starts at `now` and has `after` ticks.
pub fn deadline_after(now: u64, after: u64) -> (deadline: u64)
    ensures
        deadline == deadline_spec(now, after),
        deadline >= now,
{
    if after > u64::MAX - now {
        u64::MAX
    } else {
        now + after
    }
}

} // verus!
