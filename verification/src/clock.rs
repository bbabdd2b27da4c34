//! Time, in nanoseconds since some fixed moment.
use vstd::prelude::*;

verus! {

/// The time from `start` to `now`; none where the clock went back.
pub open spec fn elapsed(start: u64, now: u64) -> int {
    if now < start {
        0
    } else {
        now - start
    }
}

/// The time that has passed leads from the start to now, unless the clock went
/// back, and is never negative.
pub proof fn law_elapsed(start: u64, now: u64)
    ensures
        elapsed(start, now) >= 0,
        start <= now ==> start + elapsed(start, now) == now,
        now <= start ==> elapsed(start, now) == 0,
{
}

/// The time from `start` to `now`; none where the clock went back.
pub fn time_between(start: u64, now: u64) -> (t: u64)
    ensures
        t == elapsed(start, now),
{
    if now < start {
        0
    } else {
        now - start
    }
}

} // verus!
