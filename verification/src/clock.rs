//! Reading the clock.
use std::time::{Duration, Instant};

use vstd::prelude::*;

use crate::tally::{call_none, call_one};

verus! {

/// A point in time, of which nothing is known but what is read from it.
#[verifier::external_type_specification]
#[verifier::external_body]
pub struct ExInstant(Instant);

/// `Instant::now` reads the clock. What it gives depends on the time alone, so nothing is said of
/// it.
pub assume_specification[ Instant::now ]() -> Instant;

/// `Instant::elapsed` reads the clock again and takes the difference. What it gives depends on the
/// time, so nothing is said of it.
pub assume_specification[ Instant::elapsed ](start: &Instant) -> Duration;

/// `Duration::as_micros` counts the whole microseconds of a duration. A duration is opaque here, so
/// nothing is said of the count.
pub assume_specification[ Duration::as_micros ](d: &Duration) -> u128;

/// `micros` may be the microseconds between `start` and a later read of the clock.
pub open spec fn since(start: Instant, micros: u128) -> bool {
    exists|d: Duration| #[trigger]
        call_ensures(Instant::elapsed, (&start,), d) && call_ensures(
            Duration::as_micros,
            (&d,),
            micros,
        )
}

/// `micros` may be the microseconds between two reads of the clock.
pub open spec fn clocked(micros: u128) -> bool {
    exists|start: Instant| call_ensures(Instant::now, (), start) && #[trigger] since(start, micros)
}

/// The time now.
pub(crate) fn read_clock() -> (start: Instant)
    ensures
        call_ensures(Instant::now, (), start),
{
    call_none(Instant::now)
}

/// The microseconds since `start`.
pub(crate) fn micros_since(start: &Instant) -> (micros: u128)
    ensures
        since(*start, micros),
{
    let d = call_one(Instant::elapsed, start);
    call_one(Duration::as_micros, &d)
}

} // verus!
