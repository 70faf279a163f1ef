//! A monotonic clock that is read as a number of nanoseconds.
use core::time::Duration;
use std::time::Instant;
use vstd::prelude::*;

verus! {

/// A point on the monotonic clock. Only its distance from now is ever taken.
#[verifier::external_type_specification]
#[verifier::external_body]
pub struct ExInstant(Instant);

/// The number of nanoseconds in a duration, as [`Duration::as_nanos`] returns it.
pub uninterp spec fn duration_nanos(duration: Duration) -> nat;

/// [`Duration::as_nanos`] returns the number of nanoseconds in the duration.
pub assume_specification[ Duration::as_nanos ](duration: &Duration) -> (nanos: u128)
    ensures
        nanos == duration_nanos(*duration),
;

/// [`Duration::from_secs`] makes a duration of that many whole seconds.
pub assume_specification[ Duration::from_secs ](secs: u64) -> (duration: Duration)
    ensures
        duration_nanos(duration) == secs * 1_000_000_000,
;

/// [`Instant::now`] reads the clock. Nothing can be said of what it reads.
pub assume_specification[ Instant::now ]() -> Instant
;

/// [`Instant::elapsed`] is the time that has passed since. Nothing can be said of how much.
pub assume_specification[ Instant::elapsed ](instant: &Instant) -> Duration
;

/// Whether [`Instant::elapsed`] may return `elapsed` for an instant. What it does return is the
/// time that has passed since.
pub open spec fn may_have_elapsed(origin: Instant, elapsed: Duration) -> bool {
    call_ensures(Instant::elapsed, (&origin,), elapsed)
}

/// Whether `reading` is a reading, in nanoseconds, of a clock that was started at `origin` and last
/// read `before`: the time that has passed since the start, never less than the reading before it.
pub open spec fn clock_reads(origin: Instant, before: nat, reading: nat) -> bool {
    exists|elapsed: Duration|
        {
            &&& #[trigger] may_have_elapsed(origin, elapsed)
            &&& reading == if duration_nanos(elapsed) < before {
                before
            } else {
                duration_nanos(elapsed)
            }
        }
}

/// A reading is the number of nanoseconds that [`Instant::elapsed`] gives, or the reading before
/// where that is not less; so readings never go down, and never fall behind the time that has
/// passed.
pub proof fn law_clock_reading(origin: Instant, before: nat, reading: nat)
    requires
        clock_reads(origin, before, reading),
    ensures
        before <= reading,
        exists|elapsed: Duration|
            {
                &&& #[trigger] call_ensures(Instant::elapsed, (&origin,), elapsed)
                &&& duration_nanos(elapsed) <= reading
                &&& reading == before || reading == duration_nanos(elapsed)
            },
{
    let elapsed = choose|elapsed: Duration|
        {
            &&& #[trigger] may_have_elapsed(origin, elapsed)
            &&& reading == if duration_nanos(elapsed) < before {
                before
            } else {
                duration_nanos(elapsed)
            }
        };
    assert(call_ensures(Instant::elapsed, (&origin,), elapsed));
}

/// Calls a function of an instant.
fn measure<F: Fn(&Instant) -> Duration>(measured: F, origin: &Instant) -> (elapsed: Duration)
    requires
        call_requires(measured, (origin,)),
    ensures
        call_ensures(measured, (origin,), elapsed),
{
    measured(origin)
}

/// A clock that counts from the moment of its creation and never runs backwards.
#[derive(Debug)]
pub(crate) struct Clock {
    origin: Instant,
    /// The last reading.
    last: u128,
}

impl Clock {
    /// When the clock was started.
    pub(crate) closed spec fn origin(self) -> Instant {
        self.origin
    }

    /// The last reading, zero before the first.
    pub(crate) closed spec fn last(self) -> nat {
        self.last as nat
    }

    /// Starts a clock.
    pub(crate) fn start() -> (clock: Self)
        ensures
            clock.last() == 0,
    {
        Clock { origin: Instant::now(), last: 0 }
    }

    /// Reads the nanoseconds since the start.
    pub(crate) fn nanos(&mut self) -> (reading: u128)
        ensures
            clock_reads(old(self).origin(), old(self).last(), reading as nat),
            final(self).last() == reading,
            final(self).origin() == old(self).origin(),
    {
        let elapsed = measure(Instant::elapsed, &self.origin);
        let nanos: u128 = elapsed.as_nanos();
        if nanos > self.last {
            self.last = nanos;
        }
        assert(may_have_elapsed(old(self).origin(), elapsed));
        self.last
    }
}

} // verus!
