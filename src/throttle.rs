use vstd::prelude::*;
use std::time::{Duration, Instant};

verus! {

/// `std::time::Instant`, a reading of the monotonic clock, carried as an opaque value.
#[verifier::external_type_specification]
#[verifier::external_body]
pub struct ExInstant(Instant);

/// Relies on `Instant::now`: reads the monotonic clock. Nothing is known of the value.
#[verifier::external_body]
fn clock_now() -> (r: Instant) {
    Instant::now()
}

/// Relies on `Instant::elapsed`: the time since `origin` on the monotonic clock.
/// The clock is the machine's, so nothing is stated of it.
#[verifier::external_body]
fn elapsed_since(origin: &Instant) -> (r: Duration) {
    origin.elapsed()
}

/// Relies on `Duration::as_nanos`: the whole length in nanoseconds (nothing is known of
/// an opaque `Duration`).
#[verifier::external_body]
fn duration_nanos(d: Duration) -> (r: u128) {
    d.as_nanos()
}

/// Clamps a nanosecond count into `u64` (about 584 years).
fn clamp_nanos(n: u128) -> (r: u64)
    ensures
        r == if n > u64::MAX as u128 { u64::MAX as int } else { n as int },
{
    if n > u64::MAX as u128 {
        u64::MAX
    } else {
        n as u64
    }
}

/// A clock-free rate limiter: it opens at most once per `interval` time units.
/// Time is handed in by the caller, so its behaviour is a function of its inputs.
pub struct Pacer {
    pub interval: u64,
    pub last: Option<u64>,
}

impl Pacer {
    /// Time elapsed since the last opening as a saturating clock difference:
    /// a reading earlier than the last opening counts as no time at all.
    pub open spec fn since_last(self, now: u64) -> int {
        match self.last {
            None => 0,
            Some(t) => if now >= t { now - t } else { 0 },
        }
    }

    /// Whether the limiter opens at time `now`.
    pub open spec fn ready(self, now: u64) -> bool {
        match self.last {
            None => true,
            Some(_) => self.since_last(now) >= self.interval,
        }
    }

    /// The limiter after being asked at time `now`: its reference point moves only when it opens.
    pub open spec fn after(self, now: u64) -> Pacer {
        if self.ready(now) {
            Pacer { interval: self.interval, last: Some(now) }
        } else {
            self
        }
    }

    pub fn new(interval: u64) -> (r: Pacer)
        ensures
            r.interval == interval,
            r.last is None,
    {
        Pacer { interval, last: None }
    }

    /// Asks the limiter at time `now`; returns whether it opened.
    pub fn pass_at(&mut self, now: u64) -> (r: bool)
        ensures
            r == old(self).ready(now),
            *final(self) == old(self).after(now),
    {
        let open = match self.last {
            None => true,
            Some(t) => {
                let since: u64 = if now >= t { now - t } else { 0 };
                since >= self.interval
            },
        };
        if open {
            self.last = Some(now);
        }
        open
    }
}

/// Once open at `t0`, the limiter stays shut before `t0 + interval` and opens again from then on.
pub proof fn lemma_pacer_rate(p: Pacer, t0: u64, t1: u64, t2: u64)
    requires
        p.ready(t0),
        t0 <= t1,
        t1 - t0 < p.interval,
        t2 >= t0 + p.interval,
    ensures
        p.after(t0).last == Some(t0),
        !p.after(t0).ready(t1),
        p.after(t0).after(t1) == p.after(t0),
        p.after(t0).after(t1).ready(t2),
{
}

/// A rate limiter on the machine's monotonic clock (nanosecond resolution).
pub struct Throttle {
    origin: Instant,
    seen: u64,
    pacer: Pacer,
}

impl Throttle {
    /// The clock-free limiter inside this throttle.
    pub closed spec fn limiter(self) -> Pacer {
        self.pacer
    }

    /// The latest clock reading so far, in nanoseconds since the throttle was made.
    pub closed spec fn latest(self) -> u64 {
        self.seen
    }

    /// A throttle that lets the first call through, then at most one call per
    /// `interval_nanos` nanoseconds.
    pub fn new(interval_nanos: u64) -> (r: Throttle)
        ensures
            r.limiter() == (Pacer { interval: interval_nanos, last: None }),
            r.latest() == 0,
    {
        Throttle { origin: clock_now(), seen: 0, pacer: Pacer::new(interval_nanos) }
    }

    /// Whether a notification may go out now. Returns true at most once per interval and
    /// moves the reference point only when it does; a burst after a long idle gets one `true`.
    /// The reading used never goes behind an earlier one.
    pub fn is_free(&mut self) -> (r: bool)
        ensures
            exists|now: u64|
                {
                    &&& now >= old(self).latest()
                    &&& final(self).latest() == now
                    &&& r == old(self).limiter().ready(now)
                    &&& final(self).limiter() == old(self).limiter().after(now)
                },
    {
        let reading: u64 = clamp_nanos(duration_nanos(elapsed_since(&self.origin)));
        let now: u64 = if reading > self.seen { reading } else { self.seen };
        self.seen = now;
        self.pacer.pass_at(now)
    }
}

} // verus!
