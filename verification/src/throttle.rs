//! Rate limiting of progress reports.

use vstd::prelude::*;

verus! {

/// Default shortest time between two progress reports: five seconds, in nanoseconds.
pub const DEFAULT_EMIT_INTERVAL: u64 = 5_000_000_000;

/// Remembers when the last progress report was sent and decides whether the
/// next one is due. Times are nanoseconds on a clock of the caller's choice.
#[derive(Clone, Copy, Debug)]
pub struct Throttle {
    pub last_emit: u64,
    pub interval: u64,
}

impl Throttle {
    /// Time elapsed at `now` since the last report; zero if `now` lies before it.
    pub open spec fn elapsed(self, now: u64) -> nat {
        if now >= self.last_emit {
            (now - self.last_emit) as nat
        } else {
            0
        }
    }

    /// Whether a report is due at `now`.
    pub open spec fn due(self, now: u64) -> bool {
        self.elapsed(now) >= self.interval
    }

    /// The throttle after it was asked at `now`.
    pub open spec fn after(self, now: u64) -> Throttle {
        if self.due(now) {
            Throttle { last_emit: now, interval: self.interval }
        } else {
            self
        }
    }

    /// A throttle whose last report counts as sent at `start`.
    pub fn new(start: u64, interval: u64) -> (t: Throttle)
        ensures
            t.last_emit == start,
            t.interval == interval,
    {
        Throttle { last_emit: start, interval }
    }

    /// Asks whether a report may be sent at `now`, and if so records `now` as
    /// the time of the last report.
    pub fn poll(&mut self, now: u64) -> (emit: bool)
        ensures
            emit == old(self).due(now),
            *final(self) == old(self).after(now),
    {
        let elapsed: u64 = if now >= self.last_emit {
            now - self.last_emit
        } else {
            0
        };
        if elapsed >= self.interval {
            self.last_emit = now;
            true
        } else {
            false
        }
    }
}

/// Once a report went out at `first`, the next one is due exactly when the
/// interval has passed since `first`; asking in between changes nothing.
pub proof fn lemma_next_report(throttle: Throttle, first: u64, second: u64)
    requires
        throttle.due(first),
    ensures
        throttle.after(first).due(second) <==> second >= first && second - first
            >= throttle.interval || throttle.interval == 0,
        !throttle.after(first).due(second) ==> throttle.after(first).after(second)
            == throttle.after(first),
{
}

} // verus!
