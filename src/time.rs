//! Time source of the queue: the system clock, or a clock that a caller moves.
use vstd::prelude::*;

verus! {

/// Where the queue reads the current time, in milliseconds since the Unix epoch.
#[derive(Clone, Copy, Debug, PartialEq, Eq, Structural)]
pub enum TimeSource {
    /// The wall clock of the machine.
    System,
    /// A simulated clock that stands at the given time until moved.
    Mock(u64),
}

/// Relies on `std::time::SystemTime::now`: the wall clock, as milliseconds
/// since the epoch (zero for a clock set before it). Nothing is known of the value.
#[verifier::external_body]
fn system_unix_time_ms() -> (r: u64) {
    std::time::SystemTime::now().duration_since(std::time::UNIX_EPOCH).map_or(0, |d| d.as_millis() as u64)
}

impl TimeSource {
    /// The machine's wall clock.
    pub fn new_system() -> (r: Self)
        ensures
            r == TimeSource::System,
    {
        TimeSource::System
    }

    /// A simulated clock standing at `start_ms`.
    pub fn new_mock(start_ms: u64) -> (r: Self)
        ensures
            r == TimeSource::Mock(start_ms),
    {
        TimeSource::Mock(start_ms)
    }

    /// Whether `now` is a reading this source may give: any value for the
    /// system clock, the set time for a simulated one.
    pub open spec fn may_read(self, now: u64) -> bool {
        match self {
            TimeSource::System => true,
            TimeSource::Mock(t) => now == t,
        }
    }

    /// The current time, in milliseconds since the Unix epoch.
    pub fn get_unix_time_ms(&self) -> (r: u64)
        ensures
            self.may_read(r),
    {
        match self {
            TimeSource::System => system_unix_time_ms(),
            TimeSource::Mock(t) => *t,
        }
    }

    /// Moves a simulated clock forward by `ms`, saturating at the largest
    /// time; the system clock is left alone.
    pub fn advance(&mut self, ms: u64)
        ensures
            *final(self) == (match *old(self) {
                TimeSource::System => TimeSource::System,
                TimeSource::Mock(t) => TimeSource::Mock(
                    if t + ms > u64::MAX { u64::MAX } else { (t + ms) as u64 },
                ),
            }),
    {
        if let TimeSource::Mock(t) = *self {
            *self = TimeSource::Mock(t.saturating_add(ms));
        }
    }

    /// Moves a simulated clock back by `ms`, stopping at the epoch; the
    /// system clock is left alone.
    pub fn rewind(&mut self, ms: u64)
        ensures
            *final(self) == (match *old(self) {
                TimeSource::System => TimeSource::System,
                TimeSource::Mock(t) => TimeSource::Mock(if t > ms { (t - ms) as u64 } else { 0 }),
            }),
    {
        if let TimeSource::Mock(t) = *self {
            *self = TimeSource::Mock(t.saturating_sub(ms));
        }
    }
}

} // verus!
