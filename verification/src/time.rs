//! Points in time, as whole seconds since the Unix epoch and nanoseconds
//! within the second, over the range of dates that `chrono` represents.

use vstd::prelude::*;

verus! {

/// A UTC point in time.
#[derive(Clone, Copy, Debug, PartialEq, Eq, Structural)]
pub struct Timestamp {
    pub secs: i64,
    pub nanos: u32,
}

/// The earliest representable second (the start of year -262143).
pub open spec fn min_timestamp_secs() -> int {
    -8334601315200
}

/// The latest representable second (the last second of year 262142).
pub open spec fn max_timestamp_secs() -> int {
    8210266876799
}

/// The largest number of whole seconds that a `chrono` duration holds.
pub open spec fn max_delta_secs() -> int {
    9223372036854775
}

impl Timestamp {
    /// A representable point in time with a sub-second part below one second.
    pub open spec fn wf(self) -> bool {
        min_timestamp_secs() <= self.secs <= max_timestamp_secs() && self.nanos < 1_000_000_000
    }

    /// Whether `self` comes strictly after `other`.
    pub open spec fn after(self, other: Timestamp) -> bool {
        self.secs > other.secs || (self.secs == other.secs && self.nanos > other.nanos)
    }

    /// The point in time `secs` seconds after the epoch, `nanos` into that second.
    pub fn new(secs: i64, nanos: u32) -> (r: Timestamp)
        ensures
            r.secs == secs,
            r.nanos == nanos,
    {
        Timestamp { secs, nanos }
    }

    /// Whether `self` comes strictly after `other`.
    pub fn is_after(&self, other: &Timestamp) -> (r: bool)
        ensures
            r == self.after(*other),
    {
        self.secs > other.secs || (self.secs == other.secs && self.nanos > other.nanos)
    }

    /// `self` moved `secs` whole seconds forward, or `None` where that leaves
    /// the representable range (`chrono`'s `checked_add_signed`).
    pub fn checked_add_seconds(&self, secs: i64) -> (r: Option<Timestamp>)
        requires
            self.wf(),
            0 <= secs <= max_delta_secs(),
        ensures
            r == if self.secs + secs <= max_timestamp_secs() {
                Some(Timestamp { secs: (self.secs + secs) as i64, nanos: self.nanos })
            } else {
                None
            },
    {
        chrono_add_seconds(self.secs, self.nanos, secs)
    }
}

/// `chrono::DateTime::<Utc>::checked_add_signed` with a whole number of
/// seconds, on the point in time `secs`/`nanos`. `chrono` keeps the
/// sub-second part and moves the seconds, and answers `None` exactly when
/// the date leaves its range (years -262143 to 262142).
#[verifier::external_body]
fn chrono_add_seconds(secs: i64, nanos: u32, delta: i64) -> (r: Option<Timestamp>)
    requires
        (Timestamp { secs, nanos }).wf(),
        0 <= delta <= max_delta_secs(),
    ensures
        r == if secs + delta <= max_timestamp_secs() {
            Some(Timestamp { secs: (secs + delta) as i64, nanos })
        } else {
            None
        },
{
    let start = chrono::DateTime::from_timestamp(secs, nanos)?;
    start.checked_add_signed(chrono::TimeDelta::seconds(delta)).map(
        |t| Timestamp { secs: t.timestamp(), nanos: t.timestamp_subsec_nanos() },
    )
}

/// `chrono::Utc::now`: the current time, a representable point in time.
#[verifier::external_body]
pub(crate) fn current_time() -> (r: Timestamp)
    ensures
        r.wf(),
{
    let now = chrono::Utc::now();
    Timestamp { secs: now.timestamp(), nanos: now.timestamp_subsec_nanos() }
}

} // verus!
