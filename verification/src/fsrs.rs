//! Integer side of the spaced-repetition scheduler: review grades and the
//! conversions between epoch seconds and whole days.  The real-valued memory
//! formulas operate on floating-point state and live outside the verified
//! library.

use vstd::prelude::*;

verus! {

/// Number of seconds in one day.
pub const SECONDS_PER_DAY: u64 = 86400;

/// Seconds past midnight at which a study day is taken to begin (five
/// o'clock).
pub const DAY_START_OFFSET: u64 = 18000;

/// A review grade: how well the learner recalled a card.
#[derive(Clone, Copy, PartialEq, Eq, Structural, Debug)]
pub enum Grade {
    Again,
    Hard,
    Good,
    Easy,
}

impl Grade {
    /// Numeric value of the grade, `Again` = 1 through `Easy` = 4.
    pub open spec fn spec_value(self) -> u64 {
        match self {
            Grade::Again => 1,
            Grade::Hard => 2,
            Grade::Good => 3,
            Grade::Easy => 4,
        }
    }

    /// Numeric value of the grade, `Again` = 1 through `Easy` = 4.
    #[verifier::when_used_as_spec(spec_value)]
    pub fn value(self) -> (v: u64)
        ensures
            v == self.spec_value(),
    {
        match self {
            Grade::Again => 1,
            Grade::Hard => 2,
            Grade::Good => 3,
            Grade::Easy => 4,
        }
    }
}

/// Seconds since the UNIX epoch at five o'clock of the day that `secs` falls
/// in.
pub fn start_of_day(secs: u64) -> (r: u64)
    requires
        secs <= u64::MAX - DAY_START_OFFSET,
    ensures
        r == secs - (secs % SECONDS_PER_DAY) + DAY_START_OFFSET,
{
    let day = secs - secs % SECONDS_PER_DAY;
    day + DAY_START_OFFSET
}

/// Number of whole days contained in `secs` seconds.
pub fn seconds_to_days(secs: u64) -> (r: usize)
    requires
        secs / SECONDS_PER_DAY <= usize::MAX,
    ensures
        r == secs / SECONDS_PER_DAY,
{
    let whole = secs - secs % SECONDS_PER_DAY;
    (whole / SECONDS_PER_DAY) as usize
}

/// Seconds in `days` whole days.
pub fn days_to_seconds(days: usize) -> (r: u64)
    requires
        days * SECONDS_PER_DAY <= u64::MAX,
    ensures
        r == days * SECONDS_PER_DAY,
{
    (days as u64) * SECONDS_PER_DAY
}

} // verus!
