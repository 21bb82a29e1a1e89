//! Units of time and their length in milliseconds.

use vstd::prelude::*;

verus! {

/// How many milliseconds in one second
pub const SECOND: i64 = 1000;

/// How many milliseconds in one minute
pub const MINUTE: i64 = SECOND * 60;

/// How many milliseconds in one hour
pub const HOUR: i64 = MINUTE * 60;

/// How many milliseconds in one day
pub const DAY: i64 = HOUR * 24;

/// How many milliseconds in one week
pub const WEEK: i64 = DAY * 7;

/// How many milliseconds in one year of 365.25 days
pub const YEAR: i64 = HOUR * 8766;

/// A unit that a duration can be counted in.
#[derive(Clone, Copy, Debug, PartialEq, Eq, Structural)]
pub enum Unit {
    Millisecond,
    Second,
    Minute,
    Hour,
    Day,
    Week,
    Year,
}

impl Unit {
    /// How many milliseconds one of this unit lasts.
    pub open spec fn spec_multiplier(self) -> i64 {
        match self {
            Unit::Millisecond => 1,
            Unit::Second => SECOND,
            Unit::Minute => MINUTE,
            Unit::Hour => HOUR,
            Unit::Day => DAY,
            Unit::Week => WEEK,
            Unit::Year => YEAR,
        }
    }

    /// How many milliseconds one of this unit lasts.
    #[verifier::when_used_as_spec(spec_multiplier)]
    pub fn multiplier(self) -> (m: i64)
        ensures
            m == self.spec_multiplier(),
            1 <= m <= YEAR,
    {
        match self {
            Unit::Millisecond => 1,
            Unit::Second => SECOND,
            Unit::Minute => MINUTE,
            Unit::Hour => HOUR,
            Unit::Day => DAY,
            Unit::Week => WEEK,
            Unit::Year => YEAR,
        }
    }

    /// The position of the unit when all units are listed from shortest to longest.
    pub open spec fn rank(self) -> nat {
        match self {
            Unit::Millisecond => 0,
            Unit::Second => 1,
            Unit::Minute => 2,
            Unit::Hour => 3,
            Unit::Day => 4,
            Unit::Week => 5,
            Unit::Year => 6,
        }
    }
}

/// A longer unit always has the larger multiplier: the multipliers increase
/// strictly from milliseconds up to years.
pub proof fn lemma_multipliers_increase(a: Unit, b: Unit)
    requires
        a.rank() < b.rank(),
    ensures
        a.multiplier() < b.multiplier(),
{
}

} // verus!
