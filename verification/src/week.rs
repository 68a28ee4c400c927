//! Week conventions of a region.

use vstd::prelude::*;

verus! {

/// A day of the week, Monday first.
#[derive(Clone, Copy, Debug, PartialEq, Eq, Structural, Hash)]
pub enum IsoWeekday {
    Monday,
    Tuesday,
    Wednesday,
    Thursday,
    Friday,
    Saturday,
    Sunday,
}

/// On which day weeks start in a region, and how many days of a week must
/// fall into a month or year for the week to count as part of it.
#[derive(Clone, Copy, Debug)]
pub struct WeekDataV1 {
    /// The first day of a week.
    pub first_weekday: IsoWeekday,
    /// For a given week, the minimum number of that week's days present in a given month or year for the week to be considered part of that month or year.
    pub min_week_days: u8,
}

impl WeekDataV1 {
    /// Whether the minimum number of days lies between 1 and 7.
    pub open spec fn in_domain(&self) -> bool {
        1 <= self.min_week_days <= 7
    }

    /// Tests whether the minimum number of days lies between 1 and 7.
    pub fn is_valid(&self) -> (b: bool)
        ensures
            b == self.in_domain(),
    {
        1 <= self.min_week_days && self.min_week_days <= 7
    }
}

} // verus!
