//! A calendar date as plain values. The current date is read from the clock
//! outside the library and handed in as an explicit parameter, so everything
//! derived from it stays deterministic.

use vstd::prelude::*;

verus! {

/// A calendar date: the year, month and day that a cache key is derived from.
#[derive(Clone, Copy, PartialEq, Eq, Structural, Debug)]
pub struct CalendarDate {
    pub year: u16,
    pub month: u8,
    pub day: u8,
}

impl CalendarDate {
    /// A date this library accepts: a four-digit year and month/day fields in
    /// calendar range.
    pub open spec fn wf(self) -> bool {
        &&& self.year <= 9999
        &&& 1 <= self.month <= 12
        &&& 1 <= self.day <= 31
    }

    /// Builds a date after checking the field ranges.
    pub fn new(year: u16, month: u8, day: u8) -> (r: Option<CalendarDate>)
        ensures
            match r {
                Some(d) => d.wf() && d.year == year && d.month == month && d.day == day,
                None => !(CalendarDate { year, month, day }).wf(),
            },
    {
        if year <= 9999 && 1 <= month && month <= 12 && 1 <= day && day <= 31 {
            Some(CalendarDate { year, month, day })
        } else {
            None
        }
    }
}

} // verus!
