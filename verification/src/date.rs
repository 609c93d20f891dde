//! Calendar dates.
use crate::text::{decimal, digits};
use vstd::prelude::*;

verus! {

/// A year, a month and a day as numbers.
pub type Ymd = (int, int, int);

/// Whether a year of the proleptic Gregorian calendar has a 29th of February.
pub open spec fn is_leap(year: int) -> bool {
    year % 4 == 0 && (year % 100 != 0 || year % 400 == 0)
}

/// How many days a month has.
pub open spec fn days_in_month(year: int, month: int) -> int {
    if month == 2 {
        if is_leap(year) {
            29
        } else {
            28
        }
    } else if month == 4 || month == 6 || month == 9 || month == 11 {
        30
    } else {
        31
    }
}

/// Whether a date exists, and lies in the years that the calendar covers.
pub open spec fn is_date(date: Ymd) -> bool {
    &&& -262_143 <= date.0 <= 262_142
    &&& 1 <= date.1 <= 12
    &&& 1 <= date.2 <= days_in_month(date.0, date.1)
}

/// Whether a date lies before another.
pub open spec fn date_less(a: Ymd, b: Ymd) -> bool {
    a.0 < b.0 || (a.0 == b.0 && (a.1 < b.1 || (a.1 == b.1 && a.2 < b.2)))
}

/// A year in four digits; those before the year 0 and after 9999 with a sign, and
/// with as many digits as they need.
pub open spec fn year_text(year: int) -> Seq<char> {
    if 0 <= year <= 9999 {
        digits(4, year as nat)
    } else {
        let size = if year < 0 {
            -year
        } else {
            year
        };
        let sign = if year < 0 {
            '-'
        } else {
            '+'
        };
        seq![sign] + if size <= 9999 {
            digits(4, size as nat)
        } else {
            decimal(size as nat)
        }
    }
}

/// A date as `YYYY-MM-DD`.
pub open spec fn date_text(date: Ymd) -> Seq<char> {
    year_text(date.0) + seq!['-'] + digits(2, date.1 as nat) + seq!['-'] + digits(
        2,
        date.2 as nat,
    )
}

/// How many days a month has.
fn month_length(year: i32, month: u32) -> (days: u32)
    requires
        -262_143 <= year <= 262_142,
    ensures
        days == days_in_month(year as int, month as int),
{
    // Leap years recur every 400 years, and this year is not negative.
    let shifted: i32 = year + 400_000;
    if month == 2 {
        if shifted % 4 == 0 && (shifted % 100 != 0 || shifted % 400 == 0) {
            29
        } else {
            28
        }
    } else if month == 4 || month == 6 || month == 9 || month == 11 {
        30
    } else {
        31
    }
}

/// A day of the calendar.
#[derive(Clone, Copy, Debug, PartialEq, Eq)]
pub struct Date {
    year: i32,
    month: u32,
    day: u32,
}

impl View for Date {
    type V = Ymd;

    closed spec fn view(&self) -> Ymd {
        (self.year as int, self.month as int, self.day as int)
    }
}

impl Date {
    #[verifier::type_invariant]
    spec fn on_calendar(self) -> bool {
        is_date((self.year as int, self.month as int, self.day as int))
    }

    /// The day of the calendar with this year, month and day, if there is one.
    pub fn new(year: i32, month: u32, day: u32) -> (date: Option<Date>)
        ensures
            date is Some <==> is_date((year as int, month as int, day as int)),
            date matches Some(d) ==> d@ == (year as int, month as int, day as int),
    {
        if -262_143 <= year && year <= 262_142 && 1 <= month && month <= 12 && 1 <= day && day
            <= month_length(year, month) {
            Some(Date { year, month, day })
        } else {
            None
        }
    }

    /// The year.
    pub fn year(&self) -> (year: i32)
        ensures
            year == self@.0,
    {
        self.year
    }

    /// The month, from 1.
    pub fn month(&self) -> (month: u32)
        ensures
            month == self@.1,
    {
        self.month
    }

    /// The day of the month, from 1.
    pub fn day(&self) -> (day: u32)
        ensures
            day == self@.2,
    {
        self.day
    }

    /// Whether this day lies before another.
    pub fn before(&self, other: &Date) -> (b: bool)
        ensures
            b == date_less(self@, other@),
    {
        self.year < other.year || (self.year == other.year && (self.month < other.month || (
        self.month == other.month && self.day < other.day)))
    }

    /// The day as `YYYY-MM-DD`.
    pub fn text(&self) -> (s: String)
        ensures
            s@ == date_text(self@),
            is_date(self@),
    {
        proof {
            use_type_invariant(self);
        }
        naive_date_text(self.year, self.month, self.day)
    }
}

/// Calls `to_string` of `chrono::NaiveDate`, whose `Display` writes the year in four
/// digits (with a sign and at least four digits outside the years 0 to 9999), a
/// hyphen, the month in two digits, a hyphen and the day in two digits.
#[verifier::external_body]
fn naive_date_text(year: i32, month: u32, day: u32) -> (s: String)
    requires
        is_date((year as int, month as int, day as int)),
    ensures
        s@ == date_text((year as int, month as int, day as int)),
{
    chrono::NaiveDate::from_ymd_opt(year, month, day).unwrap().to_string()
}

} // verus!
