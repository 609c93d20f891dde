//! What days there are, and how they follow one another.
use crate::date::{year_text, Date};
use crate::reading_laws::are_digits;
use crate::selection_laws::is_later;
use crate::text::{decimal, digits, power_of_ten};
use crate::text_laws::{decimal_reads_back, digits_read_back, number};
use vstd::prelude::*;

verus! {

/// Whether a month has thirty days.
pub open spec fn has_thirty_days(month: int) -> bool {
    month == 4 || month == 6 || month == 9 || month == 11
}

/// There is a day for a year, a month and a number if and only if the calendar has it: in
/// the years from -262143 to 262142 the months from 1 to 12, each with its days, where
/// February has a 29th in every fourth year, but in every hundredth only if it is a four
/// hundredth. The day has that year, that month and that number.
pub proof fn calendar_has_its_days(
    year: i32,
    month: u32,
    day: u32,
    date: Option<Date>,
)
    requires
        call_ensures(Date::new, (year, month, day), date),
    ensures
        date is Some ==> {
            &&& -262_143 <= year <= 262_142
            &&& 1 <= month <= 12
            &&& 1 <= day <= 31
            &&& has_thirty_days(month as int) ==> day <= 30
            &&& month == 2 ==> day <= 29
            &&& month == 2 && day == 29 ==> year as int % 4 == 0 && (year as int % 100 == 0
                ==> year as int % 400 == 0)
            &&& date->Some_0@ == (year as int, month as int, day as int)
        },
        -262_143 <= year <= 262_142 && 1 <= month <= 12 && 1 <= day <= 28 ==> date is Some,
        -262_143 <= year <= 262_142 && 1 <= month <= 12 && 29 <= day <= 30 && month != 2
            ==> date is Some,
        -262_143 <= year <= 262_142 && 1 <= month <= 12 && day == 31 && month != 2
            && !has_thirty_days(month as int) ==> date is Some,
        -262_143 <= year <= 262_142 && month == 2 && day == 29 && year as int % 4 == 0 && (
        year as int % 100 != 0 || year as int % 400 == 0) ==> date is Some,
{
}

/// A day tells its year, its month and its number, and lies before another if that is
/// later.
pub proof fn days_tell_what_they_are(
    date: Date,
    other: Date,
    year: i32,
    month: u32,
    day: u32,
    before: bool,
)
    requires
        call_ensures(Date::year, (&date,), year),
        call_ensures(Date::month, (&date,), month),
        call_ensures(Date::day, (&date,), day),
        call_ensures(Date::before, (&date, &other), before),
    ensures
        date@ == (year as int, month as int, day as int),
        before == is_later(other@, date@),
{
}

/// Whether a text is a year: four digits, or a sign and at least four digits for a year
/// before 0 or after 9999.
pub open spec fn is_year(s: Seq<char>, year: int) -> bool {
    if 0 <= year <= 9999 {
        are_digits(s, 4) && number(s) == year
    } else {
        let rest = s.skip(1);
        &&& s.len() >= 5
        &&& s[0] == if year < 0 {
            '-'
        } else {
            '+'
        }
        &&& are_digits(rest, rest.len())
        &&& rest.len() > 4 ==> rest[0] != '0'
        &&& number(rest) == if year < 0 {
            -year
        } else {
            year
        }
    }
}

/// A day reads as its year, its month in two digits and its number in two digits, with
/// hyphens between.
pub proof fn days_read_as_they_are(date: Date, s: String)
    requires
        call_ensures(Date::text, (&date,), s),
    ensures
        exists|y: Seq<char>, m: Seq<char>, d: Seq<char>|
            #![trigger is_year(y, date@.0), are_digits(m, 2), are_digits(d, 2)]
            {
                &&& is_year(y, date@.0)
                &&& are_digits(m, 2) && number(m) == date@.1
                &&& are_digits(d, 2) && number(d) == date@.2
                &&& s@ == y + seq!['-'] + m + seq!['-'] + d
            },
{
    reveal_with_fuel(power_of_ten, 5);
    let (y, m, d) = (
        year_text(date@.0),
        digits(2, date@.1 as nat),
        digits(2, date@.2 as nat),
    );
    digits_read_back(2, date@.1 as nat);
    digits_read_back(2, date@.2 as nat);
    lemma_year(date@.0);
    assert(is_year(y, date@.0) && are_digits(m, 2) && are_digits(d, 2));
}

proof fn lemma_year(year: int)
    requires
        -262_143 <= year <= 262_142,
    ensures
        is_year(year_text(year), year),
{
    reveal_with_fuel(power_of_ten, 5);
    let size = (if year < 0 {
        -year
    } else {
        year
    }) as nat;
    if size <= 9999 {
        digits_read_back(4, size);
    } else {
        decimal_reads_back(size);
        reveal_with_fuel(decimal, 6);
        assert(decimal(size).len() >= 5);
    }
    if !(0 <= year <= 9999) {
        let s = year_text(year);
        assert(s.skip(1) =~= if size <= 9999 {
            digits(4, size)
        } else {
            decimal(size)
        });
    }
}

} // verus!
