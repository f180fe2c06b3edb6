//! Gregorian calendar facts used to place dated returns into period buckets.

use crate::text::str_eq;
use vstd::prelude::*;

verus! {

/// Leap years: divisible by 4 and not by 100, or divisible by 400.
pub open spec fn is_leap(year: int) -> bool {
    (year % 4 == 0 && year % 100 != 0) || year % 400 == 0
}

/// The number of days of `month` (1 to 12) in `year`.
pub open spec fn month_days(month: int, year: int) -> int {
    if month == 2 {
        if is_leap(year) {
            29
        } else {
            28
        }
    } else if month == 4 || month == 6 || month == 9 || month == 11 {
        30
    } else {
        31
    }
}

/// The days of all months of `year` before `month`.
pub open spec fn days_before(month: int, year: int) -> int
    decreases month,
{
    if month <= 1 {
        0
    } else {
        days_before(month - 1, year) + month_days(month - 1, year)
    }
}

/// The day of the year of `day`/`month`/`year`, counting from 1.
pub open spec fn day_of_year_spec(day: int, month: int, year: int) -> int {
    days_before(month, year) + day
}

/// Whether `year` is a leap year.
pub fn is_leap_year(year: u32) -> (r: bool)
    ensures
        r == is_leap(year as int),
{
    (year % 4 == 0 && year % 100 != 0) || year % 400 == 0
}

/// The number of days of `month` in `year`.
pub fn days_in_month(month: u32, year: u32) -> (r: u32)
    requires
        1 <= month <= 12,
    ensures
        r == month_days(month as int, year as int),
{
    if month == 2 {
        if is_leap_year(year) {
            29
        } else {
            28
        }
    } else if month == 4 || month == 6 || month == 9 || month == 11 {
        30
    } else {
        31
    }
}

/// The day of the year, counting from 1: the days of the months before
/// `month` (leap-year aware) plus `day`.
pub fn day_of_year(day: u32, month: u32, year: u32) -> (r: u64)
    requires
        1 <= month <= 12,
    ensures
        r == day_of_year_spec(day as int, month as int, year as int),
        r >= day,
{
    let mut count: u64 = day as u64;
    let mut m: u32 = 1;
    while m < month
        invariant
            1 <= m <= month <= 12,
            count == days_before(m as int, year as int) + day,
            count <= day + 31 * m,
            count >= day,
        decreases month - m,
    {
        count = count + days_in_month(m, year) as u64;
        m = m + 1;
    }
    count
}

/// The month number named by `name`: "1" to "12" or an English month name;
/// anything else means January.
pub open spec fn month_number_spec(name: Seq<char>) -> u32 {
    if name == "1"@ || name == "January"@ {
        1
    } else if name == "2"@ || name == "February"@ {
        2
    } else if name == "3"@ || name == "March"@ {
        3
    } else if name == "4"@ || name == "April"@ {
        4
    } else if name == "5"@ || name == "May"@ {
        5
    } else if name == "6"@ || name == "June"@ {
        6
    } else if name == "7"@ || name == "July"@ {
        7
    } else if name == "8"@ || name == "August"@ {
        8
    } else if name == "9"@ || name == "September"@ {
        9
    } else if name == "10"@ || name == "October"@ {
        10
    } else if name == "11"@ || name == "November"@ {
        11
    } else if name == "12"@ || name == "December"@ {
        12
    } else {
        1
    }
}

/// The month number named by `name`; January when unrecognised.
pub fn month_number(name: &str) -> (r: u32)
    ensures
        r == month_number_spec(name@),
        1 <= r <= 12,
{
    if str_eq(name, "1") || str_eq(name, "January") {
        1
    } else if str_eq(name, "2") || str_eq(name, "February") {
        2
    } else if str_eq(name, "3") || str_eq(name, "March") {
        3
    } else if str_eq(name, "4") || str_eq(name, "April") {
        4
    } else if str_eq(name, "5") || str_eq(name, "May") {
        5
    } else if str_eq(name, "6") || str_eq(name, "June") {
        6
    } else if str_eq(name, "7") || str_eq(name, "July") {
        7
    } else if str_eq(name, "8") || str_eq(name, "August") {
        8
    } else if str_eq(name, "9") || str_eq(name, "September") {
        9
    } else if str_eq(name, "10") || str_eq(name, "October") {
        10
    } else if str_eq(name, "11") || str_eq(name, "November") {
        11
    } else if str_eq(name, "12") || str_eq(name, "December") {
        12
    } else {
        1
    }
}

} // verus!
