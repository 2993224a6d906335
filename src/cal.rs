//! Months: reading a month by number or name, and the last day of a month.

use crate::text::{decimal, digits_value, parse_unsigned, push_decimal, reads_as_unsigned, unsigned_digits};
use chrono::Datelike;
use vstd::prelude::*;

verus! {

/// Why a month could not be read.
#[derive(Debug, Clone, PartialEq, Eq)]
pub enum MonthError {
    /// A number outside `1..=12`.
    OutOfRange(u32),
    /// Neither a number nor the start of a month's name; carries the text.
    Invalid(String),
}

impl MonthError {
    /// The report for this error.
    pub fn message(&self) -> (r: String)
        ensures
            self matches MonthError::OutOfRange(m) ==> r@ == "month \""@ + decimal(m as nat)
                + "\" not in the range 1 through 12"@,
            self matches MonthError::Invalid(t) ==> r@ == "Invalid month \""@ + t@ + "\""@,
    {
        match self {
            MonthError::OutOfRange(m) => {
                let mut s = String::from_str("month \"");
                push_decimal(&mut s, *m as u64);
                s.append("\" not in the range 1 through 12");
                s
            },
            MonthError::Invalid(t) => {
                String::from_str("Invalid month \"").concat(t.as_str()).concat("\"")
            },
        }
    }
}

/// The lower-case name of the month at zero-based `i`.
pub open spec fn month_name(i: int) -> Seq<char> {
    if i == 0 { "january"@ }
    else if i == 1 { "february"@ }
    else if i == 2 { "march"@ }
    else if i == 3 { "april"@ }
    else if i == 4 { "may"@ }
    else if i == 5 { "june"@ }
    else if i == 6 { "july"@ }
    else if i == 7 { "august"@ }
    else if i == 8 { "september"@ }
    else if i == 9 { "october"@ }
    else if i == 10 { "november"@ }
    else { "december"@ }
}

/// The first month, from the `i`-th on, whose name starts with `s`.
pub open spec fn month_with_prefix(s: Seq<char>, i: int) -> Option<int>
    decreases 12 - i,
{
    if i < 0 || i >= 12 {
        None
    } else if s.is_prefix_of(month_name(i)) {
        Some(i)
    } else {
        month_with_prefix(s, i + 1)
    }
}

fn name_of_month(i: usize) -> (r: &'static str)
    requires
        i < 12,
    ensures
        r@ == month_name(i as int),
{
    match i {
        0 => "january",
        1 => "february",
        2 => "march",
        3 => "april",
        4 => "may",
        5 => "june",
        6 => "july",
        7 => "august",
        8 => "september",
        9 => "october",
        10 => "november",
        _ => "december",
    }
}

fn starts_with(name: &str, s: &str) -> (r: bool)
    ensures
        r == s@.is_prefix_of(name@),
{
    let n = name.unicode_len();
    let m = s.unicode_len();
    if m > n {
        return false;
    }
    let mut k: usize = 0;
    while k < m
        invariant
            m <= n,
            n == name@.len(),
            m == s@.len(),
            k <= m,
            forall|j: int| 0 <= j < k ==> s@[j] == name@[j],
        decreases m - k,
    {
        if s.get_char(k) != name.get_char(k) {
            return false;
        }
        k = k + 1;
    }
    true
}

/// Reads a month given by number (`1`..`12`) or by the start of its
/// lower-case name (`"jan"`; the first month that matches wins).
pub fn parse_month(month: String) -> (r: Result<u32, MonthError>)
    ensures
        reads_as_unsigned(month@, u32::MAX as int) ==> {
            let v = digits_value(unsigned_digits(month@));
            &&& 1 <= v <= 12 ==> r == Ok::<u32, MonthError>(v as u32)
            &&& !(1 <= v <= 12) ==> r == Err::<u32, MonthError>(MonthError::OutOfRange(v as u32))
        },
        !reads_as_unsigned(month@, u32::MAX as int) ==> match month_with_prefix(month@, 0) {
            Some(i) => r == Ok::<u32, MonthError>((i + 1) as u32),
            None => r matches Err(MonthError::Invalid(t)) && t@ == month@,
        },
{
    match parse_unsigned(month.as_str(), u32::MAX as u64) {
        Some(m) => if 1 <= m && m <= 12 {
            Ok(m as u32)
        } else {
            Err(MonthError::OutOfRange(m as u32))
        },
        None => {
            let mut i: usize = 0;
            while i < 12
                invariant
                    i <= 12,
                    !reads_as_unsigned(month@, u32::MAX as int),
                    month_with_prefix(month@, 0) == month_with_prefix(month@, i as int),
                decreases 12 - i,
            {
                if starts_with(name_of_month(i), month.as_str()) {
                    return Ok((i + 1) as u32);
                }
                i = i + 1;
            }
            Err(MonthError::Invalid(month))
        },
    }
}

/// A calendar date: year, month (`1..=12`) and day of the month.
#[derive(Debug, Clone, Copy, PartialEq, Eq, Structural)]
pub struct CalDate {
    pub year: i32,
    pub month: u32,
    pub day: u32,
}

/// First and last years of the proleptic Gregorian calendar that dates can
/// be computed in.
pub const MIN_YEAR: i32 = -262143;
pub const MAX_YEAR: i32 = 262142;

/// Whether `year` has a 29 February.
pub open spec fn is_leap(year: int) -> bool {
    year % 4 == 0 && (year % 100 != 0 || year % 400 == 0)
}

/// Number of days of a month.
pub open spec fn days_in_month(year: int, month: int) -> int {
    if month == 2 {
        if is_leap(year) { 29 } else { 28 }
    } else if month == 4 || month == 6 || month == 9 || month == 11 {
        30
    } else {
        31
    }
}

/// The calendar day before `(year, month, day)`.
pub open spec fn prev_day(year: int, month: int, day: int) -> (int, int, int) {
    if day > 1 {
        (year, month, day - 1)
    } else if month > 1 {
        (year, month - 1, days_in_month(year, month - 1))
    } else {
        (year - 1, 12, 31)
    }
}

/// Relies on `chrono::NaiveDate::from_ymd_opt` and `NaiveDate::pred_opt`:
/// a valid date in the supported range is accepted, and its predecessor is
/// the previous day of the proleptic Gregorian calendar.
#[verifier::external_body]
fn day_before(year: i32, month: u32, day: u32) -> (r: (i32, u32, u32))
    requires
        MIN_YEAR <= year <= MAX_YEAR,
        1 <= month <= 12,
        1 <= day <= days_in_month(year as int, month as int),
        !(year == MIN_YEAR && month == 1 && day == 1),
    ensures
        (r.0 as int, r.1 as int, r.2 as int) == prev_day(year as int, month as int, day as int),
{
    let d = chrono::NaiveDate::from_ymd_opt(year, month, day).unwrap().pred_opt().unwrap();
    (d.year(), d.month(), d.day())
}

/// The last day of a month.
pub fn last_day_in_month(year: i32, month: u32) -> (r: CalDate)
    requires
        MIN_YEAR <= year <= MAX_YEAR,
        1 <= month <= 12,
        !(year == MAX_YEAR && month == 12),
    ensures
        r == (CalDate { year, month, day: days_in_month(year as int, month as int) as u32 }),
{
    let (next_year, next_month) = if month == 12 { (year + 1, 1) } else { (year, month + 1) };
    let (y, m, d) = day_before(next_year, next_month, 1);
    CalDate { year: y, month: m, day: d }
}

} // verus!
