//! Calendar dates written as `YYYY-MM-DD`.

use vstd::prelude::*;

use crate::patterns::is_date;
use crate::text::chars_of;

verus! {

/// The value of a decimal digit.
pub open spec fn digit_value(c: char) -> int {
    (c as u32) - 48
}

/// The number that the digits of `s` from `lo` up to `hi` write.
pub open spec fn number_at(s: Seq<char>, lo: int, hi: int) -> int
    decreases hi - lo,
{
    if hi <= lo {
        0
    } else {
        number_at(s, lo, hi - 1) * 10 + digit_value(s[hi - 1])
    }
}

/// The Julian day of a Gregorian date at its midnight, rounded down. The day may run past the end
/// of its month.
pub open spec fn julian_day(year: int, month: int, day: int) -> int {
    let y = if month <= 2 {
        year - 1
    } else {
        year
    };
    let m = if month <= 2 {
        month + 12
    } else {
        month
    };
    let a = (y + 4800) / 100;
    let b = 38 - a + a / 4;
    (36525 * (y + 4716)) / 100 + (306001 * (m + 1)) / 10000 + day + b - 1525
}

/// The Julian day of a written date, where its month is from 1 to 12 and its day from 1 to 31.
pub open spec fn day_number(date: Seq<char>) -> Option<int> {
    let month = number_at(date, 5, 7);
    let day = number_at(date, 8, 10);
    if 1 <= month <= 12 && 1 <= day <= 31 {
        Some(julian_day(number_at(date, 0, 4), month, day))
    } else {
        None
    }
}

fn digit(c: char) -> (r: i64)
    requires
        '0' <= c <= '9',
    ensures
        r == digit_value(c),
        0 <= r <= 9,
{
    (c as u32) as i64 - 48
}

proof fn lemma_two(s: Seq<char>, lo: int)
    ensures
        number_at(s, lo, lo + 2) == digit_value(s[lo]) * 10 + digit_value(s[lo + 1]),
{
    reveal_with_fuel(number_at, 3);
}

proof fn lemma_four(s: Seq<char>, lo: int)
    ensures
        number_at(s, lo, lo + 4) == digit_value(s[lo]) * 1000 + digit_value(s[lo + 1]) * 100
            + digit_value(s[lo + 2]) * 10 + digit_value(s[lo + 3]),
{
    reveal_with_fuel(number_at, 5);
}

/// The Julian day of a written date.
pub fn day_of(date: &str) -> (r: Option<i64>)
    requires
        is_date(date@),
    ensures
        match r {
            Some(n) => day_number(date@) == Some(n as int) && 0 <= n <= 6_000_000,
            None => day_number(date@) is None,
        },
{
    let s = chars_of(date);
    proof {
        lemma_four(date@, 0);
        lemma_two(date@, 5);
        lemma_two(date@, 8);
    }
    let year = digit(s[0]) * 1000 + digit(s[1]) * 100 + digit(s[2]) * 10 + digit(s[3]);
    let month = digit(s[5]) * 10 + digit(s[6]);
    let day = digit(s[8]) * 10 + digit(s[9]);
    if !(1 <= month && month <= 12 && 1 <= day && day <= 31) {
        return None;
    }
    let y = if month <= 2 {
        year - 1
    } else {
        year
    };
    let m = if month <= 2 {
        month + 12
    } else {
        month
    };
    let a = (y + 4800) / 100;
    let b = 38 - a + a / 4;
    let n = (36525 * (y + 4716)) / 100 + (306001 * (m + 1)) / 10000 + day + b - 1525;
    Some(n)
}

/// What `NaiveDate::parse_from_str` makes of a text by the format `%Y-%m-%d`, as the number of days
/// from the first day of the year 1, that day counted as 1.
pub uninterp spec fn parsed_day(text: Seq<char>) -> Option<i32>;

/// `chrono::NaiveDate::parse_from_str` by the format `%Y-%m-%d`, and `Datelike::num_days_from_ce`
/// of the date that was read. Which texts are read, and as which date, is the crate's affair; the
/// result depends on the text alone.
#[verifier::external_body]
pub(crate) fn parse_day(text: &str) -> (r: Option<i32>)
    ensures
        r == parsed_day(text@),
{
    chrono::NaiveDate::parse_from_str(text, "%Y-%m-%d").ok().map(
        |d| chrono::Datelike::num_days_from_ce(&d),
    )
}

} // verus!
