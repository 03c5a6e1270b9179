//! What day numbers promise: days follow one another by one, and written dates sort as they follow.

use vstd::prelude::*;

use crate::dates::{day_number, digit_value, julian_day, number_at};
use crate::order::text_le;
use crate::patterns::is_date;

verus! {

/// Whether a year is a leap year.
pub open spec fn is_leap(year: int) -> bool {
    year % 4 == 0 && (year % 100 != 0 || year % 400 == 0)
}

/// How many days a month has.
pub open spec fn days_in(year: int, month: int) -> int {
    if month == 2 {
        if is_leap(year) {
            29
        } else {
            28
        }
    } else if month == 4 || month == 6 || month == 9 || month == 11 {
        30
    } else {
        31
    }
}

/// Whether there is such a day.
pub open spec fn is_day(year: int, month: int, day: int) -> bool {
    0 <= year <= 9999 && 1 <= month <= 12 && 1 <= day <= days_in(year, month)
}

proof fn lemma_year(y: int)
    requires
        0 <= y <= 10000,
    ensures
        (36525 * (y + 4716)) / 100 == 365 * (y + 4716) + (y + 4716) / 4,
        (36525 * (y - 1 + 4716)) / 100 == 365 * (y - 1 + 4716) + (y - 1 + 4716) / 4,
{
}

proof fn lemma_leap_day(y: int)
    requires
        0 <= y <= 10000,
    ensures
        ({
            let a = (y + 4800) / 100;
            let b = (y - 1 + 4800) / 100;
            (y + 4716) / 4 - (y - 1 + 4716) / 4 - (a - a / 4) + (b - b / 4) == if is_leap(y) {
                1int
            } else {
                0
            }
        }),
{
    let a = (y + 4800) / 100;
    let b = (y - 1 + 4800) / 100;
    assert((y + 4716) / 4 - (y - 1 + 4716) / 4 == if y % 4 == 0 {
        1int
    } else {
        0
    });
    assert(a - b == if y % 100 == 0 {
        1int
    } else {
        0
    });
    assert(y % 100 == 0 ==> (a / 4 - b / 4 == if y % 400 == 0 {
        1int
    } else {
        0
    }));
}

/// Every day has the number behind that of the day before it: within a month, from one month to the
/// next, and from one year to the next.
pub proof fn law_days_follow_one_another(year: int, month: int, day: int)
    requires
        is_day(year, month, day),
    ensures
        day < days_in(year, month) ==> julian_day(year, month, day + 1) == julian_day(
            year,
            month,
            day,
        ) + 1,
        day == days_in(year, month) && month < 12 ==> julian_day(year, month + 1, 1) == julian_day(
            year,
            month,
            day,
        ) + 1,
        day == days_in(year, month) && month == 12 ==> julian_day(year + 1, 1, 1) == julian_day(
            year,
            month,
            day,
        ) + 1,
{
    lemma_year(year);
    lemma_year(year + 1);
    lemma_leap_day(year);
    assert((306001int * 4) / 10000 == 122);
    assert((306001int * 5) / 10000 == 153);
    assert((306001int * 6) / 10000 == 183);
    assert((306001int * 7) / 10000 == 214);
    assert((306001int * 8) / 10000 == 244);
    assert((306001int * 9) / 10000 == 275);
    assert((306001int * 10) / 10000 == 306);
    assert((306001int * 11) / 10000 == 336);
    assert((306001int * 12) / 10000 == 367);
    assert((306001int * 13) / 10000 == 397);
    assert((306001int * 14) / 10000 == 428);
    assert((306001int * 15) / 10000 == 459);
}

/// Whether one day comes before another.
pub open spec fn comes_before(y: int, m: int, d: int, year: int, month: int, day: int) -> bool {
    y < year || y == year && (m < month || m == month && d < day)
}

proof fn lemma_months(year: int, a: int, b: int)
    requires
        0 <= year <= 9999,
        1 <= a < b <= 12,
    ensures
        julian_day(year, a, days_in(year, a)) < julian_day(year, b, 1),
    decreases b,
{
    law_days_follow_one_another(year, b - 1, days_in(year, b - 1));
    if a < b - 1 {
        lemma_months(year, a, b - 1);
        assert(julian_day(year, b - 1, days_in(year, b - 1)) == julian_day(year, b - 1, 1)
            + days_in(year, b - 1) - 1);
    }
}

proof fn lemma_years(a: int, b: int)
    requires
        0 <= a < b <= 9999,
    ensures
        julian_day(a, 12, 31) < julian_day(b, 1, 1),
    decreases b,
{
    law_days_follow_one_another(b - 1, 12, 31);
    if a < b - 1 {
        lemma_years(a, b - 1);
        lemma_months(b - 1, 1, 12);
        assert(julian_day(b - 1, 1, 31) == julian_day(b - 1, 1, 1) + 30);
        assert(julian_day(b - 1, 12, 31) == julian_day(b - 1, 12, 1) + 30);
    }
}

/// Days are numbered in the order in which they come.
pub proof fn law_later_days_have_greater_numbers(
    y: int,
    m: int,
    d: int,
    year: int,
    month: int,
    day: int,
)
    requires
        is_day(y, m, d),
        is_day(year, month, day),
        comes_before(y, m, d, year, month, day),
    ensures
        julian_day(y, m, d) < julian_day(year, month, day),
{
    let end = days_in(y, m);
    assert(julian_day(y, m, d) == julian_day(y, m, end) - end + d);
    assert(julian_day(year, month, day) == julian_day(year, month, 1) + day - 1);
    if y == year && m < month {
        lemma_months(y, m, month);
    } else if y < year {
        lemma_years(y, year);
        if m < 12 {
            lemma_months(y, m, 12);
            assert(julian_day(y, 12, 31) == julian_day(y, 12, 1) + 30);
        }
        if month > 1 {
            lemma_months(year, 1, month);
            assert(julian_day(year, 1, 31) == julian_day(year, 1, 1) + 30);
        }
    }
}

/// Whether two texts agree up to place `k`, where the first has the smaller character.
pub open spec fn differ_first_at(a: Seq<char>, b: Seq<char>, k: int) -> bool {
    &&& 0 <= k < a.len()
    &&& k < b.len()
    &&& a[k] < b[k]
    &&& forall|i: int| 0 <= i < k ==> #[trigger] a[i] == b[i]
}

/// Texts are ordered by the first character in which they differ, and a text comes before all that
/// start with it.
pub proof fn law_texts_are_ordered_by_first_difference(a: Seq<char>, b: Seq<char>)
    ensures
        text_le(a, b) <==> a.is_prefix_of(b) || exists|k: int| differ_first_at(a, b, k),
    decreases a.len(),
{
    if a.len() == 0 {
        assert(b.subrange(0, 0) =~= a);
        assert(a.is_prefix_of(b));
    } else if b.len() > 0 {
        let c = a.skip(1);
        let d = b.skip(1);
        law_texts_are_ordered_by_first_difference(c, d);
        if a[0] < b[0] {
            assert(differ_first_at(a, b, 0));
        }
        if a[0] == b[0] {
            if c.is_prefix_of(d) {
                assert forall|i: int| 0 <= i < a.len() implies a[i] == b.subrange(
                    0,
                    a.len() as int,
                )[i] by {
                    if i > 0 {
                        assert(c[i - 1] == d.subrange(0, c.len() as int)[i - 1]);
                    }
                }
                assert(a =~= b.subrange(0, a.len() as int));
            }
            if a.is_prefix_of(b) {
                assert forall|i: int| 0 <= i < c.len() implies c[i] == d.subrange(
                    0,
                    c.len() as int,
                )[i] by {
                    assert(a[i + 1] == b.subrange(0, a.len() as int)[i + 1]);
                }
                assert(c =~= d.subrange(0, c.len() as int));
            }
            if exists|k: int| differ_first_at(c, d, k) {
                let k = choose|k: int| differ_first_at(c, d, k);
                assert forall|i: int| 0 <= i < k + 1 implies #[trigger] a[i] == b[i] by {
                    if i > 0 {
                        assert(c[i - 1] == d[i - 1]);
                    }
                }
                assert(differ_first_at(a, b, k + 1));
            }
            if exists|k: int| differ_first_at(a, b, k) {
                let k = choose|k: int| differ_first_at(a, b, k);
                assert(k > 0);
                assert forall|i: int| 0 <= i < k - 1 implies #[trigger] c[i] == d[i] by {
                    assert(a[i + 1] == b[i + 1]);
                }
                assert(differ_first_at(c, d, k - 1));
            }
        } else {
            if a.is_prefix_of(b) {
                assert(a[0] == b.subrange(0, a.len() as int)[0]);
            }
            if exists|k: int| differ_first_at(a, b, k) {
                let k = choose|k: int| differ_first_at(a, b, k);
                if k > 0 {
                    assert(a[0] == b[0]);
                }
            }
        }
    } else {
        if a.is_prefix_of(b) {
            assert(false);
        }
    }
}

/// Whether a written date is a day of the calendar.
pub open spec fn is_calendar_date(date: Seq<char>) -> bool {
    is_date(date) && is_day(number_at(date, 0, 4), number_at(date, 5, 7), number_at(date, 8, 10))
}

proof fn lemma_digits_of(date: Seq<char>)
    requires
        is_date(date),
    ensures
        number_at(date, 0, 4) == digit_value(date[0]) * 1000 + digit_value(date[1]) * 100
            + digit_value(date[2]) * 10 + digit_value(date[3]),
        number_at(date, 5, 7) == digit_value(date[5]) * 10 + digit_value(date[6]),
        number_at(date, 8, 10) == digit_value(date[8]) * 10 + digit_value(date[9]),
        forall|i: int|
            0 <= i < 10 && i != 4 && i != 7 ==> 0 <= digit_value(#[trigger] date[i]) <= 9,
{
    reveal_with_fuel(number_at, 5);
}

/// Written dates are ordered as the days that they name.
pub proof fn law_dates_sort_by_day(a: Seq<char>, b: Seq<char>)
    requires
        is_calendar_date(a),
        is_calendar_date(b),
        text_le(a, b),
    ensures
        day_number(a) is Some,
        day_number(b) is Some,
        day_number(a)->0 <= day_number(b)->0,
{
    lemma_digits_of(a);
    lemma_digits_of(b);
    law_texts_are_ordered_by_first_difference(a, b);
    if a.is_prefix_of(b) {
        assert(b.subrange(0, 10) =~= b);
        assert(a == b);
    } else {
        let k = choose|k: int| differ_first_at(a, b, k);
        assert(k != 4 && k != 7);
        assert(digit_value(a[k]) < digit_value(b[k]));
        assert forall|i: int| 0 <= i < k implies digit_value(#[trigger] a[i]) == digit_value(b[i]) by {}
        lemma_earlier(a, b, k);
        law_later_days_have_greater_numbers(
            number_at(a, 0, 4),
            number_at(a, 5, 7),
            number_at(a, 8, 10),
            number_at(b, 0, 4),
            number_at(b, 5, 7),
            number_at(b, 8, 10),
        );
    }
}

proof fn lemma_earlier(a: Seq<char>, b: Seq<char>, k: int)
    requires
        is_date(a),
        is_date(b),
        differ_first_at(a, b, k),
    ensures
        comes_before(
            number_at(a, 0, 4),
            number_at(a, 5, 7),
            number_at(a, 8, 10),
            number_at(b, 0, 4),
            number_at(b, 5, 7),
            number_at(b, 8, 10),
        ),
{
    lemma_digits_of(a);
    lemma_digits_of(b);
    assert(a[4] == b[4] && a[7] == b[7]);
    assert(k != 4 && k != 7);
    assert(digit_value(a[k]) < digit_value(b[k]));
    assert(k > 0 ==> a[0] == b[0]);
    assert(k > 1 ==> a[1] == b[1]);
    assert(k > 2 ==> a[2] == b[2]);
    assert(k > 3 ==> a[3] == b[3]);
    assert(k > 5 ==> a[5] == b[5]);
    assert(k > 6 ==> a[6] == b[6]);
    assert(k > 8 ==> a[8] == b[8]);
    if k == 0 || k == 1 || k == 2 || k == 3 {
    } else if k == 5 || k == 6 {
    } else {
        assert(k == 8 || k == 9);
    }
}

} // verus!
