//! The days of the Gregorian calendar, counted from the Unix epoch.

use vstd::prelude::*;

verus! {

/// A day, by its year, its month and its place in the month, both from one on.
/// The year before the year 1 is the year 0.
pub struct Day {
    pub year: int,
    pub month: int,
    pub day: int,
}

/// Whether a year has a 29th of February.
pub open spec fn leap_year(year: int) -> bool {
    year % 4 == 0 && (year % 100 != 0 || year % 400 == 0)
}

/// The number of days in a year.
pub open spec fn year_length(year: int) -> int {
    if leap_year(year) {
        366
    } else {
        365
    }
}

/// The number of days in a month.
pub open spec fn month_length(year: int, month: int) -> int {
    if month == 2 {
        if leap_year(year) {
            29
        } else {
            28
        }
    } else if month == 4 || month == 6 || month == 9 || month == 11 {
        30
    } else {
        31
    }
}

/// The days from 1 January 1970 to the start of a year: 365 for each year
/// between, and one more for each leap year.
pub open spec fn days_before_year(year: int) -> int {
    365 * (year - 1970) + (year - 1) / 4 - (year - 1) / 100 + (year - 1) / 400 - 477
}

/// The days from the start of a year to the start of a month.
pub open spec fn days_before_month(year: int, month: int) -> int
    decreases month,
{
    if month <= 1 {
        0
    } else {
        days_before_month(year, month - 1) + month_length(year, month - 1)
    }
}

impl Day {
    /// Whether the calendar has the day.
    pub open spec fn valid(self) -> bool {
        1 <= self.month <= 12 && 1 <= self.day <= month_length(self.year, self.month)
    }

    /// The days from 1 January 1970 to the day.
    pub open spec fn number(self) -> int {
        days_before_year(self.year) + days_before_month(self.year, self.month) + self.day - 1
    }
}

/// The day that lies `number` days behind 1 January 1970.
pub open spec fn day_of(number: int) -> Day {
    choose|day: Day| day.valid() && #[trigger] day.number() == number
}

/// The count of days starts with 1970, and each year adds its length.
pub proof fn law_years_follow_each_other(year: int)
    ensures
        days_before_year(1970) == 0,
        days_before_year(year + 1) == days_before_year(year) + year_length(year),
{
}

/// Later years start later.
proof fn lemma_years_increase(a: int, b: int)
    requires
        a <= b,
    ensures
        days_before_year(a) <= days_before_year(b),
    decreases b - a,
{
    if a < b {
        lemma_years_increase(a, b - 1);
        law_years_follow_each_other(b - 1);
    }
}

/// The months of a year follow each other, and fill it.
proof fn lemma_months(year: int)
    ensures
        days_before_month(year, 1) == 0,
        days_before_month(year, 12) + month_length(year, 12) == year_length(year),
        forall|a: int, b: int|
            1 <= a < b <= 12 ==> #[trigger] days_before_month(year, a) + month_length(year, a)
                <= #[trigger] days_before_month(year, b),
{
    reveal_with_fuel(days_before_month, 13);
    assert(days_before_month(year, 2) == 31);
    assert(days_before_month(year, 3) == 31 + month_length(year, 2));
    assert(days_before_month(year, 4) == 62 + month_length(year, 2));
    assert(days_before_month(year, 5) == 92 + month_length(year, 2));
    assert(days_before_month(year, 6) == 123 + month_length(year, 2));
    assert(days_before_month(year, 7) == 153 + month_length(year, 2));
    assert(days_before_month(year, 8) == 184 + month_length(year, 2));
    assert(days_before_month(year, 9) == 215 + month_length(year, 2));
    assert(days_before_month(year, 10) == 245 + month_length(year, 2));
    assert(days_before_month(year, 11) == 276 + month_length(year, 2));
    assert(days_before_month(year, 12) == 306 + month_length(year, 2));
}

/// A day lies in its year.
pub proof fn lemma_day_in_year(day: Day)
    requires
        day.valid(),
    ensures
        days_before_year(day.year) <= day.number() < days_before_year(day.year + 1),
{
    lemma_months(day.year);
    law_years_follow_each_other(day.year);
    if day.month > 1 {
        assert(days_before_month(day.year, 1) <= days_before_month(day.year, day.month));
    }
    if day.month < 12 {
        assert(days_before_month(day.year, day.month) + month_length(day.year, day.month)
            <= days_before_month(day.year, 12));
    }
}

/// A day from the start of a year on belongs to it or a later one, and a day
/// before it to an earlier one.
pub proof fn lemma_year_of_day(day: Day, year: int)
    requires
        day.valid(),
    ensures
        day.number() >= days_before_year(year) <==> day.year >= year,
{
    lemma_day_in_year(day);
    if day.year < year {
        lemma_years_increase(day.year + 1, year);
    } else {
        lemma_years_increase(year, day.year);
    }
}

/// No two days have the same number.
pub proof fn law_day_is_unique(a: Day, b: Day)
    requires
        a.valid(),
        b.valid(),
        a.number() == b.number(),
    ensures
        a == b,
{
    lemma_day_in_year(a);
    lemma_day_in_year(b);
    lemma_year_of_day(a, b.year);
    lemma_year_of_day(b, a.year);
    lemma_months(a.year);
    if a.month < b.month {
        assert(days_before_month(a.year, a.month) + month_length(a.year, a.month)
            <= days_before_month(a.year, b.month));
    }
    if b.month < a.month {
        assert(days_before_month(a.year, b.month) + month_length(a.year, b.month)
            <= days_before_month(a.year, a.month));
    }
}

/// Every number is that of a day.
pub proof fn law_every_number_is_a_day(number: int)
    ensures
        day_of(number).valid(),
        day_of(number).number() == number,
    decreases
            if number < 0 {
                -number
            } else {
                number
            },
{
    let found = if number == 0 {
        Day { year: 1970, month: 1, day: 1 }
    } else if number > 0 {
        law_every_number_is_a_day(number - 1);
        let before = day_of(number - 1);
        lemma_months(before.year);
        law_years_follow_each_other(before.year);
        if before.day < month_length(before.year, before.month) {
            Day { year: before.year, month: before.month, day: before.day + 1 }
        } else if before.month < 12 {
            Day { year: before.year, month: before.month + 1, day: 1 }
        } else {
            lemma_months(before.year + 1);
            Day { year: before.year + 1, month: 1, day: 1 }
        }
    } else {
        law_every_number_is_a_day(number + 1);
        let after = day_of(number + 1);
        lemma_months(after.year);
        if after.day > 1 {
            Day { year: after.year, month: after.month, day: after.day - 1 }
        } else if after.month > 1 {
            Day {
                year: after.year,
                month: after.month - 1,
                day: month_length(after.year, after.month - 1),
            }
        } else {
            lemma_months(after.year - 1);
            law_years_follow_each_other(after.year - 1);
            Day { year: after.year - 1, month: 12, day: 31 }
        }
    };
    assert(found.valid() && found.number() == number);
}

/// The day behind the number of a day is that day.
pub proof fn law_day_of_its_number(day: Day)
    requires
        day.valid(),
    ensures
        day_of(day.number()) == day,
{
    law_every_number_is_a_day(day.number());
    law_day_is_unique(day, day_of(day.number()));
}

/// A month has 31 days, or 30, and February 28; in a leap year, which is every
/// fourth but of the hundreds only every fourth again, it has 29.
pub proof fn law_days_of_a_month(day: Day)
    ensures
        day.valid() <==> 1 <= day.month <= 12 && 1 <= day.day <= seq![
            31int,
            if day.year % 400 == 0 || (day.year % 4 == 0 && day.year % 100 != 0) {
                29
            } else {
                28
            },
            31,
            30,
            31,
            30,
            31,
            31,
            30,
            31,
            30,
            31,
        ][day.month - 1],
{
}

/// Days are counted from 1 January 1970, and each counts one more than the day
/// before it: in the same month, in the month before, or in the year before.
pub proof fn law_days_are_counted(before: Day, day: Day)
    requires
        before.valid(),
        day.valid(),
        ({
            ||| day.year == before.year && day.month == before.month && day.day == before.day + 1
            ||| !(Day { day: before.day + 1, ..before }).valid() && day.day == 1 && day.year
                == before.year && day.month == before.month + 1
            ||| before.month == 12 && before.day == 31 && day.year == before.year + 1 && day.month
                == 1 && day.day == 1
        }),
    ensures
        (Day { year: 1970, month: 1, day: 1 }).number() == 0,
        day.number() == before.number() + 1,
{
    lemma_months(before.year);
    lemma_months(day.year);
    lemma_months(1970);
    law_years_follow_each_other(before.year);
}

} // verus!
