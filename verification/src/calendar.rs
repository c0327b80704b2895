//! The Gregorian calendar, counted in days from 1970-01-01.
use vstd::arithmetic::div_mod::lemma_mod_multiples_basic;
use vstd::prelude::*;

verus! {

pub open spec fn is_leap(year: int) -> bool {
    year % 4 == 0 && (year % 100 != 0 || year % 400 == 0)
}

pub open spec fn year_length(year: int) -> int {
    if is_leap(year) {
        366
    } else {
        365
    }
}

pub open spec fn month_length(year: int, month: int) -> int {
    if month == 2 {
        if is_leap(year) {
            29
        } else {
            28
        }
    } else if month == 4 || month == 6 || month == 9 || month == 11 {
        30
    } else {
        31
    }
}

/// How many days lie between the start of 1970 and the start of a year from 1970 on.
pub open spec fn days_before_year(year: int) -> int
    decreases year,
{
    if year <= 1970 {
        0
    } else {
        days_before_year(year - 1) + year_length(year - 1)
    }
}

/// How many days lie between the start of a year and the start of one of its months.
pub open spec fn days_before_month(year: int, month: int) -> int
    decreases month,
{
    if month <= 1 {
        0
    } else {
        days_before_month(year, month - 1) + month_length(year, month - 1)
    }
}

/// Whether year, month and day are a date from 1970 on.
pub open spec fn is_date(year: int, month: int, day: int) -> bool {
    year >= 1970 && 1 <= month <= 12 && 1 <= day <= month_length(year, month)
}

/// How many days a date lies behind 1970-01-01.
pub open spec fn day_number(year: int, month: int, day: int) -> int {
    days_before_year(year) + days_before_month(year, month) + day - 1
}

/// The date that lies so many days behind 1970-01-01, as year, month and day.
pub open spec fn date_of(days: int) -> (int, int, int) {
    choose|t: (int, int, int)|
        #![trigger day_number(t.0, t.1, t.2)]
        is_date(t.0, t.1, t.2) && day_number(t.0, t.1, t.2) == days
}

proof fn lemma_years_ordered(a: int, b: int)
    requires
        1970 <= a < b,
    ensures
        days_before_year(a) + year_length(a) <= days_before_year(b),
    decreases b - a,
{
    if a + 1 < b {
        lemma_years_ordered(a, b - 1);
    }
}

proof fn lemma_months(year: int)
    ensures
        days_before_month(year, 1) == 0,
        days_before_month(year, 2) == 31,
        days_before_month(year, 3) == 31 + month_length(year, 2),
        days_before_month(year, 4) == 62 + month_length(year, 2),
        days_before_month(year, 5) == 92 + month_length(year, 2),
        days_before_month(year, 6) == 123 + month_length(year, 2),
        days_before_month(year, 7) == 153 + month_length(year, 2),
        days_before_month(year, 8) == 184 + month_length(year, 2),
        days_before_month(year, 9) == 215 + month_length(year, 2),
        days_before_month(year, 10) == 245 + month_length(year, 2),
        days_before_month(year, 11) == 276 + month_length(year, 2),
        days_before_month(year, 12) == 306 + month_length(year, 2),
{
    reveal_with_fuel(days_before_month, 13);
}

/// A date lies within its year.
proof fn lemma_day_in_year(year: int, month: int, day: int)
    requires
        is_date(year, month, day),
    ensures
        days_before_year(year) <= day_number(year, month, day) < days_before_year(year)
            + year_length(year),
{
    lemma_months(year);
}

/// Two dates with one day number are the same date.
pub proof fn law_day_number_is_unique(a: (int, int, int), b: (int, int, int))
    requires
        is_date(a.0, a.1, a.2),
        is_date(b.0, b.1, b.2),
        day_number(a.0, a.1, a.2) == day_number(b.0, b.1, b.2),
    ensures
        a == b,
{
    lemma_day_in_year(a.0, a.1, a.2);
    lemma_day_in_year(b.0, b.1, b.2);
    if a.0 < b.0 {
        lemma_years_ordered(a.0, b.0);
    }
    if b.0 < a.0 {
        lemma_years_ordered(b.0, a.0);
    }
    lemma_months(a.0);
}

/// A date is the date of its day number.
pub proof fn lemma_date_of(year: int, month: int, day: int)
    requires
        is_date(year, month, day),
    ensures
        date_of(day_number(year, month, day)) == (year, month, day),
{
    let days = day_number(year, month, day);
    let t = (year, month, day);
    assert(is_date(t.0, t.1, t.2) && day_number(t.0, t.1, t.2) == days);
    law_day_number_is_unique(date_of(days), t);
}

/// How many leap years there are from year 1 up to and with `year`.
pub open spec fn leaps(year: int) -> int {
    year / 4 - year / 100 + year / 400
}

/// A multiple of 400 is one of 100, and a multiple of 100 is one of 4.
proof fn lemma_multiples(year: int)
    ensures
        year % 400 == 0 ==> year % 100 == 0,
        year % 100 == 0 ==> year % 4 == 0,
{
    if year % 400 == 0 {
        lemma_mod_multiples_basic(4 * (year / 400), 100);
    }
    if year % 100 == 0 {
        lemma_mod_multiples_basic(25 * (year / 100), 4);
    }
}

proof fn lemma_leaps_step(year: int)
    ensures
        leaps(year) - leaps(year - 1) == if is_leap(year) {
            1int
        } else {
            0
        },
{
    lemma_multiples(year);
    lemma_div_step(year, 4);
    lemma_div_step(year, 100);
    lemma_div_step(year, 400);
}

proof fn lemma_div_step(n: int, d: int)
    requires
        d == 4 || d == 100 || d == 400,
    ensures
        n / d - (n - 1) / d == if n % d == 0 {
            1int
        } else {
            0
        },
{
}

proof fn lemma_days_before_year(year: int)
    requires
        year >= 1970,
    ensures
        days_before_year(year) == 365 * (year - 1970) + leaps(year - 1) - 477,
    decreases year,
{
    if year > 1970 {
        lemma_days_before_year(year - 1);
        lemma_leaps_step(year - 1);
    }
}

/// The days before a year of an era of 400 years that starts on March 1.
pub open spec fn era_days(y: int) -> int {
    365 * y + y / 4 - y / 100 + y / 400
}

/// The year of the era that a day of the era lies in.
pub open spec fn era_year(doe: int) -> int {
    (doe - doe / 1460 + doe / 36524 - doe / 146096) / 365
}

#[verifier::spinoff_prover]
proof fn lemma_era_year(doe: int)
    requires
        0 <= doe < 146097,
    ensures
        0 <= era_year(doe) < 400,
        era_days(era_year(doe)) <= doe < era_days(era_year(doe) + 1),
{
    // centuries, then four-year groups, then years, then days
    let c = if doe == 146096 {
        3
    } else {
        doe / 36524
    };
    let b = doe - 36524 * c;
    assert(0 <= c <= 3 && 0 <= b <= 36524 && (b == 36524 ==> doe == 146096));
    let q = b / 1461;
    let t = b - 1461 * q;
    assert(0 <= q <= 24 && 0 <= t <= 1460);
    let j = if t == 1460 {
        3
    } else {
        t / 365
    };
    let r = t - 365 * j;
    assert(0 <= j <= 3 && 0 <= r <= 365 && (r == 365 ==> j == 3));
    let y = 100 * c + 4 * q + j;
    assert(doe == 36524 * c + 1461 * q + 365 * j + r);
    assert(y / 4 == 25 * c + q);
    assert(y / 100 == c);
    assert(y / 400 == 0);
    assert(era_days(y) == 36524 * c + 1461 * q + 365 * j);
    let e1 = (q + 24 * c + 365 * j + r) / 1460;
    assert(doe == 1460 * (q + 25 * c) + (q + 24 * c + 365 * j + r));
    assert(doe / 1460 == q + 25 * c + e1);
    assert(e1 == 0 || e1 == 1);
    let e2 = if doe == 146096 {
        1int
    } else {
        0
    };
    assert(doe / 36524 == c + e2);
    assert(doe / 146096 == e2);
    assert(doe - doe / 1460 + doe / 36524 - doe / 146096 == 365 * y + (r - e1));
    assert(0 <= r - e1 < 365);
    assert(era_year(doe) == y);
    // the length of the year
    if j < 3 {
        assert((y + 1) / 4 == y / 4);
        assert((y + 1) / 100 == c);
        assert((y + 1) / 400 == 0);
    } else if q < 24 {
        assert((y + 1) / 4 == 25 * c + q + 1);
        assert((y + 1) / 100 == c);
        assert((y + 1) / 400 == 0);
    } else {
        assert(y + 1 == 100 * (c + 1));
        assert((y + 1) / 4 == 25 * (c + 1));
        assert((y + 1) / 100 == c + 1);
        assert((y + 1) / 400 == if c == 3 {
            1int
        } else {
            0
        });
    }
}

/// Years that start on March 1 and eras of 400 such years lead from a day number to its date.
#[verifier::spinoff_prover]
pub proof fn lemma_civil(days: int, era: int, doe: int, yoe: int, doy: int, mp: int)
    requires
        days >= 0,
        era == (days + 719468) / 146097,
        doe == days + 719468 - era * 146097,
        yoe == era_year(doe),
        doy == doe - (365 * yoe + yoe / 4 - yoe / 100),
        mp == (5 * doy + 2) / 153,
    ensures
        era >= 0,
        0 <= doe < 146097,
        0 <= yoe < 400,
        0 <= doy <= 365,
        0 <= mp <= 11,
        ({
            let d = doy - (153 * mp + 2) / 5 + 1;
            let m = if mp < 10 {
                mp + 3
            } else {
                mp - 9
            };
            let y = yoe + era * 400 + if m <= 2 {
                1int
            } else {
                0
            };
            &&& is_date(y, m, d)
            &&& day_number(y, m, d) == days
            &&& date_of(days) == (y, m, d)
        }),
{
    lemma_era_year(doe);
    assert(0 <= yoe / 4 && 0 <= yoe / 100 && yoe / 400 == 0);
    let y = yoe + era * 400;
    // the days before March 1 of the year y
    assert(leaps(y) == 97 * era + yoe / 4 - yoe / 100) by {
        assert(y / 4 == 100 * era + yoe / 4);
        assert(y / 100 == 4 * era + yoe / 100);
        assert(y / 400 == era);
    }
    assert(era_days(yoe + 1) - era_days(yoe) == 365 + leaps(y + 1) - leaps(y)) by {
        assert((y + 1) / 4 == 100 * era + (yoe + 1) / 4);
        assert((y + 1) / 100 == 4 * era + (yoe + 1) / 100);
        assert((y + 1) / 400 == era + (yoe + 1) / 400);
    }
    lemma_leaps_step(y);
    lemma_leaps_step(y + 1);
    assert(doy < year_length(y + 1));
    let cum = (153 * mp + 2) / 5;
    let d = doy - cum + 1;
    assert(365 * y + leaps(y) - 719468 + doy == days);
    assert(0 <= mp <= 11);
    if mp < 10 {
        let m = mp + 3;
        assert(y >= 1970);
        lemma_days_before_year(y);
        lemma_months(y);
        assert(days_before_month(y, m) == 31 + month_length(y, 2) + cum);
        assert(1 <= d <= month_length(y, m));
        assert(day_number(y, m, d) == days);
        lemma_date_of(y, m, d);
    } else {
        let m = mp - 9;
        assert(y + 1 >= 1970);
        lemma_days_before_year(y + 1);
        lemma_months(y + 1);
        assert(days_before_month(y + 1, m) == cum - 306);
        assert(1 <= d <= month_length(y + 1, m));
        assert(day_number(y + 1, m, d) == days);
        lemma_date_of(y + 1, m, d);
    }
}

/// Every day from 1970-01-01 on has a date.
pub proof fn law_every_day_has_a_date(days: int)
    requires
        days >= 0,
    ensures
        is_date(date_of(days).0, date_of(days).1, date_of(days).2),
        day_number(date_of(days).0, date_of(days).1, date_of(days).2) == days,
{
    let era = (days + 719468) / 146097;
    let doe = days + 719468 - era * 146097;
    let yoe = era_year(doe);
    let doy = doe - (365 * yoe + yoe / 4 - yoe / 100);
    let mp = (5 * doy + 2) / 153;
    lemma_civil(days, era, doe, yoe, doy, mp);
    let d = doy - (153 * mp + 2) / 5 + 1;
    let m = if mp < 10 {
        mp + 3
    } else {
        mp - 9
    };
    let y = yoe + era * 400 + if m <= 2 {
        1int
    } else {
        0
    };
    assert(is_date(y, m, d));
}

/// The calendar goes on from day to day: it starts with 1970-01-01, a month has the days that
/// it has, and behind a month's last day comes the first of the next one.
pub proof fn law_next_day(year: int, month: int, day: int)
    requires
        year >= 1970,
        1 <= month <= 12,
        day >= 1,
    ensures
        day_number(1970, 1, 1) == 0,
        ({
            let leap = year % 400 == 0 || (year % 4 == 0 && year % 100 != 0);
            let last = if month == 2 {
                if leap {
                    29int
                } else {
                    28
                }
            } else if month == 4 || month == 6 || month == 9 || month == 11 {
                30
            } else {
                31
            };
            let here = day_number(year, month, day);
            &&& is_date(year, month, day) == (day <= last)
            &&& day < last ==> day_number(year, month, day + 1) == here + 1
            &&& day == last && month < 12 ==> day_number(year, month + 1, 1) == here + 1
            &&& day == last && month == 12 ==> day_number(year + 1, 1, 1) == here + 1
        }),
{
    lemma_multiples(year);
    lemma_months(year);
    lemma_months(year + 1);
}

} // verus!
