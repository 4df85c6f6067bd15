//! The civil calendar: day numbers of dates (1970-01-01 is day 0).
use vstd::prelude::*;

verus! {

/// Remainder with the sign of the dividend, as machine arithmetic has it.
pub open spec fn trunc_rem(a: int, b: int) -> int {
    if a >= 0 {
        a % b
    } else {
        -((-a) % b)
    }
}

/// Quotient rounded towards zero, as machine arithmetic has it.
pub open spec fn trunc_div(a: int, b: int) -> int {
    if a >= 0 {
        a / b
    } else {
        -((-a) / b)
    }
}

/// The year that starts in March, to which a date belongs.
pub open spec fn march_year(y: int, m: int) -> int {
    if m <= 2 {
        y - 1
    } else {
        y
    }
}

/// Days from the first of March to the first of a month, for months 1..=12.
pub open spec fn month_start(m: int) -> int {
    trunc_div(153 * trunc_rem(m + 9, 12) + 2, 5)
}

/// The day number of a date.
pub open spec fn days_from_civil(y: int, m: int, d: int) -> int {
    let ya = march_year(y, m);
    let era = ya / 400;
    let yoe = ya - era * 400;
    let doy = month_start(m) + d - 1;
    let doe = yoe * 365 + yoe / 4 - yoe / 100 + doy;
    era * 146097 + doe - 719468
}

pub open spec fn is_leap(y: int) -> bool {
    y % 4 == 0 && (y % 100 != 0 || y % 400 == 0)
}

pub open spec fn days_in_month(y: int, m: int) -> int {
    if m == 2 {
        if is_leap(y) {
            29
        } else {
            28
        }
    } else if m == 4 || m == 6 || m == 9 || m == 11 {
        30
    } else {
        31
    }
}

pub open spec fn is_date(y: int, m: int, d: int) -> bool {
    1 <= m <= 12 && 1 <= d <= days_in_month(y, m)
}

/// The date after a date.
pub open spec fn next_date(y: int, m: int, d: int) -> (int, int, int) {
    if d < days_in_month(y, m) {
        (y, m, d + 1)
    } else if m < 12 {
        (y, m + 1, 1)
    } else {
        (y + 1, 1, 1)
    }
}

proof fn lemma_year_split(y: int, e: int, b: int)
    requires
        y == 400 * e + b,
        0 <= b < 400,
    ensures
        y / 400 == e,
        y % 4 == b % 4,
        y % 100 == b % 100,
        y % 400 == b,
{
}

proof fn lemma_leap_step(b: int)
    requires
        1 <= b < 400,
    ensures
        (b / 4 - b / 100) - ((b - 1) / 4 - (b - 1) / 100) == if b % 4 == 0 && b % 100 != 0 {
            1int
        } else {
            0
        },
{
    assert(b / 4 - (b - 1) / 4 == if b % 4 == 0 {
        1int
    } else {
        0
    });
    assert(b / 100 - (b - 1) / 100 == if b % 100 == 0 {
        1int
    } else {
        0
    });
    assert(b % 100 == 0 ==> b % 4 == 0);
}

/// The first of March follows the last of February.
proof fn lemma_march_follows_february(y: int)
    ensures
        days_from_civil(y, 3, 1) == days_from_civil(y, 2, days_in_month(y, 2)) + 1,
{
    let e = y / 400;
    let b = y - 400 * e;
    lemma_year_split(y, e, b);
    if b > 0 {
        lemma_year_split(y - 1, e, b - 1);
        lemma_leap_step(b);
    } else {
        lemma_year_split(y - 1, e - 1, 399);
    }
}

/// Day numbers count days: the next date's is the next number, across the
/// ends of months, years and leap years.
pub proof fn lemma_days_are_consecutive(y: int, m: int, d: int)
    requires
        is_date(y, m, d),
    ensures
        ({
            let (ny, nm, nd) = next_date(y, m, d);
            days_from_civil(ny, nm, nd) == days_from_civil(y, m, d) + 1
        }),
{
    if d == days_in_month(y, m) {
        if m == 2 {
            lemma_march_follows_february(y);
        } else {
            assert(m == 1 || m == 3 || m == 4 || m == 5 || m == 6 || m == 7 || m == 8 || m == 9
                || m == 10 || m == 11 || m == 12);
        }
    }
}

// ---------------------------------------------------- dates of day numbers
/// The year within its 400-year era, of a day within it.
pub open spec fn year_of_era(doe: int) -> int {
    (doe - doe / 1460 + doe / 36524 - doe / 146096) / 365
}

/// The date of a day number.
pub open spec fn date_of(days: int) -> (int, int, int) {
    let z = days + 719468;
    let era = z / 146097;
    let doe = z % 146097;
    let yoe = year_of_era(doe);
    let doy = doe - (365 * yoe + yoe / 4 - yoe / 100);
    let mp = (5 * doy + 2) / 153;
    let d = doy - (153 * mp + 2) / 5 + 1;
    let m = if mp < 10 {
        mp + 3
    } else {
        mp - 9
    };
    let y = yoe + era * 400;
    (if m <= 2 {
        y + 1
    } else {
        y
    }, m, d)
}

/// A day of an era is a day of one of its years: `a` centuries, `b` leap
/// cycles and `c` years in, `r` days on.
proof fn lemma_year_of_era(doe: int) -> (p: (int, int, int, int))
    requires
        0 <= doe < 146097,
    ensures
        ({
            let (a, b, c, r) = p;
            &&& 0 <= a <= 3
            &&& 0 <= b <= 24
            &&& 0 <= c <= 3
            &&& 0 <= r <= 365
            &&& doe == 36524 * a + 1461 * b + 365 * c + r
            &&& r == 365 ==> c == 3 && (b != 24 || a == 3)
            &&& year_of_era(doe) == 100 * a + 4 * b + c
        }),
{
    let a = if doe / 36524 > 3 {
        3
    } else {
        doe / 36524
    };
    let rem1 = doe - 36524 * a;
    let b = rem1 / 1461;
    let rem2 = rem1 - 1461 * b;
    let c = if rem2 / 365 > 3 {
        3
    } else {
        rem2 / 365
    };
    let r = rem2 - 365 * c;
    assert(0 <= rem1 <= 36524);
    assert(0 <= b <= 24);
    assert(0 <= rem2 <= 1460);
    assert(0 <= r <= 365);
    assert(doe / 36524 - doe / 146096 == a);
    let t = (24 * a + b + 365 * c + r) / 1460;
    assert(doe == 1460 * (25 * a + b) + (24 * a + b + 365 * c + r));
    assert(doe / 1460 == 25 * a + b + t);
    assert(0 <= r - t < 365) by {
        if r == 365 {
            assert(c == 3);
            assert(t == 1);
        }
        if r == 0 {
            assert(t == 0);
        }
    }
    let e = doe - doe / 1460 + doe / 36524 - doe / 146096;
    assert(e == 365 * (100 * a + 4 * b + c) + (r - t));
    (a, b, c, r)
}

/// The year within an era is one of its 400 years, and begins no later than
/// the day.
pub(crate) proof fn lemma_year_of_era_range(doe: int)
    requires
        0 <= doe < 146097,
    ensures
        ({
            let yoe = year_of_era(doe);
            &&& 0 <= yoe < 400
            &&& 0 <= doe - (365 * yoe + yoe / 4 - yoe / 100) <= 365
        }),
{
    let (a, b, c, r) = lemma_year_of_era(doe);
    let yoe = year_of_era(doe);
    assert(yoe / 4 == 25 * a + b);
    assert(yoe / 100 == a);
}

/// Day numbers and dates are two names for the same days: the date of a day
/// number is a real date, and has that day number.
pub proof fn lemma_date_of_day(days: int)
    ensures
        ({
            let (y, m, d) = date_of(days);
            is_date(y, m, d) && days_from_civil(y, m, d) == days
        }),
{
    let z = days + 719468;
    let era = z / 146097;
    let doe = z % 146097;
    let (a, b, c, r) = lemma_year_of_era(doe);
    let yoe = year_of_era(doe);
    assert(yoe / 4 == 25 * a + b);
    assert(yoe / 100 == a);
    let doy = doe - (365 * yoe + yoe / 4 - yoe / 100);
    assert(doy == r);
    let mp = (5 * doy + 2) / 153;
    assert(0 <= mp <= 11);
    let (y, m, d) = date_of(days);
    assert(m + 9 == mp || m + 9 == mp + 12);
    assert(trunc_rem(m + 9, 12) == mp);
    assert(march_year(y, m) == yoe + era * 400);
    assert((yoe + era * 400) / 400 == era);
    assert(1 <= d <= 31);
    if m == 2 {
        assert(mp == 11);
        assert(d <= 29);
        if d == 29 {
            assert(r == 365);
            let b2 = y - 400 * era;
            assert(b2 == yoe + 1);
            if b2 < 400 {
                lemma_year_split(y, era, b2);
            } else {
                lemma_year_split(y, era + 1, 0);
            }
            assert(is_leap(y));
        }
    }
}

/// Days are counted from the first of January 1970.
pub proof fn lemma_the_epoch()
    ensures
        days_from_civil(1970, 1, 1) == 0,
        date_of(0) == (1970int, 1int, 1int),
{
}

} // verus!
