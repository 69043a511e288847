//! Days and dates of the Gregorian calendar.

use vstd::prelude::*;

verus! {

/// A year with a day more.
pub open spec fn is_leap(year: int) -> bool {
    year % 4 == 0 && (year % 100 != 0 || year % 400 == 0)
}

/// How many days a month has.
pub open spec fn month_days(year: int, month: int) -> int {
    if month == 2 {
        if is_leap(year) {
            29
        } else {
            28
        }
    } else if month == 4 || month == 6 || month == 9 || month == 11 {
        30
    } else {
        31
    }
}

/// A date that there is.
pub open spec fn is_date(year: int, month: int, day: int) -> bool {
    1 <= month <= 12 && 1 <= day <= month_days(year, month)
}

/// How many days of a common year lie in front of a month.
pub open spec fn days_before_month(month: int) -> int {
    if month == 1 {
        0
    } else if month == 2 {
        31
    } else if month == 3 {
        59
    } else if month == 4 {
        90
    } else if month == 5 {
        120
    } else if month == 6 {
        151
    } else if month == 7 {
        181
    } else if month == 8 {
        212
    } else if month == 9 {
        243
    } else if month == 10 {
        273
    } else if month == 11 {
        304
    } else {
        334
    }
}

/// How many days lie between the first day of the year 1 and the first day of a year.
pub open spec fn days_before_year(year: int) -> int {
    365 * (year - 1) + (year - 1) / 4 - (year - 1) / 100 + (year - 1) / 400
}

/// The number of a date: how many days it lies behind the first of January 1970.
pub open spec fn day_number(year: int, month: int, day: int) -> int {
    days_before_year(year) + days_before_month(month) + (if month > 2 && is_leap(year) {
        1int
    } else {
        0
    }) + day - 1 - 719_162
}

/// How many days of an era of 400 years lie in front of a year that begins in March.
pub open spec fn era_days(y: int) -> int {
    365 * y + y / 4 - y / 100
}

/// The year of a day in an era.
proof fn lemma_year_of_era(doe: int, y: int)
    requires
        0 <= doe < 146_097,
        y == (doe - doe / 1460 + doe / 36_524 - doe / 146_096) / 365,
    ensures
        0 <= y < 400,
        era_days(y) <= doe,
        doe - era_days(y) <= 365,
        doe - era_days(y) == 365 ==> (y + 1) % 4 == 0 && ((y + 1) % 100 != 0 || y == 399),
{
    let c = doe / 36_524;
    let q = doe / 1460;
    if doe == 146_096 {
        assert(c == 4 && q == 100);
    } else {
        assert(0 <= c <= 3 || (c == 4 && doe == 146_096));
        let r = doe - 36_524 * c;
        assert(0 <= r < 36_524);
        let n = doe - q + c;
        assert(y == n / 365);
        // The days of a century in cycles of four years.
        let k = r / 1461;
        let s = r - 1461 * k;
        assert(0 <= k <= 24 && 0 <= s < 1461);
    }
}

/// The date of a day number.
pub fn civil_date(days: i64) -> (r: (i64, i64, i64))
    requires
        days <= i64::MAX - 719_468,
    ensures
        is_date(r.0 as int, r.1 as int, r.2 as int),
        day_number(r.0 as int, r.1 as int, r.2 as int) == days,
{
    let z: i64 = days + 719_468;
    let era: i64 = if z >= 0 {
        (z as u64 / 146_097) as i64
    } else {
        let back: u64 = (146_096 - z) as u64 / 146_097;
        0 - back as i64
    };
    assert(era * 146_097 <= z < era * 146_097 + 146_097);
    let doe: u64 = (z - era * 146_097) as u64;
    let yoe: u64 = (doe - doe / 1460 + doe / 36_524 - doe / 146_096) / 365;
    proof {
        lemma_year_of_era(doe as int, yoe as int);
    }
    let doy: u64 = doe - (365 * yoe + yoe / 4 - yoe / 100);
    let mp: u64 = (5 * doy + 2) / 153;
    let day: u64 = doy - (153 * mp + 2) / 5 + 1;
    let month: u64 = if mp < 10 {
        mp + 3
    } else {
        mp - 9
    };
    let year: i64 = yoe as i64 + era * 400 + if month <= 2 {
        1
    } else {
        0
    };
    proof {
        lemma_date(days as int, era as int, yoe as int, doy as int, mp as int);
    }
    (year, month as i64, day as i64)
}

proof fn lemma_date(days: int, era: int, yoe: int, doy: int, mp: int)
    requires
        days + 719_468 == era * 146_097 + era_days(yoe) + doy,
        0 <= yoe < 400,
        0 <= doy <= 365,
        doy == 365 ==> (yoe + 1) % 4 == 0 && ((yoe + 1) % 100 != 0 || yoe == 399),
        mp == (5 * doy + 2) / 153,
    ensures
        ({
            let day = doy - (153 * mp + 2) / 5 + 1;
            let month = if mp < 10 {
                mp + 3
            } else {
                mp - 9
            };
            let year = yoe + era * 400 + if month <= 2 {
                1int
            } else {
                0
            };
            is_date(year, month, day) && day_number(year, month, day) == days
        }),
{
    let day = doy - (153 * mp + 2) / 5 + 1;
    let month = if mp < 10 {
        mp + 3
    } else {
        mp - 9
    };
    let y = yoe + era * 400;
    let year = y + if month <= 2 {
        1int
    } else {
        0
    };
    assert(0 <= mp <= 11);
    // Whole eras count alike in every year.
    assert((year - 1) / 4 == (year - 1 - era * 400) / 4 + era * 100);
    assert((year - 1) / 100 == (year - 1 - era * 400) / 100 + era * 4);
    assert((year - 1) / 400 == (year - 1 - era * 400) / 400 + era);
    assert(year % 4 == (year - era * 400) % 4);
    assert(year % 100 == (year - era * 400) % 100);
    assert(year % 400 == (year - era * 400) % 400);
}

/// A day number has one date only.
pub proof fn law_dates_are_unique(a: (int, int, int), b: (int, int, int))
    requires
        is_date(a.0, a.1, a.2),
        is_date(b.0, b.1, b.2),
        day_number(a.0, a.1, a.2) == day_number(b.0, b.1, b.2),
    ensures
        a == b,
{
    if a.0 < b.0 {
        lemma_years_apart(a.0, b.0);
    } else if b.0 < a.0 {
        lemma_years_apart(b.0, a.0);
    }
}

/// A date comes before every date of a later year.
pub proof fn lemma_years_apart(y: int, later: int)
    requires
        y < later,
    ensures
        days_before_year(later) >= days_before_year(y) + 365 + (if is_leap(y) {
            1int
        } else {
            0
        }),
    decreases later - y,
{
    if later == y + 1 {
    } else {
        lemma_years_apart(y, later - 1);
        lemma_years_apart(later - 1, later);
    }
}

} // verus!
