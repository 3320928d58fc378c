//! The civil calendar, from days and from seconds since the Unix epoch.
//!
//! Hand-rolled rather than pulling in a date crate for one function. UTC is
//! fine here: the date only bounds a "not in the future" filter, so being a few
//! hours off at a day boundary changes nothing a viewer would notice.

use crate::text;
use vstd::prelude::*;

verus! {

/// The Gregorian rule.
pub open spec fn is_leap(y: int) -> bool {
    y % 4 == 0 && (y % 100 != 0 || y % 400 == 0)
}

pub open spec fn days_in_month(y: int, m: int) -> int {
    if m == 2 {
        if is_leap(y) {
            29
        } else {
            28
        }
    } else if m == 4 || m == 6 || m == 9 || m == 11 {
        30
    } else {
        31
    }
}

pub open spec fn is_date(y: int, m: int, d: int) -> bool {
    1 <= m <= 12 && 1 <= d <= days_in_month(y, m)
}

/// The leap years from the year 1 on, before `y`.
pub open spec fn leap_years_before(y: int) -> int {
    (y - 1) / 4 - (y - 1) / 100 + (y - 1) / 400
}

/// The days of the months before one.
pub open spec fn days_before_month(y: int, m: int) -> int
    decreases m,
{
    if m <= 1 {
        0
    } else {
        days_before_month(y, m - 1) + days_in_month(y, m - 1)
    }
}

/// The days from the first of January 1970 to a date.
pub open spec fn day_number(y: int, m: int, d: int) -> int {
    365 * (y - 1970) + (leap_years_before(y) - leap_years_before(1970)) + days_before_month(y, m)
        + (d - 1)
}

/// A year of the day count is a year of the calendar.
pub proof fn years_add_up(y: int)
    ensures
        day_number(y + 1, 1, 1) - day_number(y, 1, 1) == (if is_leap(y) {
            366
        } else {
            365int
        }),
{
    assert(leap_years_before(y + 1) - leap_years_before(y) == (if is_leap(y) {
        1int
    } else {
        0
    })) by {
        let a = y / 4;
        let b = y / 100;
        let c = y / 400;
        assert((y - 1) / 4 == (if y % 4 == 0 {
            a - 1
        } else {
            a
        }));
        assert((y - 1) / 100 == (if y % 100 == 0 {
            b - 1
        } else {
            b
        }));
        assert((y - 1) / 400 == (if y % 400 == 0 {
            c - 1
        } else {
            c
        }));
        assert(y % 400 == 0 ==> y % 100 == 0);
        assert(y % 100 == 0 ==> y % 4 == 0);
    }
}

/// The days of the twelve months before each of them, by whether the year is a
/// leap year.
proof fn lemma_months(y: int)
    ensures
        days_before_month(y, 1) == 0,
        days_before_month(y, 2) == 31,
        days_before_month(y, 3) == 59 + (if is_leap(y) {
            1int
        } else {
            0
        }),
        forall|m: int|
            4 <= m <= 12 ==> #[trigger] days_before_month(y, m) == days_before_month(y, 3)
                + march_days(m - 3),
{
    reveal_with_fuel(days_before_month, 13);
    assert forall|m: int| 4 <= m <= 12 implies #[trigger] days_before_month(y, m)
        == days_before_month(y, 3) + march_days(m - 3) by {
        if m == 4 {
        } else if m == 5 {
        } else if m == 6 {
        } else if m == 7 {
        } else if m == 8 {
        } else if m == 9 {
        } else if m == 10 {
        } else if m == 11 {
        } else {
            assert(m == 12);
        }
    }
}

/// The days from the first of March to the first of the month that is `k`
/// months later.
spec fn march_days(k: int) -> int {
    (153 * k + 2) / 5
}

/// A date from its place in the four-hundred-year cycle that starts on the
/// first of March: the cycle, and the century, the four years, the year and the
/// day in it.
proof fn lemma_date(era: int, c: int, q: int, n: int, doy: int, mp: int, y: int, m: int, d: int)
    requires
        0 <= c <= 3,
        0 <= q <= 24,
        0 <= n <= 3,
        0 <= doy <= 365,
        doy == 365 ==> n == 3 && (q == 24 ==> c == 3),
        mp == (5 * doy + 2) / 153,
        d == doy - march_days(mp) + 1,
        m == (if mp < 10 {
            mp + 3
        } else {
            mp - 9
        }),
        y == 400 * era + 100 * c + 4 * q + n + (if mp < 10 {
            0int
        } else {
            1
        }),
    ensures
        is_date(y, m, d),
        day_number(y, m, d) == 146_097 * era + 36_524 * c + 1_461 * q + 365 * n + doy - 719_468,
{
    lemma_months(y);
    assert(0 <= mp <= 11);
    let base = 100 * c + 4 * q + n;
    if mp < 10 {
        // March to December: the leap day of the year is behind.
        let k = 400 * era + base;
        assert(y == k);
        assert((k - 1) / 4 == 100 * era + (base - 1) / 4);
        assert((k - 1) / 100 == 4 * era + (base - 1) / 100);
        assert((k - 1) / 400 == era + (base - 1) / 400);
        assert(k % 4 == base % 4 && k % 100 == base % 100 && k % 400 == base % 400);
        assert(base % 4 == n);
        assert(base % 100 == 4 * q + n);
        assert((base - 1) / 4 == 25 * c + q + (if n == 0 {
            -1int
        } else {
            0
        }));
        assert((base - 1) / 100 == c + (if q == 0 && n == 0 {
            -1int
        } else {
            0
        }));
        assert((base - 1) / 400 == (if base == 0 {
            -1int
        } else {
            0
        }));
        assert(base == 0 <==> c == 0 && q == 0 && n == 0);
        assert(is_leap(y) <==> n == 0 && (q != 0 || c == 0));
        assert(leap_years_before(1970) == 477);
        lemma_spread(doy, mp);
        assert(days_before_month(y, m) == days_before_month(y, 3) + march_days(m - 3)) by {
            if m == 3 {
                assert(march_days(0) == 0);
            }
        }
    } else {
        let k = 400 * era + base;
        assert(y == k + 1);
        assert(k / 4 == 100 * era + base / 4);
        assert(k / 100 == 4 * era + base / 100);
        assert(k / 400 == era + base / 400);
        assert((k + 1) % 4 == (base + 1) % 4);
        assert((k + 1) % 100 == (base + 1) % 100);
        assert((k + 1) % 400 == (base + 1) % 400);
        assert(base / 4 == 25 * c + q);
        assert(base / 100 == c);
        assert(base / 400 == 0);
        assert(leap_years_before(1970) == 477);
        lemma_spread(doy, mp);
        assert((base + 1) % 4 == 0 <==> n == 3);
        assert((base + 1) % 100 == 0 <==> q == 24 && n == 3);
        assert((base + 1) % 400 == 0 <==> c == 3 && q == 24 && n == 3);
    }
}

/// A month's days, counted from March.
proof fn lemma_spread(doy: int, mp: int)
    requires
        0 <= doy <= 365,
        mp == (5 * doy + 2) / 153,
    ensures
        march_days(mp) <= doy,
        mp < 11 ==> doy < march_days(mp + 1),
        mp == 0 || mp == 2 || mp == 4 || mp == 5 || mp == 7 || mp == 9 || mp == 10 ==> march_days(
            mp + 1,
        ) - march_days(mp) == 31,
        mp == 1 || mp == 3 || mp == 6 || mp == 8 ==> march_days(mp + 1) - march_days(mp) == 30,
        mp == 10 ==> march_days(mp) == 306,
        mp == 11 ==> march_days(mp) == 337,
{
    assert(0 <= mp <= 11);
    if mp == 0 {
    } else if mp == 1 {
    } else if mp == 2 {
    } else if mp == 3 {
    } else if mp == 4 {
    } else if mp == 5 {
    } else if mp == 6 {
    } else if mp == 7 {
    } else if mp == 8 {
    } else if mp == 9 {
    } else if mp == 10 {
    } else {
        assert(mp == 11);
    }
}

/// Days since the Unix epoch as a year, a month and a day.
pub fn civil_from_days(z: i64) -> (r: (i64, u32, u32))
    requires
        z + 719_468 <= i64::MAX,
        z + 719_468 - 146_096 >= i64::MIN,
    ensures
        is_date(r.0 as int, r.1 as int, r.2 as int),
        day_number(r.0 as int, r.1 as int, r.2 as int) == z,
{
    let z0: i64 = z + 719_468;
    let era: i64 = (if z0 >= 0 {
        z0
    } else {
        z0 - 146_096
    }) / 146_097;
    proof {
        lemma_era(z0 as int, era as int);
    }
    let doe: i64 = z0 - era * 146_097;
    let century: i64 = if doe / 36_524 > 3 {
        3
    } else {
        doe / 36_524
    };
    let doc: i64 = doe - century * 36_524;
    let quad: i64 = doc / 1_461;
    let doq: i64 = doc - quad * 1_461;
    let year: i64 = if doq / 365 > 3 {
        3
    } else {
        doq / 365
    };
    let doy: i64 = doq - year * 365;
    let mp: i64 = (5 * doy + 2) / 153;
    proof {
        lemma_spread(doy as int, mp as int);
    }
    let d: u32 = (doy - (153 * mp + 2) / 5 + 1) as u32;
    let m: u32 = (if mp < 10 {
        mp + 3
    } else {
        mp - 9
    }) as u32;
    let y: i64 = 400 * era + 100 * century + 4 * quad + year;
    proof {
        lemma_date(
            era as int,
            century as int,
            quad as int,
            year as int,
            doy as int,
            mp as int,
            y + (if mp < 10 {
                0int
            } else {
                1
            }),
            m as int,
            d as int,
        );
    }
    (
        if m <= 2 {
            y + 1
        } else {
            y
        },
        m,
        d,
    )
}

/// The division of the executable code rounds down.
proof fn lemma_era(z: int, era: int)
    requires
        era == (if z >= 0 {
            z / 146_097
        } else {
            -((146_096 - z) / 146_097)
        }),
    ensures
        era == z / 146_097,
        0 <= z - era * 146_097 <= 146_096,
{
}

// --- one day, one date ------------------------------------------------------------

proof fn lemma_month_starts(y: int, a: int, b: int)
    requires
        1 <= a < b <= 13,
    ensures
        days_before_month(y, a) + days_in_month(y, a) <= days_before_month(y, b),
    decreases b - a,
{
    if a + 1 < b {
        lemma_month_starts(y, a, b - 1);
    }
}

proof fn lemma_within_year(y: int, m: int, d: int)
    requires
        is_date(y, m, d),
    ensures
        day_number(y, 1, 1) <= day_number(y, m, d) < day_number(y + 1, 1, 1),
{
    years_add_up(y);
    lemma_month_starts(y, m, 13);
    assert(days_before_month(y, 13) == (if is_leap(y) {
        366
    } else {
        365int
    })) by {
        reveal_with_fuel(days_before_month, 14);
    }
    lemma_not_before(y, m);
    assert(days_before_month(y, 1) == 0);
    assert(days_before_month(y + 1, 1) == 0);
}

proof fn lemma_not_before(y: int, m: int)
    requires
        1 <= m <= 13,
    ensures
        days_before_month(y, m) >= 0,
    decreases m,
{
    if m > 1 {
        lemma_not_before(y, m - 1);
    }
}

proof fn lemma_year_starts(a: int, b: int)
    requires
        a <= b,
    ensures
        day_number(a, 1, 1) <= day_number(b, 1, 1),
    decreases b - a,
{
    if a < b {
        lemma_year_starts(a, b - 1);
        years_add_up(b - 1);
    }
}

/// A day has one date.
pub proof fn dates_are_unique(y: int, m: int, d: int, y2: int, m2: int, d2: int)
    requires
        is_date(y, m, d),
        is_date(y2, m2, d2),
        day_number(y, m, d) == day_number(y2, m2, d2),
    ensures
        y == y2,
        m == m2,
        d == d2,
{
    lemma_within_year(y, m, d);
    lemma_within_year(y2, m2, d2);
    if y < y2 {
        lemma_year_starts(y + 1, y2);
    } else if y2 < y {
        lemma_year_starts(y2 + 1, y);
    }
    if m < m2 {
        lemma_month_starts(y, m, m2);
    } else if m2 < m {
        lemma_month_starts(y, m2, m);
    }
}

/// The date of a day.
pub open spec fn date_of(days: int) -> (int, int, int) {
    choose|y: int, m: int, d: int|
        #![trigger day_number(y, m, d)]
        is_date(y, m, d) && day_number(y, m, d) == days
}

/// A day as `YYYY-MM-DD`.
pub open spec fn date_text(days: int) -> Seq<char> {
    let (y, m, d) = date_of(days);
    text::padded(text::decimal(y as nat), 4) + "-"@ + text::two_digits(m as nat) + "-"@
        + text::two_digits(d as nat)
}

/// Years from the epoch on are not negative.
proof fn lemma_year_from_epoch(y: int, m: int, d: int)
    requires
        is_date(y, m, d),
        day_number(y, m, d) >= 0,
    ensures
        y >= 1970,
{
    if y < 1970 {
        lemma_within_year(y, m, d);
        lemma_year_starts(y + 1, 1970);
        assert(days_before_month(1970, 1) == 0);
    }
}

/// The date at a number of seconds since the Unix epoch as `YYYY-MM-DD`, UTC.
pub fn today(unix_secs: u64) -> (r: String)
    requires
        unix_secs <= i64::MAX,
    ensures
        r@ == date_text(unix_secs as int / 86_400),
{
    let days: i64 = (unix_secs / 86_400) as i64;
    let (y, m, d) = civil_from_days(days);
    proof {
        let (y1, m1, d1) = date_of(days as int);
        assert(day_number(y as int, m as int, d as int) == days);
        dates_are_unique(y as int, m as int, d as int, y1, m1, d1);
        lemma_year_from_epoch(y as int, m as int, d as int);
    }
    let mut out = text::write_padded(y as u64, 4);
    let month = text::write_padded(m as u64, 2);
    let day = text::write_padded(d as u64, 2);
    text::push_str(&mut out, "-");
    text::push_all(&mut out, month.as_slice());
    text::push_str(&mut out, "-");
    text::push_all(&mut out, day.as_slice());
    text::string_of(out.as_slice())
}

/// Days are counted from the first of January 1970, one for each: to the next day
/// of the month, from its last to the first of the next, and from the last of
/// December to New Year. February has 29 days every fourth year, but in a hundredth
/// only every four hundredth.
pub proof fn days_follow_one_another(y: int, m: int, d: int)
    requires
        is_date(y, m, d),
    ensures
        day_number(1970, 1, 1) == 0,
        is_date(y, m, d + 1) ==> day_number(y, m, d + 1) == day_number(y, m, d) + 1,
        !is_date(y, m, d + 1) && m < 12 ==> day_number(y, m + 1, 1) == day_number(y, m, d) + 1,
        !is_date(y, m, d + 1) && m == 12 ==> day_number(y + 1, 1, 1) == day_number(y, m, d) + 1,
        m == 1 || m == 3 || m == 5 || m == 7 || m == 8 || m == 10 || m == 12 ==> (is_date(
            y,
            m,
            d + 1,
        ) <==> d < 31),
        m == 4 || m == 6 || m == 9 || m == 11 ==> (is_date(y, m, d + 1) <==> d < 30),
        m == 2 && y % 4 != 0 ==> (is_date(y, m, d + 1) <==> d < 28),
        m == 2 && y % 100 == 0 && y % 400 != 0 ==> (is_date(y, m, d + 1) <==> d < 28),
        m == 2 && y % 4 == 0 && y % 100 != 0 ==> (is_date(y, m, d + 1) <==> d < 29),
        m == 2 && y % 400 == 0 ==> (is_date(y, m, d + 1) <==> d < 29),
{
    years_add_up(y);
    reveal_with_fuel(days_before_month, 13);
    assert(y % 400 == 0 ==> y % 4 == 0);
}

} // verus!
