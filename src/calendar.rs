//! Conversion of Unix-epoch seconds to a UTC civil date and time by integer
//! day-count arithmetic (days-from-epoch to era, year of era, day of year).
use vstd::arithmetic::div_mod::lemma_fundamental_div_mod_converse;
use vstd::prelude::*;

verus! {

/// Year, month, day, hour and minute (UTC) of the instant `secs` seconds
/// after 1970-01-01 00:00, counted in eras of 400 Gregorian years that
/// start on March 1st.
pub open spec fn civil_of(secs: nat) -> (nat, nat, nat, nat, nat) {
    let min = secs / 60;
    let hour = min / 60;
    let days = hour / 24;
    let z = days + 719468;
    let era = z / 146097;
    let doe = z % 146097;
    let yoe = year_of_era(doe as int);
    let doy = doe - (365 * yoe + yoe / 4 - yoe / 100);
    let mp = (5 * doy + 2) / 153;
    let d = doy - (153 * mp + 2) / 5 + 1;
    let mo = if mp < 10 {
        mp + 3
    } else {
        mp - 9
    };
    let y = yoe + era * 400;
    let y = if mo <= 2 {
        y + 1
    } else {
        y
    };
    (y as nat, mo as nat, d as nat, hour % 24, min % 60)
}

/// The year within its era of the `doe`-th day of that era.
pub open spec fn year_of_era(doe: int) -> int {
    (doe - doe / 1460 + doe / 36524 - doe / 146096) / 365
}

/// First day (within its era) of the year `yoe` of an era.
pub open spec fn first_day_of(yoe: int) -> int {
    365 * yoe + yoe / 4 - yoe / 100
}

/// The year of era found for a day falls on a year that has started no more
/// than 365 days before it, and 365 days only where that year (which ends in
/// February of the next calendar year) holds a February 29th.
proof fn lemma_day_of_year(doe: int)
    requires
        0 <= doe < 146097,
    ensures
        0 <= year_of_era(doe) <= 399,
        0 <= doe - first_day_of(year_of_era(doe)) <= 365,
        doe - first_day_of(year_of_era(doe)) == 365 ==> year_of_era(doe) + 1 == 400 || (
        (year_of_era(doe) + 1) % 4 == 0 && (year_of_era(doe) + 1) % 100 != 0),
{
    if doe == 146096 {
        assert(year_of_era(doe) == 399);
        assert(first_day_of(399) == 145731);
    } else {
        let b = doe / 36524;
        let r = doe % 36524;
        lemma_fundamental_div_mod_converse(doe, 36524, b, r);
        assert(doe == 36524 * b + r);
        assert(0 <= b <= 3);
        let q = r / 1461;
        let s = r % 1461;
        assert(r == 1461 * q + s);
        assert(0 <= q <= 24);
        let e = (24 * b + q + s) / 1460;
        let f = (24 * b + q + s) % 1460;
        assert(24 * b + q + s == 1460 * e + f);
        assert(0 <= e <= 1);
        lemma_fundamental_div_mod_converse(doe, 1460, 25 * b + q + e, f);
        lemma_fundamental_div_mod_converse(doe, 146096, 0, doe);
        let t = doe - doe / 1460 + doe / 36524 - doe / 146096;
        assert(t == 36500 * b + 1460 * q + s - e);
        assert(0 <= s - e <= 1459);
        let w = (s - e) / 365;
        let g = (s - e) % 365;
        assert(s - e == 365 * w + g);
        assert(0 <= w <= 3);
        lemma_fundamental_div_mod_converse(t, 365, 100 * b + 4 * q + w, g);
        let yoe = 100 * b + 4 * q + w;
        assert(year_of_era(doe) == yoe);
        lemma_fundamental_div_mod_converse(yoe, 4, 25 * b + q, w);
        lemma_fundamental_div_mod_converse(yoe, 100, b, 4 * q + w);
        assert(first_day_of(yoe) == 36524 * b + 1461 * q + 365 * w);
        if doe - first_day_of(yoe) == 365 {
            assert(w == 3 && s == 1460);
            assert(q <= 23);
            lemma_fundamental_div_mod_converse(yoe + 1, 4, 25 * b + q + 1, 0);
            lemma_fundamental_div_mod_converse(yoe + 1, 100, b, 4 * q + 4);
        }
    }
}

/// A leap year of the Gregorian calendar.
pub open spec fn is_leap(y: int) -> bool {
    y % 4 == 0 && (y % 100 != 0 || y % 400 == 0)
}

/// Number of days of month `m` (1 to 12) of year `y`.
pub open spec fn days_in_month(y: int, m: int) -> int {
    if m == 2 {
        if is_leap(y) {
            29
        } else {
            28
        }
    } else if m == 4 || m == 6 || m == 9 || m == 11 {
        30
    } else {
        31
    }
}

/// Days of year `y` before the first of month `m`.
pub open spec fn days_before_month(y: int, m: int) -> int
    decreases m,
{
    if m <= 1 {
        0
    } else {
        days_before_month(y, m - 1) + days_in_month(y, m - 1)
    }
}

/// Days from 1970-01-01 to January 1st of year `y` (from 1970 on).
pub open spec fn days_before_year(y: int) -> int
    decreases y - 1970,
{
    if y <= 1970 {
        0
    } else {
        days_before_year(y - 1) + if is_leap(y - 1) {
            366int
        } else {
            365int
        }
    }
}

/// Days from 1970-01-01 to the date `y`-`m`-`d`.
pub open spec fn days_from_civil(y: int, m: int, d: int) -> int {
    days_before_year(y) + days_before_month(y, m) + d - 1
}

/// Days from March 1st of year 0 to March 1st of year `y`.
spec fn march_days(y: int) -> int {
    365 * y + y / 4 - y / 100 + y / 400
}

proof fn lemma_march_days_step(y: int)
    requires
        y >= 1,
    ensures
        march_days(y) - march_days(y - 1) == if is_leap(y) {
            366int
        } else {
            365int
        },
{
    let x = y - 1;
    lemma_fundamental_div_mod_converse(x, 4, x / 4, x % 4);
    lemma_fundamental_div_mod_converse(x, 100, x / 100, x % 100);
    lemma_fundamental_div_mod_converse(x, 400, x / 400, x % 400);
    if x % 4 == 3 {
        lemma_fundamental_div_mod_converse(y, 4, x / 4 + 1, 0);
    } else {
        lemma_fundamental_div_mod_converse(y, 4, x / 4, x % 4 + 1);
    }
    if x % 100 == 99 {
        lemma_fundamental_div_mod_converse(y, 100, x / 100 + 1, 0);
    } else {
        lemma_fundamental_div_mod_converse(y, 100, x / 100, x % 100 + 1);
    }
    if x % 400 == 399 {
        lemma_fundamental_div_mod_converse(y, 400, x / 400 + 1, 0);
    } else {
        lemma_fundamental_div_mod_converse(y, 400, x / 400, x % 400 + 1);
    }
}

proof fn lemma_march_days_monotone(a: int, b: int)
    requires
        0 <= a <= b,
    ensures
        march_days(a) <= march_days(b),
    decreases b - a,
{
    if a < b {
        lemma_march_days_step(b);
        lemma_march_days_monotone(a, b - 1);
    }
}

proof fn lemma_days_before_year(y: int)
    requires
        y >= 1970,
    ensures
        days_before_year(y) == march_days(y - 1) + 306 - 719468,
    decreases y - 1970,
{
    if y > 1970 {
        lemma_days_before_year(y - 1);
        lemma_march_days_step(y - 1);
    } else {
        assert(march_days(1969) == 719162);
    }
}

proof fn lemma_era_start(era: int, yoe: int)
    requires
        era >= 0,
        0 <= yoe <= 399,
    ensures
        146097 * era + first_day_of(yoe) == march_days(400 * era + yoe),
{
    let y = 400 * era + yoe;
    lemma_fundamental_div_mod_converse(yoe, 4, yoe / 4, yoe % 4);
    lemma_fundamental_div_mod_converse(yoe, 100, yoe / 100, yoe % 100);
    lemma_fundamental_div_mod_converse(y, 4, 100 * era + yoe / 4, yoe % 4);
    lemma_fundamental_div_mod_converse(y, 100, 4 * era + yoe / 100, yoe % 100);
    lemma_fundamental_div_mod_converse(y, 400, era, yoe);
}

/// The date that `civil_of` gives is the Gregorian date, from 1970 on, of
/// the instant `secs` seconds after 1970-01-01 00:00 UTC: the day lies
/// within its month, and the date, hour and minute count back to the same
/// minute.
pub proof fn lemma_civil_of_is_gregorian(secs: nat)
    ensures
        ({
            let (y, mo, d, h, mi) = civil_of(secs);
            &&& y >= 1970
            &&& 1 <= mo <= 12
            &&& 1 <= d <= days_in_month(y as int, mo as int)
            &&& h < 24
            &&& mi < 60
            &&& days_from_civil(y as int, mo as int, d as int) * 86400 + h * 3600 + mi * 60 == secs
                - secs % 60
        }),
{
    let min = secs / 60;
    let hour = min / 60;
    let days = hour / 24;
    lemma_fundamental_div_mod_converse(secs as int, 60, min as int, (secs % 60) as int);
    lemma_fundamental_div_mod_converse(min as int, 60, hour as int, (min % 60) as int);
    lemma_fundamental_div_mod_converse(hour as int, 24, days as int, (hour % 24) as int);
    let z = days + 719468;
    let era = z / 146097;
    let doe = z % 146097;
    lemma_fundamental_div_mod_converse(z as int, 146097, era as int, doe as int);
    lemma_day_of_year(doe as int);
    let yoe = year_of_era(doe as int);
    let doy = doe - first_day_of(yoe);
    lemma_era_start(era as int, yoe);
    let ym = 400 * era + yoe;
    assert(z == march_days(ym) + doy);
    let mp = (5 * doy + 2) / 153;
    lemma_fundamental_div_mod_converse(5 * doy + 2, 153, mp, (5 * doy + 2) % 153);
    assert(0 <= mp <= 11);
    let (y, mo, d, h, mi) = civil_of(secs);
    reveal_with_fuel(days_before_month, 13);
    if mp < 10 {
        assert(y == ym && mo == mp + 3);
        if ym <= 1969 {
            lemma_march_days_monotone(ym, 1969);
            assert(march_days(1969) == 719162);
        }
        lemma_days_before_year(ym);
        lemma_march_days_step(ym);
        assert(days_before_month(ym, mp + 3) == 59 + (if is_leap(ym) {
            1int
        } else {
            0int
        }) + (153 * mp + 2) / 5) by {
            assert(mp == 0 || mp == 1 || mp == 2 || mp == 3 || mp == 4 || mp == 5 || mp == 6
                || mp == 7 || mp == 8 || mp == 9);
        }
        assert(d <= days_in_month(ym, mp + 3)) by {
            assert(mp == 0 || mp == 1 || mp == 2 || mp == 3 || mp == 4 || mp == 5 || mp == 6
                || mp == 7 || mp == 8 || mp == 9);
        }
    } else {
        assert(y == ym + 1 && mo == mp - 9);
        if ym + 1 <= 1969 {
            lemma_march_days_monotone(ym, 1968);
            assert(march_days(1968) == 718797);
        }
        lemma_days_before_year(ym + 1);
        if doy == 365 {
            let n = yoe + 1;
            lemma_fundamental_div_mod_converse(ym + 1, 4, 100 * era + n / 4, n % 4);
            lemma_fundamental_div_mod_converse(ym + 1, 100, 4 * era + n / 100, n % 100);
            lemma_fundamental_div_mod_converse(ym + 1, 400, era + n / 400, n % 400);
            assert(is_leap(ym + 1));
        }
        assert(mp == 10 || mp == 11);
    }
}

/// Splits `secs` seconds after the Unix epoch into the UTC year, month,
/// day, hour and minute.
pub fn secs_to_date(secs: u64) -> (r: (u64, u64, u64, u64, u64))
    ensures
        (r.0 as nat, r.1 as nat, r.2 as nat, r.3 as nat, r.4 as nat) == civil_of(secs as nat),
        r.0 >= 1970,
        1 <= r.1 <= 12,
        1 <= r.2 <= days_in_month(r.0 as int, r.1 as int),
        r.3 < 24,
        r.4 < 60,
        days_from_civil(r.0 as int, r.1 as int, r.2 as int) * 86400 + r.3 * 3600 + r.4 * 60 == secs
            - secs % 60,
{
    proof {
        lemma_civil_of_is_gregorian(secs as nat);
    }
    let min = secs / 60;
    let hour = min / 60;
    let days = hour / 24;
    let mi = min % 60;
    let h = hour % 24;

    let z = days + 719468;
    let era = z / 146097;
    let doe = z % 146097;
    proof {
        lemma_day_of_year(doe as int);
    }
    let yoe = (doe - doe / 1460 + doe / 36524 - doe / 146096) / 365;
    let y = yoe + era * 400;
    let doy = doe - (365 * yoe + yoe / 4 - yoe / 100);
    let mp = (5 * doy + 2) / 153;
    assert(153 * mp <= 5 * doy + 2 && 5 * doy + 2 < 153 * mp + 153) by (nonlinear_arith)
        requires
            mp == (5 * doy + 2) / 153,
    ;
    assert(mp <= 11);
    assert((153 * mp + 2) / 5 <= doy) by (nonlinear_arith)
        requires
            153 * mp <= 5 * doy + 2,
    ;
    let d = doy - (153 * mp + 2) / 5 + 1;
    assert(d <= 31) by (nonlinear_arith)
        requires
            5 * doy + 2 < 153 * mp + 153,
            d == doy - (153 * mp + 2) / 5 + 1,
    ;
    let mo = if mp < 10 {
        mp + 3
    } else {
        mp - 9
    };
    let y = if mo <= 2 {
        y + 1
    } else {
        y
    };

    (y, mo, d, h, mi)
}

} // verus!
