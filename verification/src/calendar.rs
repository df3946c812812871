use vstd::prelude::*;

verus! {

/// Whether `y` is a leap year of the proleptic Gregorian calendar.
pub open spec fn is_leap(y: int) -> bool {
    y % 4 == 0 && (y % 100 != 0 || y % 400 == 0)
}

/// The number of days of month `m` (1 to 12) of year `y`.
pub open spec fn month_len(y: int, m: int) -> int {
    if m == 2 {
        if is_leap(y) {
            29
        } else {
            28
        }
    } else if m == 4 || m == 6 || m == 9 || m == 11 {
        30
    } else {
        31
    }
}

/// The days of year `y` that come before the first of month `m`.
pub open spec fn days_before_month(y: int, m: int) -> int
    decreases m,
{
    if m <= 1 {
        0
    } else {
        days_before_month(y, m - 1) + month_len(y, m - 1)
    }
}

/// The number of leap years among the years before `y`, counted from a fixed
/// origin (the difference between two values is what matters).
pub open spec fn leaps_before(y: int) -> int {
    (y - 1) / 4 - (y - 1) / 100 + (y - 1) / 400
}

/// The days from 1970-01-01 to the first of January of year `y`.
pub open spec fn days_before_year(y: int) -> int {
    365 * (y - 1970) + leaps_before(y) - leaps_before(1970)
}

/// The number of the day `y-m-d`, counted from 1970-01-01 (day 0).
pub open spec fn days_from_civil(y: int, m: int, d: int) -> int {
    days_before_year(y) + days_before_month(y, m) + d - 1
}

/// Whether `y-m-d` names a day of the calendar.
pub open spec fn valid_date(y: int, m: int, d: int) -> bool {
    1 <= m <= 12 && 1 <= d <= month_len(y, m)
}

/// The date of day `days` after 1970-01-01, computed by eras of 400 years that
/// begin in March.
pub open spec fn civil_parts(days: int) -> (int, int, int) {
    let z = days + 719468;
    let era = z / 146097;
    let doe = z % 146097;
    let yoe = (doe - doe / 1460 + doe / 36524 - doe / 146096) / 365;
    let y = yoe + era * 400;
    let doy = doe - (365 * yoe + yoe / 4 - yoe / 100);
    let mp = (5 * doy + 2) / 153;
    let d = doy - (153 * mp + 2) / 5 + 1;
    let m = if mp < 10 {
        mp + 3
    } else {
        mp - 9
    };
    (if m <= 2 {
        y + 1
    } else {
        y
    }, m, d)
}

/// Within an era, the year `yoe` (from March) begins on day `365 * yoe + yoe / 4 - yoe / 100`
/// and has one extra day when the February it ends with is a leap one.
proof fn lemma_year_of_era(doe: u32)
    requires
        doe < 146097,
    ensures
        ({
            let yoe = (doe - doe / 1460 + doe / 36524 - doe / 146096) / 365;
            let start = 365 * yoe + yoe / 4 - yoe / 100;
            let extra: u32 = if (yoe + 1) % 4 == 0 && ((yoe + 1) % 100 != 0 || yoe == 399) {
                1
            } else {
                0
            };
            &&& yoe < 400
            &&& start <= doe
            &&& doe - start < 365 + extra
        }),
{
    assert({
        let yoe = (doe - doe / 1460 + doe / 36524 - doe / 146096) / 365;
        let start = 365 * yoe + yoe / 4 - yoe / 100;
        let extra: u32 = if (yoe + 1) % 4 == 0 && ((yoe + 1) % 100 != 0 || yoe == 399) {
            1
        } else {
            0
        };
        &&& yoe < 400
        &&& start <= doe
        &&& doe - start < 365 + extra
    }) by (bit_vector)
        requires
            doe < 146097,
    ;
}


/// Within a year that begins in March, day `doy` falls in month `mp` (0 for
/// March) which begins on day `(153 * mp + 2) / 5`.
proof fn lemma_month_of_year(doy: u32)
    requires
        doy <= 365,
    ensures
        ({
            let mp = (5 * doy + 2) / 153;
            let start = (153 * mp + 2) / 5;
            let len: u32 = if mp == 11 {
                29
            } else if mp == 1 || mp == 3 || mp == 6 || mp == 8 {
                30
            } else {
                31
            };
            &&& mp <= 11
            &&& start <= doy
            &&& doy - start < len
        }),
{
    assert({
        let mp = (5 * doy + 2) / 153;
        let start = (153 * mp + 2) / 5;
        let len: u32 = if mp == 11 {
            29
        } else if mp == 1 || mp == 3 || mp == 6 || mp == 8 {
            30
        } else {
            31
        };
        &&& mp <= 11
        &&& start <= doy
        &&& doy - start < len
    }) by (bit_vector)
        requires
            doy <= 365,
    ;
}

/// Floor division by a positive constant steps by one exactly at multiples.
proof fn lemma_floor_step(x: int, q: int)
    requires
        q > 0,
    ensures
        x / q - (x - 1) / q == if x % q == 0 {
            1int
        } else {
            0int
        },
{
    vstd::arithmetic::div_mod::lemma_fundamental_div_mod(x, q);
    vstd::arithmetic::div_mod::lemma_fundamental_div_mod(x - 1, q);
    let a = x / q;
    assert((a - 1) * q == q * a - q) by (nonlinear_arith);
    assert(a * q == q * a) by (nonlinear_arith);
    if x % q == 0 {
        vstd::arithmetic::div_mod::lemma_fundamental_div_mod_converse(x - 1, q, x / q - 1, q - 1);
    } else {
        vstd::arithmetic::div_mod::lemma_fundamental_div_mod_converse(
            x - 1,
            q,
            x / q,
            x % q - 1,
        );
    }
}

/// Adding whole multiples of `q` adds to the quotient and leaves the remainder.
proof fn lemma_floor_shift(x: int, q: int, k: int)
    requires
        q > 0,
    ensures
        (x + k * q) / q == x / q + k,
        (x + k * q) % q == x % q,
{
    vstd::arithmetic::div_mod::lemma_fundamental_div_mod(x, q);
    let a = x / q;
    assert((a + k) * q == q * a + k * q) by (nonlinear_arith);
    vstd::arithmetic::div_mod::lemma_fundamental_div_mod_converse(
        x + k * q,
        q,
        x / q + k,
        x % q,
    );
}

/// Each year adds one to the count of leap years exactly when it is a leap year.
pub proof fn lemma_leaps_step(y: int)
    ensures
        leaps_before(y + 1) - leaps_before(y) == if is_leap(y) {
            1int
        } else {
            0int
        },
{
    lemma_floor_step(y, 4);
    lemma_floor_step(y, 100);
    lemma_floor_step(y, 400);
    lemma_floor_shift(y % 400, 4, 100 * (y / 400));
    vstd::arithmetic::div_mod::lemma_fundamental_div_mod(y, 400);
    assert(y % 4 == (y % 400) % 4) by {
        vstd::arithmetic::div_mod::lemma_fundamental_div_mod(y, 400);
        lemma_floor_shift(y % 400, 4, 100 * (y / 400));
    }
    assert(y % 100 == (y % 400) % 100) by {
        vstd::arithmetic::div_mod::lemma_fundamental_div_mod(y, 400);
        lemma_floor_shift(y % 400, 100, 4 * (y / 400));
    }
}


/// The days before each month, in closed form: from March on, the months
/// follow the pattern `(153 * k + 2) / 5` counted from March.
proof fn lemma_days_before_month(y: int, m: int)
    requires
        1 <= m <= 12,
    ensures
        days_before_month(y, m) == if m >= 3 {
            59 + (if is_leap(y) {
                1int
            } else {
                0int
            }) + (153 * (m - 3) + 2) / 5
        } else if m == 2 {
            31
        } else {
            0
        },
{
    reveal_with_fuel(days_before_month, 12);
}

/// Moving a year by whole eras of 400 years moves the leap count by 97 per era
/// and keeps whether it is a leap year.
proof fn lemma_era_shift(y: int, era: int)
    ensures
        leaps_before(y + 400 * era) == leaps_before(y) + 97 * era,
        is_leap(y + 400 * era) == is_leap(y),
{
    lemma_floor_shift(y - 1, 4, 100 * era);
    lemma_floor_shift(y - 1, 100, 4 * era);
    lemma_floor_shift(y - 1, 400, era);
    lemma_floor_shift(y, 4, 100 * era);
    lemma_floor_shift(y, 100, 4 * era);
    lemma_floor_shift(y, 400, era);
}

/// `civil_parts` gives a real date, and that date is day `days`.
pub proof fn lemma_civil_parts(days: int)
    ensures
        ({
            let (y, m, d) = civil_parts(days);
            valid_date(y, m, d) && days_from_civil(y, m, d) == days
        }),
{
    let z = days + 719468;
    let era = z / 146097;
    let doe = z % 146097;
    vstd::arithmetic::div_mod::lemma_fundamental_div_mod(z, 146097);
    assert(0 <= doe < 146097);
    lemma_year_of_era(doe as u32);
    let yoe = (doe - doe / 1460 + doe / 36524 - doe / 146096) / 365;
    let start = 365 * yoe + yoe / 4 - yoe / 100;
    let y0 = yoe + era * 400;
    let doy = doe - start;
    assert(0 <= yoe < 400);
    assert(0 <= doy <= 365);
    lemma_month_of_year(doy as u32);
    let mp = (5 * doy + 2) / 153;
    let mstart = (153 * mp + 2) / 5;
    let d = doy - mstart + 1;
    let m = if mp < 10 {
        mp + 3
    } else {
        mp - 9
    };
    let (ry, rm, rd) = civil_parts(days);
    assert(rm == m && rd == d);
    lemma_days_before_month(ry, m);
    lemma_leaps_step(yoe);
    lemma_era_shift(yoe, era);
    lemma_era_shift(yoe + 1, era);
    assert(leaps_before(1970) == 477);
    assert(z == 146097 * era + doe);
    if m >= 3 {
        assert(ry == yoe + 400 * era);
        assert(leaps_before(yoe + 1) == yoe / 4 - yoe / 100);
        assert(days_from_civil(ry, rm, rd) == days);
        assert(valid_date(ry, rm, rd));
    } else {
        assert(ry == (yoe + 1) + 400 * era);
        assert(leaps_before(yoe + 1) == yoe / 4 - yoe / 100);
        assert(is_leap(yoe + 1) == ((yoe + 1) % 4 == 0 && ((yoe + 1) % 100 != 0 || yoe == 399)));
        assert(days_from_civil(ry, rm, rd) == days);
        assert(valid_date(ry, rm, rd));
    }
}


/// The count of leap years never decreases.
proof fn lemma_leaps_monotone(a: int, b: int)
    requires
        a <= b,
    ensures
        leaps_before(a) <= leaps_before(b),
    decreases b - a,
{
    if a < b {
        lemma_leaps_step(b - 1);
        lemma_leaps_monotone(a, b - 1);
    }
}

/// The days of a valid date lie inside its year, and a later month of the same
/// year begins after the earlier one has ended.
proof fn lemma_within_year(y: int, m1: int, m2: int)
    requires
        1 <= m1 < m2 <= 12,
    ensures
        days_before_month(y, m1) + month_len(y, m1) <= days_before_month(y, m2),
        days_before_month(y, m2) + month_len(y, m2) <= 365 + (if is_leap(y) {
            1int
        } else {
            0int
        }),
{
    lemma_days_before_month(y, m1);
    lemma_days_before_month(y, m2);
}

/// The day number of a valid date lies inside its year.
proof fn lemma_inside_year(y: int, m: int, d: int)
    requires
        valid_date(y, m, d),
    ensures
        days_before_year(y) <= days_from_civil(y, m, d) < days_before_year(y + 1),
{
    lemma_leaps_step(y);
    lemma_days_before_month(y, m);
    if m < 12 {
        lemma_within_year(y, m, 12);
    } else {
        lemma_within_year(y, 1, 12);
    }
    assert(days_before_month(y, m) >= 0);
    assert(days_before_month(y, m) + month_len(y, m) <= 365 + (if is_leap(y) { 1int } else { 0int }));
}

/// Two valid dates with the same day number are the same date.
pub proof fn lemma_civil_unique(y1: int, m1: int, d1: int, y2: int, m2: int, d2: int)
    requires
        valid_date(y1, m1, d1),
        valid_date(y2, m2, d2),
        days_from_civil(y1, m1, d1) == days_from_civil(y2, m2, d2),
    ensures
        y1 == y2 && m1 == m2 && d1 == d2,
{
    lemma_inside_year(y1, m1, d1);
    lemma_inside_year(y2, m2, d2);
    assert(valid_date(y1, m1, d1));
    assert(valid_date(y2, m2, d2));
    if y1 < y2 {
        lemma_leaps_monotone(y1 + 1, y2);
        assert(false);
    } else if y2 < y1 {
        lemma_leaps_monotone(y2 + 1, y1);
        assert(false);
    }
    if m1 < m2 {
        lemma_within_year(y1, m1, m2);
    } else if m2 < m1 {
        lemma_within_year(y1, m2, m1);
    }
}

/// The date of day `days` after 1970-01-01 (day 0).
pub open spec fn civil_date(days: int) -> (int, int, int) {
    choose|t: (int, int, int)| valid_date(t.0, t.1, t.2) && days_from_civil(t.0, t.1, t.2) == days
}

/// Every day number has its date, the date `civil_parts` computes.
pub proof fn lemma_civil_date(days: int)
    ensures
        valid_date(civil_date(days).0, civil_date(days).1, civil_date(days).2),
        days_from_civil(civil_date(days).0, civil_date(days).1, civil_date(days).2) == days,
        civil_date(days) == civil_parts(days),
{
    lemma_civil_parts(days);
    let t = civil_parts(days);
    assert(valid_date(t.0, t.1, t.2) && days_from_civil(t.0, t.1, t.2) == days);
    let c = civil_date(days);
    lemma_civil_unique(c.0, c.1, c.2, t.0, t.1, t.2);
}

/// A year has 365 days, and 366 when it is a leap year.
pub proof fn lemma_year_length(y: int)
    ensures
        days_before_year(y + 1) - days_before_year(y) == if is_leap(y) {
            366int
        } else {
            365int
        },
{
    lemma_leaps_step(y);
}

} // verus!
