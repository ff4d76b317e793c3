//! Calendar dates and the pluggable "less than six months" window rule.

use vstd::prelude::*;
use vstd::string::*;
use crate::text::{
    all_digits, decimal, is_white, lemma_decimal, lemma_pad_zeros, pad_zeros, trim_end, trim_start,
    lemma_digits_value_bound, pow10, debug_str, debug_text, digit_value, digits_value, int_text, is_digit, padded_int,
    res_view, str_chars, trim, trim_bounds, write_int, write_padded,
};

verus! {

/// A proleptic Gregorian calendar date.
#[derive(Clone, Copy, Debug, PartialEq, Eq, Structural, PartialOrd, Ord, Hash)]
pub struct Date {
    pub year: i32,
    pub month: u32,
    pub day: u32,
}

pub open spec fn spec_is_leap_year(year: int) -> bool {
    (year % 4 == 0 && year % 100 != 0) || year % 400 == 0
}

pub open spec fn spec_days_in_month(year: int, month: int) -> int {
    if month == 1 || month == 3 || month == 5 || month == 7 || month == 8 || month == 10
        || month == 12 {
        31
    } else if month == 4 || month == 6 || month == 9 || month == 11 {
        30
    } else if month == 2 {
        if spec_is_leap_year(year) {
            29
        } else {
            28
        }
    } else {
        0
    }
}

/// A day that exists in the proleptic Gregorian calendar of year `y` (any integer year).
pub open spec fn valid_ymd(y: int, m: int, d: int) -> bool {
    1 <= m <= 12 && 1 <= d <= spec_days_in_month(y, m)
}

/// Days from 1970-01-01 to year `y`, month `m`, day `d`, counting years from
/// March so that the leap day is the last day of a year.
pub open spec fn civil_days(y: int, m: int, d: int) -> int {
    let yy = if m <= 2 { y - 1 } else { y };
    let mp = if m > 2 { m - 3 } else { m + 9 };
    365 * yy + yy / 4 - yy / 100 + yy / 400 + (153 * mp + 2) / 5 + d - 1 - 719468
}

/// Chronological order of dates: by year, then month, then day.
pub open spec fn date_lt(a: Date, b: Date) -> bool {
    a.year < b.year || (a.year == b.year && (a.month < b.month || (a.month == b.month
        && a.day < b.day)))
}

pub open spec fn date_le(a: Date, b: Date) -> bool {
    date_lt(a, b) || a == b
}

impl Date {
    /// A day that exists in the calendar.
    pub open spec fn is_valid(self) -> bool {
        valid_ymd(self.year as int, self.month as int, self.day as int)
    }

    /// What `Date::new` accepts: a valid day of the years 1 to 9999.
    pub open spec fn in_range(self) -> bool {
        1 <= self.year <= 9999 && self.is_valid()
    }

    pub open spec fn spec_day_number(self) -> int {
        civil_days(self.year as int, self.month as int, self.day as int)
    }
}

#[verifier::spinoff_prover]
pub fn is_leap_year(year: i32) -> (r: bool)
    ensures
        r == spec_is_leap_year(year as int),
{
    let y: i64 = if year < 0 {
        -(year as i64)
    } else {
        year as i64
    };
    assert((y % 4 == 0) == ((year as int) % 4 == 0));
    assert((y % 100 == 0) == ((year as int) % 100 == 0));
    assert((y % 400 == 0) == ((year as int) % 400 == 0));
    (y % 4 == 0 && y % 100 != 0) || y % 400 == 0
}

pub fn days_in_month(year: i32, month: u32) -> (r: u32)
    ensures
        r == spec_days_in_month(year as int, month as int),
{
    match month {
        1 | 3 | 5 | 7 | 8 | 10 | 12 => 31,
        4 | 6 | 9 | 11 => 30,
        2 => if is_leap_year(year) {
            29
        } else {
            28
        },
        _ => 0,
    }
}

/// Whether `a` comes strictly before `b`.
pub fn date_before(a: Date, b: Date) -> (r: bool)
    ensures
        r == date_lt(a, b),
{
    a.year < b.year || (a.year == b.year && (a.month < b.month || (a.month == b.month && a.day
        < b.day)))
}

/// The message `Date::new` gives for a year, month and day it refuses.
pub open spec fn date_new_message(year: int, month: int, day: int) -> Seq<char> {
    if !(1 <= year <= 9999) {
        "year "@ + int_text(year) + " out of range 1..=9999"@
    } else if !(1 <= month <= 12) {
        "month "@ + int_text(month) + " out of range"@
    } else {
        "day "@ + int_text(day) + " does not exist in "@ + int_text(year) + "-"@ + padded_int(
            month,
            2,
        )
    }
}

/// What `Date::new` gives: the date when it is in range, else the message.
pub open spec fn spec_date_new(year: i32, month: u32, day: u32) -> Result<Date, Seq<char>> {
    let d = Date { year, month, day };
    if d.in_range() {
        Ok(d)
    } else {
        Err(date_new_message(year as int, month as int, day as int))
    }
}

impl Date {
    pub fn new(year: i32, month: u32, day: u32) -> (r: Result<Date, String>)
        ensures
            res_view(r) == spec_date_new(year, month, day),
    {
        if !(1 <= year && year <= 9999) {
            let mut e = String::new();
            e.append("year ");
            write_int(&mut e, year as i128);
            e.append(" out of range 1..=9999");
            return Err(e);
        }
        if !(1 <= month && month <= 12) {
            let mut e = String::new();
            e.append("month ");
            write_int(&mut e, month as i128);
            e.append(" out of range");
            return Err(e);
        }
        if day == 0 || day > days_in_month(year, month) {
            let mut e = String::new();
            e.append("day ");
            write_int(&mut e, day as i128);
            e.append(" does not exist in ");
            write_int(&mut e, year as i128);
            e.append("-");
            write_padded(&mut e, month as i128, 2);
            return Err(e);
        }
        Ok(Date { year, month, day })
    }
}

proof fn lemma_hoist(x: int, j: int, d: int)
    requires
        d > 0,
    ensures
        (x + j * d) / d == x / d + j,
        (x + j * d) % d == x % d,
{
    vstd::arithmetic::div_mod::lemma_hoist_over_denominator(x, j, d as nat);
    vstd::arithmetic::div_mod::lemma_mod_multiples_vanish(j, x, d);
    assert(j * d == d * j) by (nonlinear_arith);
}

/// The four-century split behind the day count: a year `y = 400 * era + yoe`
/// contributes `146097` days per era plus those of the remaining `yoe` years.
proof fn lemma_era_split(y: int, era: int, yoe: int)
    requires
        y == 400 * era + yoe,
        0 <= yoe < 400,
    ensures
        y / 400 == era,
        365 * y + y / 4 - y / 100 + y / 400 == era * 146097 + 365 * yoe + yoe / 4 - yoe / 100,
{
    lemma_hoist(yoe, era, 400);
    lemma_hoist(yoe, 100 * era, 4);
    lemma_hoist(yoe, 4 * era, 100);
    assert(yoe / 400 == 0);
}

impl Date {
    /// Days since 1970-01-01 (negative before).
    pub fn day_number(self) -> (r: i64)
        ensures
            r == self.spec_day_number(),
    {
        let y: i64 = self.year as i64 - if self.month <= 2 {
            1
        } else {
            0
        };
        let era: i64 = if y >= 0 {
            y / 400
        } else {
            -((-y + 399) / 400)
        };
        proof {
            let e = (y as int) / 400;
            let r = (y as int) % 400;
            if y < 0 {
                lemma_hoist(399 - r, -e, 400);
                assert(-y + 399 == (399 - r) + (-e) * 400);
            }
            assert(era == e);
        }
        let yoe = y - era * 400;
        let m = self.month as i64;
        let mp: i64 = if m > 2 {
            m - 3
        } else {
            m + 9
        };
        let doy = (153 * mp + 2) / 5 + self.day as i64 - 1;
        let doe = yoe * 365 + yoe / 4 - yoe / 100 + doy;
        proof {
            lemma_era_split(y as int, era as int, yoe as int);
        }
        era * 146097 + doe - 719468
    }
}

proof fn lemma_div_step(x: int, k: int)
    requires
        k > 0,
    ensures
        x / k - (x - 1) / k == (if x % k == 0 { 1int } else { 0int }),
{
    let q = x / k;
    let r = x % k;
    assert(x == r + q * k) by {
        vstd::arithmetic::div_mod::lemma_fundamental_div_mod(x, k);
        assert(k * q == q * k) by (nonlinear_arith);
    }
    vstd::arithmetic::div_mod::lemma_mod_bound(x, k);
    lemma_hoist(r, q, k);
    if r >= 1 {
        lemma_hoist(r - 1, q, k);
        vstd::arithmetic::div_mod::lemma_basic_div(r - 1, k);
    } else {
        lemma_hoist(k - 1, q - 1, k);
        vstd::arithmetic::div_mod::lemma_basic_div(k - 1, k);
        assert(x - 1 == (k - 1) + (q - 1) * k) by (nonlinear_arith)
            requires
                x == r + q * k,
                r == 0,
        ;
    }
}

/// March starts 28 days after February, or 29 in a leap year.
proof fn lemma_february(y: int)
    ensures
        civil_days(y, 3, 1) == civil_days(y, 2, 1) + spec_days_in_month(y, 2),
{
    lemma_div_step(y, 4);
    lemma_div_step(y, 100);
    lemma_div_step(y, 400);
    let a = civil_days(y, 3, 1);
    let b = civil_days(y, 2, 1);
    assert(a == 365 * y + y / 4 - y / 100 + y / 400 - 719468);
    assert(b == 365 * (y - 1) + (y - 1) / 4 - (y - 1) / 100 + (y - 1) / 400 + 337 - 719468);
}

/// Each month starts where the previous one ends.
proof fn lemma_month_step(y: int, m: int)
    requires
        1 <= m <= 11,
    ensures
        civil_days(y, m + 1, 1) == civil_days(y, m, 1) + spec_days_in_month(y, m),
{
    if m == 2 {
        lemma_february(y);
    } else if m == 1 {
    } else if m == 3 {
    } else if m == 4 {
    } else if m == 5 {
    } else if m == 6 {
    } else if m == 7 {
    } else if m == 8 {
    } else if m == 9 {
    } else if m == 10 {
    } else {
    }
}

/// A year starts where December of the previous one ends.
proof fn lemma_year_step(y: int)
    ensures
        civil_days(y + 1, 1, 1) == civil_days(y, 12, 1) + 31,
{
}

/// A month's days all come after the month's first day and before the first
/// day of any later month of the same year.
proof fn lemma_month_starts_ordered(y: int, m1: int, m2: int)
    requires
        1 <= m1 < m2 <= 12,
    ensures
        civil_days(y, m1, 1) + spec_days_in_month(y, m1) <= civil_days(y, m2, 1),
    decreases m2 - m1,
{
    lemma_month_step(y, m1);
    if m1 + 1 < m2 {
        lemma_month_starts_ordered(y, m1 + 1, m2);
    }
}

/// Every valid day of year `y` lies between the start of `y` and the start of `y + 1`.
proof fn lemma_day_within_year(y: int, m: int, d: int)
    requires
        valid_ymd(y, m, d),
    ensures
        civil_days(y, 1, 1) <= civil_days(y, m, d) < civil_days(y + 1, 1, 1),
{
    if m > 1 {
        lemma_month_starts_ordered(y, 1, m);
    }
    if m < 12 {
        lemma_month_starts_ordered(y, m, 12);
    }
    lemma_year_step(y);
}

/// Years start in order.
proof fn lemma_year_starts_ordered(y1: int, y2: int)
    requires
        y1 < y2,
    ensures
        civil_days(y1 + 1, 1, 1) <= civil_days(y2, 1, 1),
    decreases y2 - y1,
{
    if y1 + 1 < y2 {
        lemma_day_within_year(y1 + 1, 1, 1);
        lemma_year_starts_ordered(y1 + 1, y2);
    }
}

/// On valid days the day count is strictly increasing in calendar order.
proof fn lemma_civil_days_increasing(y1: int, m1: int, d1: int, y2: int, m2: int, d2: int)
    requires
        valid_ymd(y1, m1, d1),
        valid_ymd(y2, m2, d2),
        y1 < y2 || (y1 == y2 && (m1 < m2 || (m1 == m2 && d1 < d2))),
    ensures
        civil_days(y1, m1, d1) < civil_days(y2, m2, d2),
{
    if y1 < y2 {
        lemma_day_within_year(y1, m1, d1);
        lemma_day_within_year(y2, m2, d2);
        lemma_year_starts_ordered(y1, y2);
    } else if m1 < m2 {
        lemma_month_starts_ordered(y1, m1, m2);
    }
}

/// Chronological order and day numbers agree on valid dates: one date comes
/// before another exactly when its day number is smaller.
pub proof fn law_day_number_order(a: Date, b: Date)
    requires
        a.is_valid(),
        b.is_valid(),
    ensures
        date_lt(a, b) <==> a.spec_day_number() < b.spec_day_number(),
        a == b <==> a.spec_day_number() == b.spec_day_number(),
{
    if date_lt(a, b) {
        lemma_civil_days_increasing(
            a.year as int, a.month as int, a.day as int, b.year as int, b.month as int,
            b.day as int);
    } else if date_lt(b, a) {
        lemma_civil_days_increasing(
            b.year as int, b.month as int, b.day as int, a.year as int, a.month as int,
            a.day as int);
    }
}

/// Days from March 1 of year 0 of a 400-year era to March 1 of year `yoe` of it.
pub open spec fn era_year_start(yoe: int) -> int {
    365 * yoe + yoe / 4 - yoe / 100
}

/// Days from March 1 to the first day of month `mp` counted from March (0 = March).
pub open spec fn march_month_start(mp: int) -> int {
    (153 * mp + 2) / 5
}

/// The valid day whose day number is `z`, as (year, month, day).
pub open spec fn spec_civil_from_days(z: int) -> (int, int, int) {
    choose|t: (int, int, int)| valid_ymd(t.0, t.1, t.2) && civil_days(t.0, t.1, t.2) == z
}

/// Two valid days with the same day count are the same day.
proof fn lemma_civil_days_injective(y1: int, m1: int, d1: int, y2: int, m2: int, d2: int)
    requires
        valid_ymd(y1, m1, d1),
        valid_ymd(y2, m2, d2),
        civil_days(y1, m1, d1) == civil_days(y2, m2, d2),
    ensures
        y1 == y2 && m1 == m2 && d1 == d2,
{
    if y1 < y2 || (y1 == y2 && (m1 < m2 || (m1 == m2 && d1 < d2))) {
        lemma_civil_days_increasing(y1, m1, d1, y2, m2, d2);
    } else if y2 < y1 || (y1 == y2 && (m2 < m1 || (m1 == m2 && d2 < d1))) {
        lemma_civil_days_increasing(y2, m2, d2, y1, m1, d1);
    }
}

/// Once one valid day has day count `z`, the chosen one is that day.
proof fn lemma_civil_from_days_is(z: int, y: int, m: int, d: int)
    requires
        valid_ymd(y, m, d),
        civil_days(y, m, d) == z,
    ensures
        spec_civil_from_days(z) == (y, m, d),
{
    let w = (y, m, d);
    assert(valid_ymd(w.0, w.1, w.2) && civil_days(w.0, w.1, w.2) == z);
    let t = spec_civil_from_days(z);
    assert(valid_ymd(t.0, t.1, t.2) && civil_days(t.0, t.1, t.2) == z);
    lemma_civil_days_injective(t.0, t.1, t.2, y, m, d);
}

/// Lengths of the months counted from March: each is the gap between two starts.
proof fn lemma_march_month_lengths(y: int, mp: int)
    requires
        0 <= mp <= 10,
    ensures
        march_month_start(mp + 1) - march_month_start(mp) == spec_days_in_month(
            y,
            if mp < 10 { mp + 3 } else { mp - 9 },
        ),
        march_month_start(11) == 337,
{
    if mp == 0 {
    } else if mp == 1 {
    } else if mp == 2 {
    } else if mp == 3 {
    } else if mp == 4 {
    } else if mp == 5 {
    } else if mp == 6 {
    } else if mp == 7 {
    } else if mp == 8 {
    } else if mp == 9 {
    } else {
    }
}

/// Length of the March-based year `yoe` of an era: 366 when the following
/// January's year is a leap year.
proof fn lemma_era_year_length(era: int, yoe: int)
    requires
        0 <= yoe < 399,
    ensures
        era_year_start(yoe + 1) - era_year_start(yoe) == 365 + (if spec_is_leap_year(
            400 * era + yoe + 1,
        ) {
            1int
        } else {
            0int
        }),
{
    lemma_div_step(yoe + 1, 4);
    lemma_div_step(yoe + 1, 100);
    lemma_hoist(yoe + 1, 100 * era, 4);
    lemma_hoist(yoe + 1, 4 * era, 100);
    lemma_hoist(yoe + 1, era, 400);
    vstd::arithmetic::div_mod::lemma_small_mod((yoe + 1) as nat, 400);
}

impl Date {
    /// Inverse of [`Date::day_number`].
    #[verifier::spinoff_prover]
    #[verifier::rlimit(40)]
    pub fn from_day_number(z: i64) -> (r: Date)
        requires
            z <= i64::MAX - 719468,
        ensures
            ({
                let t = spec_civil_from_days(z as int);
                &&& r.year == t.0 as i32
                &&& r.month == t.1
                &&& r.day == t.2
                &&& valid_ymd(t.0, t.1, t.2)
                &&& civil_days(t.0, t.1, t.2) == z
            }),
    {
        let zz = z + 719468;
        let era: i64 = if zz >= 0 {
            zz / 146097
        } else {
            -((-zz + 146096) / 146097)
        };
        proof {
            let e = (zz as int) / 146097;
            let r = (zz as int) % 146097;
            if zz < 0 {
                lemma_hoist(146096 - r, -e, 146097);
                assert(-zz + 146096 == (146096 - r) + (-e) * 146097);
            }
            assert(era == e);
            lemma_hoist(r, e, 146097);
        }
        let doe = zz - era * 146097;
        assert(0 <= doe <= 146096);
        let mut yoe = (doe - doe / 1460 + doe / 36524 - doe / 146096) / 365;
        // The estimate is exact; the two scans below make the bounds explicit.
        while yoe > 399 || (yoe > 0 && 365 * yoe + yoe / 4 - yoe / 100 > doe)
            invariant
                0 <= yoe <= 146096,
                0 <= doe <= 146096,
            decreases yoe,
        {
            yoe = yoe - 1;
        }
        while yoe < 399 && 365 * (yoe + 1) + (yoe + 1) / 4 - (yoe + 1) / 100 <= doe
            invariant
                0 <= yoe <= 399,
                0 <= doe <= 146096,
                era_year_start(yoe as int) <= doe,
            decreases 399 - yoe,
        {
            yoe = yoe + 1;
        }
        let doy = doe - (365 * yoe + yoe / 4 - yoe / 100);
        let ghost year_len: int = if spec_is_leap_year(400 * era + yoe + 1) {
            366
        } else {
            365
        };
        proof {
            if yoe < 399 {
                lemma_era_year_length(era as int, yoe as int);
            } else {
                assert(era_year_start(399) == 145731);
                lemma_hoist(400, era as int, 400);
                assert(spec_is_leap_year(400 * era + yoe + 1));
            }
            assert(doy < year_len);
        }
        let mut mp = (5 * doy + 2) / 153;
        while mp > 11 || (mp > 0 && (153 * mp + 2) / 5 > doy)
            invariant
                0 <= mp <= 200,
                0 <= doy <= 365,
            decreases mp,
        {
            mp = mp - 1;
        }
        while mp < 11 && (153 * (mp + 1) + 2) / 5 <= doy
            invariant
                0 <= mp <= 11,
                0 <= doy <= 365,
                march_month_start(mp as int) <= doy,
            decreases 11 - mp,
        {
            mp = mp + 1;
        }
        let day = doy - (153 * mp + 2) / 5 + 1;
        let month = if mp < 10 {
            mp + 3
        } else {
            mp - 9
        };
        let y = yoe + era * 400 + if month <= 2 {
            1
        } else {
            0
        };
        proof {
            let ghost yy = (y - if month <= 2 { 1int } else { 0int }) as int;
            lemma_era_split(yy, era as int, yoe as int);
            if mp < 11 {
                lemma_march_month_lengths(y as int, mp as int);
            } else {
                lemma_march_month_lengths(y as int, 0);
            }
            assert(valid_ymd(y as int, month as int, day as int));
            assert(civil_days(y as int, month as int, day as int) == z);
            lemma_civil_from_days_is(z as int, y as int, month as int, day as int);
        }
        Date { year: #[verifier::truncate] (y as i32), month: month as u32, day: day as u32 }
    }
}

/// `from_day_number` undoes `day_number` on every valid date.
pub proof fn law_day_number_round_trip(d: Date)
    requires
        d.is_valid(),
    ensures
        spec_civil_from_days(d.spec_day_number()) == (d.year as int, d.month as int, d.day as int),
{
    lemma_civil_from_days_is(d.spec_day_number(), d.year as int, d.month as int, d.day as int);
}

/// `months` calendar months after `d`, the day clamped to the end of the target month.
pub open spec fn spec_add_months(d: Date, months: int) -> Date {
    let index = d.year * 12 + d.month - 1 + months;
    let year = (index / 12) as i32;
    let month = (index % 12 + 1) as u32;
    let last = spec_days_in_month(year as int, month as int);
    Date { year, month, day: if d.day < last { d.day } else { last as u32 } }
}

impl Date {
    /// Moves forward `months` calendar months, clamping the day to the end of
    /// the target month (Aug 31 + 6 months = Feb 28, or Feb 29 in a leap year).
    pub fn add_months_clamped(self, months: u32) -> (r: Date)
        ensures
            r == spec_add_months(self, months as int),
    {
        let index: i64 = self.year as i64 * 12 + (self.month as i64 - 1) + months as i64;
        let q: i64 = if index >= 0 {
            index / 12
        } else {
            -((-index + 11) / 12)
        };
        proof {
            let e = (index as int) / 12;
            let r = (index as int) % 12;
            if index < 0 {
                lemma_hoist(11 - r, -e, 12);
                assert(-index + 11 == (11 - r) + (-e) * 12);
            }
            assert(q == e);
            lemma_hoist(r, e, 12);
        }
        let year: i32 = #[verifier::truncate] (q as i32);
        let month: u32 = (index - q * 12 + 1) as u32;
        let last = days_in_month(year, month);
        let day = if self.day < last {
            self.day
        } else {
            last
        };
        Date { year, month, day }
    }

    /// The date as `YYYY-MM-DD`, zero-padded (what `{:04}-{:02}-{:02}` prints).
    pub open spec fn spec_text(self) -> Seq<char> {
        padded_int(self.year as int, 4) + "-"@ + padded_int(self.month as int, 2) + "-"@
            + padded_int(self.day as int, 2)
    }

    pub fn to_string(&self) -> (r: String)
        ensures
            r@ == self.spec_text(),
    {
        let mut out = String::new();
        write_padded(&mut out, self.year as i128, 4);
        out.append("-");
        write_padded(&mut out, self.month as i128, 2);
        out.append("-");
        write_padded(&mut out, self.day as i128, 2);
        out
    }
}

/// `t` reads `YYYY-MM-DD`: four digits, a hyphen, two digits, a hyphen, two digits.
pub open spec fn iso_shape(t: Seq<char>) -> bool {
    &&& t.len() == 10
    &&& t[4] == '-'
    &&& t[7] == '-'
    &&& all_digits(t.subrange(0, 4))
    &&& all_digits(t.subrange(5, 7))
    &&& all_digits(t.subrange(8, 10))
}

/// What `Date::parse` gives for the text `s`.
pub open spec fn spec_parse_date(s: Seq<char>) -> Result<Date, Seq<char>> {
    let t = trim(s);
    if iso_shape(t) {
        spec_date_new(
            digits_value(t.subrange(0, 4)) as i32,
            digits_value(t.subrange(5, 7)) as u32,
            digits_value(t.subrange(8, 10)) as u32,
        )
    } else {
        Err("date "@ + debug_text(s) + " is not YYYY-MM-DD"@)
    }
}

/// The number spelled by the digits `v[from..to]`.
fn digits_at(v: &Vec<char>, from: usize, to: usize) -> (r: u32)
    requires
        from <= to <= v.len(),
        to - from <= 4,
        all_digits(v@.subrange(from as int, to as int)),
    ensures
        r == digits_value(v@.subrange(from as int, to as int)),
{
    let mut acc: u32 = 0;
    let mut i = from;
    while i < to
        invariant
            from <= i <= to <= v.len(),
            to - from <= 4,
            all_digits(v@.subrange(from as int, to as int)),
            acc == digits_value(v@.subrange(from as int, i as int)),
        decreases to - i,
    {
        let ghost prefix = v@.subrange(from as int, (i + 1) as int);
        assert(v@.subrange(from as int, i as int) =~= prefix.drop_last());
        assert(is_digit(v@.subrange(from as int, to as int)[i - from]));
        assert(all_digits(prefix.drop_last()));
        proof {
            lemma_digits_value_bound(prefix.drop_last());
            reveal_with_fuel(pow10, 5);
        }
        acc = acc * 10 + (v[i] as u32 - 48);
        i = i + 1;
    }
    acc
}

impl Date {
    /// Parses `YYYY-MM-DD`.
    pub fn parse(s: &str) -> (r: Result<Date, String>)
        ensures
            res_view(r) == spec_parse_date(s@),
    {
        let v = str_chars(s);
        let (a, b) = trim_bounds(&v);
        let ghost t = v@.subrange(a as int, b as int);
        assert(t == trim(s@));
        let mut shaped = b - a == 10 && v[a + 4] == '-' && v[a + 7] == '-';
        let mut k: usize = 0;
        while shaped && k < 10
            invariant
                a <= b <= v.len(),
                t == v@.subrange(a as int, b as int),
                shaped ==> b - a == 10 && t[4] == '-' && t[7] == '-',
                shaped ==> forall|j: int| 0 <= j < k && j != 4 && j != 7 ==> is_digit(#[trigger] t[j]),
                !shaped ==> !iso_shape(t),
            decreases 10 - k,
        {
            if k != 4 && k != 7 && !(48 <= v[a + k] as u32 && v[a + k] as u32 <= 57) {
                shaped = false;
                assert(!is_digit(t[k as int]));
                assert(!iso_shape(t)) by {
                    if k < 4 {
                        assert(t.subrange(0, 4)[k as int] == t[k as int]);
                    } else if k < 7 {
                        assert(t.subrange(5, 7)[k - 5] == t[k as int]);
                    } else {
                        assert(t.subrange(8, 10)[k - 8] == t[k as int]);
                    }
                }
            }
            k = k + 1;
        }
        if shaped {
            assert(all_digits(t.subrange(0, 4)));
            assert(all_digits(t.subrange(5, 7)));
            assert(all_digits(t.subrange(8, 10)));
        }
        if !shaped {
            let mut e = String::new();
            e.append("date ");
            let q = debug_str(s);
            e.append(q.as_str());
            e.append(" is not YYYY-MM-DD");
            return Err(e);
        }
        assert(v@.subrange(a as int, (a + 4) as int) =~= t.subrange(0, 4));
        assert(v@.subrange((a + 5) as int, (a + 7) as int) =~= t.subrange(5, 7));
        assert(v@.subrange((a + 8) as int, (a + 10) as int) =~= t.subrange(8, 10));
        let y = digits_at(&v, a, a + 4);
        let m = digits_at(&v, a + 5, a + 7);
        let d = digits_at(&v, a + 8, a + 10);
        proof {
            lemma_digits_value_bound(t.subrange(0, 4));
            reveal_with_fuel(pow10, 5);
        }
        Date::new(y as i32, m, d)
    }
}

/// The text of a padded part of a date: digits of the given width that spell it.
proof fn lemma_padded_part(x: int, width: nat)
    requires
        0 <= x,
        width == 2 ==> x < 100,
        width == 4 ==> x < 10000,
        width == 2 || width == 4,
    ensures
        padded_int(x, width).len() == width,
        all_digits(padded_int(x, width)),
        digits_value(padded_int(x, width)) == x,
{
    lemma_decimal(x as nat);
    lemma_pad_zeros(decimal(x as nat), width);
}

/// Reading back the text of a date gives the date.
pub proof fn law_date_text_round_trip(d: Date)
    requires
        d.in_range(),
    ensures
        spec_parse_date(d.spec_text()) == Ok::<Date, Seq<char>>(d),
{
    let y = padded_int(d.year as int, 4);
    let m = padded_int(d.month as int, 2);
    let dd = padded_int(d.day as int, 2);
    lemma_padded_part(d.year as int, 4);
    lemma_padded_part(d.month as int, 2);
    lemma_padded_part(d.day as int, 2);
    let t = d.spec_text();
    reveal_strlit("-");
    assert(t == y + "-"@ + m + "-"@ + dd);
    assert(t.len() == 10);
    assert(t.subrange(0, 4) =~= y);
    assert(t.subrange(5, 7) =~= m);
    assert(t.subrange(8, 10) =~= dd);
    assert(t[4] == '-' && t[7] == '-');
    assert(is_digit(y[0]));
    assert(t[0] == y[0]);
    assert(!is_white(t[0]));
    assert(trim_start(t) == t);
    assert(is_digit(dd[1]));
    assert(t.last() == dd[1]);
    assert(!is_white(t.last()));
    assert(trim_end(t) == t);
    assert(trim(t) == t);
    assert(iso_shape(t));
}

/// The text of a date in range is ten characters, each a digit or `-`.
pub proof fn lemma_date_text_chars(d: Date)
    requires
        d.in_range(),
    ensures
        d.spec_text().len() == 10,
        forall|k: int| 0 <= k < 10 ==> is_digit(#[trigger] d.spec_text()[k]) || d.spec_text()[k] == '-',
        is_digit(d.spec_text()[0]),
        is_digit(d.spec_text()[9]),
{
    let y = padded_int(d.year as int, 4);
    let m = padded_int(d.month as int, 2);
    let dd = padded_int(d.day as int, 2);
    lemma_padded_part(d.year as int, 4);
    lemma_padded_part(d.month as int, 2);
    lemma_padded_part(d.day as int, 2);
    let t = d.spec_text();
    reveal_strlit("-");
    assert(t == y + "-"@ + m + "-"@ + dd);
    assert forall|k: int| 0 <= k < 10 implies is_digit(#[trigger] t[k]) || t[k] == '-' by {
        if k < 4 {
            assert(t[k] == y[k]);
        } else if 5 <= k < 7 {
            assert(t[k] == m[k - 5]);
        } else if 8 <= k {
            assert(t[k] == dd[k - 8]);
        }
    }
    assert(t[0] == y[0]);
    assert(t[9] == dd[1]);
}

/// Decides whether two trade dates are close enough to be matched.
///
/// A rule is described by the first date that is *outside* the window when
/// counting forward from the earlier trade. Two trades on dates `a <= b` are
/// matchable exactly when `b < window_end(a)`. Order does not matter: a sale
/// before a purchase is matched the same way as a purchase before a sale.
pub trait WindowRule {
    /// The date that `window_end` gives for `earlier`.
    spec fn spec_window_end(&self, earlier: Date) -> Date;

    /// The text that `name` gives.
    spec fn spec_name(&self) -> Seq<char>;

    /// The first date, on or after `earlier`, that is no longer inside the window.
    fn window_end(&self, earlier: Date) -> (r: Date)
        ensures
            r == self.spec_window_end(earlier),
    ;

    /// Short machine-readable name, used in CLI output.
    fn name(&self) -> (r: String)
        ensures
            r@ == self.spec_name(),
    ;
}

/// Whether trades on dates `a` and `b` (in either order) fall inside `rule`'s window.
pub open spec fn spec_within<R: WindowRule + ?Sized>(rule: &R, a: Date, b: Date) -> bool {
    if date_le(a, b) {
        date_lt(b, rule.spec_window_end(a))
    } else {
        date_lt(a, rule.spec_window_end(b))
    }
}

/// Whether trades on dates `a` and `b` (in either order) fall inside `rule`'s window.
pub fn within<R: WindowRule + ?Sized>(rule: &R, a: Date, b: Date) -> (r: bool)
    ensures
        r == spec_within(rule, a, b),
{
    let (earlier, later) = if !date_before(b, a) {
        (a, b)
    } else {
        (b, a)
    };
    date_before(later, rule.window_end(earlier))
}

/// The order of the two dates does not matter.
pub proof fn law_within_symmetric<R: WindowRule + ?Sized>(rule: &R, a: Date, b: Date)
    ensures
        spec_within(rule, a, b) == spec_within(rule, b, a),
{
}

/// The default rule: less than six calendar months, counted forward from the
/// earlier trade with month-end clamping.
///
/// * Jan 31 -> window ends Jul 31, so Jul 30 matches and Jul 31 does not.
/// * Aug 31 2023 -> window ends Feb 29 2024; Aug 31 2022 -> ends Feb 28 2023.
/// * Feb 29 2024 -> window ends Aug 29 2024.
/// * Same-day trades always match.
///
/// Clamping is only ever applied to the earlier date. Aug 29, Aug 30 and Aug 31
/// of a non-leap year therefore all share the window end Feb 28.
#[derive(Clone, Copy, Debug, Default)]
pub struct SixCalendarMonths;

impl WindowRule for SixCalendarMonths {
    open spec fn spec_window_end(&self, earlier: Date) -> Date {
        spec_add_months(earlier, 6)
    }

    open spec fn spec_name(&self) -> Seq<char> {
        "six-calendar-months"@
    }

    fn window_end(&self, earlier: Date) -> (r: Date) {
        earlier.add_months_clamped(6)
    }

    fn name(&self) -> (r: String) {
        String::from_str("six-calendar-months")
    }
}

/// Six months on, a valid date has moved to a later valid date, so trades on
/// the same day always match.
pub proof fn law_six_months_ends_later(d: Date)
    requires
        d.is_valid(),
        d.year < i32::MAX,
    ensures
        spec_add_months(d, 6).is_valid(),
        date_lt(d, spec_add_months(d, 6)),
        spec_within(&SixCalendarMonths, d, d),
{
    let index = d.year * 12 + d.month - 1 + 6;
    lemma_hoist(d.month - 1 + 6, d.year as int, 12);
    vstd::arithmetic::div_mod::lemma_mod_bound(d.month - 1 + 6, 12);
}

/// Every month has between 28 and 31 days.
proof fn lemma_month_length(y: int, m: int)
    requires
        1 <= m <= 12,
    ensures
        28 <= spec_days_in_month(y, m) <= 31,
{
}

/// Adding `months` to a valid date lands exactly `months` calendar months
/// later, on the same day of the month when that month has it and on that
/// month's last day when it is too short; the result is a valid date.
pub proof fn law_add_months(d: Date, months: nat)
    requires
        d.in_range(),
        months <= u32::MAX,
    ensures
        spec_add_months(d, months as int).year * 12 + spec_add_months(d, months as int).month
            == d.year * 12 + d.month + months,
        spec_add_months(d, months as int).is_valid(),
        d.day <= spec_days_in_month(
            spec_add_months(d, months as int).year as int,
            spec_add_months(d, months as int).month as int,
        ) ==> spec_add_months(d, months as int).day == d.day,
        d.day > spec_days_in_month(
            spec_add_months(d, months as int).year as int,
            spec_add_months(d, months as int).month as int,
        ) ==> spec_add_months(d, months as int).day == spec_days_in_month(
            spec_add_months(d, months as int).year as int,
            spec_add_months(d, months as int).month as int,
        ),
{
    let index = d.year * 12 + d.month - 1 + months;
    assert(index >= 0);
    let q = index / 12;
    let r = index % 12;
    assert(index == q * 12 + r && 0 <= r < 12) by {
        vstd::arithmetic::div_mod::lemma_fundamental_div_mod(index, 12);
        vstd::arithmetic::div_mod::lemma_mod_bound(index, 12);
    }
    assert(0 <= q <= i32::MAX) by {
        vstd::arithmetic::div_mod::lemma_div_pos_is_pos(index, 12);
        assert(index <= 9999int * 12 + 11 + 4294967295);
        vstd::arithmetic::div_mod::lemma_div_is_ordered(index, 9999int * 12 + 11 + 4294967295, 12);
    }
    let e = spec_add_months(d, months as int);
    assert(e.year == q);
    assert(e.month == r + 1);
    lemma_month_length(q, r + 1);
}

/// The six-month window of a valid date ends six calendar months later, on
/// the same day of the month or, when that month is too short, on its last day.
pub proof fn law_six_months_window_end(d: Date)
    requires
        d.in_range(),
    ensures
        SixCalendarMonths.spec_window_end(d).year * 12 + SixCalendarMonths.spec_window_end(d).month
            == d.year * 12 + d.month + 6,
        SixCalendarMonths.spec_window_end(d).day == (if d.day <= spec_days_in_month(
            SixCalendarMonths.spec_window_end(d).year as int,
            SixCalendarMonths.spec_window_end(d).month as int,
        ) {
            d.day as int
        } else {
            spec_days_in_month(
                SixCalendarMonths.spec_window_end(d).year as int,
                SixCalendarMonths.spec_window_end(d).month as int,
            )
        }),
{
    law_add_months(d, 6);
}

/// Alternative rule: the later trade is fewer than `days` days after the earlier one.
#[derive(Clone, Copy, Debug)]
pub struct DayCount {
    pub days: u32,
}

/// Day numbers of dates, valid or not, stay far inside `i64`.
pub(crate) proof fn lemma_day_number_bounds(d: Date)
    ensures
        -(1i64 << 42) <= d.spec_day_number() <= (1i64 << 42),
{
    assert((1i64 << 42) == 4398046511104) by (bit_vector);
}

/// The date `days` days after `earlier`.
pub open spec fn spec_days_later(earlier: Date, days: int) -> Date {
    let t = spec_civil_from_days(earlier.spec_day_number() + days);
    Date { year: t.0 as i32, month: t.1 as u32, day: t.2 as u32 }
}

impl WindowRule for DayCount {
    open spec fn spec_window_end(&self, earlier: Date) -> Date {
        spec_days_later(earlier, self.days as int)
    }

    open spec fn spec_name(&self) -> Seq<char> {
        "days:"@ + int_text(self.days as int)
    }

    fn window_end(&self, earlier: Date) -> (r: Date) {
        proof {
            lemma_day_number_bounds(earlier);
        }
        Date::from_day_number(earlier.day_number() + self.days as i64)
    }

    fn name(&self) -> (r: String) {
        let mut out = String::from_str("days:");
        write_int(&mut out, self.days as i128);
        out
    }
}

} // verus!
