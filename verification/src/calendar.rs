//! Calendar arithmetic: which day of the proleptic Gregorian calendar a
//! count of days since 1970-01-01 is.

use std::time::{Duration, SystemTime, SystemTimeError, UNIX_EPOCH};
use vstd::prelude::*;

use crate::text::{
    decimal, push_char, push_signed_padded, push_zero_padded, signed_padded, zero_padded,
};

verus! {

/// The clock's idea of a moment.
#[verifier::external_type_specification]
#[verifier::external_body]
pub struct ExSystemTime(SystemTime);

/// The error of a moment before the Unix epoch.
#[verifier::external_type_specification]
#[verifier::external_body]
pub struct ExSystemTimeError(SystemTimeError);

proof fn lemma_year_of_era(doe: u64)
    requires
        doe < 146097,
    ensures
        ({
            let yoe = (doe - doe / 1460 + doe / 36524 - doe / 146096) / 365;
            let start = 365 * yoe + yoe / 4 - yoe / 100;
            &&& yoe < 400
            &&& start <= doe
            &&& doe < start + 365 + if (yoe + 1) % 4 == 0 && ((yoe + 1) % 100 != 0 || yoe == 399) {
                1u64
            } else {
                0u64
            }
        }),
{
    assert({
        let yoe = (doe - doe / 1460 + doe / 36524 - doe / 146096) / 365;
        let start = 365 * yoe + yoe / 4 - yoe / 100;
        &&& yoe < 400
        &&& start <= doe
        &&& doe < start + 365 + if (yoe + 1) % 4 == 0 && ((yoe + 1) % 100 != 0 || yoe == 399) {
            1u64
        } else {
            0u64
        }
    }) by (bit_vector)
        requires
            doe < 146097,
    ;
}

} // verus!

verus! {

proof fn lemma_month_of_year(doy: u64)
    requires
        doy < 366,
    ensures
        ({
            let mp = (5 * doy + 2) / 153;
            &&& mp < 12
            &&& (153 * mp + 2) / 5 <= doy
            &&& mp < 11 ==> doy < (153 * (mp + 1) + 2) / 5
        }),
{
    assert({
        let mp = (5 * doy + 2) / 153;
        &&& mp < 12
        &&& (153 * mp + 2) / 5 <= doy
        &&& mp < 11 ==> doy < (153 * (mp + 1) + 2) / 5
    }) by (bit_vector)
        requires
            doy < 366,
    ;
}

} // verus!

verus! {

/// Leap years of the Gregorian calendar.
pub open spec fn is_leap(y: int) -> bool {
    (y % 4 == 0 && y % 100 != 0) || y % 400 == 0
}

/// Days in month `m` (1 = January) of year `y`.
pub open spec fn month_len(y: int, m: int) -> int {
    if m == 2 {
        if is_leap(y) {
            29
        } else {
            28
        }
    } else if m == 4 || m == 6 || m == 9 || m == 11 {
        30
    } else {
        31
    }
}

/// Days in the months of year `y` before month `m`.
pub open spec fn days_before_month(y: int, m: int) -> int
    decreases m,
{
    if m <= 1 {
        0
    } else {
        days_before_month(y, m - 1) + month_len(y, m - 1)
    }
}

/// The number of leap years among the years before `y` (counted from year 1;
/// for earlier years the count goes negative in the same rhythm).
pub open spec fn leaps_before(y: int) -> int {
    (y - 1) / 4 - (y - 1) / 100 + (y - 1) / 400
}

/// Whether `y-m-d` is a date of the proleptic Gregorian calendar.
pub open spec fn valid_date(y: int, m: int, d: int) -> bool {
    1 <= m <= 12 && 1 <= d <= month_len(y, m)
}

/// How many days `y-m-d` lies after 1970-01-01 (negative before it).
pub open spec fn days_from_epoch(y: int, m: int, d: int) -> int {
    365 * (y - 1970) + leaps_before(y) - leaps_before(1970) + days_before_month(y, m) + d - 1
}

/// The first day of month `mp` of a year that starts in March (0 = March).
spec fn march_start(mp: int) -> int {
    (153 * mp + 2) / 5
}

proof fn lemma_floor_step(y: int, k: int)
    requires
        k > 0,
    ensures
        y / k - (y - 1) / k == if y % k == 0 {
            1int
        } else {
            0int
        },
{
    let q = y / k;
    let r = y % k;
    assert(y == k * q + r && 0 <= r < k) by {
        vstd::arithmetic::div_mod::lemma_fundamental_div_mod(y, k);
    }
    if r == 0 {
        assert(y - 1 == (q - 1) * k + (k - 1)) by (nonlinear_arith)
            requires
                y == k * q + r,
                r == 0,
        ;
        assert((y - 1) / k == q - 1) by {
            vstd::arithmetic::div_mod::lemma_fundamental_div_mod_converse(y - 1, k, q - 1, k - 1);
        }
    } else {
        assert(y - 1 == q * k + (r - 1)) by (nonlinear_arith)
            requires
                y == k * q + r,
        ;
        assert((y - 1) / k == q) by {
            vstd::arithmetic::div_mod::lemma_fundamental_div_mod_converse(y - 1, k, q, r - 1);
        }
    }
}

proof fn lemma_leaps_step(y: int)
    ensures
        leaps_before(y + 1) == leaps_before(y) + if is_leap(y) {
            1int
        } else {
            0int
        },
{
    lemma_floor_step(y, 4);
    lemma_floor_step(y, 100);
    lemma_floor_step(y, 400);
    assert(y % 400 == 0 ==> y % 100 == 0 && y % 4 == 0) by {
        vstd::arithmetic::div_mod::lemma_fundamental_div_mod(y, 400);
        if y % 400 == 0 {
            assert(y == 400 * (y / 400));
            vstd::arithmetic::div_mod::lemma_fundamental_div_mod_converse(y, 100, 4 * (y / 400), 0);
            vstd::arithmetic::div_mod::lemma_fundamental_div_mod_converse(y, 4, 100 * (y / 400), 0);
        }
    }
    assert(y % 100 == 0 ==> y % 4 == 0) by {
        vstd::arithmetic::div_mod::lemma_fundamental_div_mod(y, 100);
        if y % 100 == 0 {
            assert(y == 100 * (y / 100));
            vstd::arithmetic::div_mod::lemma_fundamental_div_mod_converse(y, 4, 25 * (y / 100), 0);
        }
    }
}

proof fn lemma_days_before_month(y: int)
    ensures
        days_before_month(y, 1) == 0,
        days_before_month(y, 2) == 31,
        forall|m: int|
            3 <= m <= 12 ==> #[trigger] days_before_month(y, m) == 59 + (if is_leap(y) {
                1int
            } else {
                0int
            }) + march_start(m - 3),
{
    reveal_with_fuel(days_before_month, 13);
    assert(march_start(0) == 0);
    assert(march_start(1) == 31);
    assert(march_start(2) == 61);
    assert(march_start(3) == 92);
    assert(march_start(4) == 122);
    assert(march_start(5) == 153);
    assert(march_start(6) == 184);
    assert(march_start(7) == 214);
    assert(march_start(8) == 245);
    assert(march_start(9) == 275);
}

/// `floor(z / 146097)`, whichever way the division is written.
proof fn lemma_era(z: int, era: int)
    requires
        z >= 0 ==> era == z / 146_097,
        z < 0 ==> era == -((-(z - 146_096)) / 146_097),
    ensures
        era == z / 146_097,
        0 <= z - era * 146_097 < 146_097,
{
    vstd::arithmetic::div_mod::lemma_fundamental_div_mod(z, 146_097);
    if z < 0 {
        let n = 146_096 - z;
        let q = n / 146_097;
        let r = n % 146_097;
        vstd::arithmetic::div_mod::lemma_fundamental_div_mod(n, 146_097);
        // z = -n + 146096 = -(q * 146097 + r) + 146096 = (-q) * 146097 + (146096 - r)
        vstd::arithmetic::div_mod::lemma_fundamental_div_mod_converse(z, 146_097, -q, 146_096 - r);
    }
}

/// Moving whole 400-year cycles in and out of a division by a divisor of 400.
proof fn lemma_cycles(e: int, x: int, k: int, c: int)
    requires
        k > 0,
        k * c == 400,
    ensures
        (400 * e + x) / k == c * e + x / k,
        (400 * e + x) % k == x % k,
{
    vstd::arithmetic::div_mod::lemma_fundamental_div_mod(x, k);
    assert(400 * e + x == (c * e + x / k) * k + x % k) by (nonlinear_arith)
        requires
            x == k * (x / k) + x % k,
            k * c == 400,
    ;
    vstd::arithmetic::div_mod::lemma_fundamental_div_mod_converse(400 * e + x, k, c * e + x / k, x % k);
}

/// The pieces that Hinnant's algorithm computes add up to the day and form a valid date.
proof fn lemma_civil_result(z0: int, era: int, doe: int, yoe: int, doy: int, mp: int, yr: int, m: int, d: int)
    requires
        0 <= z0 + 719_468 - era * 146_097 < 146_097,
        doe == z0 + 719_468 - era * 146_097,
        0 <= yoe < 400,
        doy == doe - (365 * yoe + yoe / 4 - yoe / 100),
        0 <= doy,
        doy < 365 + if (yoe + 1) % 4 == 0 && ((yoe + 1) % 100 != 0 || yoe == 399) {
            1int
        } else {
            0int
        },
        0 <= mp < 12,
        march_start(mp) <= doy,
        mp < 11 ==> doy < march_start(mp + 1),
        d == doy - march_start(mp) + 1,
        m == if mp < 10 {
            mp + 3
        } else {
            mp - 9
        },
        yr == if m <= 2 {
            era * 400 + yoe + 1
        } else {
            era * 400 + yoe
        },
    ensures
        valid_date(yr, m, d),
        days_from_epoch(yr, m, d) == z0,
{
    let y = era * 400 + yoe;
    lemma_cycles(era, yoe, 4, 100);
    lemma_cycles(era, yoe, 100, 4);
    lemma_cycles(era, yoe, 400, 1);
    assert(yoe / 400 == 0);
    // 365 y + y/4 - y/100 + y/400 counts the days from 0000-03-01 to the start of era-year y
    assert(365 * y + y / 4 - y / 100 + y / 400 == era * 146_097 + 365 * yoe + yoe / 4 - yoe / 100);
    lemma_leaps_step(y);
    lemma_days_before_month(yr);
    assert(leaps_before(1970) == 477);
    assert(march_start(10) == 306);
    assert(march_start(11) == 337);
    assert(march_start(0) == 0);
    assert(march_start(1) == 31);
    assert(march_start(2) == 61);
    assert(march_start(3) == 92);
    assert(march_start(4) == 122);
    assert(march_start(5) == 153);
    assert(march_start(6) == 184);
    assert(march_start(7) == 214);
    assert(march_start(8) == 245);
    assert(march_start(9) == 275);
    if mp == 11 {
        lemma_cycles(era, yoe + 1, 4, 100);
        lemma_cycles(era, yoe + 1, 100, 4);
        lemma_cycles(era, yoe + 1, 400, 1);
        assert(is_leap(yr) == ((yoe + 1) % 4 == 0 && ((yoe + 1) % 100 != 0 || yoe == 399)));
    }
}

/// Later months of a year start later.
proof fn lemma_months_ordered(y: int, m1: int, m2: int)
    requires
        1 <= m1 <= m2,
    ensures
        days_before_month(y, m1) + (if m1 < m2 {
            month_len(y, m1)
        } else {
            0
        }) <= days_before_month(y, m2),
    decreases m2 - m1,
{
    if m1 < m2 {
        lemma_months_ordered(y, m1, m2 - 1);
        assert(days_before_month(y, m2) == days_before_month(y, m2 - 1) + month_len(y, m2 - 1));
        assert(month_len(y, m2 - 1) > 0);
    }
}

/// The days before 1 January of year `y`, counted from 1970-01-01.
spec fn year_start(y: int) -> int {
    365 * (y - 1970) + leaps_before(y) - leaps_before(1970)
}

/// Later years start later, by at least the length of the first.
proof fn lemma_years_ordered(y1: int, y2: int)
    requires
        y1 < y2,
    ensures
        year_start(y1) + 365 + (if is_leap(y1) {
            1int
        } else {
            0int
        }) <= year_start(y2),
    decreases y2 - y1,
{
    lemma_leaps_step(y1);
    if y1 + 1 < y2 {
        lemma_years_ordered(y1 + 1, y2);
        lemma_leaps_step(y1 + 1);
    }
}

/// A valid date lies within its year.
proof fn lemma_within_year(y: int, m: int, d: int)
    requires
        valid_date(y, m, d),
    ensures
        0 <= days_from_epoch(y, m, d) - year_start(y) < 365 + if is_leap(y) {
            1int
        } else {
            0int
        },
{
    lemma_days_before_month(y);
    lemma_months_ordered(y, 1, m);
    if m < 12 {
        lemma_months_ordered(y, m, 12);
    }
    assert(march_start(9) == 275);
}

/// Each day has exactly one date: two valid dates the same number of days
/// after 1970-01-01 are the same date.
pub proof fn law_one_date_per_day(y1: int, m1: int, d1: int, y2: int, m2: int, d2: int)
    requires
        valid_date(y1, m1, d1),
        valid_date(y2, m2, d2),
        days_from_epoch(y1, m1, d1) == days_from_epoch(y2, m2, d2),
    ensures
        y1 == y2,
        m1 == m2,
        d1 == d2,
{
    lemma_within_year(y1, m1, d1);
    lemma_within_year(y2, m2, d2);
    if y1 < y2 {
        lemma_years_ordered(y1, y2);
    } else if y2 < y1 {
        lemma_years_ordered(y2, y1);
    } else {
        if m1 < m2 {
            lemma_months_ordered(y1, m1, m2);
        } else if m2 < m1 {
            lemma_months_ordered(y1, m2, m1);
        }
    }
}

/// The date `z` days after 1970-01-01 (Howard Hinnant's `civil_from_days`,
/// which saves a date library).
pub fn civil_from_days(z: i64) -> (r: (i64, u32, u32))
    requires
        z <= i64::MAX - 719_468,
    ensures
        valid_date(r.0 as int, r.1 as int, r.2 as int),
        days_from_epoch(r.0 as int, r.1 as int, r.2 as int) == z,
{
    let ghost z0 = z as int;
    let z = z + 719_468;
    let era = if z >= 0 {
        z
    } else {
        z - 146_096
    } / 146_097;
    proof {
        lemma_era(z as int, era as int);
    }
    let doe = (z - era * 146_097) as u64;
    let yoe = (doe - doe / 1460 + doe / 36_524 - doe / 146_096) / 365;
    proof {
        lemma_year_of_era(doe);
    }
    let y = yoe as i64 + era * 400;
    let doy = doe - (365 * yoe + yoe / 4 - yoe / 100);
    proof {
        lemma_month_of_year(doy);
    }
    let mp = (5 * doy + 2) / 153;
    let d = (doy - (153 * mp + 2) / 5 + 1) as u32;
    let m = if mp < 10 {
        mp + 3
    } else {
        mp - 9
    } as u32;
    let r = (if m <= 2 {
        y + 1
    } else {
        y
    }, m, d);
    proof {
        lemma_civil_result(z0, era as int, doe as int, yoe as int, doy as int, mp as int, r.0 as int, m as int, d as int);
    }
    r
}

} // verus!

verus! {

/// Mazu is from Meizhou: "today" is always reckoned in UTC+8.
pub const TZ_OFFSET_SECS: i64 = 28800;

/// A date written as `YYYY-MM-DD` (`{y:04}-{m:02}-{d:02}`).
pub open spec fn date_text(y: int, m: int, d: int) -> Seq<char> {
    signed_padded(y, 4) + seq!['-'] + zero_padded(decimal(m as nat), 2) + seq!['-'] + zero_padded(
        decimal(d as nat),
        2,
    )
}

/// The text of the date that lies `days` days after 1970-01-01.
pub open spec fn is_day_text(days: int, s: Seq<char>) -> bool {
    exists|y: int, m: int, d: int|
        valid_date(y, m, d) && days_from_epoch(y, m, d) == days && s == date_text(y, m, d)
}

/// The date `days` days after 1970-01-01, as `YYYY-MM-DD`.
pub fn date_string(days: i64) -> (s: String)
    requires
        days <= i64::MAX - 719_468,
    ensures
        is_day_text(days as int, s@),
{
    let (y, m, d) = civil_from_days(days);
    let mut s = String::new();
    push_signed_padded(&mut s, y, 4);
    push_char(&mut s, '-');
    push_zero_padded(&mut s, m as u64, 2);
    push_char(&mut s, '-');
    push_zero_padded(&mut s, d as u64, 2);
    proof {
        assert(s@ =~= date_text(y as int, m as int, d as int));
    }
    s
}

/// The day of the calendar in UTC+8 at `secs` seconds after the Unix epoch,
/// the addition of the offset wrapping as in a release build.
pub open spec fn local_day(secs: i64) -> int {
    (vstd::wrapping::i64_specs::wrapping_add(secs, TZ_OFFSET_SECS) as int) / 86_400
}

/// The day in UTC+8 at `secs` seconds after the Unix epoch, as `YYYY-MM-DD`.
pub fn day_of(secs: i64) -> (s: String)
    ensures
        is_day_text(local_day(secs), s@),
{
    let local = secs.wrapping_add(TZ_OFFSET_SECS);
    let days = match local.checked_div_euclid(86_400) {
        Some(q) => q,
        None => 0,
    };
    date_string(days)
}

/// `SystemTime::now`: the clock of the machine.
#[verifier::external_body]
fn system_now() -> SystemTime {
    SystemTime::now()
}

/// `SystemTime::duration_since` with `UNIX_EPOCH`: how long after the epoch
/// `t` is, or an error for a time before it.
#[verifier::external_body]
fn since_unix_epoch(t: &SystemTime) -> Result<Duration, SystemTimeError> {
    t.duration_since(UNIX_EPOCH)
}

/// `Duration::as_secs`: the whole seconds of a duration.
#[verifier::external_body]
fn whole_secs(d: &Duration) -> u64 {
    d.as_secs()
}

/// The seconds after the Unix epoch that a clock reading stands for: the
/// whole seconds it read (taken as `i64`, as `u64 as i64` does), or the epoch
/// itself for a clock set before 1970.
pub open spec fn reading_secs(reading: Option<u64>) -> i64 {
    match reading {
        Some(secs) => secs as i64,
        None => 0,
    }
}

/// The date in UTC+8 for a reading of the clock in whole seconds after the
/// Unix epoch (`None` for a clock set before 1970), as `YYYY-MM-DD`.
pub fn date_at_reading(reading: Option<u64>) -> (s: String)
    ensures
        is_day_text(local_day(reading_secs(reading)), s@),
{
    let secs: i64 = match reading {
        Some(whole) => whole as i64,
        None => 0,
    };
    day_of(secs)
}

/// A day has exactly one text: the `YYYY-MM-DD` of its one date.
pub proof fn law_one_text_per_day(days: int, a: Seq<char>, b: Seq<char>)
    requires
        is_day_text(days, a),
        is_day_text(days, b),
    ensures
        a == b,
{
    let (y1, m1, d1) = choose|y: int, m: int, d: int|
        valid_date(y, m, d) && days_from_epoch(y, m, d) == days && a == date_text(y, m, d);
    let (y2, m2, d2) = choose|y: int, m: int, d: int|
        valid_date(y, m, d) && days_from_epoch(y, m, d) == days && b == date_text(y, m, d);
    law_one_date_per_day(y1, m1, d1, y2, m2, d2);
}

/// A clock reading of `s` whole seconds after the epoch is dated by the day
/// in UTC+8 it falls on: eight hours later, in whole days since 1970-01-01.
pub proof fn law_reading_day(s: u64)
    requires
        s + TZ_OFFSET_SECS <= i64::MAX,
    ensures
        local_day(reading_secs(Some(s))) == (s + TZ_OFFSET_SECS) / 86_400,
{
}

/// Today in UTC+8, as `YYYY-MM-DD`. A clock set before 1970 counts as the epoch.
/// What the day is depends on the clock; what holds is that the text names
/// the day of whatever the clock read, and the reading is handed on as it came.
pub fn today() -> (s: String)
    ensures
        exists|secs: i64| is_day_text(local_day(secs), s@),
        exists|reading: Option<u64>| is_day_text(local_day(reading_secs(reading)), s@),
{
    let reading = match since_unix_epoch(&system_now()) {
        Ok(d) => Some(whole_secs(&d)),
        Err(_) => None,
    };
    date_at_reading(reading)
}

} // verus!
