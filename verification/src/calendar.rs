//! Civil calendar arithmetic over integer timestamps.
//!
//! Timestamps are nanoseconds since 1970-01-01T00:00:00Z.  The supported
//! window is the years 1970 through 2200, comfortably inside the 64-bit
//! nanosecond range.  The module gives the snapshot alignment policy its
//! month boundaries, and parses and formats `YYYY-MM-DDTHH:MM:SSZ` strings.

use vstd::prelude::*;

verus! {

/// Nanoseconds in one civil day.
pub const DAY_NS: i64 = 86_400_000_000_000;

/// Nanoseconds in one second.
pub const SEC_NS: i64 = 1_000_000_000;

/// Highest year of the supported window.
pub const YEAR_MAX: i64 = 2200;

/// A leap year of the Gregorian calendar.
pub open spec fn is_leap(y: int) -> bool {
    y % 4 == 0 && (y % 100 != 0 || y % 400 == 0)
}

/// Days in a year.
pub open spec fn days_in_year(y: int) -> int {
    if is_leap(y) {
        366
    } else {
        365
    }
}

/// Days in month `m` (1 through 12) of year `y`.
pub open spec fn days_in_month(y: int, m: int) -> int {
    if m == 2 {
        if is_leap(y) {
            29
        } else {
            28
        }
    } else if m == 4 || m == 6 || m == 9 || m == 11 {
        30
    } else {
        31
    }
}

/// Days from the epoch to the start of year `y`.
pub open spec fn days_before_year(y: int) -> int
    decreases y - 1970,
{
    if y <= 1970 {
        0
    } else {
        days_before_year(y - 1) + days_in_year(y - 1)
    }
}

/// Days from the start of year `y` to the start of month `m`.
pub open spec fn days_before_month(y: int, m: int) -> int
    decreases m,
{
    if m <= 1 {
        0
    } else {
        days_before_month(y, m - 1) + days_in_month(y, m - 1)
    }
}

/// Day number of the civil date `y-m-d` (the epoch is day 0).
pub open spec fn days_from_civil(y: int, m: int, d: int) -> int {
    days_before_year(y) + days_before_month(y, m) + (d - 1)
}

/// A date inside the supported window.
pub open spec fn valid_date(y: int, m: int, d: int) -> bool {
    1970 <= y <= YEAR_MAX && 1 <= m <= 12 && 1 <= d <= days_in_month(y, m)
}

/// Timestamp of midnight starting month `m` of year `y`.
pub open spec fn month_start_ns(y: int, m: int) -> int {
    days_from_civil(y, m, 1) * (DAY_NS as int)
}

/// The year and month after `(y, m)`.
pub open spec fn next_month(y: int, m: int) -> (int, int) {
    if m == 12 {
        (y + 1, 1)
    } else {
        (y, m + 1)
    }
}

/// A month boundary of the supported window (the month after the last
/// supported one counts, as the end of that month).
pub open spec fn is_month_start(t: int) -> bool {
    exists|y: int, m: int|
        1970 <= y <= YEAR_MAX + 1 && 1 <= m <= 12 && t == #[trigger] month_start_ns(y, m)
}

/// `(y, m)` is the month containing `ts`.
pub open spec fn month_brackets(ts: int, y: int, m: int) -> bool {
    &&& 1970 <= y <= YEAR_MAX
    &&& 1 <= m <= 12
    &&& month_start_ns(y, m) <= ts
    &&& ts < month_start_ns(next_month(y, m).0, next_month(y, m).1)
}

/// The month containing `ts`; meaningful inside the supported window.
pub open spec fn month_of(ts: int) -> (int, int) {
    choose|y: int, m: int| month_brackets(ts, y, m)
}

/// The month boundary nearest `ts` (ties toward the later boundary), as a
/// mathematical function.
pub open spec fn nearest_month_ns(ts: int) -> int {
    let (y, m) = month_of(ts);
    let prev = month_start_ns(y, m);
    let next = month_start_ns(next_month(y, m).0, next_month(y, m).1);
    if ts - prev < next - ts {
        prev
    } else {
        next
    }
}

/// Whether `ts` lies within `step` of a month boundary, as a mathematical
/// function.
pub open spec fn month_is_close(ts: int, step: int) -> bool {
    let (y, m) = month_of(ts);
    let prev = month_start_ns(y, m);
    let next = month_start_ns(next_month(y, m).0, next_month(y, m).1);
    ts - prev < step || next - ts < step
}

/// Each month's start strictly precedes the next month's.
pub proof fn lemma_month_start_step(y: int, m: int)
    requires
        1970 <= y <= YEAR_MAX,
        1 <= m <= 12,
    ensures
        month_start_ns(y, m) + 28 * (DAY_NS as int) <= month_start_ns(
            next_month(y, m).0,
            next_month(y, m).1,
        ),
{
    let (ny, nm) = next_month(y, m);
    let d1 = days_from_civil(y, m, 1);
    let d2 = days_from_civil(ny, nm, 1);
    assert(d2 == d1 + days_in_month(y, m)) by {
        if m == 12 {
            lemma_months_sum(y);
        }
    }
    assert(d2 * (DAY_NS as int) == d1 * (DAY_NS as int) + days_in_month(y, m) * (DAY_NS as int))
        by (nonlinear_arith)
        requires
            d2 == d1 + days_in_month(y, m),
    ;
    assert(days_in_month(y, m) * (DAY_NS as int) >= 28 * (DAY_NS as int)) by (nonlinear_arith)
        requires
            days_in_month(y, m) >= 28,
    ;
}

/// Month starts grow strictly along the calendar order.
pub proof fn lemma_month_start_lex(y1: int, m1: int, y2: int, m2: int)
    requires
        1970 <= y1 <= YEAR_MAX,
        1 <= m1 <= 12,
        1970 <= y2 <= YEAR_MAX + 1,
        1 <= m2 <= 12,
        y2 <= YEAR_MAX + 1 && (y2 == YEAR_MAX + 1 ==> m2 == 1),
        y1 < y2 || (y1 == y2 && m1 < m2),
    ensures
        month_start_ns(y1, m1) < month_start_ns(y2, m2),
    decreases 12 * y2 + m2,
{
    let prev = if m2 == 1 {
        (y2 - 1, 12)
    } else {
        (y2, m2 - 1)
    };
    assert(next_month(prev.0, prev.1) == (y2, m2));
    lemma_month_start_step(prev.0, prev.1);
    if prev != (y1, m1) {
        lemma_month_start_lex(y1, m1, prev.0, prev.1);
    }
}

/// Month starts grow weakly along the calendar order.
pub proof fn lemma_month_start_lex_le(y1: int, m1: int, y2: int, m2: int)
    requires
        1970 <= y1 <= YEAR_MAX + 1,
        1 <= m1 <= 12,
        y1 == YEAR_MAX + 1 ==> m1 == 1,
        1970 <= y2 <= YEAR_MAX + 1,
        1 <= m2 <= 12,
        y2 == YEAR_MAX + 1 ==> m2 == 1,
        y1 < y2 || (y1 == y2 && m1 <= m2),
    ensures
        month_start_ns(y1, m1) <= month_start_ns(y2, m2),
{
    if (y1, m1) != (y2, m2) {
        lemma_month_start_lex(y1, m1, y2, m2);
    }
}

/// Only one month brackets a timestamp.
pub proof fn lemma_month_brackets_unique(ts: int, y1: int, m1: int, y2: int, m2: int)
    requires
        month_brackets(ts, y1, m1),
        month_brackets(ts, y2, m2),
    ensures
        y1 == y2 && m1 == m2,
{
    // if one month preceded the other, the later month's start would
    // follow the earlier month's end, putting it beyond the timestamp
    if y1 < y2 || (y1 == y2 && m1 < m2) {
        let (ny, nm) = next_month(y1, m1);
        lemma_month_start_lex_le(ny, nm, y2, m2);
        assert(ts < month_start_ns(ny, nm));
        assert(month_start_ns(y2, m2) <= ts);
    } else if y2 < y1 || (y2 == y1 && m2 < m1) {
        let (ny, nm) = next_month(y2, m2);
        lemma_month_start_lex_le(ny, nm, y1, m1);
        assert(ts < month_start_ns(ny, nm));
        assert(month_start_ns(y1, m1) <= ts);
    }
}

/// The months of a year sum to its length.
pub proof fn lemma_months_sum(y: int)
    ensures
        days_before_month(y, 13) == days_in_year(y),
{
    reveal_with_fuel(days_before_month, 14);
}

/// The day count to the start of a year grows by at least 365 per year.
pub proof fn lemma_dby_bounds(y: int)
    requires
        y >= 1970,
    ensures
        365 * (y - 1970) <= days_before_year(y) <= 366 * (y - 1970),
    decreases y - 1970,
{
    if y > 1970 {
        lemma_dby_bounds(y - 1);
    }
}

/// The day count to the start of a month is at most 337.
pub proof fn lemma_dbm_bounds(y: int, m: int)
    requires
        1 <= m <= 13,
    ensures
        0 <= days_before_month(y, m) <= 31 * (m - 1),
    decreases m,
{
    if m > 1 {
        lemma_dbm_bounds(y, m - 1);
    }
}

/// Day numbers of supported dates are small enough that their timestamps
/// fit the 64-bit nanosecond range.
pub proof fn lemma_dfc_bounds(y: int, m: int, d: int)
    requires
        1970 <= y <= YEAR_MAX + 1,
        1 <= m <= 12,
        1 <= d <= 31,
    ensures
        0 <= days_from_civil(y, m, d) <= 85_000,
        0 <= days_from_civil(y, m, d) * (DAY_NS as int) <= 7_344_000_000_000_000_000,
{
    lemma_dby_bounds(y);
    lemma_dbm_bounds(y, m);
    vstd::arithmetic::mul::lemma_mul_inequality(
        days_from_civil(y, m, d),
        85_000,
        DAY_NS as int,
    );
    vstd::arithmetic::mul::lemma_mul_nonnegative(days_from_civil(y, m, d), DAY_NS as int);
}

/// Days in year `y`, executable.
#[verifier::rlimit(50)]
pub fn days_in_year_x(y: i64) -> (r: i64)
    ensures
        r as int == days_in_year(y as int),
{
    if (y % 4 == 0 && y % 100 != 0) || y % 400 == 0 {
        366
    } else {
        365
    }
}

/// Days in month `m` of year `y`, executable.
pub fn days_in_month_x(y: i64, m: i64) -> (r: i64)
    ensures
        r as int == days_in_month(y as int, m as int),
{
    if m == 2 {
        if (y % 4 == 0 && y % 100 != 0) || y % 400 == 0 {
            29
        } else {
            28
        }
    } else if m == 4 || m == 6 || m == 9 || m == 11 {
        30
    } else {
        31
    }
}

/// The civil date of epoch day `days`.
pub fn civil_from_days(days: i64) -> (r: (i64, i64, i64))
    requires
        0 <= days,
        (days as int) < days_before_year(YEAR_MAX as int + 1),
    ensures
        valid_date(r.0 as int, r.1 as int, r.2 as int),
        days_from_civil(r.0 as int, r.1 as int, r.2 as int) == days as int,
{
    let mut y: i64 = 1970;
    let mut rem: i64 = days;
    loop
        invariant
            1970 <= y <= YEAR_MAX + 1,
            0 <= rem,
            days_before_year(y as int) + rem == days as int,
            (days as int) < days_before_year(YEAR_MAX as int + 1),
            0 <= days,
        ensures
            rem < days_in_year(y as int),
            1970 <= y <= YEAR_MAX,
        decreases rem,
    {
        let dy = days_in_year_x(y);
        if rem < dy {
            proof {
                assert(y <= YEAR_MAX) by {
                    if y as int == YEAR_MAX as int + 1 {
                        assert(days_before_year(y as int) <= days as int);
                    }
                }
            }
            break ;
        }
        rem = rem - dy;
        y = y + 1;
        proof {
            assert(y <= YEAR_MAX + 1) by {
                if y as int > YEAR_MAX as int + 1 {
                    lemma_dby_monotonic(YEAR_MAX as int + 1, y as int);
                    assert(days_before_year(YEAR_MAX as int + 1) <= days_before_year(y as int));
                }
            }
        }
    }
    let mut m: i64 = 1;
    let ghost rem0 = rem as int;
    loop
        invariant
            1 <= m <= 12,
            0 <= rem,
            1970 <= y <= YEAR_MAX,
            days_before_month(y as int, m as int) + rem == rem0,
            rem0 < days_in_year(y as int),
            days_before_year(y as int) + rem0 == days as int,
        ensures
            rem < days_in_month(y as int, m as int),
            1 <= m <= 12,
            days_before_month(y as int, m as int) + rem == rem0,
        decreases rem,
    {
        let dm = days_in_month_x(y, m);
        if rem < dm {
            break ;
        }
        rem = rem - dm;
        m = m + 1;
        proof {
            if m as int == 13 {
                lemma_months_sum(y as int);
            }
        }
    }
    (y, m, rem + 1)
}

/// Day counts to year starts grow with the year.
pub proof fn lemma_dby_monotonic(y1: int, y2: int)
    requires
        1970 <= y1 <= y2,
    ensures
        days_before_year(y1) <= days_before_year(y2),
    decreases y2 - y1,
{
    if y1 < y2 {
        lemma_dby_monotonic(y1, y2 - 1);
    }
}

/// The epoch day number of the civil date `y-m-d`.
pub fn days_from_civil_x(y: i64, m: i64, d: i64) -> (r: i64)
    requires
        1970 <= y <= YEAR_MAX + 1,
        1 <= m <= 12,
        1 <= d <= 31,
    ensures
        r as int == days_from_civil(y as int, m as int, d as int),
        0 <= r <= 85_000,
{
    let mut yy: i64 = 1970;
    let mut acc: i64 = 0;
    while yy < y
        invariant
            1970 <= yy <= y <= YEAR_MAX + 1,
            acc as int == days_before_year(yy as int),
            0 <= acc <= 366 * (yy - 1970),
        decreases y - yy,
    {
        let dy = days_in_year_x(yy);
        acc = acc + dy;
        yy = yy + 1;
        proof {
            lemma_dby_bounds(yy as int);
        }
    }
    let mut mm: i64 = 1;
    let mut macc: i64 = 0;
    while mm < m
        invariant
            1 <= mm <= m <= 12,
            macc as int == days_before_month(y as int, mm as int),
            0 <= macc <= 31 * (mm - 1),
        decreases m - mm,
    {
        let dm = days_in_month_x(y, mm);
        macc = macc + dm;
        mm = mm + 1;
        proof {
            lemma_dbm_bounds(y as int, mm as int);
        }
    }
    proof {
        lemma_dby_bounds(y as int);
    }
    acc + macc + (d - 1)
}

/// Midnight starting month `m` of year `y`, as a timestamp.
pub fn month_start_ns_x(y: i64, m: i64) -> (r: i64)
    requires
        1970 <= y <= YEAR_MAX + 1,
        1 <= m <= 12,
    ensures
        r as int == month_start_ns(y as int, m as int),
        0 <= r <= 7_344_000_000_000_000_000,
{
    let d = days_from_civil_x(y, m, 1);
    proof {
        lemma_dfc_bounds(y as int, m as int, 1);
    }
    d * DAY_NS
}

/// The year and month whose month `ts` falls in, with the month's start
/// and the start of the following month bracketing `ts`.
pub fn month_of_ts(ts: i64) -> (r: (i64, i64))
    requires
        0 <= ts,
        (ts as int) < month_start_ns(YEAR_MAX as int, 12),
    ensures
        1970 <= r.0 <= YEAR_MAX,
        1 <= r.1 <= 12,
        month_start_ns(r.0 as int, r.1 as int) <= (ts as int),
        (ts as int) < month_start_ns(next_month(r.0 as int, r.1 as int).0, next_month(
            r.0 as int,
            r.1 as int,
        ).1),
{
    let day: i64 = ts / DAY_NS;
    proof {
        assert(0 <= day as int);
        assert(day as int * (DAY_NS as int) <= ts as int) by {
            vstd::arithmetic::div_mod::lemma_fundamental_div_mod((ts as int), DAY_NS as int);
            vstd::arithmetic::mul::lemma_mul_is_commutative(day as int, DAY_NS as int);
        }
        assert((ts as int) < (day as int + 1) * (DAY_NS as int)) by {
            vstd::arithmetic::div_mod::lemma_fundamental_div_mod((ts as int), DAY_NS as int);
            vstd::arithmetic::mul::lemma_mul_is_distributive_add_other_way(
                DAY_NS as int,
                day as int,
                1,
            );
            vstd::arithmetic::mul::lemma_mul_is_commutative(day as int, DAY_NS as int);
        }
        assert((day as int) < days_before_year(YEAR_MAX as int + 1)) by {
            lemma_dfc_bounds(YEAR_MAX as int, 12 as int, 1);
            lemma_months_sum(YEAR_MAX as int);
            lemma_dbm_bounds(YEAR_MAX as int, 12);
            if day as int >= days_from_civil(YEAR_MAX as int, 12, 1) {
                vstd::arithmetic::mul::lemma_mul_inequality(
                    days_from_civil(YEAR_MAX as int, 12, 1),
                    day as int,
                    DAY_NS as int,
                );
            }
            assert(days_from_civil(YEAR_MAX as int, 12, 1) < days_before_year(
                YEAR_MAX as int + 1,
            ));
        }
    }
    let (y, m, d) = civil_from_days(day);
    proof {
        // month_start(y, m) <= day * DAY_NS <= ts
        assert(days_from_civil(y as int, m as int, 1) <= day as int);
        vstd::arithmetic::mul::lemma_mul_inequality(
            days_from_civil(y as int, m as int, 1),
            day as int,
            DAY_NS as int,
        );
        // ts < (day + 1) * DAY_NS <= next month start * DAY_NS
        let (ny, nm) = next_month(y as int, m as int);
        assert(days_from_civil(ny, nm, 1) == days_from_civil(y as int, m as int, 1)
            + days_in_month(y as int, m as int)) by {
            if m as int == 12 {
                lemma_months_sum(y as int);
            }
        }
        assert(day as int + 1 <= days_from_civil(ny, nm, 1));
        vstd::arithmetic::mul::lemma_mul_inequality(
            day as int + 1,
            days_from_civil(ny, nm, 1),
            DAY_NS as int,
        );
    }
    (y, m)
}

/// The month boundary nearest to `ts`; on an exact tie the following
/// month's start wins.
pub fn nearest_month_start(ts: i64) -> (r: i64)
    requires
        0 <= ts,
        (ts as int) < month_start_ns(YEAR_MAX as int, 12),
    ensures
        r as int == nearest_month_ns(ts as int),
        is_month_start(r as int),
        0 <= r,
{
    let (y, m) = month_of_ts(ts);
    let prev = month_start_ns_x(y, m);
    let (ny, nm) = if m == 12 {
        (y + 1, 1)
    } else {
        (y, m + 1)
    };
    let next = month_start_ns_x(ny, nm);
    proof {
        lemma_month_of_is(ts as int, y as int, m as int);
    }
    if ts - prev < next - ts {
        prev
    } else {
        next
    }
}

/// A bracketing month found by computation is the month `month_of` names.
pub proof fn lemma_month_of_is(ts: int, y: int, m: int)
    requires
        month_brackets(ts, y, m),
    ensures
        month_of(ts) == (y, m),
{
    assert(exists|y2: int, m2: int| month_brackets(ts, y2, m2));
    let (yc, mc) = month_of(ts);
    assert(month_brackets(ts, yc, mc));
    lemma_month_brackets_unique(ts, y, m, yc, mc);
}

/// An ASCII decimal digit.
pub open spec fn is_digit(c: u8) -> bool {
    0x30 <= c <= 0x39
}

/// Value of the digit at `i`.
pub open spec fn digit_at(s: Seq<u8>, i: int) -> int {
    s[i] - 0x30
}

/// Two-digit number at `i`.
pub open spec fn num2(s: Seq<u8>, i: int) -> int {
    digit_at(s, i) * 10 + digit_at(s, i + 1)
}

/// Four-digit number at `i`.
pub open spec fn num4(s: Seq<u8>, i: int) -> int {
    digit_at(s, i) * 1000 + digit_at(s, i + 1) * 100 + digit_at(s, i + 2) * 10 + digit_at(s, i + 3)
}

/// A well-formed `YYYY-MM-DDTHH:MM:SSZ` string denoting a supported date.
pub open spec fn datestr_wf(s: Seq<u8>) -> bool {
    &&& s.len() == 20
    &&& is_digit(s[0]) && is_digit(s[1]) && is_digit(s[2]) && is_digit(s[3])
    &&& s[4] == 0x2d
    &&& is_digit(s[5]) && is_digit(s[6])
    &&& s[7] == 0x2d
    &&& is_digit(s[8]) && is_digit(s[9])
    &&& s[10] == 0x54
    &&& is_digit(s[11]) && is_digit(s[12])
    &&& s[13] == 0x3a
    &&& is_digit(s[14]) && is_digit(s[15])
    &&& s[16] == 0x3a
    &&& is_digit(s[17]) && is_digit(s[18])
    &&& s[19] == 0x5a
    &&& valid_date(num4(s, 0), num2(s, 5), num2(s, 8))
    &&& num2(s, 11) < 24
    &&& num2(s, 14) < 60
    &&& num2(s, 17) < 60
}

/// The timestamp a well-formed date string denotes.
pub open spec fn datestr_ts(s: Seq<u8>) -> int {
    days_from_civil(num4(s, 0), num2(s, 5), num2(s, 8)) * (DAY_NS as int) + (num2(s, 11) * 3600
        + num2(s, 14) * 60 + num2(s, 17)) * (SEC_NS as int)
}

/// An ASCII decimal digit, executable.
pub fn digit_ok(c: u8) -> (r: bool)
    ensures
        r == is_digit(c),
{
    0x30 <= c && c <= 0x39
}

/// Parse a `YYYY-MM-DDTHH:MM:SSZ` string; `None` exactly on malformed or
/// out-of-window input.
pub fn parse_datestr(s: &[u8]) -> (r: Option<i64>)
    ensures
        r.is_some() <==> datestr_wf(s@),
        match r {
            Some(v) => v as int == datestr_ts(s@),
            None => !datestr_wf(s@),
        },
{
    if s.len() != 20 {
        return None;
    }
    if !(digit_ok(s[0]) && digit_ok(s[1]) && digit_ok(s[2]) && digit_ok(s[3]) && digit_ok(s[5])
        && digit_ok(s[6]) && digit_ok(s[8]) && digit_ok(s[9]) && digit_ok(s[11]) && digit_ok(s[12])
        && digit_ok(s[14]) && digit_ok(s[15]) && digit_ok(s[17]) && digit_ok(s[18])) {
        return None;
    }
    if s[4] != 0x2d || s[7] != 0x2d || s[10] != 0x54 || s[13] != 0x3a || s[16] != 0x3a || s[19]
        != 0x5a {
        return None;
    }
    let y: i64 = (s[0] - 0x30) as i64 * 1000 + (s[1] - 0x30) as i64 * 100 + (s[2] - 0x30) as i64
        * 10 + (s[3] - 0x30) as i64;
    let m: i64 = (s[5] - 0x30) as i64 * 10 + (s[6] - 0x30) as i64;
    let d: i64 = (s[8] - 0x30) as i64 * 10 + (s[9] - 0x30) as i64;
    let hh: i64 = (s[11] - 0x30) as i64 * 10 + (s[12] - 0x30) as i64;
    let mi: i64 = (s[14] - 0x30) as i64 * 10 + (s[15] - 0x30) as i64;
    let sec: i64 = (s[17] - 0x30) as i64 * 10 + (s[18] - 0x30) as i64;
    if y < 1970 || y > YEAR_MAX || m < 1 || m > 12 || d < 1 {
        return None;
    }
    let dim = days_in_month_x(y, m);
    if d > dim {
        return None;
    }
    if hh >= 24 || mi >= 60 || sec >= 60 {
        return None;
    }
    let day = days_from_civil_x(y, m, d);
    Some(day * DAY_NS + (hh * 3600 + mi * 60 + sec) * SEC_NS)
}

/// A decimal digit splits off its low digit.
proof fn lemma_digit_split(y: int, p: int)
    requires
        0 <= y,
        1 <= p,
    ensures
        y == (y / 10) * 10 + y % 10,
        0 <= y % 10 <= 9,
        0 <= y / 10,
{
    vstd::arithmetic::div_mod::lemma_fundamental_div_mod(y, 10);
    vstd::arithmetic::div_mod::lemma_div_pos_is_pos(y, 10);
}

/// Recomposing a number at most 9999 from its four decimal digits.
proof fn lemma_digits4(y: int)
    requires
        0 <= y <= 9999,
    ensures
        y == (y / 1000) * 1000 + ((y / 100) % 10) * 100 + ((y / 10) % 10) * 10 + y % 10,
        0 <= y / 1000 <= 9,
        0 <= (y / 100) % 10 <= 9,
        0 <= (y / 10) % 10 <= 9,
        0 <= y % 10 <= 9,
{
    lemma_digit_split(y, 1);
    lemma_digit_split(y / 10, 1);
    lemma_digit_split(y / 100, 1);
    vstd::arithmetic::div_mod::lemma_div_denominator(y, 10, 10);
    vstd::arithmetic::div_mod::lemma_div_denominator(y, 100, 10);
    vstd::arithmetic::div_mod::lemma_div_is_ordered(y, 9999, 1000);
    vstd::arithmetic::div_mod::lemma_div_pos_is_pos(y, 1000);
}

/// Recomposing a number at most 99 from its two decimal digits.
proof fn lemma_digits2(y: int)
    requires
        0 <= y <= 99,
    ensures
        y == (y / 10) * 10 + y % 10,
        0 <= y / 10 <= 9,
        0 <= y % 10 <= 9,
{
    lemma_digit_split(y, 1);
    vstd::arithmetic::div_mod::lemma_div_is_ordered(y, 99, 10);
}

/// Format `ts` as `YYYY-MM-DDTHH:MM:SSZ`, truncating to the whole second.
pub fn format_datestr(ts: i64) -> (r: Vec<u8>)
    requires
        0 <= ts,
        (ts as int) < month_start_ns(YEAR_MAX as int, 12),
    ensures
        datestr_wf(r@),
        datestr_ts(r@) == ((ts as int) / (SEC_NS as int)) * (SEC_NS as int),
{
    let day: i64 = ts / DAY_NS;
    let rem_ns: i64 = ts % DAY_NS;
    let sec_of_day: i64 = rem_ns / SEC_NS;
    proof {
        vstd::arithmetic::div_mod::lemma_fundamental_div_mod(ts as int, DAY_NS as int);
        vstd::arithmetic::div_mod::lemma_div_pos_is_pos(ts as int, DAY_NS as int);
        vstd::arithmetic::div_mod::lemma_fundamental_div_mod(rem_ns as int, SEC_NS as int);
        vstd::arithmetic::div_mod::lemma_div_pos_is_pos(rem_ns as int, SEC_NS as int);
        // day is in the supported window
        assert((day as int) < days_before_year(YEAR_MAX as int + 1)) by {
            lemma_dfc_bounds(YEAR_MAX as int, 12, 1);
            lemma_months_sum(YEAR_MAX as int);
            lemma_dbm_bounds(YEAR_MAX as int, 12);
            if day as int >= days_from_civil(YEAR_MAX as int, 12, 1) {
                vstd::arithmetic::mul::lemma_mul_inequality(
                    days_from_civil(YEAR_MAX as int, 12, 1),
                    day as int,
                    DAY_NS as int,
                );
                vstd::arithmetic::mul::lemma_mul_is_commutative(day as int, DAY_NS as int);
            }
        }
    }
    let (y, m, d) = civil_from_days(day);
    let hh: i64 = sec_of_day / 3600;
    let rem_s: i64 = sec_of_day % 3600;
    let mi: i64 = rem_s / 60;
    let ss: i64 = rem_s % 60;
    proof {
        vstd::arithmetic::div_mod::lemma_fundamental_div_mod(sec_of_day as int, 3600);
        vstd::arithmetic::div_mod::lemma_div_pos_is_pos(sec_of_day as int, 3600);
        vstd::arithmetic::div_mod::lemma_fundamental_div_mod(rem_s as int, 60);
        vstd::arithmetic::div_mod::lemma_div_pos_is_pos(rem_s as int, 60);
        assert(sec_of_day < 86400) by {
            vstd::arithmetic::div_mod::lemma_div_is_ordered(
                rem_ns as int,
                DAY_NS as int - 1,
                SEC_NS as int,
            );
            vstd::arithmetic::div_mod::lemma_div_multiples_vanish_fancy(
                86399,
                SEC_NS as int - 1,
                SEC_NS as int,
            );
            assert((SEC_NS as int) * 86399 + (SEC_NS as int - 1) == DAY_NS as int - 1);
        }
        vstd::arithmetic::div_mod::lemma_div_is_ordered(sec_of_day as int, 86399, 3600);
    }
    let mut out: Vec<u8> = Vec::new();
    push4(&mut out, y);
    out.push(0x2d);
    push2(&mut out, m);
    out.push(0x2d);
    push2(&mut out, d);
    out.push(0x54);
    push2(&mut out, hh);
    out.push(0x3a);
    push2(&mut out, mi);
    out.push(0x3a);
    push2(&mut out, ss);
    out.push(0x5a);
    proof {
        lemma_digits4(y as int);
        lemma_digits2(m as int);
        lemma_digits2(d as int);
        lemma_digits2(hh as int);
        lemma_digits2(mi as int);
        lemma_digits2(ss as int);
        assert(num4(out@, 0) == y as int);
        assert(num2(out@, 5) == m as int);
        assert(num2(out@, 8) == d as int);
        assert(num2(out@, 11) == hh as int);
        assert(num2(out@, 14) == mi as int);
        assert(num2(out@, 17) == ss as int);
        // the denoted timestamp is ts truncated to the second
        assert(datestr_ts(out@) == (day as int) * (DAY_NS as int) + (sec_of_day as int) * (
        SEC_NS as int));
        lemma_second_truncation(ts as int, day as int, rem_ns as int, sec_of_day as int);
    }
    out
}

/// `ts / SEC * SEC == day * DAY + sec_of_day * SEC` for the divisions the
/// formatter makes.
proof fn lemma_second_truncation(ts: int, day: int, rem_ns: int, sec_of_day: int)
    requires
        ts >= 0,
        day == ts / (DAY_NS as int),
        rem_ns == ts % (DAY_NS as int),
        sec_of_day == rem_ns / (SEC_NS as int),
    ensures
        (ts / (SEC_NS as int)) * (SEC_NS as int) == day * (DAY_NS as int) + sec_of_day * (
        SEC_NS as int),
{
    let sec = SEC_NS as int;
    let dayns = DAY_NS as int;
    vstd::arithmetic::div_mod::lemma_fundamental_div_mod(ts, dayns);
    vstd::arithmetic::div_mod::lemma_fundamental_div_mod(rem_ns, sec);
    let r2 = rem_ns % sec;
    assert(ts == sec * (86400 * day + sec_of_day) + r2) by (nonlinear_arith)
        requires
            ts == dayns * day + rem_ns,
            rem_ns == sec * sec_of_day + r2,
            dayns == 86400 * sec,
    ;
    vstd::arithmetic::div_mod::lemma_fundamental_div_mod_converse(
        ts,
        sec,
        86400 * day + sec_of_day,
        r2,
    );
    assert((86400 * day + sec_of_day) * sec == day * dayns + sec_of_day * sec) by (nonlinear_arith)
        requires
            dayns == 86400 * sec,
    ;
}

/// Push the four decimal digits of `y`.
fn push4(out: &mut Vec<u8>, y: i64)
    requires
        0 <= y <= 9999,
    ensures
        final(out)@ =~= old(out)@ + seq![
            (0x30 + y as int / 1000) as u8,
            (0x30 + (y as int / 100) % 10) as u8,
            (0x30 + (y as int / 10) % 10) as u8,
            (0x30 + y as int % 10) as u8,
        ],
{
    proof {
        lemma_digits4(y as int);
    }
    out.push(0x30 + (y / 1000) as u8);
    out.push(0x30 + ((y / 100) % 10) as u8);
    out.push(0x30 + ((y / 10) % 10) as u8);
    out.push(0x30 + (y % 10) as u8);
}

/// Push the two decimal digits of `y`.
fn push2(out: &mut Vec<u8>, y: i64)
    requires
        0 <= y <= 99,
    ensures
        final(out)@ =~= old(out)@ + seq![
            (0x30 + y as int / 10) as u8,
            (0x30 + y as int % 10) as u8,
        ],
{
    proof {
        lemma_digits2(y as int);
    }
    out.push(0x30 + (y / 10) as u8);
    out.push(0x30 + (y % 10) as u8);
}

impl crate::sim::SimState {
    /// The same state with its clock read from a `YYYY-MM-DDTHH:MM:SSZ`
    /// string; callers check the string first with `parse_datestr`.
    pub fn with_datestr(self, s: &[u8]) -> (r: crate::sim::SimState)
        requires
            datestr_wf(s@),
        ensures
            r@.time == datestr_ts(s@),
            r@.bodies == self@.bodies,
    {
        match parse_datestr(s) {
            Some(ts) => self.with_timestamp(ts),
            None => {
                proof {
                    assert(false);
                }
                self
            },
        }
    }
}

/// Whether `ts` lies within `step_ns` of a month boundary: the driver's
/// cue to align a snapshot.
pub fn close_to_month(ts: i64, step_ns: i64) -> (r: bool)
    requires
        0 <= ts,
        (ts as int) < month_start_ns(YEAR_MAX as int, 12),
        step_ns >= 1,
    ensures
        r == month_is_close(ts as int, step_ns as int),
{
    let (y, m) = month_of_ts(ts);
    let prev = month_start_ns_x(y, m);
    let (ny, nm) = if m == 12 {
        (y + 1, 1)
    } else {
        (y, m + 1)
    };
    let next = month_start_ns_x(ny, nm);
    proof {
        lemma_month_of_is(ts as int, y as int, m as int);
    }
    ts - prev < step_ns || next - ts < step_ns
}

} // verus!
