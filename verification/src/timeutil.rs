//! Calendar arithmetic on plain values: instants are seconds since the Unix
//! epoch, dates are (year, month, day) triples in the proleptic Gregorian
//! calendar. This is the model behind every timestamp the guide parser and
//! the schedule cache handle.
use crate::strutil::{push_dec, spec_dec};
use vstd::prelude::*;
use vstd::string::StringExecFns;

verus! {

/// A year is a leap year when it is divisible by 4 but not by 100,
/// or divisible by 400.
pub open spec fn spec_is_leap_year(year: int) -> bool {
    (year % 4 == 0 && year % 100 != 0) || (year % 400 == 0)
}

/// Check whether a given year is a leap year.
pub fn is_leap_year(year: u64) -> (r: bool)
    ensures
        r == spec_is_leap_year(year as int),
{
    (year % 4 == 0 && year % 100 != 0) || (year % 400 == 0)
}

/// Number of days in a year.
pub open spec fn spec_days_in_year(year: int) -> int {
    if spec_is_leap_year(year) {
        366
    } else {
        365
    }
}

/// Number of days in a month (1 = January .. 12 = December).
pub open spec fn spec_days_in_month(year: int, month: int) -> int {
    if month == 2 {
        if spec_is_leap_year(year) {
            29
        } else {
            28
        }
    } else if month == 4 || month == 6 || month == 9 || month == 11 {
        30
    } else {
        31
    }
}

/// Number of days in a month, executable form.
pub fn days_in_month(year: u64, month: u64) -> (r: u64)
    requires
        1 <= month <= 12,
    ensures
        r == spec_days_in_month(year as int, month as int),
{
    if month == 2 {
        if is_leap_year(year) {
            29
        } else {
            28
        }
    } else if month == 4 || month == 6 || month == 9 || month == 11 {
        30
    } else {
        31
    }
}

/// Days from 1970-01-01 to the first day of `year` (negative before 1970).
pub open spec fn spec_days_before_year(year: int) -> int
    decreases
            if year >= 1970 {
                year - 1970
            } else {
                1970 - year
            },
{
    if year == 1970 {
        0
    } else if year > 1970 {
        spec_days_before_year(year - 1) + spec_days_in_year(year - 1)
    } else {
        spec_days_before_year(year + 1) - spec_days_in_year(year)
    }
}

/// Days from the first of January to the first day of `month` within `year`.
pub open spec fn spec_days_before_month(year: int, month: int) -> int
    decreases month,
{
    if month <= 1 {
        0
    } else {
        spec_days_before_month(year, month - 1) + spec_days_in_month(year, month - 1)
    }
}

/// Day number of a civil date, counted from 1970-01-01 as day zero.
pub open spec fn spec_epoch_days(year: int, month: int, day: int) -> int {
    spec_days_before_year(year) + spec_days_before_month(year, month) + (day - 1)
}

/// A civil date the guide format can carry: four-digit year, real month
/// and a day that exists in that month.
pub open spec fn spec_civil_valid(year: int, month: int, day: int) -> bool {
    &&& 0 <= year <= 9999
    &&& 1 <= month <= 12
    &&& 1 <= day <= spec_days_in_month(year, month)
}

/// The instant, in seconds since the Unix epoch, of a civil date and
/// time of day read as UTC.
pub open spec fn spec_civil_secs(year: int, month: int, day: int, hour: int, min: int, sec: int) -> int {
    spec_epoch_days(year, month, day) * 86400 + hour * 3600 + min * 60 + sec
}

proof fn lemma_days_before_year_bounds(year: int)
    requires
        0 <= year <= 10000,
    ensures
        -366 * 1970 <= spec_days_before_year(year) <= 366 * (year - 1970) + 366 * 1970,
        year >= 1970 ==> 365 * (year - 1970) <= spec_days_before_year(year) <= 366 * (year - 1970),
        year < 1970 ==> -366 * (1970 - year) <= spec_days_before_year(year) <= -365 * (1970 - year),
    decreases
            if year >= 1970 {
                year - 1970
            } else {
                1970 - year
            },
{
    if year == 1970 {
    } else if year > 1970 {
        lemma_days_before_year_bounds(year - 1);
    } else {
        lemma_days_before_year_bounds(year + 1);
    }
}

/// Days from 1970-01-01 to the first day of `year`, for years in the
/// four-digit range.
pub fn days_before_year(year: u64) -> (r: i64)
    requires
        year <= 9999,
    ensures
        r == spec_days_before_year(year as int),
{
    proof {
        lemma_days_before_year_bounds(year as int);
    }
    let mut acc: i64 = 0;
    if year >= 1970 {
        let mut yy: u64 = 1970;
        while yy < year
            invariant
                1970 <= yy <= year <= 9999,
                acc == spec_days_before_year(yy as int),
                0 <= acc <= 366 * (yy - 1970),
            decreases year - yy,
        {
            if is_leap_year(yy) {
                acc = acc + 366;
            } else {
                acc = acc + 365;
            }
            yy = yy + 1;
        }
    } else {
        let mut yy: u64 = 1970;
        while yy > year
            invariant
                year <= yy <= 1970,
                acc == spec_days_before_year(yy as int),
                -366 * (1970 - yy) <= acc <= 0,
            decreases yy,
        {
            yy = yy - 1;
            if is_leap_year(yy) {
                acc = acc - 366;
            } else {
                acc = acc - 365;
            }
        }
    }
    acc
}

proof fn lemma_days_before_month_bounds(year: int, month: int)
    requires
        1 <= month <= 13,
    ensures
        0 <= spec_days_before_month(year, month) <= 31 * (month - 1),
    decreases month,
{
    if month > 1 {
        lemma_days_before_month_bounds(year, month - 1);
    }
}

/// For years at or after 1970, the day count to the first of the year sits
/// between 365 and 366 days per elapsed year.
proof fn lemma_days_before_year_lb(year: int)
    requires
        year >= 1970,
    ensures
        365 * (year - 1970) <= spec_days_before_year(year) <= 366 * (year - 1970),
    decreases year - 1970,
{
    if year > 1970 {
        lemma_days_before_year_lb(year - 1);
    }
}

/// The days of a year before December: everything but the last 31 days.
proof fn lemma_dbm_december(year: int)
    ensures
        spec_days_before_month(year, 12) == spec_days_in_year(year) - 31,
{
    assert(spec_days_before_month(year, 1) == 0);
    assert(spec_days_before_month(year, 2) == 31);
    assert(spec_days_before_month(year, 3) == spec_days_before_month(year, 2)
        + spec_days_in_month(year, 2));
    assert(spec_days_before_month(year, 4) == spec_days_before_month(year, 3) + 31);
    assert(spec_days_before_month(year, 5) == spec_days_before_month(year, 4) + 30);
    assert(spec_days_before_month(year, 6) == spec_days_before_month(year, 5) + 31);
    assert(spec_days_before_month(year, 7) == spec_days_before_month(year, 6) + 30);
    assert(spec_days_before_month(year, 8) == spec_days_before_month(year, 7) + 31);
    assert(spec_days_before_month(year, 9) == spec_days_before_month(year, 8) + 31);
    assert(spec_days_before_month(year, 10) == spec_days_before_month(year, 9) + 30);
    assert(spec_days_before_month(year, 11) == spec_days_before_month(year, 10) + 31);
    assert(spec_days_before_month(year, 12) == spec_days_before_month(year, 11) + 30);
}

/// The instant of a civil date and UTC time of day, or `None` when the
/// date or time of day does not exist.
pub fn timestamp_utc(year: u64, month: u64, day: u64, hour: u64, min: u64, sec: u64) -> (r: Option<
    i64,
>)
    ensures
        r is Some <==> (spec_civil_valid(year as int, month as int, day as int) && hour < 24 && min
            < 60 && sec < 60),
        r is Some ==> r->0 == spec_civil_secs(
            year as int,
            month as int,
            day as int,
            hour as int,
            min as int,
            sec as int,
        ),
        r is Some ==> -100_000_000_000 <= r->0 <= 300_000_000_000,
{
    if !(year <= 9999 && 1 <= month && month <= 12) {
        return None;
    }
    if !(1 <= day && day <= days_in_month(year, month)) {
        return None;
    }
    if !(hour < 24 && min < 60 && sec < 60) {
        return None;
    }
    let by: i64 = days_before_year(year);
    proof {
        lemma_days_before_year_bounds(year as int);
        lemma_days_before_month_bounds(year as int, month as int);
    }
    let mut bm: i64 = 0;
    let mut mm: u64 = 1;
    while mm < month
        invariant
            1 <= mm <= month <= 12,
            year <= 9999,
            bm == spec_days_before_month(year as int, mm as int),
            0 <= bm <= 31 * (mm - 1),
        decreases month - mm,
    {
        proof {
            lemma_days_before_month_bounds(year as int, mm as int + 1);
        }
        bm = bm + days_in_month(year, mm) as i64;
        mm = mm + 1;
    }
    let days: i64 = by + bm + (day as i64 - 1);
    let secs: i64 = days * 86400 + (hour as i64) * 3600 + (min as i64) * 60 + sec as i64;
    Some(secs)
}

/// Convert a day count since 1970-01-01 back to a civil date. The result
/// is the unique date in or after 1970 whose day number is `days`.
pub fn days_to_ymd(days: u64) -> (r: (u64, u64, u64))
    ensures
        r.0 >= 1970,
        1 <= r.1 <= 12,
        1 <= r.2 <= spec_days_in_month(r.0 as int, r.1 as int),
        spec_epoch_days(r.0 as int, r.1 as int, r.2 as int) == days as int,
{
    let mut rem: u64 = days;
    let mut year: u64 = 1970;

    loop
        invariant
            year >= 1970,
            rem <= days,
            365 * (year - 1970) <= days - rem,
            spec_days_before_year(year as int) + rem == days as int,
        ensures
            rem < spec_days_in_year(year as int),
            year >= 1970,
            spec_days_before_year(year as int) + rem == days as int,
        decreases rem,
    {
        let days_in_year: u64 = if is_leap_year(year) {
            366
        } else {
            365
        };
        if rem < days_in_year {
            break ;
        }
        proof {
            lemma_days_before_year_lb(year as int);
            lemma_days_before_year_lb(year as int + 1);
        }
        rem = rem - days_in_year;
        year = year + 1;
    }

    let mut month: u64 = 1;
    while month < 12 && rem >= days_in_month(year, month)
        invariant
            1 <= month <= 12,
            rem <= days,
            spec_days_before_year(year as int) + spec_days_before_month(year as int, month as int)
                + rem == days as int,
            rem + spec_days_before_month(year as int, month as int) < spec_days_in_year(
                year as int,
            ),
        decreases 12 - month,
    {
        rem = rem - days_in_month(year, month);
        month = month + 1;
    }
    proof {
        // In December the leftover is at most 30: the earlier months of any
        // year account for all but the final 31 days.
        if month == 12 {
            lemma_dbm_december(year as int);
        }
    }
    (year, month, rem + 1)
}

/// The digits of `n` padded with zeros on the left to at least two digits.
pub open spec fn spec_pad2(n: int) -> Seq<char> {
    if 0 <= n < 10 {
        seq!['0'] + spec_dec(n)
    } else {
        spec_dec(n)
    }
}

/// The digits of `n` padded with zeros on the left to at least four digits.
pub open spec fn spec_pad4(n: int) -> Seq<char> {
    if 0 <= n < 10 {
        seq!['0', '0', '0'] + spec_dec(n)
    } else if 10 <= n < 100 {
        seq!['0', '0'] + spec_dec(n)
    } else if 100 <= n < 1000 {
        seq!['0'] + spec_dec(n)
    } else {
        spec_dec(n)
    }
}

fn push_pad2(out: &mut String, n: u64)
    ensures
        final(out)@ == old(out)@ + spec_pad2(n as int),
{
    proof {
        reveal_strlit("0");
    }
    if n < 10 {
        out.append("0");
    }
    push_dec(out, n);
}

fn push_pad4(out: &mut String, n: u64)
    ensures
        final(out)@ == old(out)@ + spec_pad4(n as int),
{
    proof {
        reveal_strlit("0");
    }
    if n < 1000 {
        out.append("0");
    }
    if n < 100 {
        out.append("0");
    }
    if n < 10 {
        out.append("0");
    }
    push_dec(out, n);
}

/// The ISO-8601 text of a civil date and UTC time of day:
/// `YYYY-MM-DDThh:mm:ssZ`.
pub open spec fn spec_iso8601(year: int, month: int, day: int, hour: int, min: int, sec: int) -> Seq<
    char,
> {
    spec_pad4(year) + seq!['-'] + spec_pad2(month) + seq!['-'] + spec_pad2(day) + seq!['T']
        + spec_pad2(hour) + seq![':'] + spec_pad2(min) + seq![':'] + spec_pad2(sec) + seq!['Z']
}

/// Format an instant, given as seconds since the Unix epoch, as an
/// ISO-8601 UTC timestamp.
pub fn format_iso8601_utc(secs: u64) -> (r: String)
    ensures
        exists|y: int, m: int, d: int|
            {
                &&& y >= 1970 && 1 <= m <= 12 && 1 <= d <= spec_days_in_month(y, m)
                &&& spec_epoch_days(y, m, d) == secs as int / 86400
                &&& r@ == spec_iso8601(
                    y,
                    m,
                    d,
                    ((secs as int) % 86400) / 3600,
                    ((secs as int) % 3600) / 60,
                    (secs as int) % 60,
                )
            },
{
    proof {
        reveal_strlit("-");
        reveal_strlit("T");
        reveal_strlit(":");
        reveal_strlit("Z");
    }
    let days: u64 = secs / 86400;
    let time_of_day: u64 = secs % 86400;
    let hours: u64 = time_of_day / 3600;
    let minutes: u64 = (time_of_day % 3600) / 60;
    let seconds: u64 = time_of_day % 60;
    let (year, month, day) = days_to_ymd(days);
    let mut out = String::new();
    push_pad4(&mut out, year);
    out.append("-");
    push_pad2(&mut out, month);
    out.append("-");
    push_pad2(&mut out, day);
    out.append("T");
    push_pad2(&mut out, hours);
    out.append(":");
    push_pad2(&mut out, minutes);
    out.append(":");
    push_pad2(&mut out, seconds);
    out.append("Z");
    proof {
        assert((time_of_day % 3600) / 60 == ((secs as int) % 3600) / 60) by (nonlinear_arith)
            requires
                time_of_day == secs % 86400,
        ;
        assert(time_of_day % 60 == (secs as int) % 60) by (nonlinear_arith)
            requires
                time_of_day == secs % 86400,
        ;
    }
    out
}

/// The RFC 3339 text of an instant shifted into a fixed offset: the local
/// civil date and time of day, then the signed `hh:mm` offset.
pub open spec fn spec_rfc3339(local: int, offset: int) -> Seq<char> {
    let days = local / 86400;
    let tod = local % 86400;
    let sign: Seq<char> = if offset < 0 {
        seq!['-']
    } else {
        seq!['+']
    };
    let mag = if offset < 0 {
        -offset
    } else {
        offset
    };
    spec_rfc3339_date(days) + seq!['T'] + spec_pad2(tod / 3600) + seq![':'] + spec_pad2(
        (tod % 3600) / 60,
    ) + seq![':'] + spec_pad2(tod % 60) + sign + spec_pad2(mag / 3600) + seq![':'] + spec_pad2(
        (mag % 3600) / 60,
    )
}

/// The `YYYY-MM-DD` text of the unique civil date with the given day
/// number; stated abstractly through `spec_epoch_days`.
pub open spec fn spec_rfc3339_date(days: int) -> Seq<char> {
    spec_rfc3339_ymd(days)
}

/// The date text for a day number, chosen as the (unique) matching civil
/// date at or after 1970.
pub open spec fn spec_rfc3339_ymd(days: int) -> Seq<char> {
    let t = choose|t: (int, int, int)|
        {
            &&& t.0 >= 1970
            &&& 1 <= t.1 <= 12
            &&& 1 <= t.2 <= spec_days_in_month(t.0, t.1)
            &&& #[trigger] spec_epoch_days(t.0, t.1, t.2) == days
        };
    spec_pad4(t.0) + seq!['-'] + spec_pad2(t.1) + seq!['-'] + spec_pad2(t.2)
}

/// Two civil dates at or after 1970 with one day number are the same date.
pub proof fn lemma_epoch_days_unique(a: (int, int, int), b: (int, int, int))
    requires
        a.0 >= 1970 && 1 <= a.1 <= 12 && 1 <= a.2 <= spec_days_in_month(a.0, a.1),
        b.0 >= 1970 && 1 <= b.1 <= 12 && 1 <= b.2 <= spec_days_in_month(b.0, b.1),
        spec_epoch_days(a.0, a.1, a.2) == spec_epoch_days(b.0, b.1, b.2),
    ensures
        a.0 == b.0 && a.1 == b.1 && a.2 == b.2,
{
    lemma_date_day_range(a.0, a.1, a.2);
    lemma_date_day_range(b.0, b.1, b.2);
    if a.0 < b.0 {
        lemma_days_before_year_mono(a.0 + 1, b.0);
    } else if b.0 < a.0 {
        lemma_days_before_year_mono(b.0 + 1, a.0);
    }
    if a.0 == b.0 {
        if a.1 < b.1 {
            lemma_days_before_month_mono(a.0, a.1 + 1, b.1);
        } else if b.1 < a.1 {
            lemma_days_before_month_mono(a.0, b.1 + 1, a.1);
        }
    }
}

/// A date's day number sits within its year's span and its month's span.
proof fn lemma_date_day_range(y: int, m: int, d: int)
    requires
        1 <= m <= 12,
        1 <= d <= spec_days_in_month(y, m),
    ensures
        spec_days_before_year(y) <= spec_epoch_days(y, m, d) < spec_days_before_year(y)
            + spec_days_in_year(y),
        spec_days_before_year(y) + spec_days_before_month(y, m) <= spec_epoch_days(y, m, d)
            < spec_days_before_year(y) + spec_days_before_month(y, m) + spec_days_in_month(y, m),
{
    lemma_days_before_month_bounds(y, m);
    lemma_dbm_plus_month(y, m);
}

/// A month's days stay within the year.
proof fn lemma_dbm_plus_month(y: int, m: int)
    requires
        1 <= m <= 12,
    ensures
        spec_days_before_month(y, m) + spec_days_in_month(y, m) <= spec_days_in_year(y),
    decreases 12 - m,
{
    if m == 12 {
        lemma_dbm_december(y);
    } else {
        lemma_dbm_plus_month(y, m + 1);
        assert(spec_days_before_month(y, m + 1) == spec_days_before_month(y, m)
            + spec_days_in_month(y, m));
        assert(spec_days_in_month(y, m + 1) >= 28);
    }
}

/// The year day-count grows with the year.
proof fn lemma_days_before_year_mono(lo: int, hi: int)
    requires
        lo <= hi,
    ensures
        spec_days_before_year(lo) + 365 * (hi - lo) <= spec_days_before_year(hi),
    decreases hi - lo,
{
    if lo < hi {
        lemma_days_before_year_mono(lo, hi - 1);
    }
}

/// The month day-count grows with the month.
proof fn lemma_days_before_month_mono(y: int, lo: int, hi: int)
    requires
        1 <= lo <= hi <= 12,
    ensures
        spec_days_before_month(y, lo) + 28 * (hi - lo) <= spec_days_before_month(y, hi),
    decreases hi - lo,
{
    if lo < hi {
        lemma_days_before_month_mono(y, lo, hi - 1);
        assert(spec_days_in_month(y, hi - 1) >= 28);
    }
}

/// Format an instant shifted into a fixed offset as an RFC 3339 timestamp,
/// such as `2026-02-11T19:00:00+01:00`. Instants before the epoch in local
/// time, or offsets of a day or more, are not representable.
pub fn format_rfc3339(secs: i64, offset_secs: i32) -> (r: Option<String>)
    ensures
        r is Some <==> (secs + offset_secs >= 0 && secs <= 100_000_000_000_000 && -86400
            < offset_secs < 86400),
        r is Some ==> (r->0)@ == spec_rfc3339(secs as int + offset_secs as int, offset_secs as int),
{
    if !(-86400 < offset_secs && offset_secs < 86400) {
        return None;
    }
    if secs < -200_000 || secs > 100_000_000_000_000 {
        return None;
    }
    let local_i = secs + offset_secs as i64;
    if local_i < 0 {
        return None;
    }
    let local = local_i as u64;
    let days: u64 = local / 86400;
    let tod: u64 = local % 86400;
    let (year, month, day) = days_to_ymd(days);
    let mut out = String::new();
    proof {
        reveal_strlit("-");
        reveal_strlit("T");
        reveal_strlit(":");
        reveal_strlit("+");
        let t = (year as int, month as int, day as int);
        let w = choose|w: (int, int, int)|
            {
                &&& w.0 >= 1970
                &&& 1 <= w.1 <= 12
                &&& 1 <= w.2 <= spec_days_in_month(w.0, w.1)
                &&& #[trigger] spec_epoch_days(w.0, w.1, w.2) == days as int
            };
        assert(spec_epoch_days(t.0, t.1, t.2) == days as int);
        lemma_epoch_days_unique(t, w);
    }
    push_pad4(&mut out, year);
    out.append("-");
    push_pad2(&mut out, month);
    out.append("-");
    push_pad2(&mut out, day);
    out.append("T");
    push_pad2(&mut out, tod / 3600);
    out.append(":");
    push_pad2(&mut out, (tod % 3600) / 60);
    out.append(":");
    push_pad2(&mut out, tod % 60);
    let (neg, mag): (bool, u64) = if offset_secs < 0 {
        (true, (-offset_secs) as u64)
    } else {
        (false, offset_secs as u64)
    };
    if neg {
        out.append("-");
    } else {
        out.append("+");
    }
    push_pad2(&mut out, mag / 3600);
    out.append(":");
    push_pad2(&mut out, (mag % 3600) / 60);
    Some(out)
}

/// Relies on `std::time::SystemTime::now` and `duration_since`: the number
/// of whole seconds since the Unix epoch, or zero if the clock reads
/// earlier than the epoch. Nothing can be promised of a clock reading.
#[verifier::external_body]
pub(crate) fn now_seconds() -> u64 {
    match std::time::SystemTime::now().duration_since(std::time::UNIX_EPOCH) {
        Ok(d) => d.as_secs(),
        Err(_) => 0,
    }
}

/// Return the current UTC time as an ISO-8601 string.
pub fn chrono_now_iso8601() -> (r: String)
    ensures
        exists|y: int, m: int, d: int, h: int, mi: int, sc: int|
            {
                &&& y >= 1970 && 1 <= m <= 12 && 1 <= d <= spec_days_in_month(y, m)
                &&& 0 <= h < 24 && 0 <= mi < 60 && 0 <= sc < 60
                &&& r@ == #[trigger] spec_iso8601(y, m, d, h, mi, sc)
            },
{
    let now = now_seconds();
    format_iso8601_utc(now)
}

} // verus!
