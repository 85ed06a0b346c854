use vstd::prelude::*;
use crate::text::{pad_dec, push_padded_decimal, string_push};

verus! {

/// Gregorian leap-year rule.
pub open spec fn is_leap_year(y: int) -> bool {
    y % 4 == 0 && (y % 100 != 0 || y % 400 == 0)
}

/// Days in year `y`.
pub open spec fn year_len(y: int) -> int {
    if is_leap_year(y) { 366 } else { 365 }
}

/// Days in month `m` (1 to 12) of year `y`.
pub open spec fn month_len(y: int, m: int) -> int {
    if m == 2 {
        if is_leap_year(y) { 29 } else { 28 }
    } else if m == 4 || m == 6 || m == 9 || m == 11 {
        30
    } else {
        31
    }
}

/// Counting `days` from the start of year `y`: the year they fall in and
/// the days left into it.
pub open spec fn year_of(days: int, y: int) -> (int, int)
    decreases days,
{
    if days < year_len(y) || days < 0 {
        (y, days)
    } else {
        year_of(days - year_len(y), y + 1)
    }
}

/// Counting `days` from the start of month `m` of year `y`: the month they
/// fall in and the days left into it.
pub open spec fn month_of(days: int, y: int, m: int) -> (int, int)
    decreases 13 - m,
{
    if m >= 12 || days < month_len(y, m) {
        (m, days)
    } else {
        month_of(days - month_len(y, m), y, m + 1)
    }
}

/// The civil date (year, month, day) of a count of days since 1970-01-01.
pub open spec fn spec_days_to_ymd(days: int) -> (int, int, int) {
    let (y, r) = year_of(days, 1970);
    let (m, d) = month_of(r, y, 1);
    (y, m, d + 1)
}

/// Days from the start of year `from` to the start of year `to`.
pub open spec fn days_between_years(from: int, to: int) -> int
    decreases to - from,
{
    if to <= from {
        0
    } else {
        year_len(from) + days_between_years(from + 1, to)
    }
}

/// Days from the start of year `y` to the start of month `m`.
pub open spec fn days_before_month(y: int, m: int) -> int
    decreases m,
{
    if m <= 1 {
        0
    } else {
        days_before_month(y, m - 1) + month_len(y, m - 1)
    }
}

/// Days since 1970-01-01 of a civil date.
pub open spec fn days_from_ymd(y: int, m: int, d: int) -> int {
    days_between_years(1970, y) + days_before_month(y, m) + d - 1
}

/// The UTC timestamp text `YYYY-MM-DDTHH:MM:SSZ` of seconds since the epoch.
pub open spec fn spec_timestamp(secs: nat) -> Seq<char> {
    let (y, m, d) = spec_days_to_ymd((secs / 86400) as int);
    let t = secs % 86400;
    pad_dec(y as nat, 4) + seq!['-'] + pad_dec(m as nat, 2) + seq!['-'] + pad_dec(d as nat, 2) + seq!['T']
        + pad_dec(t / 3600, 2) + seq![':'] + pad_dec((t % 3600) / 60, 2) + seq![':'] + pad_dec(t % 60, 2)
        + seq!['Z']
}

/// Gregorian leap-year rule.
pub fn is_leap(y: u64) -> (r: bool)
    ensures
        r == is_leap_year(y as int),
{
    y % 4 == 0 && (y % 100 != 0 || y % 400 == 0)
}

fn days_in_month(leap: bool, m: u64) -> (r: u64)
    requires
        1 <= m <= 12,
    ensures
        forall|y: int| is_leap_year(y) == leap ==> r == month_len(y, m as int),
{
    if m == 2 {
        if leap { 29 } else { 28 }
    } else if m == 4 || m == 6 || m == 9 || m == 11 {
        30
    } else {
        31
    }
}

/// The civil date (year, month, day) of a count of days since 1970-01-01.
pub fn days_to_ymd(days: u64) -> (r: (u64, u64, u64))
    ensures
        (r.0 as int, r.1 as int, r.2 as int) == spec_days_to_ymd(days as int),
{
    let mut rest: u64 = days;
    let mut year: u64 = 1970;
    loop
        invariant
            year_of(days as int, 1970) == year_of(rest as int, year as int),
            rest <= days,
            (year - 1970) * 365 <= days - rest,
            year >= 1970,
        ensures
            rest < year_len(year as int),
            year_of(days as int, 1970) == (year as int, rest as int),
        decreases rest,
    {
        let days_in_year: u64 = if is_leap(year) { 366 } else { 365 };
        if rest < days_in_year {
            break;
        }
        rest = rest - days_in_year;
        year = year + 1;
    }
    let leap = is_leap(year);
    let ghost r0 = rest as int;
    let mut month: u64 = 1;
    loop
        invariant
            1 <= month <= 12,
            leap == is_leap_year(year as int),
            month_of(r0, year as int, 1) == month_of(rest as int, year as int, month as int),
            rest <= r0 < 366,
        ensures
            month_of(r0, year as int, 1) == (month as int, rest as int),
            rest < 366,
        decreases 12 - month,
    {
        let m = days_in_month(leap, month);
        if month == 12 || rest < m {
            break;
        }
        rest = rest - m;
        month = month + 1;
    }
    (year, month, rest + 1)
}

proof fn lemma_year_of(days: int, y: int)
    requires
        days >= 0,
    ensures
        year_of(days, y).0 >= y,
        0 <= year_of(days, y).1 < year_len(year_of(days, y).0),
        days == days_between_years(y, year_of(days, y).0) + year_of(days, y).1,
    decreases days,
{
    if days >= year_len(y) {
        lemma_year_of(days - year_len(y), y + 1);
    }
}

proof fn lemma_year_is_months(y: int)
    ensures
        days_before_month(y, 12) + month_len(y, 12) == year_len(y),
{
    reveal_with_fuel(days_before_month, 13);
}

proof fn lemma_month_of(r: int, y: int, m: int)
    requires
        1 <= m <= 12,
        r >= 0,
        r + days_before_month(y, m) < year_len(y),
    ensures
        m <= month_of(r, y, m).0 <= 12,
        0 <= month_of(r, y, m).1 < month_len(y, month_of(r, y, m).0),
        month_of(r, y, m).1 + days_before_month(y, month_of(r, y, m).0) == r + days_before_month(y, m),
    decreases 13 - m,
{
    if m >= 12 {
        lemma_year_is_months(y);
    } else if r >= month_len(y, m) {
        lemma_month_of(r - month_len(y, m), y, m + 1);
    }
}

/// Every count of days since the epoch names a valid civil date from 1970
/// on, and that date counts back to the same number of days.
pub proof fn lemma_days_to_ymd_valid(days: int)
    requires
        days >= 0,
    ensures
        spec_days_to_ymd(days).0 >= 1970,
        1 <= spec_days_to_ymd(days).1 <= 12,
        1 <= spec_days_to_ymd(days).2 <= month_len(spec_days_to_ymd(days).0, spec_days_to_ymd(days).1),
        days_from_ymd(spec_days_to_ymd(days).0, spec_days_to_ymd(days).1, spec_days_to_ymd(days).2) == days,
{
    lemma_year_of(days, 1970);
    let (y, r) = year_of(days, 1970);
    assert(days_before_month(y, 1) == 0);
    lemma_month_of(r, y, 1);
}

#[verifier::external_type_specification]
#[verifier::external_body]
pub struct ExSystemTime(std::time::SystemTime);

#[verifier::external_type_specification]
#[verifier::external_body]
pub struct ExSystemTimeError(std::time::SystemTimeError);

/// `SystemTime::now`: this moment on the system clock. Nothing is claimed of
/// it: it is the time.
#[verifier::external_body]
fn system_now() -> std::time::SystemTime {
    std::time::SystemTime::now()
}

/// `SystemTime::duration_since(UNIX_EPOCH)`: how long after the epoch the
/// moment is, or an error when it is before. Nothing is claimed of which.
#[verifier::external_body]
fn since_epoch(t: &std::time::SystemTime) -> std::result::Result<std::time::Duration, std::time::SystemTimeError> {
    t.duration_since(std::time::UNIX_EPOCH)
}

/// `Duration::as_secs`: the whole seconds of a duration. Nothing is claimed
/// of the value.
#[verifier::external_body]
fn duration_secs(d: &std::time::Duration) -> u64 {
    d.as_secs()
}

/// Seconds since the epoch for this moment, from the system clock; 0 when
/// the clock is before the epoch.
fn unix_now_secs() -> u64 {
    let now = system_now();
    match since_epoch(&now) {
        Ok(d) => duration_secs(&d),
        Err(_) => 0,
    }
}

/// The UTC timestamp text `YYYY-MM-DDTHH:MM:SSZ` of seconds since the epoch.
pub fn format_timestamp(secs: u64) -> (r: String)
    ensures
        r@ == spec_timestamp(secs as nat),
{
    let days = secs / 86400;
    let time_of_day = secs % 86400;
    let hours = time_of_day / 3600;
    let minutes = (time_of_day % 3600) / 60;
    let seconds = time_of_day % 60;
    let (year, month, day) = days_to_ymd(days);
    let mut s = String::new();
    push_padded_decimal(&mut s, year, 4);
    string_push(&mut s, '-');
    push_padded_decimal(&mut s, month, 2);
    string_push(&mut s, '-');
    push_padded_decimal(&mut s, day, 2);
    string_push(&mut s, 'T');
    push_padded_decimal(&mut s, hours, 2);
    string_push(&mut s, ':');
    push_padded_decimal(&mut s, minutes, 2);
    string_push(&mut s, ':');
    push_padded_decimal(&mut s, seconds, 2);
    string_push(&mut s, 'Z');
    assert(s@ =~= spec_timestamp(secs as nat));
    s
}

/// The current UTC time as `YYYY-MM-DDTHH:MM:SSZ`.
pub fn now_rfc3339() -> (r: String)
    ensures
        exists|secs: u64| r@ == spec_timestamp(secs as nat),
{
    let secs = unix_now_secs();
    format_timestamp(secs)
}

} // verus!
