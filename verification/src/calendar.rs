//! Calendar dates and times of day, as plain values, and the calls into
//! `chrono` that validate, shift, subtract and format them.
use chrono::{Datelike, Local, Months, NaiveDate, NaiveDateTime, NaiveTime, Timelike};
use std::fmt::Write;
use crate::text::{all_digits, decimal_value, is_digit};
use vstd::prelude::*;

verus! {

/// The earliest year `chrono::NaiveDate` represents.
pub const MIN_YEAR: i32 = -262143;

/// The latest year `chrono::NaiveDate` represents.
pub const MAX_YEAR: i32 = 262142;

/// Proleptic Gregorian leap year.
pub open spec fn is_leap_year(y: int) -> bool {
    y % 4 == 0 && (y % 100 != 0 || y % 400 == 0)
}

pub open spec fn days_in_month(y: int, m: int) -> int {
    if m == 2 {
        if is_leap_year(y) {
            29
        } else {
            28
        }
    } else if m == 4 || m == 6 || m == 9 || m == 11 {
        30
    } else {
        31
    }
}

/// A calendar day that `chrono::NaiveDate` can hold.
pub open spec fn valid_date(y: int, m: int, d: int) -> bool {
    MIN_YEAR <= y <= MAX_YEAR && 1 <= m <= 12 && 1 <= d <= days_in_month(y, m)
}

/// A time of day that `chrono::NaiveTime::from_hms_opt` accepts.
pub open spec fn valid_time(h: int, mi: int, s: int) -> bool {
    0 <= h < 24 && 0 <= mi < 60 && 0 <= s < 60
}

/// A calendar date and a time of day, to the second, with no time zone.
#[derive(Clone, Copy, Debug, PartialEq, Eq, Structural)]
pub struct DateTime {
    pub year: i32,
    pub month: u32,
    pub day: u32,
    pub hour: u32,
    pub minute: u32,
    pub second: u32,
}

impl DateTime {
    /// Every component is in range and the day exists in its month.
    pub open spec fn wf(self) -> bool {
        valid_date(self.year as int, self.month as int, self.day as int) && valid_time(
            self.hour as int,
            self.minute as int,
            self.second as int,
        )
    }

    /// The date and time from its components, or `None` if that day or
    /// time of day does not exist.
    pub fn from_ymd_hms(year: i32, month: u32, day: u32, hour: u32, minute: u32, second: u32) -> (res:
        Option<DateTime>)
        ensures
            res is Some <==> valid_date(year as int, month as int, day as int) && valid_time(
                hour as int,
                minute as int,
                second as int,
            ),
            res matches Some(dt) ==> dt == (DateTime { year, month, day, hour, minute, second }),
    {
        if date_exists(year, month, day) && time_exists(hour, minute, second) {
            Some(DateTime { year, month, day, hour, minute, second })
        } else {
            None
        }
    }
}

/// Days from the start of year 0 to the start of year `y`.
pub open spec fn days_before_year(y: int) -> int {
    365 * y + (y + 3) / 4 - (y + 99) / 100 + (y + 399) / 400
}

/// Days from the start of year `y` to the start of month `m` of it.
pub open spec fn days_before_month(y: int, m: int) -> int
    decreases m,
{
    if m <= 1 {
        0
    } else {
        days_before_month(y, m - 1) + days_in_month(y, m - 1)
    }
}

/// Days from 0000-01-01 to the given day.
pub open spec fn day_number(y: int, m: int, d: int) -> int {
    days_before_year(y) + days_before_month(y, m) + d - 1
}

/// Seconds from 0000-01-01 00:00:00 to `dt`.
pub open spec fn seconds_of(dt: DateTime) -> int {
    day_number(dt.year as int, dt.month as int, dt.day as int) * 86400 + dt.hour * 3600 + dt.minute
        * 60 + dt.second
}

/// Months from January of year 0 to the month of `dt`.
pub open spec fn month_index(dt: DateTime) -> int {
    dt.year * 12 + dt.month - 1
}

/// `dt` shifted by `n` calendar months, the day clamped to the last day of
/// the resulting month when the month is shorter.
pub open spec fn add_months_spec(dt: DateTime, n: int) -> DateTime {
    let t = month_index(dt) + n;
    let y = t / 12;
    let m = t % 12 + 1;
    let d = if dt.day <= days_in_month(y, m) {
        dt.day as int
    } else {
        days_in_month(y, m)
    };
    DateTime {
        year: y as i32,
        month: m as u32,
        day: d as u32,
        hour: dt.hour,
        minute: dt.minute,
        second: dt.second,
    }
}

/// The year that `add_months_spec(dt, n)` lands in is one `chrono` holds.
pub open spec fn add_months_in_range(dt: DateTime, n: int) -> bool {
    MIN_YEAR <= (month_index(dt) + n) / 12 <= MAX_YEAR
}

/// Chronological order: `a` is strictly earlier than `b`.
pub open spec fn earlier(a: DateTime, b: DateTime) -> bool {
    ||| a.year < b.year
    ||| a.year == b.year && a.month < b.month
    ||| a.year == b.year && a.month == b.month && a.day < b.day
    ||| a.year == b.year && a.month == b.month && a.day == b.day && a.hour < b.hour
    ||| a.year == b.year && a.month == b.month && a.day == b.day && a.hour == b.hour && a.minute
        < b.minute
    ||| a.year == b.year && a.month == b.month && a.day == b.day && a.hour == b.hour && a.minute
        == b.minute && a.second < b.second
}

/// Whether `a` is strictly earlier than `b`.
pub fn is_earlier(a: &DateTime, b: &DateTime) -> (r: bool)
    ensures
        r == earlier(*a, *b),
{
    if a.year != b.year {
        a.year < b.year
    } else if a.month != b.month {
        a.month < b.month
    } else if a.day != b.day {
        a.day < b.day
    } else if a.hour != b.hour {
        a.hour < b.hour
    } else if a.minute != b.minute {
        a.minute < b.minute
    } else {
        a.second < b.second
    }
}

/// `chrono::NaiveDate::from_ymd_opt`: claims that it yields a date exactly
/// when the day exists and the year is within `chrono`'s range.
#[verifier::external_body]
pub(crate) fn date_exists(year: i32, month: u32, day: u32) -> (b: bool)
    ensures
        b == valid_date(year as int, month as int, day as int),
{
    NaiveDate::from_ymd_opt(year, month, day).is_some()
}

/// `chrono::NaiveTime::from_hms_opt`: claims that it yields a time exactly
/// when hour < 24, minute < 60 and second < 60.
#[verifier::external_body]
pub(crate) fn time_exists(hour: u32, minute: u32, second: u32) -> (b: bool)
    ensures
        b == valid_time(hour as int, minute as int, second as int),
{
    NaiveTime::from_hms_opt(hour, minute, second).is_some()
}

/// `chrono::Local::now` (as a naive local date and time). Claims only that
/// the result is a valid date and time; which one depends on the clock.
#[verifier::external_body]
pub(crate) fn local_now() -> (dt: DateTime)
    ensures
        dt.wf(),
{
    let n = Local::now().naive_local();
    DateTime {
        year: n.year(),
        month: n.month(),
        day: n.day(),
        hour: n.hour(),
        minute: n.minute(),
        second: n.second(),
    }
}

/// `chrono::NaiveDateTime::checked_add_months`: claims the shifted date
/// (day clamped to the end of a shorter month, time kept) when its year is
/// within `chrono`'s range, and `None` otherwise.
#[verifier::external_body]
pub(crate) fn checked_add_months(dt: DateTime, n: u32) -> (res: Option<DateTime>)
    requires
        dt.wf(),
    ensures
        add_months_in_range(dt, n as int) ==> res == Some(add_months_spec(dt, n as int)),
        !add_months_in_range(dt, n as int) ==> res is None,
{
    let d = NaiveDate::from_ymd_opt(dt.year, dt.month, dt.day).unwrap();
    let ndt = d.and_hms_opt(dt.hour, dt.minute, dt.second).unwrap();
    match ndt.checked_add_months(Months::new(n)) {
        Some(r) => Some(
            DateTime {
                year: r.year(),
                month: r.month(),
                day: r.day(),
                hour: r.hour(),
                minute: r.minute(),
                second: r.second(),
            },
        ),
        None => None,
    }
}

/// `chrono::NaiveDateTime::signed_duration_since` followed by
/// `TimeDelta::num_seconds`: claims the exact number of seconds from
/// `earlier_dt` to `later_dt` on the proleptic Gregorian calendar.
#[verifier::external_body]
pub(crate) fn seconds_between(later_dt: DateTime, earlier_dt: DateTime) -> (secs: i64)
    requires
        later_dt.wf(),
        earlier_dt.wf(),
    ensures
        secs == seconds_of(later_dt) - seconds_of(earlier_dt),
{
    let a = NaiveDate::from_ymd_opt(later_dt.year, later_dt.month, later_dt.day).unwrap();
    let a = a.and_hms_opt(later_dt.hour, later_dt.minute, later_dt.second).unwrap();
    let b = NaiveDate::from_ymd_opt(earlier_dt.year, earlier_dt.month, earlier_dt.day).unwrap();
    let b = b.and_hms_opt(earlier_dt.hour, earlier_dt.minute, earlier_dt.second).unwrap();
    a.signed_duration_since(b).num_seconds()
}

/// The decimal digits of the last `w` places of `n` (zero-padded to width
/// `w` when `n < 10^w`).
pub open spec fn digits(n: nat, w: nat) -> Seq<char>
    decreases w,
{
    if w == 0 {
        Seq::empty()
    } else {
        digits(n / 10, (w - 1) as nat).push(((n % 10) + 48) as char)
    }
}

/// The characters of an optional string.
pub open spec fn string_view(o: Option<String>) -> Option<Seq<char>> {
    match o {
        Some(s) => Some(s@),
        None => None,
    }
}

/// `YYYY` (year zero-padded to four digits).
pub open spec fn year_stamp(dt: DateTime) -> Seq<char> {
    digits(dt.year as nat, 4)
}

/// `MM-DD`.
pub open spec fn month_day_stamp(dt: DateTime) -> Seq<char> {
    digits(dt.month as nat, 2) + seq!['-'] + digits(dt.day as nat, 2)
}

/// `HH:MM:SS`.
pub open spec fn time_stamp(dt: DateTime) -> Seq<char> {
    digits(dt.hour as nat, 2) + seq![':'] + digits(dt.minute as nat, 2) + seq![':'] + digits(
        dt.second as nat,
        2,
    )
}

/// `YYYY-MM-DD`.
pub open spec fn date_stamp(dt: DateTime) -> Seq<char> {
    year_stamp(dt) + seq!['-'] + month_day_stamp(dt)
}

/// `YYYY-MM-DD HH:MM`.
pub open spec fn minute_stamp(dt: DateTime) -> Seq<char> {
    date_stamp(dt) + seq![' '] + digits(dt.hour as nat, 2) + seq![':'] + digits(dt.minute as nat, 2)
}

/// `YYYY-MM-DD HH:MM:SS`.
pub open spec fn full_stamp(dt: DateTime) -> Seq<char> {
    date_stamp(dt) + seq![' '] + time_stamp(dt)
}

/// What `chrono` renders for `dt` under the strftime template `fmt`, or
/// `None` when rendering fails (an unrecognized directive, or one that
/// needs a time zone).
pub uninterp spec fn strftime_result(fmt: Seq<char>, dt: DateTime) -> Option<Seq<char>>;

/// `dt.format(fmt)` of `chrono`, written out to a string. Claims that the
/// result is a function of the template and the date and time, named
/// `strftime_result`, and, for years 0 through 9999, what the five fixed
/// templates of this library render (the four header shapes and the
/// default `-h/--human` template `%Y-%m-%d %H:%M`): per `chrono`'s documentation `%Y` is
/// the year zero-padded to 4 digits, and `%m`, `%d`, `%H`, `%M`, `%S` are
/// the month, day, hour, minute and second zero-padded to 2 digits, with
/// the characters between them copied; these numeric directives always
/// render for a date and time (only unknown directives and time-zone
/// directives fail on a value without a time zone).
#[verifier::external_body]
pub(crate) fn strftime(fmt: &str, dt: DateTime) -> (res: Option<String>)
    requires
        dt.wf(),
    ensures
        string_view(res) == strftime_result(fmt@, dt),
        fmt@ == "%Y-%m-%d %H:%M:%S"@ || fmt@ == "%Y"@ || fmt@ == "%m-%d"@ || fmt@ == "%H:%M:%S"@
            || fmt@ == "%Y-%m-%d %H:%M"@ ==> res is Some,
        0 <= dt.year <= 9999 && fmt@ == "%Y-%m-%d %H:%M"@ ==> string_view(res) == Some(
            minute_stamp(dt),
        ),
        0 <= dt.year <= 9999 && fmt@ == "%Y-%m-%d %H:%M:%S"@ ==> string_view(res) == Some(
            full_stamp(dt),
        ),
        0 <= dt.year <= 9999 && fmt@ == "%Y"@ ==> string_view(res) == Some(year_stamp(dt)),
        fmt@ == "%m-%d"@ ==> string_view(res) == Some(month_day_stamp(dt)),
        fmt@ == "%H:%M:%S"@ ==> string_view(res) == Some(time_stamp(dt)),
{
    let d = NaiveDate::from_ymd_opt(dt.year, dt.month, dt.day).unwrap();
    let ndt: NaiveDateTime = d.and_hms_opt(dt.hour, dt.minute, dt.second).unwrap();
    let mut out = String::new();
    match write!(out, "{}", ndt.format(fmt)) {
        Ok(()) => Some(out),
        Err(_) => None,
    }
}

/// Whether `chrono`'s strftime parser finds an unrecognized directive in
/// `fmt`.
pub uninterp spec fn strftime_has_error(fmt: Seq<char>) -> bool;

/// `chrono::format::StrftimeItems::new(fmt)`, testing whether any item is
/// `Item::Error`. Claims only that the answer is a function of `fmt`, named
/// `strftime_has_error`.
#[verifier::external_body]
pub(crate) fn strftime_items_have_error(fmt: &str) -> (b: bool)
    ensures
        b == strftime_has_error(fmt@),
{
    chrono::format::StrftimeItems::new(fmt).any(|item| item == chrono::format::Item::Error)
}

/// Days in year `y`.
pub open spec fn days_in_year(y: int) -> int {
    if is_leap_year(y) {
        366
    } else {
        365
    }
}

proof fn lemma_floor_step(y: int, k: int, d: int)
    requires
        d > 0,
    ensures
        (y + k + 1) / d - (y + k) / d == (if (y + k + 1) % d == 0 {
            1int
        } else {
            0int
        }),
{
    let q = (y + k) / d;
    let r = (y + k) % d;
    vstd::arithmetic::div_mod::lemma_fundamental_div_mod(y + k, d);
    vstd::arithmetic::div_mod::lemma_fundamental_div_mod(y + k + 1, d);
    assert(y + k == d * q + r);
    assert((q + 1) * d == q * d + d) by (nonlinear_arith);
    assert(q * d == d * q) by (nonlinear_arith);
    if r + 1 == d {
        vstd::arithmetic::div_mod::lemma_fundamental_div_mod_converse(y + k + 1, d, q + 1, 0);
    } else {
        vstd::arithmetic::div_mod::lemma_fundamental_div_mod_converse(y + k + 1, d, q, r + 1);
    }
}

/// The days from the start of `y` to the start of `y + 1` are that year's.
pub proof fn lemma_days_before_next_year(y: int)
    ensures
        days_before_year(y + 1) == days_before_year(y) + days_in_year(y),
{
    lemma_floor_step(y, 3, 4);
    lemma_floor_step(y, 99, 100);
    lemma_floor_step(y, 399, 400);
    vstd::arithmetic::div_mod::lemma_fundamental_div_mod(y, 4);
    vstd::arithmetic::div_mod::lemma_fundamental_div_mod(y, 100);
    vstd::arithmetic::div_mod::lemma_fundamental_div_mod(y, 400);
    vstd::arithmetic::div_mod::lemma_fundamental_div_mod(y + 4, 4);
    vstd::arithmetic::div_mod::lemma_fundamental_div_mod(y + 100, 100);
    vstd::arithmetic::div_mod::lemma_fundamental_div_mod(y + 400, 400);
    assert((y + 4) % 4 == y % 4) by {
        vstd::arithmetic::div_mod::lemma_mod_add_multiples_vanish(y, 4);
    }
    assert((y + 100) % 100 == y % 100) by {
        vstd::arithmetic::div_mod::lemma_mod_add_multiples_vanish(y, 100);
    }
    assert((y + 400) % 400 == y % 400) by {
        vstd::arithmetic::div_mod::lemma_mod_add_multiples_vanish(y, 400);
    }
}

/// Days before month `m` plus the days of `m` stay within the year.
pub proof fn lemma_days_before_month(y: int, m: int)
    requires
        1 <= m <= 12,
    ensures
        0 <= days_before_month(y, m),
        days_before_month(y, m) + days_in_month(y, m) <= days_in_year(y),
        m < 12 ==> days_before_month(y, m + 1) == days_before_month(y, m) + days_in_month(y, m),
{
    reveal_with_fuel(days_before_month, 13);
}

/// Day numbers grow by one from each day to the next.
pub proof fn lemma_day_number_order(a: DateTime, b: DateTime)
    requires
        a.wf(),
        b.wf(),
        earlier(a, b),
    ensures
        seconds_of(a) < seconds_of(b),
{
    let da = day_number(a.year as int, a.month as int, a.day as int);
    let db = day_number(b.year as int, b.month as int, b.day as int);
    lemma_days_before_month(a.year as int, a.month as int);
    lemma_days_before_month(b.year as int, b.month as int);
    if a.year < b.year {
        lemma_days_before_year_mono(a.year as int + 1, b.year as int);
        lemma_days_before_next_year(a.year as int);
        assert(da < db);
    } else if a.month < b.month {
        lemma_days_before_month_mono(a.year as int, a.month as int + 1, b.month as int);
        lemma_days_before_month(a.year as int, a.month as int);
        assert(da < db);
    }
    if da < db {
        assert(da * 86400 + 86400 <= db * 86400) by (nonlinear_arith)
            requires
                da < db,
        ;
    }
}

proof fn lemma_days_before_year_mono(y1: int, y2: int)
    requires
        y1 <= y2,
    ensures
        days_before_year(y1) <= days_before_year(y2),
    decreases y2 - y1,
{
    if y1 < y2 {
        lemma_days_before_next_year(y1);
        lemma_days_before_year_mono(y1 + 1, y2);
    }
}

proof fn lemma_days_before_month_mono(y: int, m1: int, m2: int)
    requires
        1 <= m1 <= m2 <= 12,
    ensures
        days_before_month(y, m1) <= days_before_month(y, m2),
    decreases m2 - m1,
{
    if m1 < m2 {
        lemma_days_before_month(y, m1);
        lemma_days_before_month_mono(y, m1 + 1, m2);
    }
}

proof fn lemma_month_index_split(t: int)
    ensures
        t == (t / 12) * 12 + (t % 12),
        0 <= t % 12 < 12,
{
    vstd::arithmetic::div_mod::lemma_fundamental_div_mod(t, 12);
    assert(12 * (t / 12) == (t / 12) * 12) by (nonlinear_arith);
}

/// Shifting by `n` months moves the month index by `n`, and the result is
/// a valid date and time when it stays in range.
pub proof fn lemma_add_months(dt: DateTime, n: int)
    requires
        dt.wf(),
        add_months_in_range(dt, n),
    ensures
        add_months_spec(dt, n).wf(),
        month_index(add_months_spec(dt, n)) == month_index(dt) + n,
        n == 0 ==> add_months_spec(dt, n) == dt,
        n % 12 == 0 ==> add_months_spec(dt, n).month == dt.month && add_months_spec(dt, n).year
            == dt.year + n / 12,
{
    let t = month_index(dt) + n;
    lemma_month_index_split(t);
    let r = add_months_spec(dt, n);
    assert(r.year as int == t / 12);
    assert(r.month as int == t % 12 + 1);
    if n == 0 {
        vstd::arithmetic::div_mod::lemma_fundamental_div_mod_converse(
            t,
            12,
            dt.year as int,
            dt.month - 1,
        );
    }
    if n % 12 == 0 {
        let q = n / 12;
        vstd::arithmetic::div_mod::lemma_fundamental_div_mod(n, 12);
        assert(t == (dt.year + q) * 12 + (dt.month - 1)) by (nonlinear_arith)
            requires
                t == dt.year * 12 + dt.month - 1 + n,
                n == 12 * q,
        ;
        vstd::arithmetic::div_mod::lemma_fundamental_div_mod_converse(
            t,
            12,
            dt.year + q,
            dt.month - 1,
        );
    }
}


/// `10^w`.
pub open spec fn pow10(w: nat) -> nat
    decreases w,
{
    if w == 0 {
        1
    } else {
        10 * pow10((w - 1) as nat)
    }
}

/// `digits(n, w)` is `w` decimal digits, and reads back as `n` when `n`
/// has at most `w` digits.
pub proof fn lemma_digits(n: nat, w: nat)
    ensures
        digits(n, w).len() == w,
        all_digits(digits(n, w)),
        n < pow10(w) ==> decimal_value(digits(n, w)) == n,
    decreases w,
{
    if w > 0 {
        let p = digits((n / 10) as nat, (w - 1) as nat);
        lemma_digits((n / 10) as nat, (w - 1) as nat);
        let s = digits(n, w);
        let c = ((n % 10) + 48) as char;
        assert(s == p.push(c));
        assert(s.drop_last() =~= p);
        assert(c as int == n % 10 + 48);
        assert forall|i: int| 0 <= i < s.len() implies is_digit(#[trigger] s[i]) by {
            if i < p.len() {
                assert(s[i] == p[i]);
            }
        }
        if n < pow10(w) {
            assert(n / 10 < pow10((w - 1) as nat));
            assert((n / 10) * 10 + n % 10 == n);
        }
    }
}


/// Two valid dates and times are equal or one is earlier; so a smaller
/// second count means earlier.
pub proof fn lemma_earlier_by_seconds(a: DateTime, b: DateTime)
    requires
        a.wf(),
        b.wf(),
        seconds_of(a) < seconds_of(b),
    ensures
        earlier(a, b),
{
    if !earlier(a, b) {
        if a == b {
        } else {
            assert(earlier(b, a));
            lemma_day_number_order(b, a);
        }
    }
}

/// A valid date and time lies before the start of the next year.
proof fn lemma_seconds_within_year(a: DateTime)
    requires
        a.wf(),
    ensures
        seconds_of(a) < days_before_year(a.year + 1) * 86400,
        seconds_of(a) >= (days_before_year(a.year as int) + days_before_month(
            a.year as int,
            a.month as int,
        ) + a.day - 1) * 86400,
{
    lemma_days_before_month(a.year as int, a.month as int);
    lemma_days_before_next_year(a.year as int);
    let dn = day_number(a.year as int, a.month as int, a.day as int);
    assert(dn + 1 <= days_before_year(a.year + 1));
    assert(dn * 86400 + 86400 <= days_before_year(a.year + 1) * 86400) by (nonlinear_arith)
        requires
            dn + 1 <= days_before_year(a.year + 1),
    ;
}

/// One calendar month on from a valid date and time is at least 28 days on.
pub proof fn lemma_month_step(a: DateTime)
    requires
        a.wf(),
        add_months_in_range(a, 1),
    ensures
        seconds_of(add_months_spec(a, 1)) >= seconds_of(a) + 28 * 86400,
{
    lemma_add_months(a, 1);
    let c = add_months_spec(a, 1);
    let t = month_index(a) + 1;
    lemma_month_index_split(t);
    let da = day_number(a.year as int, a.month as int, a.day as int);
    let dc = day_number(c.year as int, c.month as int, c.day as int);
    lemma_days_before_month(a.year as int, a.month as int);
    if a.month < 12 {
        vstd::arithmetic::div_mod::lemma_fundamental_div_mod_converse(
            t,
            12,
            a.year as int,
            a.month as int,
        );
        assert(c.year == a.year && c.month == a.month + 1);
        assert(dc - da >= 28);
    } else {
        vstd::arithmetic::div_mod::lemma_fundamental_div_mod_converse(t, 12, a.year + 1, 0);
        assert(c.year == a.year + 1 && c.month == 1);
        lemma_days_before_next_year(a.year as int);
        reveal_with_fuel(days_before_month, 13);
        assert(dc - da >= 28);
    }
    assert(dc * 86400 >= da * 86400 + 28 * 86400) by (nonlinear_arith)
        requires
            dc - da >= 28,
    ;
}

/// Two years on from a valid date and time lies after one year and one
/// day on.
pub proof fn lemma_second_year_after_next_day(then: DateTime)
    requires
        then.wf(),
        then.year + 2 <= MAX_YEAR,
    ensures
        seconds_of(add_months_spec(then, 24)) > seconds_of(add_months_spec(then, 12)) + 86400,
{
    lemma_add_months(then, 12);
    lemma_add_months(then, 24);
    let a = add_months_spec(then, 12);
    let b = add_months_spec(then, 24);
    assert(12int % 12 == 0 && 24int % 12 == 0);
    assert(a.year == then.year + 1 && b.year == then.year + 2);
    assert(a.month == then.month && b.month == then.month);
    lemma_seconds_within_year(a);
    lemma_seconds_within_year(b);
    lemma_days_before_month(b.year as int, b.month as int);
    if a.month == 12 && a.day == 31 {
        assert(b.day == 31);
        reveal_with_fuel(days_before_month, 13);
        assert(days_before_month(b.year as int, 12) >= 334);
    } else {
        lemma_days_before_month(a.year as int, a.month as int);
        lemma_days_before_next_year(a.year as int);
        let da = day_number(a.year as int, a.month as int, a.day as int);
        if a.month < 12 {
            lemma_days_before_month(a.year as int, a.month + 1);
        }
        assert(da + 2 <= days_before_year(a.year + 1));
        assert(da * 86400 + 2 * 86400 <= days_before_year(a.year + 1) * 86400) by (nonlinear_arith)
            requires
                da + 2 <= days_before_year(a.year + 1),
        ;
    }
}

} // verus!
