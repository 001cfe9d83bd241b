//! Dates of log files.

use crate::text;
use vstd::prelude::*;
use vstd::string::*;

verus! {

/// A year has 366 days.
pub open spec fn leap(year: int) -> bool {
    (year % 4 == 0 && year % 100 != 0) || year % 400 == 0
}

/// Whether a year has 366 days.
pub fn is_leap_year(year: u64) -> (r: bool)
    ensures
        r == leap(year as int),
{
    (year % 4 == 0 && year % 100 != 0) || (year % 400 == 0)
}

/// The days of a year.
pub open spec fn days_in_year(year: int) -> int {
    if leap(year) {
        366
    } else {
        365
    }
}

/// The days from the start of 1970 to the start of a year.
pub open spec fn year_start(year: int) -> int
    decreases year,
{
    if year <= 1970 {
        0
    } else {
        year_start(year - 1) + days_in_year(year - 1)
    }
}

/// The days of a month.
pub open spec fn days_in_month(year: int, month: int) -> int {
    if month == 2 {
        if leap(year) {
            29
        } else {
            28
        }
    } else if month == 4 || month == 6 || month == 9 || month == 11 {
        30
    } else {
        31
    }
}

/// The days from the start of a year to the start of a month.
pub open spec fn month_start(year: int, month: int) -> int
    decreases month,
{
    if month <= 1 {
        0
    } else {
        month_start(year, month - 1) + days_in_month(year, month - 1)
    }
}

/// A date and a time of day.
#[derive(Debug, Clone, Copy, PartialEq, Eq, Structural)]
pub struct DateTime {
    pub year: u64,
    pub month: u64,
    pub day: u64,
    pub hour: u64,
    pub minute: u64,
    pub second: u64,
}

/// The date and time are of the calendar and the clock.
pub open spec fn is_date(d: DateTime) -> bool {
    &&& d.year >= 1970
    &&& 1 <= d.month <= 12
    &&& 1 <= d.day <= days_in_month(d.year as int, d.month as int)
    &&& d.hour < 24
    &&& d.minute < 60
    &&& d.second < 60
}

/// The seconds from the start of 1970 to a date and time.
pub open spec fn seconds_to(d: DateTime) -> int {
    (((year_start(d.year as int) + month_start(d.year as int, d.month as int) + d.day - 1) * 24
        + d.hour) * 60 + d.minute) * 60 + d.second
}

/// The days of a year are those of its months.
proof fn lemma_months(year: int)
    ensures
        month_start(year, 13) == days_in_year(year),
{
    reveal_with_fuel(month_start, 14);
}

/// The start of a month comes no later than that of the next.
proof fn lemma_month_order(year: int, a: int, b: int)
    requires
        1 <= a <= b,
    ensures
        month_start(year, a) <= month_start(year, b),
    decreases b - a,
{
    if a < b {
        lemma_month_order(year, a, b - 1);
    }
}

/// The date and time, in UTC, that many seconds after the start of 1970.
pub fn unix_to_ymdhms(secs: u64) -> (r: DateTime)
    ensures
        is_date(r),
        seconds_to(r) == secs,
{
    let second: u64 = secs % 60;
    let minutes: u64 = secs / 60;
    let minute: u64 = minutes % 60;
    let hours: u64 = minutes / 60;
    let hour: u64 = hours % 24;
    let days: u64 = hours / 24;
    let mut rest: u64 = days;
    let mut year: u64 = 1970;
    loop
        invariant_except_break
            1970 <= year,
            year - 1970 + rest <= days,
            days <= 0x1000_0000_0000_0000,
            year_start(year as int) + rest == days,
        ensures
            1970 <= year,
            year_start(year as int) + rest == days,
            rest < days_in_year(year as int),
        decreases rest,
    {
        let n: u64 = if is_leap_year(year) {
            366
        } else {
            365
        };
        if rest < n {
            break;
        }
        rest = rest - n;
        year = year + 1;
    }
    let ghost in_year = rest;
    let feb: u64 = if is_leap_year(year) {
        29
    } else {
        28
    };
    let mut month: u64 = 1;
    proof {
        lemma_months(year as int);
    }
    while month <= 12
        invariant_except_break
            1 <= month <= 13,
        invariant
            1 <= month <= 13,
            feb == days_in_month(year as int, 2),
            in_year < days_in_year(year as int),
            month_start(year as int, month as int) + rest == in_year,
            month_start(year as int, 13) == days_in_year(year as int),
        ensures
            month <= 12,
            rest < days_in_month(year as int, month as int),
        decreases 13 - month,
    {
        let dim: u64 = if month == 2 {
            feb
        } else if month == 4 || month == 6 || month == 9 || month == 11 {
            30
        } else {
            31
        };
        if rest < dim {
            break;
        }
        rest = rest - dim;
        month = month + 1;
    }
    let r = DateTime { year, month, day: rest + 1, hour, minute, second };
    proof {
        assert(secs == minutes * 60 + second);
        assert(minutes == hours * 60 + minute);
        assert(hours == days * 24 + hour);
    }
    r
}

/// The name of the log file that is started at a date and time.
pub open spec fn spec_filename(d: DateTime) -> Seq<char> {
    text::decimal_padded(d.year as nat, 4) + seq!['-'] + text::decimal_padded(d.month as nat, 2)
        + seq!['-'] + text::decimal_padded(d.day as nat, 2) + seq!['_'] + text::decimal_padded(
        d.hour as nat,
        2,
    ) + seq!['-'] + text::decimal_padded(d.minute as nat, 2) + seq!['-'] + text::decimal_padded(
        d.second as nat,
        2,
    ) + seq!['-', 'p', 'e', 'r', 'f', '_', 'l', 'o', 'g', '.', 'c', 's', 'v']
}

/// The name of the log file that is started many seconds after the start of
/// 1970, such as `2026-02-28_13-05-09-perf_log.csv`.
pub fn timestamp_filename(secs: u64) -> (r: String)
    ensures
        exists|d: DateTime| #[trigger]
            is_date(d) && seconds_to(d) == secs && r@ == spec_filename(d),
{
    let d: DateTime = unix_to_ymdhms(secs);
    proof {
        reveal_strlit("-");
        reveal_strlit("_");
        reveal_strlit("-perf_log.csv");
    }
    let mut out: String = String::new();
    text::push_padded(&mut out, d.year, 4);
    out.append("-");
    text::push_padded(&mut out, d.month, 2);
    out.append("-");
    text::push_padded(&mut out, d.day, 2);
    out.append("_");
    text::push_padded(&mut out, d.hour, 2);
    out.append("-");
    text::push_padded(&mut out, d.minute, 2);
    out.append("-");
    text::push_padded(&mut out, d.second, 2);
    out.append("-perf_log.csv");
    assert(out@ =~= spec_filename(d));
    out
}

/// The start of a year comes before that of a later one, by at least its days.
proof fn lemma_year_order(a: int, b: int)
    requires
        1970 <= a < b,
    ensures
        year_start(a) + days_in_year(a) <= year_start(b),
    decreases b - a,
{
    if a < b - 1 {
        lemma_year_order(a, b - 1);
    }
}

/// A date lies within its year.
proof fn lemma_within_year(d: DateTime)
    requires
        is_date(d),
    ensures
        0 <= month_start(d.year as int, d.month as int) + d.day - 1 < days_in_year(d.year as int),
{
    lemma_months(d.year as int);
    lemma_month_order(d.year as int, 1, d.month as int);
    lemma_month_order(d.year as int, d.month + 1, 13);
}

/// Different dates and times are different numbers of seconds after the start of
/// 1970.
pub proof fn law_dates_are_unique(a: DateTime, b: DateTime)
    requires
        is_date(a),
        is_date(b),
        seconds_to(a) == seconds_to(b),
    ensures
        a == b,
{
    let da = year_start(a.year as int) + month_start(a.year as int, a.month as int) + a.day - 1;
    let db = year_start(b.year as int) + month_start(b.year as int, b.month as int) + b.day - 1;
    assert(da == db && a.hour == b.hour && a.minute == b.minute && a.second == b.second);
    lemma_within_year(a);
    lemma_within_year(b);
    if a.year < b.year {
        lemma_year_order(a.year as int, b.year as int);
    }
    if b.year < a.year {
        lemma_year_order(b.year as int, a.year as int);
    }
    let y = a.year as int;
    if a.month < b.month {
        lemma_month_order(y, a.month + 1, b.month as int);
    }
    if b.month < a.month {
        lemma_month_order(y, b.month + 1, a.month as int);
    }
}

/// The first line of a log file.
pub fn csv_header() -> (r: &'static str)
    ensures
        r@ == "elapsed_secs,fps,frame_time_ms,chunk_count,triangle_count_cpu"@,
{
    "elapsed_secs,fps,frame_time_ms,chunk_count,triangle_count_cpu"
}

/// What is to be done with the log file.
#[derive(Debug, Clone, Copy, PartialEq, Eq, Structural)]
pub enum FileStep {
    Open,
    Close,
    Keep,
}

/// What is to be done with the log file: a file is opened when logging is
/// switched on, and closed when it is switched off.
pub fn file_step(enabled: bool, is_open: bool) -> (r: FileStep)
    ensures
        r == (if enabled && !is_open {
            FileStep::Open
        } else if !enabled && is_open {
            FileStep::Close
        } else {
            FileStep::Keep
        }),
{
    if enabled && !is_open {
        FileStep::Open
    } else if !enabled && is_open {
        FileStep::Close
    } else {
        FileStep::Keep
    }
}

/// The days before a year are 365 for each year since 1970 and one more for each leap year
/// among them: every fourth year, but of the full centuries only every fourth.
pub proof fn law_days_before_a_year(year: int)
    requires
        year >= 1970,
    ensures
        year_start(year) == 365 * (year - 1970) + ((year - 1) / 4 - (year - 1) / 100 + (year - 1) / 400)
            - 477,
    decreases year,
{
    if year > 1970 {
        law_days_before_a_year(year - 1);
        lemma_quotients(year - 1);
    }
}

/// How quotients grow from a year to the next.
proof fn lemma_quotients(n: int)
    ensures
        n / 4 - (n - 1) / 4 == if n % 4 == 0 {
            1int
        } else {
            0
        },
        n / 100 - (n - 1) / 100 == if n % 100 == 0 {
            1int
        } else {
            0
        },
        n / 400 - (n - 1) / 400 == if n % 400 == 0 {
            1int
        } else {
            0
        },
        n % 400 == 0 ==> n % 100 == 0,
        n % 100 == 0 ==> n % 4 == 0,
{
    let (a, b, c) = (n / 400, n % 400, (n - 1) / 400);
    assert(n == 400 * a + b && 0 <= b < 400);
    assert(n / 100 == 4 * a + b / 100 && n % 100 == b % 100);
    assert(n / 4 == 100 * a + b / 4 && n % 4 == b % 4);
}

/// The months of a year make up its days. But for February they have 31 and 30 days in
/// turn, once from January to July and once from August on.
pub proof fn law_months_make_a_year(year: int, month: int)
    requires
        1 <= month <= 12,
    ensures
        month_start(year, 13) == days_in_year(year),
        month != 2 ==> days_in_month(year, month) == 30 + (month + month / 8) % 2,
        28 <= days_in_month(year, 2) <= 29,
        month_start(year, month) + days_in_month(year, month) <= days_in_year(year),
{
    reveal_with_fuel(month_start, 14);
}

/// Of two dates the later one is more seconds away from the start of 1970: by a later year,
/// or in the same year a later month, or in the same month a later day, and on the same
/// day by the clock.
pub proof fn law_later_is_more_seconds(a: DateTime, b: DateTime)
    requires
        is_date(a),
        is_date(b),
        a.year == b.year,
        a.month == b.month,
        a.day < b.day || (a.day == b.day && (a.hour < b.hour || (a.hour == b.hour && (a.minute
            < b.minute || (a.minute == b.minute && a.second < b.second))))),
    ensures
        seconds_to(a) < seconds_to(b),
{
}

/// Date and time can be read from the name of a log file, up to the year 9999: four digits
/// of the year, and two each of month, day, hour, minute and second, in this order and
/// with one character between.
pub proof fn law_filename_tells_the_time(d: DateTime)
    requires
        is_date(d),
        d.year < 10000,
    ensures
        ({
            let s = spec_filename(d);
            &&& text::value_of(s.subrange(0, 4)) == d.year
            &&& text::value_of(s.subrange(5, 7)) == d.month
            &&& text::value_of(s.subrange(8, 10)) == d.day
            &&& text::value_of(s.subrange(11, 13)) == d.hour
            &&& text::value_of(s.subrange(14, 16)) == d.minute
            &&& text::value_of(s.subrange(17, 19)) == d.second
        }),
{
    let s = spec_filename(d);
    lemma_padded_len(d.year as nat);
    lemma_padded_len(d.month as nat);
    lemma_padded_len(d.day as nat);
    lemma_padded_len(d.hour as nat);
    lemma_padded_len(d.minute as nat);
    lemma_padded_len(d.second as nat);
    text::law_padded_reads_back(d.year as nat, 4);
    text::law_padded_reads_back(d.month as nat, 2);
    text::law_padded_reads_back(d.day as nat, 2);
    text::law_padded_reads_back(d.hour as nat, 2);
    text::law_padded_reads_back(d.minute as nat, 2);
    text::law_padded_reads_back(d.second as nat, 2);
    assert(s.subrange(0, 4) =~= text::decimal_padded(d.year as nat, 4));
    assert(s.subrange(5, 7) =~= text::decimal_padded(d.month as nat, 2));
    assert(s.subrange(8, 10) =~= text::decimal_padded(d.day as nat, 2));
    assert(s.subrange(11, 13) =~= text::decimal_padded(d.hour as nat, 2));
    assert(s.subrange(14, 16) =~= text::decimal_padded(d.minute as nat, 2));
    assert(s.subrange(17, 19) =~= text::decimal_padded(d.second as nat, 2));
}

/// How many digits small numbers have.
proof fn lemma_padded_len(n: nat)
    ensures
        n < 10000 ==> text::decimal_padded(n, 4).len() == 4,
        n < 100 ==> text::decimal_padded(n, 2).len() == 2,
{
    reveal_with_fuel(text::decimal, 5);
    text::law_padded_reads_back(n, 4);
    text::law_padded_reads_back(n, 2);
    if n < 10000 {
        assert(n / 10 / 10 / 10 < 10);
        assert(text::decimal(n).len() <= 4);
    }
    if n < 100 {
        assert(text::decimal(n).len() <= 2);
    }
}

} // verus!
