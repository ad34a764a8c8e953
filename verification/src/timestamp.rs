//! Local points in time as plain values, and their renderings through
//! `chrono`: the compact stamp used in file names and the RFC 3339 text used
//! in exported documents.

use vstd::prelude::*;
use crate::text::{decimal, digit_char};
use chrono::{Datelike, TimeZone, Timelike};

verus! {

/// A local date and time together with the offset of the local zone from
/// UTC, as `chrono` reports them for a `DateTime<Local>`.
#[derive(Clone, Copy, Debug, PartialEq, Eq)]
pub struct Timestamp {
    pub year: i32,
    pub month: u32,
    pub day: u32,
    pub hour: u32,
    pub minute: u32,
    pub second: u32,
    /// Nanoseconds past the second; from one second up a leap second is in progress.
    pub nanosecond: u32,
    /// Seconds that local time is ahead of UTC.
    pub utc_offset_seconds: i32,
}

/// Whether `year` is a leap year of the proleptic Gregorian calendar.
pub open spec fn is_leap_year(year: int) -> bool {
    year % 4 == 0 && (year % 100 != 0 || year % 400 == 0)
}

/// The number of days of `month` in `year`.
pub open spec fn days_in_month(year: int, month: int) -> int {
    if month == 2 {
        if is_leap_year(year) { 29 } else { 28 }
    } else if month == 4 || month == 6 || month == 9 || month == 11 {
        30
    } else {
        31
    }
}

/// Smallest year that `chrono` represents.
pub open spec fn min_year() -> int {
    -262143
}

/// Largest year that `chrono` represents.
pub open spec fn max_year() -> int {
    262142
}

impl Timestamp {
    /// A valid date and time of day in the range `chrono` covers (short of
    /// its two outermost years), with an offset of less than a day.
    pub open spec fn wf(&self) -> bool {
        &&& min_year() < self.year < max_year()
        &&& 1 <= self.month <= 12
        &&& 1 <= self.day <= days_in_month(self.year as int, self.month as int)
        &&& self.hour < 24
        &&& self.minute < 60
        &&& self.second < 60
        &&& self.nanosecond < 2_000_000_000
        &&& self.nanosecond >= 1_000_000_000 ==> self.second == 59
        &&& -86_400 < self.utc_offset_seconds < 86_400
    }
}

/// `n` in decimal with leading zeros up to `width` digits.
pub open spec fn zero_padded(n: nat, width: nat) -> Seq<char> {
    if decimal(n).len() >= width {
        decimal(n)
    } else {
        Seq::new((width - decimal(n).len()) as nat, |i: int| '0') + decimal(n)
    }
}

/// Two decimal digits of `n` (for `n < 100`).
pub open spec fn two_digits(n: nat) -> Seq<char> {
    seq![digit_char(n / 10), digit_char(n % 10)]
}

/// How `chrono` writes a year for `%Y`: four digits for years 0 to 9999,
/// otherwise an explicit sign followed by at least four digits.
pub open spec fn year_text(year: int) -> Seq<char> {
    if 0 <= year <= 9999 {
        zero_padded(year as nat, 4)
    } else if year < 0 {
        seq!['-'] + zero_padded((-year) as nat, 4)
    } else {
        seq!['+'] + zero_padded(year as nat, 4)
    }
}

/// The `chrono` pattern for the compact stamp in file names.
pub open spec fn compact_pattern() -> Seq<char> {
    "%Y%m%d_%H%M%S"@
}

/// The compact stamp `YYYYMMDD_HHMMSS` of a timestamp (a leap second shows as second 60).
pub open spec fn compact_text(ts: Timestamp) -> Seq<char> {
    year_text(ts.year as int) + two_digits(ts.month as nat) + two_digits(ts.day as nat) + seq!['_']
        + two_digits(ts.hour as nat) + two_digits(ts.minute as nat) + two_digits(
        (ts.second + ts.nanosecond / 1_000_000_000) as nat,
    )
}

/// The number of days from 1970-01-01 to the given date of the proleptic
/// Gregorian calendar (negative before it).
pub open spec fn days_from_civil(year: int, month: int, day: int) -> int {
    let y = if month <= 2 { year - 1 } else { year };
    let era = y / 400;
    let year_of_era = y - era * 400;
    let shifted_month = if month > 2 { month - 3 } else { month + 9 };
    let day_of_year = (153 * shifted_month + 2) / 5 + day - 1;
    let day_of_era = year_of_era * 365 + year_of_era / 4 - year_of_era / 100 + day_of_year;
    era * 146097 + day_of_era - 719468
}

/// The instant a timestamp denotes, in seconds since the Unix epoch: its
/// local date and time less its offset from UTC.
pub open spec fn utc_instant(ts: Timestamp) -> int {
    days_from_civil(ts.year as int, ts.month as int, ts.day as int) * 86400 + ts.hour * 3600 + ts.minute * 60
        + ts.second - ts.utc_offset_seconds
}

/// The fraction of a second as `to_rfc3339` writes it: nothing for whole
/// seconds, otherwise a dot and 3, 6 or 9 digits, the fewest that are exact.
pub open spec fn fraction_text(nanos: nat) -> Seq<char> {
    if nanos == 0 {
        Seq::empty()
    } else if nanos % 1_000_000 == 0 {
        seq!['.'] + zero_padded(nanos / 1_000_000, 3)
    } else if nanos % 1_000 == 0 {
        seq!['.'] + zero_padded(nanos / 1_000, 6)
    } else {
        seq!['.'] + zero_padded(nanos, 9)
    }
}

/// The offset from UTC as `±HH:MM`, rounded to the nearest minute.
pub open spec fn offset_text(offset_seconds: int) -> Seq<char> {
    let sign = if offset_seconds < 0 { '-' } else { '+' };
    let magnitude = if offset_seconds < 0 { -offset_seconds } else { offset_seconds };
    let minutes = (magnitude + 30) / 60;
    seq![sign] + two_digits((minutes / 60) as nat) + seq![':'] + two_digits((minutes % 60) as nat)
}

/// What `DateTime::to_rfc3339` writes for the timestamp:
/// `YYYY-MM-DDTHH:MM:SS`, the fraction of the second, and the offset; a
/// leap second shows as second 60, and a year outside 0 to 9999 carries a
/// sign.
pub open spec fn rfc3339_text(ts: Timestamp) -> Seq<char> {
    let leap = ts.nanosecond >= 1_000_000_000;
    let second = if leap { ts.second + 1 } else { ts.second as int };
    let nanos = if leap { ts.nanosecond - 1_000_000_000 } else { ts.nanosecond as int };
    year_text(ts.year as int) + seq!['-'] + two_digits(ts.month as nat) + seq!['-'] + two_digits(ts.day as nat)
        + seq!['T'] + two_digits(ts.hour as nat) + seq![':'] + two_digits(ts.minute as nat) + seq![':']
        + two_digits(second as nat) + fraction_text(nanos as nat) + offset_text(ts.utc_offset_seconds as int)
}

/// Renders the timestamp with `chrono`'s `format` and the file-name pattern
/// `%Y%m%d_%H%M%S`. The contract restates chrono's rules for `%Y`, `%m`,
/// `%d`, `%H`, `%M` and `%S` (year with four digits or a sign, the others
/// as two zero-padded digits, a leap second as 60).
#[verifier::external_body]
fn chrono_format(ts: &Timestamp, pattern: &str) -> (s: String)
    requires
        ts.wf(),
        pattern@ == compact_pattern(),
    ensures
        s@ == compact_text(*ts),
{
    let date = chrono::NaiveDate::from_ymd_opt(ts.year, ts.month, ts.day).unwrap();
    let time = date.and_hms_nano_opt(ts.hour, ts.minute, ts.second, ts.nanosecond).unwrap();
    time.format(pattern).to_string()
}

/// Renders the timestamp with `chrono`'s `DateTime::<FixedOffset>::to_rfc3339`
/// (the offset is that of the timestamp); the contract restates chrono's
/// `write_rfc3339` with its automatic choice of fraction digits and an
/// offset rounded to minutes.
#[verifier::external_body]
fn chrono_rfc3339(ts: &Timestamp) -> (s: String)
    requires
        ts.wf(),
    ensures
        s@ == rfc3339_text(*ts),
{
    let date = chrono::NaiveDate::from_ymd_opt(ts.year, ts.month, ts.day).unwrap();
    let local = date.and_hms_nano_opt(ts.hour, ts.minute, ts.second, ts.nanosecond).unwrap();
    let offset = chrono::FixedOffset::east_opt(ts.utc_offset_seconds).unwrap();
    offset.from_local_datetime(&local).unwrap().to_rfc3339()
}

/// The local time, per `chrono`'s `Local` zone of this machine, of the
/// instant `seconds` after the Unix epoch (`DateTime::<Utc>::from_timestamp`
/// then `with_timezone(&Local)`). Which zone applies depends on the machine,
/// so the fields are not stated one by one: the result is a valid local time
/// that denotes exactly that instant.
#[verifier::external_body]
fn chrono_local_time_of_epoch(seconds: u32) -> (ts: Timestamp)
    ensures
        ts.wf(),
        ts.nanosecond == 0,
        utc_instant(ts) == seconds,
{
    let utc = chrono::DateTime::<chrono::Utc>::from_timestamp(seconds as i64, 0).unwrap();
    let local = utc.with_timezone(&chrono::Local);
    Timestamp {
        year: local.year(),
        month: local.month(),
        day: local.day(),
        hour: local.hour(),
        minute: local.minute(),
        second: local.second(),
        nanosecond: local.nanosecond(),
        utc_offset_seconds: local.offset().local_minus_utc(),
    }
}

impl Timestamp {
    /// Whether the timestamp is well formed (`wf`).
    pub fn is_valid(&self) -> (b: bool)
        ensures
            b == self.wf(),
    {
        let days: u32 = if self.month == 2 {
            let leap = self.year % 4 == 0 && (self.year % 100 != 0 || self.year % 400 == 0);
            if leap { 29 } else { 28 }
        } else if self.month == 4 || self.month == 6 || self.month == 9 || self.month == 11 {
            30
        } else {
            31
        };
        -262143 < self.year && self.year < 262142
            && 1 <= self.month && self.month <= 12
            && 1 <= self.day && self.day <= days
            && self.hour < 24
            && self.minute < 60
            && self.second < 60
            && self.nanosecond < 2_000_000_000
            && (self.nanosecond < 1_000_000_000 || self.second == 59)
            && -86_400 < self.utc_offset_seconds && self.utc_offset_seconds < 86_400
    }
}

/// The compact stamp `YYYYMMDD_HHMMSS` used in export file names.
pub fn compact_stamp(ts: &Timestamp) -> (s: String)
    requires
        ts.wf(),
    ensures
        s@ == compact_text(*ts),
{
    chrono_format(ts, "%Y%m%d_%H%M%S")
}

/// The timestamp as RFC 3339 text.
pub fn rfc3339(ts: &Timestamp) -> (s: String)
    requires
        ts.wf(),
    ensures
        s@ == rfc3339_text(*ts),
{
    chrono_rfc3339(ts)
}

/// The creation time of an event log record (seconds since the Unix epoch)
/// as RFC 3339 text in this machine's local zone.
pub fn format_timestamp(seconds_since_epoch: u32) -> (s: String)
    ensures
        exists|ts: Timestamp| ts.wf() && utc_instant(ts) == seconds_since_epoch && s@ == rfc3339_text(ts),
{
    let ts = chrono_local_time_of_epoch(seconds_since_epoch);
    rfc3339(&ts)
}

} // verus!
