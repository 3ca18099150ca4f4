//! Calendar dates and wall-clock times as plain numbers.
//!
//! A date is a day number counted as chrono counts it (January 1 of year 1
//! is day 1); a time is a number of seconds after midnight.
use chrono::Datelike;
use chrono::Timelike;
use vstd::prelude::*;

verus! {

/// Day number of the earliest date chrono represents (January 1, 262144 BCE).
pub const MIN_DAY: i32 = -95746129;

/// Day number of the latest date chrono represents (December 31, 262142 CE).
pub const MAX_DAY: i32 = 95745399;

pub const SECONDS_PER_DAY: i64 = 86400;

/// What chrono reads from a text with the format `%Y-%m-%d`, as a day number.
pub uninterp spec fn date_of_text(s: Seq<char>) -> Option<i32>;

/// What chrono reads from a text with the format `%H:%M`, as seconds after midnight.
pub uninterp spec fn time_of_text(s: Seq<char>) -> Option<u32>;

/// How chrono writes the date with the given day number (`%Y-%m-%d`).
pub uninterp spec fn date_text(day: int) -> Seq<char>;

pub open spec fn digit_char(d: int) -> char {
    seq!['0', '1', '2', '3', '4', '5', '6', '7', '8', '9'][d]
}

pub open spec fn two_digits(n: int) -> Seq<char> {
    seq![digit_char(n / 10), digit_char(n % 10)]
}

/// `HH:MM:SS` for a number of seconds after midnight.
pub open spec fn clock_text(secs: int) -> Seq<char> {
    two_digits(secs / 3600) + seq![':'] + two_digits((secs % 3600) / 60) + seq![':'] + two_digits(
        secs % 60,
    )
}

/// Relies on chrono's `NaiveDate::parse_from_str` (format `%Y-%m-%d`) and
/// `num_days_from_ce`: every date chrono returns lies between `NaiveDate::MIN`
/// and `NaiveDate::MAX`.
#[verifier::external_body]
fn parse_day_number(s: &str) -> (r: Option<i32>)
    ensures
        r == date_of_text(s@),
        r matches Some(d) ==> MIN_DAY <= d <= MAX_DAY,
{
    chrono::NaiveDate::parse_from_str(s, "%Y-%m-%d").ok().map(|d| d.num_days_from_ce())
}

/// Relies on chrono's `NaiveTime::parse_from_str` (format `%H:%M`) and
/// `num_seconds_from_midnight`, which counts non-leap seconds below 86400.
#[verifier::external_body]
fn parse_seconds(s: &str) -> (r: Option<u32>)
    ensures
        r == time_of_text(s@),
        r matches Some(t) ==> t < 86400,
{
    chrono::NaiveTime::parse_from_str(s, "%H:%M").ok().map(|t| t.num_seconds_from_midnight())
}

/// Relies on chrono's `NaiveDate::from_num_days_from_ce_opt`, which accepts
/// every day number from `MIN_DAY` to `MAX_DAY`, and on `NaiveDate`'s `Display`.
#[verifier::external_body]
fn day_number_text(day: i32) -> (r: String)
    requires
        MIN_DAY <= day <= MAX_DAY,
    ensures
        r@ == date_text(day as int),
{
    chrono::NaiveDate::from_num_days_from_ce_opt(day).map(|d| d.to_string()).unwrap_or_default()
}

/// Relies on chrono's `NaiveTime::from_num_seconds_from_midnight_opt` with no
/// fraction, and on `NaiveTime`'s `Display`, which then writes two digits each
/// for hours, minutes and seconds.
#[verifier::external_body]
fn seconds_text(secs: u32) -> (r: String)
    requires
        secs < 86400,
    ensures
        r@ == clock_text(secs as int),
{
    chrono::NaiveTime::from_num_seconds_from_midnight_opt(secs, 0).map(|t| t.to_string()).unwrap_or_default()
}

/// A calendar date, as its day number.
#[derive(Clone, Copy, Debug, PartialEq, Eq, Structural, Hash, PartialOrd, Ord)]
pub struct Date {
    pub days: i32,
}

impl Date {
    pub open spec fn wf(self) -> bool {
        MIN_DAY <= self.days <= MAX_DAY
    }

    /// Reads a date written `YYYY-MM-DD`.
    pub fn parse(s: &str) -> (r: Option<Date>)
        ensures
            r matches Some(d) ==> d.wf() && date_of_text(s@) == Some(d.days),
            r is None <==> date_of_text(s@) is None,
    {
        match parse_day_number(s) {
            Some(days) => Some(Date { days }),
            None => None,
        }
    }

    /// The date written `YYYY-MM-DD`.
    pub fn to_text(&self) -> (r: String)
        requires
            self.wf(),
        ensures
            r@ == date_text(self.days as int),
    {
        day_number_text(self.days)
    }
}

/// A wall-clock time of day, as seconds after midnight.
#[derive(Clone, Copy, Debug, PartialEq, Eq, Structural, Hash, PartialOrd, Ord)]
pub struct Time {
    pub secs: u32,
}

impl Time {
    pub open spec fn wf(self) -> bool {
        self.secs < 86400
    }

    /// Reads a time written `HH:MM`.
    pub fn parse(s: &str) -> (r: Option<Time>)
        ensures
            r matches Some(t) ==> t.wf() && time_of_text(s@) == Some(t.secs),
            r is None <==> time_of_text(s@) is None,
    {
        match parse_seconds(s) {
            Some(secs) => Some(Time { secs }),
            None => None,
        }
    }

    /// The time written `HH:MM:SS`.
    pub fn to_text(&self) -> (r: String)
        requires
            self.wf(),
        ensures
            r@ == clock_text(self.secs as int),
    {
        seconds_text(self.secs)
    }
}

/// A date together with a time of day.
#[derive(Clone, Copy, Debug, PartialEq, Eq, Structural, Hash, PartialOrd, Ord)]
pub struct DateTime {
    pub date: Date,
    pub time: Time,
}

impl DateTime {
    pub open spec fn wf(self) -> bool {
        self.date.wf() && self.time.wf()
    }

    /// Seconds since the start of day zero.
    pub open spec fn seconds(self) -> int {
        self.date.days * SECONDS_PER_DAY + self.time.secs
    }

    pub fn new(date: Date, time: Time) -> (r: DateTime)
        ensures
            r.date == date && r.time == time,
    {
        DateTime { date, time }
    }

    /// `YYYY-MM-DD HH:MM:SS`.
    pub fn to_text(&self) -> (r: String)
        requires
            self.wf(),
        ensures
            r@ == date_text(self.date.days as int) + seq![' '] + clock_text(self.time.secs as int),
    {
        let mut s = self.date.to_text();
        s.append(" ");
        let t = self.time.to_text();
        s.append(t.as_str());
        proof {
            reveal_strlit(" ");
        }
        s
    }

    /// Whether `self` comes no later than `other`.
    pub fn no_later_than(&self, other: &DateTime) -> (r: bool)
        requires
            self.wf(),
            other.wf(),
        ensures
            r == (self.seconds() <= other.seconds()),
    {
        self.date.days < other.date.days || (self.date.days == other.date.days
            && self.time.secs <= other.time.secs)
    }
}

/// Seconds from `start` to `end`; negative when `end` comes first.
pub fn seconds_between(start: &DateTime, end: &DateTime) -> (r: i64)
    requires
        start.wf(),
        end.wf(),
    ensures
        r == end.seconds() - start.seconds(),
{
    (end.date.days as i64 - start.date.days as i64) * SECONDS_PER_DAY + (end.time.secs as i64
        - start.time.secs as i64)
}

} // verus!
