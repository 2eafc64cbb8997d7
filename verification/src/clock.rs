//! Points in time, read from and written as RFC 3339 text.
use vstd::prelude::*;

use crate::text;

use chrono::{DateTime, Datelike, NaiveDate, SecondsFormat};

verus! {

pub const NANOS_PER_SECOND: u32 = 1_000_000_000;

/// A point in time: whole seconds since 1970 in UTC, and nanoseconds within the second.
/// A leap second is the second before it with a nanosecond part of a whole second or more.
#[derive(Clone, Copy, Debug, PartialEq, Eq, Structural)]
pub struct Moment {
    pub seconds: i64,
    pub nanos: u32,
}

impl Moment {
    /// The nanoseconds are those of a calendar time: beyond a second only in the last second
    /// of a minute.
    pub open spec fn has_clock_nanos(self) -> bool {
        self.nanos < 1_000_000_000 || (self.nanos < 2_000_000_000 && self.seconds % 60 == 59)
    }

    /// What four-digit years and an offset of less than a day can denote.
    pub open spec fn in_calendar(self) -> bool {
        &&& -62_167_305_600 <= self.seconds <= 253_402_387_200
        &&& self.has_clock_nanos()
    }

    /// Whether four-digit years and an offset of less than a day can denote the moment.
    pub fn is_in_calendar(self) -> (result: bool)
        ensures
            result == self.in_calendar(),
    {
        -62_167_305_600 <= self.seconds && self.seconds <= 253_402_387_200 && (self.nanos
            < 1_000_000_000 || (self.nanos < 2_000_000_000 && (if self.seconds >= 0 {
            self.seconds % 60 == 59
        } else {
            (-self.seconds) % 60 == 1
        })))
    }
}

/// The moment that a text denotes under RFC 3339, if any.
pub uninterp spec fn rfc3339_moment(value: Seq<char>) -> Option<(i64, u32)>;

/// What `parse_moment` returns, as a value of the library.
pub open spec fn moment_of(value: Seq<char>) -> Option<Moment> {
    match rfc3339_moment(value) {
        Some((seconds, nanos)) => Some(Moment { seconds, nanos }),
        None => None,
    }
}

/// Trusted: `chrono::DateTime::parse_from_rfc3339` reads the text, which alone decides the
/// result, and `timestamp` and `timestamp_subsec_nanos` give the moment in UTC. The grammar is
/// chrono's; its years have four digits and its offsets stay below a day, which bounds the moment.
#[verifier::external_body]
pub(crate) fn parse_moment(value: &str) -> (result: Option<Moment>)
    ensures
        result == moment_of(value@),
        result matches Some(moment) ==> moment.in_calendar(),
{
    match DateTime::parse_from_rfc3339(value) {
        Ok(time) => Some(Moment { seconds: time.timestamp(), nanos: time.timestamp_subsec_nanos() }),
        Err(_) => None,
    }
}

/// A moment as RFC 3339 text in UTC, without fractions of a second.
pub uninterp spec fn rfc3339_text(seconds: i64, nanos: u32) -> Seq<char>;

/// Trusted: `chrono::DateTime::to_rfc3339_opts` with whole seconds and `Z`, on the moment that
/// `DateTime::from_timestamp` makes of the two numbers. Within the years 0 to 9999 the text reads
/// back as the moment without its fraction of a second (a leap second stays one).
#[verifier::external_body]
pub(crate) fn format_moment(moment: Moment) -> (result: String)
    requires
        -8_000_000_000_000 <= moment.seconds <= 8_000_000_000_000,
        moment.has_clock_nanos(),
    ensures
        result@ == rfc3339_text(moment.seconds, moment.nanos),
        -62_167_219_200 <= moment.seconds <= 253_402_300_799 ==> rfc3339_moment(result@) == Some(
            (moment.seconds, (if moment.nanos < 1_000_000_000 { 0u32 } else { 1_000_000_000u32 })),
        ),
{
    let time = DateTime::from_timestamp(moment.seconds, moment.nanos).unwrap();
    time.to_rfc3339_opts(SecondsFormat::Secs, true)
}

/// The day that a text denotes as year, month and day, counted from the first day of the common
/// era, if any.
pub uninterp spec fn calendar_day(value: Seq<char>) -> Option<i32>;

/// Trusted: `chrono::NaiveDate::parse_from_str` with the format `%Y-%m-%d` reads the text, which
/// alone decides the result, and `Datelike::num_days_from_ce` counts its days. The years that
/// chrono can hold bound the count.
#[verifier::external_body]
pub(crate) fn parse_day(value: &str) -> (result: Option<i32>)
    ensures
        result == calendar_day(value@),
        result matches Some(day) ==> -96_000_000 <= day <= 96_000_000,
{
    NaiveDate::parse_from_str(value, "%Y-%m-%d").ok().map(|day| day.num_days_from_ce())
}

/// `left` is before `right`.
pub open spec fn before(left: Moment, right: Moment) -> bool {
    left.seconds < right.seconds || (left.seconds == right.seconds && left.nanos < right.nanos)
}

pub fn is_before(left: Moment, right: Moment) -> (result: bool)
    ensures
        result == before(left, right),
{
    left.seconds < right.seconds || (left.seconds == right.seconds && left.nanos < right.nanos)
}

/// The leap second that lies between two times of day and is not counted by their seconds.
pub open spec fn leap_adjustment(from: Moment, to: Moment) -> int {
    if to.seconds % 86_400 > from.seconds % 86_400 && from.nanos >= 1_000_000_000 {
        1
    } else if to.seconds % 86_400 < from.seconds % 86_400 && to.nanos >= 1_000_000_000 {
        -1
    } else {
        0
    }
}

/// Nanoseconds from `from` to `to`, negative where `to` comes first.
pub open spec fn elapsed(from: Moment, to: Moment) -> int {
    (to.seconds - from.seconds + leap_adjustment(from, to)) * 1_000_000_000 + (to.nanos
        - from.nanos)
}

fn second_of_day(seconds: i64) -> (result: i64)
    ensures
        result == seconds as int % 86_400,
{
    let rest: i64 = seconds % 86_400;
    if rest < 0 {
        proof {
            vstd::arithmetic::div_mod::lemma_fundamental_div_mod_converse(
                seconds as int,
                86_400,
                (seconds - rest - 86_400) / 86_400,
                rest + 86_400,
            );
        }
        rest + 86_400
    } else {
        rest
    }
}

pub fn elapsed_nanos(from: Moment, to: Moment) -> (result: i128)
    ensures
        result == elapsed(from, to),
{
    let from_clock: i64 = second_of_day(from.seconds);
    let to_clock: i64 = second_of_day(to.seconds);
    let adjustment: i128 = if to_clock > from_clock && from.nanos >= NANOS_PER_SECOND {
        1
    } else if to_clock < from_clock && to.nanos >= NANOS_PER_SECOND {
        -1
    } else {
        0
    };
    (to.seconds as i128 - from.seconds as i128 + adjustment) * 1_000_000_000 + (to.nanos as i128
        - from.nanos as i128)
}

/// The moment `seconds` later, or earlier where negative. Leaving a leap second drops it.
pub open spec fn shifted(moment: Moment, seconds: int) -> Moment {
    if moment.nanos >= 1_000_000_000 && seconds > 0 {
        Moment {
            seconds: (moment.seconds + seconds) as i64,
            nanos: (moment.nanos - 1_000_000_000) as u32,
        }
    } else if moment.nanos >= 1_000_000_000 && seconds < 0 {
        Moment {
            seconds: (moment.seconds + 1 + seconds) as i64,
            nanos: (moment.nanos - 1_000_000_000) as u32,
        }
    } else {
        Moment { seconds: (moment.seconds + seconds) as i64, nanos: moment.nanos }
    }
}

pub fn shift(moment: Moment, seconds: i64) -> (result: Moment)
    requires
        moment.in_calendar(),
        -1_000_000_000_000 <= seconds <= 1_000_000_000_000,
    ensures
        result == shifted(moment, seconds as int),
        seconds != 0 ==> result.has_clock_nanos(),
{
    if moment.nanos >= NANOS_PER_SECOND && seconds > 0 {
        Moment { seconds: moment.seconds + seconds, nanos: moment.nanos - NANOS_PER_SECOND }
    } else if moment.nanos >= NANOS_PER_SECOND && seconds < 0 {
        Moment { seconds: moment.seconds + 1 + seconds, nanos: moment.nanos - NANOS_PER_SECOND }
    } else {
        Moment { seconds: moment.seconds + seconds, nanos: moment.nanos }
    }
}

/// `right_start` lies no earlier than `left_end` and at most `max_seconds` behind it.
pub open spec fn gap_within(left_end: Seq<char>, right_start: Seq<char>, max_seconds: int) -> bool {
    match (moment_of(left_end), moment_of(right_start)) {
        (Some(left), Some(right)) => !before(right, left) && elapsed(left, right) <= max_seconds
            * 1_000_000_000,
        _ => false,
    }
}

pub fn within_gap_seconds(left_end: &str, right_start: &str, max_seconds: i64) -> (result: bool)
    ensures
        result == gap_within(left_end@, right_start@, max_seconds as int),
{
    match (parse_moment(left_end), parse_moment(right_start)) {
        (Some(left), Some(right)) => !is_before(right, left) && elapsed_nanos(left, right)
            <= max_seconds as i128 * 1_000_000_000,
        _ => false,
    }
}

/// Whole seconds from `left_end` to `right_start`, zero where they overlap.
pub open spec fn gap_seconds(left_end: Seq<char>, right_start: Seq<char>) -> Option<int> {
    match (moment_of(left_end), moment_of(right_start)) {
        (Some(left), Some(right)) => Some(
            if elapsed(left, right) < 0 {
                0
            } else {
                elapsed(left, right) / 1_000_000_000
            },
        ),
        _ => None,
    }
}

pub fn context_gap_seconds(left_end: &str, right_start: &str) -> (result: Option<i64>)
    ensures
        match result {
            Some(seconds) => gap_seconds(left_end@, right_start@) == Some(seconds as int),
            None => gap_seconds(left_end@, right_start@) is None,
        },
{
    match (parse_moment(left_end), parse_moment(right_start)) {
        (Some(left), Some(right)) => {
            let nanos: i128 = elapsed_nanos(left, right);
            if nanos < 0 {
                Some(0)
            } else {
                Some((nanos / 1_000_000_000) as i64)
            }
        },
        _ => None,
    }
}

/// Whole milliseconds from `start` to `end`, zero where `end` comes first; nothing where one of
/// them cannot be read.
pub open spec fn duration_millis(start: Seq<char>, end: Seq<char>) -> Option<int> {
    match (moment_of(start), moment_of(end)) {
        (Some(from), Some(to)) => Some(
            if elapsed(from, to) < 0 {
                0
            } else {
                elapsed(from, to) / 1_000_000
            },
        ),
        _ => None,
    }
}

pub fn millis_between(start: &str, end: &str) -> (result: Option<u64>)
    ensures
        match result {
            Some(millis) => duration_millis(start@, end@) == Some(millis as int),
            None => duration_millis(start@, end@) is None,
        },
{
    match (parse_moment(start), parse_moment(end)) {
        (Some(from), Some(to)) => {
            let nanos: i128 = elapsed_nanos(from, to);
            if nanos < 0 {
                Some(0)
            } else {
                Some((nanos / 1_000_000) as u64)
            }
        },
        _ => None,
    }
}

/// Too far apart to be one stretch of work, or not readable as times.
pub fn context_is_disconnected(
    left_end: &str,
    right_start: &str,
    max_seconds: i64,
) -> (result: bool)
    ensures
        result == match gap_seconds(left_end@, right_start@) {
            Some(gap) => gap > max_seconds,
            None => true,
        },
{
    match context_gap_seconds(left_end, right_start) {
        Some(gap) => gap > max_seconds,
        None => true,
    }
}

/// `right_start` is at most `max_seconds` behind `left_end`, or before it.
pub open spec fn touches_within(
    left_end: Seq<char>,
    right_start: Seq<char>,
    max_seconds: int,
) -> bool {
    match (moment_of(left_end), moment_of(right_start)) {
        (Some(left), Some(right)) => !before(shifted(left, max_seconds), right),
        _ => false,
    }
}

pub fn touch_or_overlap_within(
    left_end: &str,
    right_start: &str,
    max_seconds: i64,
) -> (result: bool)
    requires
        -1_000_000_000_000 <= max_seconds <= 1_000_000_000_000,
    ensures
        result == touches_within(left_end@, right_start@, max_seconds as int),
{
    match (parse_moment(left_end), parse_moment(right_start)) {
        (Some(left), Some(right)) => !is_before(shift(left, max_seconds), right),
        _ => false,
    }
}

/// `candidate` is later than `current`: by time where both can be read, else by text.
pub open spec fn later(candidate: Seq<char>, current: Seq<char>) -> bool {
    match (moment_of(candidate), moment_of(current)) {
        (Some(first), Some(second)) => before(second, first),
        _ => text::precedes(current, candidate),
    }
}

pub fn timestamp_is_after(candidate: &str, current: &str) -> (result: bool)
    ensures
        result == later(candidate@, current@),
{
    match (parse_moment(candidate), parse_moment(current)) {
        (Some(first), Some(second)) => is_before(second, first),
        _ => text::less(current, candidate),
    }
}

} // verus!
