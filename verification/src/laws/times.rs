//! Promises of comparing times.
use vstd::prelude::*;

use crate::clock;
use crate::clock::Moment;
use crate::text;

verus! {

/// The moment is no leap second.
pub open spec fn is_plain(moment: Moment) -> bool {
    moment.nanos < 1_000_000_000
}

/// Nanoseconds since 1970, leap seconds apart.
pub open spec fn nanoseconds(moment: Moment) -> int {
    moment.seconds * 1_000_000_000 + moment.nanos
}

/// Between moments that are no leap seconds, time is counted in nanoseconds, and the order of moments
/// is the order of those counts.
pub proof fn time_is_counted(left: Moment, right: Moment)
    requires
        is_plain(left),
        is_plain(right),
    ensures
        clock::elapsed(left, right) == nanoseconds(right) - nanoseconds(left),
        clock::before(left, right) <==> nanoseconds(left) < nanoseconds(right),
{
    assert(clock::elapsed(left, right) == nanoseconds(right) - nanoseconds(left))
        by (nonlinear_arith)
        requires
            is_plain(left),
            is_plain(right),
            clock::elapsed(left, right) == (right.seconds - left.seconds) * 1_000_000_000 + (
            right.nanos - left.nanos),
            nanoseconds(left) == left.seconds * 1_000_000_000 + left.nanos,
            nanoseconds(right) == right.seconds * 1_000_000_000 + right.nanos,
    {}
}

/// A moment that is shifted lies so many seconds later, or earlier where the number is negative.
pub proof fn shifting_counts_seconds(moment: Moment, seconds: int)
    requires
        is_plain(moment),
        i64::MIN <= moment.seconds + seconds <= i64::MAX,
    ensures
        is_plain(clock::shifted(moment, seconds)),
        nanoseconds(clock::shifted(moment, seconds)) == nanoseconds(moment) + seconds
            * 1_000_000_000,
{
    let after = clock::shifted(moment, seconds);
    assert(after.seconds == moment.seconds + seconds);
    assert(after.nanos == moment.nanos);
    assert((moment.seconds + seconds) * 1_000_000_000 == moment.seconds * 1_000_000_000 + seconds
        * 1_000_000_000) by (nonlinear_arith);
}

/// A gap is within so many seconds where the later time does not come first and lies at most that far
/// behind; a time that cannot be read lies within nothing.
pub proof fn gaps_are_measured(left_end: Seq<char>, right_start: Seq<char>, seconds: int)
    ensures
        clock::moment_of(left_end) is None || clock::moment_of(right_start) is None
            ==> !clock::gap_within(left_end, right_start, seconds) && clock::gap_seconds(
            left_end,
            right_start,
        ) is None && !clock::touches_within(left_end, right_start, seconds),
        clock::moment_of(left_end) matches Some(left) ==> clock::moment_of(
            right_start,
        ) matches Some(right) ==> is_plain(left) && is_plain(right) ==> {
            &&& clock::gap_within(left_end, right_start, seconds) <==> 0 <= nanoseconds(right)
                - nanoseconds(left) <= seconds * 1_000_000_000
            &&& clock::gap_seconds(left_end, right_start) matches Some(gap) && if nanoseconds(right)
                <= nanoseconds(left) {
                gap == 0
            } else {
                gap * 1_000_000_000 <= nanoseconds(right) - nanoseconds(left) < (gap + 1)
                    * 1_000_000_000
            }
            &&& i64::MIN <= left.seconds + seconds <= i64::MAX ==> (clock::touches_within(
                left_end,
                right_start,
                seconds,
            ) <==> nanoseconds(right) - nanoseconds(left) <= seconds * 1_000_000_000)
        },
{
    match (clock::moment_of(left_end), clock::moment_of(right_start)) {
        (Some(left), Some(right)) => {
            if is_plain(left) && is_plain(right) {
                time_is_counted(left, right);
                time_is_counted(right, left);
                let apart = nanoseconds(right) - nanoseconds(left);
                let gap = apart / 1_000_000_000;
                assert(gap * 1_000_000_000 <= apart < (gap + 1) * 1_000_000_000);
                if i64::MIN <= left.seconds + seconds <= i64::MAX {
                    shifting_counts_seconds(left, seconds);
                    time_is_counted(clock::shifted(left, seconds), right);
                }
            }
        },
        _ => {},
    }
}

/// A time is later than another where its moment is; where one of them cannot be read, their texts are
/// compared.
pub proof fn later_times_are_told(candidate: Seq<char>, current: Seq<char>)
    ensures
        clock::moment_of(candidate) matches Some(first) ==> clock::moment_of(
            current,
        ) matches Some(second) ==> (clock::later(candidate, current) <==> second.seconds
            < first.seconds || (second.seconds == first.seconds && second.nanos < first.nanos)),
        clock::moment_of(candidate) is None || clock::moment_of(current) is None ==> (clock::later(
            candidate,
            current,
        ) <==> text::precedes(current, candidate)),
{
}

/// How long a job took is counted in milliseconds and never negative.
pub proof fn durations_are_counted_in_milliseconds(start: Seq<char>, end: Seq<char>)
    ensures
        clock::moment_of(start) is None || clock::moment_of(end) is None ==> clock::duration_millis(
            start,
            end,
        ) is None,
        clock::moment_of(start) matches Some(from) ==> clock::moment_of(end) matches Some(to)
            ==> is_plain(from) && is_plain(to) ==> (clock::duration_millis(
            start,
            end,
        ) matches Some(millis) && if nanoseconds(to) <= nanoseconds(from) {
            millis == 0
        } else {
            millis * 1_000_000 <= nanoseconds(to) - nanoseconds(from) < (millis + 1) * 1_000_000
        }),
{
    match (clock::moment_of(start), clock::moment_of(end)) {
        (Some(from), Some(to)) => {
            if is_plain(from) && is_plain(to) {
                time_is_counted(from, to);
                let apart = nanoseconds(to) - nanoseconds(from);
                let millis = apart / 1_000_000;
                assert(millis * 1_000_000 <= apart < (millis + 1) * 1_000_000);
            }
        },
        _ => {},
    }
}

} // verus!
