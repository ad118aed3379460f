//! The calendar and the local time zone.
//!
//! The zone belongs to the machine, so nothing is stated of which offset from UTC it gives;
//! everything that follows from the offset is.

use crate::text;
use chrono::{DateTime, Datelike, Local, NaiveDate, NaiveTime, TimeZone, Timelike, Utc};
use vstd::prelude::*;

verus! {

/// Seconds in a day.
pub const DAY_SECS: i64 = 86_400;

pub open spec fn is_leap(year: int) -> bool {
    year % 4 == 0 && (year % 100 != 0 || year % 400 == 0)
}

/// Days from the first of January of year zero to that of `year`, for years after zero.
pub open spec fn days_before_year(year: int) -> int {
    365 * year + (year - 1) / 4 - (year - 1) / 100 + (year - 1) / 400 + 1
}

pub open spec fn days_in_month(year: int, month: int) -> int {
    if month == 2 {
        if is_leap(year) {
            29
        } else {
            28
        }
    } else if month == 4 || month == 6 || month == 9 || month == 11 {
        30
    } else {
        31
    }
}

/// Days from the first of January to the first of `month`.
pub open spec fn days_before_month(year: int, month: int) -> int
    decreases month,
{
    if month <= 1 {
        0
    } else {
        days_before_month(year, month - 1) + days_in_month(year, month - 1)
    }
}

/// Whether a day, counted from the first of January 1970, has the given date.
pub open spec fn is_date(day: int, year: int, month: int, dom: int) -> bool {
    &&& 1 <= month <= 12
    &&& 1 <= dom <= days_in_month(year, month)
    &&& days_before_year(year) + days_before_month(year, month) + dom - 1 == day + 719_528
}

/// A moment as the clock on the wall shows it.
#[derive(Clone, Copy, PartialEq, Eq, Structural, Debug)]
pub struct LocalTime {
    pub year: i32,
    pub month: u32,
    pub day: u32,
    pub hour: u32,
    pub minute: u32,
    pub second: u32,
    /// Runs past a billion inside a leap second.
    pub nanosecond: u32,
    /// How far the wall clock is ahead of UTC.
    pub offset_secs: i32,
}

impl LocalTime {
    pub open spec fn wf(self) -> bool {
        &&& 0 <= self.year <= 9999
        &&& 1 <= self.month <= 12
        &&& 1 <= self.day <= 31
        &&& self.hour < 24
        &&& self.minute < 60
        &&& self.second < 60
        &&& self.nanosecond < 2_000_000_000
        &&& -86_400 < self.offset_secs < 86_400
    }

    pub open spec fn second_of_day(self) -> int {
        self.hour * 3600 + self.minute * 60 + self.second
    }

    /// Seconds since local midnight.
    pub fn seconds_from_midnight(&self) -> (r: u32)
        requires
            self.wf(),
        ensures
            r == self.second_of_day(),
            r < DAY_SECS,
    {
        self.hour * 3600 + self.minute * 60 + self.second
    }

    /// Whether this is what a wall clock with this offset shows at a unix time.
    pub open spec fn shows(self, unix_nanos: int) -> bool {
        let secs = unix_nanos / 1_000_000_000 + self.offset_secs;
        &&& self.nanosecond == unix_nanos % 1_000_000_000
        &&& self.second_of_day() == secs % 86_400
        &&& is_date(secs / 86_400, self.year as int, self.month as int, self.day as int)
    }
}

/// The nearest unix time that sixty-four bits of nanoseconds can hold.
pub open spec fn in_range(unix_nanos: int) -> int {
    crate::float::ops::clamped(unix_nanos, i64::MIN as int, i64::MAX as int)
}

pub fn clamp_nanos(unix_nanos: i128) -> (r: i64)
    ensures
        r == in_range(unix_nanos as int),
{
    if unix_nanos < i64::MIN as i128 {
        i64::MIN
    } else if unix_nanos > i64::MAX as i128 {
        i64::MAX
    } else {
        unix_nanos as i64
    }
}

/// The local time at a unix time in nanoseconds: `chrono`'s
/// `DateTime::<Utc>::from_timestamp_nanos`, `with_timezone` to `Local`, and the fields of the
/// result through `Datelike` and `Timelike`.
///
/// Trusted: the fields are in their ranges, and they are those of the given time moved by the
/// offset that comes back with them. Which offset that is, is up to the machine's time zone
/// and left open.
#[verifier::external_body]
fn local_fields(unix_nanos: i64) -> (r: LocalTime)
    ensures
        r.wf(),
        r.shows(unix_nanos as int),
{
    let t = DateTime::<Utc>::from_timestamp_nanos(unix_nanos).with_timezone(&Local);
    LocalTime {
        year: t.year(),
        month: t.month(),
        day: t.day(),
        hour: t.hour(),
        minute: t.minute(),
        second: t.second(),
        nanosecond: t.nanosecond(),
        offset_secs: t.offset().local_minus_utc(),
    }
}

/// The unix time of a second of a local day, under a wall clock that is `offset` seconds
/// ahead of UTC.
pub open spec fn unix_time_of(day: int, second: int, offset: int) -> int {
    (day * 86_400 + second - offset) * 1_000_000_000
}

/// Whether a unix time, where there is one, is that second of that local day under some
/// offset of less than a day.
pub open spec fn is_that_second(r: Option<i64>, day: int, second: int) -> bool {
    r is Some ==> exists|offset: int|
        -86_400 < offset < 86_400 && r->0 == #[trigger] unix_time_of(day, second, offset)
}

/// The unix time, in nanoseconds, at which a local day, counted from the first of January
/// 1970, reaches a second: `chrono`'s `NaiveDate::from_epoch_days`, `and_time`,
/// `TimeZone::from_local_datetime` on `Local`, the `earliest` of what it gives, and
/// `timestamp_nanos_opt`.
///
/// Trusted: a time that comes back is that second of that day under some offset of less than
/// a day. Which offset that is, and whether the second exists at all on a day on which the
/// clocks change, is up to the machine's time zone and left open.
#[verifier::external_body]
fn local_second(day: i32, second: u32) -> (r: Option<i64>)
    requires
        second < 86_400,
    ensures
        is_that_second(r, day as int, second as int),
{
    let time = NaiveTime::from_num_seconds_from_midnight_opt(second, 0)?;
    let moment = NaiveDate::from_epoch_days(day)?.and_time(time);
    Local.from_local_datetime(&moment).earliest()?.timestamp_nanos_opt()
}

/// A UTC moment as ISO 8601 writes it, to the nanosecond.
pub open spec fn iso_text(year: nat, month: nat, dom: nat, second: nat, nanos: nat) -> Seq<char> {
    text::padded(year, 4) + "-"@ + text::padded(month, 2) + "-"@ + text::padded(dom, 2) + "T"@
        + text::padded(second / 3600, 2) + ":"@ + text::padded(second / 60 % 60, 2) + ":"@
        + text::padded(second % 60, 2) + "."@ + text::padded(nanos, 9) + "Z"@
}

/// Whether a text is the ISO 8601 form of a unix time.
pub open spec fn is_iso_form(s: Seq<char>, unix_nanos: int) -> bool {
    let secs = unix_nanos / 1_000_000_000;
    exists|year: int, month: int, dom: int|
        #![trigger is_date(secs / 86_400, year, month, dom)]
        {
            &&& is_date(secs / 86_400, year, month, dom)
            &&& 1677 <= year <= 2262
            &&& s == iso_text(
                year as nat,
                month as nat,
                dom as nat,
                (secs % 86_400) as nat,
                (unix_nanos % 1_000_000_000) as nat,
            )
        }
}

/// ISO 8601 is ASCII.
pub proof fn lemma_iso_form_is_ascii(s: Seq<char>, unix_nanos: int)
    requires
        is_iso_form(s, unix_nanos),
    ensures
        text::ascii(s),
{
    let secs = unix_nanos / 1_000_000_000;
    let (year, month, dom) = choose|year: int, month: int, dom: int|
        #![trigger is_date(secs / 86_400, year, month, dom)]
        {
            &&& is_date(secs / 86_400, year, month, dom)
            &&& 1677 <= year <= 2262
            &&& s == iso_text(
                year as nat,
                month as nat,
                dom as nat,
                (secs % 86_400) as nat,
                (unix_nanos % 1_000_000_000) as nat,
            )
        };
    let second = (secs % 86_400) as nat;
    text::lemma_padded_is_ascii(year as nat, 4);
    text::lemma_padded_is_ascii(month as nat, 2);
    text::lemma_padded_is_ascii(dom as nat, 2);
    text::lemma_padded_is_ascii(second / 3600, 2);
    text::lemma_padded_is_ascii(second / 60 % 60, 2);
    text::lemma_padded_is_ascii(second % 60, 2);
    text::lemma_padded_is_ascii((unix_nanos % 1_000_000_000) as nat, 9);
    reveal_strlit("-");
    reveal_strlit("T");
    reveal_strlit(":");
    reveal_strlit(".");
    reveal_strlit("Z");
}

/// A unix time in nanoseconds as text: `chrono`'s `DateTime::<Utc>::from_timestamp_nanos`
/// and `format` with `%Y-%m-%dT%H:%M:%S%.9fZ`.
///
/// Trusted: the text is the ISO 8601 form of that time in UTC.
#[verifier::external_body]
fn utc_text(unix_nanos: i64) -> (r: String)
    ensures
        is_iso_form(r@, unix_nanos as int),
{
    DateTime::<Utc>::from_timestamp_nanos(unix_nanos).format("%Y-%m-%dT%H:%M:%S%.9fZ").to_string()
}

/// What the clock on the wall shows at a unix time, held to the range of sixty-four bits of
/// nanoseconds.
pub fn to_local(unix_nanos: i128) -> (r: LocalTime)
    ensures
        r.wf(),
        r.shows(in_range(unix_nanos as int)),
{
    local_fields(clamp_nanos(unix_nanos))
}

/// A unix time to nanosecond precision, held to the range of sixty-four bits of nanoseconds.
pub fn iso8601_nanos(unix_nanos: i128) -> (r: String)
    ensures
        is_iso_form(r@, in_range(unix_nanos as int)),
{
    utc_text(clamp_nanos(unix_nanos))
}

/// Whether an answer is the first second, from a second of a local day on, that the day has.
/// The seconds were asked for one after the other, each answer is that second of that day, and
/// the asking ended with the first of them that exists, or with the end of the day.
pub open spec fn is_first_second(r: Option<i64>, day: int, second: int) -> bool {
    exists|asked: Seq<Option<i64>>| is_search(asked, day, second) && r == #[trigger] asked.last()
}

/// The answers to such a search, in order.
pub open spec fn is_search(asked: Seq<Option<i64>>, day: int, second: int) -> bool {
    &&& 0 < asked.len() <= 86_400 - second
    &&& forall|i: int|
        0 <= i < asked.len() ==> is_that_second(#[trigger] asked[i], day, second + i)
    &&& forall|i: int| 0 <= i < asked.len() - 1 ==> (#[trigger] asked[i]) is None
    &&& asked.last() is None ==> asked.len() == 86_400 - second
}

/// Whether a unix time, where there is one, is some second of a local day, from a second on.
pub open spec fn is_second_from(r: Option<i64>, day: int, second: int) -> bool {
    r is Some ==> exists|s: int| second <= s < 86_400 && #[trigger] is_that_second(r, day, s)
}

/// The unix time of the first second, from a second of a local day on, that the day has. A
/// second that the clocks skip does not exist; the day is not lost for it, and goes on with the
/// first second behind the gap. `None` only where no second of the rest of the day exists.
pub fn first_second(day: i32, second: u32) -> (r: Option<i64>)
    requires
        second < 86_400,
    ensures
        is_first_second(r, day as int, second as int),
        is_second_from(r, day as int, second as int),
{
    let mut at: u32 = second;
    let mut found: Option<i64> = local_second(day, at);
    let ghost mut asked: Seq<Option<i64>> = seq![found];
    while found.is_none() && at < 86_399
        invariant
            second <= at < 86_400,
            asked.len() == at - second + 1,
            found == asked.last(),
            forall|i: int|
                0 <= i < asked.len() ==> is_that_second(
                    #[trigger] asked[i],
                    day as int,
                    second + i,
                ),
            forall|i: int| 0 <= i < asked.len() - 1 ==> (#[trigger] asked[i]) is None,
        decreases 86_400 - at,
    {
        at = at + 1;
        found = local_second(day, at);
        proof {
            let before = asked;
            asked = asked.push(found);
            assert forall|i: int| 0 <= i < asked.len() implies is_that_second(
                #[trigger] asked[i],
                day as int,
                second + i,
            ) by {
                if i < before.len() {
                    assert(asked[i] == before[i]);
                }
            }
            assert forall|i: int| 0 <= i < asked.len() - 1 implies (#[trigger] asked[i]) is None by {
                assert(asked[i] == before[i]);
            }
        }
    }
    assert(is_search(asked, day as int, second as int));
    assert(is_that_second(asked[asked.len() - 1], day as int, at as int));
    found
}

/// The unix times at which the day before a moment's local day, that day and the day after
/// reach a second of the day, or the first second behind it that the day has.
pub fn neighbouring_days(now: &LocalTime, now_unix_nanos: i64, second: u32) -> (r: Vec<
    Option<i64>,
>)
    requires
        now.wf(),
        second < 86_400,
    ensures
        r@.len() == 3,
        forall|k: int|
            0 <= k < 3 ==> is_first_second(
                #[trigger] r@[k],
                local_day(*now, now_unix_nanos as int) + k - 1,
                second as int,
            ),
        forall|k: int|
            0 <= k < 3 ==> is_second_from(
                #[trigger] r@[k],
                local_day(*now, now_unix_nanos as int) + k - 1,
                second as int,
            ),
{
    let secs: i64 = floor_secs(now_unix_nanos) + now.offset_secs as i64;
    let day: i32 = floor_days(secs);
    let mut r: Vec<Option<i64>> = Vec::new();
    r.push(first_second(day - 1, second));
    r.push(first_second(day, second));
    r.push(first_second(day + 1, second));
    r
}

/// A day that has the second which was asked for is placed there and nowhere else.
pub proof fn law_a_second_that_exists_is_the_one(asked: Seq<Option<i64>>, day: int, second: int)
    requires
        is_search(asked, day, second),
        asked[0] is Some,
    ensures
        asked.last() == asked[0],
        is_that_second(asked.last(), day, second),
{
    assert(is_that_second(asked[0], day, second + 0));
}

/// The local day of a moment, counted from the first of January 1970.
pub open spec fn local_day(now: LocalTime, unix_nanos: int) -> int {
    (unix_nanos / 1_000_000_000 + now.offset_secs) / 86_400
}

fn floor_secs(nanos: i64) -> (r: i64)
    ensures
        r == nanos as int / 1_000_000_000,
        -9_223_372_037 <= r <= 9_223_372_037,
{
    if nanos >= 0 {
        nanos / 1_000_000_000
    } else {
        -((999_999_999 - nanos as i128) / 1_000_000_000) as i64
    }
}

fn floor_days(secs: i64) -> (r: i32)
    requires
        -9_223_500_000 <= secs <= 9_223_500_000,
    ensures
        r == secs as int / 86_400,
        -200_000 <= r <= 200_000,
{
    if secs >= 0 {
        (secs / 86_400) as i32
    } else {
        -((86_399 - secs) / 86_400) as i32
    }
}

/// The second of the day is made up of the hour, the minute and the second that the wall clock
/// shows, and of nothing else: each can be told from it.
pub proof fn law_the_second_of_the_day_tells_the_time(t: LocalTime)
    requires
        t.wf(),
    ensures
        t.second_of_day() / 3600 == t.hour,
        t.second_of_day() / 60 % 60 == t.minute,
        t.second_of_day() % 60 == t.second,
        0 <= t.second_of_day() < 86_400,
{
}

} // verus!
