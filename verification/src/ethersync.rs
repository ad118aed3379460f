//! LAN timecode as a time reference.
//!
//! NTP answers "what time is it really?", and every recorder on the job answers it
//! separately. A timecode leader answers "what time does the *leader* think it is?", so that
//! every follower is wrong by the same amount and the takes line up with each other exactly.
//!
//! Timecode is anchored to local time of day, so the timeline resolves to a real UTC instant
//! and nothing downstream learns that the clock changed underneath it. The leader's transport
//! *is* the record state: rolling means playing, stopping means paused.

use crate::calendar;
use crate::calendar::{clamp_nanos, neighbouring_days, to_local, LocalTime};
use crate::clock::reference::{RefStatus, Reference, StatusView, TimecodeFormat};
use crate::float::accuracy;
use crate::float::F64;
use crate::time;
use crate::time::{held_difference, held_sum, Instant, GIGA};
use vstd::arithmetic::div_mod::*;
use vstd::prelude::*;

verus! {

/// Nanoseconds in a day. Timecode wraps here and so does everything derived from it.
pub const DAY_NS: i128 = 86_400_000_000_000;

/// Which end of the rig this machine is.
#[derive(Clone, Copy, PartialEq, Eq, Structural, Debug)]
pub enum Role {
    /// This recorder drives the timecode and the record state for everyone else.
    Leader,
    /// This recorder takes both from the leader.
    Follower,
}

impl Default for Role {
    fn default() -> (r: Role)
        ensures
            r == Role::Leader,
    {
        Role::Leader
    }
}

impl Role {
    /// Both roles, in the order that they are offered in.
    pub fn all() -> (r: Vec<Role>)
        ensures
            r@ == seq![Role::Leader, Role::Follower],
    {
        let mut v: Vec<Role> = Vec::new();
        v.push(Role::Leader);
        v.push(Role::Follower);
        assert(v@ =~= seq![Role::Leader, Role::Follower]);
        v
    }

    pub open spec fn name(self) -> Seq<char> {
        match self {
            Role::Leader => "Leader"@,
            Role::Follower => "Follower"@,
        }
    }

    pub fn label(self) -> (r: &'static str)
        ensures
            r@ == self.name(),
    {
        match self {
            Role::Leader => "Leader",
            Role::Follower => "Follower",
        }
    }
}

/// The frame rates on offer, as the operator thinks of them.
#[derive(Clone, Copy, PartialEq, Eq, Structural, Debug)]
pub enum Fps {
    F23_976,
    F24,
    /// The default. Anything else on a job is a decision somebody made on purpose.
    F25,
    F29_97,
    F30,
    F47_952,
    F48,
    F50,
    F59_94,
    F60,
}

impl Default for Fps {
    fn default() -> (r: Fps)
        ensures
            r == Fps::F25,
    {
        Fps::F25
    }
}

impl Fps {
    /// Every rate on offer.
    pub open spec fn offered() -> Seq<Fps> {
        seq![
            Fps::F23_976,
            Fps::F24,
            Fps::F25,
            Fps::F29_97,
            Fps::F30,
            Fps::F47_952,
            Fps::F48,
            Fps::F50,
            Fps::F59_94,
            Fps::F60,
        ]
    }

    pub fn all() -> (r: Vec<Fps>)
        ensures
            r@ == Fps::offered(),
    {
        let mut v: Vec<Fps> = Vec::new();
        v.push(Fps::F23_976);
        v.push(Fps::F24);
        v.push(Fps::F25);
        v.push(Fps::F29_97);
        v.push(Fps::F30);
        v.push(Fps::F47_952);
        v.push(Fps::F48);
        v.push(Fps::F50);
        v.push(Fps::F59_94);
        v.push(Fps::F60);
        assert(v@ =~= Fps::offered());
        v
    }

    pub open spec fn ratio_of(self) -> (u32, u32) {
        match self {
            Fps::F23_976 => (24000, 1001),
            Fps::F24 => (24, 1),
            Fps::F25 => (25, 1),
            Fps::F29_97 => (30000, 1001),
            Fps::F30 => (30, 1),
            Fps::F47_952 => (48000, 1001),
            Fps::F48 => (48, 1),
            Fps::F50 => (50, 1),
            Fps::F59_94 => (60000, 1001),
            Fps::F60 => (60, 1),
        }
    }

    /// Frames per second, as a fraction.
    pub fn ratio(self) -> (r: (u32, u32))
        ensures
            r == self.ratio_of(),
    {
        match self {
            Fps::F23_976 => (24000, 1001),
            Fps::F24 => (24, 1),
            Fps::F25 => (25, 1),
            Fps::F29_97 => (30000, 1001),
            Fps::F30 => (30, 1),
            Fps::F47_952 => (48000, 1001),
            Fps::F48 => (48, 1),
            Fps::F50 => (50, 1),
            Fps::F59_94 => (60000, 1001),
            Fps::F60 => (60, 1),
        }
    }

    pub open spec fn drops(self) -> bool {
        self == Fps::F29_97 || self == Fps::F59_94
    }

    /// Whether this rate can carry drop-frame numbering at all.
    pub fn supports_drop_frame(self) -> (r: bool)
        ensures
            r == self.drops(),
    {
        match self {
            Fps::F29_97 => true,
            Fps::F59_94 => true,
            _ => false,
        }
    }

    pub open spec fn format_of(self, drop_frame: bool) -> TimecodeFormat {
        TimecodeFormat {
            numerator: self.ratio_of().0,
            denominator: self.ratio_of().1,
            drop_frame: drop_frame && self.drops(),
        }
    }

    /// The format of this rate. Drop-frame is taken up only where the rate supports it, so
    /// that asking for it cannot fail the whole configuration.
    pub fn format(self, drop_frame: bool) -> (r: TimecodeFormat)
        ensures
            r == self.format_of(drop_frame),
            is_usable_format(r),
    {
        let (numerator, denominator) = self.ratio();
        TimecodeFormat {
            numerator,
            denominator,
            drop_frame: drop_frame && self.supports_drop_frame(),
        }
    }

    pub open spec fn text(self) -> Seq<char> {
        match self {
            Fps::F23_976 => "23.976"@,
            Fps::F24 => "24"@,
            Fps::F25 => "25"@,
            Fps::F29_97 => "29.97"@,
            Fps::F30 => "30"@,
            Fps::F47_952 => "47.952"@,
            Fps::F48 => "48"@,
            Fps::F50 => "50"@,
            Fps::F59_94 => "59.94"@,
            Fps::F60 => "60"@,
        }
    }

    pub fn to_text(self) -> (r: &'static str)
        ensures
            r@ == self.text(),
    {
        match self {
            Fps::F23_976 => "23.976",
            Fps::F24 => "24",
            Fps::F25 => "25",
            Fps::F29_97 => "29.97",
            Fps::F30 => "30",
            Fps::F47_952 => "47.952",
            Fps::F48 => "48",
            Fps::F50 => "50",
            Fps::F59_94 => "59.94",
            Fps::F60 => "60",
        }
    }
}

/// A frame rate that is a positive number.
pub open spec fn is_usable_format(f: TimecodeFormat) -> bool {
    f.numerator > 0 && f.denominator > 0
}

/// A place on a timecode timeline: whole frames, and parts of a frame in units of two to the
/// power of minus thirty-two.
#[derive(Clone, Copy, PartialEq, Eq, Structural, Debug)]
pub struct Position {
    pub frames: i64,
    pub subframe: u32,
}

impl Position {
    pub fn from_frames(frames: i64) -> (r: Position)
        ensures
            r == (Position { frames, subframe: 0 }),
    {
        Position { frames, subframe: 0 }
    }
}

/// A quotient cut towards zero.
pub open spec fn cut_div(n: int, d: int) -> int {
    if n >= 0 {
        n / d
    } else {
        -((-n) / d)
    }
}

/// Real time since local midnight that a position represents.
///
/// Deliberately *not* drop-frame aware: drop-frame only renames labels, while the position
/// advances at the true frame rate.
pub open spec fn tod_of_position(p: Position, f: TimecodeFormat) -> int {
    let whole = cut_div(p.frames * f.denominator * 1_000_000_000, f.numerator as int);
    let part = (p.subframe * f.denominator * 1_000_000_000) / (f.numerator * 0x1_0000_0000);
    (whole + part) % (DAY_NS as int)
}

/// Real time since local midnight that a timecode position represents, in nanoseconds.
pub fn tod_nanos(position: Position, format: TimecodeFormat) -> (r: i128)
    requires
        is_usable_format(format),
    ensures
        r == tod_of_position(position, format),
        0 <= r < DAY_NS,
{
    let num: i128 = format.numerator as i128;
    let den: i128 = format.denominator as i128;
    proof {
        let fr = position.frames as int;
        let sub = position.subframe as int;
        let d = den as int;
        assert(-0x8000_0000_0000_0000 * 0x1_0000_0000 <= fr * d <= 0x8000_0000_0000_0000
            * 0x1_0000_0000) by (nonlinear_arith)
            requires
                -0x8000_0000_0000_0000 <= fr <= 0x8000_0000_0000_0000,
                0 <= d <= 0x1_0000_0000,
        ;
        assert(0 <= sub * d <= 0x1_0000_0000 * 0x1_0000_0000) by (nonlinear_arith)
            requires
                0 <= sub <= 0x1_0000_0000,
                0 <= d <= 0x1_0000_0000,
        ;
    }
    let scaled: i128 = position.frames as i128 * den * 1_000_000_000;
    proof {
        let m = if scaled >= 0 { scaled as int } else { -(scaled as int) };
        lemma_div_nonincreasing(m, num as int);
        lemma_div_pos_is_pos(m, num as int);
    }
    let whole: i128 = if scaled >= 0 { scaled / num } else { -((-scaled) / num) };
    let part_scaled: i128 = position.subframe as i128 * den * 1_000_000_000;
    let unit: i128 = num * 0x1_0000_0000;
    proof {
        lemma_div_nonincreasing(part_scaled as int, unit as int);
        lemma_div_pos_is_pos(part_scaled as int, unit as int);
    }
    let part: i128 = part_scaled / unit;
    wrap_day(whole + part)
}

/// The remainder of a time by the day, never negative.
fn wrap_day(ns: i128) -> (r: i128)
    ensures
        r == ns as int % (DAY_NS as int),
        0 <= r < DAY_NS,
{
    if ns >= 0 {
        ns % DAY_NS
    } else {
        let back: i128 = (-(ns + 1)) % DAY_NS;
        proof {
            let n = ns as int;
            let d = DAY_NS as int;
            let m = -(n + 1);
            lemma_fundamental_div_mod(m, d);
            let q = m / d;
            assert(n == (-(q + 1)) * d + (d - 1 - m % d)) by (nonlinear_arith)
                requires
                    m == -(n + 1),
                    m == d * q + m % d,
            ;
            lemma_fundamental_div_mod_converse(n, d, -(q + 1), d - 1 - m % d);
        }
        DAY_NS - 1 - back
    }
}

/// The position that represents a real time since local midnight: the whole timeline's
/// subframes up to it, cut.
pub open spec fn position_of_tod(tod_ns: int, f: TimecodeFormat) -> Position {
    let ns = tod_ns % (DAY_NS as int);
    let parts = (ns * f.numerator * 0x1_0000_0000) / (f.denominator * 1_000_000_000);
    Position {
        frames: (parts / 0x1_0000_0000) as i64,
        subframe: (parts % 0x1_0000_0000) as u32,
    }
}

/// The timecode position that represents a given real time since local midnight. What the
/// leader uses to anchor itself.
pub fn position_for_tod(tod_ns: i128, format: TimecodeFormat) -> (r: Position)
    requires
        is_usable_format(format),
    ensures
        r == position_of_tod(tod_ns as int, format),
{
    let ns: u128 = wrap_day(tod_ns) as u128;
    proof {
        let n = ns as int;
        let num = format.numerator as int;
        assert(0 <= n * num <= 86_400_000_000_000 * 0x1_0000_0000) by (nonlinear_arith)
            requires
                0 <= n <= 86_400_000_000_000,
                0 <= num <= 0x1_0000_0000,
        ;
    }
    let scaled: u128 = ns * format.numerator as u128 * 0x1_0000_0000;
    let unit: u128 = format.denominator as u128 * 1_000_000_000;
    proof {
        lemma_div_is_ordered_by_denominator(scaled as int, 1_000_000_000, unit as int);
    }
    let parts: u128 = scaled / unit;
    Position {
        frames: (parts / 0x1_0000_0000) as i64,
        subframe: (parts % 0x1_0000_0000) as u32,
    }
}

/// A time of day and the position it is anchored to agree to within three nanoseconds, which
/// is far less than a frame, at every rate of a quarter of a frame a second and more.
pub proof fn law_position_and_time_of_day_round_trip(tod_ns: int, f: TimecodeFormat)
    requires
        is_usable_format(f),
        f.denominator * 1_000_000_000 <= f.numerator * 0x1_0000_0000,
    ensures
        ({
            let t = tod_ns % (DAY_NS as int);
            let back = tod_of_position(position_of_tod(tod_ns, f), f);
            t - 3 <= back <= t
        }),
{
    let t = tod_ns % (DAY_NS as int);
    let num = f.numerator as int;
    let unit = f.denominator * 1_000_000_000;
    let b: int = 0x1_0000_0000;
    let scaled = t * num * b;
    let parts = scaled / unit;
    let p = position_of_tod(tod_ns, f);
    assert(0 <= t < 86_400_000_000_000);
    assert(0 <= t * num * b <= 86_400_000_000_000 * 0x1_0000_0000 * 0x1_0000_0000)
        by (nonlinear_arith)
        requires
            0 <= t <= 86_400_000_000_000,
            0 <= num <= 0x1_0000_0000,
            b == 0x1_0000_0000,
    ;
    lemma_div_pos_is_pos(scaled, unit);
    lemma_div_is_ordered_by_denominator(scaled, 1_000_000_000, unit);
    assert(p.frames == parts / b && p.subframe == parts % b);
    let fr = parts / b;
    let sub = parts % b;
    lemma_fundamental_div_mod(scaled, unit);
    let rem = scaled % unit;
    // unit * parts is at most t * num * b and misses it by less than a unit.
    let whole_n = fr * f.denominator * 1_000_000_000;
    assert(whole_n == fr * unit) by (nonlinear_arith)
        requires
            whole_n == fr * f.denominator * 1_000_000_000,
            unit == f.denominator * 1_000_000_000,
    ;
    let part_n = sub * f.denominator * 1_000_000_000;
    assert(part_n == sub * unit) by (nonlinear_arith)
        requires
            part_n == sub * f.denominator * 1_000_000_000,
            unit == f.denominator * 1_000_000_000,
    ;
    assert(fr * unit >= 0 && sub * unit >= 0) by (nonlinear_arith)
        requires
            fr >= 0,
            sub >= 0,
            unit > 0,
    ;
    let w = whole_n / num;
    let q = part_n / (num * b);
    lemma_fundamental_div_mod(whole_n, num);
    assert(num * b > 0) by (nonlinear_arith)
        requires
            num > 0,
            b > 0,
    ;
    lemma_fundamental_div_mod(part_n, num * b);
    let rw = whole_n % num;
    let rq = part_n % (num * b);
    assert((w + q) * (num * b) == (num * w) * b + (num * b) * q) by (nonlinear_arith);
    assert((num * w) * b == fr * unit * b - rw * b) by (nonlinear_arith)
        requires
            fr * unit == num * w + rw,
    ;
    assert(unit * parts == fr * unit * b + sub * unit) by (nonlinear_arith)
        requires
            parts == b * fr + sub,
    ;
    assert(t * num * b == t * (num * b)) by (nonlinear_arith);
    assert((w + q) * (num * b) == t * (num * b) - rem - rw * b - rq);
    let s = w + q;
    let nb = num * b;
    assert(rw * b < nb) by (nonlinear_arith)
        requires
            rw < num,
            b > 0,
            nb == num * b,
    ;
    assert(rw * b >= 0) by (nonlinear_arith)
        requires
            rw >= 0,
            b > 0,
    ;
    assert(s <= t && s >= t - 3) by (nonlinear_arith)
        requires
            s * nb == t * nb - rem - rw * b - rq,
            0 <= rem < unit,
            unit <= nb,
            0 <= rw * b < nb,
            0 <= rq < nb,
            nb > 0,
    ;
    assert(s >= 0) by {
        lemma_div_pos_is_pos(whole_n, num);
        lemma_div_pos_is_pos(part_n, num * b);
    }
    lemma_small_mod(s as nat, DAY_NS as nat);
}

/// Drop-frame numbering does not change where a position falls in the day.
pub proof fn law_drop_frame_does_not_bend_time(p: Position, f: TimecodeFormat)
    ensures
        tod_of_position(p, TimecodeFormat { drop_frame: true, ..f }) == tod_of_position(
            p,
            TimecodeFormat { drop_frame: false, ..f },
        ),
{
}

/// Time of day of what the wall clock shows, in nanoseconds.
pub open spec fn tod_shown(local: LocalTime) -> int {
    local.second_of_day() * 1_000_000_000 + if local.nanosecond > 999_999_999 {
        999_999_999
    } else {
        local.nanosecond as int
    }
}

pub fn tod_at(local: &LocalTime) -> (r: i128)
    requires
        local.wf(),
    ensures
        r == tod_shown(*local),
        0 <= r < DAY_NS,
{
    let nanos: u32 = if local.nanosecond > 999_999_999 { 999_999_999 } else { local.nanosecond };
    local.seconds_from_midnight() as i128 * 1_000_000_000 + nanos as i128
}

/// Time of day, in nanoseconds, of a unix instant, in the local zone.
pub fn tod_of(unix_nanos: i128) -> (r: i128)
    ensures
        0 <= r < DAY_NS,
        exists|local: LocalTime|
            local.wf() && #[trigger] local.shows(calendar::in_range(unix_nanos as int)) && r
                == tod_shown(local),
{
    let local: LocalTime = to_local(unix_nanos);
    tod_at(&local)
}

/// The distance between two instants.
pub open spec fn apart(a: int, b: int) -> int {
    if a >= b {
        a - b
    } else {
        b - a
    }
}

/// The first of the candidates, each moved on by `nanos`, that is nearest to `now`; `now`
/// where there is none.
pub open spec fn nearest_of(candidates: Seq<Option<i64>>, nanos: int, now: int) -> int
    decreases candidates.len(),
{
    if candidates.len() == 0 {
        now
    } else {
        let rest = candidates.drop_last();
        let best = nearest_of(rest, nanos, now);
        match candidates.last() {
            None => best,
            Some(c) => if !any_some(rest) || apart(c + nanos, now) < apart(best, now) {
                c + nanos
            } else {
                best
            },
        }
    }
}

pub open spec fn any_some(candidates: Seq<Option<i64>>) -> bool {
    exists|i: int| 0 <= i < candidates.len() && (#[trigger] candidates[i]) is Some
}

/// Chooses the day. The OS clock chooses the date and nothing else: picking between
/// yesterday, today and tomorrow needs it to be right to within hours.
pub fn nearest_day(candidates: &Vec<Option<i64>>, nanos: u32, now: i128) -> (r: i128)
    requires
        i128::MIN / 2 < now < i128::MAX / 2,
    ensures
        r == nearest_of(candidates@, nanos as int, now as int),
{
    let mut best: i128 = now;
    let mut found: bool = false;
    let mut i: usize = 0;
    while i < candidates.len()
        invariant
            i <= candidates@.len(),
            i128::MIN / 2 < now < i128::MAX / 2,
            best == nearest_of(candidates@.take(i as int), nanos as int, now as int),
            found == any_some(candidates@.take(i as int)),
            found ==> i64::MIN <= best <= i64::MAX + 0x1_0000_0000,
            !found ==> best == now,
        decreases candidates@.len() - i,
    {
        proof {
            let taken = candidates@.take(i + 1);
            assert(taken.drop_last() =~= candidates@.take(i as int));
            assert(taken.last() == candidates@[i as int]);
            assert forall|j: int| 0 <= j < i implies #[trigger] taken[j] == candidates@.take(
                i as int,
            )[j] by {
            }
            if candidates@[i as int] is Some {
                assert(taken[i as int] is Some);
            }
            if found {
                let j = choose|j: int|
                    0 <= j < candidates@.take(i as int).len() && (#[trigger] candidates@.take(
                        i as int,
                    )[j]) is Some;
                assert(taken[j] is Some);
            }
            if !found && candidates@[i as int] is None {
                assert forall|j: int| 0 <= j < taken.len() implies (#[trigger] taken[j]) is None by {
                    if j < i {
                        assert(candidates@.take(i as int)[j] is None);
                    }
                }
            }
        }
        if let Some(c) = candidates[i] {
            let at: i128 = c as i128 + nanos as i128;
            let d: i128 = if at >= now { at - now } else { now - at };
            let e: i128 = if best >= now { best - now } else { now - best };
            if !found || d < e {
                best = at;
            }
            found = true;
        }
        i = i + 1;
    }
    assert(candidates@.take(i as int) =~= candidates@);
    best
}

/// No candidate is nearer to `now` than the one that is picked. So a day that has an instant for
/// a time of day, near to `now`, is not passed over for a day that is further away.
pub proof fn law_no_candidate_is_nearer(
    candidates: Seq<Option<i64>>,
    nanos: int,
    now: int,
    i: int,
)
    requires
        0 <= i < candidates.len(),
        candidates[i] is Some,
    ensures
        apart(nearest_of(candidates, nanos, now), now) <= apart(candidates[i]->0 + nanos, now),
    decreases candidates.len(),
{
    let rest = candidates.drop_last();
    if i < rest.len() {
        assert(rest[i] == candidates[i]);
        law_no_candidate_is_nearer(rest, nanos, now, i);
    }
}

/// The second of the day that a time of day falls in.
pub open spec fn second_of(tod_ns: int) -> int {
    (tod_ns % (DAY_NS as int)) / 1_000_000_000
}

/// Whether an instant is where a time of day was placed on the calendar: the nearest to `now`
/// of that time of day yesterday, today and tomorrow, as the machine's zone has them. A day on
/// which the clocks skip it stays a candidate, with the first second behind the gap.
pub open spec fn is_placement(utc: int, tod_ns: int, now: int) -> bool {
    exists|local: LocalTime, days: Seq<Option<i64>>|
        #![trigger local.shows(calendar::in_range(now)),
            nearest_of(days, tod_ns % (DAY_NS as int) % 1_000_000_000, now)]
        {
            &&& local.wf()
            &&& local.shows(calendar::in_range(now))
            &&& days.len() == 3
            &&& forall|k: int|
                0 <= k < 3 ==> calendar::is_first_second(
                    #[trigger] days[k],
                    calendar::local_day(local, calendar::in_range(now)) + k - 1,
                    second_of(tod_ns),
                )
            &&& utc == nearest_of(days, tod_ns % (DAY_NS as int) % 1_000_000_000, now)
        }
}

/// Place a time of day on the calendar.
pub fn unix_nanos_for_tod(tod_ns: i128, now_unix_nanos: i128) -> (r: i128)
    requires
        i128::MIN / 2 < now_unix_nanos < i128::MAX / 2,
    ensures
        is_placement(r as int, tod_ns as int, now_unix_nanos as int),
{
    let tod: i128 = wrap_day(tod_ns);
    let second: u32 = (tod / 1_000_000_000) as u32;
    let nanos: u32 = (tod % 1_000_000_000) as u32;
    let clamped: i64 = clamp_nanos(now_unix_nanos);
    let local: LocalTime = to_local(now_unix_nanos);
    let days: Vec<Option<i64>> = neighbouring_days(&local, clamped, second);
    nearest_day(&days, nanos, now_unix_nanos)
}

/// The state of the link's clock.
#[derive(Clone, Copy, PartialEq, Eq, Structural, Debug)]
pub enum LinkSync {
    Acquiring,
    Synchronized,
    /// Locked once, and running on with widening uncertainty since the link was lost.
    Holdover,
    Other,
}

/// The state of the link's connection.
#[derive(Clone, Copy, PartialEq, Eq, Structural, Debug)]
pub enum ConnectionState {
    Connecting,
    Connected,
    Shutdown,
    Other,
}

/// What a timeline reads at an instant.
#[derive(Clone, Debug)]
pub struct Reading {
    pub position: Position,
    pub format: TimecodeFormat,
    /// Whether the transport stands still.
    pub paused: bool,
    pub connection: ConnectionState,
    pub synchronization: LinkSync,
    /// Clock exchanges accepted in this acquisition.
    pub accepted_observations: u64,
    pub lost_packets: u64,
    pub uncertainty_ns: F64,
    pub drift_ppm: F64,
    /// The recording session the timeline belongs to.
    pub session_id: Option<String>,
}

/// Whether a reading can place a timestamp at all.
///
/// A paused timeline cannot, not even for marks captured while it was still running: it
/// answers every instant with the position it froze at. A leader generates the timeline from
/// its own clock, so there is nothing to acquire and nothing to lose. A follower in holdover
/// still runs the leader's timeline; refusing to timestamp there would throw away a take over
/// a dropped packet.
pub open spec fn places(role: Role, r: &Reading) -> bool {
    !r.paused && (role == Role::Leader || r.synchronization == LinkSync::Synchronized
        || r.synchronization == LinkSync::Holdover)
}

fn usable(role: Role, r: &Reading) -> (ok: bool)
    ensures
        ok == places(role, r),
{
    if r.paused {
        return false;
    }
    match role {
        Role::Leader => true,
        Role::Follower => match r.synchronization {
            LinkSync::Synchronized => true,
            LinkSync::Holdover => true,
            _ => false,
        },
    }
}

/// The correspondence that fixes which calendar day a take belongs to.
#[derive(Clone, Copy, PartialEq, Eq, Structural, Debug)]
pub struct DayAnchor {
    pub at: Instant,
    pub utc: i128,
    pub tod: i128,
}

/// Signed nanoseconds from `base` to `t`.
pub fn signed_nanos(base: Instant, t: Instant) -> (r: i128)
    ensures
        r == t.nanos - base.nanos,
{
    t.since(base)
}

/// How many whole days a time of day has to be moved by to come nearest to where the
/// monotonic clock expects it.
pub open spec fn days_to_nearest(expected: int, raw: int) -> i128 {
    F64::of_int(time::held(expected - raw)).div_spec(
        F64::of_int(DAY_NS as int),
    ).round_i128_spec()
}

/// UTC of a time of day, on the day of the anchor or on the one that a take has run into.
///
/// Adding the time of day to the anchor's midnight would wrap a take that crosses midnight
/// back to the previous morning, so the whole day is picked that puts the result nearest to
/// where the monotonic clock says it should be.
pub open spec fn utc_on_anchor(anchor: DayAnchor, at: Instant, tod: int) -> i128 {
    let midnight = time::held(anchor.utc - anchor.tod);
    let expected = time::held(anchor.utc + (at.nanos - anchor.at.nanos));
    let raw = time::held(midnight + tod);
    let days = days_to_nearest(expected, raw);
    time::held(raw + time::held(days * DAY_NS)) as i128
}

/// A take that runs past midnight is not wrapped back to the morning before: the time of day
/// is placed on the day that puts it within twelve hours of where the monotonic clock expects
/// it. This is for times whose distance, before the day is picked, is below 2^53 nanoseconds,
/// a little over a hundred days.
pub proof fn law_the_nearest_day_is_picked(anchor: DayAnchor, at: Instant, tod: int)
    requires
        0 <= tod < DAY_NS,
        0 <= anchor.tod < DAY_NS,
        i64::MIN <= anchor.utc <= i64::MAX,
        -0x20_0000_0000_0000 < at.nanos - anchor.at.nanos + anchor.tod - tod < 0x20_0000_0000_0000,
    ensures
        ({
            let utc = utc_on_anchor(anchor, at, tod) as int;
            let midnight = anchor.utc - anchor.tod;
            let expected = anchor.utc + (at.nanos - anchor.at.nanos);
            &&& (utc - midnight - tod) % (DAY_NS as int) == 0
            &&& -(DAY_NS as int) <= 2 * (utc - expected) <= DAY_NS
        }),
{
    let midnight = anchor.utc - anchor.tod;
    let expected = anchor.utc + (at.nanos - anchor.at.nanos);
    let raw = midnight + tod;
    let i = expected - raw;
    accuracy::law_rounded_quotient_is_nearest(i, DAY_NS as int);
    let days = days_to_nearest(expected, raw) as int;
    assert(-200 <= days <= 200) by (nonlinear_arith)
        requires
            -86_400_000_000_000 <= 2 * i - 2 * (days * 86_400_000_000_000) <= 86_400_000_000_000,
            -0x20_0000_0000_0000 < i < 0x20_0000_0000_0000,
    ;
    lemma_mod_multiples_basic(days, DAY_NS as int);
    assert(utc_on_anchor(anchor, at, tod) == raw + days * DAY_NS);
}

/// So the instant that a time of day stands for is found, as long as the monotonic clock is
/// out by less than twelve hours about it.
pub proof fn law_the_true_instant_is_found(anchor: DayAnchor, at: Instant, tod: int, truth: int)
    requires
        0 <= tod < DAY_NS,
        0 <= anchor.tod < DAY_NS,
        i64::MIN <= anchor.utc <= i64::MAX,
        -0x20_0000_0000_0000 < at.nanos - anchor.at.nanos + anchor.tod - tod < 0x20_0000_0000_0000,
        (truth - (anchor.utc - anchor.tod) - tod) % (DAY_NS as int) == 0,
        -(DAY_NS as int) < 2 * (truth - anchor.utc - (at.nanos - anchor.at.nanos)) < DAY_NS,
    ensures
        utc_on_anchor(anchor, at, tod) == truth,
{
    law_the_nearest_day_is_picked(anchor, at, tod);
    let utc = utc_on_anchor(anchor, at, tod) as int;
    let raw = anchor.utc - anchor.tod + tod;
    lemma_sub_mod_noop(utc - raw, truth - raw, DAY_NS as int);
    let gap = utc - truth;
    assert(gap % (DAY_NS as int) == 0);
    assert(-(DAY_NS as int) < gap < DAY_NS);
    if gap > 0 {
        lemma_small_mod(gap as nat, DAY_NS as nat);
    } else if gap < 0 {
        lemma_small_mod((gap + DAY_NS) as nat, DAY_NS as nat);
        lemma_mod_add_multiples_vanish(gap, DAY_NS as int);
    }
}

/// A number of days in nanoseconds, held to the range of `i128`.
fn held_days(days: i128) -> (r: i128)
    ensures
        r == time::held(days * DAY_NS),
{
    let most: i128 = i128::MAX / DAY_NS;
    if days > most {
        i128::MAX
    } else if days < -most {
        i128::MIN
    } else {
        days * DAY_NS
    }
}

/// A timecode timeline as a time reference.
pub struct TimecodeReference {
    pub role: Role,
    pub source: String,
    /// Whether the timeline has been read at all.
    pub refreshed: bool,
    /// The reading as of the last refresh.
    pub latest: Option<Reading>,
    pub anchor: Option<DayAnchor>,
    /// The session that the anchor belongs to.
    pub session: Option<String>,
}

impl TimecodeReference {
    pub fn new(role: Role, source: String) -> (r: TimecodeReference)
        ensures
            r.role == role,
            r.source@ == source@,
            !r.refreshed,
            r.latest is None,
            r.anchor is None,
            r.session is None,
    {
        TimecodeReference {
            role,
            source,
            refreshed: false,
            latest: None,
            anchor: None,
            session: None,
        }
    }

    /// The time of day to anchor to, where a refresh with this reading fixes the calendar
    /// day: the first reading that can place a timestamp.
    pub open spec fn anchors_on(&self, reading: Option<Reading>) -> Option<int> {
        match reading {
            Some(r) => if self.anchor is None && places(self.role, &r) {
                Some(tod_of_position(r.position, r.format))
            } else {
                None
            },
            None => None,
        }
    }

    /// The time of day that a refresh with this reading has to be placed on the calendar,
    /// where it fixes the day.
    pub fn anchor_due(&self, reading: &Option<Reading>) -> (r: Option<i128>)
        requires
            reading is Some ==> is_usable_format(reading->0.format),
        ensures
            (match r {
                None => self.anchors_on(*reading) is None,
                Some(tod) => self.anchors_on(*reading) == Some(tod as int),
            }),
            r is Some ==> 0 <= r->0 < DAY_NS,
    {
        match reading {
            Some(r) => if self.anchor.is_none() && usable(self.role, r) {
                Some(tod_nanos(r.position, r.format))
            } else {
                None
            },
            None => None,
        }
    }

    /// Picks up what the timeline reads at `now`. Where that fixes the calendar day, `utc` is
    /// the instant of its time of day.
    pub fn refresh_at(&mut self, now: Instant, reading: Option<Reading>, utc: i128)
        requires
            reading is Some ==> is_usable_format(reading->0.format),
        ensures
            final(self).role == old(self).role,
            final(self).source == old(self).source,
            final(self).refreshed,
            final(self).latest == reading,
            (match old(self).anchors_on(reading) {
                Some(tod) => final(self).anchor == Some(
                    DayAnchor { at: now, utc, tod: tod as i128 },
                ) && same_text_option(final(self).session, reading->0.session_id),
                None => final(self).anchor == old(self).anchor
                    && final(self).session == old(self).session,
            }),
    {
        if let Some(tod) = self.anchor_due(&reading) {
            self.anchor = Some(DayAnchor { at: now, utc, tod });
            self.session = match &reading {
                Some(r) => match &r.session_id {
                    Some(id) => Some(id.clone()),
                    None => None,
                },
                None => None,
            };
        }
        self.latest = reading;
        self.refreshed = true;
    }

    /// Picks up what the timeline reads at `now`, when the OS clock shows `wall` unix
    /// nanoseconds, and fixes the calendar day the first time it can.
    pub fn refresh(&mut self, now: Instant, reading: Option<Reading>, wall: i128)
        requires
            reading is Some ==> is_usable_format(reading->0.format),
            i128::MIN / 2 < wall < i128::MAX / 2,
        ensures
            final(self).role == old(self).role,
            final(self).source == old(self).source,
            final(self).refreshed,
            final(self).latest == reading,
            (match old(self).anchors_on(reading) {
                Some(tod) => final(self).anchor is Some && final(self).anchor->0.at == now
                    && final(self).anchor->0.tod == tod && is_placement(
                    final(self).anchor->0.utc as int,
                    tod,
                    wall as int,
                ) && same_text_option(final(self).session, reading->0.session_id),
                None => final(self).anchor == old(self).anchor
                    && final(self).session == old(self).session,
            }),
    {
        let utc: i128 = match self.anchor_due(&reading) {
            Some(tod) => unix_nanos_for_tod(tod, wall),
            None => wall,
        };
        self.refresh_at(now, reading, utc);
    }

    /// What [`TimecodeReference::utc_nanos`] answers.
    pub open spec fn resolves(&self, at: Instant, reading: Option<Reading>) -> Option<i128> {
        if !self.refreshed {
            None
        } else {
            match (self.anchor, reading) {
                (Some(anchor), Some(r)) => if places(self.role, &r) {
                    Some(utc_on_anchor(anchor, at, tod_of_position(r.position, r.format)))
                } else {
                    None
                },
                _ => None,
            }
        }
    }

    /// UTC at `at`, where the timeline, as of the last refresh, reads `reading` at that
    /// instant; `None` while the timeline cannot say.
    pub fn utc_nanos(&self, at: Instant, reading: &Option<Reading>) -> (r: Option<i128>)
        requires
            reading is Some ==> is_usable_format(reading->0.format),
        ensures
            r == self.resolves(at, *reading),
    {
        if !self.refreshed {
            return None;
        }
        match (self.anchor, reading) {
            (Some(anchor), Some(r)) => {
                if !usable(self.role, r) {
                    return None;
                }
                let tod: i128 = tod_nanos(r.position, r.format);
                let midnight: i128 = held_difference(anchor.utc, anchor.tod);
                let expected: i128 = held_sum(anchor.utc, signed_nanos(anchor.at, at));
                let raw: i128 = held_sum(midnight, tod);
                let days: i128 = F64::from_i128(held_difference(expected, raw)).div(
                    F64::from_i128(DAY_NS),
                ).round_i128();
                Some(held_sum(raw, held_days(days)))
            },
            _ => None,
        }
    }

    pub fn status(&self) -> (r: RefStatus)
        ensures
            r@ == status_view_of(self.role, self.source@, self.latest),
    {
        status_of(self.role, self.source.as_str(), &self.latest)
    }

    /// The format on the wire, which is not necessarily the one this machine was configured
    /// for.
    pub fn timecode_format(&self) -> (r: Option<TimecodeFormat>)
        ensures
            r == (match self.latest {
                Some(reading) => Some(reading.format),
                None => None,
            }),
    {
        match &self.latest {
            Some(reading) => Some(reading.format),
            None => None,
        }
    }

    /// The session of the take: the one that the timeline belonged to when it was anchored.
    pub fn session_id(&self) -> (r: Option<String>)
        ensures
            same_text_option(r, self.session),
    {
        match &self.session {
            Some(id) => Some(id.clone()),
            None => None,
        }
    }
}

/// A timeline, with what it read as of its last refresh at each instant that a pass asks for:
/// a reference that the marks of the pass are resolved against.
pub struct TimelinePass {
    pub timeline: TimecodeReference,
    pub readings: Vec<(Instant, Option<Reading>)>,
}

impl TimelinePass {
    /// The first reading at an instant.
    pub open spec fn reading_at(readings: Seq<(Instant, Option<Reading>)>, at: Instant) -> Option<
        Reading,
    >
        decreases readings.len(),
    {
        if readings.len() == 0 {
            None
        } else if readings[0].0 == at {
            readings[0].1
        } else {
            Self::reading_at(readings.skip(1), at)
        }
    }
}

impl Reference for TimelinePass {
    /// A reading in a format that counts no frames places nothing.
    open spec fn resolves_at(&self, at: Instant) -> Option<i128> {
        match TimelinePass::reading_at(self.readings@, at) {
            Some(r) => if is_usable_format(r.format) {
                self.timeline.resolves(at, Some(r))
            } else {
                None
            },
            None => None,
        }
    }

    open spec fn status_view(&self) -> StatusView {
        status_view_of(self.timeline.role, self.timeline.source@, self.timeline.latest)
    }

    open spec fn format_view(&self) -> Option<TimecodeFormat> {
        match self.timeline.latest {
            Some(reading) => Some(reading.format),
            None => None,
        }
    }

    open spec fn session_view(&self) -> Option<Seq<char>> {
        match self.timeline.session {
            Some(id) => Some(id@),
            None => None,
        }
    }

    fn utc_nanos(&self, at: Instant) -> (r: Option<i128>) {
        let mut i: usize = 0;
        assert(self.readings@.skip(0) =~= self.readings@);
        while i < self.readings.len()
            invariant
                i <= self.readings@.len(),
                TimelinePass::reading_at(self.readings@, at) == TimelinePass::reading_at(
                    self.readings@.skip(i as int),
                    at,
                ),
            decreases self.readings@.len() - i,
        {
            assert(self.readings@.skip(i as int)[0] == self.readings@[i as int]);
            assert(self.readings@.skip(i as int).skip(1) =~= self.readings@.skip(i + 1));
            if self.readings[i].0.nanos == at.nanos {
                return match &self.readings[i].1 {
                    Some(r) => if r.format.numerator > 0 && r.format.denominator > 0 {
                        self.timeline.utc_nanos(at, &self.readings[i].1)
                    } else {
                        None
                    },
                    None => None,
                };
            }
            i = i + 1;
        }
        None
    }

    fn status(&self) -> (r: RefStatus) {
        self.timeline.status()
    }

    fn timecode_format(&self) -> (r: Option<TimecodeFormat>) {
        self.timeline.timecode_format()
    }

    fn session_id(&self) -> (r: Option<String>) {
        self.timeline.session_id()
    }
}

/// The same text, or none on either side.
pub open spec fn same_text_option(a: Option<String>, b: Option<String>) -> bool {
    match (a, b) {
        (Some(x), Some(y)) => x@ == y@,
        (None, None) => true,
        _ => false,
    }
}

/// The word for a follower's link, and whether it counts as synced.
pub open spec fn link_state(connection: ConnectionState, sync: LinkSync) -> (bool, Seq<char>) {
    match (connection, sync) {
        (_, LinkSync::Synchronized) => (true, "synced"@),
        (_, LinkSync::Holdover) => (false, "holdover"@),
        (ConnectionState::Connected, LinkSync::Acquiring) => (false, "acquiring"@),
        (ConnectionState::Connecting, _) => (false, "connecting"@),
        (ConnectionState::Shutdown, _) => (false, "shut down"@),
        _ => (false, "disconnected"@),
    }
}

/// What a reading says about its own trustworthiness.
///
/// A leader is the reference: there is no exchange to wait for, so it is ready from the moment
/// it exists, and it counts no exchanges. A follower counts its own accepted exchanges, so
/// that the drift gate can hold both kinds of reference to one standard.
pub open spec fn status_view_of(
    role: Role,
    source: Seq<char>,
    reading: Option<Reading>,
) -> StatusView {
    let bare = StatusView {
        kind: "ethersync"@,
        source,
        synced: false,
        label: "connecting"@,
        samples: None,
        discarded: None,
        dispersion_s: None,
        slope_ppm: None,
    };
    match role {
        Role::Leader => StatusView {
            synced: true,
            label: match reading {
                Some(r) => if r.paused {
                    "idle"@
                } else {
                    "rolling"@
                },
                None => "idle"@,
            },
            ..bare
        },
        Role::Follower => match reading {
            None => bare,
            Some(r) => StatusView {
                synced: link_state(r.connection, r.synchronization).0,
                label: link_state(r.connection, r.synchronization).1,
                samples: Some(r.accepted_observations),
                discarded: Some(r.lost_packets),
                dispersion_s: Some(r.uncertainty_ns.div_spec(F64 { bits: GIGA })),
                slope_ppm: Some(r.drift_ppm),
                ..bare
            },
        },
    }
}

/// What a reading says about its own trustworthiness.
pub fn status_of(role: Role, source: &str, reading: &Option<Reading>) -> (r: RefStatus)
    ensures
        r@ == status_view_of(role, source@, *reading),
{
    match role {
        Role::Leader => {
            let label: &str = match reading {
                Some(r) => if r.paused {
                    "idle"
                } else {
                    "rolling"
                },
                None => "idle",
            };
            RefStatus {
                kind: String::from_str("ethersync"),
                source: String::from_str(source),
                synced: true,
                label: String::from_str(label),
                samples: None,
                discarded: None,
                dispersion_s: None,
                slope_ppm: None,
            }
        },
        Role::Follower => match reading {
            None => RefStatus {
                kind: String::from_str("ethersync"),
                source: String::from_str(source),
                synced: false,
                label: String::from_str("connecting"),
                samples: None,
                discarded: None,
                dispersion_s: None,
                slope_ppm: None,
            },
            Some(r) => {
                let (synced, label): (bool, &str) = match (r.connection, r.synchronization) {
                    (_, LinkSync::Synchronized) => (true, "synced"),
                    (_, LinkSync::Holdover) => (false, "holdover"),
                    (ConnectionState::Connected, LinkSync::Acquiring) => (false, "acquiring"),
                    (ConnectionState::Connecting, _) => (false, "connecting"),
                    (ConnectionState::Shutdown, _) => (false, "shut down"),
                    _ => (false, "disconnected"),
                };
                RefStatus {
                    kind: String::from_str("ethersync"),
                    source: String::from_str(source),
                    synced,
                    label: String::from_str(label),
                    samples: Some(r.accepted_observations),
                    discarded: Some(r.lost_packets),
                    dispersion_s: Some(r.uncertainty_ns.div(F64 { bits: GIGA })),
                    slope_ppm: Some(r.drift_ppm),
                }
            },
        },
    }
}

/// A leader is ready the moment it exists, whatever its timeline reads.
pub proof fn law_a_leader_is_always_ready(source: Seq<char>, reading: Option<Reading>)
    ensures
        status_view_of(Role::Leader, source, reading).is_ready(),
        status_view_of(Role::Leader, source, reading).samples is None,
{
}

/// A paused timeline stamps nothing, at either end of the rig.
pub proof fn law_a_paused_timeline_stamps_nothing(
    t: TimecodeReference,
    at: Instant,
    reading: Option<Reading>,
)
    requires
        reading is Some ==> reading->0.paused,
    ensures
        t.resolves(at, reading) is None,
{
}

/// A follower that has locked to nobody stamps nothing and is never ready.
pub proof fn law_an_unlocked_follower_declines(
    t: TimecodeReference,
    at: Instant,
    reading: Option<Reading>,
)
    requires
        t.role == Role::Follower,
        reading is Some ==> reading->0.synchronization != LinkSync::Synchronized
            && reading->0.synchronization != LinkSync::Holdover,
    ensures
        t.resolves(at, reading) is None,
        !status_view_of(Role::Follower, t.source@, reading).is_ready(),
{
}

/// The two ends of a rig that are anchored alike and read the same position answer an instant
/// alike: agreement does not depend on which end asks.
pub proof fn law_both_ends_agree(
    leader: TimecodeReference,
    follower: TimecodeReference,
    at: Instant,
    a: Reading,
    b: Reading,
)
    requires
        leader.refreshed && follower.refreshed,
        leader.anchor is Some && leader.anchor == follower.anchor,
        a.position == b.position,
        a.format == b.format,
        places(leader.role, &a),
        places(follower.role, &b),
    ensures
        leader.resolves(at, Some(a)) == follower.resolves(at, Some(b)),
        leader.resolves(at, Some(a)) is Some,
{
}

/// How a link stands.
#[derive(Clone, Debug)]
pub enum LinkKind {
    /// Leading, listening at this address.
    Leader { address: String },
    /// Following the leader at this address.
    Follower { address: String },
    /// A follower with nobody to follow yet, browsing for one.
    Browsing,
}

impl LinkKind {
    pub open spec fn source_text(&self) -> Seq<char> {
        match self {
            LinkKind::Leader { address } => "ethersync leader "@ + address@,
            LinkKind::Follower { address } => "ethersync follower of "@ + address@,
            LinkKind::Browsing => "ethersync (no leader)"@,
        }
    }

    /// Where a link says its timestamps come from, for the file.
    pub fn source(&self) -> (r: String)
        ensures
            r@ == self.source_text(),
    {
        match self {
            LinkKind::Leader { address } => {
                let mut s: String = String::from_str("ethersync leader ");
                s.append(address.as_str());
                s
            },
            LinkKind::Follower { address } => {
                let mut s: String = String::from_str("ethersync follower of ");
                s.append(address.as_str());
                s
            },
            LinkKind::Browsing => String::from_str("ethersync (no leader)"),
        }
    }
}

/// The most characters of a leader's name that are advertised.
pub const NAME_LIMIT: usize = 63;

/// A leader's name as it is advertised.
pub fn advertised_name(name: &str) -> (r: String)
    ensures
        r@ == if name@.len() <= NAME_LIMIT {
            name@
        } else {
            name@.take(NAME_LIMIT as int)
        },
{
    let n: usize = name.unicode_len();
    if n <= NAME_LIMIT {
        String::from_str(name)
    } else {
        let r: String = crate::text::cut(name, 0, NAME_LIMIT);
        assert(r@ =~= name@.take(NAME_LIMIT as int));
        r
    }
}

/// The instant at which a reading between two others was taken, in engine nanoseconds: their
/// midpoint. Queue delay would otherwise make every follower's timecode late.
pub fn sampled_between(before: i64, after: i64) -> (r: i64)
    requires
        before <= after,
    ensures
        r == before + (after - before) / 2,
{
    (before as i128 + (after as i128 - before as i128) / 2) as i64
}

/// An address that a follower could be pointed at.
#[derive(Clone, Debug)]
pub struct Endpoint {
    pub text: String,
    pub loopback: bool,
}

pub open spec fn others(s: Seq<Endpoint>, loopback: bool) -> Seq<Endpoint>
    decreases s.len(),
{
    if s.len() == 0 {
        s
    } else if s.last().loopback == loopback {
        others(s.drop_last(), loopback).push(s.last())
    } else {
        others(s.drop_last(), loopback)
    }
}

/// The endpoints in the order to show them. Loopback is real but it is not what anyone is
/// about to type into another machine, so it comes last.
pub fn order_endpoints(endpoints: Vec<Endpoint>) -> (r: Vec<Endpoint>)
    ensures
        r@ == others(endpoints@, false) + others(endpoints@, true),
{
    let ghost all = endpoints@;
    let mut rest: Vec<Endpoint> = endpoints;
    let mut near: Vec<Endpoint> = Vec::new();
    let mut far: Vec<Endpoint> = Vec::new();
    assert(others(all, true) =~= others(rest@, true) + near@.reverse());
    assert(others(all, false) =~= others(rest@, false) + far@.reverse());
    while rest.len() > 0
        invariant
            others(all, true) == others(rest@, true) + near@.reverse(),
            others(all, false) == others(rest@, false) + far@.reverse(),
        decreases rest@.len(),
    {
        let ghost r0 = rest@;
        let ghost n0 = near@;
        let ghost f0 = far@;
        let last: Option<Endpoint> = rest.pop();
        if let Some(e) = last {
            if e.loopback {
                near.push(e);
                assert(near@.reverse() =~= seq![e] + n0.reverse());
                assert(others(r0, true) + n0.reverse() =~= others(rest@, true) + near@.reverse());
            } else {
                far.push(e);
                assert(far@.reverse() =~= seq![e] + f0.reverse());
                assert(others(r0, false) + f0.reverse() =~= others(rest@, false) + far@.reverse());
            }
        }
    }
    let mut out: Vec<Endpoint> = Vec::new();
    let ghost far0 = far@;
    let ghost near0 = near@;
    assert(others(all, false) =~= far0.reverse());
    assert(others(all, true) =~= near0.reverse());
    while far.len() > 0
        invariant
            out@ + far@.reverse() == far0.reverse(),
        decreases far@.len(),
    {
        let ghost o0 = out@;
        let ghost g0 = far@;
        let last: Option<Endpoint> = far.pop();
        if let Some(e) = last {
            out.push(e);
            assert(out@ + far@.reverse() =~= o0 + g0.reverse());
        }
    }
    assert(out@ =~= far0.reverse());
    while near.len() > 0
        invariant
            out@ + near@.reverse() == far0.reverse() + near0.reverse(),
        decreases near@.len(),
    {
        let ghost o0 = out@;
        let ghost g0 = near@;
        let last: Option<Endpoint> = near.pop();
        if let Some(e) = last {
            out.push(e);
            assert(out@ + near@.reverse() =~= o0 + g0.reverse());
        }
    }
    assert(out@ =~= far0.reverse() + near0.reverse());
    out
}

/// Something that happened on a link.
#[derive(Clone, Debug)]
pub enum LinkEvent {
    Error(String),
    Connection(String),
    SourceHealth(String),
    /// The link working: not news.
    Routine,
}

/// What an event says to the operator.
pub open spec fn news(e: LinkEvent) -> Option<Seq<char>> {
    match e {
        LinkEvent::Error(s) => Some(s@),
        LinkEvent::Connection(s) => Some("link "@ + s@),
        LinkEvent::SourceHealth(s) => Some("source "@ + s@),
        LinkEvent::Routine => None,
    }
}

/// The last thing worth showing after some events.
pub open spec fn message_after(before: Option<Seq<char>>, events: Seq<LinkEvent>) -> Option<Seq<char>>
    decreases events.len(),
{
    if events.len() == 0 {
        before
    } else {
        match news(events.last()) {
            Some(s) => Some(s),
            None => message_after(before, events.drop_last()),
        }
    }
}

pub open spec fn text_of(s: Option<String>) -> Option<Seq<char>> {
    match s {
        Some(t) => Some(t@),
        None => None,
    }
}

/// Drains a link's events, keeping the last one worth showing.
pub fn latest_message(before: Option<String>, events: &Vec<LinkEvent>) -> (r: Option<String>)
    ensures
        text_of(r) == message_after(text_of(before), events@),
{
    let mut message: Option<String> = before;
    let mut i: usize = 0;
    while i < events.len()
        invariant
            i <= events@.len(),
            text_of(message) == message_after(text_of(before), events@.take(i as int)),
        decreases events@.len() - i,
    {
        assert(events@.take(i + 1).drop_last() =~= events@.take(i as int));
        assert(events@.take(i + 1).last() == events@[i as int]);
        match &events[i] {
            LinkEvent::Error(s) => {
                message = Some(s.clone());
            },
            LinkEvent::Connection(s) => {
                let mut t: String = String::from_str("link ");
                t.append(s.as_str());
                message = Some(t);
            },
            LinkEvent::SourceHealth(s) => {
                let mut t: String = String::from_str("source ");
                t.append(s.as_str());
                message = Some(t);
            },
            LinkEvent::Routine => {},
        }
        i = i + 1;
    }
    assert(events@.take(i as int) =~= events@);
    message
}

/// The position of the slate label of what the wall clock shows, in a timecode format.
///
/// Timecode is time of day, so this is just the local wall time in frames.
pub fn slate_position(local: &LocalTime, tc: TimecodeFormat) -> (r: Position)
    requires
        local.wf(),
        is_usable_format(tc),
    ensures
        r == position_of_tod(tod_shown(*local), tc),
{
    position_for_tod(tod_at(local), tc)
}

/// Positions count frames at the true frame rate: `numerator` of them are `denominator` seconds.
/// In nanoseconds, what a position stands for is its frames and parts of a frame over that rate,
/// less no more than two nanoseconds, and then the time of day is what is left of whole days.
pub proof fn law_positions_count_at_the_frame_rate(p: Position, f: TimecodeFormat)
    requires
        is_usable_format(f),
        p.frames >= 0,
    ensures
        ({
            let unit = f.numerator * 0x1_0000_0000;
            let exact = (p.frames * 0x1_0000_0000 + p.subframe) * (f.denominator * 1_000_000_000);
            exists|t: int| #[trigger]
                runs_for(t, exact, unit) && tod_of_position(p, f) == t % (DAY_NS as int)
        }),
{
    let b: int = 0x1_0000_0000;
    let num = f.numerator as int;
    let den = f.denominator * 1_000_000_000;
    let unit = num * b;
    let fr = p.frames as int;
    let sub = p.subframe as int;
    let n1 = fr * f.denominator * 1_000_000_000;
    let n2 = sub * f.denominator * 1_000_000_000;
    assert(n1 == fr * den && n2 == sub * den) by (nonlinear_arith)
        requires
            n1 == fr * f.denominator * 1_000_000_000,
            n2 == sub * f.denominator * 1_000_000_000,
            den == f.denominator * 1_000_000_000,
    ;
    assert(n1 >= 0 && n2 >= 0 && unit > 0) by (nonlinear_arith)
        requires
            n1 == fr * den,
            n2 == sub * den,
            fr >= 0,
            sub >= 0,
            den > 0,
            num > 0,
            b > 0,
            unit == num * b,
    ;
    let w = n1 / num;
    let q = n2 / unit;
    lemma_fundamental_div_mod(n1, num);
    lemma_fundamental_div_mod(n2, unit);
    lemma_mod_bound(n1, num);
    lemma_mod_bound(n2, unit);
    let r1 = n1 % num;
    let r2 = n2 % unit;
    let exact = (fr * b + sub) * den;
    assert(exact == n1 * b + n2) by (nonlinear_arith)
        requires
            exact == (fr * b + sub) * den,
            n1 == fr * den,
            n2 == sub * den,
    ;
    assert(n1 * b == w * unit + r1 * b) by (nonlinear_arith)
        requires
            n1 == num * w + r1,
            unit == num * b,
    ;
    assert(unit * q == q * unit) by (nonlinear_arith);
    assert((w + q) * unit == w * unit + q * unit) by (nonlinear_arith);
    assert(0 <= r1 * b < unit) by (nonlinear_arith)
        requires
            0 <= r1 < num,
            b > 0,
            unit == num * b,
    ;
    assert(runs_for(w + q, exact, unit));
    assert(tod_of_position(p, f) == (w + q) % (DAY_NS as int));
}

/// Whether `t` is `exact` over `unit`, less no more than two.
pub open spec fn runs_for(t: int, exact: int, unit: int) -> bool {
    0 <= exact - t * unit < 2 * unit
}

/// A timeline places an instant exactly where it was read, its day is known, and it is not
/// paused, as long as the machine leads it or follows it, be it in holdover.
pub proof fn law_a_running_timeline_places_every_instant(
    t: TimecodeReference,
    at: Instant,
    reading: Option<Reading>,
)
    ensures
        t.resolves(at, reading) is Some <==> {
            &&& t.refreshed
            &&& t.anchor is Some
            &&& reading is Some
            &&& !reading->0.paused
            &&& t.role == Role::Leader || reading->0.synchronization == LinkSync::Synchronized
                || reading->0.synchronization == LinkSync::Holdover
        },
{
}

/// What is sifted out is of the kind asked for, keeps its order, and leaves out nothing of it.
proof fn lemma_sifted(s: Seq<Endpoint>, loopback: bool)
    ensures
        others(s, loopback).len() + others(s, !loopback).len() == s.len(),
        forall|i: int|
            0 <= i < others(s, loopback).len() ==> (#[trigger] others(s, loopback)[i]).loopback
                == loopback,
        others(s, loopback).to_multiset().add(others(s, !loopback).to_multiset())
            =~= s.to_multiset(),
    decreases s.len(),
{
    broadcast use vstd::seq_lib::group_to_multiset_ensures;

    if s.len() > 0 {
        lemma_sifted(s.drop_last(), loopback);
        assert(s =~= s.drop_last().push(s.last()));
    }
}

/// The endpoints to show are all of them and no others, and those on this machine alone come
/// behind all that another machine can reach.
pub proof fn law_loopback_comes_last_and_nothing_is_lost(s: Seq<Endpoint>)
    ensures
        ({
            let shown = others(s, false) + others(s, true);
            &&& shown.to_multiset() =~= s.to_multiset()
            &&& forall|i: int, j: int|
                0 <= i < j < shown.len() && (#[trigger] shown[i]).loopback ==> (
                #[trigger] shown[j]).loopback
        }),
{
    lemma_sifted(s, false);
    lemma_sifted(s, true);
    vstd::seq_lib::lemma_multiset_commutative(others(s, false), others(s, true));
}

/// The message to show is the news of the last event that brought any; where none did, the message
/// stays.
pub proof fn law_the_last_news_is_shown(before: Option<Seq<char>>, events: Seq<LinkEvent>)
    ensures
        (forall|i: int| 0 <= i < events.len() ==> news(#[trigger] events[i]) is None)
            ==> message_after(before, events) == before,
        forall|k: int|
            0 <= k < events.len() && news(#[trigger] events[k]) is Some && (forall|i: int|
                k < i < events.len() ==> news(#[trigger] events[i]) is None) ==> message_after(
                before,
                events,
            ) == news(events[k]),
    decreases events.len(),
{
    if events.len() > 0 {
        let rest = events.drop_last();
        law_the_last_news_is_shown(before, rest);
        assert forall|k: int|
            0 <= k < events.len() && news(#[trigger] events[k]) is Some && (forall|i: int|
                k < i < events.len() ==> news(#[trigger] events[i]) is None) implies message_after(
            before,
            events,
        ) == news(events[k]) by {
            if k < rest.len() {
                assert(rest[k] == events[k]);
                assert(news(events[events.len() - 1]) is None);
                assert forall|i: int| k < i < rest.len() implies news(#[trigger] rest[i]) is None by {
                    assert(rest[i] == events[i]);
                }
            }
        }
        if forall|i: int| 0 <= i < events.len() ==> news(#[trigger] events[i]) is None {
            assert(news(events[events.len() - 1]) is None);
            assert forall|i: int| 0 <= i < rest.len() implies news(#[trigger] rest[i]) is None by {
                assert(rest[i] == events[i]);
            }
        }
    }
}

} // verus!
