//! From a finished recording to the file that ships.

use crate::audio::session::TakeResult;
use crate::audio::writer::Sidecar;
use crate::audio::TARGET_RATE;
use crate::bwf::{Provenance, TimecodeStamp};
use crate::ethersync;
use crate::finalize;
use crate::finalize::Outcome;
use crate::float::F64;
use crate::text;
use crate::text::{push_fixed, push_padded};
use crate::time;
use crate::time::{held_difference, Duration};
use vstd::arithmetic::div_mod::*;
use vstd::prelude::*;

verus! {

/// When a take without an anchor is taken to have begun: its own length before `now`.
pub open spec fn assumed_start(frames: u64, device_rate: u32, now: i128) -> int {
    let rate: int = if device_rate == 0 {
        1
    } else {
        device_rate as int
    };
    time::held(now - frames * 1_000_000_000 / rate)
}

/// What the take's own record says of how it was made, before anything is finalised.
pub open spec fn is_provenance_of(
    p: &Provenance,
    take: &TakeResult,
    trim_ms: F64,
    now: i128,
) -> bool {
    let s = take.sidecar;
    &&& p.t0_unix_nanos == (match s.t0_unix_nanos {
        Some(t0) => t0 as int,
        None => assumed_start(s.raw_frames, s.device_rate, now),
    })
    &&& p.sync_state@ == (match s.t0_unix_nanos {
        Some(_) => s.sync_state@,
        None => "unsynced"@,
    })
    &&& p.sample_rate == TARGET_RATE
    &&& p.channels == s.channels
    &&& p.bits_per_sample == 24
    &&& p.device_name@ == s.device_name@
    &&& p.device_rate == s.device_rate
    &&& p.measured_rate is None
    &&& p.drift_ratio is None
    &&& !p.resampled
    &&& p.clock_source@ == s.clock_source@
    &&& p.clock_dispersion_s == s.clock_dispersion_s
    &&& p.slope_ppm == s.clock_slope_ppm
    &&& p.latency_offset_ms == trim_ms
    &&& (match p.timecode {
        Some(stamp) => s.t0_unix_nanos is Some && take.timecode == Some(stamp.format)
            && s.start_timecode is Some && stamp.start@ == s.start_timecode->0@,
        None => s.t0_unix_nanos is None || take.timecode is None || s.start_timecode is None,
    })
    &&& ethersync::same_text_option(p.session_id, s.session_id)
}

/// What is known about how a take was made, for finalising it at `now`.
///
/// Without an anchor something still has to be written, but it must be visibly untrusted
/// rather than quietly wrong. A timecode stamp only means anything when the anchor it labels
/// is real, so it rides on the anchor having resolved rather than on the reference having a
/// rate.
pub fn provenance(take: &TakeResult, trim_ms: F64, now: i128) -> (p: Provenance)
    ensures
        is_provenance_of(&p, take, trim_ms, now),
{
    let s: &Sidecar = &take.sidecar;
    let (t0, sync_state): (i128, String) = match s.t0_unix_nanos {
        Some(t0) => (t0, s.sync_state.clone()),
        None => {
            let rate: i128 = if s.device_rate == 0 { 1 } else { s.device_rate as i128 };
            let span: i128 = s.raw_frames as i128 * 1_000_000_000 / rate;
            (held_difference(now, span), String::from_str("unsynced"))
        },
    };
    let timecode: Option<TimecodeStamp> = match (s.t0_unix_nanos, take.timecode) {
        (Some(_), Some(format)) => match &s.start_timecode {
            Some(start) => Some(TimecodeStamp { format, start: start.clone() }),
            None => None,
        },
        _ => None,
    };
    Provenance {
        t0_unix_nanos: t0,
        sample_rate: TARGET_RATE,
        channels: s.channels,
        bits_per_sample: 24,
        device_name: s.device_name.clone(),
        device_rate: s.device_rate,
        measured_rate: None,
        drift_ratio: None,
        resampled: false,
        clock_source: s.clock_source.clone(),
        clock_dispersion_s: s.clock_dispersion_s,
        sync_state,
        slope_ppm: s.clock_slope_ppm,
        latency_offset_ms: trim_ms,
        timecode,
        session_id: match &s.session_id {
            Some(id) => Some(id.clone()),
            None => None,
        },
    }
}

/// The post-take status line.
pub open spec fn outcome_text(file: Seq<char>, o: &Outcome) -> Seq<char> {
    if o.resampled {
        "saved "@ + file
    } else {
        match finalize::summary(o.gate@) {
            Some(why) => "saved "@ + file + " · "@ + why,
            None => "saved "@ + file + " · uncorrected"@,
        }
    }
}

/// The post-take status line. Deliberately terse: why a take was not corrected is recorded in
/// the file and in the sidecar.
pub fn describe_outcome(file: &str, o: &Outcome) -> (r: String)
    ensures
        r@ == outcome_text(file@, o),
{
    let mut s: String = String::from_str("saved ");
    s.append(file);
    if !o.resampled {
        match o.gate.short_reason() {
            Some(why) => {
                s.append(" · ");
                s.append(why);
            },
            None => {
                s.append(" · uncorrected");
            },
        }
    }
    s
}

/// Where a path ends once separators and empty components behind it are left off.
pub open spec fn path_end(s: Seq<char>) -> nat
    decreases s.len(),
{
    if s.len() > 0 && s.last() == '/' {
        path_end(s.drop_last())
    } else if s.len() >= 2 && s.last() == '.' && s[s.len() - 2] == '/' {
        path_end(s.drop_last())
    } else {
        s.len()
    }
}

/// Where the last component of a path begins.
pub open spec fn name_start(s: Seq<char>) -> nat
    decreases s.len(),
{
    if s.len() == 0 || s.last() == '/' {
        s.len()
    } else {
        name_start(s.drop_last())
    }
}

/// The last component of a path, where it names something: not the root, and not a step
/// upward or in place.
pub open spec fn name_in(path: Seq<char>) -> Seq<char> {
    let p = path.take(path_end(path) as int);
    let name = p.skip(name_start(p) as int);
    if name == "."@ || name == ".."@ {
        Seq::empty()
    } else {
        name
    }
}

/// The file name of a path; empty where it has none.
pub fn file_name(path: &str) -> (r: String)
    ensures
        r@ == name_in(path@),
{
    let n: usize = path.unicode_len();
    let mut end: usize = n;
    assert(path@.take(n as int) =~= path@);
    while end > 0 && (path.get_char(end - 1) == '/' || (end >= 2 && path.get_char(end - 1) == '.'
        && path.get_char(end - 2) == '/'))
        invariant
            n == path@.len(),
            end <= n,
            path_end(path@) == path_end(path@.take(end as int)),
        ensures
            end <= n,
            path_end(path@) == end,
        decreases end,
    {
        assert(path@.take(end as int).drop_last() =~= path@.take(end - 1));
        assert(path@.take(end as int).last() == path@[end - 1]);
        end = end - 1;
    }
    let ghost p = path@.take(end as int);
    let mut start: usize = end;
    assert(p.take(end as int) =~= p);
    while start > 0 && path.get_char(start - 1) != '/'
        invariant
            n == path@.len(),
            start <= end <= n,
            p == path@.take(end as int),
            name_start(p) == name_start(p.take(start as int)),
        ensures
            start <= end,
            name_start(p) == start,
        decreases start,
    {
        assert(p.take(start as int).drop_last() =~= p.take(start - 1));
        assert(p.take(start as int).last() == path@[start - 1]);
        start = start - 1;
    }
    let name: String = text::cut(path, start, end);
    assert(name@ =~= p.skip(start as int));
    if text::same_text(name.as_str(), ".") || text::same_text(name.as_str(), "..") {
        let none: String = String::new();
        assert(none@ =~= Seq::<char>::empty());
        none
    } else {
        name
    }
}

/// Hours, minutes and seconds, two digits each at least.
pub open spec fn hms_text(nanos: nat) -> Seq<char> {
    let s = nanos / 1_000_000_000;
    text::padded(s / 3600, 2) + ":"@ + text::padded(s / 60 % 60, 2) + ":"@ + text::padded(
        s % 60,
        2,
    )
}

/// A recorded duration for the transport.
pub fn hms(d: Duration) -> (r: String)
    ensures
        r@ == hms_text(d.nanos as nat),
{
    let s: u128 = d.nanos / 1_000_000_000;
    let mut out: String = String::new();
    push_padded(&mut out, s / 3600, 2);
    out.append(":");
    push_padded(&mut out, s / 60 % 60, 2);
    out.append(":");
    push_padded(&mut out, s % 60, 2);
    assert(out@ =~= hms_text(d.nanos as nat));
    out
}

/// The trim as it is shown for editing.
pub fn format_trim(ms: F64) -> (r: String)
    ensures
        r@ == text::fixed(ms, 1),
{
    let mut s: String = String::new();
    push_fixed(&mut s, ms, 1);
    assert(s@ =~= text::fixed(ms, 1));
    s
}

/// A take that never resolved its anchor is never stamped as synced and carries no timecode.
pub proof fn law_without_an_anchor_nothing_is_claimed(
    p: Provenance,
    take: TakeResult,
    trim_ms: F64,
    now: i128,
)
    requires
        is_provenance_of(&p, &take, trim_ms, now),
        take.sidecar.t0_unix_nanos is None,
    ensures
        p.sync_state@ == "unsynced"@,
        p.timecode is None,
{
}

/// A duration is shown as hours, minutes and seconds that add up to its whole seconds, with fewer
/// than sixty of the smaller two.
pub proof fn law_a_duration_is_shown_in_hours_minutes_and_seconds(nanos: nat)
    ensures
        exists|h: nat, m: nat, s: nat|
            {
                &&& #[trigger] text::reads_as_three(hms_text(nanos), ":"@, h, m, s)
                &&& m < 60
                &&& s < 60
                &&& (3600 * h + 60 * m + s) * 1_000_000_000 <= nanos
                &&& nanos < (3600 * h + 60 * m + s + 1) * 1_000_000_000
            },
{
    let t = nanos / 1_000_000_000;
    let h = t / 3600;
    let m = t / 60 % 60;
    let s = t % 60;
    text::lemma_three_read_back(":"@, 2, h, m, s);
    assert(text::reads_as_three(hms_text(nanos), ":"@, h, m, s));
}

/// A take without an anchor is taken to end now: from its assumed start to now is as long as its
/// frames take at the device's rate, to the nanosecond.
pub proof fn law_an_unanchored_take_ends_now(frames: u64, device_rate: u32, now: i128)
    requires
        device_rate > 0,
        i128::MIN + 0x1_0000_0000_0000_0000 * 1_000_000_000 <= now,
    ensures
        ({
            let span = now - assumed_start(frames, device_rate, now);
            span * device_rate <= frames * 1_000_000_000 < (span + 1) * device_rate
        }),
{
    let n = frames * 1_000_000_000;
    let r = device_rate as int;
    lemma_fundamental_div_mod(n, r);
    lemma_div_nonincreasing(n, r);
    let q = n / r;
    assert(0 <= q <= n) by {
        lemma_div_pos_is_pos(n, r);
    }
    assert(assumed_start(frames, device_rate, now) == now - q);
    assert(q * r <= n < (q + 1) * r) by (nonlinear_arith)
        requires
            n == r * q + n % r,
            0 <= n % r < r,
    ;
}

/// The end of a path whose last character is part of a name.
proof fn lemma_name_ends(dir: Seq<char>, name: Seq<char>, k: int)
    requires
        0 <= k <= name.len(),
        forall|i: int| 0 <= i < name.len() ==> #[trigger] name[i] != '/',
    ensures
        name_start(dir + "/"@ + name.take(k)) == dir.len() + 1,
    decreases k,
{
    reveal_strlit("/");
    let p = dir + "/"@ + name.take(k);
    if k == 0 {
        assert(p.last() == '/');
    } else {
        assert(p.last() == name[k - 1]);
        assert(p.drop_last() =~= dir + "/"@ + name.take(k - 1));
        lemma_name_ends(dir, name, k - 1);
    }
}

/// The file name of a path is what stands behind its last separator.
pub proof fn law_the_file_name_stands_behind_the_last_separator(dir: Seq<char>, name: Seq<char>)
    requires
        name.len() > 0,
        forall|i: int| 0 <= i < name.len() ==> #[trigger] name[i] != '/',
        name != "."@,
        name != ".."@,
    ensures
        name_in(dir + "/"@ + name) == name,
{
    reveal_strlit("/");
    reveal_strlit(".");
    let p = dir + "/"@ + name;
    assert(p.last() == name.last());
    if name.len() == 1 {
        assert(name[0] != '.') by {
            if name[0] == '.' {
                assert(name =~= "."@);
            }
        }
    } else {
        assert(p[p.len() - 2] == name[name.len() - 2]);
    }
    assert(path_end(p) == p.len());
    assert(p.take(p.len() as int) =~= p);
    assert(name.take(name.len() as int) =~= name);
    lemma_name_ends(dir, name, name.len() as int);
    assert(p.skip(dir.len() as int + 1) =~= name);
}

} // verus!
