//! The drift log, the take numbers and the recording session.

use syncrec::audio::capture::TimeMark;
use syncrec::audio::session::{Pass, Progress, Session, SessionConfig, TakeReference};
use syncrec::audio::writer::{
    has_number_left, next_free, next_take, take_number, take_paths, DriftLog, MAX_PENDING,
};
use syncrec::clock::bridge::{Attempt, Bridge};
use syncrec::clock::reference::{NtpReference, Reference};
use syncrec::clock::ClockModel;
use syncrec::ethersync::{
    position_for_tod, ConnectionState, Fps, LinkSync, Reading, Role, TimecodeReference,
    TimelinePass,
};
use syncrec::finalize::fit_drift;
use syncrec::float::F64;
use syncrec::latency::{InputLatency, LatencyCorrection};
use syncrec::time::{Duration, Instant};

fn wide(x: f64) -> F64 {
    F64::from_bits(x.to_bits())
}

/// A bridge to a stream clock shifted by a fixed origin, plus the stream-clock reading that
/// corresponds to "now".
fn rig() -> (Bridge, u128, Instant) {
    let origin: u128 = 5_000_000_000_000;
    let at: i64 = 2_000_000_000;
    let mut attempts = Vec::new();
    for k in 0..8i64 {
        attempts.push(Attempt {
            before: Instant { nanos: at + 100 * k },
            stream_nanos: origin + (at + 100 * k + 20) as u128,
            after: Instant { nanos: at + 100 * k + 40 },
        });
    }
    let now: i64 = at + 1_000;
    (
        Bridge::measure(&attempts),
        origin + now as u128,
        Instant { nanos: now },
    )
}

/// A clock synced enough to resolve timestamps, anchored at `base`.
fn synced_clock(base: Instant) -> NtpReference {
    let mut m = ClockModel::new(base);
    for k in 0..8 {
        let x = k as f64 * 16.0;
        m.push(
            Instant {
                nanos: base.nanos + (x * 1.0e9) as i64,
            },
            1_000_000_000_000i128 + (x * 1.0e9) as i128,
            wide(0.01),
            wide(0.0),
        );
    }
    NtpReference::fixed("s".into(), m.snapshot())
}

fn mark(frame: u64, nanos: u128) -> TimeMark {
    TimeMark {
        frame_index: frame,
        capture_nanos: nanos,
    }
}

#[test]
fn a_resolvable_mark_becomes_an_observation() {
    let (bridge, now_stream, now) = rig();
    let clock = synced_clock(now);
    let mut log = DriftLog::new(
        bridge,
        LatencyCorrection::platform_only(InputLatency::already_corrected()),
    );
    log.observe(mark(0, now_stream), &clock);
    assert_eq!(log.observations().len(), 1);
    assert_eq!(log.pending_count(), 0);
    assert_eq!(log.observations()[0].sample_index, 0);
}

#[test]
fn marks_taken_before_sync_are_parked_not_discarded() {
    let (bridge, now_stream, now) = rig();
    let unsynced = NtpReference::fixed("s".into(), ClockModel::new(now).snapshot());
    let mut log = DriftLog::new(
        bridge,
        LatencyCorrection::platform_only(InputLatency::already_corrected()),
    );

    log.observe(mark(0, now_stream), &unsynced);
    log.observe(mark(48_000, now_stream + 1_000_000_000), &unsynced);
    assert_eq!(log.observations().len(), 0);
    assert_eq!(
        log.pending_count(),
        2,
        "marks must survive being unresolvable"
    );

    // Once the clock catches up, the parked marks become usable.
    log.retry_pending(&synced_clock(now));
    assert_eq!(log.pending_count(), 0);
    assert_eq!(log.observations().len(), 2);
}

#[test]
fn retried_marks_come_back_in_sample_order() {
    let (bridge, now_stream, now) = rig();
    let unsynced = NtpReference::fixed("s".into(), ClockModel::new(now).snapshot());
    let mut log = DriftLog::new(
        bridge,
        LatencyCorrection::platform_only(InputLatency::already_corrected()),
    );
    let clock = synced_clock(now);

    // A resolvable mark first, then two parked ones from earlier in the take.
    log.observe(mark(96_000, now_stream + 2_000_000_000), &clock);
    log.observe(mark(0, now_stream), &unsynced);
    log.observe(mark(48_000, now_stream + 1_000_000_000), &unsynced);
    log.retry_pending(&clock);

    let idx: Vec<u64> = log.observations().iter().map(|o| o.sample_index).collect();
    assert_eq!(idx, vec![0, 48_000, 96_000]);
}

#[test]
fn the_anchor_is_sample_zero_and_nothing_else() {
    let (bridge, now_stream, now) = rig();
    let clock = synced_clock(now);
    let mut log = DriftLog::new(
        bridge,
        LatencyCorrection::platform_only(InputLatency::already_corrected()),
    );

    // Only a later mark resolved: there is no anchor, and we must not pretend
    // the earliest available observation is one.
    log.observe(mark(48_000, now_stream), &clock);
    assert!(log.t0_unix_nanos().is_none());

    log.observe(mark(0, now_stream), &clock);
    assert!(log.t0_unix_nanos().is_some());
}

#[test]
fn latency_pulls_the_timestamp_earlier() {
    let (bridge, now_stream, now) = rig();
    let clock = synced_clock(now);

    let mut plain = DriftLog::new(
        bridge,
        LatencyCorrection::platform_only(InputLatency::already_corrected()),
    );
    let mut trimmed = DriftLog::new(
        bridge,
        LatencyCorrection::new(InputLatency::measured(Duration { nanos: 10_000_000 }), wide(0.0)),
    );
    plain.observe(mark(0, now_stream), &clock);
    trimmed.observe(mark(0, now_stream), &clock);

    let delta =
        plain.observations()[0].utc_unix_nanos - trimmed.observations()[0].utc_unix_nanos;
    // The sound hit the mic 10 ms before the buffer was handed to us.
    assert!(
        (delta - 10_000_000).abs() < 100_000,
        "expected ~10 ms earlier, got {delta} ns"
    );
}

#[test]
fn parked_marks_are_capped_rather_than_growing_forever() {
    let (bridge, now_stream, now) = rig();
    let unsynced = NtpReference::fixed("s".into(), ClockModel::new(now).snapshot());
    let mut log = DriftLog::new(
        bridge,
        LatencyCorrection::platform_only(InputLatency::already_corrected()),
    );
    for i in 0..(MAX_PENDING as u64 + 50) {
        log.observe(mark(i, now_stream + i as u128), &unsynced);
    }
    assert_eq!(log.pending_count(), MAX_PENDING);
    assert_eq!(log.abandoned_count(), 50);
}

fn names(v: &[&str]) -> Vec<String> {
    v.iter().map(|s| s.to_string()).collect()
}

#[test]
fn take_numbering_starts_at_one_in_an_empty_directory() {
    let (n, t) = next_take("/music", "rec", &names(&[]), &names(&[]));
    assert_eq!(n, 1);
    // The deliverable sits in the chosen folder; the scratch capture does not.
    assert_eq!(t.final_wav, "/music/rec-1.wav");
    assert_eq!(t.sidecar, "/music/rec-1.json");
    assert_eq!(t.raw, "/music/.syncrec-scratch/rec-1.raw.wav");
}

#[test]
fn take_numbering_continues_past_the_highest_existing() {
    // A gap in the sequence must not be reused; we continue past the maximum.
    let (_, t) = next_take("/music", "rec", &names(&["rec-1.wav", "rec-7.wav"]), &names(&[]));
    assert!(t.final_wav.ends_with("rec-8.wav"), "{t:?}");
}

#[test]
fn an_abandoned_raw_file_still_reserves_its_number() {
    // A take that crashed mid-write leaves only a scratch file behind. Reusing
    // that number would overwrite the evidence.
    let (_, t) = next_take("/music", "rec", &names(&[]), &names(&["rec-3.raw.wav"]));
    assert!(t.final_wav.ends_with("rec-4.wav"), "{t:?}");
}

#[test]
fn other_peoples_files_do_not_shift_the_sequence() {
    let others = names(&[
        "take-9.wav",
        "rec.wav",
        "rec-.wav",
        "rec-2x.wav",
        "recording-5.wav",
    ]);
    let (_, t) = next_take("/music", "rec", &others, &names(&[]));
    assert!(t.final_wav.ends_with("rec-1.wav"), "{t:?}");
}

#[test]
fn take_number_parses_only_exact_matches() {
    assert_eq!(take_number("rec-1.wav", "rec"), Some(1));
    assert_eq!(take_number("rec-42.raw.wav", "rec"), Some(42));
    assert_eq!(take_number("rec-7.json", "rec"), Some(7));
    assert_eq!(take_number("rec-1extra.wav", "rec"), None);
    assert_eq!(take_number("rec-.wav", "rec"), None);
    assert_eq!(take_number("recording-1.wav", "rec"), None);
    assert_eq!(take_number("other-1.wav", "rec"), None);
}

#[test]
fn take_numbers_give_themselves_back() {
    for n in [1, 9, 10, 99, 4_294_967_295] {
        let t = take_paths("/m", "a-b", n);
        let name = t.final_wav.trim_start_matches("/m/").to_string();
        assert_eq!(take_number(&name, "a-b"), Some(n), "{name}");
    }
    // A number beyond the counter is nobody's take.
    assert_eq!(take_number("rec-4294967296.wav", "rec"), None);
    assert!(!has_number_left("rec", &names(&["rec-4294967295.wav"]), &names(&[])));
    assert!(has_number_left("rec", &names(&["rec-4294967294.wav"]), &names(&[])));
}

#[test]
fn elapsed_comes_from_the_sample_count() {
    let mut p = Progress {
        frames: 48_000,
        overruns: 0,
        observations: 0,
    };
    assert_eq!(p.elapsed(48_000), Duration { nanos: 1_000_000_000 });
    p.frames = 72_000;
    assert_eq!(p.elapsed(48_000), Duration { nanos: 1_500_000_000 });
}

#[test]
fn elapsed_does_not_divide_by_a_zero_rate() {
    let p = Progress {
        frames: 48_000,
        overruns: 0,
        observations: 0,
    };
    assert_eq!(p.elapsed(0), Duration { nanos: 0 });
}

fn session() -> (Session, u128, Instant) {
    let (bridge, now_stream, now) = rig();
    let config = SessionConfig {
        paths: take_paths("/m", "rec", 1),
        device_name: "Scarlett 2i2".into(),
        latency: LatencyCorrection::platform_only(InputLatency::already_corrected()),
    };
    (Session::new(config, bridge, 48_000, 2), now_stream, now)
}

#[test]
fn a_session_flushes_its_anchor_once_and_reports_what_it_saw() {
    let (mut s, now_stream, now) = session();
    let clock = synced_clock(now);
    let unsynced = NtpReference::fixed("s".into(), ClockModel::new(now).snapshot());

    s.observe_marks(&vec![mark(0, now_stream)], &unsynced);
    assert!(!s.anchor_due(), "an unresolved anchor is not written down");
    s.observe_marks(&vec![mark(48_000, now_stream + 1_000_000_000)], &clock);
    assert!(s.anchor_due(), "the parked anchor resolved");
    s.anchor_written(false);
    assert!(s.anchor_due(), "a failed write is due again");
    s.anchor_written(true);
    assert!(!s.anchor_due());

    s.drained(480);
    s.drained(20);
    s.stream_failed("first".into());
    s.stream_failed("second".into());
    let p = s.progress(3);
    assert_eq!((p.frames(), p.overruns(), p.observations()), (500, 3, 2));

    let mut model = ClockModel::new(now);
    model.push(now, 5, F64::from_bits(0), F64::from_bits(0));
    let partial = s.build_sidecar(&clock, None, 0, Vec::new());
    assert!(partial.ntp_log.is_empty());
    let take = s.finish(&clock, None, 3, model.log().clone());
    assert_eq!(take.sidecar.ntp_log, *model.log(), "the exchanges are in the trail");
    assert_eq!(take.sidecar.fit, fit_drift(&take.sidecar.observations));
    let fit = take.sidecar.fit.expect("two marks make a line");
    assert_eq!(fit.span_samples, 48_000);
    assert_eq!(partial.fit, Some(fit));
    assert_eq!(take.sidecar.raw_frames, 500);
    assert_eq!(take.sidecar.stream_error.as_deref(), Some("first"));
    assert_eq!(take.sidecar.observations.len(), 2);
    assert_eq!(take.sidecar.t0_unix_nanos, Some(take.sidecar.observations[0].utc_unix_nanos));
    assert_eq!(take.sidecar.start_timecode, None);
    assert!(take.status.ready());
}

#[test]
fn a_stop_waits_for_the_rings_to_run_dry() {
    assert_eq!(Session::after_pass(true, 0, true), Pass::Finish);
    assert_eq!(Session::after_pass(true, 10, true), Pass::Again);
    assert_eq!(Session::after_pass(true, 0, false), Pass::Sleep);
    assert_eq!(Session::after_pass(false, 0, true), Pass::Sleep);
    assert_eq!(Session::after_pass(false, 5, false), Pass::Again);
}

/// What a rolling 25 fps leader reads at a time of day.
fn reading(tod: i128) -> Reading {
    let format = Fps::F25.format(false);
    Reading {
        position: position_for_tod(tod, format),
        format,
        paused: false,
        connection: ConnectionState::Connected,
        synchronization: LinkSync::Other,
        accepted_observations: 0,
        lost_packets: 0,
        uncertainty_ns: wide(0.0),
        drift_ppm: wide(0.0),
        session_id: Some("one".into()),
    }
}

#[test]
fn a_timeline_answers_at_the_marks_of_its_pass() {
    let (bridge, stream_now, now) = rig();
    let latency = LatencyCorrection::platform_only(InputLatency::already_corrected());
    let mut log = DriftLog::new(bridge, latency);
    let hour: i128 = 3_600_000_000_000;

    // The first mark is parked: nothing has been read yet.
    let idle = TakeReference::Timecode(TimelinePass {
        timeline: TimecodeReference::new(Role::Leader, "s".into()),
        readings: Vec::new(),
    });
    log.observe(mark(0, stream_now), &idle);
    assert_eq!(log.pending_count(), 1);
    assert_eq!(idle.session_id(), None);

    let marks = vec![mark(48_000, stream_now + 1_000_000_000)];
    let due = log.instants_due(&marks);
    assert_eq!(due.len(), 2);
    assert_eq!(due[1].nanos - due[0].nanos, 1_000_000_000);

    let mut timeline = TimecodeReference::new(Role::Leader, "s".into());
    timeline.refresh_at(now, Some(reading(hour)), 5_000_000_000_000);
    let pass = TakeReference::Timecode(TimelinePass {
        timeline,
        readings: vec![
            (due[0], Some(reading(hour))),
            (due[1], Some(reading(hour + 1_000_000_000))),
        ],
    });
    log.observe(marks[0], &pass);
    log.retry_pending(&pass);
    assert_eq!(log.pending_count(), 0);
    assert_eq!(log.t0_unix_nanos(), Some(5_000_000_000_000));
    assert_eq!(log.observations()[1].utc_unix_nanos, 5_001_000_000_000);
    assert_eq!(pass.session_id().as_deref(), Some("one"));
    assert_eq!(pass.timecode_format(), Some(Fps::F25.format(false)));
    assert!(pass.status().synced);
    // An instant that nobody read at cannot be placed.
    assert_eq!(pass.utc_nanos(Instant { nanos: 7 }), None);
}

#[test]
fn a_take_against_the_server_answers_as_its_clock_does() {
    let (_, _, now) = rig();
    let clock = synced_clock(now);
    let take = TakeReference::Ntp(synced_clock(now));
    assert_eq!(take.utc_nanos(now), clock.utc_nanos(now));
    assert_eq!(take.status().source, "s");
    assert_eq!(take.timecode_format(), None);
    assert_eq!(take.session_id(), None);
}

#[test]
fn a_number_whose_files_are_there_is_passed_over() {
    let (n, t) = next_free("/music", "rec", 4, false).unwrap();
    assert_eq!((n, t.final_wav.as_str()), (4, "/music/rec-4.wav"));
    let (n, t) = next_free("/music", "rec", 4, true).unwrap();
    assert_eq!(n, 5);
    assert_eq!(t.raw, "/music/.syncrec-scratch/rec-5.raw.wav");
    assert_eq!(t.final_wav, "/music/rec-5.wav");
    assert_eq!(t.sidecar, "/music/rec-5.json");
    assert!(next_free("/music", "rec", u32::MAX, true).is_none());
    assert_eq!(next_free("/music", "rec", u32::MAX, false).unwrap().0, u32::MAX);
}
