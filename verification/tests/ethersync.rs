//! LAN timecode as a time reference.

use chrono::{Local, NaiveDate, NaiveTime, TimeZone};
use syncrec::clock::reference::TimecodeFormat;
use syncrec::ethersync::{
    advertised_name, latest_message, nearest_day, order_endpoints, position_for_tod,
    sampled_between, signed_nanos, slate_position, status_of, tod_at, tod_nanos, tod_of,
    unix_nanos_for_tod, ConnectionState, Endpoint, Fps, LinkEvent, LinkKind, LinkSync, Position,
    Reading, Role, TimecodeReference, DAY_NS,
};
use syncrec::calendar::{first_second, neighbouring_days, to_local, LocalTime};
use syncrec::finalize::MIN_CLOCK_SAMPLES;
use syncrec::float::F64;
use syncrec::time::Instant;

fn wide(x: f64) -> F64 {
    F64::from_bits(x.to_bits())
}

fn now_unix() -> i128 {
    chrono::Utc::now()
        .timestamp_nanos_opt()
        .expect("a time within the calendar") as i128
}

fn fmt(n: u32, d: u32, drop: bool) -> TimecodeFormat {
    TimecodeFormat {
        numerator: n,
        denominator: d,
        drop_frame: drop,
    }
}

#[test]
fn a_whole_hour_of_frames_is_a_whole_hour() {
    for (n, d) in [(25, 1), (30, 1), (24, 1), (50, 1)] {
        let f = fmt(n, d, false);
        let pos = Position::from_frames(3600 * n as i64);
        assert_eq!(tod_nanos(pos, f), 3_600_000_000_000, "{n}/{d}");
    }
}

#[test]
fn fractional_rates_keep_real_time_not_frame_count() {
    // 30000/1001 runs slow: 30 frames take 1.001 s of real time, and it is real
    // time the file has to be stamped with.
    let f = fmt(30000, 1001, false);
    assert_eq!(tod_nanos(Position::from_frames(30), f), 1_001_000_000);
}

#[test]
fn drop_frame_does_not_change_where_a_position_falls_in_the_day() {
    // Drop-frame renumbers labels; it does not bend the timeline. Both formats
    // must place the same position at the same real time, or a drop-frame rig
    // would stamp its files 3.6 s per hour away from a non-drop one.
    let plain = fmt(30000, 1001, false);
    let drop = fmt(30000, 1001, true);
    for frames in [0, 1, 1799, 1800, 107_892, 2_589_408] {
        let p = Position::from_frames(frames);
        assert_eq!(tod_nanos(p, plain), tod_nanos(p, drop), "at {frames}");
    }
}

#[test]
fn subframes_survive_the_conversion() {
    let f = fmt(25, 1, false);
    // Half a frame at 25 fps is 20 ms.
    let half = Position {
        frames: 0,
        subframe: 1 << 31,
    };
    assert_eq!(tod_nanos(half, f), 20_000_000);
}

#[test]
fn a_position_past_midnight_wraps_into_the_day() {
    let f = fmt(25, 1, false);
    let a_day = Position::from_frames(24 * 3600 * 25);
    assert_eq!(tod_nanos(a_day, f), 0);
    let past = Position::from_frames(24 * 3600 * 25 + 25);
    assert_eq!(tod_nanos(past, f), 1_000_000_000);
}

#[test]
fn negative_positions_wrap_backwards_into_the_previous_day() {
    let f = fmt(25, 1, false);
    // One second before midnight is 23:59:59, not a negative time.
    assert_eq!(
        tod_nanos(Position::from_frames(-25), f),
        DAY_NS - 1_000_000_000
    );
}

#[test]
fn position_and_time_of_day_round_trip() {
    for fps in Fps::all() {
        let f = fps.format(false);
        for tod in [
            0i128,
            1_000_000_000,
            3_600_000_000_000,
            45_296_000_000_000,
            DAY_NS - 1_000_000_000,
        ] {
            let back = tod_nanos(position_for_tod(tod, f), f);
            // Within one frame: a position cannot represent a time of day more
            // precisely than its own subframe resolution.
            let frame_ns = 1_000_000_000i128 * f.denominator as i128 / f.numerator as i128;
            assert!(
                (back - tod).abs() < frame_ns,
                "{fps:?} {tod}: got {back}, off by {}",
                back - tod
            );
        }
    }
}

#[test]
fn a_time_of_day_lands_on_the_nearest_day() {
    // Midday today, with the OS clock also saying midday today.
    let now = now_unix();
    let tod = tod_of(now);
    let placed = unix_nanos_for_tod(tod, now);
    assert!(
        (placed - now).abs() < 1_000_000_000,
        "same time of day must resolve to the same instant, off by {} ns",
        placed - now
    );
}

#[test]
fn a_timecode_just_before_midnight_resolves_to_yesterday_just_after_it() {
    // The rollover case: the clock says 00:00:05, the timecode says 23:59:55.
    // The only sane reading is ten seconds ago, not almost a day from now.
    let now = now_unix();
    let today_tod = tod_of(now);
    let tod = (today_tod - 10_000_000_000).rem_euclid(DAY_NS);
    let placed = unix_nanos_for_tod(tod, now);
    assert!(
        (placed - (now - 10_000_000_000)).abs() < 1_000_000_000,
        "expected ten seconds ago, got {} s away",
        (placed - now) as f64 / 1e9
    );
}

#[test]
fn drop_frame_is_refused_for_rates_that_have_nothing_to_drop() {
    // 25 fps does not drift against the wall clock, so drop-frame numbering is
    // meaningless there and ethersync rejects it. Asking for it must not fail
    // the whole configuration.
    assert!(!Fps::F25.supports_drop_frame());
    let f = Fps::F25.format(true);
    assert!(!f.drop_frame);

    assert!(Fps::F29_97.supports_drop_frame());
    assert!(Fps::F29_97.format(true).drop_frame);
}

#[test]
fn every_offered_frame_rate_is_one_ethersync_accepts() {
    for fps in Fps::all() {
        let f = fps.format(false);
        assert!(f.numerator > 0 && f.denominator > 0, "{fps:?}");
    }
}

/// What a locked, rolling 25 fps timeline reads at a time of day.
fn reading(tod: i128) -> Reading {
    let format = Fps::F25.format(false);
    Reading {
        position: position_for_tod(tod, format),
        format,
        paused: false,
        connection: ConnectionState::Connected,
        synchronization: LinkSync::Synchronized,
        accepted_observations: 12,
        lost_packets: 1,
        uncertainty_ns: wide(250_000.0),
        drift_ppm: wide(-3.5),
        session_id: Some("one".into()),
    }
}

fn at(nanos: i64) -> Instant {
    Instant { nanos }
}

#[test]
fn a_paused_timeline_stamps_nothing_at_either_end() {
    let hour = 3_600_000_000_000;
    for role in [Role::Leader, Role::Follower] {
        let mut r = TimecodeReference::new(role, "s".into());
        r.refresh_at(at(0), Some(reading(hour)), 1_000);
        assert!(r.utc_nanos(at(5), &Some(reading(hour))).is_some());
        let paused = Reading {
            paused: true,
            ..reading(hour)
        };
        assert_eq!(
            r.utc_nanos(at(5), &Some(paused)),
            None,
            "a paused timeline must not stamp the frozen position onto a new mark"
        );
        assert_eq!(r.utc_nanos(at(5), &None), None);
    }
}

#[test]
fn every_roll_is_a_new_session_that_both_ends_stamp() {
    let session_of = |role, id: &str| {
        let mut r = TimecodeReference::new(role, "s".into());
        let unlocked = Reading {
            synchronization: LinkSync::Acquiring,
            session_id: Some("stale".into()),
            ..reading(0)
        };
        if role == Role::Follower {
            r.refresh_at(at(0), Some(unlocked), 0);
            assert_eq!(r.session_id(), None, "nothing to timestamp against yet");
        }
        let rolling = Reading {
            session_id: Some(id.into()),
            ..reading(0)
        };
        r.refresh_at(at(1), Some(rolling), 0);
        // A later session does not rename a take that is already anchored.
        r.refresh_at(at(2), Some(reading(0)), 0);
        r.session_id().expect("a stamped session")
    };
    assert_eq!(session_of(Role::Leader, "a"), session_of(Role::Follower, "a"));
    assert_ne!(session_of(Role::Leader, "a"), session_of(Role::Leader, "b"));
}

#[test]
fn a_follower_reports_the_exchanges_behind_its_lock() {
    let status = status_of(Role::Follower, "s", &Some(reading(0)));
    let counted = status.samples.expect("a follower counts its exchanges");
    assert!(counted >= MIN_CLOCK_SAMPLES);
    assert!(status.ready());
    assert_eq!(status.discarded, Some(1));
    assert_eq!(status.dispersion_s, Some(wide(250_000.0 / 1.0e9)));
    assert_eq!(status.slope_ppm, Some(wide(-3.5)));

    // And a leader still counts nothing, because there is nobody to exchange with.
    let leader = status_of(Role::Leader, "s", &Some(reading(0)));
    assert_eq!(leader.samples, None);
    assert!(leader.ready());
    assert_eq!(leader.label, "rolling");
}

#[test]
fn a_follower_with_nobody_to_follow_refuses_to_timestamp_anything() {
    let mut r = TimecodeReference::new(Role::Follower, "s".into());
    let alone = Reading {
        connection: ConnectionState::Connecting,
        synchronization: LinkSync::Other,
        ..reading(0)
    };
    r.refresh(at(0), Some(alone.clone()), now_unix());
    assert!(r.anchor.is_none());
    assert_eq!(r.utc_nanos(at(1), &Some(alone)), None);
    let status = r.status();
    assert!(!status.synced);
    assert!(!status.ready(), "an unlocked follower must never read as ready");
    assert_eq!(status.label, "connecting");
}

#[test]
fn a_leader_is_ready_the_moment_it_exists() {
    let status = status_of(Role::Leader, "s", &None);
    assert!(status.ready(), "{status:?}");
    assert!(
        status.samples.is_none(),
        "a leader counts no exchanges, and must not pretend to"
    );
    assert_eq!(status.label, "idle");
}

#[test]
fn every_link_state_has_its_word() {
    let word = |connection, synchronization| {
        let r = Reading {
            connection,
            synchronization,
            ..reading(0)
        };
        let s = status_of(Role::Follower, "s", &Some(r));
        (s.synced, s.label)
    };
    let c = ConnectionState::Connected;
    assert_eq!(word(c, LinkSync::Synchronized), (true, "synced".into()));
    assert_eq!(word(c, LinkSync::Holdover), (false, "holdover".into()));
    assert_eq!(word(c, LinkSync::Acquiring), (false, "acquiring".into()));
    assert_eq!(word(c, LinkSync::Other), (false, "disconnected".into()));
    let s = ConnectionState::Shutdown;
    assert_eq!(word(s, LinkSync::Acquiring), (false, "shut down".into()));
    let c = ConnectionState::Connecting;
    assert_eq!(word(c, LinkSync::Acquiring), (false, "connecting".into()));
    assert_eq!(status_of(Role::Follower, "s", &None).label, "connecting");
}

#[test]
fn a_take_that_crosses_midnight_runs_into_the_next_day() {
    // Anchored ten seconds before midnight of a day that begins at 5_000 s.
    let midnight: i128 = 5_000_000_000_000;
    let late = DAY_NS - 10_000_000_000;
    let mut r = TimecodeReference::new(Role::Leader, "s".into());
    r.refresh_at(at(0), Some(reading(late)), midnight + late);
    // Thirty seconds on, the timecode reads twenty seconds past midnight.
    let got = r
        .utc_nanos(at(30_000_000_000), &Some(reading(20_000_000_000)))
        .unwrap();
    assert!((got - (midnight + DAY_NS + 20_000_000_000)).abs() <= 3, "{got}");
    // And a mark from before the anchor stays in the day.
    let got = r
        .utc_nanos(at(-5_000_000_000), &Some(reading(late - 5_000_000_000)))
        .unwrap();
    assert!((got - (midnight + late - 5_000_000_000)).abs() <= 3, "{got}");
}

#[test]
fn the_day_is_fixed_once() {
    let mut r = TimecodeReference::new(Role::Leader, "s".into());
    assert_eq!(r.timecode_format(), None);
    r.refresh(at(0), Some(reading(tod_of(now_unix()))), now_unix());
    let first = r.anchor.expect("a rolling timeline anchors");
    assert!((first.utc - now_unix()).abs() < 5_000_000_000, "{first:?}");
    r.refresh(at(9), Some(reading(0)), now_unix());
    assert_eq!(r.anchor, Some(first));
    assert_eq!(r.timecode_format(), Some(Fps::F25.format(false)));
}

#[test]
fn the_nearest_day_wins_and_the_first_on_a_tie() {
    assert_eq!(nearest_day(&vec![Some(0), Some(100), Some(200)], 0, 140), 100);
    assert_eq!(nearest_day(&vec![Some(0), Some(100)], 0, 50), 0);
    assert_eq!(nearest_day(&vec![None, Some(100)], 7, 0), 107);
    assert_eq!(nearest_day(&vec![None, None], 7, 42), 42);
}

#[test]
fn a_slate_shows_the_local_time_of_day() {
    let local = LocalTime {
        year: 2026,
        month: 3,
        day: 14,
        hour: 10,
        minute: 31,
        second: 7,
        nanosecond: 480_000_000,
        offset_secs: 0,
    };
    assert_eq!(tod_at(&local), 37_867_480_000_000);
    let p = slate_position(&local, Fps::F25.format(false));
    assert_eq!(p.frames, 37_867 * 25 + 12);
}

#[test]
fn elapsed_time_is_signed() {
    assert_eq!(signed_nanos(at(10), at(25)), 15);
    assert_eq!(signed_nanos(at(25), at(10)), -15);
}

#[test]
fn links_say_where_their_timestamps_come_from() {
    let l = LinkKind::Leader {
        address: "0.0.0.0:4443".into(),
    };
    assert_eq!(l.source(), "ethersync leader 0.0.0.0:4443");
    let f = LinkKind::Follower {
        address: "10.0.0.4:4443".into(),
    };
    assert_eq!(f.source(), "ethersync follower of 10.0.0.4:4443");
    assert_eq!(LinkKind::Browsing.source(), "ethersync (no leader)");
}

#[test]
fn long_names_are_cut_to_what_can_be_advertised() {
    assert_eq!(advertised_name("syncrec"), "syncrec");
    assert_eq!(advertised_name(&"ä".repeat(80)), "ä".repeat(63));
}

#[test]
fn loopback_is_listed_last() {
    let e = |text: &str, loopback| Endpoint {
        text: text.into(),
        loopback,
    };
    let sorted = order_endpoints(vec![
        e("lo", true),
        e("eth0", false),
        e("lo6", true),
        e("wlan0", false),
    ]);
    let texts: Vec<_> = sorted.iter().map(|e| e.text.as_str()).collect();
    assert_eq!(texts, ["eth0", "wlan0", "lo", "lo6"]);
}

#[test]
fn only_news_replaces_the_last_message() {
    let m = latest_message(Some("old".into()), &vec![LinkEvent::Routine]);
    assert_eq!(m.as_deref(), Some("old"));
    let m = latest_message(
        m,
        &vec![
            LinkEvent::Error("boom".into()),
            LinkEvent::Connection("Connected".into()),
            LinkEvent::Routine,
        ],
    );
    assert_eq!(m.as_deref(), Some("link Connected"));
    let m = latest_message(None, &vec![LinkEvent::SourceHealth("Good".into())]);
    assert_eq!(m.as_deref(), Some("source Good"));
}

#[test]
fn the_transport_is_sampled_between_two_readings() {
    assert_eq!(sampled_between(10, 20), 15);
    assert_eq!(sampled_between(10, 13), 11);
    assert_eq!(sampled_between(i64::MIN, i64::MAX), -1);
}

#[test]
fn rates_and_roles_read_as_the_operator_thinks_of_them() {
    let texts: Vec<_> = Fps::all().iter().map(|f| f.to_text()).collect();
    assert_eq!(
        texts,
        ["23.976", "24", "25", "29.97", "30", "47.952", "48", "50", "59.94", "60"]
    );
    assert_eq!(Fps::F23_976.ratio(), (24000, 1001));
    assert_eq!(Role::default().label(), "Leader");
    assert_eq!(Role::Follower.label(), "Follower");
    assert_eq!(Role::all(), vec![Role::Leader, Role::Follower]);
}

#[test]
fn a_day_goes_on_behind_a_second_that_the_clocks_skip() {
    // Every third hour of some years, in whatever zone this machine is.
    for day in 15_000..19_000i32 {
        for second in (0..86_400u32).step_by(10_800) {
            let date = NaiveDate::from_epoch_days(day).unwrap();
            let time = NaiveTime::from_num_seconds_from_midnight_opt(second, 0).unwrap();
            let asked = Local.from_local_datetime(&date.and_time(time)).earliest();
            let placed = first_second(day, second).expect("the day has a second");
            match asked {
                Some(t) => assert_eq!(t.timestamp_nanos_opt(), Some(placed)),
                None => assert_eq!(Local.timestamp_nanos(placed).date_naive(), date),
            }
        }
    }
}

#[test]
fn the_days_around_a_moment_are_three() {
    let now: i64 = 1_700_000_000_000_000_000;
    let days = neighbouring_days(&to_local(now as i128), now, 43_200);
    let at: Vec<i64> = days.into_iter().map(|d| d.expect("noon exists")).collect();
    assert_eq!(at.len(), 3);
    assert!(at[0] < at[1] && at[1] < at[2]);
    assert!((at[1] - now).abs() < 86_400_000_000_000);
}
