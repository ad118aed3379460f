//! What the window shows and what its buttons decide.

use syncrec::audio::session::{Progress, TakeResult};
use syncrec::audio::writer::{take_paths, Sidecar};
use syncrec::audio::DeviceChoice;
use syncrec::bwf::Provenance;
use syncrec::clock::reference::{RefStatus, TimecodeFormat};
use syncrec::clock::{ClockModel, ClockSnapshot};
use syncrec::ethersync::{Endpoint, Fps, Role};
use syncrec::finalize::{GateFailure, GateReport, Outcome};
use syncrec::float::F64;
use syncrec::permission::PermissionStatus;
use syncrec::settings::{Settings, TimeSource};
use syncrec::time::{Duration, Instant};
use syncrec::ui::take::{describe_outcome, file_name, format_trim, hms, provenance};
use syncrec::ui::view::{ntp_detail, Button, StatusLine, Tint};
use syncrec::ui::{
    clean_name, offline_status, parse_port, preferred_address, Action, App, LeaderAddress,
    LeaderFound, LevelSource, LinkInfo, LinkPlan, Message, Monitor, Screen, Stage, TakeFailure,
    TickInput,
};

fn wide(x: f64) -> F64 {
    F64::from_bits(x.to_bits())
}

fn secs(n: u128) -> Duration {
    Duration {
        nanos: n * 1_000_000_000,
    }
}

#[test]
fn hms_formats_a_long_take() {
    assert_eq!(hms(secs(0)), "00:00:00");
    assert_eq!(hms(secs(59)), "00:00:59");
    assert_eq!(hms(secs(61)), "00:01:01");
    assert_eq!(hms(secs(3661)), "01:01:01");
    assert_eq!(hms(secs(36_000)), "10:00:00");
    assert_eq!(hms(secs(360_000)), "100:00:00");
}

#[test]
fn file_name_survives_a_bare_path() {
    assert_eq!(file_name("/tmp/rec-3.wav"), "rec-3.wav");
    assert_eq!(file_name(""), "");
}

#[test]
fn file_names_are_read_as_paths_are() {
    for p in [
        "/", "/a", "a/", "a/b//", "a/.", "a/./.", ".", "..", "a/..", "./a", "/.", "x.y", "a//b",
        "a/.b", "...",
    ] {
        let want = std::path::Path::new(p)
            .file_name()
            .map(|n| n.to_string_lossy().into_owned())
            .unwrap_or_default();
        assert_eq!(file_name(p), want, "{p:?}");
    }
}

#[test]
fn an_absent_reference_never_reads_as_ready() {
    let s = offline_status("no link");
    assert!(!s.synced);
    assert!(!s.ready());
}

#[test]
fn names_and_ports_are_taken_as_they_are_typed() {
    assert_eq!(clean_name("a/b\\c:d e"), "a-b-c-d e");
    for s in ["", "0", "80", "+80", "65535", "65536", "99999999999", "-1", "8 0", "+", "٣", "007"] {
        assert_eq!(parse_port(s), s.parse::<u16>().ok(), "{s:?}");
    }
    assert_eq!(format_trim(wide(-1.25)), format!("{:.1}", -1.25f64));
}

fn ready_status() -> RefStatus {
    RefStatus {
        kind: "NTP".into(),
        source: "time.apple.com".into(),
        synced: true,
        label: "synced".into(),
        samples: Some(8),
        discarded: Some(0),
        dispersion_s: Some(wide(0.004)),
        slope_ppm: None,
    }
}

fn device(id: &str) -> DeviceChoice {
    DeviceChoice {
        id: id.into(),
        name: format!("device {id}"),
        is_default: false,
    }
}

fn app(settings: Settings) -> App {
    App::boot(
        settings,
        "/music".into(),
        PermissionStatus::Granted,
        Instant { nanos: 0 },
    )
    .0
}

fn rig(role: Role) -> App {
    let mut a = app(Settings {
        source: TimeSource::Ethersync,
        role,
        ..Settings::default()
    });
    a.selected = Some(device("a"));
    a.link_opened(
        Ok(LinkInfo {
            address: Some("10.0.0.4:4443".into()),
            fingerprint: None,
        }),
        Vec::new(),
    );
    a
}

fn tick(rolling: Option<bool>) -> TickInput {
    TickInput {
        permission: None,
        discovered: Vec::new(),
        typed: false,
        rolling,
        now: Instant { nanos: 1 },
        finished: None,
    }
}

fn monitor() -> Monitor {
    Monitor {
        channels: 2,
        rate: 44_100,
        native_target_rate: false,
    }
}

fn outcome(resampled: bool, failures: Vec<GateFailure>) -> Outcome {
    Outcome {
        fit: None,
        gate: GateReport { failures },
        resampled,
        raw_deleted: resampled,
        raw_kept: None,
        frames_written: 10,
        provenance: provenance(&take(None), wide(0.0), 0),
    }
}

fn take(t0: Option<i128>) -> TakeResult {
    TakeResult {
        paths: take_paths("/music", "rec", 3),
        sidecar: Sidecar {
            t0_unix_nanos: t0,
            device_name: "Scarlett 2i2".into(),
            device_rate: 48_000,
            channels: 2,
            raw_frames: 96_000,
            clock_source: "s".into(),
            sync_state: "synced".into(),
            clock_dispersion_s: None,
            clock_slope_ppm: None,
            clock_samples_accepted: Some(8),
            clock_samples_rejected: Some(0),
            start_timecode: Some("10:00:00:00".into()),
            session_id: Some("one".into()),
            latency_trim_ms: wide(0.0),
            overruns: 0,
            marks_abandoned: 0,
            stream_error: None,
            observations: Vec::new(),
            fit: None,
            ntp_log: Vec::new(),
        },
        status: ready_status(),
        timecode: Some(TimecodeFormat {
            numerator: 25,
            denominator: 1,
            drop_frame: false,
        }),
    }
}

#[test]
fn a_launch_asks_for_the_microphone_before_it_touches_a_device() {
    let (a, actions) = App::boot(
        Settings::default(),
        "/music".into(),
        PermissionStatus::NotDetermined,
        Instant { nanos: 0 },
    );
    assert_eq!(
        actions,
        [
            Action::Preview,
            Action::StopPolling,
            Action::DropLink,
            Action::StopPolling,
            Action::ResetClock,
            Action::StartPolling,
            Action::ReadStatus,
            Action::AskPermission,
        ]
    );
    assert_eq!(a.trim_text, "0.0");
    assert_eq!(a.port_text, "4443");
    assert_eq!(a.status.label, "starting");
    let (_, actions) = App::boot(
        Settings {
            ntp_server: "  ".into(),
            ..Settings::default()
        },
        "/music".into(),
        PermissionStatus::Granted,
        Instant { nanos: 0 },
    );
    assert!(!actions.contains(&Action::StartPolling), "no server, no polling");
    assert_eq!(actions.last(), Some(&Action::ListDevices));
}

#[test]
fn a_follower_mirrors_the_leaders_transport_on_its_edges() {
    let mut a = rig(Role::Follower);
    let acts = a.on_tick(tick(Some(false)));
    assert!(!acts.contains(&Action::StartTake));
    let acts = a.on_tick(tick(Some(true)));
    assert_eq!(acts[0], Action::StartTake);
    assert!(a.start_recording());
    a.take_started(take_paths("/music", "rec", 1));
    // Hearing the same state again does nothing.
    let acts = a.on_tick(tick(Some(true)));
    assert_eq!(
        acts,
        [Action::ReadStatus, Action::ReadLevels, Action::DrainMonitor]
    );
    let acts = a.on_tick(tick(Some(false)));
    assert_eq!(acts[0], Action::StopTake);
}

#[test]
fn a_roll_while_finalising_starts_as_soon_as_it_is_over() {
    let mut a = rig(Role::Follower);
    a.stage = Stage::Finalizing;
    a.rolling = Some(false);
    a.take = Some(take_paths("/music", "rec", 7));
    let acts = a.on_tick(tick(Some(true)));
    assert!(!acts.contains(&Action::StartTake));
    assert!(a.pending_roll);
    let acts = a.on_tick(TickInput {
        finished: Some(Ok(outcome(true, Vec::new()))),
        ..tick(Some(true))
    });
    assert_eq!(
        &acts[3..],
        [
            Action::Preview,
            Action::CloseMonitor,
            Action::OpenMonitor,
            Action::StartTake
        ]
    );
    assert_eq!(a.stage, Stage::Idle);
    assert_eq!(a.last_result.as_deref(), Some("saved rec-7.wav"));
    assert!(!a.pending_roll);

    // A leader that has stopped again meanwhile is not rolled for.
    a.stage = Stage::Finalizing;
    a.pending_roll = true;
    let acts = a.on_tick(TickInput {
        finished: Some(Err("disk full".into())),
        ..tick(Some(false))
    });
    assert!(!acts.contains(&Action::StartTake));
    assert_eq!(a.error.as_deref(), Some("disk full"));
}

#[test]
fn a_leader_rolls_before_it_records_and_halts_after() {
    let mut a = rig(Role::Leader);
    assert!(a.leading());
    assert_eq!(a.update(Message::ToggleRecord), [Action::Roll]);
    assert_eq!(a.rolled(Err("no engine".into())), []);
    assert_eq!(a.error.as_deref(), Some("no engine"));
    assert_eq!(
        a.rolled(Ok(())),
        [Action::StartTake, Action::HaltUnlessRecording]
    );
    // The stream did not open: the rig is put back.
    let acts = a.take_failed(TakeFailure::Stream("busy".into()));
    assert_eq!(acts, [Action::CloseMonitor, Action::OpenMonitor]);
    assert!(a.halt_due());
    a.take_started(take_paths("/music", "rec", 1));
    assert!(!a.halt_due());
    assert_eq!(
        a.update(Message::ToggleRecord),
        [Action::StopTake, Action::Halt]
    );
    assert!(a.stop_recording());
    assert!(!a.stop_recording());
    a.take_stopped(Ok(()));
    assert_eq!(a.stage, Stage::Finalizing);
    assert_eq!(a.update(Message::ToggleRecord), []);
}

#[test]
fn a_take_needs_a_device_a_folder_and_a_reference() {
    let mut a = app(Settings::default());
    assert!(!a.start_recording());
    assert_eq!(a.error.as_deref(), Some("no input device selected"));
    a.take_failed(TakeFailure::Folder("denied".into()));
    assert_eq!(a.error.as_deref(), Some("cannot create /music: denied"));
    assert_eq!(a.reference_source(), Ok(TimeSource::Ntp));
    let mut b = app(Settings {
        source: TimeSource::Ethersync,
        ..Settings::default()
    });
    assert_eq!(b.reference_source(), Err("no ethersync link".into()));
    b.take_failed(TakeFailure::Reference("no ethersync link".into()));
    assert_eq!(b.error.as_deref(), Some("no ethersync link"));
}

#[test]
fn the_device_is_kept_while_it_is_plugged_in() {
    let mut a = app(Settings::default());
    let acts = a.devices_listed(Ok(vec![device("x"), device("y")]));
    assert_eq!(acts, [Action::CloseMonitor, Action::OpenMonitor]);
    assert_eq!(a.selected.as_ref().unwrap().id, "x");
    a.update(Message::DeviceSelected(device("y")));
    assert_eq!(a.devices_listed(Ok(vec![device("x"), device("y")])), []);
    assert_eq!(a.selected.as_ref().unwrap().id, "y");
    a.devices_listed(Ok(vec![device("z")]));
    assert_eq!(a.selected.as_ref().unwrap().id, "z");
    assert_eq!(a.devices_listed(Ok(Vec::new())), [Action::CloseMonitor]);
    assert!(a.selected.is_none());
    assert_eq!(a.devices_listed(Ok(Vec::new())), []);
    a.devices_listed(Err("no host".into()));
    assert_eq!(a.error.as_deref(), Some("no host"));
}

#[test]
fn consent_leads_straight_to_the_devices() {
    let mut a = app(Settings::default());
    a.permission_asked(Ok(()));
    assert!(a.asking);
    let acts = a.on_tick(TickInput {
        permission: Some(PermissionStatus::Granted),
        ..tick(None)
    });
    assert_eq!(acts, [Action::ListDevices]);
    assert!(!a.asking);
    a.permission_asked(Ok(()));
    let acts = a.on_tick(TickInput {
        permission: Some(PermissionStatus::Denied),
        ..tick(None)
    });
    assert_eq!(acts.len(), 3);
    assert!(a.shows_permission_panel());
    a.permission_asked(Err("no prompt".into()));
    assert_eq!(a.error.as_deref(), Some("no prompt"));
}

#[test]
fn the_first_leader_on_the_lan_is_adopted_unless_it_refused() {
    let leader = LeaderFound {
        name: "van".into(),
        addresses: vec![
            LeaderAddress {
                text: "[fe80::1]:4443".into(),
                ipv4: false,
            },
            LeaderAddress {
                text: "10.0.0.9:4443".into(),
                ipv4: true,
            },
        ],
        fingerprint: "ab".into(),
    };
    assert_eq!(preferred_address(&leader.addresses), Some(1));
    assert_eq!(preferred_address(&Vec::new()), None);
    let mut a = rig(Role::Follower);
    a.link_opened(
        Ok(LinkInfo {
            address: None,
            fingerprint: None,
        }),
        Vec::new(),
    );
    let seen = || TickInput {
        discovered: vec![leader.clone()],
        ..tick(None)
    };
    assert_eq!(a.on_tick(seen())[0], Action::Adopt);
    assert_eq!(a.found_rows(false).unwrap()[0].text, "van · 10.0.0.9:4443");
    let (address, fingerprint) = a.adopt(false).unwrap();
    assert_eq!((address.as_str(), fingerprint.as_str()), ("10.0.0.9:4443", "ab"));
    assert!(a.link.is_none());
    let browsing = LinkInfo {
        address: None,
        fingerprint: None,
    };
    a.adopted(address, Err("refused".into()), Some(browsing));
    assert_eq!(a.error.as_deref(), Some("refused"));
    assert_ne!(a.on_tick(seen())[0], Action::Adopt, "it is not hammered");
    assert_eq!(a.adopt(false), None);
    // A typed address that resolves is not overridden.
    a.refused = None;
    let typed = TickInput {
        typed: true,
        ..seen()
    };
    assert_ne!(a.on_tick(typed)[0], Action::Adopt);
    a.adopted(
        "10.0.0.9:4443".into(),
        Ok(LinkInfo {
            address: Some("10.0.0.9:4443".into()),
            fingerprint: None,
        }),
        None,
    );
    assert_eq!(a.connected_text(), "locked to 10.0.0.9:4443 · starting");
}

#[test]
fn settings_take_what_makes_sense_and_keep_the_rest() {
    let mut a = app(Settings::default());
    assert_eq!(a.update(Message::ShowSettings), []);
    assert_eq!(a.screen, Screen::Settings);
    a.update(Message::TrimChanged("-".into(), None));
    assert_eq!(a.trim_text, "-");
    a.update(Message::TrimChanged("2.5".into(), Some(wide(2.5))));
    assert_eq!(a.settings.trim_ms, wide(2.5));
    a.update(Message::TrimChanged("2.5x".into(), None));
    assert_eq!(a.trim_text, "2.5");
    a.update(Message::LeaderPortChanged("".into()));
    assert_eq!((a.port_text.as_str(), a.settings.leader_port), ("", 4443));
    a.update(Message::LeaderPortChanged("5000".into()));
    assert_eq!(a.settings.leader_port, 5000);
    a.update(Message::LeaderPortChanged("70000".into()));
    assert_eq!((a.port_text.as_str(), a.settings.leader_port), ("5000", 5000));

    a.settings.fps = Fps::F29_97;
    a.update(Message::DropFrameToggled(true));
    assert!(a.settings.drop_frame && a.offers_drop_frame());
    let acts = a.update(Message::FpsSelected(Fps::F25));
    assert!(!a.settings.drop_frame, "there is nothing to drop at 25");
    assert_eq!(
        acts,
        [Action::DropLink, Action::OpenLink, Action::SaveSettings]
    );
    assert_eq!(a.update(Message::FpsSelected(Fps::F25)), []);
    let acts = a.update(Message::SourceSelected(TimeSource::Ethersync));
    assert_eq!(acts.last(), Some(&Action::SaveSettings));
    assert!(acts.contains(&Action::OpenLink) && acts.contains(&Action::ReadStatus));
    match a.link_plan() {
        LinkPlan::Leader { port, .. } => assert_eq!(port, 5000),
        LinkPlan::Follower { .. } => panic!("leading is the default"),
    }
    a.update(Message::UseDiscovered(" 10.0.0.4:4443 ".into()));
    match a.link_plan() {
        LinkPlan::Follower { typed, .. } => assert_eq!(typed.as_deref(), Some("10.0.0.4:4443")),
        LinkPlan::Leader { .. } => panic!("a discovered leader is followed"),
    }
    a.settings_saved(Err("read-only".into()));
    assert_eq!(
        a.error.as_deref(),
        Some("could not save settings: read-only")
    );
    assert_eq!(a.update(Message::ShowRecorder), [Action::SaveSettings]);
}

#[test]
fn the_button_says_what_will_come_of_it() {
    let mut a = app(Settings::default());
    assert_eq!(a.button(), Button::NoInput);
    a.monitor_opened(Ok(monitor()), false);
    assert_eq!(a.button(), Button::Syncing);
    assert!(a.button().enabled(), "the clock never blocks recording");
    let p = Progress {
        frames: 96_000,
        overruns: 0,
        observations: 0,
    };
    let t = a.transport(p, 48_000);
    assert_eq!(t.tint, Tint::Muted);
    assert_eq!(t.elapsed, "00:00:00");
    assert!(matches!(t.line, StatusLine::Hint(_)));
    a.status = ready_status();
    assert_eq!(a.button().label(), "Record");
    assert_eq!(a.transport(p, 48_000).tint, Tint::Armed);
    assert!(matches!(a.transport(p, 48_000).line, StatusLine::Blank));
    a.take_started(take_paths("/music", "rec", 1));
    assert_eq!(a.button(), Button::Stop);
    assert_eq!(a.transport(p, 48_000).elapsed, "00:00:02");
    assert_eq!(a.title(), "syncrec — recording");
    assert_eq!(a.level_source(), LevelSource::Take);
    a.stage = Stage::Finalizing;
    assert_eq!(a.button().label(), "Finalising…");
    assert_eq!(a.transport(p, 48_000).tint, Tint::Disabled);
    assert_eq!(a.level_source(), LevelSource::Monitor);
    let f = rig(Role::Follower);
    assert_eq!(f.button(), Button::NoLeader);
    assert!(!f.button().enabled());
    a.monitor_opened(Err("blocked".into()), true);
    assert_eq!(a.permission, PermissionStatus::Denied);
}

#[test]
fn the_window_describes_its_stream_and_its_link() {
    let mut a = rig(Role::Leader);
    assert_eq!(a.device_format(), "no input");
    assert_eq!(a.meter_channels(), 1);
    a.monitor = Some(monitor());
    assert_eq!(a.device_format(), "2 ch · 44100 Hz → 48000 on save");
    a.monitor = Some(Monitor {
        rate: 48_000,
        native_target_rate: true,
        ..monitor()
    });
    assert_eq!(a.device_format(), "2 ch · 48000 Hz");
    assert_eq!(a.reachable_text(), "no reachable address yet");
    let e = |t: &str| Endpoint {
        text: t.into(),
        loopback: false,
    };
    a.endpoints_listed(vec![e("10.0.0.4:4443"), e("192.168.1.4:4443")]);
    assert_eq!(
        a.reachable_text(),
        "followers can use  10.0.0.4:4443  192.168.1.4:4443"
    );
    assert_eq!(a.listening_text(), "not listening");
    a.link = Some(LinkInfo {
        address: Some("0.0.0.0:4443".into()),
        fingerprint: Some("ab:cd".into()),
    });
    assert_eq!(a.listening_text(), "SHA-256 ab:cd");
    a.refresh_status(None, Some((ready_status(), Some("10:00:00:00".into()))));
    assert_eq!(a.timecode_text(), "10:00:00:00");
    assert_eq!(a.link_detail(), "time.apple.com · ±4.00 ms");
    a.refresh_status(None, None);
    assert_eq!(a.status.label, "no link");
    assert_eq!(a.timecode_text(), "--:--:--:--");
    assert_eq!(a.link_detail(), "no clock");
    a.levels_read(Vec::new(), Vec::new(), vec![false, true]);
    assert!(a.any_clip());
}

#[test]
fn addresses_are_looked_up_again_only_while_anyone_is_looking() {
    let mut a = rig(Role::Leader);
    let later = TickInput {
        now: Instant {
            nanos: 2_000_000_000,
        },
        ..tick(None)
    };
    assert!(!a.on_tick(later).contains(&Action::ListEndpoints));
    a.update(Message::ShowSettings);
    let at = |nanos| TickInput {
        now: Instant { nanos },
        ..tick(None)
    };
    assert!(a.on_tick(at(2_000_000_000)).contains(&Action::ListEndpoints));
    assert!(!a.on_tick(at(2_500_000_000)).contains(&Action::ListEndpoints));
    assert!(a.on_tick(at(3_000_000_000)).contains(&Action::ListEndpoints));
}

#[test]
fn the_next_take_is_previewed_under_the_cleaned_name() {
    let mut a = app(Settings::default());
    assert_eq!(
        a.update(Message::BaseNameChanged("sc/1".into())),
        [Action::Preview]
    );
    a.refresh_preview(5);
    assert_eq!(a.preview_text(), "next: sc-1-5.wav");
    a.update(Message::BaseNameChanged("  ".into()));
    a.refresh_preview(1);
    assert_eq!(a.next_preview, "rec-1.wav");
}

fn clock() -> (ClockSnapshot, Instant) {
    let base = Instant { nanos: 0 };
    let mut m = ClockModel::new(base);
    for k in 0..8i64 {
        m.push(
            Instant {
                nanos: k * 16_000_000_000,
            },
            1_000_000_000_000 + k as i128 * 16_000_000_000,
            wide(0.01),
            wide(0.0),
        );
    }
    (m.snapshot(), base)
}

#[test]
fn the_clock_corner_reads_at_a_glance() {
    let (s, base) = clock();
    let sys = s.utc_nanos_at(base).unwrap() - 3_500_000;
    assert_eq!(
        ntp_detail(Some(s), base, sys),
        "±5.0 ms · +0.0 ppm · OS clock +3.5 ms · 8 polls"
    );
    let blank = ClockModel::new(base).snapshot();
    assert_eq!(ntp_detail(Some(blank), base, 0), "±? · 0 polls");
    assert_eq!(ntp_detail(None, base, 0), "clock unavailable");
    let mut a = app(Settings::default());
    a.refresh_status(Some(s), None);
    assert_eq!(a.ntp_label(), "NTP synced");
    assert!(a.clock_ready());
}

#[test]
fn a_take_without_an_anchor_claims_nothing() {
    let now: i128 = 1_000_000_000_000;
    let p: Provenance = provenance(&take(None), wide(1.5), now);
    // Two seconds of audio before now.
    assert_eq!(p.t0_unix_nanos, now - 2_000_000_000);
    assert_eq!(p.sync_state, "unsynced");
    assert!(p.timecode.is_none());
    assert_eq!(p.latency_offset_ms, wide(1.5));
    let p = provenance(&take(Some(5)), wide(0.0), now);
    assert_eq!(p.t0_unix_nanos, 5);
    assert_eq!(p.sync_state, "synced");
    assert_eq!(p.timecode.unwrap().start, "10:00:00:00");
    assert_eq!(p.session_id.as_deref(), Some("one"));
}

#[test]
fn the_result_line_is_terse() {
    assert_eq!(
        describe_outcome("rec-1.wav", &outcome(true, Vec::new())),
        "saved rec-1.wav"
    );
    let short = GateFailure::TooFewObservations {
        got: 1,
        required: 30,
    };
    let o = outcome(false, vec![short]);
    assert_eq!(
        describe_outcome("rec-1.wav", &o),
        "saved rec-1.wav · too short to measure drift"
    );
    assert_eq!(
        describe_outcome("rec-1.wav", &outcome(false, Vec::new())),
        "saved rec-1.wav · uncorrected"
    );
}
