//! The clock model, the reference it stands behind, and what feeds it.

use syncrec::clock::bridge::{Attempt, Bridge};
use syncrec::clock::reference::{NtpReference, RefStatus, Reference, TimecodeFormat};
use syncrec::clock::sntp::{
    exchange, next_sleep, poll_exchanged, poll_next, poll_resolved, with_port, Outcome,
    PollAction, Reply, Sandwich, NTP_PORT, SLEEP_SLICE, STEP_TOLERANCE_BASE, STEP_TOLERANCE_RATE,
};
use syncrec::clock::{unix_nanos, ClockModel, ClockSnapshot, SyncState, MIN_SLOPE_SPAN, WINDOW};
use syncrec::float::F64;
use syncrec::time::{Duration, Instant};

fn wide(x: f64) -> F64 {
    F64::from_bits(x.to_bits())
}

fn num(x: F64) -> f64 {
    f64::from_bits(x.to_bits())
}

fn start() -> Instant {
    Instant { nanos: 7_000_000_000 }
}

fn after(t: Instant, secs: f64) -> Instant {
    Instant {
        nanos: t.nanos + (secs * 1.0e9).round() as i64,
    }
}

fn model() -> (ClockModel, Instant) {
    let base = start();
    (ClockModel::new(base), base)
}

#[test]
fn unsynced_refuses_to_guess() {
    let (m, base) = model();
    assert_eq!(m.state(), SyncState::Unsynced);
    assert!(m.snapshot().utc_nanos_at(base).is_none());
}

#[test]
fn single_sample_gives_offset_but_no_slope() {
    let (mut m, base) = model();
    m.push(base, 1_000_000_000_000, wide(0.01), wide(0.0));
    let fit = m.fit.unwrap();
    assert_eq!(num(fit.b), 0.0);
    assert_eq!(fit.used, 1);
}

#[test]
fn recovers_a_known_slope_and_offset() {
    // Machine runs 20 ppm fast; true UTC therefore lags our raw monotonic
    // reading by a growing amount. Offset at origin is +5 ms.
    let (mut m, base) = model();
    let ppm = 20.0e-6;
    let offset0 = 0.005;
    for k in 0..WINDOW {
        let x = k as f64 * 16.0;
        let correction = offset0 + ppm * x;
        let mono = after(base, x);
        let utc = 1_000_000_000_000i128 + (x * 1.0e9) as i128 + (correction * 1.0e9) as i128;
        m.push(mono, utc, wide(0.01), wide(correction));
    }
    let fit = m.fit.unwrap();
    assert!((num(fit.ppm()) - 20.0).abs() < 1e-3, "ppm {}", num(fit.ppm()));
    assert_eq!(fit.used, WINDOW);
    assert_eq!(m.state(), SyncState::Synced);

    // The origin is pinned to the first accepted sample, so the intercept is a
    // correction relative to it, not the absolute offset. The absolute offset
    // is carried in base_utc_nanos; what must hold is that the model reproduces
    // every sample it was given.
    assert!(num(fit.a).abs() < 1e-9, "intercept should be ~0, got {}", num(fit.a));
    let snap = m.snapshot();
    for k in 0..WINDOW {
        let x = k as f64 * 16.0;
        let want =
            1_000_000_000_000i128 + (x * 1.0e9) as i128 + ((offset0 + ppm * x) * 1.0e9) as i128;
        let got = snap
            .utc_nanos_at(after(base, x))
            .unwrap();
        assert!((got - want).abs() < 1_000, "k={k} got {got} want {want}");
    }
}

#[test]
fn slow_samples_are_dropped() {
    let (mut m, base) = model();
    for k in 0..WINDOW {
        let x = k as f64 * 16.0;
        let mono = after(base, x);
        // One sample takes 10x the others and carries a 50 ms error with it.
        let (delay, err) = if k == 4 { (0.10, 0.050) } else { (0.01, 0.0) };
        let utc = 1_000_000_000_000i128 + (x * 1.0e9) as i128 + (err * 1.0e9) as i128;
        m.push(mono, utc, wide(delay), wide(err));
    }
    let fit = m.fit.unwrap();
    assert_eq!(fit.total, WINDOW);
    assert_eq!(
        fit.used,
        WINDOW - 1,
        "the congested sample should be rejected"
    );
    // With the outlier gone the fit should be flat and clean.
    assert!(num(fit.ppm()).abs() < 1e-3, "ppm {}", num(fit.ppm()));
    assert!(num(fit.residual_rms) < 1e-9);
}

#[test]
fn refuses_an_implausible_slope_from_a_short_noisy_window() {
    // Reproduces what a real 3-sample probe run produced: a late sample carrying
    // several ms of asymmetry, over a span far too short to determine frequency.
    let (mut m, base) = model();
    for (k, (delay, err)) in [(0.0099, 0.0), (0.0085, 0.0), (0.0164, 0.0035)]
        .into_iter()
        .enumerate()
    {
        let x = k as f64 * 16.0;
        let mono = after(base, x);
        let utc = 1_000_000_000_000i128 + (x * 1.0e9) as i128 + (err * 1.0e9) as i128;
        m.push(mono, utc, wide(delay), wide(err));
    }
    let fit = m.fit.unwrap();
    assert!(
        !fit.slope_trusted,
        "3 samples over 32 s cannot determine a slope"
    );
    assert_eq!(num(fit.b), 0.0);
    // Falls back to offset-only, which is the mean of the survivors.
    assert!(num(fit.a).abs() < 0.01);
}

#[test]
fn refuses_a_slope_that_no_crystal_could_have() {
    let (mut m, base) = model();
    // Enough samples and span to pass the first two gates, but the data implies
    // 1000 ppm, which is an order of magnitude beyond any real oscillator.
    for k in 0..WINDOW {
        let x = k as f64 * 16.0;
        let mono = after(base, x);
        let utc = 1_000_000_000_000i128 + (x * 1.0e9) as i128 + (1000.0e-6 * x * 1.0e9) as i128;
        m.push(mono, utc, wide(0.01), wide(0.0));
    }
    let fit = m.fit.unwrap();
    assert!(!fit.slope_trusted, "ppm was {}", num(fit.ppm()));
    assert_eq!(num(fit.b), 0.0);
}

#[test]
fn a_plausible_slope_over_a_long_span_is_trusted() {
    let (mut m, base) = model();
    for k in 0..WINDOW {
        let x = k as f64 * 16.0;
        let mono = after(base, x);
        let utc = 1_000_000_000_000i128 + (x * 1.0e9) as i128 + (30.0e-6 * x * 1.0e9) as i128;
        m.push(mono, utc, wide(0.01), wide(0.0));
    }
    let fit = m.fit.unwrap();
    assert!(fit.slope_trusted);
    assert!((num(fit.ppm()) - 30.0).abs() < 1e-3);
    assert!(num(fit.span) >= f64::from_bits(MIN_SLOPE_SPAN));
}

#[test]
fn window_holds_only_the_most_recent() {
    let (mut m, base) = model();
    for k in 0..(WINDOW * 3) {
        let mono = after(base, k as f64 * 16.0);
        m.push(
            mono,
            1_000_000_000_000 + (k as i128 * 16_000_000_000),
            wide(0.01),
            wide(0.0),
        );
    }
    assert_eq!(m.window.len(), WINDOW);
    assert_eq!(m.accepted, (WINDOW * 3) as u64);
    assert_eq!(m.log().len(), WINDOW * 3);
}

#[test]
fn extrapolates_through_the_fitted_line() {
    let (mut m, base) = model();
    let ppm = 20.0e-6;
    for k in 0..WINDOW {
        let x = k as f64 * 16.0;
        let mono = after(base, x);
        let utc = 1_000_000_000_000i128 + (x * 1.0e9) as i128 + (ppm * x * 1.0e9) as i128;
        m.push(mono, utc, wide(0.01), wide(0.0));
    }
    let snap = m.snapshot();
    // 100 s past the origin the model should have accumulated 100*20ppm = 2 ms.
    let probe = after(base, 100.0);
    let got = snap.utc_nanos_at(probe).unwrap();
    let want = 1_000_000_000_000i128 + 100_000_000_000 + 2_000_000;
    assert!((got - want).abs() < 10_000, "got {got} want {want}");
}

#[test]
fn marks_before_the_origin_resolve_backwards() {
    let (mut m, base) = model();
    let later = after(base, 60.0);
    m.push(later, 1_000_000_000_000, wide(0.01), wide(0.0));
    m.push(
        after(later, 16.0),
        1_016_000_000_000,
        wide(0.01),
        wide(0.0),
    );
    let snap = m.snapshot();
    let got = snap.utc_nanos_at(base).unwrap();
    // base is 60 s before the first exchange.
    assert!((got - (1_000_000_000_000i128 - 60_000_000_000)).abs() < 10_000);
}

fn synced(base: Instant) -> ClockSnapshot {
    let mut m = ClockModel::new(base);
    for k in 0..8 {
        let x = k as f64 * 16.0;
        m.push(
            after(base, x),
            1_000_000_000_000i128 + (x * 1.0e9) as i128,
            wide(0.01),
            wide(0.0),
        );
    }
    m.snapshot()
}

#[test]
fn a_frozen_reference_resolves_like_its_snapshot() {
    let base = start();
    let snap = synced(base);
    let r = NtpReference::fixed("time.apple.com".into(), snap);
    assert_eq!(r.utc_nanos(base), snap.utc_nanos_at(base));
    assert!(r.status().synced);
    assert_eq!(r.status().source, "time.apple.com");
}

#[test]
fn an_unsynced_reference_declines_rather_than_guesses() {
    let base = start();
    let r = NtpReference::fixed("pool.ntp.org".into(), ClockModel::new(base).snapshot());
    assert!(r.utc_nanos(base).is_none());
    assert!(!r.status().synced);
    assert!(!r.status().ready());
}

#[test]
fn readiness_needs_the_exchanges_as_well_as_the_state() {
    let base = start();
    let mut m = ClockModel::new(base);
    // One exchange is enough to have a fit, and nowhere near enough to trust it.
    m.push(base, 1_000_000_000_000, wide(0.01), wide(0.0));
    let status = NtpReference::status_of("s", &m.snapshot());
    assert!(!status.ready(), "one exchange must not read as ready");
    assert!(status.waiting_for().is_some());
}

#[test]
fn a_reference_that_counts_nothing_is_ready_once_it_is_synced() {
    // The leader case: nothing to exchange with, so the exchange count must not
    // be able to hold it back.
    let status = RefStatus {
        kind: "ethersync".into(),
        source: "ethersync leader".into(),
        synced: true,
        label: "leader".into(),
        samples: None,
        discarded: None,
        dispersion_s: None,
        slope_ppm: None,
    };
    assert!(status.ready());
    assert_eq!(status.waiting_for(), None);
}

#[test]
fn refresh_picks_up_what_the_poller_has_learned() {
    let base = start();
    let mut r = NtpReference::fixed("s".into(), ClockModel::new(base).snapshot());
    assert!(r.utc_nanos(base).is_none());

    let learned = synced(base);
    assert!(
        r.utc_nanos(base).is_none(),
        "a reference must not see a change it has not refreshed for"
    );
    r.refresh(Some(learned));
    assert!(r.utc_nanos(base).is_some());
    // What cannot be read changes nothing.
    r.refresh(None);
    assert_eq!(r.utc_nanos(base), learned.utc_nanos_at(base));
}

/// Readings of a stream whose clock runs `origin` ahead of the monotonic one, each taking
/// `width` nanoseconds.
fn readings(origin: u128, widths: &[i64]) -> Vec<Attempt> {
    let mut at: i64 = 1_000_000_000;
    let mut out = Vec::new();
    for width in widths {
        out.push(Attempt {
            before: Instant { nanos: at },
            stream_nanos: origin + (at + width / 2) as u128,
            after: Instant { nanos: at + width },
        });
        at += width + 1_000;
    }
    out
}

#[test]
fn removes_a_known_origin_shift() {
    let bridge = Bridge::measure(&readings(9_000_000_000_000, &[2_000, 400, 900]));
    // A stream timestamp 2 s after the correlation should map to an Instant 2 s
    // after the correlation, with the 9000 s origin shift removed entirely.
    let mapped = bridge.to_instant(bridge.stream_nanos + 2_000_000_000);
    let expected = after(bridge.instant, 2.0);
    assert!((mapped.nanos - expected.nanos).abs() < 1_000);
}

#[test]
fn maps_timestamps_before_the_correlation() {
    let bridge = Bridge::measure(&readings(9_000_000_000_000, &[2_000, 400, 900]));
    let mapped = bridge.to_instant(bridge.stream_nanos - 500_000_000);
    assert!(mapped.nanos < bridge.instant.nanos);
    let delta = bridge.instant.nanos - mapped.nanos;
    assert!(
        delta > 499_000_000 && delta < 501_000_000,
        "delta {delta}"
    );
}

#[test]
fn correlation_is_tight() {
    // The tightest of the readings wins.
    let bridge = Bridge::measure(&readings(1_000_000_000, &[90_000, 400, 250_000]));
    assert!(bridge.uncertainty().nanos < 100_000);
    assert!(bridge.uncertainty().nanos <= 400);
}

#[test]
fn resolve_adds_the_default_port() {
    assert_eq!(with_port("127.0.0.1", false), format!("127.0.0.1:{NTP_PORT}"));
}

#[test]
fn resolve_respects_an_explicit_port() {
    assert_eq!(with_port("127.0.0.1:1234", false), "127.0.0.1:1234");
}

#[test]
fn resolve_handles_bare_ipv6() {
    // A bare IPv6 literal is nothing but colons, which must not be taken for a port.
    assert_eq!(with_port("::1", true), format!("[::1]:{NTP_PORT}"));
}

#[test]
fn resolve_handles_bracketed_ipv6_with_and_without_a_port() {
    // Brackets alone do not imply a port.
    assert_eq!(with_port("[::1]", false), format!("[::1]:{NTP_PORT}"));
    assert_eq!(with_port("[::1]:4460", false), "[::1]:4460");
}

#[test]
fn step_tolerance_allows_legitimate_slew_but_not_a_jump() {
    // A 50 ms exchange slewing at the maximum legal rate.
    let exchange_len = 0.050;
    let rate = f64::from_bits(STEP_TOLERANCE_RATE);
    let tol = f64::from_bits(STEP_TOLERANCE_BASE) + rate * exchange_len;
    assert!(exchange_len * rate < tol);
    // A one-second step is nowhere near tolerable.
    assert!(1.0 > tol);
}

/// An exchange of forty milliseconds whose wall clock moved by `wall` meanwhile.
fn sandwich(wall: i128) -> Sandwich {
    Sandwich {
        mono_before: Instant { nanos: 1_000_000_000 },
        mono_after: Instant { nanos: 1_040_000_000 },
        sys_before: 50_000_000_000,
        sys_after: 50_000_000_000 + wall,
    }
}

fn reply(offset: f64) -> Reply {
    Reply {
        offset: wide(offset),
        delay: wide(0.02),
    }
}

#[test]
fn a_steady_exchange_is_taken_and_a_stepped_one_is_not() {
    match exchange(sandwich(40_000_000), Ok(reply(0.005))) {
        Outcome::Good(ex) => {
            assert_eq!(ex.mono_mid.nanos, 1_020_000_000);
            assert_eq!(num(ex.offset), 0.005);
            assert_eq!(ex.utc_mid_nanos, 50_000_000_000 + 20_000_000 + 5_000_000);
        }
        other => panic!("{other:?}"),
    }
    // The wall clock jumped a second during the exchange.
    assert!(matches!(
        exchange(sandwich(1_040_000_000), Ok(reply(0.005))),
        Outcome::Stepped { .. }
    ));
    match exchange(sandwich(40_000_000), Err("no route".into())) {
        Outcome::Failed(why) => assert_eq!(why, "no route"),
        other => panic!("{other:?}"),
    }
}

#[test]
fn polling_counts_what_went_wrong() {
    let (mut m, _) = model();
    assert_eq!(poll_next(false), PollAction::Resolve);
    assert_eq!(poll_next(true), PollAction::Exchange);
    assert_eq!(poll_resolved(&mut m, false), PollAction::Wait);
    assert_eq!(m.snapshot().failed, 1);
    assert_eq!(poll_resolved(&mut m, true), PollAction::Exchange);
    assert!(!poll_exchanged(&mut m, &Outcome::Failed("x".into())));
    assert_eq!(m.snapshot().failed, 2);
    assert!(poll_exchanged(
        &mut m,
        &exchange(sandwich(1_040_000_000), Ok(reply(0.0)))
    ));
    assert_eq!(m.snapshot().rejected, 1);
    assert!(poll_exchanged(
        &mut m,
        &exchange(sandwich(40_000_000), Ok(reply(0.0)))
    ));
    assert_eq!(m.snapshot().accepted, 1);
    assert_eq!(m.state(), SyncState::Coarse);
}

#[test]
fn the_poller_sleeps_in_slices_and_stops_when_told() {
    let now = start();
    assert_eq!(next_sleep(now, after(now, 16.0), true), None);
    assert_eq!(next_sleep(now, now, false), None);
    assert_eq!(
        next_sleep(now, after(now, 16.0), false),
        Some(Duration { nanos: SLEEP_SLICE })
    );
    assert_eq!(
        next_sleep(now, Instant { nanos: now.nanos + 5 }, false),
        Some(Duration { nanos: 5 })
    );
}

#[test]
fn unix_time_counts_backwards_before_the_epoch() {
    assert_eq!(unix_nanos(Ok(Duration { nanos: 12 })), 12);
    assert_eq!(unix_nanos(Err(Duration { nanos: 12 })), -12);
}

#[test]
fn a_format_reads_as_on_a_report() {
    let f = TimecodeFormat {
        numerator: 30000,
        denominator: 1001,
        drop_frame: true,
    };
    assert_eq!(f.to_text(), "29.970 DF");
    let f = TimecodeFormat {
        numerator: 25,
        denominator: 1,
        drop_frame: false,
    };
    assert_eq!(f.to_text(), "25 NDF");
}

#[test]
fn waiting_says_what_is_waited_for() {
    let base = start();
    let mut m = ClockModel::new(base);
    assert_eq!(
        NtpReference::status_of("s", &m.snapshot()).waiting_for().unwrap(),
        format!("waiting for {} 0/3", NtpReference::status_of("s", &m.snapshot()).kind)
    );
    for k in 0..3 {
        m.push(
            after(base, 16.0 * k as f64),
            1_000_000_000_000 + 16_000_000_000 * k,
            wide(0.01),
            wide(0.0),
        );
    }
    assert_eq!(NtpReference::status_of("s", &m.snapshot()).waiting_for(), None);
}

#[test]
fn the_system_clock_is_compared_with_the_model() {
    let base = start();
    let snap = synced(base);
    let ours = snap.utc_nanos_at(base).unwrap();
    let e = snap.system_clock_error(base, ours - 3_000_000).unwrap();
    assert!((num(e) - 0.003).abs() < 1e-12);
    let blank = ClockModel::new(base).snapshot();
    assert_eq!(blank.system_clock_error(base, 0), None);
    assert_eq!(blank.dispersion(), None);
    // Half the fastest round trip bounds the path asymmetry.
    assert!((num(snap.dispersion().unwrap()) - 0.005).abs() < 1e-9);
}

#[test]
fn without_a_slope_utc_advances_as_the_monotonic_clock_does() {
    let (mut m, base) = model();
    m.push(base, 1_000_000_000_123, wide(0.01), wide(0.0));
    m.push(after(base, 1.0), 1_001_000_200_000, wide(0.011), wide(0.0));
    let s = m.snapshot();
    assert!(!s.fit().unwrap().slope_trusted);
    let first = s.utc_nanos_at(base).unwrap();
    for k in [-5_000_000_000i64, -1, 1, 7, 86_400_000_000_000] {
        let t = Instant {
            nanos: base.nanos + k,
        };
        assert_eq!(s.utc_nanos_at(t).unwrap() - first, k as i128);
    }
}

#[test]
fn the_fastest_exchange_is_always_kept() {
    let (mut m, base) = model();
    for k in 0..8i64 {
        let delay = wide(0.001 * 3f64.powi(k as i32));
        let t = Instant {
            nanos: base.nanos + k,
        };
        m.push(t, k as i128, delay, wide(0.0));
        let fit = m.snapshot().fit().unwrap();
        assert_eq!(fit.used, 1, "only the first is fast");
        assert_eq!(fit.min_delay, wide(0.001));
    }
}

#[test]
fn utc_is_known_from_the_first_exchange_on() {
    let (mut m, base) = model();
    assert_eq!(m.snapshot().utc_nanos_at(after(base, 3.0)), None);
    m.push(after(base, 2.0), 5_000_000_000, wide(0.0), wide(0.0));
    assert_eq!(
        m.snapshot().utc_nanos_at(after(base, 3.0)),
        Some(6_000_000_000)
    );
}

#[test]
fn without_a_slope_the_intercept_is_the_mean_of_the_survivors() {
    let (mut m, base) = model();
    // Corrections of zero, two and four milliseconds, and one far off on a slow path.
    for (k, ms) in [0i128, 2, 4].into_iter().enumerate() {
        let x = k as f64;
        let utc = 1_000_000_000_000 + k as i128 * 1_000_000_000 + ms * 1_000_000;
        m.push(after(base, x), utc, wide(0.01), wide(0.0));
    }
    m.push(after(base, 9.0), 2_000_000_000_000, wide(0.5), wide(0.0));
    let fit = m.snapshot().fit().unwrap();
    assert_eq!((fit.total, fit.used), (4, 3));
    assert!(!fit.slope_trusted);
    assert_eq!(fit.b, wide(0.0));
    assert!((num(fit.a) - 0.002).abs() < 1e-12);
    assert_eq!(fit.span, wide(2.0), "the slow one does not stretch the span");
}

#[test]
fn an_exchange_is_measured_against_the_base_that_was_pinned() {
    let (mut m, base) = model();
    let first = exchange(sandwich(40_000_000), Ok(reply(0.0)));
    assert!(poll_exchanged(&mut m, &first));
    let pinned = m.base_utc_nanos;
    assert!(pinned.is_some());
    assert!(poll_exchanged(
        &mut m,
        &exchange(sandwich(40_000_000), Ok(reply(0.25)))
    ));
    assert_eq!(m.base_utc_nanos, pinned);
    assert_eq!(m.base_mono(), base);
    assert_eq!(m.log().len(), 2);
    assert_eq!(m.log()[0].y, wide(0.0));
    assert_eq!(m.log()[1].y, wide(0.25));
}

#[test]
fn a_step_before_the_exchange_cancels() {
    let plain = sandwich(40_000_000);
    // A step of an hour back, which the server's offset makes up for.
    let stepped = Sandwich {
        sys_before: plain.sys_before - 3_600_000_000_000,
        sys_after: plain.sys_after - 3_600_000_000_000,
        ..plain
    };
    match (
        exchange(plain, Ok(reply(0.5))),
        exchange(stepped, Ok(reply(3_600.5))),
    ) {
        (Outcome::Good(a), Outcome::Good(b)) => {
            assert_eq!(a.utc_mid_nanos, b.utc_mid_nanos);
            assert_eq!(a.mono_mid, b.mono_mid);
        }
        other => panic!("{other:?}"),
    }
}
