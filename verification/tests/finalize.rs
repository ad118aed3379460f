//! The drift fit, the safety gate, and what becomes of a take.

use syncrec::audio::writer::DriftObservation;
use syncrec::bwf::Provenance;
use syncrec::clock::reference::{NtpReference, RefStatus};
use syncrec::clock::ClockModel;
use syncrec::finalize::{
    check_resample, check_write, evaluate_gate, fit_drift, verify_written, DriftFit, Finalizing,
    GateFailure, Outcome, RawProblem, RawReading, ReadBack, ResampleProblem, MAX_RESIDUAL_RMS_S,
    MIN_OBSERVATIONS, MIN_RESAMPLE_FRAMES,
};
use syncrec::float::F64;
use syncrec::time::Instant;

fn wide(x: f64) -> F64 {
    F64::from_bits(x.to_bits())
}

fn num(x: F64) -> f64 {
    f64::from_bits(x.to_bits())
}

#[test]
fn a_short_take_reports_its_length_not_a_list_of_conditions() {
    // The case a user actually hits: NTP is fine, the take is 8 seconds.
    let clock = synced_clock();
    let obs = observations(8, 48_000.0);
    let fit = fit_drift(&obs);
    let gate = evaluate_gate(&clock, &obs, fit, 48_000);
    assert!(!gate.passed());
    assert_eq!(gate.short_reason(), Some("too short to measure drift"));
    // The full list is still available for the file and the log.
    assert!(gate.reason().unwrap().contains("span"));
}

#[test]
fn a_passing_gate_has_no_short_reason() {
    let clock = synced_clock();
    let obs = observations(60, 47_999.4);
    let fit = fit_drift(&obs);
    let gate = evaluate_gate(&clock, &obs, fit, 48_000);
    assert!(gate.passed(), "{:?}", gate.reason());
    assert_eq!(gate.short_reason(), None);
}

#[test]
fn an_unsynced_clock_outranks_other_complaints_once_the_take_is_long_enough() {
    let clock = clock_with(0);
    let obs = observations(60, 47_999.4);
    let fit = fit_drift(&obs);
    let gate = evaluate_gate(&clock, &obs, fit, 48_000);
    assert_eq!(gate.short_reason(), Some("clock was not synced"));
}
/// A realistic epoch: ~1.8e18 ns needs 61 bits, eight more than an f64 mantissa.
const EPOCH: i128 = 1_800_000_000_123_456_789;

// -- helpers ------------------------------------------------------------

/// Observations for a device that claims 48000 and really runs at `rate`, marked
/// once per nominal second for `secs` seconds.
fn observations(secs: usize, rate: f64) -> Vec<DriftObservation> {
    (0..secs)
        .map(|k| {
            let sample_index = (k as u64) * 48_000;
            DriftObservation {
                sample_index,
                utc_unix_nanos: EPOCH + (sample_index as f64 / rate * 1.0e9).round() as i128,
            }
        })
        .collect()
}

/// The same, with deterministic pseudo-random jitter of up to `jitter_s`.
fn jittered(secs: usize, rate: f64, jitter_s: f64) -> Vec<DriftObservation> {
    let mut state = 0x2545_F491_4F6C_DD1Du64;
    observations(secs, rate)
        .into_iter()
        .map(|mut o| {
            // xorshift64*, so the test is reproducible without a dependency.
            state ^= state >> 12;
            state ^= state << 25;
            state ^= state >> 27;
            let unit =
                (state.wrapping_mul(0x2545_F491_4F6C_DD1D) >> 11) as f64 / (1u64 << 53) as f64;
            let offset = (unit * 2.0 - 1.0) * jitter_s;
            o.utc_unix_nanos += (offset * 1.0e9).round() as i128;
            o
        })
        .collect()
}

/// An NTP reference with `accepted` good exchanges behind it.
fn clock_with(accepted: usize) -> RefStatus {
    let base = Instant { nanos: 5_000_000_000 };
    let mut model = ClockModel::new(base);
    for k in 0..accepted {
        let x = k as f64 * 16.0;
        model.push(
            Instant {
                nanos: base.nanos + (x * 1.0e9) as i64,
            },
            EPOCH + (x * 1.0e9) as i128,
            wide(0.01),
            wide(0.0),
        );
    }
    NtpReference::status_of("time.apple.com", &model.snapshot())
}

fn synced_clock() -> RefStatus {
    clock_with(8)
}

/// A reference that does not count exchanges, the way an ethersync leader
/// does not: it is the clock, so there is nobody to exchange with.
fn uncounted_clock(synced: bool) -> RefStatus {
    RefStatus {
        kind: "ethersync".into(),
        source: "ethersync leader".into(),
        synced,
        label: if synced { "rolling" } else { "idle" }.into(),
        samples: None,
        discarded: None,
        dispersion_s: None,
        slope_ppm: None,
    }
}

fn provenance(channels: u16, device_rate: u32) -> Provenance {
    Provenance {
        t0_unix_nanos: EPOCH,
        sample_rate: device_rate,
        channels,
        bits_per_sample: 32,
        device_name: "Scarlett 2i2".into(),
        device_rate,
        measured_rate: None,
        drift_ratio: None,
        resampled: false,
        clock_source: "time.apple.com".into(),
        clock_dispersion_s: Some(wide(0.004)),
        sync_state: "synced".into(),
        slope_ppm: Some(wide(-12.0)),
        latency_offset_ms: wide(0.0),
        timecode: None,
        session_id: None,
    }
}

// -- the fit: numerics ---------------------------------------------------

#[test]
fn recovers_a_known_device_rate_from_realistic_utc_nanoseconds() {
    let fit = fit_drift(&observations(600, 47_999.4)).expect("600 points describe a line");
    assert!(
        (num(fit.measured_rate) - 47_999.4).abs() < 0.01,
        "measured {} Hz",
        num(fit.measured_rate)
    );
    // Far tighter than the bar, because the differencing costs us almost nothing.
    assert!(
        (num(fit.measured_rate) - 47_999.4).abs() < 1.0e-4,
        "measured {} Hz",
        num(fit.measured_rate)
    );
    assert!((num(fit.drift_ratio) - 48_000.0 / 47_999.4).abs() < 1.0e-10);
    assert_eq!(fit.points, 600);
}

#[test]
fn subtracting_the_first_observation_is_what_keeps_the_fit_exact() {
    // The naive version: fit raw f64 nanoseconds with the textbook uncentered
    // normal equations, which is what you write if you do not think about it.
    let obs = observations(60, 47_999.4);
    let n = obs.len() as f64;
    let (mut sx, mut sy, mut sxx, mut sxy) = (0.0f64, 0.0f64, 0.0f64, 0.0f64);
    for o in &obs {
        let x = o.sample_index as f64;
        let y = o.utc_unix_nanos as f64;
        sx += x;
        sy += y;
        sxx += x * x;
        sxy += x * y;
    }
    let naive_beta_ns = (n * sxy - sx * sy) / (n * sxx - sx * sx);
    let naive_rate = 1.0e9 / naive_beta_ns;
    let naive_t0 = (sy - naive_beta_ns * sx) / n;

    let fit = fit_drift(&obs).expect("60 points describe a line");

    let naive_rate_err = (naive_rate - 47_999.4).abs();
    let ours_rate_err = (num(fit.measured_rate) - 47_999.4).abs();
    assert!(
        naive_rate_err > 1.0e-4,
        "the naive fit was supposed to be the bad one: err {naive_rate_err}"
    );
    assert!(
        ours_rate_err < naive_rate_err / 1000.0,
        "ours {ours_rate_err} Hz vs naive {naive_rate_err} Hz"
    );

    // The intercept is where the loss of precision really shows: 1.8e18 ns is
    // held to 256 ns steps in an f64, so the naive t0 cannot be better than that.
    let naive_t0_err = (naive_t0 - EPOCH as f64).abs();
    let ours_t0_err = (fit.t0_unix_nanos - EPOCH).unsigned_abs() as f64;
    assert!(naive_t0_err > 256.0, "naive t0 err {naive_t0_err} ns");
    assert!(ours_t0_err < 100.0, "our t0 err {ours_t0_err} ns");
}

#[test]
fn a_perfect_crystal_measures_as_no_correction_needed() {
    let fit = fit_drift(&observations(120, 48_000.0)).expect("a line");
    assert!((num(fit.measured_rate) - 48_000.0).abs() < 1.0e-4);
    assert!(num(fit.drift_ppm()).abs() < 0.1, "ppm {}", num(fit.drift_ppm()));
}

#[test]
fn the_fit_reports_its_own_scatter() {
    let clean = fit_drift(&observations(300, 47_999.4)).expect("a line");
    assert!(num(clean.residual_rms_s) < 1.0e-6, "{}", num(clean.residual_rms_s));

    // 2 ms of uniform jitter has an RMS of 2/sqrt(3) ~ 1.15 ms.
    let noisy = fit_drift(&jittered(300, 47_999.4, 0.002)).expect("a line");
    assert!(
        (0.8e-3..1.5e-3).contains(&num(noisy.residual_rms_s)),
        "residual {} s",
        num(noisy.residual_rms_s)
    );
}

#[test]
fn jitter_averages_out_of_the_slope_over_a_long_take() {
    let fit = fit_drift(&jittered(600, 47_999.4, 0.001)).expect("a line");
    assert!(
        (num(fit.measured_rate) - 47_999.4).abs() < 0.01,
        "measured {} Hz from jittered marks",
        num(fit.measured_rate)
    );
}

#[test]
fn a_non_nominal_device_rate_folds_conversion_into_the_same_ratio() {
    // A device that fell back to 44.1 kHz and is itself 20 ppm slow.
    let true_rate = 44_100.0 * (1.0 - 20.0e-6);
    let obs: Vec<_> = (0..120)
        .map(|k| {
            let sample_index = (k as u64) * 44_100;
            DriftObservation {
                sample_index,
                utc_unix_nanos: EPOCH
                    + (sample_index as f64 / true_rate * 1.0e9).round() as i128,
            }
        })
        .collect();
    let fit = fit_drift(&obs).expect("a line");
    assert!((num(fit.measured_rate) - true_rate).abs() < 0.01);
    // The ratio is dominated by the rate conversion...
    assert!((num(fit.drift_ratio) - 48_000.0 / true_rate).abs() < 1.0e-9);
    // ...but the crystal error against the device's own nominal rate is small.
    assert!(
        (num(fit.crystal_ppm(44_100)) + 20.0).abs() < 0.1,
        "crystal {} ppm",
        num(fit.crystal_ppm(44_100))
    );
}

#[test]
fn the_anchor_comes_off_the_whole_line_not_the_first_mark() {
    let mut obs = observations(120, 47_999.4);
    // Poison the first mark with 3 ms of error, as a congested exchange would.
    obs[0].utc_unix_nanos += 3_000_000;
    let fit = fit_drift(&obs).expect("a line");
    let err = (fit.t0_unix_nanos - EPOCH).unsigned_abs() as f64;
    assert!(
        err < 300_000.0,
        "one bad mark moved t0 by {err} ns; the line should have absorbed it"
    );
}

#[test]
fn utc_at_an_arbitrary_sample_follows_the_fitted_rate() {
    let fit = fit_drift(&observations(120, 47_999.4)).expect("a line");
    // One nominal minute in, the true elapsed time is a shade over 60 s.
    let idx = 60 * 48_000;
    let want = EPOCH + (idx as f64 / 47_999.4 * 1.0e9).round() as i128;
    let got = fit.utc_nanos_at(idx);
    assert!((got - want).unsigned_abs() < 1_000, "got {got} want {want}");
}

// -- the fit: degenerate input -------------------------------------------

#[test]
fn no_observations_yields_no_fit() {
    assert!(fit_drift(&Vec::new()).is_none());
}

#[test]
fn a_single_observation_yields_no_fit() {
    assert!(fit_drift(&observations(1, 48_000.0)).is_none());
}

#[test]
fn a_degenerate_span_yields_no_fit() {
    // Every mark on the same sample: a vertical line, not a rate.
    let obs: Vec<_> = (0..50)
        .map(|k| DriftObservation {
            sample_index: 4_096,
            utc_unix_nanos: EPOCH + k as i128 * 1_000_000,
        })
        .collect();
    assert!(fit_drift(&obs).is_none());
}

#[test]
fn time_running_backwards_yields_no_fit() {
    let obs: Vec<_> = (0..50)
        .map(|k| DriftObservation {
            sample_index: k as u64 * 48_000,
            utc_unix_nanos: EPOCH - k as i128 * 1_000_000_000,
        })
        .collect();
    assert!(fit_drift(&obs).is_none(), "a negative rate is not a rate");
}

#[test]
fn two_observations_are_enough_to_define_a_line() {
    let fit = fit_drift(&observations(2, 47_999.4)).expect("two points define a line");
    assert_eq!(fit.points, 2);
    // Exactly determined, so there is no scatter to report.
    assert_eq!(num(fit.residual_rms_s), 0.0);
}

// -- the drift gate -------------------------------------------------------------

#[test]
fn a_clean_synced_take_passes_the_gate() {
    let obs = observations(120, 47_999.4);
    let fit = fit_drift(&obs);
    let report = evaluate_gate(&synced_clock(), &obs, fit, 48_000);
    assert!(report.passed(), "{:?}", report.failures());
    assert_eq!(report.reason(), None);
}

#[test]
fn refuses_to_delete_the_raw_when_the_clock_never_synced() {
    let obs = observations(120, 47_999.4);
    let fit = fit_drift(&obs);
    let report = evaluate_gate(&clock_with(0), &obs, fit, 48_000);
    assert!(!report.passed());
    assert!(
        report
            .failures()
            .iter()
            .any(|f| matches!(f, GateFailure::ClockNotSynced { .. }))
    );
}

#[test]
fn refuses_to_delete_the_raw_on_too_few_ntp_exchanges() {
    let obs = observations(120, 47_999.4);
    let fit = fit_drift(&obs);
    // Two accepted exchanges leaves the clock Coarse, which trips both checks.
    let report = evaluate_gate(&clock_with(2), &obs, fit, 48_000);
    assert!(!report.passed());
    assert!(report.failures().iter().any(|f| matches!(
        f,
        GateFailure::TooFewClockSamples {
            accepted: 2,
            required: 3
        }
    )));
}

#[test]
fn exactly_the_minimum_ntp_exchanges_is_enough() {
    let obs = observations(120, 47_999.4);
    let fit = fit_drift(&obs);
    let report = evaluate_gate(&clock_with(3), &obs, fit, 48_000);
    assert!(report.passed(), "{:?}", report.failures());
}

#[test]
fn a_reference_that_counts_nothing_is_not_held_back_by_the_exchange_count() {
    // An ethersync leader generates the timeline it is being judged against.
    // There is no exchange to accumulate, so demanding three of them would
    // mean a leader could never correct a take at all.
    let obs = observations(120, 47_999.4);
    let fit = fit_drift(&obs);
    let report = evaluate_gate(&uncounted_clock(true), &obs, fit, 48_000);
    assert!(report.passed(), "{:?}", report.failures());
}

#[test]
fn a_reference_that_counts_nothing_is_still_held_to_being_synced() {
    // Skipping the exchange count must not become a way past the drift gate. A
    // follower that never locked is exactly as untrustworthy as an unsynced
    // NTP clock, and has to be reported as such.
    let obs = observations(120, 47_999.4);
    let fit = fit_drift(&obs);
    let report = evaluate_gate(&uncounted_clock(false), &obs, fit, 48_000);
    assert!(!report.passed());
    assert!(
        report
            .failures()
            .iter()
            .any(|f| matches!(f, GateFailure::ClockNotSynced { .. }))
    );
    assert!(
        !report
            .failures()
            .iter()
            .any(|f| matches!(f, GateFailure::TooFewClockSamples { .. })),
        "there is no exchange count to complain about"
    );
}

#[test]
fn refuses_to_delete_the_raw_on_too_few_observations() {
    let obs = observations(MIN_OBSERVATIONS - 1, 47_999.4);
    let fit = fit_drift(&obs);
    let report = evaluate_gate(&synced_clock(), &obs, fit, 48_000);
    assert!(!report.passed());
    assert!(report.failures().iter().any(|f| matches!(
        f,
        GateFailure::TooFewObservations { got, required }
            if *got == MIN_OBSERVATIONS - 1 && *required == MIN_OBSERVATIONS
    )));
}

#[test]
fn exactly_the_minimum_observations_is_enough() {
    let obs = observations(MIN_OBSERVATIONS, 47_999.4);
    let fit = fit_drift(&obs);
    let report = evaluate_gate(&synced_clock(), &obs, fit, 48_000);
    assert!(report.passed(), "{:?}", report.failures());
}

#[test]
fn refuses_a_drift_no_crystal_could_have() {
    // 1000 ppm slow: an order of magnitude past any real oscillator.
    let obs = observations(120, 48_000.0 * (1.0 - 1000.0e-6));
    let fit = fit_drift(&obs);
    let report = evaluate_gate(&synced_clock(), &obs, fit, 48_000);
    assert!(!report.passed());
    assert!(
        report
            .failures()
            .iter()
            .any(|f| matches!(f, GateFailure::ImplausibleDrift { .. }))
    );
}

#[test]
fn the_drift_limit_is_a_boundary_not_a_suggestion() {
    let inside = observations(120, 48_000.0 * (1.0 - 199.0e-6));
    let outside = observations(120, 48_000.0 * (1.0 - 201.0e-6));
    let clock = synced_clock();
    assert!(
        evaluate_gate(&clock, &inside, fit_drift(&inside), 48_000).passed(),
        "199 ppm is a plausible, if poor, crystal"
    );
    assert!(
        !evaluate_gate(&clock, &outside, fit_drift(&outside), 48_000).passed(),
        "201 ppm is a bad fit, not a bad crystal"
    );
}

#[test]
fn refuses_to_delete_the_raw_when_the_fit_is_noisy() {
    // 20 ms of jitter: an NTP path nobody should be timestamping against.
    let obs = jittered(120, 47_999.4, 0.020);
    let fit = fit_drift(&obs).expect("a line");
    assert!(num(fit.residual_rms_s) > f64::from_bits(MAX_RESIDUAL_RMS_S));
    let report = evaluate_gate(&synced_clock(), &obs, Some(fit), 48_000);
    assert!(!report.passed());
    assert!(
        report
            .failures()
            .iter()
            .any(|f| matches!(f, GateFailure::NoisyFit { .. }))
    );
}

#[test]
fn a_merely_imperfect_path_still_passes() {
    // 1 ms of jitter is an ordinary internet NTP server, not a fault.
    let obs = jittered(300, 47_999.4, 0.001);
    let fit = fit_drift(&obs).expect("a line");
    let report = evaluate_gate(&synced_clock(), &obs, Some(fit), 48_000);
    assert!(report.passed(), "{:?}", report.failures());
}

#[test]
fn refuses_when_there_is_no_fit_at_all() {
    let report = evaluate_gate(&synced_clock(), &Vec::new(), None, 48_000);
    assert!(!report.passed());
    assert!(
        report
            .failures()
            .iter()
            .any(|f| matches!(f, GateFailure::NoUsableFit { observations: 0 }))
    );
}

#[test]
fn refuses_observations_bunched_into_too_short_a_window() {
    // 40 marks, but all inside one second: enough points, no leverage.
    let obs: Vec<_> = (0..40)
        .map(|k| DriftObservation {
            sample_index: k as u64 * 1_200,
            utc_unix_nanos: EPOCH + (k as f64 * 1_200.0 / 47_999.4 * 1.0e9).round() as i128,
        })
        .collect();
    let fit = fit_drift(&obs);
    let report = evaluate_gate(&synced_clock(), &obs, fit, 48_000);
    assert!(!report.passed());
    assert!(
        report
            .failures()
            .iter()
            .any(|f| matches!(f, GateFailure::SpanTooShort { .. }))
    );
}

#[test]
fn every_reason_is_reported_not_just_the_first() {
    let obs = observations(5, 48_000.0 * (1.0 - 1000.0e-6));
    let fit = fit_drift(&obs);
    let report = evaluate_gate(&clock_with(0), &obs, fit, 48_000);
    assert!(report.failures().len() >= 3, "{:?}", report.failures());
    let reason = report.reason().expect("a failed gate has a reason");
    assert!(reason.contains("clock never synced"), "{reason}");
    assert!(reason.contains("drift observations"), "{reason}");
}

// -- resampling -----------------------------------------------------------

#[test]
fn resampling_refuses_a_clip_too_short_to_trim_its_own_delay() {
    assert_eq!(
        check_resample(200, 2, wide(1.0001)),
        Err(ResampleProblem::TooShort { frames: 100 })
    );
}

#[test]
fn resampling_rejects_a_ragged_interleaved_buffer() {
    assert_eq!(
        check_resample(MIN_RESAMPLE_FRAMES * 2 + 1, 2, wide(1.0001)),
        Err(ResampleProblem::RaggedBuffer {
            samples: MIN_RESAMPLE_FRAMES * 2 + 1,
            channels: 2
        })
    );
}

#[test]
fn resampling_rejects_a_nonsense_ratio() {
    assert!(check_resample(MIN_RESAMPLE_FRAMES, 1, wide(0.0)).is_err());
    assert!(check_resample(MIN_RESAMPLE_FRAMES, 1, wide(f64::NAN)).is_err());
    assert!(check_resample(MIN_RESAMPLE_FRAMES, 1, wide(-1.0)).is_err());
}

#[test]
fn a_clip_that_can_be_resampled_is_counted_in_frames() {
    assert_eq!(
        check_resample(MIN_RESAMPLE_FRAMES * 2, 2, wide(1.0001)),
        Ok(MIN_RESAMPLE_FRAMES)
    );
    assert_eq!(
        check_resample(10, 0, wide(1.0)),
        Err(ResampleProblem::ZeroChannels)
    );
    assert!(matches!(
        check_resample(MIN_RESAMPLE_FRAMES, 1, wide(f64::INFINITY)),
        Err(ResampleProblem::BadRatio { .. })
    ));
}

// -- the whole job --------------------------------------------------------

/// Runs the decisions of a take whose raw capture holds `frames`, as if every step outside
/// succeeded; the audio comes back `grown` frames longer where it is resampled.
fn finalized(
    obs: &Vec<DriftObservation>,
    clock: &RefStatus,
    channels: u16,
    device_rate: u32,
    frames: u64,
    grown: u64,
) -> Outcome {
    let mut job = Finalizing::begin(obs, clock, channels, device_rate);
    let mut written = frames;
    if job.ratio().is_some() {
        job.resampling(Ok(()));
        written += grown;
    }
    let p = job.stamp(&provenance(channels, device_rate));
    let back = ReadBack {
        sample_rate: p.sample_rate,
        channels: p.channels,
        bits_per_sample: 24,
        frames: written,
    };
    job.verification(verify_written(&p, written, back));
    let removed = job.deletes_raw();
    job.outcome("rec.raw.wav".into(), removed, written, p)
}

#[test]
fn a_good_take_ships_corrected_and_the_raw_is_deleted() {
    let obs = observations(120, 47_999.4);
    let outcome = finalized(&obs, &synced_clock(), 2, 48_000, 48_000, 1);

    assert!(outcome.gate.passed(), "gate: {:?}", outcome.gate.failures());
    assert!(outcome.corrected());
    assert_eq!(outcome.raw_kept, None);

    assert_eq!(outcome.provenance.sample_rate, 48_000);
    assert!(outcome.provenance.resampled);
    let measured = num(outcome.provenance.measured_rate.expect("a measured rate"));
    assert!((measured - 47_999.4).abs() < 0.01, "measured {measured}");
    assert_eq!(outcome.frames_written, 48_001);
}

#[test]
fn a_failed_gate_keeps_the_raw_and_ships_unresampled_audio() {
    // Only five observations: nowhere near enough.
    let obs = observations(5, 47_999.4);
    let outcome = finalized(&obs, &synced_clock(), 2, 48_000, 48_000, 1);

    assert!(!outcome.gate.passed());
    assert!(!outcome.resampled);
    assert!(!outcome.raw_deleted);
    assert_eq!(outcome.raw_kept.as_deref(), Some("rec.raw.wav"));
    assert_eq!(outcome.frames_written, 48_000);

    // The fit is still reported, so the UI can show what was rejected.
    assert!(outcome.fit.is_some());
    assert!(!outcome.provenance.resampled);
    assert_eq!(
        outcome.provenance.sample_rate, 48_000,
        "the device's own rate, uncorrected"
    );
}

#[test]
fn an_uncorrected_non_48k_take_is_labelled_with_the_rate_it_really_has() {
    // No observations at all, so nothing can be corrected.
    let outcome = finalized(&Vec::new(), &synced_clock(), 1, 44_100, 44_100, 1);
    assert!(!outcome.resampled);
    assert_eq!(
        outcome.provenance.sample_rate, 44_100,
        "claiming 48000 would make the sample count lie about time"
    );
    assert!(outcome.raw_kept.is_some());
}

#[test]
fn a_take_with_no_clock_is_still_shipped_rather_than_lost() {
    let outcome = finalized(
        &observations(120, 47_999.4),
        &clock_with(0),
        2,
        48_000,
        12_000,
        1,
    );
    assert!(!outcome.gate.passed());
    assert!(outcome.raw_kept.is_some());
    assert_eq!(outcome.frames_written, 12_000);
}

#[test]
fn multichannel_takes_survive_the_round_trip() {
    let outcome = finalized(
        &observations(120, 47_999.4),
        &synced_clock(),
        4,
        48_000,
        24_000,
        1,
    );
    assert!(outcome.corrected(), "gate: {:?}", outcome.gate.failures());
    assert_eq!(outcome.provenance.channels, 4);
}

#[test]
fn a_resampler_that_refuses_costs_the_correction_not_the_take() {
    let obs = observations(120, 47_999.4);
    let mut job = Finalizing::begin(&obs, &synced_clock(), 2, 48_000);
    assert_eq!(job.ratio(), Some(job.fit.unwrap().drift_ratio));
    job.resampling(Err("too short".into()));
    assert!(!job.resampled);
    assert!(!job.deletes_raw());
    assert!(matches!(
        job.gate.failures()[0],
        GateFailure::OutputNotVerified { .. }
    ));
    assert_eq!(
        job.gate.reason().unwrap(),
        "corrected file failed verification: too short"
    );
    assert_eq!(
        job.gate.short_reason(),
        Some("could not verify the correction")
    );
}

#[test]
fn a_file_that_reads_back_wrong_keeps_the_raw() {
    let obs = observations(120, 47_999.4);
    let mut job = Finalizing::begin(&obs, &synced_clock(), 2, 48_000);
    job.resampling(Ok(()));
    let p = job.stamp(&provenance(2, 48_000));
    let good = ReadBack {
        sample_rate: 48_000,
        channels: 2,
        bits_per_sample: 24,
        frames: 100,
    };
    assert_eq!(verify_written(&p, 100, good), Ok(()));
    assert_eq!(
        verify_written(&p, 100, ReadBack { frames: 99, ..good }),
        Err("wrote 100 frames but read back 99".into())
    );
    assert_eq!(
        verify_written(&p, 100, ReadBack { sample_rate: 44_100, ..good }),
        Err("wrote 48000 Hz but read back 44100 Hz".into())
    );
    assert_eq!(
        verify_written(&p, 100, ReadBack { channels: 1, ..good }),
        Err("wrote 2 channels but read back 1".into())
    );
    assert_eq!(
        verify_written(&p, 100, ReadBack { bits_per_sample: 16, ..good }),
        Err("wrote 24-bit but read back 16-bit".into())
    );
    job.verification(Err("wrote 100 frames but read back 99".into()));
    assert!(!job.deletes_raw());
}

#[test]
fn writing_needs_whole_frames() {
    assert_eq!(check_write(12, 2), Ok(6));
    assert_eq!(
        check_write(13, 2),
        Err("interleaved buffer of 13 samples is not a whole number of 2-channel frames".into())
    );
    assert_eq!(
        check_write(0, 0),
        Err("cannot write a zero-channel file".into())
    );
}

#[test]
fn a_truncated_raw_take_yields_the_frames_that_are_there() {
    assert_eq!(RawReading::start(0, 48_000, 10), Err(RawProblem::ZeroChannels));
    assert_eq!(RawReading::start(2, 0, 10), Err(RawProblem::ZeroRate));
    assert_eq!(
        RawReading::start(2, 48_000, u64::MAX),
        Err(RawProblem::ImplausiblyLarge)
    );
    assert_eq!(RawProblem::ZeroRate.to_text(), " declares a zero sample rate");

    let mut r = RawReading::start(2, 48_000, 20_000).unwrap();
    assert_eq!(r.block_end(), 16_384 * 2);
    assert!(r.advance(16_384));
    assert_eq!(r.block_end(), 40_000);
    // The file ends here, short of what it declared.
    assert!(!r.advance(0));
    assert_eq!(r.filled, 16_384 * 2);
}

#[test]
fn the_failures_read_as_sentences() {
    let f = GateFailure::SpanTooShort {
        span_s: wide(7.25),
        required_s: wide(20.0),
    };
    // A quarter is a tie in the first decimal, and goes to the even digit.
    assert_eq!(f.to_text(), format!("observations span only {:.1} s, 20 s needed", 7.25));
    let f = GateFailure::NoisyFit {
        residual_rms_s: wide(0.0123),
        limit_s: wide(0.005),
    };
    assert_eq!(
        f.to_text(),
        "fit residual 12.30 ms exceeds the 5.00 ms limit"
    );
    let f = GateFailure::ImplausibleDrift {
        ppm: wide(-1000.04),
        limit_ppm: wide(200.0),
    };
    assert_eq!(
        f.to_text(),
        "implied drift -1000.0 ppm exceeds the 200 ppm limit"
    );
    let f = GateFailure::TooFewClockSamples {
        accepted: 2,
        required: 3,
    };
    assert_eq!(f.to_text(), "only 2 accepted NTP exchanges, 3 needed");
}

#[test]
fn the_date_does_not_bend_the_fit() {
    let early = observations(120, 47_999.4);
    let span: i128 = 31_557_600_000_000_000_000;
    let late: Vec<DriftObservation> = early
        .iter()
        .map(|o| DriftObservation {
            sample_index: o.sample_index,
            utc_unix_nanos: o.utc_unix_nanos + span,
        })
        .collect();
    let (a, b) = (fit_drift(&early).unwrap(), fit_drift(&late).unwrap());
    assert_eq!(b.t0_unix_nanos, a.t0_unix_nanos + span);
    assert_eq!(b.measured_rate, a.measured_rate);
    assert_eq!(b.residual_rms_s, a.residual_rms_s);
}

#[test]
fn a_span_that_is_no_number_does_not_pass_the_gate() {
    let obs = vec![
        DriftObservation {
            sample_index: 0,
            utc_unix_nanos: 0
        };
        30
    ];
    let fit = DriftFit {
        seconds_per_sample: wide(1.0 / 48_000.0),
        measured_rate: wide(48_000.0),
        drift_ratio: wide(1.0),
        residual_rms_s: wide(0.0),
        points: 30,
        span_samples: 0,
        span_seconds: wide(f64::NAN),
        t0_unix_nanos: 0,
    };
    let report = evaluate_gate(&synced_clock(), &obs, Some(fit), 48_000);
    assert!(!report.passed());
    assert!(matches!(
        report.failures()[..],
        [GateFailure::SpanTooShort { .. }]
    ));
    // Twenty seconds are just enough.
    let enough = DriftFit {
        span_seconds: wide(20.0),
        ..fit
    };
    assert!(evaluate_gate(&synced_clock(), &obs, Some(enough), 48_000).passed());
}

#[test]
fn a_raw_that_cannot_be_removed_is_reported_as_kept() {
    let obs = observations(120, 47_999.4);
    let mut job = Finalizing::begin(&obs, &synced_clock(), 2, 48_000);
    job.resampling(Ok(()));
    job.verification(Ok(()));
    assert!(job.deletes_raw());
    let p = job.stamp(&provenance(2, 48_000));
    let outcome = job.outcome("rec.raw.wav".into(), false, 10, p);
    assert!(outcome.resampled);
    assert!(outcome.gate.passed());
    assert!(!outcome.raw_deleted);
    assert!(!outcome.corrected());
    assert_eq!(outcome.raw_kept.as_deref(), Some("rec.raw.wav"));
    assert_eq!(outcome.frames_written, 10);
}

#[test]
fn a_removal_that_was_not_allowed_does_not_count() {
    let job = Finalizing::begin(&Vec::new(), &synced_clock(), 2, 48_000);
    let p = job.stamp(&provenance(2, 48_000));
    let outcome = job.outcome("rec.raw.wav".into(), true, 10, p);
    assert!(!outcome.raw_deleted);
    assert_eq!(outcome.raw_kept.as_deref(), Some("rec.raw.wav"));
}

#[test]
fn the_date_does_not_bend_the_fit_at_the_ends_of_time() {
    let early = observations(60, 48_001.2);
    let span = i128::MAX - early[59].utc_unix_nanos;
    let late: Vec<DriftObservation> = early
        .iter()
        .map(|o| DriftObservation {
            sample_index: o.sample_index,
            utc_unix_nanos: o.utc_unix_nanos + span,
        })
        .collect();
    let (a, b) = (fit_drift(&early).unwrap(), fit_drift(&late).unwrap());
    assert_eq!(b.t0_unix_nanos, a.t0_unix_nanos + span);
    assert_eq!(b.seconds_per_sample, a.seconds_per_sample);
    assert_eq!(b.span_seconds, a.span_seconds);
}

#[test]
fn time_running_forwards_is_a_rate_however_unevenly() {
    // Marks that bunch, pause and jump, on both axes, but never go back.
    let obs: Vec<DriftObservation> = [(0u64, 0i128), (1, 9), (1, 9), (500_000, 10), (500_001, 900)]
        .into_iter()
        .map(|(i, t)| DriftObservation {
            sample_index: 7 + i,
            utc_unix_nanos: EPOCH + t,
        })
        .collect();
    let fit = fit_drift(&obs).expect("a fit");
    assert!(num(fit.seconds_per_sample) > 0.0);
    assert!(num(fit.measured_rate) > 0.0 && num(fit.measured_rate).is_finite());
    // The same with the clock running the other way.
    let back: Vec<DriftObservation> = obs
        .iter()
        .map(|o| DriftObservation {
            sample_index: o.sample_index,
            utc_unix_nanos: 2 * EPOCH - o.utc_unix_nanos,
        })
        .collect();
    assert!(fit_drift(&back).is_none());
    // The order of the list does not matter.
    for k in 0..obs.len() {
        let (mut a, mut b) = (obs.clone(), back.clone());
        a.rotate_left(k);
        b.rotate_left(k);
        a.swap(1, 3);
        b.swap(1, 3);
        assert!(num(fit_drift(&a).expect("a fit").measured_rate) > 0.0);
        assert!(fit_drift(&b).is_none());
    }
}

#[test]
fn observations_at_one_sample_give_no_fit() {
    let obs: Vec<DriftObservation> = (0..40)
        .map(|k| DriftObservation {
            sample_index: u64::MAX,
            utc_unix_nanos: EPOCH + k,
        })
        .collect();
    assert!(fit_drift(&obs).is_none());
}
