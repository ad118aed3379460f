//! Input latency and the operator's trim.

use syncrec::float::F64;
use syncrec::latency::{
    reference_time_to_duration, InputLatency, LatencyCorrection, LatencySource, StreamTiming,
    MAX_TRIM_MS,
};
use syncrec::platform::Platform;
use syncrec::time::Duration;

fn wide(x: f64) -> F64 {
    F64::from_bits(x.to_bits())
}

fn num(x: F64) -> f64 {
    f64::from_bits(x.to_bits())
}

fn max_trim() -> f64 {
    f64::from_bits(MAX_TRIM_MS)
}

fn ms(n: u128) -> Duration {
    Duration { nanos: n * 1_000_000 }
}

/// Platform figure alone, no trim, is passed through unchanged.
#[test]
fn platform_latency_with_no_trim_is_the_platform_figure() {
    let c =
        LatencyCorrection::platform_only(InputLatency::measured(Duration { nanos: 7_500_000 }));
    assert_eq!(c.total_nanos(), 7_500_000);
    assert!((num(c.total_millis()) - 7.5).abs() < 1e-9);
}

/// A positive trim adds to the platform figure; both mean "earlier".
#[test]
fn positive_trim_adds_to_the_platform_figure() {
    let c = LatencyCorrection::new(InputLatency::measured(ms(10)), wide(2.5));
    assert_eq!(c.total_nanos(), 12_500_000);
}

/// A negative trim subtracts, because over-correction is a real failure mode the
/// operator must be able to undo.
#[test]
fn negative_trim_reduces_the_platform_figure() {
    let c = LatencyCorrection::new(InputLatency::measured(ms(10)), wide(-4.0));
    assert_eq!(c.total_nanos(), 6_000_000);
}

/// A trim more negative than the platform figure yields a negative total rather
/// than being clamped at zero: "you are subtracting too much" must be expressible.
#[test]
fn trim_more_negative_than_platform_latency_gives_a_negative_total() {
    let c = LatencyCorrection::new(InputLatency::measured(ms(3)), wide(-8.0));
    assert_eq!(c.total_nanos(), -5_000_000);
    assert!(num(c.total_seconds()) < 0.0);
}

/// A negative total moves the timestamp *later*, which is the whole point of
/// allowing it.
#[test]
fn negative_total_shifts_the_timestamp_forward_in_time() {
    let c = LatencyCorrection::new(InputLatency::unavailable(), wide(-5.0));
    let t0: i128 = 1_700_000_000_000_000_000;
    assert_eq!(c.apply(t0), t0 + 5_000_000);
}

/// A positive total moves the timestamp earlier, since the sound predates the buffer.
#[test]
fn positive_total_shifts_the_timestamp_backward_in_time() {
    let c = LatencyCorrection::new(InputLatency::measured(ms(12)), wide(0.0));
    let t0: i128 = 1_700_000_000_000_000_000;
    assert_eq!(c.apply(t0), t0 - 12_000_000);
}

/// Applying a zero correction is exactly the identity, not merely close to it.
#[test]
fn zero_correction_leaves_the_timestamp_bit_identical() {
    let c = LatencyCorrection::platform_only(InputLatency::already_corrected());
    let t0: i128 = -12_345;
    assert_eq!(c.apply(t0), t0);
    assert_eq!(c.total_nanos(), 0);
}

/// A NaN from a half-typed UI field must not poison the timestamp.
#[test]
fn non_finite_trim_is_treated_as_zero() {
    for bad in [f64::NAN, f64::INFINITY, f64::NEG_INFINITY] {
        let c = LatencyCorrection::new(InputLatency::measured(ms(5)), wide(bad));
        assert_eq!(num(c.trim_ms()), 0.0, "trim {bad} should sanitise to zero");
        assert_eq!(c.total_nanos(), 5_000_000);
    }
}

/// An absurd trim is clamped rather than accepted, in both directions.
#[test]
fn trim_is_clamped_to_the_typo_guard_in_both_directions() {
    let high = LatencyCorrection::new(InputLatency::unavailable(), wide(5.0e9));
    assert_eq!(num(high.trim_ms()), max_trim());
    let low = LatencyCorrection::new(InputLatency::unavailable(), wide(-5.0e9));
    assert_eq!(num(low.trim_ms()), -max_trim());
}

/// The clamped extremes still convert to a sane signed nanosecond count.
#[test]
fn clamped_trim_converts_without_overflow() {
    let c = LatencyCorrection::new(InputLatency::unavailable(), wide(-max_trim()));
    assert_eq!(c.total_nanos(), -10_000_000_000);
}

/// `AlreadyCorrected` is a claim about the world; `Unavailable` is an admission.
/// Both carry zero, so only the tag can tell them apart.
#[test]
fn already_corrected_is_trustworthy_but_unavailable_is_not() {
    assert_eq!(InputLatency::already_corrected().extra, Duration { nanos: 0 });
    assert_eq!(InputLatency::unavailable().extra, Duration { nanos: 0 });
    assert!(LatencySource::AlreadyCorrected.is_trustworthy());
    assert!(LatencySource::Measured.is_trustworthy());
    assert!(!LatencySource::Unavailable.is_trustworthy());
}

/// The two zero-valued sources must not describe themselves identically, or the
/// sidecar loses the distinction the tag exists to preserve.
#[test]
fn zero_sources_describe_themselves_distinguishably() {
    let corrected = InputLatency::already_corrected().describe();
    let unavailable = InputLatency::unavailable().describe();
    assert_ne!(corrected, unavailable);
    assert!(corrected.contains("already corrected"));
    assert!(unavailable.contains("uncorrected"));
}

/// Rounding is to the nearest nanosecond, so sub-nanosecond trim fractions do not
/// silently truncate toward zero.
#[test]
fn trim_rounds_to_nearest_nanosecond() {
    let c = LatencyCorrection::new(InputLatency::unavailable(), wide(0.000_000_6));
    assert_eq!(c.total_nanos(), 1);
    let c = LatencyCorrection::new(InputLatency::unavailable(), wide(-0.000_000_6));
    assert_eq!(c.total_nanos(), -1);
}

/// Querying must never panic and never take an unbounded amount of trust: on any
/// platform the result is one of the three defined sources.
#[test]
fn query_always_returns_a_well_formed_result() {
    let timings = [
        None,
        Some(StreamTiming { latency_ticks: 100_000, default_period_ticks: 100_000 }),
        Some(StreamTiming { latency_ticks: -1, default_period_ticks: 0 }),
        Some(StreamTiming { latency_ticks: i64::MAX, default_period_ticks: i64::MAX }),
    ];
    for platform in [Platform::MacOs, Platform::Windows, Platform::Other] {
        for timing in timings {
            let l = InputLatency::query(platform, timing);
            assert!(matches!(
                l.source,
                LatencySource::AlreadyCorrected
                    | LatencySource::Measured
                    | LatencySource::Unavailable
            ));
        }
    }
}

/// On macOS the answer must stay zero and stay tagged `AlreadyCorrected`. If this
/// ever fails, someone has added a second subtraction on top of the backend's.
#[test]
fn macos_reports_no_additional_correction_because_cpal_already_applied_it() {
    let l = InputLatency::query(Platform::MacOs, None);
    assert_eq!(l.extra, Duration { nanos: 0 });
    assert_eq!(l.source, LatencySource::AlreadyCorrected);
}

/// A hundred-nanosecond tick count is a span; a negative one is none.
#[test]
fn ticks_are_a_hundred_nanoseconds_each() {
    assert_eq!(reference_time_to_duration(100_000), Duration { nanos: 10_000_000 });
    assert_eq!(reference_time_to_duration(0), Duration { nanos: 0 });
    assert_eq!(reference_time_to_duration(-5), Duration { nanos: 0 });
}

#[test]
fn a_measured_stream_is_trustworthy() {
    let l = InputLatency::query(
        Platform::Windows,
        Some(StreamTiming { latency_ticks: 100_000, default_period_ticks: 100_000 }),
    );
    assert_eq!(l.source, LatencySource::Measured);
    assert!(l.extra.nanos > 0);
    let c = LatencyCorrection::new(l, wide(0.0));
    assert!(c.platform_is_trustworthy());
    assert!(c.describe().contains("ms"), "{}", c.describe());
    let unknown = InputLatency::query(Platform::Windows, None);
    assert_eq!(unknown.source, LatencySource::Unavailable);
}
