//! Level metering.

use syncrec::audio::meters::{
    dbfs_to_fraction, to_dbfs, Ballistics, Meters, ATTACK_TAU_S, FLOOR_DBFS, RELEASE_TAU_S,
};
use syncrec::float::F32;

fn single(x: f32) -> F32 {
    F32::from_bits(x.to_bits())
}

fn floor() -> f32 {
    f32::from_bits(FLOOR_DBFS)
}

fn dbfs(mag: f32) -> f32 {
    f32::from_bits(to_dbfs(single(mag), single(mag.log10())).to_bits())
}

fn fraction(db: f32) -> f32 {
    f32::from_bits(dbfs_to_fraction(single(db)).to_bits())
}

/// The smoothing factors of a block.
fn ballistics(m: &Meters, frames: usize) -> Ballistics {
    let secs = m.block_secs(frames);
    let alpha = |tau: u32| {
        let tau = F32::from_bits(tau);
        let power = f32::from_bits(Meters::decay_exponent(secs, tau).to_bits());
        Meters::alpha(tau, single(power.exp()))
    };
    Ballistics {
        attack: alpha(ATTACK_TAU_S),
        release: alpha(RELEASE_TAU_S),
    }
}

fn ingest(m: &mut Meters, samples: &[f32], channels: usize) {
    let b = ballistics(m, samples.len() / channels);
    let samples: Vec<F32> = samples.iter().map(|x| single(*x)).collect();
    m.ingest(&samples, channels, b);
}

fn peaks_of(m: &mut Meters) -> Vec<f32> {
    m.take_peaks()
        .iter()
        .map(|x| f32::from_bits(x.to_bits()))
        .collect()
}

#[test]
fn peak_is_the_max_magnitude_across_the_buffer() {
    let mut m = Meters::new(2, 48_000);
    // Interleaved L,R. Left peaks at 0.5, right at -0.8 (magnitude 0.8).
    ingest(&mut m, &[0.1, -0.2, 0.5, -0.8, -0.3, 0.4], 2);
    let peaks = peaks_of(&mut m);
    assert!((peaks[0] - 0.5).abs() < 1e-6, "{peaks:?}");
    assert!((peaks[1] - 0.8).abs() < 1e-6, "{peaks:?}");
}

#[test]
fn peak_holds_across_buffers_until_read() {
    let mut m = Meters::new(1, 48_000);
    ingest(&mut m, &[0.9], 1);
    ingest(&mut m, &[0.1], 1);
    let mut peaks = peaks_of(&mut m);
    assert!(
        (peaks[0] - 0.9).abs() < 1e-6,
        "peak must survive a quiet buffer"
    );
    // Reading resets it.
    peaks = peaks_of(&mut m);
    assert_eq!(peaks[0], 0.0);
}

/// Feed `secs` of a constant-magnitude signal in `block` sized chunks.
fn feed(m: &mut Meters, magnitude: f32, secs: f32, block: usize) {
    let buf: Vec<f32> = (0..block)
        .map(|i| if i % 2 == 0 { magnitude } else { -magnitude })
        .collect();
    let blocks = (secs * 48_000.0 / block as f32).round() as usize;
    for _ in 0..blocks {
        ingest(m, &buf, 1);
    }
}

fn rms_of(m: &Meters) -> f32 {
    f32::from_bits(m.rms()[0].to_bits())
}

#[test]
fn rms_of_a_full_scale_square_settles_at_one() {
    let mut m = Meters::new(1, 48_000);
    // Well past the release time constant, so the integrator has converged.
    feed(&mut m, 1.0, 2.0, 512);
    assert!((rms_of(&m) - 1.0).abs() < 1e-3, "{}", rms_of(&m));
}

#[test]
fn a_single_buffer_does_not_slam_the_bar_to_full_scale() {
    // The bug this fixes: one ~10 ms buffer used to set the displayed level
    // outright, so the meter flickered at the callback rate.
    let mut m = Meters::new(1, 48_000);
    ingest(&mut m, &[1.0; 512], 1);
    let after_one = rms_of(&m);
    assert!(
        after_one < 0.7,
        "one buffer should move the bar part way, not all the way: {after_one}"
    );
    assert!(after_one > 0.0, "it should still move");
}

#[test]
fn the_bar_rises_at_the_attack_time_constant() {
    let mut m = Meters::new(1, 48_000);
    // One time constant of a step reaches 1-1/e of the way, in amplitude.
    feed(&mut m, 1.0, f32::from_bits(ATTACK_TAU_S), 64);
    let expected = 1.0 - (-1.0f32).exp();
    assert!(
        (rms_of(&m) - expected).abs() < 0.02,
        "{} vs {expected}",
        rms_of(&m)
    );
}

#[test]
fn the_tail_decays_linearly_in_db_not_as_a_square_root() {
    // Regression: smoothing power instead of amplitude halved the decay rate in
    // dB, so a second of silence after a loud passage still showed a bar.
    let mut m = Meters::new(1, 48_000);
    feed(&mut m, 1.0, 1.0, 512);
    feed(&mut m, 0.0, f32::from_bits(RELEASE_TAU_S), 64);
    // One time constant of decay is 1/e in amplitude, i.e. -8.7 dB.
    let db = dbfs(rms_of(&m));
    assert!(
        (db + 8.686).abs() < 0.5,
        "one release constant should be -8.7 dB, got {db}"
    );
}

#[test]
fn the_bar_reaches_the_floor_within_about_a_second_of_silence() {
    let mut m = Meters::new(1, 48_000);
    feed(&mut m, 1.0, 1.0, 512);
    feed(&mut m, 0.0, 1.5, 512);
    assert_eq!(
        dbfs(rms_of(&m)),
        floor(),
        "a meter that hangs after the sound stops reads as broken"
    );
}

#[test]
fn it_falls_more_slowly_than_it_rises() {
    let mut rise = Meters::new(1, 48_000);
    feed(&mut rise, 1.0, 0.05, 64);
    let risen = rms_of(&rise);

    let mut fall = Meters::new(1, 48_000);
    feed(&mut fall, 1.0, 2.0, 64);
    feed(&mut fall, 0.0, 0.05, 64);
    let fallen_from_full = rms_of(&fall);

    // In 50 ms it climbs most of the way up but has barely started coming down.
    assert!(risen > 0.7, "attack too slow: {risen}");
    assert!(fallen_from_full > 0.6, "release too fast: {fallen_from_full}");
}

#[test]
fn ballistics_do_not_depend_on_the_devices_buffer_size() {
    // The whole reason alpha is derived from block duration. A device handing
    // us 64-frame buffers must meter identically to one handing us 2048.
    let mut small = Meters::new(1, 48_000);
    let mut large = Meters::new(1, 48_000);
    feed(&mut small, 0.5, 0.25, 64);
    feed(&mut large, 0.5, 0.25, 2048);
    let (a, b) = (rms_of(&small), rms_of(&large));
    assert!((a - b).abs() < 0.01, "64-frame {a} vs 2048-frame {b}");
}

#[test]
fn silence_eventually_reads_as_silence() {
    let mut m = Meters::new(1, 48_000);
    feed(&mut m, 1.0, 1.0, 512);
    feed(&mut m, 0.0, 3.0, 512);
    assert!(rms_of(&m) < 1e-4, "{}", rms_of(&m));
}

#[test]
fn clip_is_sticky_until_cleared() {
    let mut m = Meters::new(1, 48_000);
    ingest(&mut m, &[1.0], 1);
    assert!(m.clipped(0));
    ingest(&mut m, &[0.0], 1);
    assert!(m.clipped(0), "clip indicator must latch");
    m.clear_clip();
    assert!(!m.clipped(0));
}

#[test]
fn just_below_full_scale_does_not_clip() {
    let mut m = Meters::new(1, 48_000);
    ingest(&mut m, &[0.999], 1);
    assert!(!m.clipped(0));
}

#[test]
fn reset_clears_everything_a_take_should_not_inherit() {
    let mut m = Meters::new(1, 48_000);
    ingest(&mut m, &[1.0], 1);
    m.note_overrun();
    assert!(m.clipped(0));
    assert_eq!(m.overruns(), 1);

    m.reset();

    assert!(!m.clipped(0), "a clip while monitoring is not a clip in the take");
    assert_eq!(m.overruns(), 0);
    let peaks = peaks_of(&mut m);
    assert_eq!(peaks[0], 0.0);
}

#[test]
fn dbfs_landmarks() {
    assert!((dbfs(1.0) - 0.0).abs() < 1e-4);
    assert!((dbfs(0.5) + 6.0206).abs() < 1e-3);
    assert_eq!(dbfs(0.0), floor());
    // Below the floor clamps rather than running to -inf.
    assert_eq!(dbfs(1e-12), floor());
}

#[test]
fn meter_fraction_spans_floor_to_full_scale() {
    assert_eq!(fraction(floor()), 0.0);
    assert_eq!(fraction(0.0), 1.0);
    assert!((fraction(floor() / 2.0) - 0.5).abs() < 1e-6);
}

#[test]
fn ingest_tolerates_a_ragged_buffer() {
    let mut m = Meters::new(2, 48_000);
    // Five samples across two channels: the trailing partial frame is ignored
    // rather than read out of bounds.
    ingest(&mut m, &[0.1, 0.2, 0.3, 0.4, 0.5], 2);
    let peaks = peaks_of(&mut m);
    assert!((peaks[0] - 0.3).abs() < 1e-6, "{peaks:?}");
    assert!((peaks[1] - 0.4).abs() < 1e-6, "{peaks:?}");
}

#[test]
fn one_channels_peak_can_be_taken_alone() {
    let mut m = Meters::new(2, 48_000);
    ingest(&mut m, &[0.25, 0.5], 2);
    assert_eq!(m.take_peak(1), single(0.5));
    assert_eq!(m.take_peak(1), single(0.0));
    assert_eq!(m.take_peak(7), single(0.0));
    assert_eq!(peaks_of(&mut m), [0.25, 0.0]);
}

#[test]
fn a_zero_rate_is_taken_for_one() {
    let m = Meters::new(1, 0);
    assert_eq!(m.sample_rate, 1);
    assert_eq!(m.channels(), 1);
}

#[test]
fn channels_without_a_meter_are_not_looked_at() {
    let mut m = Meters::new(1, 48_000);
    ingest(&mut m, &[0.1, 0.9], 2);
    assert_eq!(peaks_of(&mut m), [0.1]);
    assert!(!m.clipped(5));
}

#[test]
fn a_louder_level_never_reads_lower() {
    let mut last = 0.0;
    let mut db = -80.0f32;
    while db < 20.0 {
        let here = fraction(db);
        assert!(here >= last && (0.0..=1.0).contains(&here), "{db} reads {here}");
        if db >= 0.0 {
            assert_eq!(here, 1.0);
        }
        last = here;
        db += 0.037;
    }
    assert_eq!(fraction(f32::MAX), 1.0);
    assert_eq!(fraction(f32::MIN), 0.0);
}
