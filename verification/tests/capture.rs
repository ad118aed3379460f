//! The capture path and the choice of a device.

use syncrec::audio::capture::{build, CallbackCtx, Rings, DEFAULT_MAX_FRAMES, RING_SECONDS};
use syncrec::audio::meters::Ballistics;
use syncrec::audio::session::{drain_audio, drain_marks, whole_frames};
use syncrec::audio::{
    negotiate, sort_devices, supported_capture_format, DeviceChoice, Negotiated, SampleFormat,
    StreamShape, SupportedRange, TARGET_RATE,
};
use syncrec::float::F32;

fn single(x: f32) -> F32 {
    F32::from_bits(x.to_bits())
}

fn samples(v: &[f32]) -> Vec<F32> {
    v.iter().map(|x| single(*x)).collect()
}

fn steady() -> Ballistics {
    Ballistics {
        attack: single(0.5),
        release: single(0.1),
    }
}

fn ctx(channels: usize, mark_every: u64) -> (CallbackCtx, Rings) {
    CallbackCtx::new(channels, mark_every, 48_000, 4096, 64, 4096)
}

fn drained(rings: &mut Rings, channels: u16) -> Vec<f32> {
    let mut scratch = vec![0u32; 4096];
    let n = drain_audio(&mut rings.audio, &mut scratch, channels);
    scratch[..n].iter().map(|b| f32::from_bits(*b)).collect()
}

#[test]
fn audio_reaches_the_ring_in_order() {
    let (mut ctx, mut rings) = ctx(2, 1000);
    assert!(ctx.on_data(&samples(&[0.1, 0.2, 0.3, 0.4]), 0, steady()));
    assert_eq!(drained(&mut rings, 2), vec![0.1, 0.2, 0.3, 0.4]);
}

#[test]
fn the_first_callback_anchors_frame_zero() {
    let (mut ctx, mut rings) = ctx(1, 48_000);
    ctx.on_data(&samples(&[0.0; 128]), 12_345, steady());
    let marks = drain_marks(&mut rings.marks);
    assert_eq!(
        marks[0].frame_index, 0,
        "the anchor must be the very first frame"
    );
    assert_eq!(marks[0].capture_nanos, 12_345);
}

#[test]
fn marks_are_throttled_to_the_requested_interval() {
    // One mark per 1000 frames, fed 128 frames at a time.
    let (mut ctx, mut rings) = ctx(1, 1000);
    for i in 0..40u128 {
        ctx.on_data(&samples(&[0.0; 128]), i * 1000, steady());
    }
    let got = drain_marks(&mut rings.marks);
    // 40 * 128 = 5120 frames. A mark fires on the first callback at or past each
    // threshold, so: 0, 1024, 2048, 3072, 4096. The final callback begins at
    // 4992, short of the next threshold at 5096, so there is no sixth mark.
    assert_eq!(got.len(), 5, "{got:?}");
    assert_eq!(got[0].frame_index, 0);
    for w in got.windows(2) {
        let step = w[1].frame_index - w[0].frame_index;
        assert!((1000..1128).contains(&step), "step {step} out of range");
    }
}

#[test]
fn frame_indices_track_the_number_of_frames_not_samples() {
    // Four channels: 512 samples is 128 frames.
    let (mut ctx, _rings) = ctx(4, 1_000_000);
    ctx.on_data(&samples(&[0.0; 512]), 0, steady());
    assert_eq!(ctx.frames_seen, 128);
}

#[test]
fn a_full_ring_counts_an_overrun_and_keeps_going() {
    let (mut ctx, mut rings) = CallbackCtx::new(1, 1_000_000, 48_000, 4, 64, 64);
    // Eight samples will not fit in a ring of four.
    assert!(!ctx.on_data(&samples(&[0.5; 8]), 0, steady()));
    assert_eq!(ctx.meters.overruns(), 1);
    // The frame counter must still advance, or the time base would silently skew.
    assert_eq!(ctx.frames_seen, 8);
    assert_eq!(drained(&mut rings, 1), Vec::<f32>::new());
    // Four do, and what comes out is what went in.
    assert!(ctx.on_data(&samples(&[0.25; 4]), 0, steady()));
    assert_eq!(ctx.meters.overruns(), 1);
    assert_eq!(drained(&mut rings, 1), vec![0.25; 4]);
}

#[test]
fn meters_see_the_audio() {
    let (mut ctx, _rings) = ctx(2, 1_000_000);
    ctx.on_data(&samples(&[0.25, -0.75, 0.1, 0.2]), 0, steady());
    let peaks: Vec<f32> = ctx
        .meters
        .take_peaks()
        .iter()
        .map(|p| f32::from_bits(p.to_bits()))
        .collect();
    assert!((peaks[0] - 0.25).abs() < 1e-6, "{peaks:?}");
    assert!((peaks[1] - 0.75).abs() < 1e-6, "{peaks:?}");
}

#[test]
fn a_ragged_buffer_is_ignored_rather_than_miscounted() {
    let (mut ctx, _rings) = ctx(4, 1_000_000);
    // Fewer samples than one full frame.
    ctx.on_data(&samples(&[0.0; 2]), 0, steady());
    assert_eq!(ctx.frames_seen, 0);
}

#[test]
fn a_mark_queue_that_is_full_drops_the_mark_and_keeps_the_audio() {
    let (mut ctx, mut rings) = CallbackCtx::new(1, 1, 48_000, 64, 2, 64);
    for i in 0..4u128 {
        assert!(ctx.on_data(&samples(&[0.5]), i, steady()));
    }
    let marks = drain_marks(&mut rings.marks);
    assert_eq!(marks.len(), 2);
    assert_eq!(marks[1].frame_index, 1);
    assert_eq!(drained(&mut rings, 1).len(), 4);
}

#[test]
fn draining_takes_whole_frames_only() {
    let (mut ctx, mut rings) = ctx(1, 1000);
    ctx.on_data(&samples(&[0.1, 0.2, 0.3, 0.4, 0.5]), 0, steady());
    // Read as stereo, the odd sample stays in the ring for the next pass.
    assert_eq!(drained(&mut rings, 2), vec![0.1, 0.2, 0.3, 0.4]);
    assert_eq!(drained(&mut rings, 1), vec![0.5]);
    assert_eq!(whole_frames(5, 2), 2);
}

#[test]
fn a_stream_is_planned_before_it_starts() {
    let n = Negotiated {
        format: SampleFormat::SingleFloat,
        rate: 48_000,
        channels: 2,
        range: None,
        native_target_rate: true,
    };
    let p = build(&n, Some(256)).unwrap();
    assert_eq!(p.ring_len, 48_000 * RING_SECONDS * 2);
    assert_eq!(p.mark_every, 48_000);
    assert_eq!(p.scratch_len, 512);
    let p = build(&n, None).unwrap();
    assert_eq!(p.scratch_len, DEFAULT_MAX_FRAMES * 2);
    let none = Negotiated { channels: 0, ..n };
    assert_eq!(
        build(&none, None).unwrap_err(),
        "device reports zero input channels"
    );
}

fn choice(name: &str, is_default: bool) -> DeviceChoice {
    DeviceChoice {
        id: name.into(),
        name: name.into(),
        is_default,
    }
}

#[test]
fn device_choice_marks_the_default() {
    assert_eq!(
        choice("Scarlett 2i2", true).to_text(),
        "Scarlett 2i2 (default)"
    );
    assert_eq!(choice("Scarlett 2i2", false).to_text(), "Scarlett 2i2");
}

#[test]
fn devices_sort_default_first_then_alphabetically() {
    let v = sort_devices(vec![
        choice("Zoom", false),
        choice("Apogee", false),
        choice("Built-in", true),
    ]);
    let names: Vec<_> = v.iter().map(|d| d.name.as_str()).collect();
    assert_eq!(names, ["Built-in", "Apogee", "Zoom"]);
}

#[test]
fn devices_of_one_name_keep_their_order() {
    let mut a = choice("Same", false);
    a.id = "first".into();
    let mut b = choice("Same", false);
    b.id = "second".into();
    let v = sort_devices(vec![choice("Zed", false), a, b, choice("Same one", false)]);
    let ids: Vec<_> = v.iter().map(|d| d.id.as_str()).collect();
    assert_eq!(ids, ["first", "second", "Same one", "Zed"]);
}

#[test]
fn float_and_common_int_formats_are_capturable() {
    assert!(supported_capture_format(SampleFormat::SingleFloat));
    assert!(supported_capture_format(SampleFormat::I16));
    assert!(supported_capture_format(SampleFormat::I32));
    assert!(!supported_capture_format(SampleFormat::DoubleFloat));
}

fn range(format: SampleFormat, channels: u16, min_rate: u32, max_rate: u32) -> SupportedRange {
    SupportedRange {
        format,
        channels,
        min_rate,
        max_rate,
    }
}

#[test]
fn the_target_rate_is_preferred_where_the_device_offers_it() {
    let default = StreamShape {
        format: SampleFormat::SingleFloat,
        channels: 2,
        rate: 44_100,
    };
    let n = negotiate(
        default,
        &vec![range(SampleFormat::SingleFloat, 2, 44_100, 96_000)],
    )
    .unwrap();
    assert_eq!(n.rate, TARGET_RATE);
    assert!(n.native_target_rate);
    let n = negotiate(
        default,
        &vec![range(SampleFormat::SingleFloat, 2, 44_100, 44_100)],
    )
    .unwrap();
    assert_eq!(n.rate, 44_100);
    assert!(!n.native_target_rate);
    let odd = StreamShape {
        format: SampleFormat::DoubleFloat,
        ..default
    };
    assert!(negotiate(odd, &Vec::new()).is_err());
}

#[test]
fn a_full_buffer_leaves_the_rest_for_the_next_pass() {
    let (mut ctx, mut rings) = ctx(2, 1000);
    ctx.on_data(&samples(&[0.1, 0.2, 0.3, 0.4, 0.5, 0.6]), 0, steady());
    let mut scratch = vec![7u32; 5];
    // Two frames fit; the fifth place is not touched.
    assert_eq!(drain_audio(&mut rings.audio, &mut scratch, 2), 4);
    assert_eq!(f32::from_bits(scratch[3]), 0.4);
    assert_eq!(scratch[4], 7);
    assert_eq!(drain_audio(&mut rings.audio, &mut scratch, 2), 2);
    assert_eq!(f32::from_bits(scratch[1]), 0.6);
    assert_eq!(drain_audio(&mut rings.audio, &mut scratch, 2), 0);
}

#[test]
fn a_new_callback_has_silent_meters_at_its_rate() {
    let (ctx, _) = CallbackCtx::new(3, 1, 44_100, 8, 8, 8);
    assert_eq!(ctx.meters.sample_rate, 44_100);
    assert_eq!(ctx.meters.peak, vec![single(0.0); 3]);
    assert_eq!(ctx.meters.rms, vec![single(0.0); 3]);
    assert_eq!(ctx.meters.clipped, vec![false; 3]);
}
