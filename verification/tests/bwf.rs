//! The Broadcast Wave metadata and the PCM guard.

use chrono::{Local, TimeZone};
use syncrec::bwf::{
    ascii, bext, clamp_buffer_for_pcm24, clamp_for_pcm24, coding_history, iso8601_nanos, ixml,
    origination_date_time, time_reference, truncate, wave_fmt_f32, wave_fmt_pcm24, xml_escape,
    Provenance, TimecodeStamp, PCM24_MAX, WAVE_TAG_EXTENDED, WAVE_TAG_FLOAT, WAVE_TAG_PCM,
};
use syncrec::clock::reference::TimecodeFormat;
use syncrec::float::{F32, F64};

fn wide(x: f64) -> F64 {
    F64::from_bits(x.to_bits())
}

fn single(x: f32) -> F32 {
    F32::from_bits(x.to_bits())
}

fn number(x: F32) -> f32 {
    f32::from_bits(x.to_bits())
}

fn clamp(x: f32) -> f32 {
    number(clamp_for_pcm24(single(x)))
}

fn pcm24_max() -> f32 {
    f32::from_bits(PCM24_MAX)
}

fn provenance() -> Provenance {
    Provenance {
        t0_unix_nanos: 0,
        sample_rate: 48_000,
        channels: 2,
        bits_per_sample: 24,
        device_name: "Scarlett 2i2".into(),
        device_rate: 48_000,
        measured_rate: Some(wide(47_999.4)),
        drift_ratio: Some(wide(48_000.0 / 47_999.4)),
        resampled: true,
        clock_source: "time.apple.com".into(),
        clock_dispersion_s: Some(wide(0.004928)),
        sync_state: "synced".into(),
        slope_ppm: Some(wide(-16.28)),
        latency_offset_ms: wide(0.0),
        timecode: None,
        session_id: None,
    }
}

/// A known local wall-clock time, expressed as unix nanos.
fn at_local(h: u32, m: u32, s: u32, nanos: u32) -> i128 {
    let dt = Local
        .with_ymd_and_hms(2026, 3, 14, h, m, s)
        .single()
        .expect("unambiguous local time");
    dt.timestamp() as i128 * 1_000_000_000 + nanos as i128
}

#[test]
fn time_reference_counts_samples_from_local_midnight() {
    // 01:00:00 local is 3600 s in.
    let t = at_local(1, 0, 0, 0);
    assert_eq!(time_reference(t, 48_000), 3600 * 48_000);
}

#[test]
fn time_reference_is_exactly_zero_at_local_midnight() {
    let t = at_local(0, 0, 0, 0);
    assert_eq!(time_reference(t, 48_000), 0);
}

#[test]
fn time_reference_carries_sub_second_precision() {
    // Half a second past 10:00:00 is half a sample-rate's worth of samples.
    let t = at_local(10, 0, 0, 500_000_000);
    let want = 10 * 3600 * 48_000 + 24_000;
    assert_eq!(time_reference(t, 48_000), want);
}

#[test]
fn time_reference_follows_the_files_own_rate() {
    let t = at_local(1, 0, 0, 0);
    assert_eq!(time_reference(t, 44_100), 3600 * 44_100);
    assert_eq!(time_reference(t, 96_000), 3600 * 96_000);
}

#[test]
fn time_reference_just_before_midnight_stays_inside_the_day() {
    let t = at_local(23, 59, 59, 0);
    let tref = time_reference(t, 48_000);
    assert!(
        tref < 24 * 3600 * 48_000,
        "must not roll past a day: {tref}"
    );
    assert_eq!(tref, 86_399 * 48_000);
}

#[test]
fn origination_fields_are_the_fixed_widths_bext_requires() {
    let (d, t) = origination_date_time(at_local(9, 5, 3, 0));
    assert_eq!(d.len(), 10, "OriginationDate is a 10-char field");
    assert_eq!(t.len(), 8, "OriginationTime is an 8-char field");
    assert_eq!(d, "2026-03-14");
    assert_eq!(t, "09:05:03");
}

#[test]
fn coding_history_starts_with_the_parseable_ebu_form() {
    let h = coding_history(&provenance());
    assert!(
        h.starts_with("A=PCM,F=48000,W=24,M=stereo,T=syncrec"),
        "{h}"
    );
}

#[test]
fn coding_history_carries_the_numbers_that_matter() {
    let h = coding_history(&provenance());
    for needle in [
        "drift_ratio:1.000012500",
        "measured_rate:47999.4000",
        "resampled:yes",
        "clock_dispersion_ms:4.928",
        "clock_sync:synced",
        "clock_source:time.apple.com",
        "clock_slope_ppm:-16.280",
    ] {
        assert!(h.contains(needle), "missing {needle} in:\n{h}");
    }
}

#[test]
fn unsynced_takes_say_so_rather_than_inventing_a_dispersion() {
    let mut p = provenance();
    p.clock_dispersion_s = None;
    p.sync_state = "unsynced".into();
    let h = coding_history(&p);
    assert!(h.contains("clock_dispersion_ms:unknown"), "{h}");
    assert!(h.contains("clock_sync:unsynced"), "{h}");
}

#[test]
fn a_timecode_take_carries_its_frame_rate_and_start() {
    let p = Provenance {
        clock_source: "ethersync follower of 10.0.0.4:4443".into(),
        timecode: Some(TimecodeStamp {
            format: TimecodeFormat {
                numerator: 30000,
                denominator: 1001,
                drop_frame: true,
            },
            start: "10:31:07;12".into(),
        }),
        ..provenance()
    };
    let h = coding_history(&p);
    assert!(h.contains("T=start_timecode:10:31:07;12"), "{h}");
    assert!(h.contains("T=timecode_rate:29.970 DF"), "{h}");
    assert!(h.contains("T=clock_source:ethersync follower of"), "{h}");

    let x = ixml(&p);
    // Sample rate is not a frame rate. A conform that reads 48000/1 here puts
    // the take four hundred hours away from where it belongs.
    assert!(x.contains("<TIMECODE_RATE>30000/1001</TIMECODE_RATE>"), "{x}");
    assert!(x.contains("<TIMECODE_FLAG>DF</TIMECODE_FLAG>"), "{x}");
    assert!(x.contains("<START_TIMECODE>10:31:07;12</START_TIMECODE>"), "{x}");
}

#[test]
fn an_ntp_take_claims_no_timecode_rate_it_does_not_have() {
    let x = ixml(&provenance());
    assert!(x.contains("<TIMECODE_FLAG>NDF</TIMECODE_FLAG>"), "{x}");
    assert!(x.contains("<START_TIMECODE></START_TIMECODE>"), "{x}");
}

#[test]
fn bext_string_fields_respect_their_limits() {
    let mut p = provenance();
    p.device_name = "x".repeat(500);
    let b = bext(&p);
    assert!(b.description.len() <= 256);
    assert!(b.originator.len() <= 32);
    assert!(b.originator_reference.len() <= 32);
}

#[test]
fn non_ascii_device_names_do_not_corrupt_bext() {
    let mut p = provenance();
    p.device_name = "Røde NT-USB — café".into();
    let b = bext(&p);
    assert!(b.description.is_ascii(), "bext fields must stay ASCII");
}

#[test]
fn ixml_escapes_device_names_containing_markup() {
    let mut p = provenance();
    p.device_name = "A & B <mic>".into();
    let x = ixml(&p);
    assert!(x.contains("A &amp; B &lt;mic&gt;"), "{x}");
    assert!(!x.contains("<mic>"));
}

#[test]
fn ixml_agrees_with_bext_on_the_timestamp() {
    let p = Provenance {
        t0_unix_nanos: at_local(13, 37, 42, 123_456_789),
        ..provenance()
    };
    let x = ixml(&p);
    let b = bext(&p);
    assert!(x.contains(&format!(
        "<TIME_REFERENCE>{}</TIME_REFERENCE>",
        b.time_reference
    )));
    assert!(x.contains(&format!(
        "<ORIGINATION_DATE>{}</ORIGINATION_DATE>",
        b.origination_date
    )));
}

#[test]
fn iso8601_keeps_nanoseconds() {
    // 1 ns past the epoch.
    assert_eq!(iso8601_nanos(1), "1970-01-01T00:00:00.000000001Z");
}

#[test]
fn full_scale_is_clamped_below_the_wrap_point() {
    // The exact failure observed against the real writer: +1.0 became -1.0.
    assert!(clamp(1.0) < 1.0);
    assert_eq!(clamp(1.0), pcm24_max());
    assert_eq!(clamp(1.5), pcm24_max());
    assert_eq!(clamp(f32::INFINITY), pcm24_max());
}

#[test]
fn negative_full_scale_is_kept_because_it_is_representable() {
    // -1.0 maps exactly to -2^23 and must not be needlessly attenuated.
    assert_eq!(clamp(-1.0), -1.0);
    assert_eq!(clamp(-1.5), -1.0);
    assert_eq!(clamp(f32::NEG_INFINITY), -1.0);
}

#[test]
fn ordinary_samples_pass_through_untouched() {
    for v in [0.0, 0.5, -0.5, 0.25, -0.999, 1e-9] {
        assert_eq!(clamp(v), v, "clamping must be transparent below FS");
    }
}

#[test]
fn nan_becomes_silence_rather_than_noise() {
    assert_eq!(clamp(f32::NAN), 0.0);
}

#[test]
fn the_clamp_ceiling_is_one_lsb_below_unity() {
    assert!((pcm24_max() - (1.0 - 2.0f32.powi(-23))).abs() < f32::EPSILON);
}

#[test]
fn buffer_clamping_covers_every_sample() {
    let mut buf: Vec<F32> = [1.0, -1.5, 0.5, f32::NAN, 2.0].map(single).to_vec();
    clamp_buffer_for_pcm24(&mut buf);
    let got: Vec<f32> = buf.iter().map(|x| number(*x)).collect();
    assert_eq!(got, [pcm24_max(), -1.0, 0.5, 0.0, pcm24_max()]);
}

#[test]
fn pcm24_fmt_has_consistent_derived_fields() {
    let f = wave_fmt_pcm24(48_000, 2);
    assert_eq!(
        f.tag, WAVE_TAG_PCM,
        "stereo 24-bit needs no extended record"
    );
    assert_eq!(f.bits_per_sample, 24);
    assert_eq!(f.block_alignment, 6, "3 bytes x 2 channels");
    assert_eq!(f.bytes_per_second, 6 * 48_000);
    assert!(f.extended_format.is_none());
}

#[test]
fn float_fmt_declares_ieee_float() {
    let f = wave_fmt_f32(48_000, 2);
    assert_eq!(f.tag, WAVE_TAG_FLOAT);
    assert_eq!(f.bits_per_sample, 32);
    assert_eq!(f.block_alignment, 8);
}

#[test]
fn more_than_two_channels_uses_the_extended_record() {
    let f = wave_fmt_pcm24(48_000, 8);
    assert_eq!(f.tag, WAVE_TAG_EXTENDED);
    let ext = f
        .extended_format
        .expect("8 channels requires the extended form");
    assert_eq!(ext.valid_bits_per_sample, 24);
    assert!(!ext.float, "integers, not floats");
    assert_eq!(ext.channel_mask, 0, "discrete inputs, not a speaker layout");
    assert_eq!(f.block_alignment, 24);
}

#[test]
fn eight_channel_float_declares_the_float_guid() {
    let f = wave_fmt_f32(96_000, 8);
    assert!(f.extended_format.unwrap().float);
    assert_eq!(f.bytes_per_second, 32 * 96_000);
}

#[test]
fn mono_stays_in_the_simple_form() {
    let f = wave_fmt_pcm24(44_100, 1);
    assert_eq!(f.tag, WAVE_TAG_PCM);
    assert_eq!(f.block_alignment, 3);
    assert!(f.extended_format.is_none());
}

#[test]
fn version_zero_promises_no_fields_we_cannot_fill() {
    let b = bext(&provenance());
    assert_eq!(b.version, 0);
}

#[test]
fn iso8601_is_utc_whatever_the_zone() {
    assert_eq!(
        iso8601_nanos(1_700_000_000_123_456_789),
        "2023-11-14T22:13:20.123456789Z"
    );
    // An instant beyond what the calendar holds is held at the end of it.
    assert_eq!(iso8601_nanos(i128::MAX), iso8601_nanos(i64::MAX as i128));
    assert_eq!(iso8601_nanos(i128::MIN), iso8601_nanos(i64::MIN as i128));
}

#[test]
fn truncation_keeps_what_fits_and_stays_ascii() {
    assert_eq!(truncate("abcdef", 4), "abcd");
    assert_eq!(truncate("abc", 4), "abc");
    assert!(truncate("Røde", 10).is_ascii());
}

#[test]
fn escaping_leaves_no_markup_behind() {
    let e = xml_escape("a<b>&\"c'");
    assert!(!e.contains('<') && !e.contains('>') && !e.contains('"'), "{e}");
    assert!(e.starts_with("a&lt;b&gt;&amp;"), "{e}");
    assert_eq!(xml_escape("plain"), "plain");
}

#[test]
fn a_sub_second_start_rounds_to_the_nearest_sample() {
    // 0.1234567 s at 48 kHz is 5925.9216 samples.
    let t = at_local(0, 0, 0, 123_456_700);
    assert_eq!(time_reference(t, 48_000), 5926);
}

#[test]
fn whole_seconds_are_exact_at_any_rate() {
    for rate in [1, 8_000, 44_100, 48_000, 192_000, 262_144, u32::MAX] {
        for (h, m, s) in [(0, 0, 1), (7, 13, 59), (23, 59, 59)] {
            let secs = (h * 3600 + m * 60 + s) as u64;
            let t = at_local(h, m, s, 0);
            assert_eq!(time_reference(t, rate), secs * rate as u64, "{h}:{m}:{s} at {rate}");
        }
    }
}

#[test]
fn fractions_land_on_the_nearest_sample_and_inside_the_day() {
    for nanos in [1u32, 333_333_333, 500_000_000, 999_999_999] {
        let t = at_local(23, 59, 59, nanos);
        let got = time_reference(t, 192_000) as i128;
        let exact = (86_399 * 1_000_000_000i128 + nanos as i128) * 192_000;
        assert!((got * 1_000_000_000 - exact).abs() * 100_000 <= 50_001_000_000_000);
        assert!(got <= 86_400 * 192_000);
    }
}

#[test]
fn every_string_of_bext_stays_ascii() {
    let mut p = provenance();
    p.device_name = "Røde NT-USB — café".into();
    p.clock_source = "zeit.münchen.de".into();
    p.sync_state = "ünsynced".into();
    p.timecode = Some(TimecodeStamp {
        format: TimecodeFormat {
            numerator: 25,
            denominator: 1,
            drop_frame: false,
        },
        start: "10:00:00:00…".into(),
    });
    let b = bext(&p);
    assert!(b.description.is_ascii());
    assert!(b.originator.is_ascii());
    assert!(b.originator_reference.is_ascii());
    assert!(b.origination_date.is_ascii());
    assert!(b.origination_time.is_ascii());
    assert!(b.coding_history.is_ascii());
    assert!(b.coding_history.contains("T=device:Rde NT-USB  caf\r\n"));
    assert!(b.coding_history.contains("T=clock_source:zeit.mnchen.de\r\n"));
    assert!(b.coding_history.contains("T=clock_sync:nsynced\r\n"));
    assert!(b.coding_history.contains("T=start_timecode:10:00:00:00\r\n"));
    assert_eq!(b.coding_history, coding_history(&p));
    assert_eq!(ascii("a\tb\u{7f}ç~ "), "a\tb\u{7f}~ ");
    // The iXML is UTF-8 and keeps the name.
    assert!(ixml(&p).contains("<DEVICE>Røde NT-USB — café</DEVICE>"));
    p.device_name = "a\tb".into();
    assert!(coding_history(&p).contains("T=device:a\tb\r\n"));
}

#[test]
fn ixml_carries_what_bext_does() {
    let mut p = provenance();
    p.t0_unix_nanos = at_local(13, 37, 42, 123_456_789);
    let (x, b) = (ixml(&p), bext(&p));
    assert!(x.contains(&format!(
        "<TIME_REFERENCE>{}</TIME_REFERENCE>",
        b.time_reference
    )));
    assert!(x.contains("<ORIGINATION_DATE>2026-03-14</ORIGINATION_DATE>"));
    assert_eq!(b.origination_date, "2026-03-14");
    assert!(x.contains("<ORIGINATION_TIME>13:37:42</ORIGINATION_TIME>"));
    assert_eq!(b.origination_time, "13:37:42");
    assert!(x.contains("<RESAMPLED>true</RESAMPLED>"));
    assert!(x.contains("<DEVICE>Scarlett 2i2</DEVICE>"));
    assert!(x.contains("<TIMECODE_FLAG>NDF</TIMECODE_FLAG>"));
    p.resampled = false;
    p.timecode = Some(TimecodeStamp {
        format: TimecodeFormat {
            numerator: 30_000,
            denominator: 1001,
            drop_frame: true,
        },
        start: "13:37:42;03".into(),
    });
    let x = ixml(&p);
    assert!(x.contains("<RESAMPLED>false</RESAMPLED>"));
    assert!(x.contains("<TIMECODE_FLAG>DF</TIMECODE_FLAG>"));
}
