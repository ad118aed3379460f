//! Broadcast Wave metadata: the `bext` chunk, iXML, and the timecode arithmetic.
//!
//! `bext`'s numeric timestamp counts samples since *local* midnight and carries no date, which
//! is why the origination date and time have to be filled in alongside it. Everything here is
//! derived from `t0`, the moment the first sample hit the converter.

use crate::calendar;
pub use crate::calendar::iso8601_nanos;
use crate::calendar::{to_local, LocalTime};
use crate::clock::reference::TimecodeFormat;
use crate::float::accuracy;
use crate::float::ops;
use crate::float::{F32, F64};
use crate::text;
use crate::text::{push_decimal, push_fixed, push_padded};
use crate::time;
use crate::time::{GIGA, KILO};
use vstd::arithmetic::div_mod::*;
use vstd::arithmetic::power2::*;
use crate::float::error;
use vstd::prelude::*;

verus! {

/// The largest single that survives conversion to 24-bit integer PCM, one step of the
/// converter below one, as bits.
///
/// 24-bit samples run to `2^23 - 1` on the positive side but `-2^23` on the negative, so plus
/// one has no representation while minus one does.
pub const PCM24_MAX: u32 = 0x3F7F_FFFE;

/// The most negative value, minus one, which *is* exactly representable, as bits.
pub const PCM24_MIN: u32 = 0xBF80_0000;

pub open spec fn clamped(sample: F32) -> F32 {
    if sample.is_nan_spec() {
        F32 { bits: 0 }
    } else {
        sample.clamp_spec(F32 { bits: PCM24_MIN }, F32 { bits: PCM24_MAX })
    }
}

/// Clamp a sample into the range that 24-bit PCM can hold.
///
/// This is not a nicety. The conversion to 24 bits wraps rather than saturating, so without
/// this a sample of plus one is written as minus one: a full-scale polarity flip. A NaN
/// becomes silence.
pub fn clamp_for_pcm24(sample: F32) -> (r: F32)
    ensures
        r == clamped(sample),
{
    if sample.is_nan() {
        return F32 { bits: 0 };
    }
    sample.clamp(F32 { bits: PCM24_MIN }, F32 { bits: PCM24_MAX })
}

/// Clamp a whole interleaved buffer in place, ready for a 24-bit write.
pub fn clamp_buffer_for_pcm24(buffer: &mut Vec<F32>)
    ensures
        final(buffer)@ == Seq::new(old(buffer)@.len(), |i: int| clamped(old(buffer)@[i])),
{
    let mut i: usize = 0;
    while i < buffer.len()
        invariant
            i <= buffer@.len(),
            buffer@.len() == old(buffer)@.len(),
            forall|j: int| 0 <= j < i ==> buffer@[j] == clamped(old(buffer)@[j]),
            forall|j: int| i <= j < buffer@.len() ==> buffer@[j] == old(buffer)@[j],
        decreases buffer@.len() - i,
    {
        let s: F32 = clamp_for_pcm24(buffer[i]);
        buffer.set(i, s);
        i = i + 1;
    }
    assert(buffer@ =~= Seq::new(old(buffer)@.len(), |i: int| clamped(old(buffer)@[i])));
}

/// The format tags of a `fmt` chunk.
pub const WAVE_TAG_PCM: u16 = 0x0001;

pub const WAVE_TAG_FLOAT: u16 = 0x0003;

pub const WAVE_TAG_EXTENDED: u16 = 0xFFFE;

/// The extended record of a `fmt` chunk.
#[derive(Clone, Copy, PartialEq, Eq, Structural, Debug)]
pub struct WaveFmtExtended {
    pub valid_bits_per_sample: u16,
    pub channel_mask: u32,
    /// Whether the samples are floats rather than integers.
    pub float: bool,
}

/// A `fmt` chunk.
#[derive(Clone, Copy, PartialEq, Eq, Structural, Debug)]
pub struct WaveFmt {
    pub tag: u16,
    pub channel_count: u16,
    pub sample_rate: u32,
    pub bytes_per_second: u32,
    pub block_alignment: u16,
    pub bits_per_sample: u16,
    pub extended_format: Option<WaveFmtExtended>,
}

/// The `fmt` chunk of samples of `bits` bits, which the container rounds up to whole bytes.
///
/// Above two channels WAVE requires the extended form, and also whenever the valid bits differ
/// from the container's. The channel mask is zero, which means "discrete, unassigned": a field
/// recorder's inputs are numbered jacks, not a speaker layout.
pub open spec fn fmt_of(sample_rate: int, channels: int, bits: int, float: bool) -> WaveFmt {
    let bytes = (bits + 7) / 8;
    let extended = channels > 2 || bytes * 8 != bits;
    WaveFmt {
        tag: if extended {
            WAVE_TAG_EXTENDED
        } else if float {
            WAVE_TAG_FLOAT
        } else {
            WAVE_TAG_PCM
        },
        channel_count: channels as u16,
        sample_rate: sample_rate as u32,
        bytes_per_second: (bytes * channels * sample_rate) as u32,
        block_alignment: (bytes * channels) as u16,
        bits_per_sample: (bytes * 8) as u16,
        extended_format: if extended {
            Some(
                WaveFmtExtended { valid_bits_per_sample: bits as u16, channel_mask: 0, float },
            )
        } else {
            None
        },
    }
}

/// Whether the sizes in a `fmt` chunk of `bytes` bytes per sample fit their fields.
pub open spec fn fmt_fits(sample_rate: int, channels: int, bytes: int) -> bool {
    &&& bytes * channels <= u16::MAX
    &&& bytes * channels * sample_rate <= u32::MAX
}

fn wave_fmt(sample_rate: u32, channels: u16, bits: u16, float: bool) -> (r: WaveFmt)
    requires
        bits == 24 || bits == 32,
        fmt_fits(sample_rate as int, channels as int, bits as int / 8),
    ensures
        r == fmt_of(sample_rate as int, channels as int, bits as int, float),
{
    let bytes: u16 = (bits + 7) / 8;
    let container_bits: u16 = bytes * 8;
    let block_alignment: u16 = bytes * channels;
    let extended: bool = channels > 2 || container_bits != bits;
    proof {
        let b = bytes as int;
        let c = channels as int;
        let s = sample_rate as int;
        assert(b * c * s == (b * c) * s);
    }
    WaveFmt {
        tag: if extended {
            WAVE_TAG_EXTENDED
        } else if float {
            WAVE_TAG_FLOAT
        } else {
            WAVE_TAG_PCM
        },
        channel_count: channels,
        sample_rate,
        bytes_per_second: block_alignment as u32 * sample_rate,
        block_alignment,
        bits_per_sample: container_bits,
        extended_format: if extended {
            Some(WaveFmtExtended { valid_bits_per_sample: bits, channel_mask: 0, float })
        } else {
            None
        },
    }
}

/// The format the finished file ships in: 24-bit integer PCM.
pub fn wave_fmt_pcm24(sample_rate: u32, channels: u16) -> (r: WaveFmt)
    requires
        fmt_fits(sample_rate as int, channels as int, 3),
    ensures
        r == fmt_of(sample_rate as int, channels as int, 24, false),
{
    wave_fmt(sample_rate, channels, 24, false)
}

/// The format of the live scratch capture: 32-bit float, which keeps it bit-exact.
pub fn wave_fmt_f32(sample_rate: u32, channels: u16) -> (r: WaveFmt)
    requires
        fmt_fits(sample_rate as int, channels as int, 4),
    ensures
        r == fmt_of(sample_rate as int, channels as int, 32, true),
{
    wave_fmt(sample_rate, channels, 32, true)
}

/// The timecode a take was stamped against, when it came from a timecode source.
#[derive(Clone, Debug)]
pub struct TimecodeStamp {
    pub format: TimecodeFormat,
    /// The label at `t0`, as it reads on a slate.
    pub start: String,
}

/// What is known about how a take was made. Travels into `bext`, iXML and the sidecar.
#[derive(Clone, Debug)]
pub struct Provenance {
    /// When the first sample was captured, in unix nanoseconds, latency-corrected.
    pub t0_unix_nanos: i128,
    /// Sample rate written into `fmt`, i.e. the rate of the file as it ships.
    pub sample_rate: u32,
    pub channels: u16,
    pub bits_per_sample: u16,
    pub device_name: String,
    /// The nominal rate the device was asked to run at.
    pub device_rate: u32,
    /// The rate the device actually ran at, measured over the take.
    pub measured_rate: Option<F64>,
    /// `sample_rate / measured_rate`. One means no correction was needed.
    pub drift_ratio: Option<F64>,
    /// Whether the audio was actually resampled by that ratio.
    pub resampled: bool,
    /// What the timestamps were measured against.
    pub clock_source: String,
    /// Best estimate of the timestamp error, in seconds.
    pub clock_dispersion_s: Option<F64>,
    pub sync_state: String,
    /// Machine frequency error from the clock fit, if it was trustworthy.
    pub slope_ppm: Option<F64>,
    /// Manual latency trim the operator dialled in, in milliseconds.
    pub latency_offset_ms: F64,
    /// The timecode at `t0`, when the clock was a timecode source.
    pub timecode: Option<TimecodeStamp>,
    /// The recording session that the rig shared, when the clock knows sessions.
    pub session_id: Option<String>,
}

/// Samples since local midnight. A leap second's nanoseconds are held below a second so that
/// they cannot overshoot.
pub open spec fn samples_since_midnight(local: LocalTime, sample_rate: u32) -> u64 {
    let nanos: int = if local.nanosecond > 999_999_999 {
        999_999_999
    } else {
        local.nanosecond as int
    };
    let secs = F64::of_int(local.second_of_day()).add_spec(
        F64::of_int(nanos).div_spec(F64 { bits: GIGA }),
    );
    ops::clamped(
        secs.mul_spec(F64::of_int(sample_rate as int)).round_i128_spec() as int,
        0,
        u64::MAX as int,
    ) as u64
}

/// The value `bext.TimeReference` wants, for what the wall clock showed at `t0`, in the
/// file's own sample rate.
pub fn time_reference_at(local: &LocalTime, sample_rate: u32) -> (r: u64)
    requires
        local.wf(),
    ensures
        r == samples_since_midnight(*local, sample_rate),
{
    let secs: F64 = F64::from_u64(local.seconds_from_midnight() as u64);
    let nanos: u32 = if local.nanosecond > 999_999_999 { 999_999_999 } else { local.nanosecond };
    let sub: F64 = F64::from_u64(nanos as u64).div(F64 { bits: GIGA });
    let samples: i128 = secs.add(sub).mul(F64::from_u64(sample_rate as u64)).round_i128();
    if samples < 0 {
        0
    } else if samples > u64::MAX as i128 {
        u64::MAX
    } else {
        samples as u64
    }
}

/// Samples since local midnight at `t0`.
pub fn time_reference(t0_unix_nanos: i128, sample_rate: u32) -> (r: u64)
    ensures
        exists|local: LocalTime|
            local.wf() && #[trigger] local.shows(calendar::in_range(t0_unix_nanos as int)) && r
                == samples_since_midnight(local, sample_rate),
{
    let local: LocalTime = to_local(t0_unix_nanos);
    time_reference_at(&local, sample_rate)
}

pub open spec fn date_text(local: LocalTime) -> Seq<char> {
    text::padded(local.year as nat, 4) + "-"@ + text::padded(local.month as nat, 2) + "-"@
        + text::padded(local.day as nat, 2)
}

pub open spec fn time_text(local: LocalTime) -> Seq<char> {
    text::padded(local.hour as nat, 2) + ":"@ + text::padded(local.minute as nat, 2) + ":"@
        + text::padded(local.second as nat, 2)
}

/// The date and the time of day, as `bext` writes them.
pub fn date_time_at(local: &LocalTime) -> (r: (String, String))
    requires
        local.wf(),
    ensures
        r.0@ == date_text(*local),
        r.1@ == time_text(*local),
{
    let mut date: String = String::new();
    push_padded(&mut date, local.year as u128, 4);
    date.append("-");
    push_padded(&mut date, local.month as u128, 2);
    date.append("-");
    push_padded(&mut date, local.day as u128, 2);
    let mut time: String = String::new();
    push_padded(&mut time, local.hour as u128, 2);
    time.append(":");
    push_padded(&mut time, local.minute as u128, 2);
    time.append(":");
    push_padded(&mut time, local.second as u128, 2);
    assert(date@ =~= date_text(*local));
    assert(time@ =~= time_text(*local));
    (date, time)
}

/// `bext` has no date field, so the date has to ride along as text.
pub fn origination_date_time(t0_unix_nanos: i128) -> (r: (String, String))
    ensures
        exists|local: LocalTime|
            local.wf() && #[trigger] local.shows(calendar::in_range(t0_unix_nanos as int))
                && r.0@ == date_text(local) && r.1@ == time_text(local),
{
    let local: LocalTime = to_local(t0_unix_nanos);
    date_time_at(&local)
}

pub open spec fn mode_of(channels: u16) -> Seq<char> {
    if channels == 1 {
        "mono"@
    } else if channels == 2 {
        "stereo"@
    } else {
        "multichannel"@
    }
}

pub fn channel_mode(channels: u16) -> (r: &'static str)
    ensures
        r@ == mode_of(channels),
{
    match channels {
        1 => "mono",
        2 => "stereo",
        _ => "multichannel",
    }
}

/// A line of the coding history, or nothing.
pub open spec fn optional_line(key: Seq<char>, value: Option<Seq<char>>) -> Seq<char> {
    match value {
        Some(v) => key + v,
        None => Seq::empty(),
    }
}

pub open spec fn fixed_option(x: Option<F64>, prec: nat) -> Option<Seq<char>> {
    match x {
        Some(v) => Some(text::fixed(v, prec)),
        None => None,
    }
}

/// Seconds in milliseconds.
pub open spec fn in_millis(x: F64) -> F64 {
    x.mul_spec(F64 { bits: KILO })
}

/// The `CodingHistory` text: the form that other tools parse first, then key=value fields of
/// its own. `bext` strings are ASCII, so of the texts that come from outside only the ASCII
/// characters go in. `t0_utc` is the ISO 8601 form of `t0`.
pub open spec fn coding_history_of(p: &Provenance, t0_utc: Seq<char>) -> Seq<char> {
    "A=PCM,F="@ + text::decimal(p.sample_rate as nat) + ",W="@ + text::decimal(
        p.bits_per_sample as nat,
    ) + ",M="@ + mode_of(p.channels) + ",T=syncrec"@ + "\r\nT=device:"@ + ascii_of(
        p.device_name@,
    )
        + "\r\nT=device_rate:"@ + text::decimal(p.device_rate as nat) + optional_line(
        "\r\nT=measured_rate:"@,
        fixed_option(p.measured_rate, 4),
    ) + optional_line("\r\nT=drift_ratio:"@, fixed_option(p.drift_ratio, 9)) + "\r\nT=resampled:"@
        + (if p.resampled {
        "yes"@
    } else {
        "no"@
    }) + "\r\nT=clock_source:"@ + ascii_of(p.clock_source@) + "\r\nT=clock_sync:"@ + ascii_of(
        p.sync_state@,
    )
        + "\r\nT=clock_dispersion_ms:"@ + (match p.clock_dispersion_s {
        Some(d) => text::fixed(in_millis(d), 3),
        None => "unknown"@,
    }) + optional_line("\r\nT=clock_slope_ppm:"@, fixed_option(p.slope_ppm, 3)) + (
    match p.timecode {
        Some(tc) => "\r\nT=timecode_rate:"@ + tc.format.text() + "\r\nT=start_timecode:"@
            + ascii_of(tc.start@),
        None => Seq::empty(),
    }) + "\r\nT=latency_trim_ms:"@ + text::fixed(p.latency_offset_ms, 3) + "\r\nT=t0_utc:"@ + t0_utc
}

fn push_optional(s: &mut String, key: &str, x: Option<F64>, prec: u32)
    requires
        prec <= 9,
    ensures
        final(s)@ == old(s)@ + optional_line(key@, fixed_option(x, prec as nat)),
{
    if let Some(v) = x {
        s.append(key);
        push_fixed(s, v, prec);
    }
    assert(s@ =~= old(s)@ + optional_line(key@, fixed_option(x, prec as nat)));
}

/// The `CodingHistory` text, so that the numbers travel with the file.
pub fn coding_history_at(p: &Provenance, t0_utc: &str) -> (r: String)
    ensures
        r@ == coding_history_of(p, t0_utc@),
{
    let mut s: String = String::from_str("A=PCM,F=");
    push_decimal(&mut s, p.sample_rate as u128);
    s.append(",W=");
    push_decimal(&mut s, p.bits_per_sample as u128);
    s.append(",M=");
    s.append(channel_mode(p.channels));
    s.append(",T=syncrec");
    s.append("\r\nT=device:");
    let device: String = ascii(p.device_name.as_str());
    s.append(device.as_str());
    s.append("\r\nT=device_rate:");
    push_decimal(&mut s, p.device_rate as u128);
    push_optional(&mut s, "\r\nT=measured_rate:", p.measured_rate, 4);
    push_optional(&mut s, "\r\nT=drift_ratio:", p.drift_ratio, 9);
    s.append("\r\nT=resampled:");
    s.append(
        if p.resampled {
            "yes"
        } else {
            "no"
        },
    );
    s.append("\r\nT=clock_source:");
    let source: String = ascii(p.clock_source.as_str());
    s.append(source.as_str());
    s.append("\r\nT=clock_sync:");
    let sync: String = ascii(p.sync_state.as_str());
    s.append(sync.as_str());
    s.append("\r\nT=clock_dispersion_ms:");
    match p.clock_dispersion_s {
        Some(d) => push_fixed(&mut s, d.mul(F64 { bits: KILO }), 3),
        None => s.append("unknown"),
    }
    push_optional(&mut s, "\r\nT=clock_slope_ppm:", p.slope_ppm, 3);
    let ghost before = s@;
    match &p.timecode {
        Some(tc) => {
            s.append("\r\nT=timecode_rate:");
            let rate: String = tc.format.to_text();
            s.append(rate.as_str());
            s.append("\r\nT=start_timecode:");
            let start: String = ascii(tc.start.as_str());
            s.append(start.as_str());
            assert(s@ =~= before + ("\r\nT=timecode_rate:"@ + tc.format.text()
                + "\r\nT=start_timecode:"@ + ascii_of(tc.start@)));
        },
        None => {
            assert(s@ =~= before + Seq::empty());
        },
    }
    s.append("\r\nT=latency_trim_ms:");
    push_fixed(&mut s, p.latency_offset_ms, 3);
    s.append("\r\nT=t0_utc:");
    s.append(t0_utc);
    s
}

/// The coding history of a take.
pub fn coding_history(p: &Provenance) -> (r: String)
    ensures
        exists|iso: Seq<char>|
            #[trigger] calendar::is_iso_form(iso, calendar::in_range(p.t0_unix_nanos as int)) && r@
                == coding_history_of(p, iso),
        text::ascii(r@),
{
    let iso: String = iso8601_nanos(p.t0_unix_nanos);
    proof {
        calendar::lemma_iso_form_is_ascii(iso@, calendar::in_range(p.t0_unix_nanos as int));
        law_the_coding_history_is_ascii(p, iso@);
    }
    coding_history_at(p, iso.as_str())
}

/// A character as it stands in XML text.
pub open spec fn escaped_char(c: char) -> Seq<char> {
    if c == '&' {
        "&amp;"@
    } else if c == '<' {
        "&lt;"@
    } else if c == '>' {
        "&gt;"@
    } else if c == '"' {
        "&quot;"@
    } else {
        seq![c]
    }
}

/// A text as it stands in XML.
pub open spec fn escaped(s: Seq<char>) -> Seq<char>
    decreases s.len(),
{
    if s.len() == 0 {
        s
    } else {
        escaped(s.drop_last()) + escaped_char(s.last())
    }
}

pub fn xml_escape(s: &str) -> (r: String)
    ensures
        r@ == escaped(s@),
{
    let mut out: String = String::new();
    let n: usize = s.unicode_len();
    let mut i: usize = 0;
    assert(s@.take(0) =~= Seq::<char>::empty());
    assert(out@ =~= Seq::<char>::empty());
    while i < n
        invariant
            n == s@.len(),
            i <= n,
            out@ == escaped(s@.take(i as int)),
        decreases n - i,
    {
        assert(s@.take(i + 1).drop_last() =~= s@.take(i as int));
        assert(s@.take(i + 1).last() == s@[i as int]);
        let c: char = s.get_char(i);
        if c == '&' {
            out.append("&amp;");
        } else if c == '<' {
            out.append("&lt;");
        } else if c == '>' {
            out.append("&gt;");
        } else if c == '"' {
            out.append("&quot;");
        } else {
            assert(s@.subrange(i as int, i + 1) =~= seq![c]);
            out.append(s.substring_char(i, i + 1));
        }
        i = i + 1;
    }
    assert(s@.take(i as int) =~= s@);
    out
}

pub open spec fn some_or_empty(x: Option<Seq<char>>) -> Seq<char> {
    match x {
        Some(s) => s,
        None => Seq::empty(),
    }
}

pub open spec fn millis_option(x: Option<F64>) -> Option<F64> {
    match x {
        Some(d) => Some(in_millis(d)),
        None => None,
    }
}

/// iXML wants the *timecode* rate. Without a timecode source there is no frame rate to
/// report, and the sample rate is the only honest stand-in for a file whose timestamps are
/// counted in samples.
pub open spec fn timecode_rate_of(p: &Provenance) -> Seq<char> {
    match p.timecode {
        Some(tc) => text::decimal(tc.format.numerator as nat) + "/"@ + text::decimal(
            tc.format.denominator as nat,
        ),
        None => text::decimal(p.sample_rate as nat) + "/1"@,
    }
}

pub open spec fn note_of(p: &Provenance) -> Seq<char> {
    match p.timecode {
        Some(_) => "Timestamps derived from LAN timecode (ethersync), not the OS wall clock."@,
        None =>
            "Timestamps derived from in-process SNTP against a monotonic clock, not the OS wall clock."@,
    }
}

pub open spec fn flag_of(p: &Provenance) -> Seq<char> {
    match p.timecode {
        Some(tc) => if tc.format.drop_frame {
            "DF"@
        } else {
            "NDF"@
        },
        None => "NDF"@,
    }
}

pub open spec fn start_of(p: &Provenance) -> Seq<char> {
    match p.timecode {
        Some(tc) => tc.start@,
        None => Seq::empty(),
    }
}

pub open spec fn truth_text(b: bool) -> Seq<char> {
    if b {
        "true"@
    } else {
        "false"@
    }
}

/// The iXML up to the value of the time reference.
pub open spec fn ixml_head(p: &Provenance, local: LocalTime, t0_utc: Seq<char>) -> Seq<char> {
    "<?xml version=\"1.0\" encoding=\"UTF-8\"?>\n<BWFXML>\n  <IXML_VERSION>1.61</IXML_VERSION>\n  <PROJECT>syncrec</PROJECT>\n  <NOTE>"@
        + note_of(p) + "</NOTE>\n  <SPEED>\n    <MASTER_SPEED>"@ + text::decimal(
        p.sample_rate as nat,
    ) + "/1</MASTER_SPEED>\n    <TIMECODE_RATE>"@ + timecode_rate_of(p)
        + "</TIMECODE_RATE>\n    <TIMECODE_FLAG>"@ + flag_of(p)
        + "</TIMECODE_FLAG>\n    <FILE_SAMPLE_RATE>"@ + text::decimal(p.sample_rate as nat)
        + "</FILE_SAMPLE_RATE>\n  </SPEED>\n  <SYNCREC>\n    <T0_UTC>"@ + t0_utc
        + "</T0_UTC>\n    <ORIGINATION_DATE>"@ + date_text(local)
        + "</ORIGINATION_DATE>\n    <ORIGINATION_TIME>"@ + time_text(local)
        + "</ORIGINATION_TIME>\n    <TIME_REFERENCE>"@
}

/// The iXML behind the value of the time reference.
pub open spec fn ixml_tail(p: &Provenance) -> Seq<char> {
    "</TIME_REFERENCE>\n    <DEVICE>"@ + escaped(p.device_name@)
        + "</DEVICE>\n    <DEVICE_NOMINAL_RATE>"@ + text::decimal(p.device_rate as nat)
        + "</DEVICE_NOMINAL_RATE>\n    <MEASURED_RATE>"@ + some_or_empty(
        fixed_option(p.measured_rate, 4),
    ) + "</MEASURED_RATE>\n    <DRIFT_RATIO>"@ + some_or_empty(fixed_option(p.drift_ratio, 9))
        + "</DRIFT_RATIO>\n    <RESAMPLED>"@ + truth_text(p.resampled) + "</RESAMPLED>\n    <CLOCK_SOURCE>"@ + escaped(p.clock_source@)
        + "</CLOCK_SOURCE>\n    <CLOCK_SYNC_STATE>"@ + escaped(p.sync_state@)
        + "</CLOCK_SYNC_STATE>\n    <CLOCK_DISPERSION_MS>"@ + some_or_empty(
        fixed_option(millis_option(p.clock_dispersion_s), 3),
    ) + "</CLOCK_DISPERSION_MS>\n    <CLOCK_SLOPE_PPM>"@ + some_or_empty(
        fixed_option(p.slope_ppm, 3),
    ) + "</CLOCK_SLOPE_PPM>\n    <START_TIMECODE>"@ + start_of(p)
        + "</START_TIMECODE>\n    <LATENCY_TRIM_MS>"@ + text::fixed(p.latency_offset_ms, 3)
        + "</LATENCY_TRIM_MS>\n  </SYNCREC>\n</BWFXML>\n"@
}

/// The same facts as the coding history, as structured XML.
pub open spec fn ixml_of(p: &Provenance, local: LocalTime, t0_utc: Seq<char>) -> Seq<char> {
    ixml_head(p, local, t0_utc) + text::decimal(
        samples_since_midnight(local, p.sample_rate) as nat,
    ) + ixml_tail(p)
}

fn push_fixed_or_nothing(s: &mut String, x: Option<F64>, prec: u32)
    requires
        prec <= 9,
    ensures
        final(s)@ == old(s)@ + some_or_empty(fixed_option(x, prec as nat)),
{
    if let Some(v) = x {
        push_fixed(s, v, prec);
    }
    assert(s@ =~= old(s)@ + some_or_empty(fixed_option(x, prec as nat)));
}

fn push_timecode_rate(s: &mut String, p: &Provenance)
    ensures
        final(s)@ == old(s)@ + timecode_rate_of(p),
{
    match &p.timecode {
        Some(tc) => {
            push_decimal(s, tc.format.numerator as u128);
            s.append("/");
            push_decimal(s, tc.format.denominator as u128);
        },
        None => {
            push_decimal(s, p.sample_rate as u128);
            s.append("/1");
        },
    }
    assert(s@ =~= old(s)@ + timecode_rate_of(p));
}

fn write_ixml_head(p: &Provenance, local: &LocalTime, t0_utc: &str) -> (s: String)
    requires
        local.wf(),
    ensures
        s@ == ixml_head(p, *local, t0_utc@),
{
    let (date, time) = date_time_at(local);
    let mut s: String = String::from_str(
        "<?xml version=\"1.0\" encoding=\"UTF-8\"?>\n<BWFXML>\n  <IXML_VERSION>1.61</IXML_VERSION>\n  <PROJECT>syncrec</PROJECT>\n  <NOTE>",
    );
    s.append(
        match &p.timecode {
            Some(_) => "Timestamps derived from LAN timecode (ethersync), not the OS wall clock.",
            None =>
                "Timestamps derived from in-process SNTP against a monotonic clock, not the OS wall clock.",
        },
    );
    s.append("</NOTE>\n  <SPEED>\n    <MASTER_SPEED>");
    push_decimal(&mut s, p.sample_rate as u128);
    s.append("/1</MASTER_SPEED>\n    <TIMECODE_RATE>");
    push_timecode_rate(&mut s, p);
    s.append("</TIMECODE_RATE>\n    <TIMECODE_FLAG>");
    s.append(
        match &p.timecode {
            Some(tc) => if tc.format.drop_frame {
                "DF"
            } else {
                "NDF"
            },
            None => "NDF",
        },
    );
    s.append("</TIMECODE_FLAG>\n    <FILE_SAMPLE_RATE>");
    push_decimal(&mut s, p.sample_rate as u128);
    s.append("</FILE_SAMPLE_RATE>\n  </SPEED>\n  <SYNCREC>\n    <T0_UTC>");
    s.append(t0_utc);
    s.append("</T0_UTC>\n    <ORIGINATION_DATE>");
    s.append(date.as_str());
    s.append("</ORIGINATION_DATE>\n    <ORIGINATION_TIME>");
    s.append(time.as_str());
    s.append("</ORIGINATION_TIME>\n    <TIME_REFERENCE>");
    s
}

fn write_ixml_tail(p: &Provenance) -> (s: String)
    ensures
        s@ == ixml_tail(p),
{
    let device: String = xml_escape(p.device_name.as_str());
    let source: String = xml_escape(p.clock_source.as_str());
    let sync: String = xml_escape(p.sync_state.as_str());
    let mut s: String = String::from_str("</TIME_REFERENCE>\n    <DEVICE>");
    s.append(device.as_str());
    s.append("</DEVICE>\n    <DEVICE_NOMINAL_RATE>");
    push_decimal(&mut s, p.device_rate as u128);
    s.append("</DEVICE_NOMINAL_RATE>\n    <MEASURED_RATE>");
    push_fixed_or_nothing(&mut s, p.measured_rate, 4);
    s.append("</MEASURED_RATE>\n    <DRIFT_RATIO>");
    push_fixed_or_nothing(&mut s, p.drift_ratio, 9);
    s.append("</DRIFT_RATIO>\n    <RESAMPLED>");
    s.append(
        if p.resampled {
            "true"
        } else {
            "false"
        },
    );
    s.append("</RESAMPLED>\n    <CLOCK_SOURCE>");
    s.append(source.as_str());
    s.append("</CLOCK_SOURCE>\n    <CLOCK_SYNC_STATE>");
    s.append(sync.as_str());
    s.append("</CLOCK_SYNC_STATE>\n    <CLOCK_DISPERSION_MS>");
    let dispersion: Option<F64> = match p.clock_dispersion_s {
        Some(d) => Some(d.mul(F64 { bits: KILO })),
        None => None,
    };
    push_fixed_or_nothing(&mut s, dispersion, 3);
    s.append("</CLOCK_DISPERSION_MS>\n    <CLOCK_SLOPE_PPM>");
    push_fixed_or_nothing(&mut s, p.slope_ppm, 3);
    s.append("</CLOCK_SLOPE_PPM>\n    <START_TIMECODE>");
    let ghost before = s@;
    if let Some(tc) = &p.timecode {
        s.append(tc.start.as_str());
    }
    assert(s@ =~= before + start_of(p));
    s.append("</START_TIMECODE>\n    <LATENCY_TRIM_MS>");
    push_fixed(&mut s, p.latency_offset_ms, 3);
    s.append("</LATENCY_TRIM_MS>\n  </SYNCREC>\n</BWFXML>\n");
    s
}

/// The iXML of a take, given what the wall clock showed at `t0` and its ISO 8601 form.
pub fn ixml_at(p: &Provenance, local: &LocalTime, t0_utc: &str) -> (r: String)
    requires
        local.wf(),
    ensures
        r@ == ixml_of(p, *local, t0_utc@),
{
    let mut s: String = write_ixml_head(p, local, t0_utc);
    push_decimal(&mut s, time_reference_at(local, p.sample_rate) as u128);
    let tail: String = write_ixml_tail(p);
    s.append(tail.as_str());
    s
}

/// The iXML of a take, for tools that read it.
pub fn ixml(p: &Provenance) -> (r: String)
    ensures
        exists|local: LocalTime, iso: Seq<char>|
            local.wf() && #[trigger] local.shows(calendar::in_range(p.t0_unix_nanos as int))
                && #[trigger] calendar::is_iso_form(
                iso,
                calendar::in_range(p.t0_unix_nanos as int),
            ) && r@ == ixml_of(p, local, iso),
{
    let local: LocalTime = to_local(p.t0_unix_nanos);
    let iso: String = iso8601_nanos(p.t0_unix_nanos);
    ixml_at(p, &local, iso.as_str())
}

/// The `bext` chunk, apart from the fields that version zero does not have.
///
/// Version zero: there is no UMID or loudness metadata to offer, and claiming a higher version
/// would promise fields that would then be empty.
#[derive(Clone, Debug)]
pub struct Bext {
    pub description: String,
    pub originator: String,
    pub originator_reference: String,
    pub origination_date: String,
    pub origination_time: String,
    pub time_reference: u64,
    pub version: u16,
    pub coding_history: String,
}

impl Bext {
    /// Every string is ASCII.
    pub open spec fn ascii(&self) -> bool {
        &&& text::ascii(self.description@)
        &&& text::ascii(self.originator@)
        &&& text::ascii(self.originator_reference@)
        &&& text::ascii(self.origination_date@)
        &&& text::ascii(self.origination_time@)
        &&& text::ascii(self.coding_history@)
    }
}

pub open spec fn description_of(p: &Provenance, t0_utc: Seq<char>) -> Seq<char> {
    "syncrec "@ + mode_of(p.channels) + " @ "@ + text::decimal(p.sample_rate as nat) + " | t0="@
        + t0_utc + " | disp="@ + (match p.clock_dispersion_s {
        Some(d) => text::fixed(in_millis(d), 3) + "ms"@,
        None => "unknown"@,
    })
}

/// Whether a chunk is the one for a take whose `t0` the wall clock showed as `local`.
pub open spec fn is_bext_of(
    b: &Bext,
    p: &Provenance,
    local: LocalTime,
    t0_utc: Seq<char>,
) -> bool {
    &&& b.description@ == truncated(description_of(p, t0_utc), 256)
    &&& b.originator@ == truncated("syncrec"@, 32)
    &&& b.originator_reference@ == truncated(p.sync_state@, 32)
    &&& b.origination_date@ == date_text(local)
    &&& b.origination_time@ == time_text(local)
    &&& b.time_reference == samples_since_midnight(local, p.sample_rate)
    &&& b.version == 0
    &&& b.coding_history@ == coding_history_of(p, t0_utc)
}

/// The `bext` chunk of a take, given what the wall clock showed at `t0` and its ISO 8601 form.
pub fn bext_at(p: &Provenance, local: &LocalTime, t0_utc: &str) -> (b: Bext)
    requires
        local.wf(),
    ensures
        is_bext_of(&b, p, *local, t0_utc@),
        text::ascii(t0_utc@) ==> b.ascii(),
{
    let (origination_date, origination_time) = date_time_at(local);
    let mut d: String = String::from_str("syncrec ");
    d.append(channel_mode(p.channels));
    d.append(" @ ");
    push_decimal(&mut d, p.sample_rate as u128);
    d.append(" | t0=");
    d.append(t0_utc);
    d.append(" | disp=");
    let ghost before = d@;
    match p.clock_dispersion_s {
        Some(x) => {
            push_fixed(&mut d, x.mul(F64 { bits: KILO }), 3);
            d.append("ms");
            assert(d@ =~= before + (text::fixed(in_millis(x), 3) + "ms"@));
        },
        None => {
            d.append("unknown");
        },
    }
    let b = Bext {
        description: truncate(d.as_str(), 256),
        originator: truncate("syncrec", 32),
        originator_reference: truncate(p.sync_state.as_str(), 32),
        origination_date,
        origination_time,
        time_reference: time_reference_at(local, p.sample_rate),
        version: 0,
        coding_history: coding_history_at(p, t0_utc),
    };
    proof {
        if text::ascii(t0_utc@) {
            law_bext_is_ascii(&b, p, *local, t0_utc@);
        }
    }
    b
}

/// Build the `bext` chunk.
pub fn bext(p: &Provenance) -> (b: Bext)
    ensures
        exists|local: LocalTime, iso: Seq<char>|
            local.wf() && #[trigger] local.shows(calendar::in_range(p.t0_unix_nanos as int))
                && #[trigger] calendar::is_iso_form(
                iso,
                calendar::in_range(p.t0_unix_nanos as int),
            ) && is_bext_of(&b, p, local, iso),
        b.ascii(),
{
    let local: LocalTime = to_local(p.t0_unix_nanos);
    let iso: String = iso8601_nanos(p.t0_unix_nanos);
    proof {
        calendar::lemma_iso_form_is_ascii(iso@, calendar::in_range(p.t0_unix_nanos as int));
    }
    bext_at(p, &local, iso.as_str())
}

/// Printable ASCII.
pub open spec fn is_plain(c: char) -> bool {
    32 <= c as int <= 126
}

/// The printable ASCII characters of a text, in order.
pub open spec fn plain_of(s: Seq<char>) -> Seq<char>
    decreases s.len(),
{
    if s.len() == 0 {
        s
    } else if is_plain(s.last()) {
        plain_of(s.drop_last()).push(s.last())
    } else {
        plain_of(s.drop_last())
    }
}

/// The first `max` printable ASCII characters of a text.
pub open spec fn truncated(s: Seq<char>, max: nat) -> Seq<char> {
    let plain = plain_of(s);
    if plain.len() <= max {
        plain
    } else {
        plain.take(max as int)
    }
}

/// `bext` string fields are fixed-width ASCII; overrunning them corrupts the chunk.
pub fn truncate(s: &str, max: usize) -> (r: String)
    ensures
        r@ == truncated(s@, max as nat),
{
    let mut out: String = String::new();
    let n: usize = s.unicode_len();
    let mut kept: usize = 0;
    let mut i: usize = 0;
    assert(s@.take(0) =~= Seq::<char>::empty());
    assert(out@ =~= Seq::<char>::empty());
    while i < n
        invariant
            n == s@.len(),
            i <= n,
            kept == out@.len(),
            kept <= max,
            kept <= i,
            out@ == truncated(s@.take(i as int), max as nat),
        decreases n - i,
    {
        assert(s@.take(i + 1).drop_last() =~= s@.take(i as int));
        assert(s@.take(i + 1).last() == s@[i as int]);
        let ghost plain = plain_of(s@.take(i as int));
        let c: char = s.get_char(i);
        if kept < max && 32 <= c as u32 && c as u32 <= 126 {
            assert(s@.subrange(i as int, i + 1) =~= seq![c]);
            out.append(s.substring_char(i, i + 1));
            assert(plain.len() <= max);
            assert(out@ =~= plain.push(c));
            kept = kept + 1;
        } else {
            assert(truncated(s@.take(i + 1), max as nat) =~= truncated(
                s@.take(i as int),
                max as nat,
            ));
        }
        i = i + 1;
    }
    assert(s@.take(i as int) =~= s@);
    out
}

/// The ASCII characters of a text, in order.
pub open spec fn ascii_of(s: Seq<char>) -> Seq<char>
    decreases s.len(),
{
    if s.len() == 0 {
        s
    } else if s.last() as int <= 127 {
        ascii_of(s.drop_last()).push(s.last())
    } else {
        ascii_of(s.drop_last())
    }
}

/// The ASCII characters of a text.
pub fn ascii(s: &str) -> (r: String)
    ensures
        r@ == ascii_of(s@),
        text::ascii(s@) ==> r@ == s@,
{
    let mut out: String = String::new();
    let n: usize = s.unicode_len();
    let mut i: usize = 0;
    assert(s@.take(0) =~= Seq::<char>::empty());
    assert(out@ =~= Seq::<char>::empty());
    while i < n
        invariant
            n == s@.len(),
            i <= n,
            out@ == ascii_of(s@.take(i as int)),
        decreases n - i,
    {
        assert(s@.take(i + 1).drop_last() =~= s@.take(i as int));
        assert(s@.take(i + 1).last() == s@[i as int]);
        let ghost before = out@;
        let c: char = s.get_char(i);
        if c as u32 <= 127 {
            assert(s@.subrange(i as int, i + 1) =~= seq![c]);
            out.append(s.substring_char(i, i + 1));
            assert(out@ =~= before.push(c));
        }
        i = i + 1;
    }
    assert(s@.take(i as int) =~= s@);
    proof {
        lemma_ascii_of(s@);
    }
    out
}

/// What is left of a text is ASCII, and all of it is left where it was.
proof fn lemma_ascii_of(s: Seq<char>)
    ensures
        text::ascii(ascii_of(s)),
        text::ascii(s) ==> ascii_of(s) == s,
    decreases s.len(),
{
    if s.len() > 0 {
        let fewer = s.drop_last();
        lemma_ascii_of(fewer);
        if text::ascii(s) {
            assert forall|i: int| 0 <= i < fewer.len() implies #[trigger] fewer[i] as int
                <= 127 by {
                assert(fewer[i] == s[i]);
            }
            assert(s[s.len() - 1] as int <= 127);
            assert(fewer.push(s.last()) =~= s);
        }
    }
}

proof fn lemma_optional_line_is_ascii(key: Seq<char>, x: Option<F64>, prec: nat)
    requires
        text::ascii(key),
    ensures
        text::ascii(optional_line(key, fixed_option(x, prec))),
{
    if let Some(v) = x {
        text::lemma_fixed_is_ascii(v, prec);
    }
}

/// The coding history is ASCII, whatever the device, the clock and its state are called.
pub proof fn law_the_coding_history_is_ascii(p: &Provenance, t0_utc: Seq<char>)
    requires
        text::ascii(t0_utc),
    ensures
        text::ascii(coding_history_of(p, t0_utc)),
{
    assert(text::ascii("A=PCM,F="@)) by {
        reveal_strlit("A=PCM,F=");
    }
    assert(text::ascii(",W="@)) by {
        reveal_strlit(",W=");
    }
    assert(text::ascii(",M="@)) by {
        reveal_strlit(",M=");
    }
    assert(text::ascii(",T=syncrec"@)) by {
        reveal_strlit(",T=syncrec");
    }
    assert(text::ascii("\r\nT=device:"@)) by {
        reveal_strlit("\r\nT=device:");
    }
    assert(text::ascii("\r\nT=device_rate:"@)) by {
        reveal_strlit("\r\nT=device_rate:");
    }
    assert(text::ascii("\r\nT=measured_rate:"@)) by {
        reveal_strlit("\r\nT=measured_rate:");
    }
    assert(text::ascii("\r\nT=drift_ratio:"@)) by {
        reveal_strlit("\r\nT=drift_ratio:");
    }
    assert(text::ascii("\r\nT=resampled:"@)) by {
        reveal_strlit("\r\nT=resampled:");
    }
    assert(text::ascii("yes"@)) by {
        reveal_strlit("yes");
    }
    assert(text::ascii("no"@)) by {
        reveal_strlit("no");
    }
    assert(text::ascii("\r\nT=clock_source:"@)) by {
        reveal_strlit("\r\nT=clock_source:");
    }
    assert(text::ascii("\r\nT=clock_sync:"@)) by {
        reveal_strlit("\r\nT=clock_sync:");
    }
    assert(text::ascii("\r\nT=clock_dispersion_ms:"@)) by {
        reveal_strlit("\r\nT=clock_dispersion_ms:");
    }
    assert(text::ascii("unknown"@)) by {
        reveal_strlit("unknown");
    }
    assert(text::ascii("\r\nT=clock_slope_ppm:"@)) by {
        reveal_strlit("\r\nT=clock_slope_ppm:");
    }
    assert(text::ascii("\r\nT=timecode_rate:"@)) by {
        reveal_strlit("\r\nT=timecode_rate:");
    }
    assert(text::ascii("\r\nT=start_timecode:"@)) by {
        reveal_strlit("\r\nT=start_timecode:");
    }
    assert(text::ascii("\r\nT=latency_trim_ms:"@)) by {
        reveal_strlit("\r\nT=latency_trim_ms:");
    }
    assert(text::ascii("\r\nT=t0_utc:"@)) by {
        reveal_strlit("\r\nT=t0_utc:");
    }
    assert(text::ascii("mono"@)) by {
        reveal_strlit("mono");
    }
    assert(text::ascii("stereo"@)) by {
        reveal_strlit("stereo");
    }
    assert(text::ascii("multichannel"@)) by {
        reveal_strlit("multichannel");
    }
    text::lemma_decimal_is_ascii(p.sample_rate as nat);
    text::lemma_decimal_is_ascii(p.bits_per_sample as nat);
    text::lemma_decimal_is_ascii(p.device_rate as nat);
    lemma_ascii_of(p.device_name@);
    lemma_ascii_of(p.clock_source@);
    lemma_ascii_of(p.sync_state@);
    lemma_optional_line_is_ascii("\r\nT=measured_rate:"@, p.measured_rate, 4);
    lemma_optional_line_is_ascii("\r\nT=drift_ratio:"@, p.drift_ratio, 9);
    lemma_optional_line_is_ascii("\r\nT=clock_slope_ppm:"@, p.slope_ppm, 3);
    if let Some(d) = p.clock_dispersion_s {
        text::lemma_fixed_is_ascii(in_millis(d), 3);
    }
    if let Some(tc) = p.timecode {
        tc.format.lemma_text_is_ascii();
        lemma_ascii_of(tc.start@);
    }
    text::lemma_fixed_is_ascii(p.latency_offset_ms, 3);
}

/// Every string of a `bext` chunk is ASCII.
pub proof fn law_bext_is_ascii(b: &Bext, p: &Provenance, local: LocalTime, t0_utc: Seq<char>)
    requires
        is_bext_of(b, p, local, t0_utc),
        text::ascii(t0_utc),
    ensures
        b.ascii(),
{
    lemma_plain(description_of(p, t0_utc));
    lemma_plain("syncrec"@);
    lemma_plain(p.sync_state@);
    law_the_coding_history_is_ascii(p, t0_utc);
    reveal_strlit("-");
    reveal_strlit(":");
    text::lemma_padded_is_ascii(local.year as nat, 4);
    text::lemma_padded_is_ascii(local.month as nat, 2);
    text::lemma_padded_is_ascii(local.day as nat, 2);
    text::lemma_padded_is_ascii(local.hour as nat, 2);
    text::lemma_padded_is_ascii(local.minute as nat, 2);
    text::lemma_padded_is_ascii(local.second as nat, 2);
}

/// How the errors of the three operations behind a time reference add up: `q` is the quotient
/// that stands for `ns / g`, `s` the sum that stands for `sec + q`, and `p` the product that
/// stands for `s * rate`, in units of which there are `u` in one.
proof fn lemma_errors_add_up(
    g: int,
    rate: int,
    sec: int,
    ns: int,
    u: int,
    q: int,
    s: int,
    p: int,
    a: int,
    b: int,
    c: int,
)
    requires
        g > 0,
        rate >= 0,
        -(g * a) <= 2 * (q * g - ns * u) <= g * a,
        -b <= 2 * (s - sec * u - q) <= b,
        -c <= 2 * (p - s * rate) <= c,
    ensures
        -(g * (c + rate * b + rate * a)) <= 2 * (p * g - ((sec * g + ns) * rate) * u) <= g * (c
            + rate * b + rate * a),
{
    let x = q * g - ns * u;
    let y = s - sec * u - q;
    let z = p - s * rate;
    assert(p * g - ((sec * g + ns) * rate) * u == g * z + (g * rate) * y + rate * x) by {
        assert(g * z == p * g - (g * rate) * s) by (nonlinear_arith)
            requires
                z == p - s * rate,
        ;
        let w = sec * u;
        assert((g * rate) * y == (g * rate) * s - (g * rate) * w - (g * rate) * q)
            by (nonlinear_arith)
            requires
                y == s - w - q,
        ;
        assert((g * rate) * w == ((sec * g) * rate) * u) by (nonlinear_arith)
            requires
                w == sec * u,
        ;
        let v = ns * u;
        assert(rate * x == (g * rate) * q - rate * v) by (nonlinear_arith)
            requires
                x == q * g - v,
        ;
        assert(rate * v == (ns * rate) * u) by (nonlinear_arith)
            requires
                v == ns * u,
        ;
        let k = sec * g;
        assert(((k + ns) * rate) * u == (k * rate) * u + (ns * rate) * u) by (nonlinear_arith);
    }
    assert(-(g * c) <= 2 * (g * z) <= g * c) by (nonlinear_arith)
        requires
            g > 0,
            -c <= 2 * z <= c,
    ;
    let h = g * rate;
    assert(h >= 0) by (nonlinear_arith)
        requires
            g > 0,
            rate >= 0,
            h == g * rate,
    ;
    assert(-(h * b) <= 2 * (h * y) <= h * b) by (nonlinear_arith)
        requires
            h >= 0,
            -b <= 2 * y <= b,
    ;
    assert(-(rate * (g * a)) <= 2 * (rate * x) <= rate * (g * a)) by (nonlinear_arith)
        requires
            rate >= 0,
            -(g * a) <= 2 * x <= g * a,
    ;
    assert(g * (c + rate * b + rate * a) == g * c + h * b + rate * (g * a)) by (nonlinear_arith)
        requires
            h == g * rate,
    ;
}

/// The product behind a time reference, at a rate of at most `2^r`, is close to the exact
/// number of samples.
proof fn lemma_samples_close(sec: int, ns: int, rate: int, r: nat) -> (z: F64)
    requires
        0 <= sec < 86_400,
        0 <= ns < 1_000_000_000,
        0 <= rate <= pow2(r),
        r <= 32,
    ensures
        z == F64::of_int(sec).add_spec(
            F64::of_int(ns).div_spec(F64 { bits: GIGA }),
        ).mul_spec(F64::of_int(rate)),
        z.is_finite_spec(),
        !z.is_negative_spec(),
        z.value() < pow2(1074) * pow2(100),
        ({
            let e = ((sec * 1_000_000_000 + ns) * rate) * pow2(1074);
            let slack = 1_000_000_000 * (pow2(r) * pow2(1040));
            -slack <= 2 * (z.value() * 1_000_000_000 - e) <= slack
        }),
{
    let g: int = 1_000_000_000;
    let u = pow2(1074) as int;
    time::lemma_giga();
    lemma2_to64();
    lemma2_to64_rest();
    lemma_pow2_pos(1074);
    let giga = F64 { bits: GIGA };
    if r < 32 {
        lemma_pow2_strictly_increases(r, 32);
    }
    accuracy::law_small_integers_are_exact(sec);
    accuracy::law_small_integers_are_exact(ns);
    accuracy::law_small_integers_are_exact(rate);
    let part = F64::of_int(ns);
    let whole = F64::of_int(sec);
    let pace = F64::of_int(rate);

    // The fraction of a second.
    let a = pow2(1021) as int;
    lemma_pow2_adds(1021, 53);
    lemma_pow2_pos(1021);
    assert((ns * u) * u < ((g * u) * a) * pow2(53)) by (nonlinear_arith)
        requires
            a * pow2(53) == u,
            0 <= ns < g,
            u > 0,
    {
        assert(((g * u) * a) * pow2(53) == (g * u) * (a * pow2(53)));
        assert(ns * u < g * u);
        assert((ns * u) * u < (g * u) * u);
    }
    assert(giga.value() > 0);
    accuracy::lemma_quotient_close(part, giga, 1021);
    let fraction = part.div_spec(giga);
    let q = fraction.value();
    assert(-(g * a) <= 2 * (q * g - ns * u) <= g * a) by (nonlinear_arith)
        requires
            -((g * u) * a) <= 2 * (q * (g * u) - (ns * u) * u) <= (g * u) * a,
            u > 0,
    ;
    assert(0 <= q <= 2 * u) by (nonlinear_arith)
        requires
            2 * (q * g - ns * u) <= g * a,
            q >= 0,
            ns < g,
            0 < a <= u,
            g > 0,
            u > 0,
    ;

    // The seconds.
    let b = pow2(1038) as int;
    lemma_pow2_adds(1038, 53);
    lemma_pow2_adds(17, 1074);
    assert(sec * u + q < 0x2_0000 * u) by (nonlinear_arith)
        requires
            0 <= sec < 86_400,
            q <= 2 * u,
            u > 0,
    ;
    accuracy::lemma_sum_close(whole, fraction, 1038);
    let seconds = whole.add_spec(fraction);
    let s = seconds.value();
    lemma_pow2_strictly_increases(1038, 1074);
    assert(0 <= s < 0x2_0000 * u) by (nonlinear_arith)
        requires
            s >= 0,
            2 * (s - sec * u - q) <= b,
            b < u,
            0 <= sec < 86_400,
            q <= 2 * u,
            u > 0,
    ;

    // The samples.
    let t: nat = 1038 + r;
    let c = pow2(t) as int;
    lemma_pow2_adds(1038, r);
    lemma_pow2_pos(r);
    assert(s * (rate * u) < (u * c) * pow2(53)) by (nonlinear_arith)
        requires
            0 <= s < 0x2_0000 * u,
            0 <= rate <= pow2(r),
            c == b * pow2(r),
            b * pow2(53) == 0x2_0000 * u,
            pow2(r) > 0,
            u > 0,
    {
        assert((u * c) * pow2(53) == (u * pow2(r)) * (b * pow2(53)));
        assert(rate * u <= pow2(r) * u);
        assert(s * (rate * u) <= s * (pow2(r) * u));
        assert(pow2(r) * u > 0);
        assert(s * (pow2(r) * u) < (0x2_0000 * u) * (pow2(r) * u));
    }
    accuracy::lemma_product_close(seconds, pace, t);
    let z = seconds.mul_spec(pace);
    let p = z.value();
    assert(-c <= 2 * (p - s * rate) <= c) by (nonlinear_arith)
        requires
            -(u * c) <= 2 * (p * u - s * (rate * u)) <= u * c,
            u > 0,
    ;
    lemma_errors_add_up(g, rate, sec, ns, u, q, s, p, a, b, c);
    lemma_pow2_adds(2, 1038);
    lemma_pow2_strictly_increases(1021, 1038);
    assert(c + rate * b + rate * a <= pow2(r) * pow2(1040)) by (nonlinear_arith)
        requires
            c == b * pow2(r),
            0 <= rate <= pow2(r),
            pow2(1040) == 4 * b,
            0 < a < b,
    ;
    lemma_pow2_adds(64, 36);
    assert(p < u * pow2(100)) by (nonlinear_arith)
        requires
            2 * (p - s * rate) <= c,
            0 <= s < 0x2_0000 * u,
            0 <= rate <= pow2(r),
            0 < pow2(r) <= 0x1_0000_0000,
            c == b * pow2(r),
            b < u,
            u > 0,
            pow2(100) == 0x1_0000_0000_0000_0000 * 0x10_0000_0000,
    {
        assert(s * rate <= (0x2_0000 * u) * 0x1_0000_0000);
        assert(c <= u * 0x1_0000_0000);
    }
    z
}

/// A time reference counts the samples from local midnight. At any rate it is within five
/// eighths of a sample of the exact count, so on a whole second it is the exact count; at a
/// rate of up to 2^18 samples per second it is within half a sample of it and a hundred
/// thousandth of one. It never runs past the end of the day.
pub proof fn law_the_time_reference_counts_samples(local: LocalTime, sample_rate: u32)
    requires
        local.wf(),
        local.nanosecond < 1_000_000_000,
    ensures
        ({
            let count = samples_since_midnight(local, sample_rate) * 1_000_000_000;
            let exact = (local.second_of_day() * 1_000_000_000 + local.nanosecond) * sample_rate;
            &&& -5_000_000_000 <= 8 * (count - exact) <= 5_000_000_000
            &&& sample_rate <= 0x4_0000 ==> -50_001_000_000_000 <= 100_000 * (count - exact)
                <= 50_001_000_000_000
            &&& local.nanosecond == 0 ==> samples_since_midnight(local, sample_rate)
                == local.second_of_day() * sample_rate
            &&& samples_since_midnight(local, sample_rate) <= 86_400 * sample_rate
        }),
{
    let g: int = 1_000_000_000;
    let u = pow2(1074) as int;
    let rate = sample_rate as int;
    let sec = local.second_of_day();
    let ns = local.nanosecond as int;
    lemma2_to64();
    lemma2_to64_rest();
    lemma_pow2_pos(1074);
    let z = lemma_samples_close(sec, ns, rate, 32);
    accuracy::lemma_whole_close(z);
    let t = z.round_i128_spec() as int;
    let p = z.value();
    let e = (sec * g + ns) * rate;
    lemma_pow2_adds(32, 1040);
    lemma_pow2_adds(1072, 2);
    let w = pow2(1072) as int;
    assert(8 * (t * g - e) <= 5 * g && 8 * (t * g - e) >= -5 * g) by (nonlinear_arith)
        requires
            (2 * t - 1) * u <= 2 * p,
            2 * p < (2 * t + 1) * u,
            -(g * w) <= 2 * (p * g - e * u) <= g * w,
            u == 4 * w,
            w > 0,
            g > 0,
    {
        assert((2 * t - 1) * u * g <= 2 * p * g);
        assert(2 * p * g <= (2 * t + 1) * u * g);
        assert((2 * t - 1) * u * g - 2 * (e * u) <= g * w);
        assert((2 * t + 1) * u * g - 2 * (e * u) >= -(g * w));
        assert((8 * (t * g - e) - 4 * g) * w == (2 * t - 1) * u * g - 2 * (e * u));
        assert((8 * (t * g - e) + 4 * g) * w == (2 * t + 1) * u * g - 2 * (e * u));
        assert((8 * (t * g - e) - 4 * g) * w <= g * w);
        assert((8 * (t * g - e) + 4 * g) * w >= (-g) * w);
    }
    assert(0 <= e <= (86_400 * g) * 0xFFFF_FFFF) by (nonlinear_arith)
        requires
            e == (sec * g + ns) * rate,
            0 <= sec < 86_400,
            0 <= ns < g,
            0 <= rate <= 0xFFFF_FFFF,
    ;
    assert(0 <= t <= u64::MAX);
    assert(e <= (86_400 * rate) * g) by (nonlinear_arith)
        requires
            e == (sec * g + ns) * rate,
            0 <= sec < 86_400,
            0 <= ns < g,
            0 <= rate,
    ;
    if rate <= 0x4_0000 {
        lemma_samples_close(sec, ns, rate, 18);
        lemma_pow2_adds(18, 1040);
        lemma_pow2_adds(1058, 16);
        let v = pow2(1058) as int;
        assert(0x1_0000 * (2 * (t * g - e)) <= 0x1_0001 * g && 0x1_0000 * (2 * (t * g - e))
            >= -0x1_0001 * g) by (nonlinear_arith)
            requires
                (2 * t - 1) * u <= 2 * p,
                2 * p < (2 * t + 1) * u,
                -(g * v) <= 2 * (p * g - e * u) <= g * v,
                u == 0x1_0000 * v,
                v > 0,
                g > 0,
        {
            let d = 0x1_0000 * (2 * (t * g - e));
            assert((2 * t - 1) * u * g <= 2 * p * g);
            assert(2 * p * g <= (2 * t + 1) * u * g);
            assert((d - 0x1_0000 * g) * v == (2 * t - 1) * u * g - 2 * (e * u));
            assert((d + 0x1_0000 * g) * v == (2 * t + 1) * u * g - 2 * (e * u));
            assert((d - 0x1_0000 * g) * v <= g * v);
            assert((d + 0x1_0000 * g) * v >= (-g) * v);
        }
    }
    if ns == 0 {
        assert(e == (sec * rate) * g) by (nonlinear_arith)
            requires
                e == (sec * g + ns) * rate,
                ns == 0,
        ;
        assert(t * g - (sec * rate) * g == (t - sec * rate) * g) by (nonlinear_arith);
    }
}

/// A clamped sample is a number between the two bounds.
pub proof fn law_clamped_is_in_range(s: F32)
    ensures
        !clamped(s).is_nan_spec(),
        (F32 { bits: PCM24_MIN }).le_spec(clamped(s)),
        clamped(s).le_spec(F32 { bits: PCM24_MAX }),
{
}

/// Clamping never flips a sample's polarity, and leaves alone what is in range already.
pub proof fn law_clamping_keeps_polarity(s: F32)
    requires
        !s.is_nan_spec(),
    ensures
        clamped(s).is_negative_spec() == s.is_negative_spec(),
        (F32 { bits: PCM24_MIN }).le_spec(s) && s.le_spec(F32 { bits: PCM24_MAX }) ==> clamped(s)
            == s,
{
}

/// Clamping a second time changes nothing.
pub proof fn law_clamping_is_idempotent(s: F32)
    ensures
        clamped(clamped(s)) == clamped(s),
{
    law_clamped_is_in_range(s);
}

/// A truncated text fits its field and is printable ASCII throughout.
pub proof fn law_truncated_fits(s: Seq<char>, max: nat)
    ensures
        truncated(s, max).len() <= max,
        forall|i: int|
            0 <= i < truncated(s, max).len() ==> is_plain(#[trigger] truncated(s, max)[i]),
{
    lemma_plain(s);
}

proof fn lemma_plain(s: Seq<char>)
    ensures
        forall|i: int| 0 <= i < plain_of(s).len() ==> is_plain(#[trigger] plain_of(s)[i]),
    decreases s.len(),
{
    if s.len() > 0 {
        lemma_plain(s.drop_last());
        let rest = plain_of(s.drop_last());
        assert forall|i: int| 0 <= i < plain_of(s).len() implies is_plain(
            #[trigger] plain_of(s)[i],
        ) by {
            if i < rest.len() {
                assert(plain_of(s)[i] == rest[i]);
            }
        }
    }
}

/// Escaped text holds no character that opens or closes markup, whatever the text held.
pub proof fn law_escaped_holds_no_markup(s: Seq<char>)
    ensures
        forall|i: int|
            0 <= i < escaped(s).len() ==> #[trigger] escaped(s)[i] != '<' && escaped(s)[i] != '>'
                && escaped(s)[i] != '"',
    decreases s.len(),
{
    if s.len() > 0 {
        law_escaped_holds_no_markup(s.drop_last());
        reveal_strlit("&amp;");
        reveal_strlit("&lt;");
        reveal_strlit("&gt;");
        reveal_strlit("&quot;");
        let head = escaped(s.drop_last());
        let tail = escaped_char(s.last());
        assert forall|i: int| 0 <= i < escaped(s).len() implies #[trigger] escaped(s)[i] != '<'
            && escaped(s)[i] != '>' && escaped(s)[i] != '"' by {
            if i < head.len() {
                assert(escaped(s)[i] == head[i]);
            } else {
                assert(escaped(s)[i] == tail[i - head.len()]);
            }
        }
    }
}

/// A value as it stands between the tags of an element.
pub open spec fn element(open: Seq<char>, value: Seq<char>, close: Seq<char>) -> Seq<char> {
    open + value + close
}

/// The iXML up to the timecode flag.
spec fn ixml_rate(p: &Provenance) -> Seq<char> {
    "<?xml version=\"1.0\" encoding=\"UTF-8\"?>\n<BWFXML>\n  <IXML_VERSION>1.61</IXML_VERSION>\n  <PROJECT>syncrec</PROJECT>\n  <NOTE>"@
        + note_of(p) + "</NOTE>\n  <SPEED>\n    <MASTER_SPEED>"@ + text::decimal(
        p.sample_rate as nat,
    ) + "/1</MASTER_SPEED>\n    <TIMECODE_RATE>"@ + timecode_rate_of(p)
        + "</TIMECODE_RATE>\n    <TIMECODE_FLAG>"@
}

/// The iXML up to the date.
spec fn ixml_zero(p: &Provenance, t0_utc: Seq<char>) -> Seq<char> {
    ixml_rate(p) + flag_of(p) + "</TIMECODE_FLAG>\n    <FILE_SAMPLE_RATE>"@ + text::decimal(
        p.sample_rate as nat,
    ) + "</FILE_SAMPLE_RATE>\n  </SPEED>\n  <SYNCREC>\n    <T0_UTC>"@ + t0_utc
        + "</T0_UTC>\n    <ORIGINATION_DATE>"@
}

/// The iXML from the device up to whether it was resampled.
spec fn ixml_device(p: &Provenance) -> Seq<char> {
    "</TIME_REFERENCE>\n    <DEVICE>"@ + escaped(p.device_name@)
        + "</DEVICE>\n    <DEVICE_NOMINAL_RATE>"@ + text::decimal(p.device_rate as nat)
        + "</DEVICE_NOMINAL_RATE>\n    <MEASURED_RATE>"@ + some_or_empty(
        fixed_option(p.measured_rate, 4),
    ) + "</MEASURED_RATE>\n    <DRIFT_RATIO>"@ + some_or_empty(fixed_option(p.drift_ratio, 9))
        + "</DRIFT_RATIO>\n    <RESAMPLED>"@
}

proof fn lemma_flag_occurs(p: &Provenance)
    ensures
        text::occurs(
            element("<TIMECODE_FLAG>"@, flag_of(p), "</TIMECODE_FLAG>"@),
            ixml_rate(p) + flag_of(p) + "</TIMECODE_FLAG>\n    <FILE_SAMPLE_RATE>"@,
        ),
{
    reveal_strlit("<TIMECODE_FLAG>");
    reveal_strlit("</TIMECODE_FLAG>");
    reveal_strlit("</TIMECODE_RATE>\n    <TIMECODE_FLAG>");
    reveal_strlit("</TIMECODE_FLAG>\n    <FILE_SAMPLE_RATE>");
    let front = ixml_rate(p);
    let back = "</TIMECODE_FLAG>\n    <FILE_SAMPLE_RATE>"@;
    assert(front.skip(front.len() - 15) =~= "<TIMECODE_FLAG>"@);
    assert(back.take(16) =~= "</TIMECODE_FLAG>"@);
    text::lemma_tagged(front, flag_of(p), back, "<TIMECODE_FLAG>"@, "</TIMECODE_FLAG>"@);
}

proof fn lemma_date_occurs(p: &Provenance, local: LocalTime, t0_utc: Seq<char>)
    ensures
        text::occurs(
            element("<ORIGINATION_DATE>"@, date_text(local), "</ORIGINATION_DATE>"@),
            ixml_zero(p, t0_utc) + date_text(local)
                + "</ORIGINATION_DATE>\n    <ORIGINATION_TIME>"@,
        ),
{
    reveal_strlit("<ORIGINATION_DATE>");
    reveal_strlit("</ORIGINATION_DATE>");
    reveal_strlit("</T0_UTC>\n    <ORIGINATION_DATE>");
    reveal_strlit("</ORIGINATION_DATE>\n    <ORIGINATION_TIME>");
    let front = ixml_zero(p, t0_utc);
    let back = "</ORIGINATION_DATE>\n    <ORIGINATION_TIME>"@;
    assert(front.skip(front.len() - 18) =~= "<ORIGINATION_DATE>"@);
    assert(back.take(19) =~= "</ORIGINATION_DATE>"@);
    text::lemma_tagged(
        front,
        date_text(local),
        back,
        "<ORIGINATION_DATE>"@,
        "</ORIGINATION_DATE>"@,
    );
}

proof fn lemma_time_occurs(p: &Provenance, local: LocalTime, t0_utc: Seq<char>)
    ensures
        text::occurs(
            element("<ORIGINATION_TIME>"@, time_text(local), "</ORIGINATION_TIME>"@),
            ixml_head(p, local, t0_utc),
        ),
        ixml_head(p, local, t0_utc) == ixml_zero(p, t0_utc) + date_text(local)
            + "</ORIGINATION_DATE>\n    <ORIGINATION_TIME>"@ + time_text(local)
            + "</ORIGINATION_TIME>\n    <TIME_REFERENCE>"@,
{
    reveal_strlit("<ORIGINATION_TIME>");
    reveal_strlit("</ORIGINATION_TIME>");
    reveal_strlit("</ORIGINATION_DATE>\n    <ORIGINATION_TIME>");
    reveal_strlit("</ORIGINATION_TIME>\n    <TIME_REFERENCE>");
    let front = ixml_zero(p, t0_utc) + date_text(local)
        + "</ORIGINATION_DATE>\n    <ORIGINATION_TIME>"@;
    let back = "</ORIGINATION_TIME>\n    <TIME_REFERENCE>"@;
    assert(front.skip(front.len() - 18) =~= "<ORIGINATION_TIME>"@);
    assert(back.take(19) =~= "</ORIGINATION_TIME>"@);
    text::lemma_tagged(
        front,
        time_text(local),
        back,
        "<ORIGINATION_TIME>"@,
        "</ORIGINATION_TIME>"@,
    );
}

/// What the iXML says before the time reference.
proof fn lemma_head_elements(p: &Provenance, local: LocalTime, t0_utc: Seq<char>)
    ensures
        text::occurs(
            element("<TIMECODE_FLAG>"@, flag_of(p), "</TIMECODE_FLAG>"@),
            ixml_head(p, local, t0_utc),
        ),
        text::occurs(
            element("<ORIGINATION_DATE>"@, date_text(local), "</ORIGINATION_DATE>"@),
            ixml_head(p, local, t0_utc),
        ),
        text::occurs(
            element("<ORIGINATION_TIME>"@, time_text(local), "</ORIGINATION_TIME>"@),
            ixml_head(p, local, t0_utc),
        ),
{
    lemma_flag_occurs(p);
    lemma_date_occurs(p, local, t0_utc);
    lemma_time_occurs(p, local, t0_utc);
    let flag = element("<TIMECODE_FLAG>"@, flag_of(p), "</TIMECODE_FLAG>"@);
    let date = element("<ORIGINATION_DATE>"@, date_text(local), "</ORIGINATION_DATE>"@);
    let flagged = ixml_rate(p) + flag_of(p) + "</TIMECODE_FLAG>\n    <FILE_SAMPLE_RATE>"@;
    let rest = text::decimal(p.sample_rate as nat)
        + "</FILE_SAMPLE_RATE>\n  </SPEED>\n  <SYNCREC>\n    <T0_UTC>"@ + t0_utc
        + "</T0_UTC>\n    <ORIGINATION_DATE>"@;
    assert(ixml_zero(p, t0_utc) =~= flagged + rest);
    text::lemma_still_occurs(flag, flagged, Seq::empty(), rest);
    let dated = ixml_zero(p, t0_utc) + date_text(local)
        + "</ORIGINATION_DATE>\n    <ORIGINATION_TIME>"@;
    let more = date_text(local) + "</ORIGINATION_DATE>\n    <ORIGINATION_TIME>"@;
    assert(dated =~= ixml_zero(p, t0_utc) + more);
    text::lemma_still_occurs(flag, ixml_zero(p, t0_utc), Seq::empty(), more);
    let end = time_text(local) + "</ORIGINATION_TIME>\n    <TIME_REFERENCE>"@;
    assert(ixml_head(p, local, t0_utc) =~= dated + end);
    text::lemma_still_occurs(flag, dated, Seq::empty(), end);
    text::lemma_still_occurs(date, dated, Seq::empty(), end);
}

proof fn lemma_device_occurs(p: &Provenance)
    ensures
        text::occurs(
            element("<DEVICE>"@, escaped(p.device_name@), "</DEVICE>"@),
            "</TIME_REFERENCE>\n    <DEVICE>"@ + escaped(p.device_name@)
                + "</DEVICE>\n    <DEVICE_NOMINAL_RATE>"@,
        ),
{
    reveal_strlit("<DEVICE>");
    reveal_strlit("</DEVICE>");
    reveal_strlit("</TIME_REFERENCE>\n    <DEVICE>");
    reveal_strlit("</DEVICE>\n    <DEVICE_NOMINAL_RATE>");
    let front = "</TIME_REFERENCE>\n    <DEVICE>"@;
    let back = "</DEVICE>\n    <DEVICE_NOMINAL_RATE>"@;
    assert(front.skip(front.len() - 8) =~= "<DEVICE>"@);
    assert(back.take(9) =~= "</DEVICE>"@);
    text::lemma_tagged(front, escaped(p.device_name@), back, "<DEVICE>"@, "</DEVICE>"@);
}

proof fn lemma_resampled_occurs(p: &Provenance)
    ensures
        text::occurs(
            element("<RESAMPLED>"@, truth_text(p.resampled), "</RESAMPLED>"@),
            ixml_device(p) + truth_text(p.resampled) + "</RESAMPLED>\n    <CLOCK_SOURCE>"@,
        ),
{
    reveal_strlit("<RESAMPLED>");
    reveal_strlit("</RESAMPLED>");
    reveal_strlit("</DRIFT_RATIO>\n    <RESAMPLED>");
    reveal_strlit("</RESAMPLED>\n    <CLOCK_SOURCE>");
    let front = ixml_device(p);
    let back = "</RESAMPLED>\n    <CLOCK_SOURCE>"@;
    assert(front.skip(front.len() - 11) =~= "<RESAMPLED>"@);
    assert(back.take(12) =~= "</RESAMPLED>"@);
    text::lemma_tagged(front, truth_text(p.resampled), back, "<RESAMPLED>"@, "</RESAMPLED>"@);
}

/// The iXML behind the source of the clock.
spec fn ixml_end(p: &Provenance) -> Seq<char> {
    escaped(p.clock_source@) + "</CLOCK_SOURCE>\n    <CLOCK_SYNC_STATE>"@ + escaped(p.sync_state@)
        + "</CLOCK_SYNC_STATE>\n    <CLOCK_DISPERSION_MS>"@ + some_or_empty(
        fixed_option(millis_option(p.clock_dispersion_s), 3),
    ) + "</CLOCK_DISPERSION_MS>\n    <CLOCK_SLOPE_PPM>"@ + some_or_empty(
        fixed_option(p.slope_ppm, 3),
    ) + "</CLOCK_SLOPE_PPM>\n    <START_TIMECODE>"@ + start_of(p)
        + "</START_TIMECODE>\n    <LATENCY_TRIM_MS>"@ + text::fixed(p.latency_offset_ms, 3)
        + "</LATENCY_TRIM_MS>\n  </SYNCREC>\n</BWFXML>\n"@
}

proof fn lemma_tail_splits(p: &Provenance)
    ensures
        ixml_tail(p) == ixml_device(p) + truth_text(p.resampled)
            + "</RESAMPLED>\n    <CLOCK_SOURCE>"@ + ixml_end(p),
{
    let front = ixml_device(p) + truth_text(p.resampled) + "</RESAMPLED>\n    <CLOCK_SOURCE>"@;
    assert(ixml_tail(p) =~= front + ixml_end(p));
}

/// What the iXML says behind the time reference.
proof fn lemma_tail_elements(p: &Provenance)
    ensures
        text::occurs(element("<DEVICE>"@, escaped(p.device_name@), "</DEVICE>"@), ixml_tail(p)),
        text::occurs(
            element("<RESAMPLED>"@, truth_text(p.resampled), "</RESAMPLED>"@),
            ixml_tail(p),
        ),
{
    lemma_device_occurs(p);
    lemma_resampled_occurs(p);
    lemma_tail_splits(p);
    let device = element("<DEVICE>"@, escaped(p.device_name@), "</DEVICE>"@);
    let resampled = element("<RESAMPLED>"@, truth_text(p.resampled), "</RESAMPLED>"@);
    let named = "</TIME_REFERENCE>\n    <DEVICE>"@ + escaped(p.device_name@)
        + "</DEVICE>\n    <DEVICE_NOMINAL_RATE>"@;
    let rates = text::decimal(p.device_rate as nat)
        + "</DEVICE_NOMINAL_RATE>\n    <MEASURED_RATE>"@ + some_or_empty(
        fixed_option(p.measured_rate, 4),
    ) + "</MEASURED_RATE>\n    <DRIFT_RATIO>"@ + some_or_empty(fixed_option(p.drift_ratio, 9))
        + "</DRIFT_RATIO>\n    <RESAMPLED>"@;
    assert(ixml_device(p) =~= named + rates);
    text::lemma_still_occurs(device, named, Seq::empty(), rates);
    let value = truth_text(p.resampled) + "</RESAMPLED>\n    <CLOCK_SOURCE>"@;
    let told = ixml_device(p) + truth_text(p.resampled) + "</RESAMPLED>\n    <CLOCK_SOURCE>"@;
    assert(told =~= ixml_device(p) + value);
    text::lemma_still_occurs(device, ixml_device(p), Seq::empty(), value);
    text::lemma_still_occurs(device, told, Seq::empty(), ixml_end(p));
    text::lemma_still_occurs(resampled, told, Seq::empty(), ixml_end(p));
}

/// The iXML behind the time reference begins by closing its element.
proof fn lemma_tail_closes(p: &Provenance)
    ensures
        ixml_tail(p).len() >= 17,
        ixml_tail(p).take(17) == "</TIME_REFERENCE>"@,
        "</TIME_REFERENCE>"@.len() == 17,
{
    lemma_tail_splits(p);
    reveal_strlit("</TIME_REFERENCE>");
    reveal_strlit("</TIME_REFERENCE>\n    <DEVICE>");
    let first = "</TIME_REFERENCE>\n    <DEVICE>"@;
    assert(ixml_device(p).take(17) =~= first.take(17));
    assert(ixml_tail(p).take(17) =~= ixml_device(p).take(17));
    assert(first.take(17) =~= "</TIME_REFERENCE>"@);
}

/// The two kinds of metadata agree: the iXML carries the time reference, the date and the time
/// of the `bext` chunk, each in its element, beside the device's name and whether the audio was
/// resampled. It flags drop-frame exactly where the take was stamped with drop-frame timecode.
pub proof fn law_ixml_agrees_with_bext(
    b: Bext,
    p: Provenance,
    local: LocalTime,
    t0_utc: Seq<char>,
)
    requires
        is_bext_of(&b, &p, local, t0_utc),
    ensures
        text::occurs(
            element(
                "<TIME_REFERENCE>"@,
                text::decimal(b.time_reference as nat),
                "</TIME_REFERENCE>"@,
            ),
            ixml_of(&p, local, t0_utc),
        ),
        text::occurs(
            element("<ORIGINATION_DATE>"@, b.origination_date@, "</ORIGINATION_DATE>"@),
            ixml_of(&p, local, t0_utc),
        ),
        text::occurs(
            element("<ORIGINATION_TIME>"@, b.origination_time@, "</ORIGINATION_TIME>"@),
            ixml_of(&p, local, t0_utc),
        ),
        text::occurs(
            element("<RESAMPLED>"@, truth_text(p.resampled), "</RESAMPLED>"@),
            ixml_of(&p, local, t0_utc),
        ),
        text::occurs(
            element("<DEVICE>"@, escaped(p.device_name@), "</DEVICE>"@),
            ixml_of(&p, local, t0_utc),
        ),
        text::occurs(
            element("<TIMECODE_FLAG>"@, flag_of(&p), "</TIMECODE_FLAG>"@),
            ixml_of(&p, local, t0_utc),
        ),
        flag_of(&p) == "DF"@ <==> p.timecode is Some && p.timecode->0.format.drop_frame,
        flag_of(&p) == "NDF"@ <==> p.timecode is None || !p.timecode->0.format.drop_frame,
{
    lemma_head_elements(&p, local, t0_utc);
    lemma_tail_elements(&p);
    lemma_tail_closes(&p);
    lemma_time_occurs(&p, local, t0_utc);
    reveal_strlit("DF");
    reveal_strlit("NDF");
    let head = ixml_head(&p, local, t0_utc);
    let tail = ixml_tail(&p);
    let value = text::decimal(b.time_reference as nat);
    assert(head.len() >= 16 && head.skip(head.len() - 16) =~= "<TIME_REFERENCE>"@
        && "<TIME_REFERENCE>"@.len() == 16) by {
        reveal_strlit("<TIME_REFERENCE>");
        reveal_strlit("</ORIGINATION_TIME>\n    <TIME_REFERENCE>");
    }
    text::lemma_tagged(head, value, tail, "<TIME_REFERENCE>"@, "</TIME_REFERENCE>"@);
    assert(head + value + tail =~= head + (value + tail));
    assert(head + value + tail =~= (head + value) + tail);
    text::lemma_still_occurs(
        element("<ORIGINATION_DATE>"@, b.origination_date@, "</ORIGINATION_DATE>"@),
        head,
        Seq::empty(),
        value + tail,
    );
    text::lemma_still_occurs(
        element("<ORIGINATION_TIME>"@, b.origination_time@, "</ORIGINATION_TIME>"@),
        head,
        Seq::empty(),
        value + tail,
    );
    text::lemma_still_occurs(
        element("<TIMECODE_FLAG>"@, flag_of(&p), "</TIMECODE_FLAG>"@),
        head,
        Seq::empty(),
        value + tail,
    );
    text::lemma_still_occurs(
        element("<RESAMPLED>"@, truth_text(p.resampled), "</RESAMPLED>"@),
        tail,
        head + value,
        Seq::empty(),
    );
    text::lemma_still_occurs(
        element("<DEVICE>"@, escaped(p.device_name@), "</DEVICE>"@),
        tail,
        head + value,
        Seq::empty(),
    );
}

/// A `fmt` chunk adds up: a frame is as many whole samples as there are channels, and a second as
/// many frames as the sample rate says. The two formats in use are three bytes of integer and four
/// bytes of float, and take the extended form, with every bit valid and no speakers assigned,
/// exactly where there are more than two channels.
pub proof fn law_the_format_adds_up(sample_rate: u32, channels: u16, float: bool)
    requires
        fmt_fits(sample_rate as int, channels as int, if float { 4 } else { 3 }),
    ensures
        ({
            let bits: int = if float { 32 } else { 24 };
            let f = fmt_of(sample_rate as int, channels as int, bits, float);
            &&& f.sample_rate == sample_rate
            &&& f.channel_count == channels
            &&& f.bits_per_sample == bits
            &&& 8 * f.block_alignment == channels * bits
            &&& f.bytes_per_second == f.block_alignment * sample_rate
            &&& f.extended_format is Some <==> channels > 2
            &&& f.extended_format is Some ==> f.extended_format->0 == (WaveFmtExtended {
                valid_bits_per_sample: bits as u16,
                channel_mask: 0,
                float,
            })
            &&& f.tag == if channels > 2 {
                0xFFFEu16
            } else if float {
                3
            } else {
                1
            }
        }),
{
    let bytes: int = if float { 4 } else { 3 };
    let c = channels as int;
    let s = sample_rate as int;
    assert(bytes * c >= 0 && bytes * c * s >= 0) by (nonlinear_arith)
        requires
            bytes >= 0,
            c >= 0,
            s >= 0,
    ;
}

/// The range of 24-bit samples in numbers, and what clamping to it does: a sample in range is
/// kept, one above it becomes the largest, one below it minus one, and what is no number silence.
pub proof fn law_clamping_moves_a_sample_no_further_than_it_must(s: F32)
    ensures
        ({
            let one = pow2(149) as int;
            let most = one - pow2(126);
            let c = clamped(s);
            &&& c.is_finite_spec()
            &&& s.is_nan_spec() ==> c.value() == 0
            &&& s.is_finite_spec() ==> c.value() == if s.value() > most {
                most
            } else if s.value() < -one {
                -one
            } else {
                s.value()
            }
        }),
{
    let f = ops::Width::Single;
    let high = F32 { bits: PCM24_MAX };
    let low = F32 { bits: PCM24_MIN };
    lemma2_to64();
    let half = pow2(23) as int;
    lemma_fundamental_div_mod_converse(PCM24_MAX as int, half, 126, 0x7F_FFFE);
    lemma_pow2_adds(24, 125);
    lemma_pow2_adds(1, 125);
    assert(0xFF_FFFE * pow2(125) == 0x100_0000 * pow2(125) - 2 * pow2(125)) by (nonlinear_arith);
    assert(high.value() == pow2(149) - pow2(126));
    lemma_fundamental_div_mod_converse(0x3F80_0000, half, 127, 0);
    lemma_pow2_adds(23, 126);
    assert(ops::magnitude(f, PCM24_MIN as nat) == pow2(149));
    assert(low.value() == -pow2(149));
    accuracy::lemma_zero(f);
    if s.is_finite_spec() {
        accuracy::lemma_finite_order(f, s.bits as nat, PCM24_MAX as nat);
        accuracy::lemma_finite_order(f, PCM24_MAX as nat, s.bits as nat);
        accuracy::lemma_finite_order(f, s.bits as nat, PCM24_MIN as nat);
        accuracy::lemma_finite_order(f, PCM24_MIN as nat, s.bits as nat);
    }
}

/// The date and the time of day in `bext` read as what the wall clock showed.
pub proof fn law_the_date_and_time_read_as_the_wall_clock(local: LocalTime)
    requires
        local.wf(),
    ensures
        text::reads_as_three(
            date_text(local),
            "-"@,
            local.year as nat,
            local.month as nat,
            local.day as nat,
        ),
        date_text(local).len() == 10,
        text::reads_as_three(
            time_text(local),
            ":"@,
            local.hour as nat,
            local.minute as nat,
            local.second as nat,
        ),
        time_text(local).len() == 8,
{
    reveal_strlit("-");
    reveal_strlit(":");
    text::lemma_three_read_back(
        "-"@,
        4,
        local.year as nat,
        local.month as nat,
        local.day as nat,
    );
    text::lemma_three_read_back(
        ":"@,
        2,
        local.hour as nat,
        local.minute as nat,
        local.second as nat,
    );
    assert(vstd::arithmetic::power::pow(10, 2) == 100 && vstd::arithmetic::power::pow(10, 4)
        == 10_000) by {
        reveal_with_fuel(vstd::arithmetic::power::pow, 5);
    }
    text::lemma_padded_reads_back(local.year as nat, 4);
    text::lemma_padded_reads_back(local.month as nat, 2);
    text::lemma_padded_reads_back(local.day as nat, 2);
    text::lemma_padded_reads_back(local.hour as nat, 2);
    text::lemma_padded_reads_back(local.minute as nat, 2);
    text::lemma_padded_reads_back(local.second as nat, 2);
}

/// Seconds become a thousand times as many milliseconds, to within one part in two to the power of
/// fifty-three.
pub proof fn law_a_second_is_a_thousand_milliseconds(x: F64)
    requires
        in_millis(x).is_finite_spec(),
    ensures
        x.is_finite_spec(),
        0x20_0000_0000_0000 * error::abs(in_millis(x).value() - 1000 * x.value()) <= 1000
            * error::abs(x.value()) + 0x10_0000_0000_0000,
{
    let kilo = F64 { bits: KILO };
    let u = pow2(1074) as int;
    lemma_pow2_pos(1074);
    lemma2_to64();
    lemma2_to64_rest();
    lemma_fundamental_div_mod_converse(
        KILO as int,
        0x10_0000_0000_0000,
        1032,
        0xF_4000_0000_0000,
    );
    lemma_pow2_adds(43, 1031);
    assert(0x1F_4000_0000_0000 * pow2(1031) == 1000 * (0x800_0000_0000 * pow2(1031)))
        by (nonlinear_arith);
    assert(kilo.value() == 1000 * u);
    error::lemma_finite_product(x, kilo);
    let m = in_millis(x).value();
    let v = x.value();
    let d = m - 1000 * v;
    assert(m * u - v * (1000 * u) == d * u) by (nonlinear_arith)
        requires
            d == m - 1000 * v,
    ;
    assert(error::abs(d * u) == error::abs(d) * u && error::abs(v * (1000 * u)) == (1000
        * error::abs(v)) * u) by (nonlinear_arith)
        requires
            u > 0,
    ;
    assert(0x20_0000_0000_0000 * error::abs(d) <= 1000 * error::abs(v) + 0x10_0000_0000_0000)
        by (nonlinear_arith)
        requires
            0x20_0000_0000_0000 * (error::abs(d) * u) <= (1000 * error::abs(v)) * u
                + 0x10_0000_0000_0000 * u,
            u > 0,
    ;
}

} // verus!
