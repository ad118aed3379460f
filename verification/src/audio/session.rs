//! A recording session: what the writer does between emptying the ring and closing the file.
//!
//! The live pass writes at whatever rate the device agreed to run at and carries no
//! broadcast metadata, because the time reference cannot be filled in until the anchor has
//! been resolved. The anchor is flushed to the sidecar the moment it becomes known, so that
//! a crash does not lose it.

use crate::audio::capture::TimeMark;
use crate::audio::ring;
use crate::audio::ring::{receive_mark, receive_samples, samples_waiting};
use crate::audio::writer;
use crate::audio::writer::{DriftLog, DriftObservation, Sidecar, TakePaths};
use crate::clock::bridge::Bridge;
use crate::clock::reference::{NtpReference, RefStatus, Reference, StatusView, TimecodeFormat};
use crate::clock::ClockSample;
use crate::ethersync::TimelinePass;
use crate::finalize;
use crate::finalize::fit_drift;
use crate::float::accuracy;
use crate::float::F64;
use crate::latency::LatencyCorrection;
use crate::time;
use crate::time::{Duration, Instant};
use rtrb::Consumer;
use vstd::arithmetic::div_mod::*;
use vstd::arithmetic::power2::*;
use vstd::prelude::*;

verus! {

/// How long the writer sleeps when there is nothing to do, in nanoseconds.
pub const IDLE_SLEEP: u128 = 10_000_000;

/// Frames pulled from the ring per pass, per channel.
pub const DRAIN_FRAMES: usize = 16_384;

pub struct SessionConfig {
    pub paths: TakePaths,
    pub device_name: String,
    /// Platform latency still unaccounted for, plus any manual trim.
    pub latency: LatencyCorrection,
}

/// What a finished take left behind.
pub struct TakeResult {
    pub paths: TakePaths,
    pub sidecar: Sidecar,
    /// What the time reference thought of itself when the take ended, so that finalising
    /// judges the take against the clock that actually timestamped it.
    pub status: RefStatus,
    /// The frame rate the timecode was carried at.
    pub timecode: Option<TimecodeFormat>,
}

/// Live counters that the window reads.
#[derive(Clone, Copy, PartialEq, Eq, Structural, Debug)]
pub struct Progress {
    pub frames: u64,
    pub overruns: u64,
    pub observations: u64,
}

impl Progress {
    pub fn frames(&self) -> (r: u64)
        ensures
            r == self.frames,
    {
        self.frames
    }

    pub fn overruns(&self) -> (r: u64)
        ensures
            r == self.overruns,
    {
        self.overruns
    }

    pub fn observations(&self) -> (r: u64)
        ensures
            r == self.observations,
    {
        self.observations
    }

    /// Recorded duration so far, from the sample count rather than a wall clock.
    pub fn elapsed(&self, rate: u32) -> (r: Duration)
        ensures
            r.nanos == if rate == 0 {
                0
            } else {
                time::span_of_seconds(
                    F64::of_int(self.frames as int).div_spec(F64::of_int(rate as int)),
                )
            },
    {
        if rate == 0 {
            return Duration { nanos: 0 };
        }
        Duration::from_secs_f64(F64::from_u64(self.frames).div(F64::from_u64(rate as u64)))
    }
}

/// Elapsed time comes from the sample count alone: as many frames as fill some whole seconds
/// have taken exactly those seconds.
pub proof fn law_whole_seconds_elapse_exactly(seconds: int, rate: u32)
    requires
        rate > 0,
        0 <= seconds,
        seconds * rate < 0x20_0000_0000_0000,
    ensures
        time::span_of_seconds(
            F64::of_int(seconds * rate).div_spec(F64::of_int(rate as int)),
        ) == seconds * 1_000_000_000,
{
    assert(seconds < 0x20_0000_0000_0000) by (nonlinear_arith)
        requires
            rate > 0,
            0 <= seconds,
            seconds * rate < 0x20_0000_0000_0000,
    ;
    accuracy::law_even_quotients_are_exact(seconds, rate as int);
    accuracy::law_small_integers_are_exact(seconds);
    let u = pow2(1074) as int;
    lemma_pow2_pos(1074);
    assert((seconds * u) * 1_000_000_000 == (seconds * 1_000_000_000) * u) by (nonlinear_arith);
    lemma_fundamental_div_mod_converse(
        (seconds * u) * 1_000_000_000,
        u,
        seconds * 1_000_000_000,
        0,
    );
}

/// Whatever a take is timestamped against, frozen for a pass.
pub enum TakeReference {
    Ntp(NtpReference),
    Timecode(TimelinePass),
}

impl Reference for TakeReference {
    open spec fn resolves_at(&self, at: Instant) -> Option<i128> {
        match self {
            TakeReference::Ntp(r) => r.resolves_at(at),
            TakeReference::Timecode(r) => r.resolves_at(at),
        }
    }

    open spec fn status_view(&self) -> StatusView {
        match self {
            TakeReference::Ntp(r) => r.status_view(),
            TakeReference::Timecode(r) => r.status_view(),
        }
    }

    open spec fn format_view(&self) -> Option<TimecodeFormat> {
        match self {
            TakeReference::Ntp(r) => r.format_view(),
            TakeReference::Timecode(r) => r.format_view(),
        }
    }

    open spec fn session_view(&self) -> Option<Seq<char>> {
        match self {
            TakeReference::Ntp(r) => r.session_view(),
            TakeReference::Timecode(r) => r.session_view(),
        }
    }

    fn utc_nanos(&self, at: Instant) -> (r: Option<i128>) {
        match self {
            TakeReference::Ntp(r) => r.utc_nanos(at),
            TakeReference::Timecode(r) => r.utc_nanos(at),
        }
    }

    fn status(&self) -> (r: RefStatus) {
        match self {
            TakeReference::Ntp(r) => r.status(),
            TakeReference::Timecode(r) => r.status(),
        }
    }

    fn timecode_format(&self) -> (r: Option<TimecodeFormat>) {
        match self {
            TakeReference::Ntp(r) => r.timecode_format(),
            TakeReference::Timecode(r) => r.timecode_format(),
        }
    }

    fn session_id(&self) -> (r: Option<String>) {
        match self {
            TakeReference::Ntp(r) => r.session_id(),
            TakeReference::Timecode(r) => r.session_id(),
        }
    }
}

/// What the writer does after a pass.
#[derive(Clone, Copy, PartialEq, Eq, Structural, Debug)]
pub enum Pass {
    /// Everything is drained and the recording was stopped: close the file.
    Finish,
    /// There was nothing to do: sleep before the next pass.
    Sleep,
    /// Go straight on.
    Again,
}

/// The state of the writer between passes.
pub struct Session {
    pub config: SessionConfig,
    pub rate: u32,
    pub channels: u16,
    pub drift: DriftLog,
    pub anchor_flushed: bool,
    pub stream_error: Option<String>,
    pub raw_frames: u64,
}

impl Session {
    pub open spec fn wf(&self) -> bool {
        self.drift.wf()
    }

    pub fn new(config: SessionConfig, bridge: Bridge, rate: u32, channels: u16) -> (r: Session)
        ensures
            r.wf(),
            r.config == config,
            r.rate == rate,
            r.channels == channels,
            r.drift.bridge == bridge,
            r.drift.latency == config.latency,
            r.drift@ == (writer::LogView {
                resolved: Seq::empty(),
                pending: Seq::empty(),
                abandoned: 0,
            }),
            !r.anchor_flushed,
            r.stream_error is None,
            r.raw_frames == 0,
    {
        let drift: DriftLog = DriftLog::new(bridge, config.latency);
        assert(drift.resolved@ =~= Seq::empty());
        assert(drift.pending@ =~= Seq::empty());
        Session {
            config,
            rate,
            channels,
            drift,
            anchor_flushed: false,
            stream_error: None,
            raw_frames: 0,
        }
    }

    /// Everything but the drift log is as it was.
    pub open spec fn same_but_drift(&self, other: &Session) -> bool {
        &&& self.config == other.config
        &&& self.rate == other.rate
        &&& self.channels == other.channels
        &&& self.anchor_flushed == other.anchor_flushed
        &&& self.stream_error == other.stream_error
        &&& self.raw_frames == other.raw_frames
    }

    /// Takes in the marks of a pass, every one of them resolved against the same state of the
    /// reference, and tries the parked ones again.
    pub fn observe_marks<R: Reference>(&mut self, marks: &Vec<TimeMark>, reference: &R)
        requires
            old(self).wf(),
            old(self).drift.abandoned + marks@.len() <= u64::MAX,
        ensures
            final(self).wf(),
            final(self).same_but_drift(old(self)),
            final(self).drift.chain() == old(self).drift.chain(),
            final(self).drift@ == writer::after_retry(
                writer::after_marks(
                    old(self).drift@,
                    old(self).drift.chain(),
                    marks@,
                    reference,
                ),
                old(self).drift.chain(),
                reference,
            ),
            final(self).drift.marks_seen() == old(self).drift.marks_seen() + marks@.len(),
    {
        let mut i: usize = 0;
        assert(marks@.take(0) =~= Seq::<TimeMark>::empty());
        while i < marks.len()
            invariant
                i <= marks@.len(),
                self.wf(),
                self.same_but_drift(old(self)),
                self.drift.chain() == old(self).drift.chain(),
                self.drift@ == writer::after_marks(
                    old(self).drift@,
                    old(self).drift.chain(),
                    marks@.take(i as int),
                    reference,
                ),
                self.drift.abandoned <= old(self).drift.abandoned + i,
                old(self).drift.abandoned + marks@.len() <= u64::MAX,
                self.drift.marks_seen() == old(self).drift.marks_seen() + i,
            decreases marks@.len() - i,
        {
            assert(marks@.take(i + 1).drop_last() =~= marks@.take(i as int));
            assert(marks@.take(i + 1).last() == marks@[i as int]);
            self.drift.observe(marks[i], reference);
            i = i + 1;
        }
        assert(marks@.take(i as int) =~= marks@);
        self.drift.retry_pending(reference);
    }

    /// Whether the anchor is known and has not been written down yet.
    pub fn anchor_due(&self) -> (r: bool)
        ensures
            r == (!self.anchor_flushed && writer::anchor_of(self.drift.resolved@) is Some),
    {
        !self.anchor_flushed && self.drift.t0_unix_nanos().is_some()
    }

    /// The partial sidecar was written, or could not be and is due again.
    pub fn anchor_written(&mut self, ok: bool)
        ensures
            final(self).anchor_flushed == (old(self).anchor_flushed || ok),
            final(self).config == old(self).config,
            final(self).rate == old(self).rate,
            final(self).channels == old(self).channels,
            final(self).drift == old(self).drift,
            final(self).stream_error == old(self).stream_error,
            final(self).raw_frames == old(self).raw_frames,
    {
        if ok {
            self.anchor_flushed = true;
        }
    }

    /// Frames went from the ring into the file.
    pub fn drained(&mut self, frames: u64)
        requires
            old(self).raw_frames + frames <= u64::MAX,
        ensures
            final(self).raw_frames == old(self).raw_frames + frames,
            final(self).config == old(self).config,
            final(self).rate == old(self).rate,
            final(self).channels == old(self).channels,
            final(self).drift == old(self).drift,
            final(self).stream_error == old(self).stream_error,
            final(self).anchor_flushed == old(self).anchor_flushed,
    {
        self.raw_frames = self.raw_frames + frames;
    }

    /// The backend reported an error. The first one is kept.
    pub fn stream_failed(&mut self, error: String)
        ensures
            final(self).stream_error is Some,
            final(self).stream_error->0@ == (match old(self).stream_error {
                Some(first) => first@,
                None => error@,
            }),
            final(self).config == old(self).config,
            final(self).rate == old(self).rate,
            final(self).channels == old(self).channels,
            final(self).drift == old(self).drift,
            final(self).raw_frames == old(self).raw_frames,
            final(self).anchor_flushed == old(self).anchor_flushed,
    {
        if self.stream_error.is_none() {
            self.stream_error = Some(error);
        }
    }

    /// What to do after a pass that drained `drained` frames. A stop is honoured only once
    /// the ring and the mark queue are empty, so that nothing recorded is lost.
    pub fn after_pass(stopping: bool, drained: u64, marks_empty: bool) -> (r: Pass)
        ensures
            r == if stopping && drained == 0 && marks_empty {
                Pass::Finish
            } else if drained == 0 {
                Pass::Sleep
            } else {
                Pass::Again
            },
    {
        if stopping && drained == 0 && marks_empty {
            Pass::Finish
        } else if drained == 0 {
            Pass::Sleep
        } else {
            Pass::Again
        }
    }

    /// The counters to show.
    pub fn progress(&self, overruns: u64) -> (r: Progress)
        ensures
            r == (Progress {
                frames: self.raw_frames,
                overruns,
                observations: self.drift.resolved@.len() as u64,
            }),
    {
        Progress {
            frames: self.raw_frames,
            overruns,
            observations: self.drift.observations().len() as u64,
        }
    }

    /// The instant and the format of the slate label that the sidecar carries, where the take
    /// has an anchor and its reference stamps timecode.
    pub fn slate<R: Reference>(&self, reference: &R) -> (r: Option<(i128, TimecodeFormat)>)
        ensures
            r == self.slate_of(reference),
    {
        match (self.drift.t0_unix_nanos(), reference.timecode_format()) {
            (Some(t0), Some(tc)) => Some((t0, tc)),
            _ => None,
        }
    }

    pub open spec fn slate_of<R: Reference>(&self, reference: &R) -> Option<
        (i128, TimecodeFormat),
    > {
        match (writer::anchor_of(self.drift.resolved@), reference.format_view()) {
            (Some(t0), Some(tc)) => Some((t0, tc)),
            _ => None,
        }
    }

    /// What a sidecar made now says, apart from the stream error.
    pub open spec fn sidecar_matches<R: Reference>(
        &self,
        s: &Sidecar,
        reference: &R,
        label: Option<String>,
        overruns: u64,
        ntp_log: Seq<ClockSample>,
    ) -> bool {
        let status = reference.status_view();
        &&& s.t0_unix_nanos == writer::anchor_of(self.drift.resolved@)
        &&& s.device_name@ == self.config.device_name@
        &&& s.device_rate == self.rate
        &&& s.channels == self.channels
        &&& s.raw_frames == self.raw_frames
        &&& s.clock_source@ == status.source
        &&& s.sync_state@ == status.label
        &&& s.clock_dispersion_s == status.dispersion_s
        &&& s.clock_slope_ppm == status.slope_ppm
        &&& s.clock_samples_accepted == status.samples
        &&& s.clock_samples_rejected == status.discarded
        &&& s.start_timecode == (if self.slate_of(reference) is Some {
            label
        } else {
            None
        })
        &&& match s.session_id {
            Some(id) => reference.session_view() == Some(id@),
            None => reference.session_view() is None,
        }
        &&& s.latency_trim_ms == self.config.latency.trim_ms
        &&& s.overruns == overruns
        &&& s.marks_abandoned == self.drift.abandoned
        &&& s.observations@ == self.drift.resolved@
        &&& s.fit == finalize::fit_of(self.drift.resolved@)
        &&& s.ntp_log@ == ntp_log
    }

    /// The audit trail as it stands: every observation, the line through them, and the
    /// exchanges behind the clock. `label` is the slate label for [`Session::slate`], where
    /// there is one; it is left out where there is no slate.
    pub fn build_sidecar<R: Reference>(
        &self,
        reference: &R,
        label: Option<String>,
        overruns: u64,
        ntp_log: Vec<ClockSample>,
    ) -> (s: Sidecar)
        ensures
            self.sidecar_matches(&s, reference, label, overruns, ntp_log@),
            s.stream_error is None,
    {
        let status: RefStatus = reference.status();
        let t0: Option<i128> = self.drift.t0_unix_nanos();
        let slate: bool = self.slate(reference).is_some();
        Sidecar {
            t0_unix_nanos: t0,
            device_name: self.config.device_name.clone(),
            device_rate: self.rate,
            channels: self.channels,
            raw_frames: self.raw_frames,
            clock_source: status.source,
            sync_state: status.label,
            clock_dispersion_s: status.dispersion_s,
            clock_slope_ppm: status.slope_ppm,
            clock_samples_accepted: status.samples,
            clock_samples_rejected: status.discarded,
            start_timecode: if slate {
                label
            } else {
                None
            },
            session_id: reference.session_id(),
            latency_trim_ms: self.config.latency.trim_ms(),
            overruns,
            marks_abandoned: self.drift.abandoned_count(),
            stream_error: None,
            observations: copied(self.drift.observations()),
            fit: fit_drift(self.drift.observations()),
            ntp_log,
        }
    }

    /// Ends the session: the final sidecar, with the first stream error, and what the
    /// reference said of itself.
    pub fn finish<R: Reference>(
        self,
        reference: &R,
        label: Option<String>,
        overruns: u64,
        ntp_log: Vec<ClockSample>,
    ) -> (r: TakeResult)
        ensures
            r.paths == self.config.paths,
            self.sidecar_matches(&r.sidecar, reference, label, overruns, ntp_log@),
            r.sidecar.stream_error == self.stream_error,
            r.status@ == reference.status_view(),
            r.timecode == reference.format_view(),
    {
        let status: RefStatus = reference.status();
        let timecode: Option<TimecodeFormat> = reference.timecode_format();
        let mut sidecar: Sidecar = self.build_sidecar(reference, label, overruns, ntp_log);
        sidecar.stream_error = self.stream_error;
        TakeResult { paths: self.config.paths, sidecar, status, timecode }
    }
}

fn copied(v: &Vec<DriftObservation>) -> (r: Vec<DriftObservation>)
    ensures
        r@ == v@,
{
    let mut r: Vec<DriftObservation> = Vec::new();
    let mut i: usize = 0;
    while i < v.len()
        invariant
            i <= v@.len(),
            r@ == v@.take(i as int),
        decreases v@.len() - i,
    {
        r.push(v[i]);
        i = i + 1;
        assert(r@ =~= v@.take(i as int));
    }
    assert(r@ =~= v@);
    r
}

/// How many samples to take from a ring that holds `available`, into a scratch buffer of
/// `room`: as many whole frames as there are and fit. Staying frame-aligned keeps the channel
/// interleave correct for the life of the stream.
fn drain_len(available: usize, room: usize, channels: usize) -> (r: usize)
    requires
        channels > 0,
    ensures
        r % channels == 0,
        r <= available,
        r <= room,
        available - r < channels || room - r < channels,
{
    let least: usize = if available < room { available } else { room };
    proof {
        vstd::arithmetic::div_mod::lemma_fundamental_div_mod(least as int, channels as int);
        let q = least as int / channels as int;
        assert(q * channels == channels * q) by (nonlinear_arith);
        vstd::arithmetic::div_mod::lemma_mod_multiples_basic(q, channels as int);
        assert(0 <= q * channels) by (nonlinear_arith)
            requires
                q >= 0,
                channels > 0,
        ;
    }
    least / channels * channels
}

/// Moves whatever is in the ring into the front of `scratch`, whole frames of it, and answers
/// how many samples those are. What follows them in the buffer is not theirs. It looks into the
/// ring once: what it saw there and left is less than a frame, unless the buffer is full.
pub fn drain_audio(audio: &mut Consumer<u32>, scratch: &mut Vec<u32>, channels: u16) -> (n: usize)
    requires
        channels > 0,
    ensures
        n % channels as usize == 0,
        n <= final(scratch)@.len(),
        final(scratch)@.len() == old(scratch)@.len(),
        ring::samples_received(*final(audio)) == ring::samples_received(*old(audio))
            + final(scratch)@.take(n as int),
        final(scratch)@.skip(n as int) == old(scratch)@.skip(n as int),
        ring::samples_known(*final(audio)) < channels || old(scratch)@.len() - n < channels,
{
    let available: usize = samples_waiting(audio);
    let most: usize = drain_len(available, scratch.len(), channels as usize);
    receive_samples(audio, scratch, most)
}

/// The marks as they left the callback.
pub open spec fn as_marks(pairs: Seq<(u64, u128)>) -> Seq<TimeMark> {
    Seq::new(
        pairs.len(),
        |i: int| TimeMark { frame_index: pairs[i].0, capture_nanos: pairs[i].1 },
    )
}

/// Takes the marks out of their ring until it turns out to be empty, which ends it, or until
/// the list is as long as a list can be.
pub fn drain_marks(marks: &mut Consumer<(u64, u128)>) -> (r: Vec<TimeMark>)
    ensures
        as_marks(ring::marks_received(*final(marks))) == as_marks(
            ring::marks_received(*old(marks)),
        ) + r@,
        ring::marks_run_dry(*final(marks)) == ring::marks_run_dry(*old(marks)) + if r@.len()
            < usize::MAX {
            1int
        } else {
            0
        },
{
    let mut out: Vec<TimeMark> = Vec::new();
    let ghost before = ring::marks_received(*marks);
    assert(as_marks(before) =~= as_marks(before) + out@);
    while out.len() < usize::MAX
        invariant
            before == ring::marks_received(*old(marks)),
            as_marks(ring::marks_received(*marks)) == as_marks(before) + out@,
            ring::marks_run_dry(*marks) == ring::marks_run_dry(*old(marks)),
            out@.len() <= usize::MAX,
        decreases usize::MAX - out@.len(),
    {
        let ghost sofar = ring::marks_received(*marks);
        match receive_mark(marks) {
            None => {
                return out;
            },
            Some(pair) => {
                let ghost taken = out@;
                out.push(TimeMark { frame_index: pair.0, capture_nanos: pair.1 });
                assert(as_marks(sofar.push(pair)) =~= as_marks(sofar).push(
                    TimeMark { frame_index: pair.0, capture_nanos: pair.1 },
                ));
                assert(as_marks(before) + out@ =~= (as_marks(before) + taken).push(
                    TimeMark { frame_index: pair.0, capture_nanos: pair.1 },
                ));
            },
        }
    }
    out
}

/// Whole frames among `samples` that came out of the ring.
pub fn whole_frames(samples: usize, channels: usize) -> (r: usize)
    requires
        channels > 0,
    ensures
        r == samples as nat / channels as nat,
{
    samples / channels
}

} // verus!
