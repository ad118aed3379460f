//! Drift fitting, the safety gate, and what becomes of a take.
//!
//! A take is recorded at whatever rate the converter actually ran at. Every second or so the
//! capture path drops a pair of a sample and a UTC instant, and by the end of the take those
//! pairs describe a line whose slope *is* the device's true sample rate. Correcting the file
//! to exactly the target rate afterwards is what makes the sample count a time base in its
//! own right.
//!
//! Everything is fitted in *differences from the first observation*, which are small and
//! exact: UTC in unix nanoseconds needs more bits than a double has.
//!
//! The corrected file replaces the raw one, so a bad correction is not a degraded take, it is
//! a destroyed take. The drift gate has to be satisfied on every count before the raw is deleted,
//! and when it is not the raw is kept, the *unresampled* audio ships, and the reasons are
//! given.

use crate::audio::writer::DriftObservation;
use crate::audio::TARGET_RATE;
use crate::bwf::Provenance;
use crate::clock;
use crate::clock::mean_of;
use crate::clock::reference::RefStatus;
use crate::clock::reference::StatusView;
use crate::float::fold;
use crate::float::fold::NEG_ZERO;
use crate::float::F64;
use crate::text;
use crate::text::{push_decimal, push_fixed};
use crate::time;
use crate::time::{held_difference, held_sum, GIGA, KILO, MEGA, ONE, ZERO};
use vstd::prelude::*;

verus! {

/// Accepted exchanges the clock must have behind it. Checked separately from the clock's own
/// definition of "synced", so that loosening that cannot quietly loosen this. Only applies to
/// a reference that counts exchanges at all.
pub const MIN_CLOCK_SAMPLES: u64 = 3;

/// Drift observations required before the fit is believed.
pub const MIN_OBSERVATIONS: usize = 30;

/// How far the correction may stray from unity: two hundred parts per million, as bits.
pub const MAX_DRIFT_PPM: u64 = 0x4069_0000_0000_0000;

/// Ceiling on the scatter of the observations about the fitted line: five milliseconds, in
/// seconds, as bits.
pub const MAX_RESIDUAL_RMS_S: u64 = 0x3F74_7AE1_47AE_147B;

/// Shortest observation span the drift gate will accept: twenty seconds, as bits.
pub const MIN_SPAN_S: u64 = 0x4034_0000_0000_0000;

/// Frames the resampler processes per call.
pub const RESAMPLE_CHUNK: usize = 1024;

/// Shortest clip that is resampled. A clip that never fills a chunk would come back as leading
/// silence; this keeps well clear of that edge.
pub const MIN_RESAMPLE_FRAMES: usize = 4096;

/// A least-squares line through the drift observations.
///
/// The model is `utc_seconds = alpha + beta * sample_index`, fitted in differences from the
/// first observation. `beta` is seconds per sample, so its reciprocal is the rate the
/// converter was really running at.
#[derive(Clone, Copy, PartialEq, Eq, Structural, Debug)]
pub struct DriftFit {
    /// Seconds per device sample: the fitted slope, and the primary quantity.
    pub seconds_per_sample: F64,
    /// The rate the device actually ran at, in Hz.
    pub measured_rate: F64,
    /// The target rate over the measured one: the factor the audio must be resampled by.
    pub drift_ratio: F64,
    /// Scatter of the observations about the line, in seconds.
    pub residual_rms_s: F64,
    /// How many observations went into the fit.
    pub points: usize,
    /// First to last observation, in device samples.
    pub span_samples: u64,
    /// The same span in seconds, per the fitted rate.
    pub span_seconds: F64,
    /// UTC at sample index zero according to the whole line.
    pub t0_unix_nanos: i128,
}

impl DriftFit {
    pub open spec fn correction_ppm(self) -> F64 {
        self.drift_ratio.sub_spec(F64 { bits: ONE }).mul_spec(F64 { bits: MEGA })
    }

    /// The correction expressed the way clock people read it.
    pub fn drift_ppm(&self) -> (r: F64)
        ensures
            r == self.correction_ppm(),
            r == self.drift_ratio.sub_spec(F64 { bits: ONE }).mul_spec(F64 { bits: MEGA }),
    {
        self.drift_ratio.sub(F64 { bits: ONE }).mul(F64 { bits: MEGA })
    }

    pub open spec fn crystal_error(self, nominal_rate: u32) -> F64 {
        self.measured_rate.div_spec(F64::of_int(nominal_rate as int)).sub_spec(
            F64 { bits: ONE },
        ).mul_spec(F64 { bits: MEGA })
    }

    /// How far the converter's crystal was off *its own nominal rate*, in ppm.
    pub fn crystal_ppm(&self, nominal_rate: u32) -> (r: F64)
        ensures
            r == self.crystal_error(nominal_rate),
    {
        self.measured_rate.div(F64::from_u64(nominal_rate as u64)).sub(F64 { bits: ONE }).mul(
            F64 { bits: MEGA },
        )
    }

    /// What [`DriftFit::utc_nanos_at`] answers.
    pub open spec fn utc_at(self, sample_index: u64) -> int {
        time::held(
            self.t0_unix_nanos + self.seconds_per_sample.mul_spec(
                F64::of_int(sample_index as int),
            ).mul_spec(F64 { bits: GIGA }).round_i128_spec(),
        )
    }

    /// UTC at an arbitrary sample index, per the fitted line.
    pub fn utc_nanos_at(&self, sample_index: u64) -> (r: i128)
        ensures
            r == self.utc_at(sample_index),
            r == time::held(
                self.t0_unix_nanos + self.seconds_per_sample.mul_spec(
                    F64::of_int(sample_index as int),
                ).mul_spec(F64 { bits: GIGA }).round_i128_spec(),
            ),
    {
        let dt: F64 = self.seconds_per_sample.mul(F64::from_u64(sample_index));
        held_sum(self.t0_unix_nanos, dt.mul(F64 { bits: GIGA }).round_i128())
    }
}

/// The sample indices, as distances from the first. Exact integer work until the one
/// conversion; an observation out of order is a negative distance.
pub open spec fn dxs(s: Seq<DriftObservation>) -> Seq<F64> {
    Seq::new(s.len(), |i: int| F64::of_int(s[i].sample_index - s[0].sample_index))
}

/// The UTC instants, as seconds from the first.
pub open spec fn dys(s: Seq<DriftObservation>) -> Seq<F64> {
    Seq::new(
        s.len(),
        |i: int|
            F64::of_int(time::held(s[i].utc_unix_nanos - s[0].utc_unix_nanos)).div_spec(
                F64 { bits: GIGA },
            ),
    )
}

/// The products of the distances of two sequences from two values.
pub open spec fn moments(a: Seq<F64>, ma: F64, b: Seq<F64>, mb: F64) -> Seq<F64> {
    Seq::new(a.len(), |i: int| a[i].sub_spec(ma).mul_spec(b[i].sub_spec(mb)))
}

/// The squared distances of points from a line.
pub open spec fn squared_errors(x: Seq<F64>, y: Seq<F64>, alpha: F64, beta: F64) -> Seq<F64> {
    Seq::new(
        x.len(),
        |i: int|
            y[i].sub_spec(alpha.add_spec(beta.mul_spec(x[i]))).mul_spec(
                y[i].sub_spec(alpha.add_spec(beta.mul_spec(x[i]))),
            ),
    )
}

/// The spread of the observations along the sample axis.
pub open spec fn sxx_of(s: Seq<DriftObservation>) -> F64 {
    let mx = clock::mean(dxs(s));
    fold::total(F64 { bits: ZERO }, moments(dxs(s), mx, dxs(s), mx))
}

/// The least-squares slope: seconds per sample.
pub open spec fn beta_of(s: Seq<DriftObservation>) -> F64 {
    fold::total(
        F64 { bits: ZERO },
        moments(dxs(s), clock::mean(dxs(s)), dys(s), clock::mean(dys(s))),
    ).div_spec(sxx_of(s))
}

pub open spec fn alpha_of(s: Seq<DriftObservation>) -> F64 {
    clock::mean(dys(s)).sub_spec(beta_of(s).mul_spec(clock::mean(dxs(s))))
}

/// A positive finite number.
pub open spec fn is_usable(x: F64) -> bool {
    x.is_finite_spec() && !x.le_spec(F64 { bits: ZERO })
}

/// Whether the observations describe a line at all: at least two of them, not all at one
/// sample, with a slope and a rate that are positive finite numbers.
pub open spec fn has_line(s: Seq<DriftObservation>) -> bool {
    &&& s.len() >= 2
    &&& !sxx_of(s).is_nan_spec()
    &&& !sxx_of(s).le_spec(F64 { bits: ZERO })
    &&& is_usable(beta_of(s))
    &&& is_usable((F64 { bits: ONE }).div_spec(beta_of(s)))
}

pub open spec fn lowest(s: Seq<DriftObservation>) -> u64
    decreases s.len(),
{
    if s.len() == 0 {
        u64::MAX
    } else {
        let rest = lowest(s.drop_last());
        if s.last().sample_index < rest {
            s.last().sample_index
        } else {
            rest
        }
    }
}

pub open spec fn highest(s: Seq<DriftObservation>) -> u64
    decreases s.len(),
{
    if s.len() == 0 {
        0
    } else {
        let rest = highest(s.drop_last());
        if s.last().sample_index > rest {
            s.last().sample_index
        } else {
            rest
        }
    }
}

/// The line through observations that describe one.
pub open spec fn line_of(s: Seq<DriftObservation>) -> DriftFit {
    let beta = beta_of(s);
    let alpha = alpha_of(s);
    let measured_rate = (F64 { bits: ONE }).div_spec(beta);
    let sse = fold::total(F64 { bits: NEG_ZERO }, squared_errors(dxs(s), dys(s), alpha, beta));
    let span_samples = (highest(s) - lowest(s)) as u64;
    let to_zero = alpha.add_spec(
        beta.mul_spec(F64::of_int(s[0].sample_index as int).neg_spec()),
    );
    DriftFit {
        seconds_per_sample: beta,
        measured_rate,
        drift_ratio: F64::of_int(TARGET_RATE as int).div_spec(measured_rate),
        residual_rms_s: sse.div_spec(
            F64::of_int(clock::degrees(s.len(), 2) as int),
        ).sqrt_spec(),
        points: s.len() as usize,
        span_samples,
        span_seconds: F64::of_int(span_samples as int).mul_spec(beta),
        t0_unix_nanos: time::held(
            s[0].utc_unix_nanos + to_zero.mul_spec(F64 { bits: GIGA }).round_i128_spec(),
        ) as i128,
    }
}

/// The fit of some observations, where they describe a line.
pub open spec fn fit_of(s: Seq<DriftObservation>) -> Option<DriftFit> {
    if has_line(s) {
        Some(line_of(s))
    } else {
        None
    }
}

/// Observations, all of them later by the same span.
pub open spec fn later(s: Seq<DriftObservation>, nanos: int) -> Seq<DriftObservation> {
    Seq::new(
        s.len(),
        |i: int|
            DriftObservation {
                sample_index: s[i].sample_index,
                utc_unix_nanos: (s[i].utc_unix_nanos + nanos) as i128,
            },
    )
}

/// The date does not bend the fit: observations that are all later by the same span measure
/// exactly the same rate, with exactly the same scatter, and an anchor that is later by just
/// that span, as far as there are instants for it.
pub proof fn law_the_date_does_not_bend_the_fit(s: Seq<DriftObservation>, nanos: int)
    requires
        forall|i: int|
            0 <= i < s.len() ==> i128::MIN <= (#[trigger] s[i]).utc_unix_nanos + nanos <= i128::MAX,
    ensures
        (match (fit_of(s), fit_of(later(s, nanos))) {
            (Some(a), Some(b)) => {
                &&& b == (DriftFit { t0_unix_nanos: b.t0_unix_nanos, ..a })
                &&& i128::MIN < a.t0_unix_nanos < i128::MAX ==> b.t0_unix_nanos == time::held(
                    a.t0_unix_nanos + nanos,
                )
            },
            (None, None) => true,
            _ => false,
        }),
{
    let t = later(s, nanos);
    assert forall|i: int| 0 <= i < s.len() implies (#[trigger] t[i]).utc_unix_nanos
        == s[i].utc_unix_nanos + nanos && t[i].sample_index == s[i].sample_index by {
        assert(i128::MIN <= s[i].utc_unix_nanos + nanos <= i128::MAX);
    }
    assert(dxs(t) =~= dxs(s));
    assert(dys(t) =~= dys(s)) by {
        assert forall|i: int| 0 <= i < s.len() implies dys(t)[i] == dys(s)[i] by {
            assert(t[i].utc_unix_nanos == s[i].utc_unix_nanos + nanos);
            assert(t[0].utc_unix_nanos == s[0].utc_unix_nanos + nanos);
        }
    }
    lemma_later_extent(s, nanos);
    if s.len() > 0 {
        assert(t[0].utc_unix_nanos == s[0].utc_unix_nanos + nanos);
    }
}

proof fn lemma_later_extent(s: Seq<DriftObservation>, nanos: int)
    ensures
        lowest(later(s, nanos)) == lowest(s),
        highest(later(s, nanos)) == highest(s),
    decreases s.len(),
{
    if s.len() > 0 {
        lemma_later_extent(s.drop_last(), nanos);
        assert(later(s, nanos).drop_last() =~= later(s.drop_last(), nanos));
    }
}

/// Both axes as differences from the first observation.
fn differences(s: &Vec<DriftObservation>) -> (r: (Vec<F64>, Vec<F64>))
    requires
        s@.len() > 0,
    ensures
        r.0@ == dxs(s@),
        r.1@ == dys(s@),
{
    let origin: DriftObservation = s[0];
    let mut xs: Vec<F64> = Vec::new();
    let mut ys: Vec<F64> = Vec::new();
    let mut i: usize = 0;
    while i < s.len()
        invariant
            i <= s@.len(),
            s@.len() > 0,
            origin == s@[0],
            xs@ == dxs(s@).take(i as int),
            ys@ == dys(s@).take(i as int),
        decreases s@.len() - i,
    {
        xs.push(F64::from_i128(s[i].sample_index as i128 - origin.sample_index as i128));
        ys.push(
            F64::from_i128(held_difference(s[i].utc_unix_nanos, origin.utc_unix_nanos)).div(
                F64 { bits: GIGA },
            ),
        );
        i = i + 1;
        assert(xs@ =~= dxs(s@).take(i as int));
        assert(ys@ =~= dys(s@).take(i as int));
    }
    assert(xs@ =~= dxs(s@));
    assert(ys@ =~= dys(s@));
    (xs, ys)
}

fn moment_sum(a: &Vec<F64>, ma: F64, b: &Vec<F64>, mb: F64) -> (r: F64)
    requires
        a@.len() == b@.len(),
    ensures
        r == fold::total(F64 { bits: ZERO }, moments(a@, ma, b@, mb)),
{
    let mut acc: F64 = F64 { bits: ZERO };
    let mut i: usize = 0;
    while i < a.len()
        invariant
            i <= a@.len(),
            a@.len() == b@.len(),
            acc == fold::total(F64 { bits: ZERO }, moments(a@, ma, b@, mb).take(i as int)),
        decreases a@.len() - i,
    {
        assert(moments(a@, ma, b@, mb).take(i + 1).drop_last() =~= moments(a@, ma, b@, mb).take(
            i as int,
        ));
        acc = acc.add(a[i].sub(ma).mul(b[i].sub(mb)));
        i = i + 1;
    }
    assert(moments(a@, ma, b@, mb).take(i as int) =~= moments(a@, ma, b@, mb));
    acc
}

fn error_sum(x: &Vec<F64>, y: &Vec<F64>, alpha: F64, beta: F64) -> (r: F64)
    requires
        x@.len() == y@.len(),
    ensures
        r == fold::total(F64 { bits: NEG_ZERO }, squared_errors(x@, y@, alpha, beta)),
{
    let mut acc: F64 = F64 { bits: NEG_ZERO };
    let mut i: usize = 0;
    let ghost all = squared_errors(x@, y@, alpha, beta);
    while i < x.len()
        invariant
            i <= x@.len(),
            x@.len() == y@.len(),
            all == squared_errors(x@, y@, alpha, beta),
            acc == fold::total(F64 { bits: NEG_ZERO }, all.take(i as int)),
        decreases x@.len() - i,
    {
        assert(all.take(i + 1).drop_last() =~= all.take(i as int));
        let r: F64 = y[i].sub(alpha.add(beta.mul(x[i])));
        acc = acc.add(r.mul(r));
        i = i + 1;
    }
    assert(all.take(i as int) =~= all);
    acc
}

/// The lowest and the highest sample index.
fn extent(s: &Vec<DriftObservation>) -> (r: (u64, u64))
    requires
        s@.len() > 0,
    ensures
        r.0 == lowest(s@),
        r.1 == highest(s@),
        r.0 <= r.1,
{
    let mut lo: u64 = u64::MAX;
    let mut hi: u64 = 0;
    let mut i: usize = 0;
    while i < s.len()
        invariant
            i <= s@.len(),
            lo == lowest(s@.take(i as int)),
            hi == highest(s@.take(i as int)),
            i > 0 ==> lo <= hi,
        decreases s@.len() - i,
    {
        assert(s@.take(i + 1).drop_last() =~= s@.take(i as int));
        assert(s@.take(i + 1).last() == s@[i as int]);
        let x: u64 = s[i].sample_index;
        if x < lo {
            lo = x;
        }
        if x > hi {
            hi = x;
        }
        i = i + 1;
    }
    assert(s@.take(i as int) =~= s@);
    (lo, hi)
}

fn usable(x: F64) -> (r: bool)
    ensures
        r == is_usable(x),
{
    x.is_finite() && !x.le(F64 { bits: ZERO })
}

/// Fit `utc_seconds = alpha + beta * sample_index` over the observations.
///
/// `None` when there is nothing to fit: fewer than two points, every point at the same sample
/// index, or a slope that is not a positive finite number (time running backwards across the
/// take, which means that the input is corrupt rather than the crystal being unusual).
pub fn fit_drift(observations: &Vec<DriftObservation>) -> (r: Option<DriftFit>)
    ensures
        r == fit_of(observations@),
{
    let n: usize = observations.len();
    if n < 2 {
        return None;
    }
    let origin: DriftObservation = observations[0];
    let (xs, ys) = differences(observations);
    let mx: F64 = mean_of(&xs);
    let my: F64 = mean_of(&ys);
    let sxx: F64 = moment_sum(&xs, mx, &xs, mx);
    if sxx.is_nan() || sxx.le(F64 { bits: ZERO }) {
        return None;
    }
    let beta: F64 = moment_sum(&xs, mx, &ys, my).div(sxx);
    if !usable(beta) {
        return None;
    }
    let alpha: F64 = my.sub(beta.mul(mx));
    let measured_rate: F64 = (F64 { bits: ONE }).div(beta);
    if !usable(measured_rate) {
        return None;
    }
    let sse: F64 = error_sum(&xs, &ys, alpha, beta);
    let dof: usize = if n > 3 { n - 2 } else { 1 };
    let (lo, hi) = extent(observations);
    let span_samples: u64 = hi - lo;
    // UTC at index zero: walk the line back from the first observation, in seconds, and only
    // then return to absolute nanoseconds.
    let to_zero: F64 = alpha.add(beta.mul(F64::from_u64(origin.sample_index).neg()));
    let t0_unix_nanos: i128 = held_sum(
        origin.utc_unix_nanos,
        to_zero.mul(F64 { bits: GIGA }).round_i128(),
    );
    Some(
        DriftFit {
            seconds_per_sample: beta,
            measured_rate,
            drift_ratio: F64::from_u64(TARGET_RATE as u64).div(measured_rate),
            residual_rms_s: sse.div(F64::from_usize(dof)).sqrt(),
            points: n,
            span_samples,
            span_seconds: F64::from_u64(span_samples).mul(beta),
            t0_unix_nanos,
        },
    )
}

/// One reason the correction was not trusted.
///
/// Rich rather than boolean because the operator can act on most of these.
#[derive(Clone, Debug)]
pub enum GateFailure {
    /// The time reference never reached a state its timestamps could be trusted in.
    ClockNotSynced { state: String },
    /// Synced, but on fewer exchanges than are insisted on.
    TooFewClockSamples { accepted: u64, required: u64 },
    /// Not enough observations to fit anything trustworthy.
    TooFewObservations { got: usize, required: usize },
    /// The observations exist but do not describe a line.
    NoUsableFit { observations: usize },
    /// The observations are bunched into too short a window to determine a rate.
    SpanTooShort { span_s: F64, required_s: F64 },
    /// The implied crystal error is beyond anything real hardware does.
    ImplausibleDrift { ppm: F64, limit_ppm: F64 },
    /// The points scatter too far off the line for the slope to mean anything.
    NoisyFit { residual_rms_s: F64, limit_s: F64 },
    /// The corrected file did not come back off disk the way it was written.
    OutputNotVerified { reason: String },
}

/// A [`GateFailure`] with its texts as sequences of characters.
pub ghost enum FailureView {
    ClockNotSynced { state: Seq<char> },
    TooFewClockSamples { accepted: u64, required: u64 },
    TooFewObservations { got: usize, required: usize },
    NoUsableFit { observations: usize },
    SpanTooShort { span_s: F64, required_s: F64 },
    ImplausibleDrift { ppm: F64, limit_ppm: F64 },
    NoisyFit { residual_rms_s: F64, limit_s: F64 },
    OutputNotVerified { reason: Seq<char> },
}

impl View for GateFailure {
    type V = FailureView;

    open spec fn view(&self) -> FailureView {
        match *self {
            GateFailure::ClockNotSynced { state } => FailureView::ClockNotSynced { state: state@ },
            GateFailure::TooFewClockSamples { accepted, required } =>
                FailureView::TooFewClockSamples { accepted, required },
            GateFailure::TooFewObservations { got, required } => FailureView::TooFewObservations {
                got,
                required,
            },
            GateFailure::NoUsableFit { observations } => FailureView::NoUsableFit { observations },
            GateFailure::SpanTooShort { span_s, required_s } => FailureView::SpanTooShort {
                span_s,
                required_s,
            },
            GateFailure::ImplausibleDrift { ppm, limit_ppm } => FailureView::ImplausibleDrift {
                ppm,
                limit_ppm,
            },
            GateFailure::NoisyFit { residual_rms_s, limit_s } => FailureView::NoisyFit {
                residual_rms_s,
                limit_s,
            },
            GateFailure::OutputNotVerified { reason } => FailureView::OutputNotVerified {
                reason: reason@,
            },
        }
    }
}

impl FailureView {
    /// The reason in words.
    pub open spec fn text(self) -> Seq<char> {
        match self {
            FailureView::ClockNotSynced { state } => "clock never synced (state: "@ + state + ")"@,
            FailureView::TooFewClockSamples { accepted, required } => "only "@ + text::decimal(
                accepted as nat,
            ) + " accepted NTP exchanges, "@ + text::decimal(required as nat) + " needed"@,
            FailureView::TooFewObservations { got, required } => "only "@ + text::decimal(
                got as nat,
            ) + " drift observations, "@ + text::decimal(required as nat) + " needed"@,
            FailureView::NoUsableFit { observations } => text::decimal(observations as nat)
                + " observations do not describe a usable line"@,
            FailureView::SpanTooShort { span_s, required_s } => "observations span only "@
                + text::fixed(span_s, 1) + " s, "@ + text::fixed(required_s, 0) + " s needed"@,
            FailureView::ImplausibleDrift { ppm, limit_ppm } => "implied drift "@ + text::fixed(
                ppm,
                1,
            ) + " ppm exceeds the "@ + text::fixed(limit_ppm, 0) + " ppm limit"@,
            FailureView::NoisyFit { residual_rms_s, limit_s } => "fit residual "@ + text::fixed(
                residual_rms_s.mul_spec(F64 { bits: KILO }),
                2,
            ) + " ms exceeds the "@ + text::fixed(limit_s.mul_spec(F64 { bits: KILO }), 2)
                + " ms limit"@,
            FailureView::OutputNotVerified { reason } => "corrected file failed verification: "@
                + reason,
        }
    }

    /// Whether the take was too short to measure.
    pub open spec fn is_about_length(self) -> bool {
        self is SpanTooShort || self is TooFewObservations || self is NoUsableFit
    }

    /// Whether the clock was at fault.
    pub open spec fn is_about_the_clock(self) -> bool {
        self is ClockNotSynced || self is TooFewClockSamples
    }
}

impl GateFailure {
    pub fn to_text(&self) -> (r: String)
        ensures
            r@ == self@.text(),
    {
        match self {
            GateFailure::ClockNotSynced { state } => {
                let mut s: String = String::from_str("clock never synced (state: ");
                s.append(state.as_str());
                s.append(")");
                s
            },
            GateFailure::TooFewClockSamples { accepted, required } => {
                let mut s: String = String::from_str("only ");
                push_decimal(&mut s, *accepted as u128);
                s.append(" accepted NTP exchanges, ");
                push_decimal(&mut s, *required as u128);
                s.append(" needed");
                s
            },
            GateFailure::TooFewObservations { got, required } => {
                let mut s: String = String::from_str("only ");
                push_decimal(&mut s, *got as u128);
                s.append(" drift observations, ");
                push_decimal(&mut s, *required as u128);
                s.append(" needed");
                s
            },
            GateFailure::NoUsableFit { observations } => {
                let mut s: String = String::new();
                push_decimal(&mut s, *observations as u128);
                s.append(" observations do not describe a usable line");
                assert(s@ =~= self@.text());
                s
            },
            GateFailure::SpanTooShort { span_s, required_s } => {
                let mut s: String = String::from_str("observations span only ");
                push_fixed(&mut s, *span_s, 1);
                s.append(" s, ");
                push_fixed(&mut s, *required_s, 0);
                s.append(" s needed");
                s
            },
            GateFailure::ImplausibleDrift { ppm, limit_ppm } => {
                let mut s: String = String::from_str("implied drift ");
                push_fixed(&mut s, *ppm, 1);
                s.append(" ppm exceeds the ");
                push_fixed(&mut s, *limit_ppm, 0);
                s.append(" ppm limit");
                s
            },
            GateFailure::NoisyFit { residual_rms_s, limit_s } => {
                let mut s: String = String::from_str("fit residual ");
                push_fixed(&mut s, residual_rms_s.mul(F64 { bits: KILO }), 2);
                s.append(" ms exceeds the ");
                push_fixed(&mut s, limit_s.mul(F64 { bits: KILO }), 2);
                s.append(" ms limit");
                s
            },
            GateFailure::OutputNotVerified { reason } => {
                let mut s: String = String::from_str("corrected file failed verification: ");
                s.append(reason.as_str());
                s
            },
        }
    }
}

/// Everything the drift gate found wrong, or nothing at all.
///
/// Collects *all* the failures: an operator told "not enough observations" who then records
/// for longer, only to be told "clock never synced", has been served badly.
pub struct GateReport {
    pub failures: Vec<GateFailure>,
}

impl View for GateReport {
    type V = Seq<FailureView>;

    open spec fn view(&self) -> Seq<FailureView> {
        Seq::new(self.failures@.len(), |i: int| self.failures@[i]@)
    }
}

/// The reasons one after the other.
pub open spec fn listed(s: Seq<FailureView>) -> Seq<char>
    decreases s.len(),
{
    if s.len() == 0 {
        Seq::empty()
    } else if s.len() == 1 {
        s[0].text()
    } else {
        listed(s.drop_last()) + "; "@ + s.last().text()
    }
}

/// The most actionable reason in a few words, ordered by what the operator would do about it
/// rather than by severity.
pub open spec fn summary(s: Seq<FailureView>) -> Option<Seq<char>> {
    if s.len() == 0 {
        None
    } else if exists|i: int| 0 <= i < s.len() && (#[trigger] s[i]).is_about_length() {
        Some("too short to measure drift"@)
    } else if exists|i: int| 0 <= i < s.len() && (#[trigger] s[i]).is_about_the_clock() {
        Some("clock was not synced"@)
    } else if exists|i: int| 0 <= i < s.len() && (#[trigger] s[i]) is ImplausibleDrift {
        Some("measured drift implausible"@)
    } else if exists|i: int| 0 <= i < s.len() && (#[trigger] s[i]) is NoisyFit {
        Some("clock too noisy to fit"@)
    } else {
        Some("could not verify the correction"@)
    }
}

impl GateReport {
    /// True only when every criterion held.
    pub fn passed(&self) -> (r: bool)
        ensures
            r == (self@.len() == 0),
    {
        self.failures.len() == 0
    }

    pub fn failures(&self) -> (r: &Vec<GateFailure>)
        ensures
            r@ == self.failures@,
    {
        &self.failures
    }

    /// A one-line explanation, or `None` when nothing went wrong.
    pub fn reason(&self) -> (r: Option<String>)
        ensures
            r is None <==> self@.len() == 0,
            r is Some ==> r->0@ == listed(self@),
    {
        if self.failures.len() == 0 {
            return None;
        }
        let mut s: String = self.failures[0].to_text();
        let mut i: usize = 1;
        assert(self@.take(1).len() == 1);
        while i < self.failures.len()
            invariant
                1 <= i <= self.failures@.len(),
                s@ == listed(self@.take(i as int)),
            decreases self.failures@.len() - i,
        {
            assert(self@.take(i + 1).drop_last() =~= self@.take(i as int));
            assert(self@.take(i + 1).last() == self@[i as int]);
            let t: String = self.failures[i].to_text();
            s.append("; ");
            s.append(t.as_str());
            i = i + 1;
        }
        assert(self@.take(i as int) =~= self@);
        Some(s)
    }

    /// The single most actionable reason, in a few words, for the status bar.
    ///
    /// The failures are not independent: a short take trips the span check, the count and
    /// often the fit as well. Showing all of them buries the one thing that can be acted on.
    pub fn short_reason(&self) -> (r: Option<&'static str>)
        ensures
            (match r {
                None => summary(self@) is None,
                Some(s) => summary(self@) == Some(s@),
            }),
    {
        if self.failures.len() == 0 {
            return None;
        }
        let mut about_length: bool = false;
        let mut about_clock: bool = false;
        let mut implausible: bool = false;
        let mut noisy: bool = false;
        let mut i: usize = 0;
        while i < self.failures.len()
            invariant
                i <= self.failures@.len(),
                about_length == exists|j: int| 0 <= j < i && (#[trigger] self@[j]).is_about_length(),
                about_clock == exists|j: int|
                    0 <= j < i && (#[trigger] self@[j]).is_about_the_clock(),
                implausible == exists|j: int| 0 <= j < i && (#[trigger] self@[j]) is ImplausibleDrift,
                noisy == exists|j: int| 0 <= j < i && (#[trigger] self@[j]) is NoisyFit,
            decreases self.failures@.len() - i,
        {
            assert(self@[i as int] == self.failures@[i as int]@);
            match &self.failures[i] {
                GateFailure::ClockNotSynced { .. } => {
                    about_clock = true;
                },
                GateFailure::TooFewClockSamples { .. } => {
                    about_clock = true;
                },
                GateFailure::TooFewObservations { .. } => {
                    about_length = true;
                },
                GateFailure::NoUsableFit { .. } => {
                    about_length = true;
                },
                GateFailure::SpanTooShort { .. } => {
                    about_length = true;
                },
                GateFailure::ImplausibleDrift { .. } => {
                    implausible = true;
                },
                GateFailure::NoisyFit { .. } => {
                    noisy = true;
                },
                GateFailure::OutputNotVerified { .. } => {},
            }
            i = i + 1;
        }
        if about_length {
            Some("too short to measure drift")
        } else if about_clock {
            Some("clock was not synced")
        } else if implausible {
            Some("measured drift implausible")
        } else if noisy {
            Some("clock too noisy to fit")
        } else {
            Some("could not verify the correction")
        }
    }

    fn push(&mut self, failure: GateFailure)
        ensures
            final(self)@ == old(self)@.push(failure@),
    {
        self.failures.push(failure);
        assert(self@ =~= old(self)@.push(failure@));
    }
}

impl Default for GateReport {
    fn default() -> (r: GateReport)
        ensures
            r@.len() == 0,
    {
        GateReport { failures: Vec::new() }
    }
}

/// A failure where its criterion does not hold.
pub open spec fn unless(holds: bool, failure: FailureView) -> Seq<FailureView> {
    if holds {
        Seq::empty()
    } else {
        seq![failure]
    }
}

/// A span that is long enough to fit a line to. A NaN is not: it is not known to be long.
pub open spec fn long_enough(span_s: F64) -> bool {
    (F64 { bits: MIN_SPAN_S }).le_spec(span_s)
}

/// A drift that real hardware could have. A NaN fails every comparison, so it has to be asked
/// for separately.
pub open spec fn plausible(ppm: F64) -> bool {
    ppm.is_finite_spec() && !(F64 { bits: MAX_DRIFT_PPM }).le_spec(ppm.abs_spec())
}

pub open spec fn quiet(residual: F64) -> bool {
    residual.is_finite_spec() && !(F64 { bits: MAX_RESIDUAL_RMS_S }).le_spec(residual)
}

/// What the drift gate finds wrong with the fit itself.
pub open spec fn fit_failures(fit: DriftFit, nominal_rate: u32) -> Seq<FailureView> {
    unless(
        long_enough(fit.span_seconds),
        FailureView::SpanTooShort {
            span_s: fit.span_seconds,
            required_s: F64 { bits: MIN_SPAN_S },
        },
    ) + unless(
        plausible(fit.crystal_error(nominal_rate)),
        FailureView::ImplausibleDrift {
            ppm: fit.crystal_error(nominal_rate),
            limit_ppm: F64 { bits: MAX_DRIFT_PPM },
        },
    ) + unless(
        quiet(fit.residual_rms_s),
        FailureView::NoisyFit {
            residual_rms_s: fit.residual_rms_s,
            limit_s: F64 { bits: MAX_RESIDUAL_RMS_S },
        },
    )
}

/// What the drift gate finds wrong, every criterion in turn.
pub open spec fn gate_failures(
    clock: StatusView,
    observations: nat,
    fit: Option<DriftFit>,
    nominal_rate: u32,
) -> Seq<FailureView> {
    unless(clock.synced, FailureView::ClockNotSynced { state: clock.label }) + unless(
        clock.enough_samples(),
        FailureView::TooFewClockSamples {
            accepted: match clock.samples {
                Some(n) => n,
                None => 0,
            },
            required: MIN_CLOCK_SAMPLES,
        },
    ) + unless(
        observations >= MIN_OBSERVATIONS,
        FailureView::TooFewObservations {
            got: observations as usize,
            required: MIN_OBSERVATIONS,
        },
    ) + (match fit {
        None => seq![FailureView::NoUsableFit { observations: observations as usize }],
        Some(f) => fit_failures(f, nominal_rate),
    })
}

/// Decide whether the measured correction may be applied destructively.
///
/// `nominal_rate` is the rate the device claimed to be running at, which is what the
/// plausibility check is measured against. This covers everything knowable before the output
/// file exists.
pub fn evaluate_gate(
    clock: &RefStatus,
    observations: &Vec<DriftObservation>,
    fit: Option<DriftFit>,
    nominal_rate: u32,
) -> (r: GateReport)
    ensures
        r@ == gate_failures(clock@, observations@.len(), fit, nominal_rate),
{
    let mut report: GateReport = GateReport { failures: Vec::new() };
    let ghost empty: Seq<FailureView> = Seq::empty();
    assert(report@ =~= empty);
    let n: usize = observations.len();
    let ghost a = unless(clock.synced, FailureView::ClockNotSynced { state: clock.label@ });
    if !clock.synced {
        report.push(GateFailure::ClockNotSynced { state: clock.label.clone() });
    }
    assert(report@ =~= a);
    let ghost b = unless(
        clock@.enough_samples(),
        FailureView::TooFewClockSamples {
            accepted: match clock.samples {
                Some(n) => n,
                None => 0,
            },
            required: MIN_CLOCK_SAMPLES,
        },
    );
    if let Some(accepted) = clock.samples {
        if accepted < MIN_CLOCK_SAMPLES {
            report.push(
                GateFailure::TooFewClockSamples { accepted, required: MIN_CLOCK_SAMPLES },
            );
        }
    }
    assert(report@ =~= a + b);
    let ghost c = unless(
        n >= MIN_OBSERVATIONS,
        FailureView::TooFewObservations { got: n, required: MIN_OBSERVATIONS },
    );
    if n < MIN_OBSERVATIONS {
        report.push(GateFailure::TooFewObservations { got: n, required: MIN_OBSERVATIONS });
    }
    assert(report@ =~= a + b + c);
    match fit {
        None => {
            report.push(GateFailure::NoUsableFit { observations: n });
            assert(report@ =~= a + b + c + seq![FailureView::NoUsableFit { observations: n }]);
        },
        Some(f) => {
            judge_fit(&mut report, f, nominal_rate);
            assert(report@ =~= a + b + c + fit_failures(f, nominal_rate));
        },
    }
    report
}

fn judge_fit(report: &mut GateReport, fit: DriftFit, nominal_rate: u32)
    ensures
        final(report)@ == old(report)@ + fit_failures(fit, nominal_rate),
{
    let ghost start = report@;
    let ghost a = unless(
        long_enough(fit.span_seconds),
        FailureView::SpanTooShort {
            span_s: fit.span_seconds,
            required_s: F64 { bits: MIN_SPAN_S },
        },
    );
    if !(F64 { bits: MIN_SPAN_S }).le(fit.span_seconds) {
        report.push(
            GateFailure::SpanTooShort {
                span_s: fit.span_seconds,
                required_s: F64 { bits: MIN_SPAN_S },
            },
        );
    }
    assert(report@ =~= start + a);
    let ppm: F64 = fit.crystal_ppm(nominal_rate);
    let ghost b = unless(
        plausible(ppm),
        FailureView::ImplausibleDrift { ppm, limit_ppm: F64 { bits: MAX_DRIFT_PPM } },
    );
    if !ppm.is_finite() || (F64 { bits: MAX_DRIFT_PPM }).le(ppm.abs()) {
        report.push(
            GateFailure::ImplausibleDrift { ppm, limit_ppm: F64 { bits: MAX_DRIFT_PPM } },
        );
    }
    assert(report@ =~= start + a + b);
    let ghost c = unless(
        quiet(fit.residual_rms_s),
        FailureView::NoisyFit {
            residual_rms_s: fit.residual_rms_s,
            limit_s: F64 { bits: MAX_RESIDUAL_RMS_S },
        },
    );
    if !fit.residual_rms_s.is_finite() || (F64 { bits: MAX_RESIDUAL_RMS_S }).le(
        fit.residual_rms_s,
    ) {
        report.push(
            GateFailure::NoisyFit {
                residual_rms_s: fit.residual_rms_s,
                limit_s: F64 { bits: MAX_RESIDUAL_RMS_S },
            },
        );
    }
    assert(report@ =~= start + (a + b + c));
}

/// The drift gate passes exactly when every one of its criteria holds.
pub proof fn law_gate_passes_iff_every_criterion_holds(
    clock: StatusView,
    observations: nat,
    fit: Option<DriftFit>,
    nominal_rate: u32,
)
    ensures
        gate_failures(clock, observations, fit, nominal_rate).len() == 0 <==> {
            &&& clock.synced
            &&& clock.enough_samples()
            &&& observations >= MIN_OBSERVATIONS
            &&& fit is Some
            &&& long_enough(fit->0.span_seconds)
            &&& plausible(fit->0.crystal_error(nominal_rate))
            &&& quiet(fit->0.residual_rms_s)
        },
{
}

/// The drift gate and the record button agree about the clock: nothing is found wrong with it
/// exactly when it reads as ready.
pub proof fn law_gate_agrees_with_ready(
    clock: StatusView,
    observations: nat,
    fit: Option<DriftFit>,
    nominal_rate: u32,
)
    ensures
        clock.is_ready() <==> forall|i: int|
            0 <= i < gate_failures(clock, observations, fit, nominal_rate).len() ==> !(
            #[trigger] gate_failures(
                clock,
                observations,
                fit,
                nominal_rate,
            )[i]).is_about_the_clock(),
{
    let s = gate_failures(clock, observations, fit, nominal_rate);
    if !clock.synced {
        assert(s[0] == (FailureView::ClockNotSynced { state: clock.label }));
    } else if !clock.enough_samples() {
        assert(s[0] is TooFewClockSamples);
    }
}

/// Why a raw take cannot be read whole.
#[derive(Clone, Copy, PartialEq, Eq, Structural, Debug)]
pub enum RawProblem {
    ZeroChannels,
    ZeroRate,
    /// The samples could not be counted, let alone held.
    ImplausiblyLarge,
}

impl RawProblem {
    pub open spec fn text(self) -> Seq<char> {
        match self {
            RawProblem::ZeroChannels => " declares zero channels"@,
            RawProblem::ZeroRate => " declares a zero sample rate"@,
            RawProblem::ImplausiblyLarge => " is implausibly large"@,
        }
    }

    /// The problem in words, to follow the file's name.
    pub fn to_text(self) -> (r: &'static str)
        ensures
            r@ == self.text(),
    {
        match self {
            RawProblem::ZeroChannels => " declares zero channels",
            RawProblem::ZeroRate => " declares a zero sample rate",
            RawProblem::ImplausiblyLarge => " is implausibly large",
        }
    }
}

/// Frames read from a raw take at a time, so that a truncated file yields the frames that are
/// there instead of an error.
pub const READ_BLOCK_FRAMES: usize = 16_384;

/// How far the reading of a raw take has come, in samples.
#[derive(Clone, Copy, PartialEq, Eq, Structural, Debug)]
pub struct RawReading {
    pub channels: usize,
    pub total: usize,
    pub filled: usize,
}

impl RawReading {
    pub open spec fn wf(self) -> bool {
        &&& self.channels > 0
        &&& self.filled <= self.total
        &&& self.channels <= 0xFFFF
    }

    /// Starts on a file that declares its shape and its length in frames.
    pub fn start(channels: u16, rate: u32, frames: u64) -> (r: Result<RawReading, RawProblem>)
        ensures
            (match r {
                Err(RawProblem::ZeroChannels) => channels == 0,
                Err(RawProblem::ZeroRate) => channels > 0 && rate == 0,
                Err(RawProblem::ImplausiblyLarge) => channels > 0 && rate > 0 && frames * channels
                    > usize::MAX,
                Ok(reading) => channels > 0 && rate > 0 && frames * channels <= usize::MAX
                    && reading == (RawReading {
                    channels: channels as usize,
                    total: (frames * channels) as usize,
                    filled: 0,
                }) && reading.wf(),
            }),
    {
        if channels == 0 {
            return Err(RawProblem::ZeroChannels);
        }
        if rate == 0 {
            return Err(RawProblem::ZeroRate);
        }
        proof {
            assert(frames * channels <= u64::MAX * 0xFFFF) by (nonlinear_arith)
                requires
                    0 <= frames <= u64::MAX,
                    0 <= channels <= 0xFFFF,
            ;
        }
        let total: u128 = frames as u128 * channels as u128;
        if total > usize::MAX as u128 {
            return Err(RawProblem::ImplausiblyLarge);
        }
        Ok(RawReading { channels: channels as usize, total: total as usize, filled: 0 })
    }

    /// Where the next block ends: a block further on, or at the end of the file. Equal to
    /// `filled` once there is nothing left to read.
    pub fn block_end(&self) -> (r: usize)
        requires
            self.wf(),
        ensures
            r == if self.total - self.filled < READ_BLOCK_FRAMES * self.channels {
                self.total as int
            } else {
                self.filled + READ_BLOCK_FRAMES * self.channels
            },
    {
        proof {
            assert(READ_BLOCK_FRAMES * self.channels <= 16_384 * 0xFFFF) by (nonlinear_arith)
                requires
                    0 <= self.channels <= 0xFFFF,
            ;
        }
        let block: usize = READ_BLOCK_FRAMES * self.channels;
        if self.total - self.filled < block {
            self.total
        } else {
            self.filled + block
        }
    }

    /// `got` frames of the block arrived. `false` where none did: the file ends early.
    pub fn advance(&mut self, got: u64) -> (more: bool)
        requires
            old(self).wf(),
            old(self).filled + got * old(self).channels <= old(self).total,
        ensures
            final(self).wf(),
            final(self).channels == old(self).channels,
            final(self).total == old(self).total,
            final(self).filled == old(self).filled + got * old(self).channels,
            more == (got > 0 && final(self).filled < final(self).total),
    {
        if got == 0 {
            return false;
        }
        proof {
            let c = self.channels as int;
            assert(got <= got * c) by (nonlinear_arith)
                requires
                    got >= 0,
                    c >= 1,
            ;
        }
        self.filled = self.filled + got as usize * self.channels;
        self.filled < self.total
    }
}

/// Why a clip is not resampled.
#[derive(Clone, Copy, PartialEq, Eq, Structural, Debug)]
pub enum ResampleProblem {
    ZeroChannels,
    /// The buffer is not a whole number of frames.
    RaggedBuffer { samples: usize, channels: usize },
    /// The ratio is not a positive finite number.
    BadRatio { ratio: F64 },
    TooShort { frames: usize },
}

/// Whether a clip of interleaved samples may be resampled, and how many frames it has.
///
/// A clip that never fills a chunk would come back as leading silence: better to refuse than
/// to return something that looks like audio and is not.
pub fn check_resample(samples: usize, channels: u16, ratio: F64) -> (r: Result<
    usize,
    ResampleProblem,
>)
    ensures
        (match r {
            Err(ResampleProblem::ZeroChannels) => channels == 0,
            Err(ResampleProblem::RaggedBuffer { samples: s, channels: c }) => channels > 0 && s
                == samples && c == channels && samples % (channels as usize) != 0,
            Err(ResampleProblem::BadRatio { ratio: x }) => channels > 0 && samples % (
            channels as usize) == 0 && x == ratio && !is_usable(ratio),
            Err(ResampleProblem::TooShort { frames }) => channels > 0 && samples % (
            channels as usize) == 0 && is_usable(ratio) && frames == samples / (channels as usize)
                && frames < MIN_RESAMPLE_FRAMES,
            Ok(frames) => channels > 0 && samples % (channels as usize) == 0 && is_usable(ratio)
                && frames == samples / (channels as usize) && frames >= MIN_RESAMPLE_FRAMES,
        }),
{
    let channels: usize = channels as usize;
    if channels == 0 {
        return Err(ResampleProblem::ZeroChannels);
    }
    if samples % channels != 0 {
        return Err(ResampleProblem::RaggedBuffer { samples, channels });
    }
    if !usable(ratio) {
        return Err(ResampleProblem::BadRatio { ratio });
    }
    let frames: usize = samples / channels;
    if frames < MIN_RESAMPLE_FRAMES {
        return Err(ResampleProblem::TooShort { frames });
    }
    Ok(frames)
}

/// How many frames a buffer to be written holds, or why it cannot be written.
pub fn check_write(samples: usize, channels: u16) -> (r: Result<u64, String>)
    ensures
        (match r {
            Ok(frames) => channels > 0 && samples % (channels as usize) == 0 && frames == samples
                / (channels as usize),
            Err(e) => if channels == 0 {
                e@ == "cannot write a zero-channel file"@
            } else {
                samples % (channels as usize) != 0 && e@ == "interleaved buffer of "@
                    + text::decimal(samples as nat) + " samples is not a whole number of "@
                    + text::decimal(channels as nat) + "-channel frames"@
            },
        }),
{
    if channels == 0 {
        return Err(String::from_str("cannot write a zero-channel file"));
    }
    let c: usize = channels as usize;
    if samples % c != 0 {
        let mut s: String = String::from_str("interleaved buffer of ");
        push_decimal(&mut s, samples as u128);
        s.append(" samples is not a whole number of ");
        push_decimal(&mut s, channels as u128);
        s.append("-channel frames");
        return Err(s);
    }
    Ok((samples / c) as u64)
}

/// What a file says of itself when it is opened again.
#[derive(Clone, Copy, PartialEq, Eq, Structural, Debug)]
pub struct ReadBack {
    pub sample_rate: u32,
    pub channels: u16,
    pub bits_per_sample: u16,
    pub frames: u64,
}

/// Whether a file read back is the one that was meant.
pub open spec fn is_what_was_written(p: &Provenance, frames: u64, got: ReadBack) -> bool {
    &&& got.sample_rate == p.sample_rate
    &&& got.channels == p.channels
    &&& got.bits_per_sample == 24
    &&& got.frames == frames
}

/// What is wrong with a file read back, the first thing first.
pub open spec fn mismatch(p: &Provenance, frames: u64, got: ReadBack) -> Seq<char> {
    if got.sample_rate != p.sample_rate {
        "wrote "@ + text::decimal(p.sample_rate as nat) + " Hz but read back "@ + text::decimal(
            got.sample_rate as nat,
        ) + " Hz"@
    } else if got.channels != p.channels {
        "wrote "@ + text::decimal(p.channels as nat) + " channels but read back "@ + text::decimal(
            got.channels as nat,
        )
    } else if got.bits_per_sample != 24 {
        "wrote 24-bit but read back "@ + text::decimal(got.bits_per_sample as nat) + "-bit"@
    } else {
        "wrote "@ + text::decimal(frames as nat) + " frames but read back "@ + text::decimal(
            got.frames as nat,
        )
    }
}

/// Check that a file just written says what it was meant to say.
///
/// Cheap, and the only thing standing between a truncated write and the removal of the raw
/// capture.
pub fn verify_written(p: &Provenance, frames: u64, got: ReadBack) -> (r: Result<(), String>)
    ensures
        r is Ok <==> is_what_was_written(p, frames, got),
        r is Err ==> r->Err_0@ == mismatch(p, frames, got),
{
    if got.sample_rate != p.sample_rate {
        let mut s: String = String::from_str("wrote ");
        push_decimal(&mut s, p.sample_rate as u128);
        s.append(" Hz but read back ");
        push_decimal(&mut s, got.sample_rate as u128);
        s.append(" Hz");
        return Err(s);
    }
    if got.channels != p.channels {
        let mut s: String = String::from_str("wrote ");
        push_decimal(&mut s, p.channels as u128);
        s.append(" channels but read back ");
        push_decimal(&mut s, got.channels as u128);
        return Err(s);
    }
    if got.bits_per_sample != 24 {
        let mut s: String = String::from_str("wrote 24-bit but read back ");
        push_decimal(&mut s, got.bits_per_sample as u128);
        s.append("-bit");
        return Err(s);
    }
    if got.frames != frames {
        let mut s: String = String::from_str("wrote ");
        push_decimal(&mut s, frames as u128);
        s.append(" frames but read back ");
        push_decimal(&mut s, got.frames as u128);
        return Err(s);
    }
    Ok(())
}

/// What finalising a take actually did.
pub struct Outcome {
    /// The drift fit, if the observations supported one. Present even when the drift gate
    /// failed, so that the measurement that was rejected can be shown.
    pub fit: Option<DriftFit>,
    /// Why the correction was or was not trusted.
    pub gate: GateReport,
    /// Whether the audio that shipped was actually resampled.
    pub resampled: bool,
    /// Whether the raw scratch file was removed.
    pub raw_deleted: bool,
    /// Where the raw file still is, when it was kept.
    pub raw_kept: Option<String>,
    /// Frames in the file that shipped.
    pub frames_written: u64,
    /// Provenance as actually written into the file.
    pub provenance: Provenance,
}

impl Outcome {
    /// True when the take shipped corrected and the scratch file is gone.
    pub fn corrected(&self) -> (r: bool)
        ensures
            r == (self.resampled && self.raw_deleted),
    {
        self.resampled && self.raw_deleted
    }
}

/// The fields that describe what finalising did, filled in from what happened; everything else
/// as it was given.
pub open spec fn is_stamped(
    p: &Provenance,
    given: &Provenance,
    channels: u16,
    device_rate: u32,
    fit: Option<DriftFit>,
    resampled: bool,
) -> bool {
    &&& p.channels == channels
    &&& p.bits_per_sample == 24
    &&& p.device_rate == device_rate
    &&& p.sample_rate == if resampled {
        TARGET_RATE
    } else {
        device_rate
    }
    &&& p.measured_rate == (match fit {
        Some(f) => Some(f.measured_rate),
        None => None,
    })
    &&& p.drift_ratio == (match fit {
        Some(f) => Some(f.drift_ratio),
        None => None,
    })
    &&& p.resampled == resampled
    &&& p.t0_unix_nanos == given.t0_unix_nanos
    &&& p.device_name@ == given.device_name@
    &&& p.clock_source@ == given.clock_source@
    &&& p.clock_dispersion_s == given.clock_dispersion_s
    &&& p.sync_state@ == given.sync_state@
    &&& p.slope_ppm == given.slope_ppm
    &&& p.latency_offset_ms == given.latency_offset_ms
    &&& same_timecode(p, given)
    &&& same_session(p, given)
}

pub open spec fn same_timecode(p: &Provenance, q: &Provenance) -> bool {
    match (p.timecode, q.timecode) {
        (Some(a), Some(b)) => a.format == b.format && a.start@ == b.start@,
        (None, None) => true,
        _ => false,
    }
}

pub open spec fn same_session(p: &Provenance, q: &Provenance) -> bool {
    match (p.session_id, q.session_id) {
        (Some(a), Some(b)) => a@ == b@,
        (None, None) => true,
        _ => false,
    }
}

/// The failure that a report brings, where it brings one.
pub open spec fn not_verified(result: Result<(), String>) -> Option<FailureView> {
    match result {
        Ok(_) => None,
        Err(e) => Some(FailureView::OutputNotVerified { reason: e@ }),
    }
}

/// A take on its way from the raw capture to the file that ships.
///
/// The steps are: begin; resample where [`Finalizing::ratio`] asks for it and report how that
/// went; write the file with the provenance of [`Finalizing::stamp`]; read it back and report
/// that; delete the raw where [`Finalizing::deletes_raw`] allows it; and take the outcome.
pub struct Finalizing {
    pub fit: Option<DriftFit>,
    pub gate: GateReport,
    pub resampled: bool,
    pub channels: u16,
    pub device_rate: u32,
}

impl Finalizing {
    /// Judges a take by its observations and by the clock that timestamped it.
    pub fn begin(
        observations: &Vec<DriftObservation>,
        clock: &RefStatus,
        channels: u16,
        device_rate: u32,
    ) -> (r: Finalizing)
        ensures
            r.fit == fit_of(observations@),
            r.gate@ == gate_failures(clock@, observations@.len(), r.fit, device_rate),
            !r.resampled,
            r.channels == channels,
            r.device_rate == device_rate,
    {
        let fit: Option<DriftFit> = fit_drift(observations);
        let gate: GateReport = evaluate_gate(clock, observations, fit, device_rate);
        Finalizing { fit, gate, resampled: false, channels, device_rate }
    }

    /// The factor to resample by. Only when everything checked out.
    pub fn ratio(&self) -> (r: Option<F64>)
        ensures
            r == if self.asks_for_resampling() {
                Some(self.fit->0.drift_ratio)
            } else {
                None
            },
    {
        match self.fit {
            Some(f) => if self.gate.passed() {
                Some(f.drift_ratio)
            } else {
                None
            },
            None => None,
        }
    }

    /// Whether the take is to be resampled.
    pub open spec fn asks_for_resampling(&self) -> bool {
        self.gate@.len() == 0 && self.fit is Some
    }

    /// The same take after a report on its resampling, with the failure where it failed.
    pub open spec fn follows_resampling(
        &self,
        before: &Finalizing,
        failure: Option<FailureView>,
    ) -> bool {
        &&& self.fit == before.fit
        &&& self.channels == before.channels
        &&& self.device_rate == before.device_rate
        &&& match failure {
            None => self.resampled && self.gate@ == before.gate@,
            Some(f) => self.resampled == before.resampled && self.gate@ == before.gate@.push(f),
        }
    }

    /// The same take after a report on its file, with the failure where it failed.
    pub open spec fn follows_verification(
        &self,
        before: &Finalizing,
        failure: Option<FailureView>,
    ) -> bool {
        &&& self.fit == before.fit
        &&& self.channels == before.channels
        &&& self.device_rate == before.device_rate
        &&& self.resampled == before.resampled
        &&& self.gate@ == (match failure {
            None => before.gate@,
            Some(f) => before.gate@.push(f),
        })
    }

    /// Reports how the resampling went. Refusing to resample is a gate failure, not a fatal
    /// error: the unresampled take is still worth shipping.
    pub fn resampling(&mut self, result: Result<(), String>)
        ensures
            final(self).follows_resampling(old(self), not_verified(result)),
    {
        match result {
            Ok(_) => {
                self.resampled = true;
            },
            Err(e) => {
                self.gate.push(GateFailure::OutputNotVerified { reason: e });
            },
        }
    }

    /// The provenance as it is written into the file. A caller cannot stamp "resampled" on a
    /// take that was not. An uncorrected file is still running at the device's rate, and
    /// labelling it with the target rate would make its sample count lie about time.
    pub fn stamp(&self, given: &Provenance) -> (p: Provenance)
        ensures
            is_stamped(&p, given, self.channels, self.device_rate, self.fit, self.resampled),
    {
        Provenance {
            t0_unix_nanos: given.t0_unix_nanos,
            sample_rate: if self.resampled {
                TARGET_RATE
            } else {
                self.device_rate
            },
            channels: self.channels,
            bits_per_sample: 24,
            device_name: given.device_name.clone(),
            device_rate: self.device_rate,
            measured_rate: match self.fit {
                Some(f) => Some(f.measured_rate),
                None => None,
            },
            drift_ratio: match self.fit {
                Some(f) => Some(f.drift_ratio),
                None => None,
            },
            resampled: self.resampled,
            clock_source: given.clock_source.clone(),
            clock_dispersion_s: given.clock_dispersion_s,
            sync_state: given.sync_state.clone(),
            slope_ppm: given.slope_ppm,
            latency_offset_ms: given.latency_offset_ms,
            timecode: match &given.timecode {
                Some(tc) => Some(
                    crate::bwf::TimecodeStamp { format: tc.format, start: tc.start.clone() },
                ),
                None => None,
            },
            session_id: match &given.session_id {
                Some(id) => Some(id.clone()),
                None => None,
            },
        }
    }

    /// Reports what reading the written file back showed.
    pub fn verification(&mut self, result: Result<(), String>)
        ensures
            final(self).follows_verification(old(self), not_verified(result)),
    {
        if let Err(e) = result {
            self.gate.push(GateFailure::OutputNotVerified { reason: e });
        }
    }

    /// The point of no return: whether the raw capture may be deleted. Everything has to have
    /// held.
    pub fn deletes_raw(&self) -> (r: bool)
        ensures
            r == (self.gate@.len() == 0 && self.resampled),
    {
        self.gate.passed() && self.resampled
    }

    /// What finalising did. `removed` says whether the raw capture at `raw` was removed, which
    /// only counts where [`Finalizing::deletes_raw`] allowed it. A capture that could not be
    /// removed is reported as kept, and is no error: the file that ships is there.
    pub fn outcome(
        self,
        raw: String,
        removed: bool,
        frames_written: u64,
        provenance: Provenance,
    ) -> (r: Outcome)
        ensures
            r.fit == self.fit,
            r.gate@ == self.gate@,
            r.resampled == self.resampled,
            r.raw_deleted == (self.gate@.len() == 0 && self.resampled && removed),
            r.raw_kept is None <==> r.raw_deleted,
            r.raw_kept is Some ==> r.raw_kept->0@ == raw@,
            r.frames_written == frames_written,
            r.provenance == provenance,
    {
        let raw_deleted: bool = self.deletes_raw() && removed;
        Outcome {
            fit: self.fit,
            gate: self.gate,
            resampled: self.resampled,
            raw_deleted,
            raw_kept: if raw_deleted {
                None
            } else {
                Some(raw)
            },
            frames_written,
            provenance,
        }
    }
}

/// A take through both reports: resampled where its ratio asks for it, then read back.
///
/// The raw capture may be deleted exactly when the drift gate found nothing wrong with the take,
/// the resampling worked, and the file read back as it was written. Otherwise it is kept, and
/// where the drift gate failed the audio ships unresampled.
pub proof fn law_raw_is_deleted_only_when_everything_held(
    begun: Finalizing,
    resampled: Finalizing,
    read_back: Finalizing,
    resampling: Option<FailureView>,
    verification: Option<FailureView>,
)
    requires
        !begun.resampled,
        begun.asks_for_resampling() ==> resampled.follows_resampling(&begun, resampling),
        !begun.asks_for_resampling() ==> resampled.resampled == begun.resampled && resampled.gate@
            == begun.gate@,
        read_back.follows_verification(&resampled, verification),
    ensures
        read_back.gate@.len() == 0 && read_back.resampled <==> begun.asks_for_resampling()
            && resampling is None && verification is None,
        begun.gate@.len() > 0 ==> !read_back.resampled,
        begun.gate@.len() <= read_back.gate@.len(),
{
}

/// An uncorrected file is labelled with the device's own rate and says that it was not
/// resampled; a corrected one is labelled with the target rate and says that it was.
pub proof fn law_the_label_tells_the_truth(
    p: Provenance,
    given: Provenance,
    channels: u16,
    device_rate: u32,
    fit: Option<DriftFit>,
    resampled: bool,
)
    requires
        is_stamped(&p, &given, channels, device_rate, fit, resampled),
    ensures
        p.resampled == resampled,
        !resampled ==> p.sample_rate == device_rate,
        resampled ==> p.sample_rate == TARGET_RATE,
        p.t0_unix_nanos == given.t0_unix_nanos,
{
}

/// A file is believed exactly where it says what was meant: the sample rate and the channels of
/// its provenance, twenty-four bits, and every frame that was written.
pub proof fn law_a_file_is_believed_only_as_written(p: Provenance, frames: u64, got: ReadBack)
    ensures
        is_what_was_written(&p, frames, got) <==> got == (ReadBack {
            sample_rate: p.sample_rate,
            channels: p.channels,
            bits_per_sample: 24,
            frames,
        }),
{
}

/// A reason is given exactly where a criterion failed. That a take was too short comes before all
/// else, since nothing else could be measured; that the clock was not synced comes next.
pub proof fn law_the_reason_is_what_can_be_acted_on(s: Seq<FailureView>, i: int)
    ensures
        summary(s) is None <==> s.len() == 0,
        0 <= i < s.len() && s[i].is_about_length() ==> summary(s) == Some(
            "too short to measure drift"@,
        ),
        0 <= i < s.len() && s[i].is_about_the_clock() ==> summary(s) == Some(
            "clock was not synced"@,
        ) || summary(s) == Some("too short to measure drift"@),
        s.len() == 1 && s[0] is ImplausibleDrift ==> summary(s) == Some(
            "measured drift implausible"@,
        ),
        s.len() == 1 && s[0] is NoisyFit ==> summary(s) == Some("clock too noisy to fit"@),
{
    if s.len() == 1 {
        assert forall|j: int| 0 <= j < s.len() implies (#[trigger] s[j]) == s[0] by {
        }
    }
}

} // verus!
