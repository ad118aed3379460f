//! A model of the machine's clock, fitted against NTP.
//!
//! The OS wall clock is stepped and slewed by the system time daemon, so it is never
//! read as truth and never corrected. Instead there is a linear model of the
//! *monotonic* clock relative to UTC: the intercept is the offset, the slope is the
//! machine's frequency error. Callers ask what UTC held at an [`Instant`] and get an
//! answer that does not jump when the system clock does.

pub mod bridge;
pub mod line;
pub mod reference;
pub mod sntp;

use crate::float::accuracy;
use crate::float::bounds;
use crate::float::bounds::within;
use crate::float::error;
use crate::float::fold;
use crate::float::fold::{greatest_of, least_of, total_of, NEG_ZERO};
use crate::float::F64;
use crate::instants;
use crate::time;
use crate::time::{
    held_difference, held_sum, signed_elapsed, Duration, Instant, GIGA, MEGA, ONE, TWO, ZERO,
};
use std::collections::VecDeque;
use vstd::arithmetic::power2::pow2;
use vstd::prelude::*;

verus! {

/// How many recent exchanges the fit considers.
pub const WINDOW: usize = 8;

/// Samples whose round-trip delay exceeds this multiple of the window minimum are
/// assumed to have hit a congested or asymmetric path and are dropped. Two, as bits.
pub const DELAY_REJECT_FACTOR: u64 = 0x4000_0000_0000_0000;

/// Accepted samples needed before the clock calls itself synced.
pub const SYNCED_THRESHOLD: usize = 3;

/// Minimum survivors before a slope is believed at all.
pub const MIN_SLOPE_SAMPLES: usize = 4;

/// Minimum span the survivors must cover: sixty seconds, as bits.
pub const MIN_SLOPE_SPAN: u64 = 0x404E_0000_0000_0000;

/// Consumer crystals live inside roughly a hundred parts per million. Beyond two
/// hundred, here as bits, the line is chasing noise, not frequency.
pub const MAX_PLAUSIBLE_PPM: u64 = 0x4069_0000_0000_0000;

/// The distance from one to the next double, as bits.
pub const EPSILON: u64 = 0x3CB0_0000_0000_0000;

/// How long to wait between exchanges, in nanoseconds: sixteen seconds.
pub const POLL_INTERVAL: u128 = 16_000_000_000;

/// A wall-clock reading as unix nanoseconds. The reading is given as the span since the
/// unix epoch, or, where it lies before the epoch, as the span up to it.
pub fn unix_nanos(t: Result<Duration, Duration>) -> (r: i128)
    requires
        (match t {
            Ok(d) => d.nanos <= i128::MAX,
            Err(d) => d.nanos <= i128::MAX,
        }),
    ensures
        r == (match t {
            Ok(d) => d.nanos as int,
            Err(d) => -(d.nanos as int),
        }),
{
    match t {
        Ok(d) => d.nanos as i128,
        Err(d) => -(d.nanos as i128),
    }
}

/// One usable SNTP exchange, already re-expressed against the monotonic clock.
#[derive(Clone, Copy, PartialEq, Eq, Structural, Debug)]
pub struct ClockSample {
    /// Seconds from the model's base to the midpoint of the exchange.
    pub x: F64,
    /// Correction in seconds: true UTC minus what the uncorrected model predicted.
    pub y: F64,
    /// Round-trip delay in seconds. Drives the rejection filter.
    pub delay: F64,
    /// Raw offset the server implied, in seconds. Logged, not fitted.
    pub offset: F64,
    /// Wall time of the exchange. For the sidecar log only.
    pub at_unix_nanos: i128,
}

impl ClockSample {
    /// Both coordinates are numbers, and no larger than readings of two clocks can make them.
    pub open spec fn measured(self) -> bool {
        within(self.x, 1140) && within(self.y, 1201)
    }
}

#[derive(Clone, Copy, PartialEq, Eq, Structural, Debug)]
pub enum SyncState {
    /// No usable exchange yet. Timestamps are not trustworthy.
    Unsynced,
    /// Some samples, but too few to trust the fit.
    Coarse,
    Synced,
}

impl SyncState {
    pub open spec fn name(self) -> Seq<char> {
        match self {
            SyncState::Unsynced => "unsynced"@,
            SyncState::Coarse => "coarse"@,
            SyncState::Synced => "synced"@,
        }
    }

    pub fn label(self) -> (r: &'static str)
        ensures
            r@ == self.name(),
    {
        match self {
            SyncState::Unsynced => "unsynced",
            SyncState::Coarse => "coarse",
            SyncState::Synced => "synced",
        }
    }
}

/// The fitted line through the surviving samples.
#[derive(Clone, Copy, PartialEq, Eq, Structural, Debug)]
pub struct Fit {
    /// Intercept: offset in seconds at the model's base.
    pub a: F64,
    /// Slope: fractional frequency error of the monotonic clock (s/s).
    ///
    /// Zero when the window could not support a trustworthy slope; `slope_trusted` tells
    /// "measured as zero" from "declined to guess".
    pub b: F64,
    /// Whether the slope gates passed and `b` is a real estimate.
    pub slope_trusted: bool,
    pub residual_rms: F64,
    pub min_delay: F64,
    pub used: usize,
    pub total: usize,
    /// Seconds spanned by the surviving samples.
    pub span: F64,
}

impl Fit {
    /// Slope in parts per million.
    pub open spec fn slope_ppm(self) -> F64 {
        self.b.mul_spec(F64 { bits: MEGA })
    }

    /// Slope expressed the way clock people read it.
    pub fn ppm(&self) -> (r: F64)
        ensures
            r == self.slope_ppm(),
    {
        self.b.mul(F64 { bits: MEGA })
    }
}

pub open spec fn xs(s: Seq<ClockSample>) -> Seq<F64> {
    Seq::new(s.len(), |i: int| s[i].x)
}

pub open spec fn ys(s: Seq<ClockSample>) -> Seq<F64> {
    Seq::new(s.len(), |i: int| s[i].y)
}

pub open spec fn delays(s: Seq<ClockSample>) -> Seq<F64> {
    Seq::new(s.len(), |i: int| s[i].delay)
}

/// The samples whose delay does not exceed `cutoff`, in order.
pub open spec fn kept(s: Seq<ClockSample>, cutoff: F64) -> Seq<ClockSample>
    decreases s.len(),
{
    if s.len() == 0 {
        s
    } else {
        let rest = kept(s.drop_last(), cutoff);
        if s.last().delay.le_spec(cutoff) {
            rest.push(s.last())
        } else {
            rest
        }
    }
}

/// The mean of a non-empty sequence: its sum times one over its length.
pub open spec fn mean(s: Seq<F64>) -> F64 {
    fold::total(F64 { bits: NEG_ZERO }, s).mul_spec(
        (F64 { bits: ONE }).div_spec(F64::of_int(s.len() as int)),
    )
}

/// The squared distances of the samples from `mx` along the time axis.
pub open spec fn spreads(k: Seq<ClockSample>, mx: F64) -> Seq<F64> {
    Seq::new(k.len(), |i: int| k[i].x.sub_spec(mx).mul_spec(k[i].x.sub_spec(mx)))
}

/// The products of the distances from the means on both axes.
pub open spec fn co_spreads(k: Seq<ClockSample>, mx: F64, my: F64) -> Seq<F64> {
    Seq::new(k.len(), |i: int| k[i].x.sub_spec(mx).mul_spec(k[i].y.sub_spec(my)))
}

/// The squared distances of the samples from the line `a + b * x`.
pub open spec fn squared_residuals(k: Seq<ClockSample>, a: F64, b: F64) -> Seq<F64> {
    Seq::new(k.len(), |i: int| residual(k[i], a, b).mul_spec(residual(k[i], a, b)))
}

pub open spec fn residual(s: ClockSample, a: F64, b: F64) -> F64 {
    s.y.sub_spec(a.add_spec(b.mul_spec(s.x)))
}

/// Seconds from the earliest to the latest of the samples.
pub open spec fn span_of(k: Seq<ClockSample>) -> F64 {
    fold::greatest(xs(k)).sub_spec(fold::least(xs(k)))
}

/// The spread along the time axis.
pub open spec fn sxx_of(k: Seq<ClockSample>) -> F64 {
    fold::total(F64 { bits: ZERO }, spreads(k, mean(xs(k))))
}

/// The least-squares slope, as it would be if every gate passed.
pub open spec fn slope_of(k: Seq<ClockSample>) -> F64 {
    fold::total(F64 { bits: ZERO }, co_spreads(k, mean(xs(k)), mean(ys(k)))).div_spec(sxx_of(k))
}

/// Whether the survivors can support a slope: enough of them, over a long enough span,
/// spread over it, and with a slope that a crystal could have.
pub open spec fn slope_supported(k: Seq<ClockSample>) -> bool {
    &&& k.len() >= MIN_SLOPE_SAMPLES
    &&& (F64 { bits: MIN_SLOPE_SPAN }).le_spec(span_of(k))
    &&& !sxx_of(k).le_spec(F64 { bits: EPSILON })
    &&& !(F64 { bits: MAX_PLAUSIBLE_PPM }).lt_spec(
        slope_of(k).mul_spec(F64 { bits: MEGA }).abs_spec(),
    )
}

/// Degrees of freedom left once `spent` parameters have been fitted to `n` points.
pub open spec fn degrees(n: nat, spent: nat) -> nat {
    if n > spent + 1 {
        (n - spent) as nat
    } else {
        1
    }
}

/// The line through the survivors `k` of a window of `total` samples: least squares
/// where the slope is supported, and otherwise the mean alone.
pub open spec fn line_through(k: Seq<ClockSample>, min_delay: F64, total: usize) -> Fit {
    let trusted = slope_supported(k);
    let b = if trusted { slope_of(k) } else { F64 { bits: ZERO } };
    let a = if trusted {
        mean(ys(k)).sub_spec(b.mul_spec(mean(xs(k))))
    } else {
        mean(ys(k))
    };
    let sse = fold::total(F64 { bits: NEG_ZERO }, squared_residuals(k, a, b));
    let dof = degrees(k.len(), if trusted { 2 } else { 1 });
    Fit {
        a,
        b,
        slope_trusted: trusted,
        residual_rms: sse.div_spec(F64::of_int(dof as int)).sqrt_spec(),
        min_delay,
        used: k.len() as usize,
        total,
        span: span_of(k),
    }
}

/// The delay above which a sample is dropped.
pub open spec fn cutoff_of(w: Seq<ClockSample>) -> F64 {
    fold::least(delays(w)).mul_spec(F64 { bits: DELAY_REJECT_FACTOR })
}

/// The fit of a window: the slow samples dropped, then a line through the rest; nothing
/// where none is left.
pub open spec fn fit_of(w: Seq<ClockSample>) -> Option<Fit> {
    let k = kept(w, cutoff_of(w));
    if k.len() == 0 {
        None
    } else {
        Some(line_through(k, fold::least(delays(w)), w.len() as usize))
    }
}

fn collect_x(k: &Vec<ClockSample>) -> (r: Vec<F64>)
    ensures
        r@ == xs(k@),
{
    let mut r: Vec<F64> = Vec::new();
    let mut i: usize = 0;
    while i < k.len()
        invariant
            i <= k@.len(),
            r@ == xs(k@).take(i as int),
        decreases k@.len() - i,
    {
        r.push(k[i].x);
        i = i + 1;
        assert(r@ =~= xs(k@).take(i as int));
    }
    assert(r@ =~= xs(k@));
    r
}

fn collect_y(k: &Vec<ClockSample>) -> (r: Vec<F64>)
    ensures
        r@ == ys(k@),
{
    let mut r: Vec<F64> = Vec::new();
    let mut i: usize = 0;
    while i < k.len()
        invariant
            i <= k@.len(),
            r@ == ys(k@).take(i as int),
        decreases k@.len() - i,
    {
        r.push(k[i].y);
        i = i + 1;
        assert(r@ =~= ys(k@).take(i as int));
    }
    assert(r@ =~= ys(k@));
    r
}

/// The mean of some doubles, of which there is at least one.
pub fn mean_of(v: &Vec<F64>) -> (r: F64)
    ensures
        r == mean(v@),
{
    total_of(F64 { bits: NEG_ZERO }, v).mul((F64 { bits: ONE }).div(F64::from_usize(v.len())))
}

/// The window's samples and the least of their delays.
fn survivors(w: &VecDeque<ClockSample>) -> (r: (Vec<ClockSample>, F64))
    ensures
        r.0@ == kept(w@, cutoff_of(w@)),
        r.1 == fold::least(delays(w@)),
{
    let mut ds: Vec<F64> = Vec::new();
    let mut i: usize = 0;
    while i < w.len()
        invariant
            i <= w@.len(),
            ds@ == delays(w@).take(i as int),
        decreases w@.len() - i,
    {
        ds.push(w[i].delay);
        i = i + 1;
        assert(ds@ =~= delays(w@).take(i as int));
    }
    assert(ds@ =~= delays(w@));
    let min_delay: F64 = least_of(&ds);
    let cutoff: F64 = min_delay.mul(F64 { bits: DELAY_REJECT_FACTOR });
    let mut k: Vec<ClockSample> = Vec::new();
    let mut j: usize = 0;
    while j < w.len()
        invariant
            j <= w@.len(),
            k@ == kept(w@.take(j as int), cutoff),
        decreases w@.len() - j,
    {
        assert(w@.take(j + 1).drop_last() =~= w@.take(j as int));
        if w[j].delay.le(cutoff) {
            k.push(w[j]);
        }
        j = j + 1;
    }
    assert(w@.take(j as int) =~= w@);
    (k, min_delay)
}

/// The spread along the time axis and the slope.
fn slope(k: &Vec<ClockSample>, mx: F64, my: F64) -> (r: (F64, F64))
    requires
        mx == mean(xs(k@)),
        my == mean(ys(k@)),
    ensures
        r.0 == sxx_of(k@),
        r.1 == slope_of(k@),
{
    let mut sxx: F64 = F64 { bits: ZERO };
    let mut sxy: F64 = F64 { bits: ZERO };
    let mut i: usize = 0;
    while i < k.len()
        invariant
            i <= k@.len(),
            sxx == fold::total(F64 { bits: ZERO }, spreads(k@, mx).take(i as int)),
            sxy == fold::total(F64 { bits: ZERO }, co_spreads(k@, mx, my).take(i as int)),
        decreases k@.len() - i,
    {
        assert(spreads(k@, mx).take(i + 1).drop_last() =~= spreads(k@, mx).take(i as int));
        assert(co_spreads(k@, mx, my).take(i + 1).drop_last() =~= co_spreads(k@, mx, my).take(
            i as int,
        ));
        let dx: F64 = k[i].x.sub(mx);
        sxx = sxx.add(dx.mul(dx));
        sxy = sxy.add(dx.mul(k[i].y.sub(my)));
        i = i + 1;
    }
    assert(spreads(k@, mx).take(i as int) =~= spreads(k@, mx));
    assert(co_spreads(k@, mx, my).take(i as int) =~= co_spreads(k@, mx, my));
    (sxx, sxy.div(sxx))
}

fn sum_of_squares(k: &Vec<ClockSample>, a: F64, b: F64) -> (r: F64)
    ensures
        r == fold::total(F64 { bits: NEG_ZERO }, squared_residuals(k@, a, b)),
{
    let mut v: Vec<F64> = Vec::new();
    let mut i: usize = 0;
    while i < k.len()
        invariant
            i <= k@.len(),
            v@ == squared_residuals(k@, a, b).take(i as int),
        decreases k@.len() - i,
    {
        let r: F64 = k[i].y.sub(a.add(b.mul(k[i].x)));
        v.push(r.mul(r));
        i = i + 1;
        assert(v@ =~= squared_residuals(k@, a, b).take(i as int));
    }
    assert(v@ =~= squared_residuals(k@, a, b));
    total_of(F64 { bits: NEG_ZERO }, &v)
}

/// The line through the survivors.
fn fit_line(k: &Vec<ClockSample>, min_delay: F64, total: usize) -> (r: Fit)
    requires
        k@.len() > 0,
    ensures
        r == line_through(k@, min_delay, total),
{
    let n: usize = k.len();
    let vx: Vec<F64> = collect_x(k);
    let vy: Vec<F64> = collect_y(k);
    let span: F64 = greatest_of(&vx).sub(least_of(&vx));
    let mean_y: F64 = mean_of(&vy);
    let mx: F64 = mean_of(&vx);

    let mut slope_trusted: bool = n >= MIN_SLOPE_SAMPLES && (F64 { bits: MIN_SLOPE_SPAN }).le(
        span,
    );
    let mut a: F64 = mean_y;
    let mut b: F64 = F64 { bits: ZERO };
    if slope_trusted {
        let (sxx, s) = slope(k, mx, mean_y);
        // A physically impossible slope means that jitter was fitted.
        if sxx.le(F64 { bits: EPSILON }) || (F64 { bits: MAX_PLAUSIBLE_PPM }).lt(
            s.mul(F64 { bits: MEGA }).abs(),
        ) {
            slope_trusted = false;
        } else {
            b = s;
            a = mean_y.sub(s.mul(mx));
        }
    }
    let sse: F64 = sum_of_squares(k, a, b);
    // Divide by the degrees of freedom, not by the count: a count flatters the fit.
    let spent: usize = if slope_trusted { 2 } else { 1 };
    let dof: usize = if n > spent && n - spent > 1 { n - spent } else { 1 };
    Fit {
        a,
        b,
        slope_trusted,
        residual_rms: sse.div(F64::from_usize(dof)).sqrt(),
        min_delay,
        used: n,
        total,
        span,
    }
}

/// An immutable view of the model, cheap to copy out from under a lock.
#[derive(Clone, Copy, PartialEq, Eq, Structural, Debug)]
pub struct ClockSnapshot {
    pub base_mono: Instant,
    pub base_utc_nanos: i128,
    pub fit: Option<Fit>,
    pub state: SyncState,
    pub accepted: u64,
    pub rejected: u64,
    pub failed: u64,
}

impl ClockSnapshot {
    /// The correction of the fitted line at a signed span from the base, in nanoseconds.
    pub open spec fn correction_nanos(fit: Fit, elapsed: int) -> i128 {
        fit.a.add_spec(fit.b.mul_spec(time::signed_seconds(elapsed))).mul_spec(
            F64 { bits: GIGA },
        ).round_i128_spec()
    }

    /// What [`ClockSnapshot::utc_nanos_at`] answers.
    pub open spec fn resolves(self, mono: Instant) -> Option<i128> {
        if self.state == SyncState::Unsynced {
            None
        } else {
            match self.fit {
                None => None,
                Some(fit) => {
                    let dx = mono.nanos - self.base_mono.nanos;
                    Some(
                        time::held(
                            time::held(self.base_utc_nanos + dx) + Self::correction_nanos(fit, dx),
                        ) as i128,
                    )
                },
            }
        }
    }

    /// UTC, as unix nanoseconds, at the given monotonic instant.
    ///
    /// `None` while unsynced rather than a plausible-looking lie.
    pub fn utc_nanos_at(&self, mono: Instant) -> (r: Option<i128>)
        ensures
            r == self.resolves(mono),
    {
        match self.fit {
            None => None,
            Some(fit) => {
                if self.state == SyncState::Unsynced {
                    return None;
                }
                // Signed elapsed: marks can predate the first accepted exchange.
                let (dx_nanos, dx_secs) = signed_elapsed(self.base_mono, mono);
                let correction: F64 = fit.a.add(fit.b.mul(dx_secs));
                let nanos: i128 = correction.mul(F64 { bits: GIGA }).round_i128();
                Some(held_sum(held_sum(self.base_utc_nanos, dx_nanos), nanos))
            },
        }
    }

    pub open spec fn dispersion_of(self) -> Option<F64> {
        match self.fit {
            None => None,
            Some(fit) => Some(
                fit.residual_rms.add_spec(fit.min_delay.div_spec(F64 { bits: TWO })),
            ),
        }
    }

    /// Best estimate of the error, in seconds.
    ///
    /// Fit scatter plus half the minimum observed round trip: even a perfect fit cannot
    /// see path asymmetry, and half the fastest round trip bounds it.
    pub fn dispersion(&self) -> (r: Option<F64>)
        ensures
            r == self.dispersion_of(),
    {
        match self.fit {
            None => None,
            Some(fit) => Some(fit.residual_rms.add(fit.min_delay.div(F64 { bits: TWO }))),
        }
    }

    pub fn fit(&self) -> (r: Option<Fit>)
        ensures
            r == self.fit,
    {
        self.fit
    }

    /// How wrong the OS wall clock was, in seconds (positive = OS is slow), at the instant
    /// `mono` when it read `sys` unix nanoseconds.
    ///
    /// This is *not* the fit's intercept. The model's origin is pinned to the first
    /// accepted exchange so that the fitted correction stays a small number; the absolute
    /// offset lives in `base_utc_nanos`. This recovers it.
    pub fn system_clock_error(&self, mono: Instant, sys: i128) -> (r: Option<F64>)
        ensures
            r == (match self.resolves(mono) {
                None => None::<F64>,
                Some(ours) => Some(
                    F64::of_int(time::held(ours - sys)).div_spec(F64 { bits: GIGA }),
                ),
            }),
            // A thousand million times the answer is how far the wall clock is behind.
            self.resolves(mono) is Some && i128::MIN <= self.resolves(mono)->0 - sys <= i128::MAX
                ==> 0x4_0000_0000_0000 * error::abs(
                1_000_000_000 * r->0.value() - (self.resolves(mono)->0 - sys) * pow2(1074),
            ) <= error::abs(self.resolves(mono)->0 - sys) * pow2(1074),
    {
        match self.utc_nanos_at(mono) {
            None => None,
            Some(ours) => {
                proof {
                    instants::lemma_nanos_in_seconds(time::held(ours - sys));
                }
                Some(F64::from_i128(held_difference(ours, sys)).div(F64 { bits: GIGA }))
            },
        }
    }
}

pub struct ClockModel {
    pub base_mono: Instant,
    /// UTC at `base_mono`, fixed once from the first accepted sample so that the fitted
    /// correction stays a small number near zero.
    pub base_utc_nanos: Option<i128>,
    pub window: VecDeque<ClockSample>,
    pub log: Vec<ClockSample>,
    pub fit: Option<Fit>,
    pub accepted: u64,
    pub rejected: u64,
    pub failed: u64,
}

/// The last `n` items of a sequence, or all of them where there are fewer.
pub open spec fn latest<A>(s: Seq<A>, n: nat) -> Seq<A> {
    if s.len() <= n {
        s
    } else {
        s.skip(s.len() - n)
    }
}

/// The sample that an exchange makes against a model with the given base.
pub open spec fn sample_of(
    base_mono: Instant,
    base_utc: i128,
    mono_mid: Instant,
    utc_mid_nanos: i128,
    delay: F64,
    offset: F64,
) -> ClockSample {
    let dx = mono_mid.nanos - base_mono.nanos;
    ClockSample {
        x: time::signed_seconds(dx),
        y: F64::of_int(time::held(utc_mid_nanos - time::held(base_utc + dx))).div_spec(
            F64 { bits: GIGA },
        ),
        delay,
        offset,
        at_unix_nanos: utc_mid_nanos,
    }
}

proof fn lemma_samples_are_measured(
    base_mono: Instant,
    base_utc: i128,
    mono_mid: Instant,
    utc_mid_nanos: i128,
    delay: F64,
    offset: F64,
)
    ensures
        sample_of(base_mono, base_utc, mono_mid, utc_mid_nanos, delay, offset).measured(),
{
    let dx = mono_mid.nanos - base_mono.nanos;
    time::lemma_signed_seconds_within(dx);
    time::lemma_nanos_in_seconds_within(time::held(utc_mid_nanos - time::held(base_utc + dx)));
}

impl ClockModel {
    /// The window is the tail of the log, the fit is the fit of the window, and every
    /// accepted exchange is in the log, with coordinates that are numbers.
    pub open spec fn wf(&self) -> bool {
        &&& forall|i: int| 0 <= i < self.log@.len() ==> (#[trigger] self.log@[i]).measured()
        &&& self.window@ == latest(self.log@, WINDOW as nat)
        &&& self.accepted == self.log@.len()
        &&& self.fit == fit_of(self.window@)
        &&& self.base_utc_nanos is None <==> self.log@.len() == 0
    }

    pub fn new(base_mono: Instant) -> (r: ClockModel)
        ensures
            r.wf(),
            r.base_mono == base_mono,
            r.base_utc_nanos is None,
            r.log@.len() == 0,
            r.fit is None,
            r.accepted == 0,
            r.rejected == 0,
            r.failed == 0,
    {
        let r = ClockModel {
            base_mono,
            base_utc_nanos: None,
            window: VecDeque::new(),
            log: Vec::new(),
            fit: None,
            accepted: 0,
            rejected: 0,
            failed: 0,
        };
        assert(r.window@ =~= r.log@);
        r
    }

    pub fn base_mono(&self) -> (r: Instant)
        ensures
            r == self.base_mono,
    {
        self.base_mono
    }

    /// Record an exchange that failed outright (timeout, refused, kiss-o'-death).
    pub fn record_failure(&mut self)
        requires
            old(self).failed < u64::MAX,
        ensures
            final(self).failed == old(self).failed + 1,
            final(self).rejected == old(self).rejected,
            final(self).same_samples(old(self)),
    {
        self.failed = self.failed + 1;
    }

    /// Record an exchange discarded because the system clock stepped during it.
    pub fn record_stepped(&mut self)
        requires
            old(self).rejected < u64::MAX,
        ensures
            final(self).rejected == old(self).rejected + 1,
            final(self).failed == old(self).failed,
            final(self).same_samples(old(self)),
    {
        self.rejected = self.rejected + 1;
    }

    /// Equal in everything but the counts of failed and rejected exchanges.
    pub open spec fn same_samples(&self, other: &ClockModel) -> bool {
        &&& self.base_mono == other.base_mono
        &&& self.base_utc_nanos == other.base_utc_nanos
        &&& self.window@ == other.window@
        &&& self.log@ == other.log@
        &&& self.fit == other.fit
        &&& self.accepted == other.accepted
    }

    /// The base UTC that an exchange is measured against: the one already pinned, or, for
    /// the first exchange, the one that the exchange itself implies.
    pub open spec fn pinned(&self, mono_mid: Instant, utc_mid_nanos: i128) -> i128 {
        match self.base_utc_nanos {
            Some(b) => b,
            None => time::held(utc_mid_nanos - (mono_mid.nanos - self.base_mono.nanos)) as i128,
        }
    }

    /// Feed one good exchange.
    ///
    /// `mono_mid` is the midpoint of the request/reply pair on the monotonic clock,
    /// `utc_mid_nanos` the UTC believed to hold at that instant.
    pub fn push(&mut self, mono_mid: Instant, utc_mid_nanos: i128, delay: F64, offset: F64)
        requires
            old(self).wf(),
        ensures
            final(self).wf(),
            final(self).base_mono == old(self).base_mono,
            final(self).base_utc_nanos == Some(old(self).pinned(mono_mid, utc_mid_nanos)),
            final(self).log@ == old(self).log@.push(
                sample_of(
                    old(self).base_mono,
                    old(self).pinned(mono_mid, utc_mid_nanos),
                    mono_mid,
                    utc_mid_nanos,
                    delay,
                    offset,
                ),
            ),
            final(self).accepted == old(self).accepted + 1,
            final(self).rejected == old(self).rejected,
            final(self).failed == old(self).failed,
            final(self).proper_delays() ==> final(self).gated(),
    {
        let (dx_nanos, x) = signed_elapsed(self.base_mono, mono_mid);
        // Pin the origin to the first sample, so that `y` is a small correction rather
        // than a billion-second absolute.
        let base: i128 = match self.base_utc_nanos {
            Some(b) => b,
            None => held_difference(utc_mid_nanos, dx_nanos),
        };
        self.base_utc_nanos = Some(base);
        let y: F64 = F64::from_i128(
            held_difference(utc_mid_nanos, held_sum(base, dx_nanos)),
        ).div(F64 { bits: GIGA });
        let sample = ClockSample { x, y, delay, offset, at_unix_nanos: utc_mid_nanos };
        if self.window.len() == WINDOW {
            self.window.pop_front();
        }
        self.window.push_back(sample);
        self.log.push(sample);
        proof {
            lemma_samples_are_measured(
                self.base_mono,
                base,
                mono_mid,
                utc_mid_nanos,
                delay,
                offset,
            );
        }
        self.accepted = self.log.len() as u64;
        assert(self.window@ =~= latest(self.log@, WINDOW as nat));
        self.refit();
        proof {
            if self.proper_delays() {
                law_the_fit_is_gated(*self);
            }
        }
    }

    /// Drop the samples that took too long, then least-squares the rest.
    fn refit(&mut self)
        ensures
            final(self).fit == fit_of(old(self).window@),
            final(self).base_mono == old(self).base_mono,
            final(self).base_utc_nanos == old(self).base_utc_nanos,
            final(self).window@ == old(self).window@,
            final(self).log@ == old(self).log@,
            final(self).accepted == old(self).accepted,
            final(self).rejected == old(self).rejected,
            final(self).failed == old(self).failed,
    {
        let (k, min_delay) = survivors(&self.window);
        if k.len() == 0 {
            self.fit = None;
        } else {
            self.fit = Some(fit_line(&k, min_delay, self.window.len()));
        }
    }

    pub open spec fn sync_state(&self) -> SyncState {
        if self.fit is None || self.accepted == 0 {
            SyncState::Unsynced
        } else if self.accepted >= SYNCED_THRESHOLD {
            SyncState::Synced
        } else {
            SyncState::Coarse
        }
    }

    pub fn state(&self) -> (r: SyncState)
        ensures
            r == self.sync_state(),
    {
        if self.fit.is_none() || self.accepted == 0 {
            SyncState::Unsynced
        } else if self.accepted >= SYNCED_THRESHOLD as u64 {
            SyncState::Synced
        } else {
            SyncState::Coarse
        }
    }

    pub open spec fn view_of(&self) -> ClockSnapshot {
        ClockSnapshot {
            base_mono: self.base_mono,
            base_utc_nanos: match self.base_utc_nanos {
                Some(b) => b,
                None => 0,
            },
            fit: self.fit,
            state: self.sync_state(),
            accepted: self.accepted,
            rejected: self.rejected,
            failed: self.failed,
        }
    }

    pub fn snapshot(&self) -> (r: ClockSnapshot)
        ensures
            r == self.view_of(),
    {
        ClockSnapshot {
            base_mono: self.base_mono,
            base_utc_nanos: match self.base_utc_nanos {
                Some(b) => b,
                None => 0,
            },
            fit: self.fit,
            state: self.state(),
            accepted: self.accepted,
            rejected: self.rejected,
            failed: self.failed,
        }
    }

    /// Every accepted sample, for the audit sidecar.
    pub fn log(&self) -> (r: &Vec<ClockSample>)
        ensures
            r@ == self.log@,
    {
        &self.log
    }
}

/// A model that has accepted nothing resolves no instant.
pub proof fn law_unsynced_never_resolves(m: ClockModel, at: Instant)
    requires
        m.wf(),
        m.sync_state() == SyncState::Unsynced,
    ensures
        m.view_of().resolves(at) is None,
{
}

/// Without a slope the correction is the same everywhere.
proof fn lemma_flat_correction(fit: Fit, d1: int, d2: int)
    requires
        fit.b.bits == ZERO,
        fit.a.is_finite_spec(),
        -0x2_0000_0000_0000_0000 < d1 < 0x2_0000_0000_0000_0000,
        -0x2_0000_0000_0000_0000 < d2 < 0x2_0000_0000_0000_0000,
    ensures
        ClockSnapshot::correction_nanos(fit, d1) == ClockSnapshot::correction_nanos(fit, d2),
{
    time::lemma_signed_seconds_within(d1);
    time::lemma_signed_seconds_within(d2);
    time::lemma_giga();
    let giga = F64 { bits: GIGA };
    let x1 = time::signed_seconds(d1);
    let x2 = time::signed_seconds(d2);
    assert(fit.b == F64 { bits: 0 });
    accuracy::law_a_multiple_of_zero_adds_nothing(fit.a, x1);
    accuracy::law_a_multiple_of_zero_adds_nothing(fit.a, x2);
    if fit.a.value() == 0 {
        accuracy::lemma_zero_rounds_to_zero(fit.a.add_spec(fit.b.mul_spec(x1)), giga);
        accuracy::lemma_zero_rounds_to_zero(fit.a.add_spec(fit.b.mul_spec(x2)), giga);
    }
}

/// The least of some delays is one of them, where each is a number.
proof fn lemma_least_is_one(w: Seq<ClockSample>) -> (i: int)
    requires
        w.len() > 0,
        forall|i: int| 0 <= i < w.len() ==> (#[trigger] w[i]).delay.is_finite_spec(),
    ensures
        0 <= i < w.len(),
        fold::least(delays(w)) == w[i].delay,
    decreases w.len(),
{
    let fewer = w.drop_last();
    assert(delays(w).drop_last() =~= delays(fewer));
    assert(delays(w).last() == w.last().delay);
    assert(w[w.len() - 1].delay.is_finite_spec());
    if fewer.len() == 0 {
        assert(fold::least(delays(fewer)) == F64 { bits: fold::INFINITY });
        w.len() - 1
    } else {
        assert forall|i: int| 0 <= i < fewer.len() implies (
        #[trigger] fewer[i]).delay.is_finite_spec() by {
            assert(fewer[i] == w[i]);
        }
        let i = lemma_least_is_one(fewer);
        if w.last().delay.lt_spec(w[i].delay) {
            w.len() - 1
        } else {
            i
        }
    }
}

/// What is below the cutoff is kept.
proof fn lemma_kept_holds(s: Seq<ClockSample>, cutoff: F64, i: int)
    requires
        0 <= i < s.len(),
        s[i].delay.le_spec(cutoff),
    ensures
        kept(s, cutoff).len() > 0,
    decreases s.len(),
{
    if i < s.len() - 1 {
        lemma_kept_holds(s.drop_last(), cutoff, i);
    }
}

/// The fastest exchange of a window is never dropped, so a window always has a fit, as long as
/// its delays are proper: numbers, and none of them negative.
pub proof fn law_the_fastest_exchange_is_kept(w: Seq<ClockSample>)
    requires
        w.len() > 0,
        forall|i: int|
            0 <= i < w.len() ==> (#[trigger] w[i]).delay.is_finite_spec()
                && !w[i].delay.is_negative_spec(),
    ensures
        fit_of(w) is Some,
{
    let i = lemma_least_is_one(w);
    accuracy::law_doubling_never_shrinks(w[i].delay);
    lemma_kept_holds(w, cutoff_of(w), i);
}

/// What is left of a window are some of its samples.
proof fn lemma_kept_are_measured(s: Seq<ClockSample>, cutoff: F64)
    requires
        forall|i: int| 0 <= i < s.len() ==> (#[trigger] s[i]).measured(),
    ensures
        kept(s, cutoff).len() <= s.len(),
        forall|i: int|
            0 <= i < kept(s, cutoff).len() ==> (#[trigger] kept(s, cutoff)[i]).measured(),
    decreases s.len(),
{
    if s.len() > 0 {
        let fewer = s.drop_last();
        assert forall|i: int| 0 <= i < fewer.len() implies (#[trigger] fewer[i]).measured() by {
            assert(fewer[i] == s[i]);
        }
        lemma_kept_are_measured(fewer, cutoff);
        assert(s[s.len() - 1].measured());
    }
}

/// The mean of a few numbers is a number.
proof fn lemma_mean_within(s: Seq<F64>, k: nat)
    requires
        1 <= s.len() <= WINDOW,
        forall|i: int| 0 <= i < s.len() ==> within(#[trigger] s[i], k),
        52 <= k <= 2000,
    ensures
        within(mean(s), k + WINDOW as nat),
{
    let n = F64::of_int(s.len() as int);
    let one = F64 { bits: ONE };
    bounds::lemma_total_within(F64 { bits: NEG_ZERO }, s, k);
    bounds::lemma_within_more(
        fold::total(F64 { bits: NEG_ZERO }, s),
        k + s.len(),
        k + WINDOW as nat,
    );
    accuracy::law_small_integers_are_exact(s.len() as int);
    vstd::arithmetic::power2::lemma_pow2_pos(1074);
    let u = vstd::arithmetic::power2::pow2(1074);
    assert(s.len() * u >= u) by (nonlinear_arith)
        requires
            s.len() >= 1,
            u > 0,
    ;
    bounds::lemma_bits_within(one, 1074);
    bounds::lemma_quotient_within(one, n, 1074, 1074);
    bounds::lemma_product_within(
        fold::total(F64 { bits: NEG_ZERO }, s),
        one.div_spec(n),
        k + WINDOW as nat,
        1074,
    );
}

/// The means of some samples are numbers.
proof fn lemma_means_are_numbers(k: Seq<ClockSample>)
    requires
        1 <= k.len() <= WINDOW,
        forall|i: int| 0 <= i < k.len() ==> (#[trigger] k[i]).measured(),
    ensures
        within(mean(xs(k)), 1148),
        within(mean(ys(k)), 1209),
{
    assert forall|i: int| 0 <= i < xs(k).len() implies within(#[trigger] xs(k)[i], 1140) by {
        assert(k[i].measured());
    }
    assert forall|i: int| 0 <= i < ys(k).len() implies within(#[trigger] ys(k)[i], 1201) by {
        assert(k[i].measured());
    }
    lemma_mean_within(xs(k), 1140);
    lemma_mean_within(ys(k), 1201);
}

/// The spread of some samples is a number, and the sum of products behind their slope too.
proof fn lemma_spreads_are_numbers(k: Seq<ClockSample>)
    requires
        1 <= k.len() <= WINDOW,
        forall|i: int| 0 <= i < k.len() ==> (#[trigger] k[i]).measured(),
    ensures
        within(sxx_of(k), 1232),
        within(
            fold::total(F64 { bits: ZERO }, co_spreads(k, mean(xs(k)), mean(ys(k)))),
            1293,
        ),
{
    let mx = mean(xs(k));
    let my = mean(ys(k));
    lemma_means_are_numbers(k);
    assert forall|i: int| 0 <= i < k.len() implies within(#[trigger] spreads(k, mx)[i], 1224)
        && within(co_spreads(k, mx, my)[i], 1285) by {
        assert(k[i].measured());
        bounds::lemma_within_more(k[i].x, 1140, 1148);
        bounds::lemma_within_more(k[i].y, 1201, 1209);
        bounds::lemma_difference_within(k[i].x, mx, 1148);
        bounds::lemma_difference_within(k[i].y, my, 1209);
        let dx = k[i].x.sub_spec(mx);
        bounds::lemma_product_within(dx, dx, 1149, 1149);
        bounds::lemma_product_within(dx, k[i].y.sub_spec(my), 1149, 1210);
    }
    assert forall|i: int| 0 <= i < co_spreads(k, mx, my).len() implies within(
        #[trigger] co_spreads(k, mx, my)[i],
        1285,
    ) by {
        assert(within(spreads(k, mx)[i], 1224));
    }
    bounds::lemma_total_within(F64 { bits: ZERO }, spreads(k, mx), 1224);
    bounds::lemma_total_within(F64 { bits: ZERO }, co_spreads(k, mx, my), 1285);
    bounds::lemma_within_more(sxx_of(k), 1224 + k.len(), 1232);
    bounds::lemma_within_more(
        fold::total(F64 { bits: ZERO }, co_spreads(k, mx, my)),
        1285 + k.len(),
        1293,
    );
}

/// A slope over a spread that is not vanishing is a number.
proof fn lemma_slope_is_a_number(k: Seq<ClockSample>)
    requires
        1 <= k.len() <= WINDOW,
        forall|i: int| 0 <= i < k.len() ==> (#[trigger] k[i]).measured(),
        !sxx_of(k).le_spec(F64 { bits: EPSILON }),
    ensures
        within(slope_of(k), 1345),
        within(slope_of(k).mul_spec(F64 { bits: MEGA }), 1365),
{
    lemma_spreads_are_numbers(k);
    let least = F64 { bits: EPSILON };
    bounds::lemma_power(1022);
    assert(bounds::power_bits(1022) == EPSILON);
    accuracy::lemma_finite_order(
        crate::float::ops::Width::Double,
        sxx_of(k).bits as nat,
        EPSILON as nat,
    );
    vstd::arithmetic::power2::lemma_pow2_pos(1022);
    assert(sxx_of(k).value() > least.value());
    assert(bounds::size(sxx_of(k)) >= vstd::arithmetic::power2::pow2(1022));
    bounds::lemma_quotient_within(
        fold::total(F64 { bits: ZERO }, co_spreads(k, mean(xs(k)), mean(ys(k)))),
        sxx_of(k),
        1293,
        1022,
    );
    bounds::lemma_bits_within(F64 { bits: MEGA }, 1094);
    bounds::lemma_product_within(slope_of(k), F64 { bits: MEGA }, 1345, 1094);
}

/// The line through some samples has numbers for its intercept and its slope.
proof fn lemma_line_is_made_of_numbers(k: Seq<ClockSample>, min_delay: F64, total: usize)
    requires
        1 <= k.len() <= WINDOW,
        forall|i: int| 0 <= i < k.len() ==> (#[trigger] k[i]).measured(),
    ensures
        line_through(k, min_delay, total).a.is_finite_spec(),
        line_through(k, min_delay, total).b.is_finite_spec(),
        line_through(k, min_delay, total).slope_trusted ==> line_through(
            k,
            min_delay,
            total,
        ).slope_ppm().abs_spec().le_spec(F64 { bits: MAX_PLAUSIBLE_PPM }),
{
    lemma_means_are_numbers(k);
    if slope_supported(k) {
        lemma_slope_is_a_number(k);
        let b = slope_of(k);
        bounds::lemma_product_within(b, mean(xs(k)), 1345, 1148);
        bounds::lemma_within_more(mean(ys(k)), 1209, 1419);
        bounds::lemma_difference_within(mean(ys(k)), b.mul_spec(mean(xs(k))), 1419);
        let ppm = b.mul_spec(F64 { bits: MEGA });
        assert(!ppm.abs_spec().is_nan_spec());
    }
}

impl ClockModel {
    /// Whether the delays of the window are proper: numbers, and none of them negative.
    pub open spec fn proper_delays(&self) -> bool {
        forall|i: int|
            0 <= i < self.window@.len() ==> (#[trigger] self.window@[i]).delay.is_finite_spec()
                && !self.window@[i].delay.is_negative_spec()
    }

    /// The samples of the window that were not too slow.
    pub open spec fn survivors(&self) -> Seq<ClockSample> {
        kept(self.window@, cutoff_of(self.window@))
    }

    /// Whether there is a fit of the last samples of the log, and one that says of itself what
    /// holds: what it counts, what it spans, and the gates that its slope passed.
    pub open spec fn gated(&self) -> bool {
        let fit = self.fit->0;
        let w = latest(self.log@, WINDOW as nat);
        let k = self.survivors();
        let cutoff = fold::least(delays(w)).mul_spec(F64 { bits: DELAY_REJECT_FACTOR });
        &&& self.fit is Some
        &&& k == w.filter(|c: ClockSample| c.delay.le_spec(cutoff))
        &&& fit.total == w.len()
        &&& fit.used == k.len()
        &&& 1 <= k.len() <= w.len()
        &&& fit.span == fold::greatest(xs(k)).sub_spec(fold::least(xs(k)))
        &&& fit.a.is_finite_spec()
        &&& fit.b.is_finite_spec()
        &&& fit.slope_trusted ==> {
            &&& fit.used >= MIN_SLOPE_SAMPLES
            &&& (F64 { bits: MIN_SLOPE_SPAN }).le_spec(fit.span)
            &&& fit.slope_ppm().abs_spec().le_spec(F64 { bits: MAX_PLAUSIBLE_PPM })
        }
        &&& !fit.slope_trusted ==> {
            &&& fit.b == F64 { bits: ZERO }
            &&& fit.a == mean(ys(k))
        }
    }
}

/// What is left of the window of a model.
proof fn lemma_survivors(m: ClockModel)
    requires
        m.wf(),
    ensures
        m.window@.len() <= WINDOW,
        m.survivors().len() <= m.window@.len(),
        forall|i: int| 0 <= i < m.survivors().len() ==> (#[trigger] m.survivors()[i]).measured(),
{
    assert forall|i: int| 0 <= i < m.window@.len() implies (
    #[trigger] m.window@[i]).measured() by {
        let at = m.log@.len() - m.window@.len() + i;
        assert(m.window@[i] == m.log@[at]);
    }
    lemma_kept_are_measured(m.window@, cutoff_of(m.window@));
}

/// What is kept is what passes the cutoff, in order.
proof fn lemma_kept_passes(s: Seq<ClockSample>, cutoff: F64)
    ensures
        kept(s, cutoff) == s.filter(|c: ClockSample| c.delay.le_spec(cutoff)),
    decreases s.len(),
{
    reveal(Seq::filter);
    if s.len() > 0 {
        lemma_kept_passes(s.drop_last(), cutoff);
    }
}

/// What a fit says of itself. It counts the window and the samples that survived in it, of which
/// there is at least one, and spans those. A slope is only ever reported where every gate
/// passed: enough survivors, over a long enough span, and a slope that a crystal could have.
/// Otherwise the slope is zero and the intercept is the mean of the survivors.
pub proof fn law_the_fit_is_gated(m: ClockModel)
    requires
        m.wf(),
        m.log@.len() > 0,
        m.proper_delays(),
    ensures
        m.gated(),
{
    law_the_fastest_exchange_is_kept(m.window@);
    lemma_survivors(m);
    lemma_kept_passes(m.window@, cutoff_of(m.window@));
    lemma_line_is_made_of_numbers(
        m.survivors(),
        fold::least(delays(m.window@)),
        m.window@.len() as usize,
    );
}

/// An instant resolves as soon as an exchange was accepted, and not before.
pub proof fn law_resolves_once_an_exchange_was_accepted(m: ClockModel, at: Instant)
    requires
        m.wf(),
        m.proper_delays(),
    ensures
        m.view_of().resolves(at) is None <==> m.log@.len() == 0,
{
    if m.log@.len() > 0 {
        law_the_fit_is_gated(m);
    }
}

/// Until a slope is trusted, UTC advances exactly as the monotonic clock does, between any two
/// instants whose UTC can be told.
pub proof fn law_without_a_slope_spans_are_kept(m: ClockModel, t1: Instant, t2: Instant)
    requires
        m.wf(),
        m.fit is Some,
        !m.fit->0.slope_trusted,
        m.view_of().resolves(t1) is Some ==> i128::MIN < m.view_of().resolves(t1)->0 < i128::MAX,
        m.view_of().resolves(t2) is Some ==> i128::MIN < m.view_of().resolves(t2)->0 < i128::MAX,
        i128::MIN <= m.view_of().base_utc_nanos + t1.nanos - m.base_mono.nanos <= i128::MAX,
        i128::MIN <= m.view_of().base_utc_nanos + t2.nanos - m.base_mono.nanos <= i128::MAX,
    ensures
        m.view_of().resolves(t1) is Some,
        m.view_of().resolves(t2) is Some,
        m.view_of().resolves(t2)->0 - m.view_of().resolves(t1)->0 == t2.nanos - t1.nanos,
{
    lemma_survivors(m);
    lemma_line_is_made_of_numbers(
        m.survivors(),
        fold::least(delays(m.window@)),
        m.window@.len() as usize,
    );
    lemma_flat_correction(m.fit->0, t1.nanos - m.base_mono.nanos, t2.nanos - m.base_mono.nanos);
}

} // verus!
