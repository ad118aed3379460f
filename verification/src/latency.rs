//! Turning "when the callback fired" into "when the sound hit the microphone".
//!
//! Only the first captured sample is timestamped and the rest are counted, so the whole
//! file's accuracy rests on that one number. The device hands over a buffer at some
//! instant, but the air pressure that became those samples arrived earlier: converter
//! group delay, the driver's ring buffer and the host's safety margin.
//!
//! How much of this the audio backend has already subtracted depends on the platform, so
//! what is reported here is only the **additional** correction still owed. CoreAudio's
//! capture timestamps are already corrected; WASAPI's are not corrected at all; elsewhere
//! nothing has been measured and nothing is claimed.
//!
//! A latency query must never be able to stop a recording. Every failure degrades to zero
//! and records that the number was *assumed* rather than measured.

use crate::drift;
use crate::float::accuracy;
use crate::float::bounds;
use crate::float::error;
use crate::float::error::abs;
use crate::float::ops::Width;
use crate::float::F64;
use crate::instants;
use crate::platform::Platform;
use crate::text;
use crate::text::{push_fixed, push_fixed_signed};
use crate::time;
use crate::time::{held_difference, Duration, GIGA, KILO, MEGA, ZERO};
use vstd::arithmetic::div_mod::*;
use vstd::arithmetic::power2::*;
use vstd::prelude::*;

verus! {

/// Bound on the operator's manual trim: ten thousand milliseconds, as bits.
///
/// Not a physical limit but a typo guard: a stray keystroke should not be able to produce
/// a timestamp that is wrong by a lifetime.
pub const MAX_TRIM_MS: u64 = 0x40C3_8800_0000_0000;

/// The same bound below zero.
pub const MIN_TRIM_MS: u64 = 0xC0C3_8800_0000_0000;

/// Where a latency figure came from, so a reader can tell measurement from guess.
#[derive(Clone, Copy, PartialEq, Eq, Structural, Debug)]
pub enum LatencySource {
    /// The backend corrected the capture timestamp itself and left nothing to do.
    AlreadyCorrected,
    /// The OS was asked and it answered.
    Measured,
    /// There was no finding out. The duration is zero, but the timestamp is uncorrected
    /// and should be labelled so.
    Unavailable,
}

impl LatencySource {
    pub open spec fn name(self) -> Seq<char> {
        match self {
            LatencySource::AlreadyCorrected => "already-corrected"@,
            LatencySource::Measured => "measured"@,
            LatencySource::Unavailable => "unavailable"@,
        }
    }

    pub fn label(self) -> (r: &'static str)
        ensures
            r@ == self.name(),
    {
        match self {
            LatencySource::AlreadyCorrected => "already-corrected",
            LatencySource::Measured => "measured",
            LatencySource::Unavailable => "unavailable",
        }
    }

    /// Whether the zero-or-not figure beside this tag reflects reality.
    ///
    /// `AlreadyCorrected` counts: it is a positive statement that the remaining correction
    /// is nil, not an admission of ignorance.
    pub fn is_trustworthy(self) -> (r: bool)
        ensures
            r == (self != LatencySource::Unavailable),
    {
        match self {
            LatencySource::AlreadyCorrected => true,
            LatencySource::Measured => true,
            LatencySource::Unavailable => false,
        }
    }
}

/// What WASAPI reports of an endpoint, in ticks of a hundred nanoseconds.
#[derive(Clone, Copy, PartialEq, Eq, Structural, Debug)]
pub struct StreamTiming {
    pub latency_ticks: i64,
    /// The engine's default period: the dominant term where no latency is reported.
    pub default_period_ticks: i64,
}

/// A signed count of hundred-nanosecond ticks as a span. Negative is nonsense here and is
/// floored to zero: a negative latency would mean the sound arrived after the buffer.
pub fn reference_time_to_duration(ticks: i64) -> (r: Duration)
    ensures
        r.nanos == if ticks < 0 {
            0int
        } else if ticks * 100 > u64::MAX {
            u64::MAX as int
        } else {
            ticks * 100
        },
{
    if ticks < 0 {
        Duration { nanos: 0 }
    } else {
        let nanos: u128 = ticks as u128 * 100;
        if nanos > u64::MAX as u128 {
            Duration { nanos: u64::MAX as u128 }
        } else {
            Duration { nanos }
        }
    }
}

/// The additional input latency owed on top of the backend's capture timestamp.
///
/// Never negative: a platform cannot say that sound arrived *after* the buffer did. Signed
/// adjustment is the operator's job, via the manual trim.
#[derive(Clone, Copy, PartialEq, Eq, Structural, Debug)]
pub struct InputLatency {
    /// How much further back in time the first sample actually happened.
    pub extra: Duration,
    pub source: LatencySource,
}

impl InputLatency {
    /// The backend already did the subtraction.
    pub fn already_corrected() -> (r: InputLatency)
        ensures
            r == (InputLatency {
                extra: Duration { nanos: 0 },
                source: LatencySource::AlreadyCorrected,
            }),
    {
        InputLatency { extra: Duration { nanos: 0 }, source: LatencySource::AlreadyCorrected }
    }

    /// The OS was asked and answered.
    pub fn measured(extra: Duration) -> (r: InputLatency)
        ensures
            r == (InputLatency { extra, source: LatencySource::Measured }),
    {
        InputLatency { extra, source: LatencySource::Measured }
    }

    /// There was no finding out; assume nothing and say so.
    pub fn unavailable() -> (r: InputLatency)
        ensures
            r == (InputLatency {
                extra: Duration { nanos: 0 },
                source: LatencySource::Unavailable,
            }),
    {
        InputLatency { extra: Duration { nanos: 0 }, source: LatencySource::Unavailable }
    }

    /// How much correction is still owed on a platform. `timing` is what WASAPI answered,
    /// where it was asked and did.
    ///
    /// On macOS the answer is zero whatever was asked: the backend has already walked its
    /// timestamps back, and subtracting again would put every one of them early.
    pub fn query(platform: Platform, timing: Option<StreamTiming>) -> (r: InputLatency)
        ensures
            platform == Platform::MacOs ==> r.source == LatencySource::AlreadyCorrected
                && r.extra.nanos == 0,
            platform == Platform::Other || (platform == Platform::Windows && timing is None) ==> (
            r.source == LatencySource::Unavailable && r.extra.nanos == 0),
            platform == Platform::Windows && timing is Some ==> r.source == LatencySource::Measured
                && r.extra.nanos == ({
                let t = timing->0;
                let ticks: int = if t.latency_ticks > 0 {
                    t.latency_ticks as int
                } else if t.default_period_ticks > 0 {
                    t.default_period_ticks as int
                } else {
                    0
                };
                if ticks * 100 > u64::MAX {
                    u64::MAX as int
                } else {
                    ticks * 100
                }
            }),
    {
        match platform {
            Platform::MacOs => Self::already_corrected(),
            Platform::Other => Self::unavailable(),
            Platform::Windows => match timing {
                None => Self::unavailable(),
                Some(t) => {
                    let ticks: i64 = if t.latency_ticks > 0 {
                        t.latency_ticks
                    } else {
                        t.default_period_ticks
                    };
                    Self::measured(reference_time_to_duration(ticks))
                },
            },
        }
    }

    pub open spec fn millis_of(self) -> F64 {
        time::seconds(self.extra.nanos as nat).mul_spec(F64 { bits: KILO })
    }

    pub fn millis(&self) -> (r: F64)
        ensures
            r == self.millis_of(),
    {
        self.extra.as_secs_f64().mul(F64 { bits: KILO })
    }

    pub open spec fn description(self) -> Seq<char> {
        match self.source {
            LatencySource::AlreadyCorrected => "0.00 ms (backend already corrected the timestamp)"@,
            LatencySource::Measured => text::fixed(self.millis_of(), 2) + " ms (measured)"@,
            LatencySource::Unavailable =>
                "0.00 ms (not available on this platform; timestamp is uncorrected)"@,
        }
    }

    /// One-line summary for the window and the sidecar.
    pub fn describe(&self) -> (r: String)
        ensures
            r@ == self.description(),
    {
        match self.source {
            LatencySource::AlreadyCorrected => String::from_str(
                "0.00 ms (backend already corrected the timestamp)",
            ),
            LatencySource::Measured => {
                let mut s: String = String::new();
                push_fixed(&mut s, self.millis(), 2);
                s.append(" ms (measured)");
                assert(s@ =~= self.description());
                s
            },
            LatencySource::Unavailable => String::from_str(
                "0.00 ms (not available on this platform; timestamp is uncorrected)",
            ),
        }
    }
}

/// The platform figure plus whatever the operator dialled in by hand.
///
/// The manual trim exists because no API knows about the analogue half of the chain. It
/// has to be allowed to go negative: "you are subtracting too much" is just as legitimate
/// a correction as "you are subtracting too little".
#[derive(Clone, Copy, PartialEq, Eq, Structural, Debug)]
pub struct LatencyCorrection {
    pub platform: InputLatency,
    /// Sanitised: finite, and within the typo guard.
    pub trim_ms: F64,
}

/// A typed trim made safe: what is no finite number becomes zero, and the magnitude is
/// held to the typo guard.
pub open spec fn sanitised(trim_ms: F64) -> F64 {
    if trim_ms.is_finite_spec() {
        trim_ms.clamp_spec(F64 { bits: MIN_TRIM_MS }, F64 { bits: MAX_TRIM_MS })
    } else {
        F64 { bits: ZERO }
    }
}

pub open spec fn held_i64(i: int) -> int {
    crate::float::ops::clamped(i, i64::MIN as int, i64::MAX as int)
}

impl LatencyCorrection {
    pub open spec fn wf(self) -> bool {
        &&& self.trim_ms.is_finite_spec()
        &&& (F64 { bits: MIN_TRIM_MS }).le_spec(self.trim_ms)
        &&& self.trim_ms.le_spec(F64 { bits: MAX_TRIM_MS })
    }

    /// `trim_ms` comes straight off a text field, so it is treated as hostile.
    pub fn new(platform: InputLatency, trim_ms: F64) -> (r: LatencyCorrection)
        ensures
            r.wf(),
            r.platform == platform,
            r.trim_ms == sanitised(trim_ms),
    {
        let trim_ms: F64 = if trim_ms.is_finite() {
            trim_ms.clamp(F64 { bits: MIN_TRIM_MS }, F64 { bits: MAX_TRIM_MS })
        } else {
            F64 { bits: ZERO }
        };
        LatencyCorrection { platform, trim_ms }
    }

    /// Platform figure only, no operator trim.
    pub fn platform_only(platform: InputLatency) -> (r: LatencyCorrection)
        ensures
            r.wf(),
            r.platform == platform,
            r.trim_ms == (F64 { bits: ZERO }),
    {
        Self::new(platform, F64 { bits: ZERO })
    }

    /// The trim actually in force, after sanitising, which is not necessarily the number
    /// the operator typed.
    pub fn trim_ms(&self) -> (r: F64)
        ensures
            r == self.trim_ms,
    {
        self.trim_ms
    }

    /// The trim in whole nanoseconds.
    pub open spec fn trim_nanos(self) -> int {
        held_i64(self.trim_ms.mul_spec(F64 { bits: MEGA }).round_i128_spec() as int)
    }

    pub open spec fn total(self) -> int {
        let platform = if self.platform.extra.nanos > i64::MAX {
            i64::MAX as int
        } else {
            self.platform.extra.nanos as int
        };
        held_i64(platform + self.trim_nanos())
    }

    /// Total correction in nanoseconds, **signed**.
    ///
    /// Positive means that the sound happened this long before the reported capture time,
    /// so it is subtracted. Negative is meaningful and deliberately not clamped to zero.
    pub fn total_nanos(&self) -> (r: i64)
        ensures
            r == self.total(),
    {
        let platform: i128 = if self.platform.extra.nanos > i64::MAX as u128 {
            i64::MAX as i128
        } else {
            self.platform.extra.nanos as i128
        };
        let trim: i128 = hold_i64(self.trim_ms.mul(F64 { bits: MEGA }).round_i128()) as i128;
        hold_i64(platform + trim)
    }

    pub fn total_seconds(&self) -> (r: F64)
        ensures
            r == F64::of_int(self.total()).div_spec(F64 { bits: GIGA }),
    {
        F64::from_i128(self.total_nanos() as i128).div(F64 { bits: GIGA })
    }

    pub fn total_millis(&self) -> (r: F64)
        ensures
            r == F64::of_int(self.total()).div_spec(F64 { bits: MEGA }),
    {
        F64::from_i128(self.total_nanos() as i128).div(F64 { bits: MEGA })
    }

    /// A timestamp corrected.
    pub open spec fn applied(self, capture_unix_nanos: int) -> int {
        time::held(capture_unix_nanos - self.total())
    }

    /// Apply the correction to a capture timestamp expressed as unix nanoseconds.
    ///
    /// Subtraction, because the correction says how much *earlier* the sound was.
    pub fn apply(&self, capture_unix_nanos: i128) -> (r: i128)
        ensures
            r == self.applied(capture_unix_nanos as int),
    {
        held_difference(capture_unix_nanos, self.total_nanos() as i128)
    }

    /// Whether the platform half of this figure is a measurement rather than a shrug.
    pub fn platform_is_trustworthy(&self) -> (r: bool)
        ensures
            r == (self.platform.source != LatencySource::Unavailable),
    {
        self.platform.source.is_trustworthy()
    }

    /// One line for the sidecar: both halves, kept separate on purpose so that a reader can
    /// tell which part the machine supplied and which part a human did.
    pub fn describe(&self) -> (r: String)
        ensures
            r@ == "total "@ + text::fixed(
                F64::of_int(self.total()).div_spec(F64 { bits: MEGA }),
                3,
            ) + " ms = platform "@ + self.platform.description() + " + manual "@
                + text::fixed_signed(self.trim_ms, 3) + " ms"@,
    {
        let mut s: String = String::from_str("total ");
        push_fixed(&mut s, self.total_millis(), 3);
        s.append(" ms = platform ");
        let p: String = self.platform.describe();
        s.append(p.as_str());
        s.append(" + manual ");
        push_fixed_signed(&mut s, self.trim_ms, 3);
        s.append(" ms");
        s
    }
}

fn hold_i64(i: i128) -> (r: i64)
    ensures
        r == held_i64(i as int),
{
    if i < i64::MIN as i128 {
        i64::MIN
    } else if i > i64::MAX as i128 {
        i64::MAX
    } else {
        i as i64
    }
}

/// A correction of nothing leaves a timestamp exactly as it was.
pub proof fn law_zero_correction_is_the_identity(c: LatencyCorrection, t: i128)
    requires
        c.total() == 0,
    ensures
        c.applied(t as int) == t,
{
}

/// A correction is one signed shift: it moves every timestamp by the same amount, earlier
/// where the total is positive and later where it is negative.
pub proof fn law_correction_is_a_signed_shift(c: LatencyCorrection, s: i128, t: i128)
    requires
        i128::MIN <= s - c.total() <= i128::MAX,
        i128::MIN <= t - c.total() <= i128::MAX,
    ensures
        c.applied(t as int) - c.applied(s as int) == t - s,
        c.total() > 0 <==> c.applied(t as int) < t,
        c.total() < 0 <==> c.applied(t as int) > t,
{
}

/// The bounds of the trim as doubles: ten thousand on either side.
proof fn lemma_trim_bounds()
    ensures
        (F64 { bits: MAX_TRIM_MS }).is_finite_spec(),
        (F64 { bits: MAX_TRIM_MS }).value() == 10_000 * pow2(1074),
        (F64 { bits: MIN_TRIM_MS }).is_finite_spec(),
        (F64 { bits: MIN_TRIM_MS }).value() == -10_000 * pow2(1074),
{
    lemma2_to64();
    lemma2_to64_rest();
    lemma_fundamental_div_mod_converse(
        MAX_TRIM_MS as int,
        pow2(52) as int,
        1036,
        0x3_8800_0000_0000,
    );
    lemma_pow2_adds(39, 1035);
    assert(0x13_8800_0000_0000 * pow2(1035) == 10_000 * (0x80_0000_0000 * pow2(1035)))
        by (nonlinear_arith);
    error::lemma_neg_value(F64 { bits: MAX_TRIM_MS });
    assert((F64 { bits: MAX_TRIM_MS }).neg_spec() == F64 { bits: MIN_TRIM_MS });
}

/// A typed trim counts as it was typed, within ten seconds on either side; beyond them it counts
/// ten seconds, and what is no number counts nothing.
pub proof fn law_a_trim_counts_as_typed(trim_ms: F64)
    ensures
        ({
            let one = pow2(1074) as int;
            let t = sanitised(trim_ms);
            &&& t.is_finite_spec()
            &&& t.value() == if !trim_ms.is_finite_spec() {
                0
            } else if trim_ms.value() > 10_000 * one {
                10_000 * one
            } else if trim_ms.value() < -10_000 * one {
                -10_000 * one
            } else {
                trim_ms.value()
            }
        }),
{
    let f = Width::Double;
    lemma_trim_bounds();
    accuracy::lemma_zero(f);
    if trim_ms.is_finite_spec() {
        accuracy::lemma_finite_order(f, trim_ms.bits as nat, MAX_TRIM_MS as nat);
        accuracy::lemma_finite_order(f, MAX_TRIM_MS as nat, trim_ms.bits as nat);
        accuracy::lemma_finite_order(f, trim_ms.bits as nat, MIN_TRIM_MS as nat);
        accuracy::lemma_finite_order(f, MIN_TRIM_MS as nat, trim_ms.bits as nat);
    }
}

/// The total is what the platform owes and what the operator dialled in, a million nanoseconds to
/// the millisecond, to within a nanosecond and one part in two to the power of fifty of the trim.
///
/// Platform figures of more than two hundred years are left out.
pub proof fn law_the_total_is_platform_and_trim(c: LatencyCorrection)
    requires
        c.wf(),
        c.platform.extra.nanos <= 0x4000_0000_0000_0000,
    ensures
        ({
            let one = pow2(1074) as int;
            let trim = c.trim_ms.value();
            0x4_0000_0000_0000 * abs(
                (c.total() - c.platform.extra.nanos) * one - 1_000_000 * trim,
            ) <= 1_000_000 * abs(trim) + 0x4_0000_0000_0000 * one
        }),
{
    let f = Width::Double;
    let u = pow2(1074) as int;
    let mega = F64 { bits: MEGA };
    let x = c.trim_ms;
    lemma_trim_bounds();
    lemma_pow2_pos(1074);
    accuracy::lemma_finite_order(f, x.bits as nat, MAX_TRIM_MS as nat);
    accuracy::lemma_finite_order(f, MIN_TRIM_MS as nat, x.bits as nat);
    drift::lemma_mega();
    let xv = x.value();
    assert(abs(xv) <= 10_000 * u);
    lemma2_to64();
    lemma_pow2_adds(14, 1074);
    lemma_pow2_adds(20, 1074);
    assert(abs(xv) == bounds::size(x));
    assert(bounds::within(mega, 1094));
    bounds::lemma_product_within(x, mega, 1088, 1094);
    let g = x.mul_spec(mega);
    error::lemma_finite_product(x, mega);
    assert(abs(g.value()) == bounds::size(g));
    lemma_pow2_adds(1074, 100);
    lemma_pow2_strictly_increases(1108, 1174);
    instants::lemma_nearest(g);
    let gv = g.value();
    let e = gv - 1_000_000 * xv;
    assert(gv * u - xv * (1_000_000 * u) == e * u) by (nonlinear_arith)
        requires
            e == gv - 1_000_000 * xv,
    ;
    assert(abs(e * u) == abs(e) * u && abs(xv * (1_000_000 * u)) == (1_000_000 * abs(xv)) * u)
        by (nonlinear_arith)
        requires
            u > 0,
    ;
    assert(0x20_0000_0000_0000 * abs(e) <= 1_000_000 * abs(xv) + 0x10_0000_0000_0000)
        by (nonlinear_arith)
        requires
            0x20_0000_0000_0000 * (abs(e) * u) <= (1_000_000 * abs(xv)) * u + 0x10_0000_0000_0000
                * u,
            u > 0,
    ;
    bounds::lemma_pow2_order(64, 1074);
    let r = g.round_i128_spec() as int;
    assert(abs(r) <= 20_000_000_000) by (nonlinear_arith)
        requires
            2 * abs(r * u - gv) <= u,
            abs(gv) <= 11_000_000_000 * u,
            u > 0,
    {
        assert(abs(r * u) == abs(r) * u);
    }
    assert(c.total() == c.platform.extra.nanos + r);
}

} // verus!
