//! Level metering.
//!
//! Peak is kept as the greatest bit pattern, which is the greatest value because bit
//! patterns of non-negative floats are ordered as the values are, and only magnitudes are
//! ever stored. The bar is integrated: it rises quickly so that a transient is visible and
//! falls slowly so that it can be read. The smoothing runs on the RMS *amplitude*, which
//! decays linearly in decibels.

use crate::float::accuracy;
use crate::float::ops;
use crate::float::ops::Width;
use crate::float::{F32, F64};
use vstd::arithmetic::div_mod::*;
use vstd::arithmetic::power2::*;
use vstd::prelude::*;

verus! {

/// Anything quieter than this reads as silence on the meter: minus seventy-two, as bits.
pub const FLOOR_DBFS: u32 = 0xC290_0000;

/// Seventy-two, as bits.
pub const RANGE_DB: u32 = 0x4290_0000;

/// Time constant while the level is rising: thirty milliseconds, as bits.
pub const ATTACK_TAU_S: u32 = 0x3CF5_C28F;

/// Time constant while the level is falling: a hundred and fifty milliseconds, as bits.
pub const RELEASE_TAU_S: u32 = 0x3E19_999A;

/// One, as the bits of a single.
pub const UNITY: u32 = 0x3F80_0000;

/// Twenty, as the bits of a single.
pub const TWENTY: u32 = 0x41A0_0000;

pub struct Meters {
    /// Largest magnitude seen since the window last looked.
    pub peak: Vec<F32>,
    /// Integrated RMS amplitude, with the ballistics applied.
    pub rms: Vec<F32>,
    /// Sticky until cleared.
    pub clipped: Vec<bool>,
    /// Callbacks whose audio did not fit in the ring buffer.
    pub overruns: u64,
    /// Turns a block's frame count into a duration, so that the ballistics do not depend on
    /// the device's buffer size.
    pub sample_rate: u32,
}

/// How far the bar moves towards a block's level, rising and falling.
#[derive(Clone, Copy, PartialEq, Eq, Structural, Debug)]
pub struct Ballistics {
    pub attack: F32,
    pub release: F32,
}

/// What one channel's meter shows.
#[derive(Clone, Copy, PartialEq, Eq, Structural, Debug)]
pub struct Level {
    pub peak: F32,
    pub rms: F32,
    pub clipped: bool,
}

/// The samples of one channel of an interleaved buffer.
pub open spec fn channel_of(s: Seq<F32>, channels: nat, ch: nat) -> Seq<F32> {
    Seq::new(s.len() / channels, |f: int| s[f * channels + ch])
}

/// The greatest magnitude; a NaN is never greater.
pub open spec fn peak_of(c: Seq<F32>) -> F32
    decreases c.len(),
{
    if c.len() == 0 {
        F32 { bits: 0 }
    } else {
        let p = peak_of(c.drop_last());
        let m = c.last().abs_spec();
        if p.lt_spec(m) {
            m
        } else {
            p
        }
    }
}

/// The sum of the squares, in doubles.
pub open spec fn energy(c: Seq<F32>) -> F64
    decreases c.len(),
{
    if c.len() == 0 {
        F64 { bits: 0 }
    } else {
        energy(c.drop_last()).add_spec(
            c.last().to_f64_spec().mul_spec(c.last().to_f64_spec()),
        )
    }
}

/// The RMS amplitude of a block.
pub open spec fn block_rms(c: Seq<F32>) -> F32 {
    energy(c).div_spec(F64::of_int(c.len() as int)).max_spec(
        F64 { bits: 0 },
    ).to_f32_spec().sqrt_spec()
}

/// The bar after a block: moved towards the block's level, and never below zero.
pub open spec fn smoothed(previous: F32, level: F32, b: Ballistics) -> F32 {
    let a = if previous.lt_spec(level) {
        b.attack
    } else {
        b.release
    };
    previous.add_spec(a.mul_spec(level.sub_spec(previous))).max_spec(F32 { bits: 0 })
}

/// A channel's meter after a block.
pub open spec fn level_after(before: Level, c: Seq<F32>, b: Ballistics) -> Level {
    let p = peak_of(c);
    Level {
        peak: if p.bits > before.peak.bits {
            p
        } else {
            before.peak
        },
        rms: smoothed(before.rms, block_rms(c), b),
        clipped: before.clipped || (F32 { bits: UNITY }).le_spec(p),
    }
}

/// Folds one channel of an interleaved buffer into its meter.
pub fn ingest_channel(
    interleaved: &Vec<F32>,
    channels: usize,
    ch: usize,
    before: Level,
    b: Ballistics,
) -> (r: Level)
    requires
        ch < channels,
        interleaved@.len() / channels as nat > 0,
    ensures
        r == level_after(before, channel_of(interleaved@, channels as nat, ch as nat), b),
{
    let total: usize = interleaved.len();
    let frames: usize = total / channels;
    let ghost c = channel_of(interleaved@, channels as nat, ch as nat);
    let mut peak: F32 = F32 { bits: 0 };
    let mut sum_sq: F64 = F64 { bits: 0 };
    let mut f: usize = 0;
    while f < frames
        invariant
            f <= frames,
            ch < channels,
            total == interleaved@.len(),
            frames == interleaved@.len() / channels as nat,
            c == channel_of(interleaved@, channels as nat, ch as nat),
            peak == peak_of(c.take(f as int)),
            sum_sq == energy(c.take(f as int)),
        decreases frames - f,
    {
        proof {
            let n = interleaved@.len() as int;
            let k = channels as int;
            vstd::arithmetic::div_mod::lemma_fundamental_div_mod(n, k);
            assert(f * k + ch < n && f * k >= 0) by (nonlinear_arith)
                requires
                    0 <= f < frames,
                    0 <= ch < k,
                    n == k * frames + n % k,
                    n % k >= 0,
            ;
            assert(c.take(f + 1).drop_last() =~= c.take(f as int));
            assert(c.take(f + 1).last() == c[f as int]);
        }
        let s: F32 = interleaved[f * channels + ch];
        let mag: F32 = s.abs();
        if peak.lt(mag) {
            peak = mag;
        }
        let wide: F64 = s.to_f64();
        sum_sq = sum_sq.add(wide.mul(wide));
        f = f + 1;
    }
    assert(c.take(f as int) =~= c);
    let level: F32 = sum_sq.div(F64::from_usize(frames)).max(F64 { bits: 0 }).to_f32().sqrt();
    let a: F32 = if before.rms.lt(level) { b.attack } else { b.release };
    let bar: F32 = before.rms.add(a.mul(level.sub(before.rms))).max(F32 { bits: 0 });
    Level {
        peak: if peak.bits > before.peak.bits {
            peak
        } else {
            before.peak
        },
        rms: bar,
        clipped: before.clipped || (F32 { bits: UNITY }).le(peak),
    }
}

/// The duration of a block, in seconds.
pub open spec fn block_secs_of(frames: nat, sample_rate: nat) -> F32 {
    F32::of_int(frames as int).div_spec(F32::of_int(sample_rate as int))
}

impl Meters {
    pub open spec fn wf(&self) -> bool {
        &&& self.rms@.len() == self.peak@.len()
        &&& self.clipped@.len() == self.peak@.len()
        &&& self.sample_rate >= 1
    }

    /// A channel's meter.
    pub open spec fn level(&self, ch: int) -> Level {
        Level { peak: self.peak@[ch], rms: self.rms@[ch], clipped: self.clipped@[ch] }
    }

    pub fn new(channels: usize, sample_rate: u32) -> (r: Meters)
        ensures
            r.wf(),
            r.peak@.len() == channels,
            forall|ch: int|
                0 <= ch < channels ==> #[trigger] r.level(ch) == (Level {
                    peak: F32 { bits: 0 },
                    rms: F32 { bits: 0 },
                    clipped: false,
                }),
            r.overruns == 0,
            r.sample_rate == if sample_rate == 0 {
                1
            } else {
                sample_rate
            },
    {
        let mut peak: Vec<F32> = Vec::new();
        let mut rms: Vec<F32> = Vec::new();
        let mut clipped: Vec<bool> = Vec::new();
        let mut i: usize = 0;
        while i < channels
            invariant
                i <= channels,
                peak@.len() == i,
                rms@.len() == i,
                clipped@.len() == i,
                forall|j: int|
                    0 <= j < i ==> peak@[j] == (F32 { bits: 0 }) && rms@[j] == (F32 { bits: 0 })
                        && !clipped@[j],
            decreases channels - i,
        {
            peak.push(F32 { bits: 0 });
            rms.push(F32 { bits: 0 });
            clipped.push(false);
            i = i + 1;
        }
        Meters {
            peak,
            rms,
            clipped,
            overruns: 0,
            sample_rate: if sample_rate == 0 {
                1
            } else {
                sample_rate
            },
        }
    }

    /// The duration of a block of `frames`, in seconds of audio.
    pub fn block_secs(&self, frames: usize) -> (r: F32)
        ensures
            r == block_secs_of(frames as nat, self.sample_rate as nat),
    {
        F32::from_usize(frames).div(F32::from_u64(self.sample_rate as u64))
    }

    /// The power that the base of the natural logarithm is raised to for the smoothing
    /// factor of a block.
    pub fn decay_exponent(block_secs: F32, tau: F32) -> (r: F32)
        ensures
            r == block_secs.neg_spec().div_spec(tau),
    {
        block_secs.neg().div(tau)
    }

    /// Smoothing factor at time constant `tau`, given the block's decay, which is the base
    /// of the natural logarithm raised to [`Meters::decay_exponent`].
    ///
    /// Derived from the block's duration in audio time, so that the ballistics are the same
    /// whether the device hands over few frames at a time or many.
    pub fn alpha(tau: F32, decay: F32) -> (r: F32)
        ensures
            r == if tau.le_spec(F32 { bits: 0 }) {
                F32 { bits: UNITY }
            } else {
                (F32 { bits: UNITY }).sub_spec(decay)
            },
    {
        if tau.le(F32 { bits: 0 }) {
            F32 { bits: UNITY }
        } else {
            (F32 { bits: UNITY }).sub(decay)
        }
    }

    pub fn channels(&self) -> (r: usize)
        ensures
            r == self.peak@.len(),
    {
        self.peak.len()
    }

    /// Fold one interleaved buffer into the meters. A buffer without a whole frame changes
    /// nothing; channels without a meter are not looked at.
    pub fn ingest(&mut self, interleaved: &Vec<F32>, channels: usize, b: Ballistics)
        requires
            old(self).wf(),
        ensures
            final(self).wf(),
            final(self).peak@.len() == old(self).peak@.len(),
            final(self).overruns == old(self).overruns,
            final(self).sample_rate == old(self).sample_rate,
            forall|ch: int|
                0 <= ch < old(self).peak@.len() ==> #[trigger] final(self).level(ch) == if channels
                    != 0 && interleaved@.len() / channels as nat > 0 && ch < channels {
                    level_after(
                        old(self).level(ch),
                        channel_of(interleaved@, channels as nat, ch as nat),
                        b,
                    )
                } else {
                    old(self).level(ch)
                },
    {
        if channels == 0 || interleaved.len() / channels == 0 {
            return;
        }
        let n: usize = if channels < self.peak.len() { channels } else { self.peak.len() };
        let mut ch: usize = 0;
        while ch < n
            invariant
                ch <= n,
                n <= channels,
                n <= old(self).peak@.len(),
                n == channels || n == old(self).peak@.len(),
                channels > 0,
                interleaved@.len() / channels as nat > 0,
                self.wf(),
                self.peak@.len() == old(self).peak@.len(),
                self.overruns == old(self).overruns,
                self.sample_rate == old(self).sample_rate,
                forall|j: int|
                    0 <= j < old(self).peak@.len() ==> #[trigger] self.level(j) == if j < ch {
                        level_after(
                            old(self).level(j),
                            channel_of(interleaved@, channels as nat, j as nat),
                            b,
                        )
                    } else {
                        old(self).level(j)
                    },
            decreases n - ch,
        {
            let before = Level {
                peak: self.peak[ch],
                rms: self.rms[ch],
                clipped: self.clipped[ch],
            };
            assert(self.level(ch as int) == old(self).level(ch as int));
            let ghost at = *self;
            let after: Level = ingest_channel(interleaved, channels, ch, before, b);
            self.peak.set(ch, after.peak);
            self.rms.set(ch, after.rms);
            self.clipped.set(ch, after.clipped);
            assert forall|j: int| 0 <= j < old(self).peak@.len() implies #[trigger] self.level(j)
                == if j < ch + 1 {
                level_after(
                    old(self).level(j),
                    channel_of(interleaved@, channels as nat, j as nat),
                    b,
                )
            } else {
                old(self).level(j)
            } by {
                if j != ch {
                    assert(self.level(j) == at.level(j));
                }
            }
            ch = ch + 1;
        }
    }

    /// Read and reset the peak of each channel.
    pub fn take_peaks(&mut self) -> (out: Vec<F32>)
        requires
            old(self).wf(),
        ensures
            out@ == old(self).peak@,
            final(self).wf(),
            final(self).peak@ == Seq::new(old(self).peak@.len(), |i: int| F32 { bits: 0 }),
            final(self).rms@ == old(self).rms@,
            final(self).clipped@ == old(self).clipped@,
            final(self).overruns == old(self).overruns,
            final(self).sample_rate == old(self).sample_rate,
    {
        let mut out: Vec<F32> = Vec::new();
        let mut i: usize = 0;
        while i < self.peak.len()
            invariant
                i <= self.peak@.len(),
                self.peak@.len() == old(self).peak@.len(),
                out@ == old(self).peak@.take(i as int),
                forall|j: int| 0 <= j < i ==> self.peak@[j] == (F32 { bits: 0 }),
                forall|j: int| i <= j < self.peak@.len() ==> self.peak@[j] == old(self).peak@[j],
                self.rms@ == old(self).rms@,
                self.clipped@ == old(self).clipped@,
                self.overruns == old(self).overruns,
                self.sample_rate == old(self).sample_rate,
            decreases self.peak@.len() - i,
        {
            out.push(self.peak[i]);
            self.peak.set(i, F32 { bits: 0 });
            i = i + 1;
            assert(out@ =~= old(self).peak@.take(i as int));
        }
        assert(out@ =~= old(self).peak@);
        assert(self.peak@ =~= Seq::new(old(self).peak@.len(), |i: int| F32 { bits: 0 }));
        out
    }

    /// Read and reset the peak of one channel, where there is no room to make a list.
    pub fn take_peak(&mut self, ch: usize) -> (r: F32)
        requires
            old(self).wf(),
        ensures
            final(self).wf(),
            r == if ch < old(self).peak@.len() {
                old(self).peak@[ch as int]
            } else {
                F32 { bits: 0 }
            },
            final(self).peak@ == if ch < old(self).peak@.len() {
                old(self).peak@.update(ch as int, F32 { bits: 0 })
            } else {
                old(self).peak@
            },
            final(self).rms@ == old(self).rms@,
            final(self).clipped@ == old(self).clipped@,
            final(self).overruns == old(self).overruns,
            final(self).sample_rate == old(self).sample_rate,
    {
        if ch < self.peak.len() {
            let p: F32 = self.peak[ch];
            self.peak.set(ch, F32 { bits: 0 });
            p
        } else {
            F32 { bits: 0 }
        }
    }

    /// Current integrated RMS of each channel. Not reset by reading.
    pub fn rms(&self) -> (out: Vec<F32>)
        ensures
            out@ == Seq::new(self.rms@.len(), |i: int| self.rms@[i].max_spec(F32 { bits: 0 })),
    {
        let mut out: Vec<F32> = Vec::new();
        let mut i: usize = 0;
        while i < self.rms.len()
            invariant
                i <= self.rms@.len(),
                out@.len() == i,
                forall|j: int| 0 <= j < i ==> out@[j] == self.rms@[j].max_spec(F32 { bits: 0 }),
            decreases self.rms@.len() - i,
        {
            out.push(self.rms[i].max(F32 { bits: 0 }));
            i = i + 1;
        }
        out
    }

    /// Whether a channel has clipped; a channel that is not there has not.
    pub fn clipped(&self, ch: usize) -> (r: bool)
        ensures
            r == (ch < self.clipped@.len() && self.clipped@[ch as int]),
    {
        ch < self.clipped.len() && self.clipped[ch]
    }

    pub fn clear_clip(&mut self)
        requires
            old(self).wf(),
        ensures
            final(self).wf(),
            final(self).clipped@ == Seq::new(old(self).clipped@.len(), |i: int| false),
            final(self).peak@ == old(self).peak@,
            final(self).rms@ == old(self).rms@,
            final(self).overruns == old(self).overruns,
            final(self).sample_rate == old(self).sample_rate,
    {
        let mut i: usize = 0;
        while i < self.clipped.len()
            invariant
                i <= self.clipped@.len(),
                self.clipped@.len() == old(self).clipped@.len(),
                forall|j: int| 0 <= j < i ==> !self.clipped@[j],
                self.peak@ == old(self).peak@,
                self.rms@ == old(self).rms@,
                self.overruns == old(self).overruns,
                self.sample_rate == old(self).sample_rate,
            decreases self.clipped@.len() - i,
        {
            self.clipped.set(i, false);
            i = i + 1;
        }
        assert(self.clipped@ =~= Seq::new(old(self).clipped@.len(), |i: int| false));
    }

    /// Clear peaks, bars, clip latches and the overrun count.
    ///
    /// Called when a take begins: counters accumulated while merely monitoring would
    /// otherwise be reported against the take.
    pub fn reset(&mut self)
        requires
            old(self).wf(),
        ensures
            final(self).wf(),
            final(self).peak@.len() == old(self).peak@.len(),
            forall|ch: int|
                0 <= ch < old(self).peak@.len() ==> #[trigger] final(self).level(ch) == (Level {
                    peak: F32 { bits: 0 },
                    rms: F32 { bits: 0 },
                    clipped: false,
                }),
            final(self).overruns == 0,
            final(self).sample_rate == old(self).sample_rate,
    {
        let mut i: usize = 0;
        while i < self.peak.len()
            invariant
                i <= self.peak@.len(),
                self.wf(),
                self.peak@.len() == old(self).peak@.len(),
                self.sample_rate == old(self).sample_rate,
                forall|j: int|
                    0 <= j < i ==> self.peak@[j] == (F32 { bits: 0 }) && self.rms@[j] == (F32 {
                        bits: 0,
                    }),
            decreases self.peak@.len() - i,
        {
            self.peak.set(i, F32 { bits: 0 });
            self.rms.set(i, F32 { bits: 0 });
            i = i + 1;
        }
        self.clear_clip();
        self.overruns = 0;
    }

    /// Count a callback whose audio did not fit. The count starts over once it has run
    /// through the whole of its range.
    pub fn note_overrun(&mut self)
        requires
            old(self).wf(),
        ensures
            final(self).wf(),
            final(self).overruns == (old(self).overruns + 1) % 0x1_0000_0000_0000_0000,
            final(self).peak@ == old(self).peak@,
            final(self).rms@ == old(self).rms@,
            final(self).clipped@ == old(self).clipped@,
            final(self).sample_rate == old(self).sample_rate,
    {
        if self.overruns == u64::MAX {
            self.overruns = 0;
        } else {
            self.overruns = self.overruns + 1;
        }
    }

    pub fn overruns(&self) -> (r: u64)
        ensures
            r == self.overruns,
    {
        self.overruns
    }
}

/// A magnitude in dBFS, given its decimal logarithm.
pub open spec fn dbfs(mag: F32, log10: F32) -> F32 {
    if mag.le_spec(F32 { bits: 0 }) {
        F32 { bits: FLOOR_DBFS }
    } else {
        (F32 { bits: TWENTY }).mul_spec(log10).max_spec(F32 { bits: FLOOR_DBFS })
    }
}

/// Linear magnitude to dBFS, floored so that the meter has a bottom. `log10` is the decimal
/// logarithm of `mag`.
pub fn to_dbfs(mag: F32, log10: F32) -> (r: F32)
    ensures
        r == dbfs(mag, log10),
{
    if mag.le(F32 { bits: 0 }) {
        F32 { bits: FLOOR_DBFS }
    } else {
        (F32 { bits: TWENTY }).mul(log10).max(F32 { bits: FLOOR_DBFS })
    }
}

pub open spec fn fraction_of(db: F32) -> F32 {
    db.sub_spec(F32 { bits: FLOOR_DBFS }).div_spec(F32 { bits: RANGE_DB }).clamp_spec(
        F32 { bits: 0 },
        F32 { bits: UNITY },
    )
}

/// dBFS to a position on the meter, from zero to one.
pub fn dbfs_to_fraction(db: F32) -> (r: F32)
    ensures
        r == fraction_of(db),
{
    db.sub(F32 { bits: FLOOR_DBFS }).div(F32 { bits: RANGE_DB }).clamp(
        F32 { bits: 0 },
        F32 { bits: UNITY },
    )
}

/// A level above the floor of the scale, before it is held to the scale.
proof fn lemma_above_floor(db: F32)
    requires
        db.is_finite_spec(),
    ensures
        db.sub_spec(F32 { bits: FLOOR_DBFS }).bits == ops::sum(
            Width::Single,
            db.bits as nat,
            RANGE_DB as nat,
        ),
        fraction_of(db) == ratio_of(db).clamp_spec(F32 { bits: 0 }, F32 { bits: UNITY }),
        ratio_of(db).bits == ops::quotient(
            Width::Single,
            ops::sum(Width::Single, db.bits as nat, RANGE_DB as nat),
            RANGE_DB as nat,
        ),
        !ratio_of(db).is_nan_spec(),
{
    let f = Width::Single;
    reveal(F32::add_spec);
    reveal(F32::div_spec);
    assert((F32 { bits: FLOOR_DBFS }).neg_spec() == F32 { bits: RANGE_DB });
    accuracy::law_sums_keep_order(f, db.bits as nat, db.bits as nat, RANGE_DB as nat);
    let s = ops::sum(f, db.bits as nat, RANGE_DB as nat);
    accuracy::lemma_is_pattern(f, db.bits as nat, RANGE_DB as nat);
    accuracy::law_quotients_keep_order(f, s, s, RANGE_DB as nat);
}

/// A level's place on the scale, before it is held to it.
pub open spec fn ratio_of(db: F32) -> F32 {
    db.sub_spec(F32 { bits: FLOOR_DBFS }).div_spec(F32 { bits: RANGE_DB })
}

/// A louder level never reads lower on the scale, and every level reads between its ends.
pub proof fn law_louder_never_reads_lower(a: F32, b: F32)
    requires
        a.is_finite_spec(),
        b.is_finite_spec(),
        a.le_spec(b),
    ensures
        fraction_of(a).le_spec(fraction_of(b)),
        (F32 { bits: 0 }).le_spec(fraction_of(a)),
        fraction_of(b).le_spec(F32 { bits: UNITY }),
{
    let f = Width::Single;
    lemma_above_floor(a);
    lemma_above_floor(b);
    accuracy::law_sums_keep_order(f, a.bits as nat, b.bits as nat, RANGE_DB as nat);
    accuracy::law_quotients_keep_order(
        f,
        ops::sum(f, a.bits as nat, RANGE_DB as nat),
        ops::sum(f, b.bits as nat, RANGE_DB as nat),
        RANGE_DB as nat,
    );
}

/// A level at full scale or above it reads at the very top of the scale.
pub proof fn law_above_full_scale_reads_at_the_top(db: F32)
    requires
        db.is_finite_spec(),
        (F32 { bits: 0 }).le_spec(db),
    ensures
        fraction_of(db).bits == UNITY,
{
    let f = Width::Single;
    let span = RANGE_DB as nat;
    let x = db.bits as nat;
    lemma_above_floor(db);
    accuracy::lemma_finite_order(f, 0, x);
    let n = (ops::value(f, x) + ops::value(f, span)) as nat;
    let s = ops::sum(f, x, span);
    let u = pow2(f.unit());
    lemma2_to64();
    lemma_pow2_pos(f.unit());
    // The level lies seventy-two decibels above the floor, or more.
    assert(ops::magnitude(f, span) > 0) by {
        accuracy::lemma_finite_order(f, span, 0);
    }
    assert(ops::value(f, 0) == 0) by {
        accuracy::lemma_zero(f);
    }
    assert(ops::magnitude(f, span) * 1 == ops::magnitude(f, span));
    accuracy::law_rounding_never_passes_a_float(f, n, 1, span);
    assert(ops::magnitude_bits(f, s) >= span && !ops::is_negative(f, s));
    // So its ratio to them is one, or more.
    let one = UNITY as nat;
    lemma_fundamental_div_mod_converse(one as int, pow2(23) as int, 127, 0);
    lemma_pow2_adds(23, 126);
    assert(ops::magnitude(f, one) == u);
    let d = ops::magnitude(f, span);
    if ops::is_finite(f, s) {
        accuracy::lemma_finite_order(f, span, s);
        let m = ops::magnitude(f, s);
        assert(m * u >= u * d) by (nonlinear_arith)
            requires
                m >= d,
        ;
        accuracy::law_rounding_never_passes_a_float(f, m * u, d, one);
    }
    let r = ratio_of(db);
    assert(ops::magnitude_bits(f, r.bits as nat) >= one && !r.is_negative_spec());
}

/// Peaks are magnitudes: the sign is clear and the value is a number.
pub proof fn lemma_peak_is_a_magnitude(c: Seq<F32>)
    ensures
        !peak_of(c).is_negative_spec(),
        !peak_of(c).is_nan_spec(),
    decreases c.len(),
{
    if c.len() > 0 {
        lemma_peak_is_a_magnitude(c.drop_last());
    }
}

/// Nothing slips past the peak: every sample of the block that is a number is at most the
/// peak of the block.
pub proof fn law_peak_bounds_every_sample(c: Seq<F32>, i: int)
    requires
        0 <= i < c.len(),
        !c[i].is_nan_spec(),
    ensures
        c[i].abs_spec().le_spec(peak_of(c)),
    decreases c.len(),
{
    lemma_peak_is_a_magnitude(c);
    lemma_peak_is_a_magnitude(c.drop_last());
    if i < c.len() - 1 {
        assert(c.drop_last()[i] == c[i]);
        law_peak_bounds_every_sample(c.drop_last(), i);
    }
}

/// Keeping the greater bit pattern keeps the greater value, for magnitudes.
pub proof fn law_greatest_bits_are_the_greatest_value(a: F32, b: F32)
    requires
        !a.is_negative_spec(),
        !b.is_negative_spec(),
        !a.is_nan_spec(),
        !b.is_nan_spec(),
    ensures
        a.bits < b.bits <==> a.lt_spec(b),
        a.bits == b.bits <==> a.eq_num_spec(b),
{
}

/// A clip latch is sticky: no block releases it, and a block whose peak reaches full scale
/// sets it.
pub proof fn law_clip_is_sticky(before: Level, c: Seq<F32>, b: Ballistics)
    ensures
        before.clipped ==> level_after(before, c, b).clipped,
        (F32 { bits: UNITY }).le_spec(peak_of(c)) ==> level_after(before, c, b).clipped,
        level_after(before, c, b).peak.bits >= before.peak.bits,
        level_after(before, c, b).peak.bits >= peak_of(c).bits,
{
}

/// The release is slower than the attack.
pub proof fn law_release_is_slower_than_attack()
    ensures
        (F32 { bits: ATTACK_TAU_S }).lt_spec(F32 { bits: RELEASE_TAU_S }),
{
}

} // verus!
