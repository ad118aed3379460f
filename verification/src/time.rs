//! Points in time and spans between them, as whole nanoseconds.

use crate::float::bounds;
use crate::float::ops;
use crate::float::ops::{unpack, Width};
use crate::float::round;
use crate::float::round::two_to;
use crate::float::F64;
use vstd::arithmetic::div_mod::*;
use vstd::arithmetic::power2::*;
use vstd::prelude::*;

verus! {

/// One billion, as the bits of a double.
pub const GIGA: u64 = 0x41CD_CD65_0000_0000;

/// One million, as the bits of a double.
pub const MEGA: u64 = 0x412E_8480_0000_0000;

/// One thousand, as the bits of a double.
pub const KILO: u64 = 0x408F_4000_0000_0000;

/// One, as the bits of a double.
pub const ONE: u64 = 0x3FF0_0000_0000_0000;

/// Two, as the bits of a double.
pub const TWO: u64 = 0x4000_0000_0000_0000;

/// Zero, as the bits of a double.
pub const ZERO: u64 = 0;

/// A reading of the monotonic clock, in nanoseconds from an arbitrary origin.
#[derive(Clone, Copy, PartialEq, Eq, Structural, Debug)]
pub struct Instant {
    pub nanos: i64,
}

/// A span of time in nanoseconds.
#[derive(Clone, Copy, PartialEq, Eq, Structural, Debug)]
pub struct Duration {
    pub nanos: u128,
}

/// A span in seconds: the whole seconds plus the fraction, each rounded to a double.
pub open spec fn seconds(nanos: nat) -> F64 {
    F64::of_int((nanos / 1_000_000_000) as int).add_spec(
        F64::of_int((nanos % 1_000_000_000) as int).div_spec(F64 { bits: GIGA }),
    )
}

/// A signed span in seconds.
pub open spec fn signed_seconds(nanos: int) -> F64 {
    if nanos >= 0 {
        seconds(nanos as nat)
    } else {
        seconds((-nanos) as nat).neg_spec()
    }
}

/// `i`, held to the range of `i128`.
pub open spec fn held(i: int) -> int {
    ops::clamped(i, i128::MIN as int, i128::MAX as int)
}

impl Duration {
    pub fn as_secs_f64(&self) -> (r: F64)
        ensures
            r == seconds(self.nanos as nat),
    {
        F64::from_i128((self.nanos / 1_000_000_000) as i128).add(
            F64::from_u64((self.nanos % 1_000_000_000) as u64).div(F64 { bits: GIGA }),
        )
    }
}

impl Instant {
    /// The signed span from `base` to `self`, in nanoseconds.
    pub fn since(&self, base: Instant) -> (r: i128)
        ensures
            r == self.nanos - base.nanos,
    {
        self.nanos as i128 - base.nanos as i128
    }
}

/// Elapsed time from `base` to `t`, signed, as nanoseconds and as seconds.
pub fn signed_elapsed(base: Instant, t: Instant) -> (r: (i128, F64))
    ensures
        r.0 == t.nanos - base.nanos,
        r.1 == signed_seconds(t.nanos - base.nanos),
{
    let d: i128 = t.since(base);
    if d >= 0 {
        (d, Duration { nanos: d as u128 }.as_secs_f64())
    } else {
        (d, Duration { nanos: (-d) as u128 }.as_secs_f64().neg())
    }
}

/// The sum, held to the range of `i128`.
pub fn held_sum(a: i128, b: i128) -> (r: i128)
    ensures
        r == held(a + b),
{
    if b >= 0 {
        if a > i128::MAX - b {
            i128::MAX
        } else {
            a + b
        }
    } else {
        if a < i128::MIN - b {
            i128::MIN
        } else {
            a + b
        }
    }
}

/// The difference, held to the range of `i128`.
pub fn held_difference(a: i128, b: i128) -> (r: i128)
    ensures
        r == held(a - b),
{
    if b >= 0 {
        if a < i128::MIN + b {
            i128::MIN
        } else {
            a - b
        }
    } else {
        if a > i128::MAX + b {
            i128::MAX
        } else {
            a - b
        }
    }
}

/// The longest span that counts its seconds in sixty-four bits, in nanoseconds.
pub const LONGEST_SPAN: u128 = 18_446_744_073_709_551_615_999_999_999;

/// Seconds as whole nanoseconds, rounded to nearest, ties to even, and held to the range of a
/// span; what is negative or no number gives none.
pub open spec fn span_of_seconds(x: F64) -> nat {
    let nanos = round::nearest_even(
        ops::magnitude(Width::Double, x.bits as nat) * 1_000_000_000,
        pow2(1074),
    );
    if x.is_nan_spec() || x.is_negative_spec() {
        0
    } else if !x.is_finite_spec() || nanos > LONGEST_SPAN {
        LONGEST_SPAN as nat
    } else {
        nanos
    }
}

impl Duration {
    /// The span of some seconds, to the nearest nanosecond.
    pub fn from_secs_f64(x: F64) -> (r: Duration)
        ensures
            r.nanos == span_of_seconds(x),
    {
        if x.is_nan() || x.bits >= 0x8000_0000_0000_0000 {
            return Duration { nanos: 0 };
        }
        if !x.is_finite() {
            return Duration { nanos: LONGEST_SPAN };
        }
        let (m, e) = unpack(Width::Double, x.bits);
        let ghost mag = ops::magnitude(Width::Double, x.bits as nat);
        let ghost n = round::nearest_even(mag * 1_000_000_000, pow2(1074));
        proof {
            lemma_pow2_pos(1074);
            lemma_pow2_pos(e as nat);
            lemma2_to64();
            lemma2_to64_rest();
        }
        let nanos: u128 = if e >= 1074 {
            let s: u32 = e - 1074;
            proof {
                let whole = m as nat * pow2(s as nat);
                lemma_pow2_adds(s as nat, 1074);
                assert(mag * 1_000_000_000 == (whole * 1_000_000_000) * pow2(1074))
                    by (nonlinear_arith)
                    requires
                        mag == m * pow2(e as nat),
                        pow2(e as nat) == pow2(s as nat) * pow2(1074),
                        whole == m * pow2(s as nat),
                ;
                lemma_fundamental_div_mod_converse(
                    (mag * 1_000_000_000) as int,
                    pow2(1074) as int,
                    (whole * 1_000_000_000) as int,
                    0,
                );
                assert(n == whole * 1_000_000_000);
            }
            if s >= 12 {
                proof {
                    if s > 12 {
                        lemma_pow2_strictly_increases(12, s as nat);
                    }
                    assert(m * pow2(s as nat) >= 0x10_0000_0000_0000 * 4096) by (nonlinear_arith)
                        requires
                            m >= 0x10_0000_0000_0000,
                            pow2(s as nat) >= 4096,
                    ;
                }
                return Duration { nanos: LONGEST_SPAN };
            }
            let unit: u128 = two_to(s);
            proof {
                if s < 11 {
                    lemma_pow2_strictly_increases(s as nat, 11);
                }
                assert(m * unit <= 0x20_0000_0000_0000 * 2048) by (nonlinear_arith)
                    requires
                        0 <= m <= 0x20_0000_0000_0000,
                        0 <= unit <= 2048,
                ;
            }
            m as u128 * unit * 1_000_000_000
        } else {
            let t: u32 = 1074 - e;
            proof {
                lemma_pow2_pos(t as nat);
                lemma_pow2_adds(t as nat, e as nat);
                assert(mag * 1_000_000_000 == (m * 1_000_000_000) * pow2(e as nat))
                    by (nonlinear_arith)
                    requires
                        mag == m * pow2(e as nat),
                ;
                round::lemma_nearest_even_scale(
                    (m * 1_000_000_000) as nat,
                    pow2(t as nat),
                    pow2(e as nat),
                );
                round::lemma_pow2_127();
            }
            let scaled: u128 = m as u128 * 1_000_000_000;
            if t < 127 {
                let d: u128 = two_to(t);
                proof {
                    lemma_div_nonincreasing(scaled as int, d as int);
                    lemma_pow2_strictly_increases(t as nat, 127);
                }
                let q: u128 = scaled / d;
                let r: u128 = scaled % d;
                if 2 * r > d || (2 * r == d && q % 2 == 1) {
                    q + 1
                } else {
                    q
                }
            } else {
                proof {
                    if t > 127 {
                        lemma_pow2_strictly_increases(127, t as nat);
                    }
                    lemma_basic_div(scaled as int, pow2(t as nat) as int);
                    lemma_small_mod(scaled as nat, pow2(t as nat));
                }
                0
            }
        };
        assert(nanos == n);
        if nanos > LONGEST_SPAN {
            Duration { nanos: LONGEST_SPAN }
        } else {
            Duration { nanos }
        }
    }
}

/// A thousand million as a float is exact.
pub proof fn lemma_giga()
    ensures
        (F64 { bits: GIGA }).is_finite_spec(),
        !(F64 { bits: GIGA }).is_negative_spec(),
        (F64 { bits: GIGA }).value() == 1_000_000_000 * pow2(1074),
{
    lemma2_to64();
    lemma2_to64_rest();
    lemma_fundamental_div_mod_converse(
        GIGA as int,
        pow2(52) as int,
        1052,
        0xD_CD65_0000_0000,
    );
    lemma_pow2_adds(23, 1051);
    assert(0x1D_CD65_0000_0000 * pow2(1051) == 1_000_000_000 * (0x80_0000 * pow2(1051)))
        by (nonlinear_arith);
}

/// A span of up to a few centuries is less than two to the power of sixty-six seconds.
pub proof fn lemma_signed_seconds_within(nanos: int)
    requires
        -0x2_0000_0000_0000_0000 < nanos < 0x2_0000_0000_0000_0000,
    ensures
        bounds::within(signed_seconds(nanos), 1140),
{
    let n: nat = if nanos >= 0 { nanos as nat } else { (-nanos) as nat };
    let whole = (n / 1_000_000_000) as int;
    let part = (n % 1_000_000_000) as int;
    lemma_giga();
    lemma2_to64();
    lemma2_to64_rest();
    lemma_pow2_pos(1074);
    bounds::lemma_integer_within(whole, 63);
    bounds::lemma_integer_within(part, 30);
    bounds::lemma_quotient_within(F64::of_int(part), F64 { bits: GIGA }, 1104, 1074);
    bounds::lemma_within_more(F64::of_int(whole), 1137, 1139);
    bounds::lemma_within_more(F64::of_int(part).div_spec(F64 { bits: GIGA }), 1104, 1139);
    bounds::lemma_sum_within(
        F64::of_int(whole),
        F64::of_int(part).div_spec(F64 { bits: GIGA }),
        1139,
    );
    bounds::lemma_neg_within(seconds(n), 1140);
}

/// Any span of nanoseconds, divided into seconds.
pub proof fn lemma_nanos_in_seconds_within(nanos: int)
    requires
        i128::MIN <= nanos <= i128::MAX,
    ensures
        bounds::within(F64::of_int(nanos).div_spec(F64 { bits: GIGA }), 1201),
{
    lemma_giga();
    round::lemma_pow2_127();
    lemma_pow2_pos(1074);
    bounds::lemma_integer_within(nanos, 127);
    bounds::lemma_quotient_within(F64::of_int(nanos), F64 { bits: GIGA }, 1201, 1074);
}

} // verus!
