//! How close a rounded result is to the exact one.

use crate::float::ops;
use crate::float::ops::Width;
use crate::float::round;
use crate::float::F64;
use vstd::arithmetic::div_mod::*;
use vstd::arithmetic::mul::*;
use vstd::arithmetic::power2::*;
use vstd::prelude::*;

verus! {

/// The quantum is the least exponent at which the magnitude has no more bits than fit.
pub proof fn lemma_quantum(p: nat, n: nat, d: nat)
    requires
        d > 0,
    ensures
        ({
            let e = round::quantum(p, n, d);
            &&& n / (d * pow2(e)) < pow2(p)
            &&& e > 0 ==> n / (d * pow2((e - 1) as nat)) >= pow2(p)
        }),
    decreases n / d,
{
    lemma2_to64();
    if n / d < pow2(p) {
        assert(d * pow2(0) == d);
    } else {
        lemma_pow2_pos(p);
        round::lemma_halving(n, d);
        lemma_quantum(p, n, 2 * d);
        let f = round::quantum(p, n, 2 * d);
        lemma_pow2_unfold(f + 1);
        assert((2 * d) * pow2(f) == d * (2 * pow2(f))) by (nonlinear_arith);
        if f > 0 {
            let g = (f - 1) as nat;
            lemma_pow2_unfold(f);
            assert((2 * d) * pow2(g) == d * (2 * pow2(g))) by (nonlinear_arith);
        } else {
            assert(d * pow2(0) == d);
        }
    }
}

proof fn lemma_pow2_grows(a: nat, b: nat)
    requires
        a <= b,
    ensures
        0 < pow2(a) <= pow2(b),
{
    lemma_pow2_pos(a);
    if a < b {
        lemma_pow2_strictly_increases(a, b);
    }
}

/// The quantum is at most any exponent at which the magnitude fits.
proof fn lemma_quantum_at_most(p: nat, n: nat, d: nat, t: nat)
    requires
        d > 0,
        n / (d * pow2(t)) < pow2(p),
    ensures
        round::quantum(p, n, d) <= t,
{
    lemma_quantum(p, n, d);
    let e = round::quantum(p, n, d);
    if e > t {
        let c = (e - 1) as nat;
        lemma_pow2_grows(t, c);
        assert(0 < d * pow2(t) <= d * pow2(c)) by (nonlinear_arith)
            requires
                d > 0,
                0 < pow2(t) <= pow2(c),
        ;
        lemma_div_is_ordered_by_denominator(n as int, (d * pow2(t)) as int, (d * pow2(c)) as int);
    }
}

/// The nearest natural is no further than half a step away, and no other is nearer.
pub proof fn lemma_nearest(n: nat, d: nat, j: nat)
    requires
        d > 0,
    ensures
        ({
            let k = round::nearest_even(n, d);
            &&& n / d <= k <= n / d + 1
            &&& -(d as int) <= 2 * (k * d) - 2 * n <= d
            &&& distance(k * d, n) <= distance(j * d, n)
        }),
{
    let q = n / d;
    lemma_fundamental_div_mod(n as int, d as int);
    assert((q + 1) * d == q * d + d) by (nonlinear_arith);
    assert(d * q == q * d) by (nonlinear_arith);
    if j <= q {
        assert(j * d <= q * d) by (nonlinear_arith)
            requires
                j <= q,
        ;
    } else {
        assert(j * d >= (q + 1) * d) by (nonlinear_arith)
            requires
                j >= q + 1,
        ;
    }
}

/// How far apart two magnitudes are.
pub open spec fn distance(a: nat, b: nat) -> int {
    if a < b {
        b - a
    } else {
        a - b
    }
}

/// Where a rounded magnitude does not overflow, it stands for the nearest multiple of the
/// spacing.
proof fn lemma_rounded_magnitude(f: Width, n: nat, d: nat)
    requires
        d > 0,
        round::round_bits(f.precision(), f.top(), n, d) < f.top(),
    ensures
        ({
            let e = round::quantum(f.precision(), n, d);
            ops::magnitude(f, round::round_bits(f.precision(), f.top(), n, d))
                == round::nearest_even(n, d * pow2(e)) * pow2(e)
        }),
{
    let p = f.precision();
    let half = pow2((p - 1) as nat);
    let e = round::quantum(p, n, d);
    lemma_quantum(p, n, d);
    lemma_pow2_pos((p - 1) as nat);
    lemma_pow2_pos(e);
    lemma_pow2_unfold(p);
    let unit = d * pow2(e);
    assert(unit > 0) by (nonlinear_arith)
        requires
            d > 0,
            pow2(e) > 0,
            unit == d * pow2(e),
    ;
    let k = round::nearest_even(n, unit);
    lemma_nearest(n, unit, 0);
    let bits = round::round_bits(p, f.top(), n, d);
    assert(bits == e * half + k);
    assert(bits < f.sign());
    if e == 0 {
        lemma2_to64();
        assert(bits == k);
        assert(k <= 2 * half);
        assert(half * 1 == half && 1 * half == half);
        assert(half * 2 == 2 * half);
        if k < half {
            lemma_small_mod(k, half);
            lemma_basic_div(k as int, half as int);
        } else if k < 2 * half {
            lemma_fundamental_div_mod_converse(k as int, half as int, 1, k - half);
        } else {
            lemma_fundamental_div_mod_converse(k as int, half as int, 2, 0);
            assert(half * pow2(1) == k);
        }
    } else {
        let g = (e - 1) as nat;
        lemma_pow2_unfold(e);
        lemma_pow2_pos(g);
        assert(d * pow2(g) > 0) by (nonlinear_arith)
            requires
                d > 0,
                pow2(g) > 0,
        ;
        assert(d * (2 * pow2(g)) == (d * pow2(g)) * 2) by (nonlinear_arith);
        lemma_div_denominator(n as int, (d * pow2(g)) as int, 2);
        assert(n / unit >= half);
        if k < 2 * half {
            assert(e * half + k == (e + 1) * half + (k - half)) by (nonlinear_arith);
            lemma_fundamental_div_mod_converse(bits as int, half as int, (e + 1) as int, k - half);
        } else {
            assert(e * half + 2 * half == (e + 2) * half) by (nonlinear_arith);
            lemma_fundamental_div_mod_converse(bits as int, half as int, (e + 2) as int, 0);
            lemma_pow2_unfold(e + 1);
            assert(half * (2 * pow2(e)) == (2 * half) * pow2(e)) by (nonlinear_arith);
        }
    }
}

/// A finite magnitude is a whole number of steps, of which there are no more than fit the
/// precision.
proof fn lemma_magnitude_steps(f: Width, x: nat) -> (r: (nat, nat))
    ensures
        ops::magnitude(f, x) == r.0 * pow2(r.1),
        r.0 < pow2(f.precision()),
{
    let p = f.precision();
    let half = pow2((p - 1) as nat);
    lemma_pow2_pos((p - 1) as nat);
    lemma_pow2_unfold(p);
    lemma2_to64();
    let m = ops::magnitude_bits(f, x);
    lemma_mod_bound(m as int, half as int);
    if m / half == 0 {
        assert((m % half) * pow2(0) == m % half);
        (m % half, 0)
    } else {
        (m % half + half, (m / half - 1) as nat)
    }
}

/// Rounding is to the nearest: the result is no more than half the spacing of its
/// neighbourhood away from the exact quotient `n / d`, and no float is nearer to it.
pub proof fn law_rounding_is_to_the_nearest(f: Width, n: nat, d: nat, x: nat)
    requires
        d > 0,
        round::round_bits(f.precision(), f.top(), n, d) < f.top(),
    ensures
        ({
            let e = round::quantum(f.precision(), n, d);
            let m = ops::magnitude(f, round::round_bits(f.precision(), f.top(), n, d));
            &&& 2 * distance(m * d, n) <= d * pow2(e)
            &&& distance(m * d, n) <= distance(ops::magnitude(f, x) * d, n)
        }),
{
    let p = f.precision();
    let e = round::quantum(p, n, d);
    let unit = d * pow2(e);
    lemma_rounded_magnitude(f, n, d);
    lemma_pow2_pos(e);
    assert(unit > 0) by (nonlinear_arith)
        requires
            d > 0,
            pow2(e) > 0,
            unit == d * pow2(e),
    ;
    let k = round::nearest_even(n, unit);
    let m = k * pow2(e);
    assert(m * d == k * unit) by (nonlinear_arith)
        requires
            m == k * pow2(e),
            unit == d * pow2(e),
    ;
    let (s, g) = lemma_magnitude_steps(f, x);
    let y = ops::magnitude(f, x);
    if g >= e {
        let c = (g - e) as nat;
        lemma_pow2_adds(e, c);
        let j = s * pow2(c);
        assert(y * d == j * unit) by (nonlinear_arith)
            requires
                y == s * (pow2(e) * pow2(c)),
                j == s * pow2(c),
                unit == d * pow2(e),
        ;
        lemma_nearest(n, unit, j);
    } else {
        // A finer float than those of the neighbourhood lies below all of it.
        lemma_quantum(p, n, d);
        let h = (e - 1) as nat;
        lemma_pow2_grows(g, h);
        lemma_pow2_unfold(e);
        lemma_pow2_pos(h);
        let half = pow2((p - 1) as nat);
        lemma_pow2_unfold(p);
        assert(d * pow2(h) > 0) by (nonlinear_arith)
            requires
                d > 0,
                pow2(h) > 0,
        ;
        assert(d * (2 * pow2(h)) == (d * pow2(h)) * 2) by (nonlinear_arith);
        lemma_div_denominator(n as int, (d * pow2(h)) as int, 2);
        let q = n / unit;
        assert(q >= half);
        lemma_fundamental_div_mod(n as int, unit as int);
        assert(y * d <= q * unit) by (nonlinear_arith)
            requires
                y == s * pow2(g),
                s < 2 * half,
                pow2(g) <= pow2(h),
                unit == d * (2 * pow2(h)),
                half <= q,
        {
            assert(s * pow2(g) <= (2 * half) * pow2(h));
            assert((2 * half) * pow2(h) * d == half * (d * (2 * pow2(h))));
            assert(half * unit <= q * unit);
        }
        assert(unit * q == q * unit) by (nonlinear_arith);
        lemma_nearest(n, unit, q);
    }
    lemma_nearest(n, unit, 0);
}

/// Whole numbers of up to fifty-three bits are held exactly.
pub proof fn law_small_integers_are_exact(i: int)
    requires
        -0x20_0000_0000_0000 < i < 0x20_0000_0000_0000,
    ensures
        F64::of_int(i).is_finite_spec(),
        F64::of_int(i).value() == i * pow2(1074),
        F64::of_int(i).is_negative_spec() == (i < 0),
{
    let a: nat = if i < 0 {
        (-i) as nat
    } else {
        i as nat
    };
    let n = a * pow2(1074);
    lemma2_to64();
    lemma2_to64_rest();
    lemma_pow2_pos(1074);
    assert(1 * pow2(1074) == pow2(1074));
    lemma_div_multiples_vanish(a as int, pow2(1074) as int);
    assert(pow2(1074) * a == a * pow2(1074)) by (nonlinear_arith);
    assert(n / pow2(1074) == a);
    assert(pow2(53) == 0x20_0000_0000_0000);
    lemma_quantum_at_most(53, n, 1, 1074);
    let e = round::quantum(53, n, 1);
    let c = (1074 - e) as nat;
    lemma_pow2_adds(e, c);
    lemma_pow2_pos(e);
    assert(n == (a * pow2(c)) * pow2(e)) by (nonlinear_arith)
        requires
            n == a * (pow2(e) * pow2(c)),
    ;
    assert(1 * pow2(e) == pow2(e));
    let k = a * pow2(c);
    lemma_fundamental_div_mod_converse(n as int, pow2(e) as int, k as int, 0);
    assert(round::nearest_even(n, 1 * pow2(e)) == k);
    lemma_quantum(53, n, 1);
    assert(k < pow2(53));
    assert(pow2(52) == 0x10_0000_0000_0000);
    let bits = round::round_bits(53, Width::Double.top(), n, 1);
    assert(e * pow2(52) <= 1074 * 0x10_0000_0000_0000) by (nonlinear_arith)
        requires
            e <= 1074,
            pow2(52) == 0x10_0000_0000_0000,
    ;
    assert(bits == e * pow2(52) + k);
    lemma_rounded_magnitude(Width::Double, n, 1);
    reveal(F64::of_int);
    let x = ops::of_integer(Width::Double, i);
    if i < 0 {
        assert(i * pow2(1074) == -(a * pow2(1074))) by (nonlinear_arith)
            requires
                i == -a,
        ;
        assert(x == Width::Double.sign() + bits);
    } else {
        assert(x == bits);
    }
    assert(ops::magnitude_bits(Width::Double, x) == bits);
    assert(ops::magnitude(Width::Double, x) == n);
}

/// A magnitude of fewer than fifty-three bits above `2^t` is rounded to within half of `2^t`,
/// and does not overflow.
proof fn lemma_round_close(n: nat, d: nat, t: nat)
    requires
        d > 0,
        n < (d * pow2(t)) * pow2(53),
        t <= 1900,
    ensures
        ({
            let bits = round::round_bits(53, Width::Double.top(), n, d);
            &&& bits < Width::Double.top()
            &&& 2 * distance(ops::magnitude(Width::Double, bits) * d, n) <= d * pow2(t)
        }),
{
    let f = Width::Double;
    lemma2_to64();
    lemma2_to64_rest();
    lemma_pow2_pos(t);
    let step = d * pow2(t);
    assert(step > 0) by (nonlinear_arith)
        requires
            d > 0,
            pow2(t) > 0,
            step == d * pow2(t),
    ;
    lemma_multiply_divide_lt(n as int, step as int, pow2(53) as int);
    lemma_quantum_at_most(53, n, d, t);
    let e = round::quantum(53, n, d);
    lemma_quantum(53, n, d);
    lemma_pow2_grows(e, t);
    assert(0 < d * pow2(e) <= d * pow2(t)) by (nonlinear_arith)
        requires
            d > 0,
            0 < pow2(e) <= pow2(t),
    ;
    lemma_nearest(n, d * pow2(e), 0);
    assert(e * pow2(52) <= 1900 * 0x10_0000_0000_0000) by (nonlinear_arith)
        requires
            e <= 1900,
            pow2(52) == 0x10_0000_0000_0000,
    ;
    let bits = round::round_bits(53, f.top(), n, d);
    assert(bits == e * pow2(52) + round::nearest_even(n, d * pow2(e)));
    law_rounding_is_to_the_nearest(f, n, d, 0);
}

/// A sum of two magnitudes below `2^(t + 53)` is within half of `2^t`.
pub proof fn lemma_sum_close(x: F64, y: F64, t: nat)
    requires
        x.is_finite_spec(),
        y.is_finite_spec(),
        !x.is_negative_spec(),
        !y.is_negative_spec(),
        x.value() + y.value() < pow2(t) * pow2(53),
        t <= 1900,
    ensures
        ({
            let z = x.add_spec(y);
            &&& z.is_finite_spec()
            &&& !z.is_negative_spec()
            &&& -(pow2(t) as int) <= 2 * (z.value() - x.value() - y.value()) <= pow2(t)
        }),
{
    reveal(F64::add_spec);
    let n = (x.value() + y.value()) as nat;
    let f = Width::Double;
    assert(1 * pow2(t) == pow2(t));
    lemma_pow2_pos(t);
    if n == 0 {
        lemma2_to64();
        lemma2_to64_rest();
        lemma_small_mod(0, pow2(52));
        lemma_basic_div(0, pow2(52) as int);
    } else {
        lemma_round_close(n, 1, t);
        let bits = round::round_bits(53, f.top(), n, 1);
        let m = ops::magnitude(f, bits);
        assert(m * 1 == m);
        assert(x.add_spec(y).bits == bits);
    }
}

/// A product of two magnitudes below `2^(t + 53)` is within half of `2^t`.
pub proof fn lemma_product_close(x: F64, y: F64, t: nat)
    requires
        x.is_finite_spec(),
        y.is_finite_spec(),
        !x.is_negative_spec(),
        !y.is_negative_spec(),
        x.value() * y.value() < (pow2(1074) * pow2(t)) * pow2(53),
        t <= 1900,
    ensures
        ({
            let z = x.mul_spec(y);
            &&& z.is_finite_spec()
            &&& !z.is_negative_spec()
            &&& -(pow2(1074) * pow2(t)) <= 2 * (z.value() * pow2(1074) - x.value() * y.value())
                <= pow2(1074) * pow2(t)
        }),
{
    reveal(F64::mul_spec);
    let n = (ops::magnitude(Width::Double, x.bits as nat) * ops::magnitude(
        Width::Double,
        y.bits as nat,
    )) as nat;
    lemma_pow2_pos(1074);
    lemma_round_close(n, pow2(1074), t);
    let bits = round::round_bits(53, Width::Double.top(), n, pow2(1074));
    assert(x.mul_spec(y).bits == bits);
}

/// A quotient of two magnitudes below `2^(t + 53)` is within half of `2^t`.
pub proof fn lemma_quotient_close(x: F64, y: F64, t: nat)
    requires
        x.is_finite_spec(),
        y.is_finite_spec(),
        !x.is_negative_spec(),
        !y.is_negative_spec(),
        y.value() > 0,
        x.value() * pow2(1074) < (y.value() * pow2(t)) * pow2(53),
        t <= 1900,
    ensures
        ({
            let z = x.div_spec(y);
            &&& z.is_finite_spec()
            &&& !z.is_negative_spec()
            &&& -(y.value() * pow2(t)) <= 2 * (z.value() * y.value() - x.value() * pow2(1074))
                <= y.value() * pow2(t)
        }),
{
    reveal(F64::div_spec);
    let n = ops::magnitude(Width::Double, x.bits as nat) * pow2(1074);
    let d = ops::magnitude(Width::Double, y.bits as nat);
    lemma_round_close(n, d, t);
    let bits = round::round_bits(53, Width::Double.top(), n, d);
    if ops::is_zero(Width::Double, y.bits as nat) {
        lemma2_to64();
        lemma2_to64_rest();
        lemma_small_mod(0, pow2(52));
        lemma_basic_div(0, pow2(52) as int);
    }
    assert(x.div_spec(y).bits == bits);
}

/// The whole number nearest to a magnitude of fewer than a hundred bits is within half of one.
pub proof fn lemma_whole_close(x: F64)
    requires
        x.is_finite_spec(),
        !x.is_negative_spec(),
        x.value() < pow2(1074) * pow2(100),
    ensures
        x.round_i128_spec() >= 0,
        (2 * x.round_i128_spec() - 1) * pow2(1074) <= 2 * x.value(),
        2 * x.value() < (2 * x.round_i128_spec() + 1) * pow2(1074),
{
    reveal(F64::round_i128_spec);
    let u = pow2(1074);
    let m = x.value() as nat;
    lemma_pow2_pos(1074);
    let t = (2 * m + u) / (2 * u);
    lemma_fundamental_div_mod((2 * m + u) as int, (2 * u) as int);
    lemma_mod_bound((2 * m + u) as int, (2 * u) as int);
    lemma_pow2_adds(64, 36);
    lemma2_to64();
    lemma2_to64_rest();
    assert((2 * u) * t == 2 * (t * u)) by (nonlinear_arith);
    assert((2 * t - 1) * u == 2 * (t * u) - u) by (nonlinear_arith);
    assert((2 * t + 1) * u == 2 * (t * u) + u) by (nonlinear_arith);
    assert(t <= pow2(100)) by (nonlinear_arith)
        requires
            (2 * t - 1) * u <= 2 * m,
            m < u * pow2(100),
            u > 0,
    ;
    assert(ops::nearest_integer(Width::Double, x.bits as nat) == t);
}

/// Magnitudes order as their bits do.
pub proof fn lemma_magnitude_grows(f: Width, a: nat, b: nat)
    requires
        a < b < f.sign(),
    ensures
        ops::magnitude(f, a) < ops::magnitude(f, b),
{
    let p = f.precision();
    let half = pow2((p - 1) as nat);
    lemma_pow2_pos((p - 1) as nat);
    lemma2_to64();
    let fa = a / half;
    let fb = b / half;
    let ra = a % half;
    let rb = b % half;
    lemma_fundamental_div_mod(a as int, half as int);
    lemma_fundamental_div_mod(b as int, half as int);
    lemma_mod_bound(a as int, half as int);
    lemma_mod_bound(b as int, half as int);
    lemma_div_is_ordered(a as int, b as int, half as int);
    if fa == fb {
        if fa > 0 {
            let w = pow2((fa - 1) as nat);
            lemma_pow2_pos((fa - 1) as nat);
            assert((ra + half) * w < (rb + half) * w) by (nonlinear_arith)
                requires
                    ra < rb,
                    w > 0,
            ;
        }
    } else {
        let w = pow2((fb - 1) as nat);
        lemma_pow2_grows(fa, (fb - 1) as nat);
        lemma_pow2_pos((fb - 1) as nat);
        assert(half * w <= (rb + half) * w) by (nonlinear_arith)
            requires
                rb >= 0,
                w > 0,
        ;
        if fa == 0 {
            assert(half <= half * w) by (nonlinear_arith)
                requires
                    w >= 1,
            ;
        } else {
            let v = pow2((fa - 1) as nat);
            lemma_pow2_pos((fa - 1) as nat);
            lemma_pow2_unfold(fa);
            assert((ra + half) * v < half * w) by (nonlinear_arith)
                requires
                    ra < half,
                    v > 0,
                    2 * v <= w,
            ;
        }
    }
}

/// A quotient that is a float's own magnitude is rounded to that float.
proof fn lemma_round_exact(f: Width, x: nat, d: nat)
    requires
        ops::is_finite(f, x),
        d > 0,
    ensures
        round::round_bits(f.precision(), f.top(), ops::magnitude(f, x) * d, d)
            == ops::magnitude_bits(f, x),
{
    let p = f.precision();
    let half = pow2((p - 1) as nat);
    lemma_pow2_pos((p - 1) as nat);
    lemma_pow2_unfold(p);
    lemma2_to64();
    let m = ops::magnitude_bits(f, x);
    let field = m / half;
    let fraction = m % half;
    lemma_fundamental_div_mod(m as int, half as int);
    lemma_mod_bound(m as int, half as int);
    let (s, g): (nat, nat) = if field == 0 {
        (fraction, 0)
    } else {
        (fraction + half, (field - 1) as nat)
    };
    let n = ops::magnitude(f, x) * d;
    lemma_pow2_pos(g);
    let unit = d * pow2(g);
    assert(unit > 0) by (nonlinear_arith)
        requires
            d > 0,
            pow2(g) > 0,
            unit == d * pow2(g),
    ;
    assert(fraction * 1 == fraction);
    assert(ops::magnitude(f, x) == s * pow2(g));
    assert(n == s * unit) by (nonlinear_arith)
        requires
            n == (s * pow2(g)) * d,
            unit == d * pow2(g),
    ;
    lemma_fundamental_div_mod_converse(n as int, unit as int, s as int, 0);
    if g > 0 {
        let h = (g - 1) as nat;
        lemma_pow2_pos(h);
        lemma_pow2_unfold(g);
        let less = d * pow2(h);
        assert(less > 0) by (nonlinear_arith)
            requires
                d > 0,
                pow2(h) > 0,
                less == d * pow2(h),
        ;
        assert(n == (2 * s) * less) by (nonlinear_arith)
            requires
                n == s * (d * (2 * pow2(h))),
                less == d * pow2(h),
        ;
        lemma_fundamental_div_mod_converse(n as int, less as int, 2 * s as int, 0);
    }
    round::lemma_quantum_is(p, n, d, g);
    assert(round::nearest_even(n, unit) == s);
    assert(g * half + s == m) by {
        if field > 0 {
            assert(g * half + (fraction + half) == half * field + fraction) by (nonlinear_arith)
                requires
                    g == field - 1,
            ;
        } else {
            assert(half * 0 == 0 && 0 * half == 0);
        }
    }
    assert(round::quantum(p, n, d) == g);
}

/// Rounding keeps the order of what it rounds.
pub proof fn law_rounding_is_monotone(p: nat, top: nat, n1: nat, n2: nat, d: nat)
    requires
        p > 0,
        d > 0,
        n1 <= n2,
    ensures
        round::round_bits(p, top, n1, d) <= round::round_bits(p, top, n2, d),
{
    let half = pow2((p - 1) as nat);
    lemma_pow2_unfold(p);
    lemma_pow2_pos((p - 1) as nat);
    let e1 = round::quantum(p, n1, d);
    let e2 = round::quantum(p, n2, d);
    lemma_quantum(p, n1, d);
    lemma_quantum(p, n2, d);
    lemma_pow2_pos(e1);
    lemma_pow2_pos(e2);
    let u1 = d * pow2(e1);
    let u2 = d * pow2(e2);
    assert(u1 > 0 && u2 > 0) by (nonlinear_arith)
        requires
            d > 0,
            pow2(e1) > 0,
            pow2(e2) > 0,
            u1 == d * pow2(e1),
            u2 == d * pow2(e2),
    ;
    lemma_div_is_ordered(n1 as int, n2 as int, u2 as int);
    lemma_quantum_at_most(p, n1, d, e2);
    lemma_nearest(n1, u1, 0);
    lemma_nearest(n2, u2, 0);
    let k1 = round::nearest_even(n1, u1);
    let k2 = round::nearest_even(n2, u2);
    if e1 == e2 {
        lemma_fundamental_div_mod(n1 as int, u1 as int);
        lemma_fundamental_div_mod(n2 as int, u2 as int);
        assert(k1 <= k2);
    } else {
        let g = (e2 - 1) as nat;
        lemma_pow2_unfold(e2);
        lemma_pow2_pos(g);
        assert(d * pow2(g) > 0) by (nonlinear_arith)
            requires
                d > 0,
                pow2(g) > 0,
        ;
        assert(d * (2 * pow2(g)) == (d * pow2(g)) * 2) by (nonlinear_arith);
        lemma_div_denominator(n2 as int, (d * pow2(g)) as int, 2);
        assert(n2 / u2 >= half);
        assert(e1 * half + 2 * half <= e2 * half + half) by (nonlinear_arith)
            requires
                e1 + 1 <= e2,
                half > 0,
        ;
    }
}

/// Rounding never carries a result past a float.
pub proof fn law_rounding_never_passes_a_float(f: Width, n: nat, d: nat, x: nat)
    requires
        d > 0,
        ops::is_finite(f, x),
    ensures
        n >= ops::magnitude(f, x) * d ==> round::round_bits(f.precision(), f.top(), n, d)
            >= ops::magnitude_bits(f, x),
        n <= ops::magnitude(f, x) * d ==> round::round_bits(f.precision(), f.top(), n, d)
            <= ops::magnitude_bits(f, x),
{
    lemma_round_exact(f, x, d);
    let m = ops::magnitude(f, x) * d;
    if n >= m {
        law_rounding_is_monotone(f.precision(), f.top(), m, n, d);
    }
    if n <= m {
        law_rounding_is_monotone(f.precision(), f.top(), n, m, d);
    }
}

/// Finite floats order as their values do.
pub proof fn lemma_finite_order(f: Width, x: nat, y: nat)
    requires
        ops::is_finite(f, x),
        ops::is_finite(f, y),
    ensures
        ops::order_key(f, x) <= ops::order_key(f, y) <==> ops::value(f, x) <= ops::value(f, y),
{
    let a = ops::magnitude_bits(f, x);
    let b = ops::magnitude_bits(f, y);
    assert(ops::magnitude(f, x) == ops::magnitude(f, a));
    assert(ops::magnitude(f, y) == ops::magnitude(f, b));
    lemma_zero(f);
    if a < b {
        lemma_magnitude_grows(f, a, b);
    }
    if b < a {
        lemma_magnitude_grows(f, b, a);
    }
    if 0 < a {
        lemma_magnitude_grows(f, 0, a);
    }
    if 0 < b {
        lemma_magnitude_grows(f, 0, b);
    }
}

pub proof fn lemma_zero(f: Width)
    ensures
        ops::magnitude(f, 0) == 0,
{
    let half = pow2((f.precision() - 1) as nat);
    lemma_pow2_pos((f.precision() - 1) as nat);
    lemma_small_mod(0, half);
    lemma_basic_div(0, half as int);
}

/// The result of an operation is a bit pattern of the format.
pub proof fn lemma_is_pattern(f: Width, x: nat, y: nat)
    requires
        ops::pattern(f, x),
        ops::pattern(f, y),
    ensures
        ops::pattern(f, ops::sum(f, x, y)),
        ops::pattern(f, ops::product(f, x, y)),
        ops::pattern(f, ops::quotient(f, x, y)),
{
}

/// Adding the same to two numbers keeps their order.
pub proof fn law_sums_keep_order(f: Width, x: nat, y: nat, z: nat)
    requires
        ops::is_finite(f, x),
        ops::is_finite(f, y),
        ops::is_finite(f, z),
        ops::order_key(f, x) <= ops::order_key(f, y),
    ensures
        !ops::is_nan(f, ops::sum(f, x, z)),
        !ops::is_nan(f, ops::sum(f, y, z)),
        ops::order_key(f, ops::sum(f, x, z)) <= ops::order_key(f, ops::sum(f, y, z)),
{
    lemma_finite_order(f, x, y);
    let s = ops::value(f, x) + ops::value(f, z);
    let t = ops::value(f, y) + ops::value(f, z);
    let p = f.precision();
    if s > 0 {
        law_rounding_is_monotone(p, f.top(), s as nat, t as nat, 1);
    }
    if t < 0 {
        law_rounding_is_monotone(p, f.top(), (-t) as nat, (-s) as nat, 1);
    }
}

/// Dividing two numbers by the same positive one keeps their order.
pub proof fn law_quotients_keep_order(f: Width, x: nat, y: nat, z: nat)
    requires
        !ops::is_nan(f, x),
        !ops::is_nan(f, y),
        ops::is_finite(f, z),
        !ops::is_negative(f, z),
        !ops::is_zero(f, z),
        ops::order_key(f, x) <= ops::order_key(f, y),
    ensures
        !ops::is_nan(f, ops::quotient(f, x, z)),
        !ops::is_nan(f, ops::quotient(f, y, z)),
        ops::order_key(f, ops::quotient(f, x, z)) <= ops::order_key(f, ops::quotient(f, y, z)),
{
    let p = f.precision();
    let u = pow2(f.unit());
    let d = ops::magnitude(f, z);
    let a = ops::magnitude_bits(f, x);
    let b = ops::magnitude_bits(f, y);
    lemma_zero(f);
    lemma_magnitude_grows(f, 0, ops::magnitude_bits(f, z));
    assert(ops::magnitude(f, z) == ops::magnitude(f, ops::magnitude_bits(f, z)));
    assert(ops::magnitude(f, x) == ops::magnitude(f, a));
    assert(ops::magnitude(f, y) == ops::magnitude(f, b));
    lemma_pow2_pos(f.unit());
    if ops::is_finite(f, x) && ops::is_finite(f, y) {
        let m = ops::magnitude(f, x);
        let n = ops::magnitude(f, y);
        if a < b {
            lemma_magnitude_grows(f, a, b);
        }
        if b < a {
            lemma_magnitude_grows(f, b, a);
        }
        if m <= n {
            assert(m * u <= n * u) by (nonlinear_arith)
                requires
                    m <= n,
            ;
            law_rounding_is_monotone(p, f.top(), m * u, n * u, d);
        }
        if n <= m {
            assert(n * u <= m * u) by (nonlinear_arith)
                requires
                    n <= m,
            ;
            law_rounding_is_monotone(p, f.top(), n * u, m * u, d);
        }
        if a == 0 || b == 0 {
            assert(0 * u == 0);
            lemma_round_exact(f, 0, d);
            assert(0 * d == 0);
        }
    }
}

/// Adding a multiple of zero changes nothing: it leaves the number as it is, or a zero where
/// the number is one.
pub proof fn law_a_multiple_of_zero_adds_nothing(a: F64, x: F64)
    requires
        a.is_finite_spec(),
        x.is_finite_spec(),
    ensures
        ({
            let s = a.add_spec((F64 { bits: 0 }).mul_spec(x));
            &&& a.value() != 0 ==> s == a
            &&& a.value() == 0 ==> s.is_finite_spec() && s.value() == 0
        }),
{
    let f = Width::Double;
    reveal(F64::add_spec);
    reveal(F64::mul_spec);
    lemma_zero(f);
    lemma_pow2_pos(1074);
    lemma_round_exact(f, 0, pow2(1074));
    assert(0 * pow2(1074) == 0);
    let m = ops::magnitude(f, x.bits as nat);
    assert(0 * m == 0);
    let z = (F64 { bits: 0 }).mul_spec(x);
    assert(ops::magnitude_bits(f, z.bits as nat) == 0);
    assert(z.value() == 0);
    lemma_round_exact(f, a.bits as nat, 1);
    let n = ops::magnitude(f, a.bits as nat);
    assert(n * 1 == n);
}

/// A zero times a finite number is nearest to zero.
pub proof fn lemma_zero_rounds_to_zero(z: F64, x: F64)
    requires
        z.is_finite_spec(),
        z.value() == 0,
        x.is_finite_spec(),
    ensures
        z.mul_spec(x).round_i128_spec() == 0,
{
    let f = Width::Double;
    reveal(F64::mul_spec);
    reveal(F64::round_i128_spec);
    lemma_zero(f);
    lemma_pow2_pos(1074);
    lemma_round_exact(f, 0, pow2(1074));
    assert(0 * pow2(1074) == 0);
    let m = ops::magnitude(f, x.bits as nat);
    assert(ops::magnitude(f, z.bits as nat) == 0);
    assert(0 * m == 0);
    let y = z.mul_spec(x);
    assert(ops::magnitude_bits(f, y.bits as nat) == 0);
    assert(ops::magnitude(f, y.bits as nat) == 0);
    lemma_basic_div(pow2(1074) as int, 2 * pow2(1074) as int);
}

/// Doubling a magnitude never makes it smaller.
pub proof fn law_doubling_never_shrinks(x: F64)
    requires
        x.is_finite_spec(),
        !x.is_negative_spec(),
    ensures
        x.le_spec(x.mul_spec(F64 { bits: 0x4000_0000_0000_0000 })),
{
    let f = Width::Double;
    let two: nat = 0x4000_0000_0000_0000;
    let u = pow2(1074);
    lemma2_to64();
    lemma2_to64_rest();
    lemma_pow2_pos(1074);
    lemma_fundamental_div_mod_converse(two as int, pow2(52) as int, 1024, 0);
    lemma_pow2_adds(52, 1023);
    lemma_pow2_adds(1, 1074);
    assert(ops::magnitude(f, two) == 2 * u);
    let b = x.bits as nat;
    let m = ops::magnitude(f, b);
    let n = m * (2 * u);
    assert(n == (2 * m) * u) by (nonlinear_arith)
        requires
            n == m * (2 * u),
    ;
    reveal(F64::mul_spec);
    let bits = round::round_bits(53, f.top(), n, u);
    let y = x.mul_spec(F64 { bits: two as u64 });
    assert(y.bits == bits);
    if bits < f.top() {
        law_rounding_is_to_the_nearest(f, n, u, b);
        let r = ops::magnitude(f, bits);
        if bits < b {
            lemma_magnitude_grows(f, bits, b);
            assert(r * u < m * u <= (2 * m) * u) by (nonlinear_arith)
                requires
                    r < m,
                    u > 0,
            ;
        }
    }
}

/// A division of whole numbers that comes out even is exact.
pub proof fn law_even_quotients_are_exact(k: int, b: int)
    requires
        0 <= k < 0x20_0000_0000_0000,
        0 < b < 0x20_0000_0000_0000,
        k * b < 0x20_0000_0000_0000,
    ensures
        F64::of_int(k * b).div_spec(F64::of_int(b)) == F64::of_int(k),
{
    let f = Width::Double;
    let u = pow2(1074);
    assert(k * b >= 0) by (nonlinear_arith)
        requires
            k >= 0,
            b > 0,
    ;
    law_small_integers_are_exact(k);
    law_small_integers_are_exact(b);
    law_small_integers_are_exact(k * b);
    lemma_pow2_pos(1074);
    lemma_zero(f);
    let x = F64::of_int(k * b);
    let y = F64::of_int(b);
    let z = F64::of_int(k);
    let d = ops::magnitude(f, y.bits as nat);
    assert(d > 0) by (nonlinear_arith)
        requires
            d == b * u,
            b > 0,
            u > 0,
    ;
    if ops::magnitude_bits(f, y.bits as nat) == 0 {
        assert(ops::magnitude(f, y.bits as nat) == ops::magnitude(f, 0));
    }
    lemma_round_exact(f, z.bits as nat, d);
    let n = ops::magnitude(f, x.bits as nat) * u;
    assert(n == ops::magnitude(f, z.bits as nat) * d) by (nonlinear_arith)
        requires
            n == ((k * b) * u) * u,
            ops::magnitude(f, z.bits as nat) == k * u,
            d == b * u,
    ;
    reveal(F64::div_spec);
    assert(x.div_spec(y).bits == z.bits);
}

/// Cancelling a common positive factor.
proof fn lemma_cancel(a: int, b: int, u: int)
    requires
        u > 0,
        a * u < b * u,
    ensures
        a < b,
{
    assert(a < b) by (nonlinear_arith)
        requires
            u > 0,
            a * u < b * u,
    ;
}

/// A quotient of two whole numbers, less than half of one step of `1 / c` away from the exact
/// one: `m` is its magnitude, in units of which there are `u` in one.
proof fn lemma_close_quotient(a: nat, c: nat, u: nat, g: nat, e: nat, m: nat)
    requires
        u > 0,
        e <= g,
        c * pow2(g) < 2 * u,
        2 * distance(m * (c * u), (a * u) * u) <= (c * u) * pow2(e),
    ensures
        distance(m * c, a * u) < u,
{
    lemma_pow2_grows(e, g);
    assert(m * (c * u) == (m * c) * u) by (nonlinear_arith);
    assert((c * u) * pow2(e) <= (c * pow2(g)) * u) by (nonlinear_arith)
        requires
            pow2(e) <= pow2(g),
    ;
    assert((c * pow2(g)) * u < (2 * u) * u) by (nonlinear_arith)
        requires
            u > 0,
            c * pow2(g) < 2 * u,
    ;
    let x = (m * c) as int;
    let y = (a * u) as int;
    let w = u as int;
    assert(x * w - y * w == (x - y) * w) by (nonlinear_arith);
    assert(y * w - x * w == (y - x) * w) by (nonlinear_arith);
    assert((2 * w) * w == 2 * (w * w)) by (nonlinear_arith);
    if x < y {
        assert(x * w < y * w) by (nonlinear_arith)
            requires
                x < y,
                w > 0,
        ;
        lemma_cancel(y - x, w, w);
    } else {
        assert(x * w >= y * w) by (nonlinear_arith)
            requires
                x >= y,
                w > 0,
        ;
        lemma_cancel(x - y, w, w);
    }
}

proof fn lemma_scaled_bounds(lo: int, hi: int, u: int, m: int, c: int, a: int)
    requires
        u > 0,
        c > 0,
        lo * u <= 2 * m < hi * u,
        -u < m * c - a * u < u,
    ensures
        lo * c < 2 * a + 2,
        2 * a - 2 < hi * c,
{
    assert((lo * c) * u <= 2 * (m * c)) by (nonlinear_arith)
        requires
            lo * u <= 2 * m,
            c > 0,
    ;
    assert(2 * (m * c) < (hi * c) * u) by (nonlinear_arith)
        requires
            2 * m < hi * u,
            c > 0,
    ;
    assert((2 * a + 2) * u == 2 * (a * u) + 2 * u) by (nonlinear_arith);
    assert((2 * a - 2) * u == 2 * (a * u) - 2 * u) by (nonlinear_arith);
    lemma_cancel(lo * c, 2 * a + 2, u);
    lemma_cancel(2 * a - 2, hi * c, u);
}

/// The whole number nearest to a magnitude that is less than `1 / c` away from `a / c` is a
/// nearest one to `a / c` itself, where `c` is even.
proof fn lemma_nearest_whole(a: nat, c: nat, u: nat, m: nat)
    requires
        u > 0,
        c > 0,
        c % 2 == 0,
        distance(m * c, a * u) < u,
    ensures
        ({
            let t = (2 * m + u) / (2 * u);
            -(c as int) <= 2 * a - 2 * (t * c) <= c
        }),
{
    let t = (2 * m + u) / (2 * u);
    lemma_fundamental_div_mod((2 * m + u) as int, (2 * u) as int);
    lemma_mod_bound((2 * m + u) as int, (2 * u) as int);
    let lo = 2 * t - 1;
    let hi = 2 * t + 1;
    assert((2 * u) * t == 2 * (t * u)) by (nonlinear_arith);
    assert(lo * u == 2 * (t * u) - u) by (nonlinear_arith)
        requires
            lo == 2 * t - 1,
    ;
    assert(hi * u == 2 * (t * u) + u) by (nonlinear_arith)
        requires
            hi == 2 * t + 1,
    ;
    lemma_scaled_bounds(lo, hi as int, u as int, m as int, c as int, a as int);
    assert(lo * c == 2 * (t * c) - c) by (nonlinear_arith)
        requires
            lo == 2 * t - 1,
    ;
    assert(hi * c == 2 * (t * c) + c) by (nonlinear_arith)
        requires
            hi == 2 * t + 1,
    ;
    let h = c / 2;
    assert(c == 2 * h);
    let w = t * c;
    assert(w - h <= a <= w + h);
}

/// Dividing two whole numbers and rounding gives a whole number nearest to the exact quotient,
/// where the divisor is even and below `2^47`, and the quotient below a hundred and
/// twenty-eight: the division's own rounding cannot tip it over.
pub proof fn law_rounded_quotient_is_nearest(i: int, c: int)
    requires
        -0x20_0000_0000_0000 < i < 0x20_0000_0000_0000,
        0 < c < 0x8000_0000_0000,
        c % 2 == 0,
        -128 * c < i < 128 * c,
    ensures
        ({
            let t = F64::of_int(i).div_spec(F64::of_int(c)).round_i128_spec() as int;
            -c <= 2 * i - 2 * (t * c) <= c
        }),
{
    let f = Width::Double;
    let x = F64::of_int(i);
    let y = F64::of_int(c);
    law_small_integers_are_exact(i);
    law_small_integers_are_exact(c);
    let a: nat = if i < 0 {
        (-i) as nat
    } else {
        i as nat
    };
    let u = pow2(1074);
    let k = c as nat;
    lemma_pow2_pos(1074);
    lemma2_to64();
    lemma2_to64_rest();
    assert(i * u == -(a * u) || i * u == a * u) by (nonlinear_arith)
        requires
            i == a || i == -a,
    ;
    assert(ops::magnitude(f, x.bits as nat) == a * u);
    assert(ops::magnitude(f, y.bits as nat) == k * u);
    let n = (a * u) * u;
    let d = k * u;
    assert(d > 0) by (nonlinear_arith)
        requires
            k > 0,
            u > 0,
            d == k * u,
    ;
    lemma_pow2_adds(1028, 53);
    lemma_pow2_adds(7, 1074);
    lemma_pow2_adds(1028, 46);
    lemma_pow2_pos(1028);
    assert(n < (d * pow2(1028)) * pow2(53)) by (nonlinear_arith)
        requires
            n == (a * u) * u,
            d == k * u,
            pow2(1028) * pow2(53) == 128 * u,
            a < 128 * k,
            u > 0,
    {
        assert((d * pow2(1028)) * pow2(53) == (k * u) * (pow2(1028) * pow2(53)));
        assert((k * u) * (128 * u) == ((128 * k) * u) * u);
        assert(a * u < (128 * k) * u);
        assert((a * u) * u < ((128 * k) * u) * u);
    }
    lemma_round_close(n, d, 1028);
    let bits = round::round_bits(53, f.top(), n, d);
    let m = ops::magnitude(f, bits);
    assert(k * pow2(1028) < 2 * u) by (nonlinear_arith)
        requires
            k < 2 * pow2(46),
            pow2(1028) * pow2(46) == u,
            pow2(1028) > 0,
    ;
    lemma_close_quotient(a, k, u, 1028, 1028, m);
    lemma_nearest_whole(a, k, u, m);

    reveal(F64::div_spec);
    let z = x.div_spec(y);
    let raw = ops::quotient(f, x.bits as nat, y.bits as nat);
    assert(!ops::is_zero(f, y.bits as nat)) by {
        if ops::is_zero(f, y.bits as nat) {
            lemma_pow2_pos(52);
            lemma_small_mod(0, pow2(52));
            lemma_basic_div(0, pow2(52) as int);
        }
    }
    assert(raw == ops::with_sign(f, i < 0, bits));
    assert(z.bits == raw);
    assert(ops::magnitude_bits(f, raw) == bits);
    assert(ops::magnitude(f, raw) == m);
    let t = (2 * m + u) / (2 * u);
    assert(t <= a + 1) by (nonlinear_arith)
        requires
            -(k as int) <= 2 * a - 2 * (t * k),
            k >= 1,
    ;
    assert((-(t as int)) * c == -(t * k)) by (nonlinear_arith)
        requires
            c == k,
    ;
    let s: int = if i < 0 {
        -(t as int)
    } else {
        t as int
    };
    assert(ops::nearest_integer(f, raw) == s);
    reveal(F64::round_i128_spec);
    assert(z.round_i128_spec() == s);
}

} // verus!
