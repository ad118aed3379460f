//! How far the results of operations on singles are from the exact ones.
//!
//! A single carries twenty-four bits, so one rounding moves a result by no more than one part
//! in two to the power of twenty-four.

use crate::float::accuracy;
use crate::float::accuracy::distance;
use crate::float::bounds;
use crate::float::error;
use crate::float::error::abs;
use crate::float::ops;
use crate::float::ops::Width;
use crate::float::root;
use crate::float::round;
use crate::float::{F32, F64};
use vstd::arithmetic::div_mod::*;
use vstd::arithmetic::mul::*;
use vstd::arithmetic::power2::*;
use vstd::prelude::*;

verus! {

/// A rounded magnitude is close to the exact one, and closest where that is whole.
proof fn lemma_relative(n: nat, d: nat)
    requires
        d > 0,
        round::round_bits(24, Width::Single.top(), n, d) < Width::Single.top(),
    ensures
        ({
            let m = ops::magnitude(
                Width::Single,
                round::round_bits(24, Width::Single.top(), n, d),
            );
            &&& 0x100_0000 * distance(m * d, n) <= n + 0x80_0000 * d
            &&& d == 1 ==> 0x100_0000 * distance(m, n) <= n
        }),
{
    let m = ops::magnitude(Width::Single, round::round_bits(24, Width::Single.top(), n, d));
    let e = round::quantum(24, n, d);
    accuracy::law_rounding_is_to_the_nearest(Width::Single, n, d, 0);
    accuracy::lemma_quantum(24, n, d);
    lemma2_to64();
    lemma_mul_basics(m as int);
    lemma_mul_basics(d as int);
    let gap = distance(m * d, n);
    if e > 0 {
        let g = (e - 1) as nat;
        lemma_pow2_unfold(e);
        lemma_pow2_pos(g);
        let step = d * pow2(g);
        assert(step > 0) by (nonlinear_arith)
            requires
                d > 0,
                pow2(g) > 0,
                step == d * pow2(g),
        ;
        assert(d * (2 * pow2(g)) == 2 * step) by (nonlinear_arith)
            requires
                step == d * pow2(g),
        ;
        assert(gap <= step);
        lemma_fundamental_div_mod(n as int, step as int);
        lemma_mod_bound(n as int, step as int);
        let q = n / step;
        assert(0x100_0000 * step <= n) by (nonlinear_arith)
            requires
                n == step * q + n % step,
                n % step >= 0,
                q >= 0x100_0000,
                step > 0,
        ;
    }
}

/// The powers of two that the two formats differ by.
pub proof fn lemma_units()
    ensures
        pow2(1074) == pow2(925) * pow2(149),
        pow2(925) > 0,
        pow2(149) > 0,
        pow2(1074) > 0,
{
    lemma_pow2_adds(925, 149);
    lemma_pow2_pos(925);
    lemma_pow2_pos(149);
    lemma_pow2_pos(1074);
}

/// How large a finite single can be.
pub proof fn lemma_finite_top(x: F32)
    requires
        x.is_finite_spec(),
    ensures
        abs(x.value()) <= pow2(277),
{
    let f = Width::Single;
    let m = ops::magnitude_bits(f, x.bits as nat);
    lemma2_to64();
    let half = pow2(23);
    lemma_fundamental_div_mod(m as int, half as int);
    lemma_mod_bound(m as int, half as int);
    let field = m / half;
    assert(field <= 254) by (nonlinear_arith)
        requires
            m < 0x7F80_0000,
            half == 0x80_0000,
            m == half * field + m % half,
            m % half >= 0,
    ;
    bounds::lemma_pow2_order(24, 277);
    if field > 0 {
        lemma_pow2_adds(24, 253);
        bounds::lemma_pow2_order((field - 1) as nat, 253);
        assert((m % half + half) * pow2((field - 1) as nat) <= pow2(24) * pow2(253))
            by (nonlinear_arith)
            requires
                0 <= m % half + half <= pow2(24),
                0 <= pow2((field - 1) as nat) <= pow2(253),
        ;
    }
}

/// A single as a double is the same number, to within the rounding of a double.
pub proof fn lemma_widened(x: F32)
    requires
        x.is_finite_spec(),
    ensures
        ({
            let w = x.to_f64_spec();
            let v = x.value() * pow2(925);
            &&& bounds::within(w, 1203)
            &&& 0x10_0000_0000_0000 * abs(w.value() - v) <= abs(v)
            &&& x.value() >= 0 ==> w.value() >= 0
            &&& x.value() <= 0 ==> w.value() <= 0
        }),
{
    reveal(F32::to_f64_spec);
    let f = Width::Double;
    let a = ops::magnitude(Width::Single, x.bits as nat);
    let u = pow2(1074);
    let d = pow2(149);
    let z = pow2(925);
    lemma_units();
    lemma_finite_top(x);
    let n = a * u;
    let t = a * z;
    assert(n == t * d) by (nonlinear_arith)
        requires
            n == a * u,
            u == z * d,
            t == a * z,
    ;
    lemma_pow2_adds(277, 925);
    bounds::lemma_pow2_order(1202, 1203);
    assert(t <= pow2(1202)) by (nonlinear_arith)
        requires
            t == a * z,
            a <= pow2(277),
            pow2(277) * z == pow2(1202),
    ;
    assert(n <= pow2(1203) * d) by (nonlinear_arith)
        requires
            n == t * d,
            t <= pow2(1203),
            d > 0,
    ;
    let negative = x.is_negative_spec();
    bounds::lemma_rounded_within(negative, n, d, 1203);
    let m = round::round_bits(53, f.top(), n, d);
    let r = ops::rounded(f, negative, n, d);
    let w = x.to_f64_spec();
    assert(w.bits == r);
    assert(ops::magnitude_bits(f, r) == m);
    error::lemma_relative(n, d);
    let k = ops::magnitude(f, m) as int;
    assert(ops::magnitude(f, r) == k);
    assert(k * d - t * d == (k - t) * d) by (nonlinear_arith);
    assert(abs((k - t) * d) == abs(k - t) * d) by (nonlinear_arith)
        requires
            d > 0,
    ;
    assert(0x20_0000_0000_0000 * abs(k - t) <= t + 0x10_0000_0000_0000) by (nonlinear_arith)
        requires
            0x20_0000_0000_0000 * (abs(k - t) * d) <= t * d + 0x10_0000_0000_0000 * d,
            d > 0,
    ;
    if a == 0 {
        assert(t == 0) by (nonlinear_arith)
            requires
                a == 0,
                t == a * z,
        ;
        assert(k == 0);
    } else {
        lemma2_to64_rest();
        bounds::lemma_pow2_order(52, 925);
        assert(t >= 0x10_0000_0000_0000) by (nonlinear_arith)
            requires
                t == a * z,
                a >= 1,
                z >= 0x10_0000_0000_0000,
        ;
    }
    assert((-(a as int)) * z == -t) by (nonlinear_arith)
        requires
            t == a * z,
    ;
}

/// A double as a single is the same number, to within the rounding of a single.
pub proof fn lemma_narrowed(q: F64)
    requires
        q.is_finite_spec(),
        q.value() >= 0,
        q.value() * pow2(149) <= (0xFF_FFFF * pow2(253)) * pow2(1074),
    ensures
        ({
            let r = q.to_f32_spec();
            &&& r.is_finite_spec()
            &&& r.value() >= 0
            &&& !q.is_negative_spec() ==> !r.is_negative_spec()
            &&& 0x100_0000 * abs(r.value() * pow2(1074) - q.value() * pow2(149)) <= q.value()
                * pow2(149) + 0x80_0000 * pow2(1074)
        }),
{
    reveal(F64::to_f32_spec);
    let f = Width::Single;
    let a = ops::magnitude(Width::Double, q.bits as nat);
    let u = pow2(1074);
    let d = pow2(149);
    lemma_units();
    let n = a * d;
    assert(q.value() == a);
    let most = 0x7F7F_FFFFnat;
    lemma2_to64();
    lemma_fundamental_div_mod_converse(most as int, 0x80_0000, 254, 0x7F_FFFF);
    assert(ops::magnitude(f, most) == 0xFF_FFFF * pow2(253));
    accuracy::law_rounding_never_passes_a_float(f, n, u, most);
    let m = round::round_bits(24, f.top(), n, u);
    let negative = q.is_negative_spec();
    let r = ops::rounded(f, negative, n, u);
    assert(q.to_f32_spec().bits == r);
    assert(ops::magnitude_bits(f, r) == m);
    lemma_relative(n, u);
    let k = ops::magnitude(f, m) as int;
    assert(ops::magnitude(f, r) == k);
    if negative {
        // Only a negative zero has the sign and is not below zero.
        assert(a == 0);
        assert(n == 0) by (nonlinear_arith)
            requires
                a == 0,
                n == a * d,
        ;
        ops::lemma_round_zero(24, f.top(), u);
        accuracy::lemma_zero(f);
        assert(k == 0);
    }
}

/// The square of a single's root is close to the single.
pub proof fn lemma_root(x: F32)
    requires
        x.is_finite_spec(),
        x.value() >= 0,
    ensures
        ({
            let r = x.sqrt_spec();
            &&& r.is_finite_spec()
            &&& r.value() >= 0
            &&& 0x40_0000 * abs(r.value() * r.value() - x.value() * pow2(149)) <= r.value()
                * r.value()
        }),
{
    reveal(F32::sqrt_spec);
    let f = Width::Single;
    let b = x.bits as nat;
    lemma2_to64();
    accuracy::lemma_zero(f);
    if x.value() == 0 {
        let m = ops::magnitude_bits(f, b);
        if m > 0 {
            accuracy::lemma_magnitude_grows(f, 0, m);
            assert(ops::magnitude(f, b) == ops::magnitude(f, m));
        }
        assert(x.sqrt_spec() == x);
        lemma_mul_basics(pow2(149) as int);
        lemma_mul_basics(0);
    } else {
        assert(!x.is_negative_spec());
        root::lemma_root_close(f, b);
    }
}

/// The error of a sum that did not overflow.
pub proof fn lemma_finite_sum(x: F32, y: F32)
    requires
        x.add_spec(y).is_finite_spec(),
    ensures
        x.is_finite_spec(),
        y.is_finite_spec(),
        0x100_0000 * abs(x.add_spec(y).value() - (x.value() + y.value())) <= abs(
            x.value() + y.value(),
        ),
{
    reveal(F32::add_spec);
    let f = Width::Single;
    let s = x.value() + y.value();
    let n = abs(s) as nat;
    assert(x.is_finite_spec() && y.is_finite_spec());
    if s == 0 {
        accuracy::lemma_zero(f);
        assert(ops::magnitude_bits(f, x.add_spec(y).bits as nat) == 0);
        assert(ops::magnitude(f, x.add_spec(y).bits as nat) == ops::magnitude(f, 0));
    } else {
        let m = round::round_bits(24, f.top(), n, 1);
        let r = ops::rounded(f, s < 0, n, 1);
        assert(m <= f.top());
        assert(x.add_spec(y).bits == r);
        assert(ops::magnitude_bits(f, r) == m);
        lemma_relative(n, 1);
        assert(ops::magnitude(f, r) == ops::magnitude(f, m));
    }
}

pub proof fn lemma_neg_value(x: F32)
    ensures
        x.is_finite_spec() <==> x.neg_spec().is_finite_spec(),
        x.neg_spec().value() == -x.value(),
{
    assert(ops::magnitude_bits(Width::Single, x.neg_spec().bits as nat) == ops::magnitude_bits(
        Width::Single,
        x.bits as nat,
    ));
}

/// The error of a difference that did not overflow.
pub proof fn lemma_finite_difference(x: F32, y: F32)
    requires
        x.sub_spec(y).is_finite_spec(),
    ensures
        x.is_finite_spec(),
        y.is_finite_spec(),
        0x100_0000 * abs(x.sub_spec(y).value() - (x.value() - y.value())) <= abs(
            x.value() - y.value(),
        ),
{
    lemma_finite_sum(x, y.neg_spec());
    lemma_neg_value(y);
}

/// The error of a product that did not overflow.
pub proof fn lemma_finite_product(x: F32, y: F32)
    requires
        x.mul_spec(y).is_finite_spec(),
    ensures
        x.is_finite_spec(),
        y.is_finite_spec(),
        0x100_0000 * abs(x.mul_spec(y).value() * pow2(149) - x.value() * y.value()) <= abs(
            x.value() * y.value(),
        ) + 0x80_0000 * pow2(149),
{
    reveal(F32::mul_spec);
    let f = Width::Single;
    let a = ops::magnitude(f, x.bits as nat);
    let b = ops::magnitude(f, y.bits as nat);
    let u = pow2(149);
    lemma_pow2_pos(149);
    let negative = x.is_negative_spec() != y.is_negative_spec();
    let v = x.value() * y.value();
    assert(x.is_finite_spec() && y.is_finite_spec());
    assert(v == if negative { -((a * b) as int) } else { (a * b) as int }) by {
        assert((-(a as int)) * b == -(a * b)) by (nonlinear_arith);
        assert(a * (-(b as int)) == -(a * b)) by (nonlinear_arith);
        assert((-(a as int)) * (-(b as int)) == a * b) by (nonlinear_arith);
    }
    assert(a * b >= 0) by (nonlinear_arith)
        requires
            a >= 0,
            b >= 0,
    ;
    let m = round::round_bits(24, f.top(), a * b, u);
    let r = ops::rounded(f, negative, a * b, u);
    assert(m <= f.top());
    assert(x.mul_spec(y).bits == r);
    assert(ops::magnitude_bits(f, r) == m);
    lemma_relative(a * b, u);
    let w = ops::magnitude(f, m) as int;
    assert(ops::magnitude(f, r) == w);
    assert((-w) * u == -(w * u)) by (nonlinear_arith);
}

/// A sum that is no larger than the largest single is a single.
pub proof fn lemma_sum_is_finite(x: F32, y: F32)
    requires
        x.is_finite_spec(),
        y.is_finite_spec(),
        abs(x.value() + y.value()) <= 0xFF_FFFF * pow2(253),
    ensures
        x.add_spec(y).is_finite_spec(),
{
    reveal(F32::add_spec);
    let f = Width::Single;
    let s = x.value() + y.value();
    let n = abs(s) as nat;
    let most = 0x7F7F_FFFFnat;
    lemma2_to64();
    lemma_fundamental_div_mod_converse(most as int, 0x80_0000, 254, 0x7F_FFFF);
    assert(ops::magnitude(f, most) == 0xFF_FFFF * pow2(253));
    lemma_mul_basics(ops::magnitude(f, most) as int);
    accuracy::law_rounding_never_passes_a_float(f, n, 1, most);
    let m = round::round_bits(24, f.top(), n, 1);
    assert(ops::magnitude_bits(f, ops::rounded(f, s < 0, n, 1)) == m);
}

/// So is a difference.
pub proof fn lemma_difference_is_finite(x: F32, y: F32)
    requires
        x.is_finite_spec(),
        y.is_finite_spec(),
        abs(x.value() - y.value()) <= 0xFF_FFFF * pow2(253),
    ensures
        x.sub_spec(y).is_finite_spec(),
{
    lemma_neg_value(y);
    lemma_sum_is_finite(x, y.neg_spec());
}

/// So is a product.
pub proof fn lemma_product_is_finite(x: F32, y: F32)
    requires
        x.is_finite_spec(),
        y.is_finite_spec(),
        abs(x.value()) * abs(y.value()) <= (0xFF_FFFF * pow2(253)) * pow2(149),
    ensures
        x.mul_spec(y).is_finite_spec(),
{
    reveal(F32::mul_spec);
    let f = Width::Single;
    let a = ops::magnitude(f, x.bits as nat);
    let b = ops::magnitude(f, y.bits as nat);
    let negative = x.is_negative_spec() != y.is_negative_spec();
    let most = 0x7F7F_FFFFnat;
    lemma2_to64();
    lemma_pow2_pos(149);
    lemma_fundamental_div_mod_converse(most as int, 0x80_0000, 254, 0x7F_FFFF);
    assert(ops::magnitude(f, most) == 0xFF_FFFF * pow2(253));
    accuracy::law_rounding_never_passes_a_float(f, a * b, pow2(149), most);
    let m = round::round_bits(24, f.top(), a * b, pow2(149));
    assert(ops::magnitude_bits(f, ops::rounded(f, negative, a * b, pow2(149))) == m);
}

/// The error of a quotient that did not overflow.
pub proof fn lemma_finite_quotient(x: F32, y: F32)
    requires
        x.div_spec(y).is_finite_spec(),
        y.is_finite_spec(),
    ensures
        x.is_finite_spec(),
        y.value() != 0,
        0x100_0000 * abs(x.div_spec(y).value() * y.value() - x.value() * pow2(149)) <= abs(
            x.value(),
        ) * pow2(149) + 0x80_0000 * abs(y.value()),
        x.value() >= 0 && y.value() > 0 ==> x.div_spec(y).value() >= 0,
        x.value() <= 0 && y.value() > 0 ==> x.div_spec(y).value() <= 0,
{
    reveal(F32::div_spec);
    let f = Width::Single;
    let a = ops::magnitude(f, x.bits as nat);
    let b = ops::magnitude(f, y.bits as nat);
    let u = pow2(149);
    lemma_pow2_pos(149);
    let negative = x.is_negative_spec() != y.is_negative_spec();
    assert(x.is_finite_spec());
    assert(!ops::is_zero(f, y.bits as nat));
    accuracy::lemma_zero(f);
    accuracy::lemma_magnitude_grows(f, 0, ops::magnitude_bits(f, y.bits as nat));
    assert(b == ops::magnitude(f, ops::magnitude_bits(f, y.bits as nat)));
    assert(b > 0);
    let n = a * u;
    let m = round::round_bits(24, f.top(), n, b);
    let r = ops::rounded(f, negative, n, b);
    assert(m <= f.top());
    assert(x.div_spec(y).bits == r);
    assert(ops::magnitude_bits(f, r) == m);
    lemma_relative(n, b);
    let w = ops::magnitude(f, m) as int;
    let q = x.div_spec(y).value();
    assert(ops::magnitude(f, r) == w);
    assert(q == if negative { -w } else { w });
    let xv = x.value();
    let yv = y.value();
    assert(abs(q * yv - xv * u) == abs(w * b - a * u)) by (nonlinear_arith)
        requires
            negative == (x.is_negative_spec() != y.is_negative_spec()),
            q == if negative { -w } else { w },
            xv == if x.is_negative_spec() { -(a as int) } else { a as int },
            yv == if y.is_negative_spec() { -(b as int) } else { b as int },
    ;
    if a == 0 {
        assert(n == 0) by (nonlinear_arith)
            requires
                a == 0,
                n == a * u,
        ;
        ops::lemma_round_zero(24, f.top(), b);
        assert(w == 0);
    }
}

/// A quotient that is no larger than the largest single is a single.
pub proof fn lemma_quotient_is_finite(x: F32, y: F32)
    requires
        x.is_finite_spec(),
        y.is_finite_spec(),
        y.value() != 0,
        abs(x.value()) * pow2(149) <= (0xFF_FFFF * pow2(253)) * abs(y.value()),
    ensures
        x.div_spec(y).is_finite_spec(),
{
    reveal(F32::div_spec);
    let f = Width::Single;
    let a = ops::magnitude(f, x.bits as nat);
    let b = ops::magnitude(f, y.bits as nat);
    let negative = x.is_negative_spec() != y.is_negative_spec();
    let most = 0x7F7F_FFFFnat;
    lemma2_to64();
    accuracy::lemma_zero(f);
    if ops::is_zero(f, y.bits as nat) {
        assert(b == ops::magnitude(f, 0));
    }
    lemma_fundamental_div_mod_converse(most as int, 0x80_0000, 254, 0x7F_FFFF);
    assert(ops::magnitude(f, most) == 0xFF_FFFF * pow2(253));
    accuracy::law_rounding_never_passes_a_float(f, a * pow2(149), b, most);
    let m = round::round_bits(24, f.top(), a * pow2(149), b);
    assert(ops::magnitude_bits(f, ops::rounded(f, negative, a * pow2(149), b)) == m);
}

/// A difference from nothing is what it was.
pub proof fn lemma_exact_difference(x: F32, y: F32)
    requires
        x.is_finite_spec(),
        y.is_finite_spec(),
        y.value() == 0,
    ensures
        x.sub_spec(y).value() == x.value(),
{
    let f = Width::Single;
    let a = ops::magnitude(f, x.bits as nat);
    lemma_neg_value(y);
    accuracy::lemma_zero(f);
    if a > 0 {
        accuracy::law_rounding_never_passes_a_float(f, a, 1, x.bits as nat);
        lemma_mul_basics(a as int);
        let m = round::round_bits(24, f.top(), a, 1);
        assert(m == ops::magnitude_bits(f, x.bits as nat));
        assert(ops::magnitude(f, m) == a);
        reveal(F32::add_spec);
        let r = ops::rounded(f, x.value() < 0, a, 1);
        assert(x.sub_spec(y).bits == r);
        assert(ops::magnitude_bits(f, r) == m);
        assert(ops::magnitude(f, r) == ops::magnitude(f, m));
    } else {
        reveal(F32::add_spec);
        assert(ops::magnitude_bits(f, x.sub_spec(y).bits as nat) == 0);
        assert(ops::magnitude(f, x.sub_spec(y).bits as nat) == ops::magnitude(f, 0));
    }
}

/// An integer as a single, to within one part in two to the power of twenty-four.
pub proof fn lemma_integer(i: int)
    requires
        0 <= i <= 0x1_0000_0000_0000_0000,
    ensures
        F32::of_int(i).is_finite_spec(),
        F32::of_int(i).value() >= 0,
        i > 0 ==> F32::of_int(i).value() > 0,
        0x100_0000 * abs(F32::of_int(i).value() - i * pow2(149)) <= i * pow2(149),
{
    let f = Width::Single;
    let u = pow2(149) as int;
    lemma_pow2_pos(149);
    let n = (i * u) as nat;
    assert(n == i * u && (i > 0 ==> n > 0)) by (nonlinear_arith)
        requires
            i >= 0,
            u > 0,
            n == (i * u) as nat,
    ;
    let most = 0x7F7F_FFFFnat;
    lemma2_to64();
    lemma_pow2_adds(64, 149);
    lemma_fundamental_div_mod_converse(most as int, 0x80_0000, 254, 0x7F_FFFF);
    bounds::lemma_pow2_order(213, 253);
    assert(n <= 0xFF_FFFF * pow2(253)) by (nonlinear_arith)
        requires
            n == i * u,
            0 <= i <= 0x1_0000_0000_0000_0000,
            u > 0,
            pow2(213) == 0x1_0000_0000_0000_0000 * u,
            pow2(213) <= pow2(253),
    ;
    lemma_mul_basics(n as int);
    accuracy::law_rounding_never_passes_a_float(f, n, 1, most);
    let m = round::round_bits(24, f.top(), n, 1);
    reveal(F32::of_int);
    let r = F32::of_int(i);
    assert(m <= most);
    assert(r.bits == m);
    assert(ops::magnitude_bits(f, r.bits as nat) == m);
    assert(ops::magnitude(f, r.bits as nat) == ops::magnitude(f, m));
    lemma_relative(n, 1);
    if i == 0 {
        ops::lemma_round_zero(24, f.top(), 1);
        accuracy::lemma_zero(f);
    }
}

} // verus!
