//! How far the results of operations, and of sums and means, are from the exact ones.
//!
//! A double carries fifty-three bits, so one rounding moves a result by no more than one part
//! in two to the power of fifty-three.

use crate::float::accuracy;
use crate::float::accuracy::distance;
use crate::float::bounds;
use crate::float::bounds::{size, within};
use crate::float::fold;
use crate::float::ops;
use crate::float::ops::Width;
use crate::float::round;
use crate::float::F64;
use crate::time::ONE;
use vstd::arithmetic::div_mod::*;
use vstd::arithmetic::mul::*;
use vstd::arithmetic::power2::*;
use vstd::prelude::*;

verus! {

/// The most values that errors are added up over.
pub const MOST: u64 = 0x80_0000;

/// The absolute value.
pub open spec fn abs(i: int) -> int {
    if i < 0 {
        -i
    } else {
        i
    }
}

/// A rounded magnitude is close to the exact one, and closest where that is whole.
pub proof fn lemma_relative(n: nat, d: nat)
    requires
        d > 0,
        round::round_bits(53, Width::Double.top(), n, d) < Width::Double.top(),
    ensures
        ({
            let m = ops::magnitude(
                Width::Double,
                round::round_bits(53, Width::Double.top(), n, d),
            );
            &&& 0x20_0000_0000_0000 * distance(m * d, n) <= n + 0x10_0000_0000_0000 * d
            &&& d == 1 ==> 0x20_0000_0000_0000 * distance(m, n) <= n
        }),
{
    let m = ops::magnitude(Width::Double, round::round_bits(53, Width::Double.top(), n, d));
    let e = round::quantum(53, n, d);
    accuracy::law_rounding_is_to_the_nearest(Width::Double, n, d, 0);
    accuracy::lemma_quantum(53, n, d);
    lemma2_to64();
    lemma2_to64_rest();
    lemma_mul_basics(m as int);
    lemma_mul_basics(d as int);
    let gap = distance(m * d, n);
    if e > 0 {
        let g = (e - 1) as nat;
        lemma_pow2_unfold(e);
        lemma_pow2_pos(g);
        let step = d * pow2(g);
        assert(step > 0) by (nonlinear_arith)
            requires
                d > 0,
                pow2(g) > 0,
                step == d * pow2(g),
        ;
        assert(d * (2 * pow2(g)) == 2 * step) by (nonlinear_arith)
            requires
                step == d * pow2(g),
        ;
        assert(gap <= step);
        lemma_fundamental_div_mod(n as int, step as int);
        lemma_mod_bound(n as int, step as int);
        let q = n / step;
        assert(0x20_0000_0000_0000 * step <= n) by (nonlinear_arith)
            requires
                n == step * q + n % step,
                n % step >= 0,
                q >= 0x20_0000_0000_0000,
                step > 0,
        ;
        assert(0x20_0000_0000_0000 * gap <= 0x20_0000_0000_0000 * step) by (nonlinear_arith)
            requires
                gap <= step,
        ;
    }
}

/// The error of a sum.
pub proof fn lemma_add_error(x: F64, y: F64, k: nat)
    requires
        x.is_finite_spec(),
        y.is_finite_spec(),
        abs(x.value() + y.value()) <= pow2(k),
        52 <= k <= 2097,
    ensures
        within(x.add_spec(y), k),
        0x20_0000_0000_0000 * abs(x.add_spec(y).value() - (x.value() + y.value())) <= abs(x.value() + y.value()),
{
    reveal(F64::add_spec);
    let s = x.value() + y.value();
    let n = abs(s) as nat;
    lemma_mul_basics(pow2(k) as int);
    if s == 0 {
        bounds::lemma_zero_within(x.add_spec(y), k);
        accuracy::lemma_zero(Width::Double);
        assert(ops::magnitude_bits(Width::Double, x.add_spec(y).bits as nat) == 0);
        assert(size(x.add_spec(y)) == ops::magnitude(Width::Double, 0));
    } else {
        bounds::lemma_rounded_within(s < 0, n, 1, k);
        let m = round::round_bits(53, Width::Double.top(), n, 1);
        assert(m < Width::Double.top());
        lemma_relative(n, 1);
        let r = ops::rounded(Width::Double, s < 0, n, 1);
        assert(x.add_spec(y).bits == r);
        assert(ops::magnitude_bits(Width::Double, r) == m);
        assert(ops::magnitude(Width::Double, r) == ops::magnitude(Width::Double, m));
    }
}

pub proof fn lemma_neg_value(x: F64)
    ensures
        x.is_finite_spec() ==> x.neg_spec().is_finite_spec(),
        x.neg_spec().value() == -x.value(),
{
    assert(ops::magnitude_bits(Width::Double, x.neg_spec().bits as nat) == ops::magnitude_bits(
        Width::Double,
        x.bits as nat,
    ));
}

/// The error of a difference.
pub proof fn lemma_sub_error(x: F64, y: F64, k: nat)
    requires
        x.is_finite_spec(),
        y.is_finite_spec(),
        abs(x.value() - y.value()) <= pow2(k),
        52 <= k <= 2097,
    ensures
        within(x.sub_spec(y), k),
        0x20_0000_0000_0000 * abs(x.sub_spec(y).value() - (x.value() - y.value())) <= abs(x.value() - y.value()),
{
    lemma_neg_value(y);
    lemma_add_error(x, y.neg_spec(), k);
}

/// The error of a product.
pub proof fn lemma_mul_error(x: F64, y: F64, k: nat)
    requires
        x.is_finite_spec(),
        y.is_finite_spec(),
        abs(x.value() * y.value()) <= pow2(k) * pow2(1074),
        52 <= k <= 2097,
    ensures
        within(x.mul_spec(y), k),
        0x20_0000_0000_0000 * abs(x.mul_spec(y).value() * pow2(1074) - x.value() * y.value()) <= abs(
            x.value() * y.value(),
        ) + 0x10_0000_0000_0000 * pow2(1074),
{
    reveal(F64::mul_spec);
    let a = size(x);
    let b = size(y);
    let u = pow2(1074);
    lemma_pow2_pos(1074);
    let negative = x.is_negative_spec() != y.is_negative_spec();
    let v = x.value() * y.value();
    assert(v == if negative { -((a * b) as int) } else { (a * b) as int }) by {
        assert((-(a as int)) * b == -(a * b)) by (nonlinear_arith);
        assert(a * (-(b as int)) == -(a * b)) by (nonlinear_arith);
        assert((-(a as int)) * (-(b as int)) == a * b) by (nonlinear_arith);
    }
    assert(a * b >= 0) by (nonlinear_arith)
        requires
            a >= 0,
            b >= 0,
    ;
    bounds::lemma_rounded_within(negative, a * b, u, k);
    let m = round::round_bits(53, Width::Double.top(), a * b, u);
    let r = ops::rounded(Width::Double, negative, a * b, u);
    assert(x.mul_spec(y).bits == r);
    assert(ops::magnitude_bits(Width::Double, r) == m);
    lemma_relative(a * b, u);
    let w = ops::magnitude(Width::Double, m) as int;
    assert(ops::magnitude(Width::Double, r) == w);
    assert((-w) * u == -(w * u)) by (nonlinear_arith);
}

/// The error of a sum that did not overflow.
pub proof fn lemma_finite_sum(x: F64, y: F64)
    requires
        x.add_spec(y).is_finite_spec(),
    ensures
        x.is_finite_spec(),
        y.is_finite_spec(),
        0x20_0000_0000_0000 * abs(x.add_spec(y).value() - (x.value() + y.value())) <= abs(x.value() + y.value()),
{
    reveal(F64::add_spec);
    let s = x.value() + y.value();
    let n = abs(s) as nat;
    assert(x.is_finite_spec() && y.is_finite_spec());
    if s == 0 {
        accuracy::lemma_zero(Width::Double);
        assert(ops::magnitude_bits(Width::Double, x.add_spec(y).bits as nat) == 0);
        assert(size(x.add_spec(y)) == ops::magnitude(Width::Double, 0));
    } else {
        let m = round::round_bits(53, Width::Double.top(), n, 1);
        let r = ops::rounded(Width::Double, s < 0, n, 1);
        assert(m <= Width::Double.top());
        assert(x.add_spec(y).bits == r);
        assert(ops::magnitude_bits(Width::Double, r) == m);
        lemma_relative(n, 1);
        assert(ops::magnitude(Width::Double, r) == ops::magnitude(Width::Double, m));
    }
}

/// The error of a difference that did not overflow.
pub proof fn lemma_finite_difference(x: F64, y: F64)
    requires
        x.sub_spec(y).is_finite_spec(),
    ensures
        x.is_finite_spec(),
        y.is_finite_spec(),
        0x20_0000_0000_0000 * abs(x.sub_spec(y).value() - (x.value() - y.value())) <= abs(x.value() - y.value()),
{
    lemma_finite_sum(x, y.neg_spec());
    lemma_neg_value(y);
    assert(ops::magnitude_bits(Width::Double, y.neg_spec().bits as nat) == ops::magnitude_bits(
        Width::Double,
        y.bits as nat,
    ));
}

/// The error of a product that did not overflow.
pub proof fn lemma_finite_product(x: F64, y: F64)
    requires
        x.mul_spec(y).is_finite_spec(),
    ensures
        x.is_finite_spec(),
        y.is_finite_spec(),
        0x20_0000_0000_0000 * abs(x.mul_spec(y).value() * pow2(1074) - x.value() * y.value()) <= abs(
            x.value() * y.value(),
        ) + 0x10_0000_0000_0000 * pow2(1074),
        x.mul_spec(y).value() > 0 ==> (x.value() > 0 <==> y.value() > 0),
        x.value() >= 0 && y.value() >= 0 ==> x.mul_spec(y).value() >= 0,
        x.value() >= 0 && y.value() <= 0 ==> x.mul_spec(y).value() <= 0,
        x.value() <= 0 && y.value() >= 0 ==> x.mul_spec(y).value() <= 0,
        x.value() <= 0 && y.value() <= 0 ==> x.mul_spec(y).value() >= 0,
{
    reveal(F64::mul_spec);
    let a = size(x);
    let b = size(y);
    let u = pow2(1074);
    lemma_pow2_pos(1074);
    let negative = x.is_negative_spec() != y.is_negative_spec();
    let v = x.value() * y.value();
    assert(x.is_finite_spec() && y.is_finite_spec());
    assert(v == if negative { -((a * b) as int) } else { (a * b) as int }) by {
        assert((-(a as int)) * b == -(a * b)) by (nonlinear_arith);
        assert(a * (-(b as int)) == -(a * b)) by (nonlinear_arith);
        assert((-(a as int)) * (-(b as int)) == a * b) by (nonlinear_arith);
    }
    assert(a * b >= 0) by (nonlinear_arith)
        requires
            a >= 0,
            b >= 0,
    ;
    let m = round::round_bits(53, Width::Double.top(), a * b, u);
    let r = ops::rounded(Width::Double, negative, a * b, u);
    assert(m <= Width::Double.top());
    assert(x.mul_spec(y).bits == r);
    assert(ops::magnitude_bits(Width::Double, r) == m);
    lemma_relative(a * b, u);
    let w = ops::magnitude(Width::Double, m) as int;
    assert(ops::magnitude(Width::Double, r) == w);
    assert((-w) * u == -(w * u)) by (nonlinear_arith);
    if a == 0 || b == 0 {
        assert(a * b == 0) by (nonlinear_arith)
            requires
                a == 0 || b == 0,
        ;
        ops::lemma_round_zero(53, Width::Double.top(), u);
        accuracy::lemma_zero(Width::Double);
        assert(w == 0);
    }
}

/// The error of a quotient that did not overflow.
pub proof fn lemma_finite_quotient(x: F64, y: F64)
    requires
        x.div_spec(y).is_finite_spec(),
        y.is_finite_spec(),
    ensures
        x.is_finite_spec(),
        y.value() != 0,
        0x20_0000_0000_0000 * abs(x.div_spec(y).value() * y.value() - x.value() * pow2(1074)) <= abs(
            x.value(),
        ) * pow2(1074) + 0x10_0000_0000_0000 * abs(y.value()),
        x.value() >= 0 && y.value() > 0 ==> x.div_spec(y).value() >= 0,
        x.value() <= 0 && y.value() > 0 ==> x.div_spec(y).value() <= 0,
{
    reveal(F64::div_spec);
    let a = size(x);
    let b = size(y);
    let u = pow2(1074);
    lemma_pow2_pos(1074);
    let negative = x.is_negative_spec() != y.is_negative_spec();
    assert(x.is_finite_spec());
    assert(!ops::is_zero(Width::Double, y.bits as nat));
    accuracy::lemma_zero(Width::Double);
    accuracy::lemma_magnitude_grows(
        Width::Double,
        0,
        ops::magnitude_bits(Width::Double, y.bits as nat),
    );
    assert(ops::magnitude(Width::Double, y.bits as nat) == ops::magnitude(
        Width::Double,
        ops::magnitude_bits(Width::Double, y.bits as nat),
    ));
    assert(b > 0);
    let n = a * u;
    let m = round::round_bits(53, Width::Double.top(), n, b);
    let r = ops::rounded(Width::Double, negative, n, b);
    assert(m <= Width::Double.top());
    assert(x.div_spec(y).bits == r);
    assert(ops::magnitude_bits(Width::Double, r) == m);
    lemma_relative(n, b);
    let w = ops::magnitude(Width::Double, m) as int;
    let q = x.div_spec(y).value();
    assert(ops::magnitude(Width::Double, r) == w);
    assert(q == if negative { -w } else { w });
    let xv = x.value();
    let yv = y.value();
    assert(abs(q * yv - xv * u) == abs(w * b - a * u)) by (nonlinear_arith)
        requires
            negative == (x.is_negative_spec() != y.is_negative_spec()),
            q == if negative { -w } else { w },
            xv == if x.is_negative_spec() { -(a as int) } else { a as int },
            yv == if y.is_negative_spec() { -(b as int) } else { b as int },
    ;
    if a == 0 {
        assert(n == 0) by (nonlinear_arith)
            requires
                a == 0,
                n == a * u,
        ;
        ops::lemma_round_zero(53, Width::Double.top(), b);
        assert(w == 0);
    }
}

/// The error of a quotient.
pub proof fn lemma_div_error(x: F64, y: F64, k: nat)
    requires
        x.is_finite_spec(),
        y.is_finite_spec(),
        y.value() != 0,
        abs(x.value()) * pow2(1074) <= pow2(k) * abs(y.value()),
        52 <= k <= 2097,
    ensures
        within(x.div_spec(y), k),
        0x20_0000_0000_0000 * abs(x.div_spec(y).value() * y.value() - x.value() * pow2(1074)) <= abs(
            x.value(),
        ) * pow2(1074) + 0x10_0000_0000_0000 * abs(y.value()),
        x.value() >= 0 && y.value() > 0 ==> x.div_spec(y).value() >= 0,
        x.value() <= 0 && y.value() > 0 ==> x.div_spec(y).value() <= 0,
{
    let negative = x.is_negative_spec() != y.is_negative_spec();
    accuracy::lemma_zero(Width::Double);
    if ops::is_zero(Width::Double, y.bits as nat) {
        assert(size(y) == ops::magnitude(Width::Double, 0));
    }
    bounds::lemma_rounded_within(negative, size(x) * pow2(1074), size(y), k);
    assert(within(x.div_spec(y), k)) by {
        reveal(F64::div_spec);
    }
    lemma_finite_quotient(x, y);
}

/// One over a count.
pub proof fn lemma_reciprocal_error(n: nat)
    requires
        1 <= n <= MOST,
    ensures
        ({
            let r = (F64 { bits: ONE }).div_spec(F64::of_int(n as int));
            &&& within(r, 1074)
            &&& r.value() >= 0
            &&& 0x20_0000_0000_0000 * abs(r.value() * n - pow2(1074)) <= 2 * pow2(1074)
        }),
{
    reveal(F64::div_spec);
    let one = F64 { bits: ONE };
    let d = F64::of_int(n as int);
    let u = pow2(1074);
    lemma_pow2_pos(1074);
    accuracy::law_small_integers_are_exact(n as int);
    bounds::lemma_power(1074);
    assert(bounds::power_bits(1074) == ONE);
    assert(size(one) == u);
    assert(size(d) == n * u);
    assert(n * u >= u) by (nonlinear_arith)
        requires
            n >= 1,
            u > 0,
    ;
    accuracy::lemma_zero(Width::Double);
    assert(!ops::is_zero(Width::Double, d.bits as nat)) by {
        if ops::is_zero(Width::Double, d.bits as nat) {
            assert(size(d) == ops::magnitude(Width::Double, 0));
        }
    }
    let den = n * u;
    assert(u * u <= u * den) by (nonlinear_arith)
        requires
            u <= den,
            u > 0,
    ;
    bounds::lemma_rounded_within(false, u * u, den, 1074);
    lemma_relative(u * u, den);
    let m = ops::magnitude(
        Width::Double,
        round::round_bits(53, Width::Double.top(), u * u, den),
    );
    let r = one.div_spec(d);
    assert(r.value() == m);
    // The slack is far below the exact value.
    lemma_pow2_order_64();
    let t = m * n - u;
    assert(m * den - u * u == t * u) by (nonlinear_arith)
        requires
            den == n * u,
            t == m * n - u,
    ;
    assert(abs(t * u) == abs(t) * u) by (nonlinear_arith)
        requires
            u > 0,
    ;
    assert(0x20_0000_0000_0000 * abs(t) <= 2 * u) by (nonlinear_arith)
        requires
            0x20_0000_0000_0000 * abs(t * u) <= u * u + 0x10_0000_0000_0000 * (n * u),
            abs(t * u) == abs(t) * u,
            n <= 0x80_0000,
            u >= 0x1_0000_0000_0000_0000 * 0x1_0000_0000_0000_0000,
    {
        assert(0x10_0000_0000_0000 * n <= u);
        assert(0x10_0000_0000_0000 * (n * u) == (0x10_0000_0000_0000 * n) * u);
        assert((0x10_0000_0000_0000 * n) * u <= u * u);
        assert((0x20_0000_0000_0000 * abs(t)) * u <= (2 * u) * u);
    }
}

proof fn lemma_pow2_order_64()
    ensures
        pow2(1074) >= 0x1_0000_0000_0000_0000 * 0x1_0000_0000_0000_0000,
{
    lemma2_to64();
    lemma_pow2_adds(64, 64);
    bounds::lemma_pow2_order(128, 1074);
}

/// The exact sum of some doubles.
pub open spec fn sum(s: Seq<F64>) -> int
    decreases s.len(),
{
    if s.len() == 0 {
        0
    } else {
        sum(s.drop_last()) + s.last().value()
    }
}

/// The exact sum of their absolute values.
pub open spec fn bulk(s: Seq<F64>) -> int
    decreases s.len(),
{
    if s.len() == 0 {
        0
    } else {
        bulk(s.drop_last()) + abs(s.last().value())
    }
}

pub open spec fn all_finite(s: Seq<F64>) -> bool {
    forall|i: int| 0 <= i < s.len() ==> (#[trigger] s[i]).is_finite_spec()
}

pub proof fn lemma_sum_within_bulk(s: Seq<F64>)
    ensures
        abs(sum(s)) <= bulk(s),
    decreases s.len(),
{
    if s.len() > 0 {
        lemma_sum_within_bulk(s.drop_last());
    }
}

/// The error of a sum of many.
pub proof fn lemma_total_error(start: F64, s: Seq<F64>, k: nat)
    requires
        start.bits == 0 || start.bits == fold::NEG_ZERO,
        all_finite(s),
        s.len() <= MOST,
        2 * bulk(s) <= pow2(k),
        52 <= k <= 2097,
    ensures
        within(fold::total(start, s), k),
        0x10_0000_0000_0000 * abs(fold::total(start, s).value() - sum(s)) <= s.len() * bulk(s),
        abs(fold::total(start, s).value()) <= 2 * bulk(s),
    decreases s.len(),
{
    if s.len() == 0 {
        bounds::lemma_zero_within(start, k);
        accuracy::lemma_zero(Width::Double);
        assert(ops::magnitude_bits(Width::Double, start.bits as nat) == 0);
        assert(size(start) == ops::magnitude(Width::Double, 0));
    } else {
        let fewer = s.drop_last();
        assert forall|i: int| 0 <= i < fewer.len() implies (
        #[trigger] fewer[i]).is_finite_spec() by {
            assert(fewer[i] == s[i]);
        }
        assert(s[s.len() - 1].is_finite_spec());
        lemma_sum_within_bulk(s);
        lemma_sum_within_bulk(fewer);
        lemma_total_error(start, fewer, k);
        let b = bulk(fewer);
        let t = fold::total(start, fewer).value();
        let a = s.last().value();
        let n = s.len() as int;
        assert((n - 1) * b <= 0x80_0000 * b) by (nonlinear_arith)
            requires
                n - 1 <= 0x80_0000,
                b >= 0,
        ;
        lemma_add_error(fold::total(start, fewer), s.last(), k);
        assert((n - 1) * b + (b + abs(a)) <= n * (b + abs(a))) by (nonlinear_arith)
            requires
                n >= 1,
                b >= 0,
                abs(a) >= 0,
        ;
        assert(n * (b + abs(a)) <= 0x80_0000 * (b + abs(a))) by (nonlinear_arith)
            requires
                n <= 0x80_0000,
                b >= 0,
                abs(a) >= 0,
        ;
    }
}

/// The error of a mean, as it is computed: the sum times one over the count.
pub proof fn lemma_mean_error(s: Seq<F64>, k: nat)
    requires
        all_finite(s),
        2 <= s.len() <= MOST,
        4 * bulk(s) <= pow2(k),
        bulk(s) >= 0x1_0000_0000_0000_0000 * 0x1_0000_0000_0000_0000,
        52 <= k <= 2097,
    ensures
        ({
            let m = fold::total(F64 { bits: fold::NEG_ZERO }, s).mul_spec(
                (F64 { bits: ONE }).div_spec(F64::of_int(s.len() as int)),
            );
            &&& within(m, k)
            &&& 0x20_0000_0000_0000 * abs(s.len() * m.value() - sum(s)) <= (7 * s.len()) * bulk(s)
        }),
{
    lemma_mean_error_over(s, bulk(s), k);
}

/// The error of a mean of values that add up to no more than `b` without their signs.
pub proof fn lemma_mean_error_over(s: Seq<F64>, b: int, k: nat)
    requires
        all_finite(s),
        1 <= s.len() <= MOST,
        bulk(s) <= b,
        4 * b <= pow2(k),
        b >= 0x1_0000_0000_0000_0000 * 0x1_0000_0000_0000_0000,
        52 <= k <= 2097,
    ensures
        ({
            let m = fold::total(F64 { bits: fold::NEG_ZERO }, s).mul_spec(
                (F64 { bits: ONE }).div_spec(F64::of_int(s.len() as int)),
            );
            let gap = abs(s.len() * m.value() - sum(s));
            &&& within(m, k)
            &&& 0x20_0000_0000_0000 * gap <= (11 * s.len()) * b
            &&& s.len() >= 2 ==> 0x20_0000_0000_0000 * gap <= (7 * s.len()) * b
        }),
{
    let n = s.len() as int;
    let total = fold::total(F64 { bits: fold::NEG_ZERO }, s);
    let r = (F64 { bits: ONE }).div_spec(F64::of_int(n));
    let u = pow2(1074) as int;
    lemma_pow2_pos(1074);
    lemma_total_error(F64 { bits: fold::NEG_ZERO }, s, k);
    lemma_reciprocal_error(s.len());
    let t = total.value();
    let v = r.value();
    assert(n * bulk(s) <= n * b) by (nonlinear_arith)
        requires
            bulk(s) <= b,
            n > 0,
    ;
    // The product behind the mean.
    assert(v <= u) by {
        assert(size(r) <= pow2(1074));
    }
    let tv = t * v;
    assert(abs(tv) == abs(t) * v) by (nonlinear_arith)
        requires
            v >= 0,
            tv == t * v,
    ;
    assert(abs(tv) <= pow2(k) * u) by (nonlinear_arith)
        requires
            abs(tv) == abs(t) * v,
            0 <= abs(t) <= 2 * b,
            4 * b <= pow2(k),
            0 <= v <= u,
    ;
    lemma_mul_error(total, r, k);
    let m = total.mul_spec(r).value();
    lemma_mean_steps(n, b, u, t, v, m, sum(s));
}

/// The errors of the steps to a mean, added up: `t` is the sum as computed, `v` the reciprocal
/// of the count, `m` their product, and `exact` the sum as it is.
proof fn lemma_mean_steps(n: int, b: int, u: int, t: int, v: int, m: int, exact: int)
    requires
        1 <= n <= 0x80_0000,
        u > 0,
        v >= 0,
        b >= 0x1_0000_0000_0000_0000 * 0x1_0000_0000_0000_0000,
        abs(t) <= 2 * b,
        0x20_0000_0000_0000 * abs(m * u - t * v) <= abs(t * v) + 0x10_0000_0000_0000 * u,
        0x20_0000_0000_0000 * abs(v * n - u) <= 2 * u,
        0x10_0000_0000_0000 * abs(t - exact) <= n * b,
    ensures
        0x20_0000_0000_0000 * abs(n * m - exact) <= (11 * n) * b,
        n >= 2 ==> 0x20_0000_0000_0000 * abs(n * m - exact) <= (7 * n) * b,
{
    let tv = t * v;
    let nv = v * n;
    let big: int = 0x20_0000_0000_0000;
    // n times the product.
    let e1 = n * (m * u) - n * tv;
    assert(abs(e1) == n * abs(m * u - tv)) by (nonlinear_arith)
        requires
            n > 0,
            e1 == n * (m * u) - n * tv,
    ;
    assert(n * abs(tv) == abs(t) * nv) by (nonlinear_arith)
        requires
            tv == t * v,
            nv == v * n,
            v >= 0,
            n > 0,
    ;
    assert(abs(t) * nv <= (4 * b) * u) by (nonlinear_arith)
        requires
            0 <= abs(t) <= 2 * b,
            0 <= nv <= 2 * u,
    ;
    assert(big * abs(e1) <= (4 * b) * u + (0x10_0000_0000_0000 * n) * u) by (nonlinear_arith)
        requires
            abs(e1) == n * abs(m * u - tv),
            big * abs(m * u - tv) <= abs(tv) + 0x10_0000_0000_0000 * u,
            n * abs(tv) <= (4 * b) * u,
            n > 0,
    {
        let g = abs(m * u - tv);
        assert(n * (big * g) <= n * (abs(tv) + 0x10_0000_0000_0000 * u));
        assert(n * (big * g) == big * (n * g));
        assert(n * (abs(tv) + 0x10_0000_0000_0000 * u) == n * abs(tv) + (0x10_0000_0000_0000 * n)
            * u);
    }
    // The reciprocal.
    let e2 = t * nv - t * u;
    assert(abs(e2) == abs(t) * abs(nv - u)) by (nonlinear_arith)
        requires
            e2 == t * nv - t * u,
    ;
    assert(big * abs(e2) <= (4 * b) * u) by (nonlinear_arith)
        requires
            abs(e2) == abs(t) * abs(nv - u),
            big * abs(nv - u) <= 2 * u,
            0 <= abs(t) <= 2 * b,
            abs(nv - u) >= 0,
            u > 0,
    {
        let g = abs(nv - u);
        assert(big * (abs(t) * g) == abs(t) * (big * g));
        assert(abs(t) * (big * g) <= abs(t) * (2 * u));
        assert(abs(t) * (2 * u) <= (2 * b) * (2 * u));
    }
    assert(n * tv == t * nv) by (nonlinear_arith)
        requires
            tv == t * v,
            nv == v * n,
    ;
    let d = n * m - t;
    assert(d * u == e1 + e2) by (nonlinear_arith)
        requires
            d == n * m - t,
            e1 == n * (m * u) - t * nv,
            e2 == t * nv - t * u,
    ;
    assert(abs(d * u) == abs(d) * u) by (nonlinear_arith)
        requires
            u > 0,
    ;
    assert(big * (abs(d) * u) <= (8 * b + 0x10_0000_0000_0000 * n) * u) by (nonlinear_arith)
        requires
            abs(d) * u <= abs(e1) + abs(e2),
            big * abs(e1) <= (4 * b) * u + (0x10_0000_0000_0000 * n) * u,
            big * abs(e2) <= (4 * b) * u,
            big > 0,
    ;
    assert(big * abs(d) <= 8 * b + 0x10_0000_0000_0000 * n) by (nonlinear_arith)
        requires
            big * (abs(d) * u) <= (8 * b + 0x10_0000_0000_0000 * n) * u,
            u > 0,
    {
        assert((big * abs(d)) * u == big * (abs(d) * u));
    }
    assert(9 * b + 2 * (n * b) <= (11 * n) * b) by (nonlinear_arith)
        requires
            n >= 1,
            b >= 0,
    ;
    if n >= 2 {
        assert(9 * b + 2 * (n * b) <= (7 * n) * b) by (nonlinear_arith)
            requires
                n >= 2,
                b >= 0,
        ;
    }
}

} // verus!
