//! How large the results of operations can get.
//!
//! A bound is a power of two, given by its exponent in units of the smallest subnormal: one is
//! two to the power of 1074 of them, and two to the power of 2097 of them is the largest that a
//! double holds.

use crate::float::accuracy;
use crate::float::fold;
use crate::float::ops;
use crate::float::ops::Width;
use crate::float::round;
use crate::float::F64;
use vstd::arithmetic::div_mod::*;
use vstd::arithmetic::mul::*;
use vstd::arithmetic::power2::*;
use vstd::prelude::*;

verus! {

/// The absolute value of a finite double, in units of the smallest subnormal.
pub open spec fn size(x: F64) -> nat {
    ops::magnitude(Width::Double, x.bits as nat)
}

/// A finite double whose absolute value is at most two to the power of `k` units.
pub open spec fn within(x: F64, k: nat) -> bool {
    x.is_finite_spec() && size(x) <= pow2(k)
}

/// The bits of two to the power of `k` units.
pub open spec fn power_bits(k: nat) -> nat {
    ((k - 51) * 0x10_0000_0000_0000) as nat
}

pub proof fn lemma_power(k: nat)
    requires
        52 <= k <= 2097,
    ensures
        ops::magnitude(Width::Double, power_bits(k)) == pow2(k),
        ops::magnitude_bits(Width::Double, power_bits(k)) == power_bits(k),
        ops::is_finite(Width::Double, power_bits(k)),
{
    let half: int = 0x10_0000_0000_0000;
    lemma2_to64_rest();
    lemma_fundamental_div_mod_converse(power_bits(k) as int, half, k - 51, 0);
    lemma_pow2_adds(52, (k - 52) as nat);
}

pub proof fn lemma_pow2_order(a: nat, b: nat)
    requires
        a <= b,
    ensures
        0 < pow2(a) <= pow2(b),
{
    lemma_pow2_pos(a);
    if a < b {
        lemma_pow2_strictly_increases(a, b);
    }
}

/// A double that is not negative is bounded where its bits are.
pub proof fn lemma_bits_within(x: F64, k: nat)
    requires
        x.bits <= power_bits(k),
        52 <= k <= 2097,
    ensures
        within(x, k),
{
    lemma_power(k);
    if x.bits < power_bits(k) {
        accuracy::lemma_magnitude_grows(Width::Double, x.bits as nat, power_bits(k));
    }
}

pub proof fn lemma_within_more(x: F64, j: nat, k: nat)
    requires
        within(x, j),
        j <= k,
    ensures
        within(x, k),
{
    lemma_pow2_order(j, k);
}

/// What is rounded from no more than a power of two is no more than it.
pub proof fn lemma_rounded_within(negative: bool, n: nat, d: nat, k: nat)
    requires
        d > 0,
        n <= pow2(k) * d,
        52 <= k <= 2097,
    ensures
        within(F64 { bits: ops::rounded(Width::Double, negative, n, d) as u64 }, k),
{
    let f = Width::Double;
    lemma_power(k);
    accuracy::law_rounding_never_passes_a_float(f, n, d, power_bits(k));
    let m = round::round_bits(f.precision(), f.top(), n, d);
    assert(m <= power_bits(k));
    if m < power_bits(k) {
        accuracy::lemma_magnitude_grows(f, m, power_bits(k));
    }
    let r = ops::rounded(f, negative, n, d);
    assert(r <= 0xFFFF_FFFF_FFFF_FFFF);
    assert(ops::magnitude_bits(f, r) == m);
    assert(ops::magnitude(f, r) == ops::magnitude(f, m));
}

pub proof fn lemma_zero_within(x: F64, k: nat)
    requires
        x.bits == 0 || x.bits == fold::NEG_ZERO,
    ensures
        within(x, k),
{
    accuracy::lemma_zero(Width::Double);
    lemma_pow2_pos(k);
    assert(ops::magnitude_bits(Width::Double, x.bits as nat) == 0);
    assert(size(x) == ops::magnitude(Width::Double, 0));
}

pub proof fn lemma_neg_within(x: F64, k: nat)
    requires
        within(x, k),
    ensures
        within(x.neg_spec(), k),
{
    assert(ops::magnitude_bits(Width::Double, x.neg_spec().bits as nat) == ops::magnitude_bits(
        Width::Double,
        x.bits as nat,
    ));
}

pub proof fn lemma_sum_within(x: F64, y: F64, k: nat)
    requires
        within(x, k),
        within(y, k),
        52 <= k < 2097,
    ensures
        within(x.add_spec(y), k + 1),
{
    reveal(F64::add_spec);
    lemma_pow2_unfold(k + 1);
    lemma_mul_basics(pow2(k + 1) as int);
    let s = x.value() + y.value();
    if s == 0 {
        lemma_zero_within(x.add_spec(y), k + 1);
    } else if s < 0 {
        lemma_rounded_within(true, (-s) as nat, 1, k + 1);
    } else {
        lemma_rounded_within(false, s as nat, 1, k + 1);
    }
}

pub proof fn lemma_difference_within(x: F64, y: F64, k: nat)
    requires
        within(x, k),
        within(y, k),
        52 <= k < 2097,
    ensures
        within(x.sub_spec(y), k + 1),
{
    lemma_neg_within(y, k);
    lemma_sum_within(x, y.neg_spec(), k);
}

pub proof fn lemma_product_within(x: F64, y: F64, j: nat, k: nat)
    requires
        within(x, j),
        within(y, k),
        1074 + 52 <= j + k <= 1074 + 2097,
    ensures
        within(x.mul_spec(y), (j + k - 1074) as nat),
{
    reveal(F64::mul_spec);
    let m = (j + k - 1074) as nat;
    lemma_pow2_adds(j, k);
    lemma_pow2_adds(m, 1074);
    lemma_pow2_pos(1074);
    let a = size(x);
    let b = size(y);
    assert(a * b <= pow2(j) * pow2(k)) by (nonlinear_arith)
        requires
            0 <= a <= pow2(j),
            0 <= b <= pow2(k),
    ;
    lemma_rounded_within(x.is_negative_spec() != y.is_negative_spec(), a * b, pow2(1074), m);
}

/// A quotient by what is at least two to the power of `k` units.
pub proof fn lemma_quotient_within(x: F64, y: F64, j: nat, k: nat)
    requires
        within(x, j),
        y.is_finite_spec(),
        pow2(k) <= size(y),
        k + 52 <= j + 1074 <= k + 2097,
    ensures
        within(x.div_spec(y), (j + 1074 - k) as nat),
{
    reveal(F64::div_spec);
    let m = (j + 1074 - k) as nat;
    lemma_pow2_adds(j, 1074);
    lemma_pow2_adds(m, k);
    lemma_pow2_pos(1074);
    lemma_pow2_pos(k);
    lemma_pow2_pos(m);
    let a = size(x);
    let b = size(y);
    assert(a * pow2(1074) <= pow2(m) * b) by (nonlinear_arith)
        requires
            0 <= a <= pow2(j),
            pow2(k) <= b,
            pow2(j) * pow2(1074) == pow2(m) * pow2(k),
            pow2(m) > 0,
            pow2(1074) > 0,
    {
        assert(a * pow2(1074) <= pow2(j) * pow2(1074));
        assert(pow2(m) * pow2(k) <= pow2(m) * b);
    }
    accuracy::lemma_zero(Width::Double);
    assert(!ops::is_zero(Width::Double, y.bits as nat)) by {
        if ops::is_zero(Width::Double, y.bits as nat) {
            assert(size(y) == ops::magnitude(Width::Double, 0));
        }
    }
    lemma_rounded_within(x.is_negative_spec() != y.is_negative_spec(), a * pow2(1074), b, m);
}

pub proof fn lemma_integer_within(i: int, k: nat)
    requires
        -pow2(k) <= i <= pow2(k),
        k + 1074 <= 2097,
    ensures
        within(F64::of_int(i), k + 1074),
{
    reveal(F64::of_int);
    lemma_pow2_adds(k, 1074);
    lemma_pow2_pos(1074);
    let u = pow2(1074) as int;
    let a: int = if i < 0 { -i } else { i };
    assert(a * u <= pow2(k) * u && a * u >= 0) by (nonlinear_arith)
        requires
            0 <= a <= pow2(k),
            u > 0,
    ;
    lemma_mul_basics(pow2(k + 1074) as int);
    lemma_rounded_within(i < 0, (a * u) as nat, 1, k + 1074);
}

/// A sum of at most a few hundred terms.
pub proof fn lemma_total_within(start: F64, s: Seq<F64>, k: nat)
    requires
        start.bits == 0 || start.bits == fold::NEG_ZERO,
        forall|i: int| 0 <= i < s.len() ==> within(#[trigger] s[i], k),
        52 <= k,
        k + s.len() <= 2097,
    ensures
        within(fold::total(start, s), k + s.len()),
    decreases s.len(),
{
    if s.len() == 0 {
        lemma_zero_within(start, k);
    } else {
        let fewer = s.drop_last();
        assert forall|i: int| 0 <= i < fewer.len() implies within(#[trigger] fewer[i], k) by {
            assert(fewer[i] == s[i]);
        }
        lemma_total_within(start, fewer, k);
        assert(within(s[s.len() - 1], k));
        lemma_within_more(s.last(), k, k + fewer.len());
        lemma_sum_within(fold::total(start, fewer), s.last(), k + fewer.len());
    }
}

/// What is rounded from no less than a power of two is no less than it, and the other way
/// round.
proof fn lemma_rounded_between(negative: bool, n: nat, d: nat, j: nat, k: nat)
    requires
        d > 0,
        pow2(j) * d <= n <= pow2(k) * d,
        52 <= j <= k <= 2097,
    ensures
        ({
            let r = F64 { bits: ops::rounded(Width::Double, negative, n, d) as u64 };
            &&& within(r, k)
            &&& pow2(j) <= size(r)
            &&& r.is_negative_spec() == negative
        }),
{
    let f = Width::Double;
    lemma_power(j);
    lemma_rounded_within(negative, n, d, k);
    accuracy::law_rounding_never_passes_a_float(f, n, d, power_bits(j));
    lemma_power(k);
    accuracy::law_rounding_never_passes_a_float(f, n, d, power_bits(k));
    let m = round::round_bits(f.precision(), f.top(), n, d);
    assert(power_bits(j) <= m <= power_bits(k));
    if power_bits(j) < m {
        accuracy::lemma_magnitude_grows(f, power_bits(j), m);
    }
    let r = ops::rounded(f, negative, n, d);
    assert(r <= 0xFFFF_FFFF_FFFF_FFFF);
    assert(ops::magnitude_bits(f, r) == m);
    assert(ops::magnitude(f, r) == ops::magnitude(f, m));
}

/// A quotient that lies between two powers of two.
pub proof fn lemma_quotient_between(x: F64, y: F64, j: nat, k: nat)
    requires
        x.is_finite_spec(),
        y.is_finite_spec(),
        size(y) > 0,
        pow2(j) * size(y) <= size(x) * pow2(1074) <= pow2(k) * size(y),
        52 <= j <= k <= 2097,
    ensures
        within(x.div_spec(y), k),
        pow2(j) <= size(x.div_spec(y)),
        x.div_spec(y).is_negative_spec() == (x.is_negative_spec() != y.is_negative_spec()),
{
    reveal(F64::div_spec);
    accuracy::lemma_zero(Width::Double);
    assert(!ops::is_zero(Width::Double, y.bits as nat)) by {
        if ops::is_zero(Width::Double, y.bits as nat) {
            assert(size(y) == ops::magnitude(Width::Double, 0));
        }
    }
    lemma_rounded_between(
        x.is_negative_spec() != y.is_negative_spec(),
        size(x) * pow2(1074),
        size(y),
        j,
        k,
    );
}

/// An integer other than zero is at least one.
pub proof fn lemma_integer_between(i: int, k: nat)
    requires
        i != 0,
        -pow2(k) <= i <= pow2(k),
        k + 1074 <= 2097,
    ensures
        within(F64::of_int(i), k + 1074),
        pow2(1074) <= size(F64::of_int(i)),
        F64::of_int(i).is_negative_spec() == (i < 0),
{
    reveal(F64::of_int);
    lemma_pow2_adds(k, 1074);
    lemma_pow2_pos(1074);
    let u = pow2(1074) as int;
    let a: int = if i < 0 { -i } else { i };
    assert(u <= a * u <= pow2(k) * u) by (nonlinear_arith)
        requires
            1 <= a <= pow2(k),
            u > 0,
    ;
    lemma_mul_basics(pow2(k + 1074) as int);
    lemma_mul_basics(u);
    lemma_rounded_between(i < 0, (a * u) as nat, 1, 1074, k + 1074);
}

/// A greater integer is no lesser double.
pub proof fn lemma_integers_keep_order(i: int, j: int, k: nat)
    requires
        i <= j,
        -pow2(k) <= i,
        j <= pow2(k),
        k + 1074 <= 2097,
    ensures
        F64::of_int(i).value() <= F64::of_int(j).value(),
{
    let f = Width::Double;
    let u = pow2(1074) as int;
    lemma_pow2_pos(1074);
    accuracy::law_small_integers_are_exact(0);
    assert(0 * u == 0);
    if i != 0 {
        lemma_integer_between(i, k);
    }
    if j != 0 {
        lemma_integer_between(j, k);
    }
    reveal(F64::of_int);
    if 0 < i {
        assert(i * u <= j * u && 0 <= i * u) by (nonlinear_arith)
            requires
                0 < i <= j,
                u > 0,
        ;
        lemma_rounding_order((i * u) as nat, (j * u) as nat);
    } else if j < 0 {
        assert((-j) * u <= (-i) * u && 0 <= (-j) * u) by (nonlinear_arith)
            requires
                i <= j < 0,
                u > 0,
        ;
        lemma_rounding_order(((-j) * u) as nat, ((-i) * u) as nat);
    }
}

proof fn lemma_rounding_order(m: nat, n: nat)
    requires
        m <= n,
        round::round_bits(53, Width::Double.top(), n, 1) < Width::Double.top(),
    ensures
        ops::magnitude(Width::Double, round::round_bits(53, Width::Double.top(), m, 1))
            <= ops::magnitude(Width::Double, round::round_bits(53, Width::Double.top(), n, 1)),
{
    let f = Width::Double;
    accuracy::law_rounding_is_monotone(53, f.top(), m, n, 1);
    let a = round::round_bits(53, f.top(), m, 1);
    let b = round::round_bits(53, f.top(), n, 1);
    if a < b {
        accuracy::lemma_magnitude_grows(f, a, b);
    }
}

/// Zero over anything but zero.
pub proof fn lemma_zero_over(x: F64, y: F64)
    requires
        x.is_finite_spec(),
        size(x) == 0,
        y.is_finite_spec(),
        size(y) > 0,
    ensures
        x.div_spec(y).is_finite_spec(),
        x.div_spec(y).value() == 0,
{
    reveal(F64::div_spec);
    let f = Width::Double;
    accuracy::lemma_zero(f);
    assert(!ops::is_zero(f, y.bits as nat)) by {
        if ops::is_zero(f, y.bits as nat) {
            assert(size(y) == ops::magnitude(f, 0));
        }
    }
    let n = size(x) * pow2(1074);
    assert(n == 0) by (nonlinear_arith)
        requires
            n == size(x) * pow2(1074),
            size(x) == 0,
    ;
    lemma_mul_basics(size(y) as int);
    accuracy::law_rounding_never_passes_a_float(f, n, size(y), 0);
    let r = ops::rounded(f, x.is_negative_spec() != y.is_negative_spec(), n, size(y));
    assert(ops::magnitude_bits(f, r) == 0);
    assert(ops::magnitude(f, r) == ops::magnitude(f, 0));
}

} // verus!
