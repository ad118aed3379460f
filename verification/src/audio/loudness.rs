//! What the meter promises of a block, in numbers.
//!
//! The level of a block is computed in floats. Here it is held against the exact mean square of
//! the samples, the bar against where it was and the level it moves to, and the peak and the
//! clip latch against the samples themselves.

use crate::audio::meters;
use crate::audio::meters::{
    block_rms, channel_of, dbfs, energy, fraction_of, law_peak_bounds_every_sample, lemma_peak_is_a_magnitude,
    level_after, peak_of, smoothed, Ballistics, Level, FLOOR_DBFS, RANGE_DB, TWENTY, UNITY,
};
use crate::float::accuracy;
use crate::float::bounds;
use crate::float::error;
use crate::float::error::{abs, all_finite, bulk, sum, MOST};
use crate::float::fold;
use crate::float::ops;
use crate::float::ops::Width;
use crate::float::single;
use crate::float::{F32, F64};
use vstd::arithmetic::div_mod::*;
use vstd::arithmetic::mul::*;
use vstd::arithmetic::power2::*;
use vstd::prelude::*;

verus! {

/// The exact sum of the squares of some samples, in units of the square of the smallest single.
pub open spec fn power(c: Seq<F32>) -> int
    decreases c.len(),
{
    if c.len() == 0 {
        0
    } else {
        power(c.drop_last()) + c.last().value() * c.last().value()
    }
}

/// Samples that are numbers.
pub open spec fn all_numbers(c: Seq<F32>) -> bool {
    forall|i: int| 0 <= i < c.len() ==> (#[trigger] c[i]).is_finite_spec()
}

/// Samples whose mean square is a single: it is no more than two to the power of a hundred and
/// twenty-seven.
pub open spec fn in_range(c: Seq<F32>) -> bool {
    &&& 1 <= c.len() <= MOST
    &&& all_numbers(c)
    &&& power(c) <= c.len() * pow2(425)
}

/// Whether a level is the root mean square of some samples: its square times their number is the
/// sum of their squares, to within one part in two to the power of twenty-one, and to within one
/// smallest single for each sample.
pub open spec fn is_root_mean_square(level: F32, c: Seq<F32>) -> bool {
    &&& level.is_finite_spec()
    &&& level.value() >= 0
    &&& 0x20_0000 * abs(c.len() * (level.value() * level.value()) - power(c)) <= power(c) + 0x20_0000
        * (c.len() * pow2(149))
}

/// The squares that the energy is the sum of.
spec fn squares(c: Seq<F32>) -> Seq<F64> {
    Seq::new(c.len(), |i: int| c[i].to_f64_spec().mul_spec(c[i].to_f64_spec()))
}

proof fn lemma_energy(c: Seq<F32>)
    ensures
        energy(c) == fold::total(F64 { bits: 0 }, squares(c)),
    decreases c.len(),
{
    if c.len() > 0 {
        lemma_energy(c.drop_last());
        assert(squares(c).drop_last() =~= squares(c.drop_last()));
    }
}

proof fn lemma_power(c: Seq<F32>)
    ensures
        power(c) >= 0,
    decreases c.len(),
{
    if c.len() > 0 {
        lemma_power(c.drop_last());
        let v = c.last().value();
        assert(v * v >= 0) by (nonlinear_arith);
    }
}

/// One square: `s` is the sample, `t` the same in units of the smallest double, `w` that as a
/// double, and `p` its square as computed.
proof fn lemma_square_steps(t: int, w: int, p: int, u: int)
    requires
        u > 0,
        t == 0 || t * t >= 0x1_0000_0000_0000_0000 * u,
        0x10_0000_0000_0000 * abs(w - t) <= abs(t),
        0x20_0000_0000_0000 * abs(p * u - w * w) <= abs(w * w) + 0x10_0000_0000_0000 * u,
    ensures
        0x4_0000_0000_0000 * abs(p * u - t * t) <= t * t,
{
    if t == 0 {
        assert(w == 0);
        assert(w * w == 0) by (nonlinear_arith)
            requires
                w == 0,
        ;
        assert(p == 0) by (nonlinear_arith)
            requires
                0x20_0000_0000_0000 * abs(p * u) <= 0x10_0000_0000_0000 * u,
                u > 0,
        ;
        assert(p * u == 0) by (nonlinear_arith)
            requires
                p == 0,
        ;
        assert(t * t == 0) by (nonlinear_arith)
            requires
                t == 0,
        ;
    } else {
        let d = w - t;
        let q = t * t;
        assert(w * w == q + 2 * (t * d) + d * d) by (nonlinear_arith)
            requires
                d == w - t,
                q == t * t,
        ;
        assert(0x10_0000_0000_0000 * abs(t * d) <= q) by (nonlinear_arith)
            requires
                0x10_0000_0000_0000 * abs(d) <= abs(t),
                q == t * t,
        {
            assert(abs(t * d) == abs(t) * abs(d));
            assert(abs(t) * (0x10_0000_0000_0000 * abs(d)) <= abs(t) * abs(t));
            assert(abs(t) * abs(t) == t * t);
        }
        assert(0x10_0000_0000_0000 * (d * d) <= q && d * d >= 0) by (nonlinear_arith)
            requires
                0x10_0000_0000_0000 * abs(d) <= abs(t),
                q == t * t,
        {
            assert(d * d == abs(d) * abs(d));
            assert(abs(d) * (0x10_0000_0000_0000 * abs(d)) <= abs(d) * abs(t));
            assert(abs(d) * abs(t) <= abs(t) * abs(t));
            assert(abs(t) * abs(t) == t * t);
        }
    }
}

/// One square of a sample, as computed.
proof fn lemma_square(x: F32)
    requires
        x.is_finite_spec(),
    ensures
        ({
            let p = x.to_f64_spec().mul_spec(x.to_f64_spec());
            let s = x.value() * x.value();
            let z = pow2(925) * pow2(925);
            &&& p.is_finite_spec()
            &&& p.value() >= 0
            &&& 0x4_0000_0000_0000 * abs(p.value() * pow2(1074) - s * z) <= s * z
            &&& p.value() <= pow2(1332)
        }),
{
    let w = x.to_f64_spec();
    let p = w.mul_spec(w);
    let t = x.value() * pow2(925);
    let u = pow2(1074) as int;
    single::lemma_widened(x);
    single::lemma_units();
    bounds::lemma_product_within(w, w, 1203, 1203);
    error::lemma_finite_product(w, w);
    let s = x.value() * x.value();
    let z = pow2(925) * pow2(925);
    assert(t * t == s * z) by (nonlinear_arith)
        requires
            t == x.value() * pow2(925),
            s == x.value() * x.value(),
            z == pow2(925) * pow2(925),
    ;
    if x.value() == 0 {
        assert(t == 0) by (nonlinear_arith)
            requires
                t == x.value() * pow2(925),
                x.value() == 0,
        ;
    } else {
        lemma2_to64();
        lemma_pow2_adds(64, 1074);
        lemma_pow2_adds(925, 925);
        bounds::lemma_pow2_order(1138, 1850);
        assert(s >= 1) by (nonlinear_arith)
            requires
                s == x.value() * x.value(),
                x.value() != 0,
        ;
        assert(s * z >= z) by (nonlinear_arith)
            requires
                s >= 1,
                z >= 0,
        ;
    }
    lemma_square_steps(t, w.value(), p.value(), u);
    assert(abs(p.value()) == bounds::size(p));
}

/// What the squares add up to, as computed one by one.
proof fn lemma_squares(c: Seq<F32>)
    requires
        all_numbers(c),
        c.len() <= MOST,
    ensures
        all_finite(squares(c)),
        bulk(squares(c)) == sum(squares(c)),
        0 <= sum(squares(c)) <= c.len() * pow2(1332),
        0x4_0000_0000_0000 * abs(
            sum(squares(c)) * pow2(1074) - power(c) * (pow2(925) * pow2(925)),
        ) <= power(c) * (pow2(925) * pow2(925)),
    decreases c.len(),
{
    let sq = squares(c);
    let z = pow2(925) * pow2(925);
    let u = pow2(1074) as int;
    if c.len() == 0 {
        lemma_mul_basics(u);
        lemma_mul_basics(z as int);
        lemma_mul_basics(pow2(1332) as int);
    } else {
        let fewer = c.drop_last();
        let x = c.last();
        assert forall|i: int| 0 <= i < fewer.len() implies (
        #[trigger] fewer[i]).is_finite_spec() by {
            assert(fewer[i] == c[i]);
        }
        assert(c[c.len() - 1].is_finite_spec());
        lemma_squares(fewer);
        lemma_square(x);
        assert(sq.drop_last() =~= squares(fewer));
        let p = sq.last().value();
        let s = x.value() * x.value();
        let a = sum(squares(fewer));
        let b = power(fewer);
        assert((a + p) * u == a * u + p * u) by (nonlinear_arith);
        assert((b + s) * z == b * z + s * z) by (nonlinear_arith);
        let n = c.len() as int;
        let m = pow2(1332) as int;
        assert((n - 1) * m + m == n * m) by (nonlinear_arith);
        assert forall|i: int| 0 <= i < sq.len() implies (#[trigger] sq[i]).is_finite_spec() by {
            if i < fewer.len() {
                assert(sq[i] == squares(fewer)[i]);
            }
        }
    }
}

/// The steps from the squares to their mean: `a` is their exact sum, `b` the sum as it stands in
/// doubles, `e` as it was computed, `q` the mean, `n` their number and `u` one.
proof fn lemma_mean_square_steps(n: int, a: int, b: int, e: int, q: int, u: int)
    requires
        1 <= n <= 0x80_0000,
        u > 0,
        a == 0 || a >= 0x1_0000_0000_0000_0000 * (0x1_0000_0000_0000_0000 * u),
        b >= 0,
        e >= 0,
        q >= 0,
        0x4_0000_0000_0000 * abs(b * u - a) <= a,
        0x10_0000_0000_0000 * abs(e - b) <= n * b,
        0x20_0000_0000_0000 * abs(q * n - e) <= e + 0x10_0000_0000_0000 * n,
    ensures
        0x400_0000 * abs((q * n) * u - a) <= a,
{
    assert(n * b <= 0x80_0000 * b) by (nonlinear_arith)
        requires
            n <= 0x80_0000,
            b >= 0,
    ;
    let bu = b * u;
    let eu = e * u;
    let qu = (q * n) * u;
    let nu = n * u;
    assert(0x2000_0000 * abs(eu - bu) <= bu) by (nonlinear_arith)
        requires
            0x10_0000_0000_0000 * abs(e - b) <= 0x80_0000 * b,
            u > 0,
            eu == e * u,
            bu == b * u,
    {
        assert(eu - bu == (e - b) * u);
        assert(abs((e - b) * u) == abs(e - b) * u);
        assert(0x2000_0000 * abs(e - b) <= b);
        assert((0x2000_0000 * abs(e - b)) * u <= b * u);
    }
    assert(0x20_0000_0000_0000 * abs(qu - eu) <= eu + 0x10_0000_0000_0000 * nu)
        by (nonlinear_arith)
        requires
            0x20_0000_0000_0000 * abs(q * n - e) <= e + 0x10_0000_0000_0000 * n,
            u > 0,
            qu == (q * n) * u,
            eu == e * u,
            nu == n * u,
    {
        assert(qu - eu == (q * n - e) * u);
        assert(abs((q * n - e) * u) == abs(q * n - e) * u);
        assert((0x20_0000_0000_0000 * abs(q * n - e)) * u <= (e + 0x10_0000_0000_0000 * n) * u);
    }
    assert(nu <= 0x80_0000 * u) by (nonlinear_arith)
        requires
            n <= 0x80_0000,
            u > 0,
            nu == n * u,
    ;
    if a == 0 {
        assert(bu == 0 && eu == 0);
        assert(e == 0) by (nonlinear_arith)
            requires
                eu == 0,
                eu == e * u,
                u > 0,
        ;
        assert(q == 0) by (nonlinear_arith)
            requires
                0x20_0000_0000_0000 * abs(q * n) <= 0x10_0000_0000_0000 * n,
                n >= 1,
                q >= 0,
        ;
        assert(q * n == 0 && qu == 0) by (nonlinear_arith)
            requires
                q == 0,
                qu == (q * n) * u,
        ;
    }
}

/// The mean of the squares, as computed.
proof fn lemma_mean_square(c: Seq<F32>)
    requires
        1 <= c.len() <= MOST,
        all_numbers(c),
    ensures
        ({
            let q = energy(c).div_spec(F64::of_int(c.len() as int));
            &&& q.is_finite_spec()
            &&& q.value() >= 0
            &&& 0x400_0000 * abs(
                (q.value() * c.len()) * pow2(1074) - power(c) * (pow2(925) * pow2(925)),
            ) <= power(c) * (pow2(925) * pow2(925))
        }),
{
    let sq = squares(c);
    let e = energy(c);
    let n = c.len() as int;
    let u = pow2(1074) as int;
    let z = pow2(925) * pow2(925);
    single::lemma_units();
    lemma_power(c);
    lemma_energy(c);
    lemma_squares(c);
    lemma2_to64();
    lemma_pow2_adds(24, 1332);
    lemma_pow2_pos(1332);
    let b = sum(sq);
    assert(2 * b <= pow2(1356)) by (nonlinear_arith)
        requires
            b <= n * pow2(1332),
            n <= 0x80_0000,
            pow2(1356) == 0x100_0000 * pow2(1332),
            pow2(1332) > 0,
    ;
    error::lemma_total_error(F64 { bits: 0 }, sq, 1356);
    let ev = e.value();
    assert(n * b <= 0x80_0000 * b) by (nonlinear_arith)
        requires
            n <= 0x80_0000,
            b >= 0,
    ;
    assert(ev >= 0);
    let d = F64::of_int(n);
    accuracy::law_small_integers_are_exact(n);
    let nu = n * u;
    assert(nu >= u) by (nonlinear_arith)
        requires
            n >= 1,
            u > 0,
            nu == n * u,
    ;
    assert(abs(ev) * pow2(1074) <= pow2(1356) * abs(nu)) by (nonlinear_arith)
        requires
            0 <= abs(ev) <= pow2(1356),
            abs(nu) >= u,
            u == pow2(1074),
            u > 0,
    ;
    error::lemma_div_error(e, d, 1356);
    let q = e.div_spec(d).value();
    // Without the factor.
    assert(q * nu - ev * u == (q * n - ev) * u) by (nonlinear_arith)
        requires
            nu == n * u,
    ;
    assert(abs((q * n - ev) * u) == abs(q * n - ev) * u) by (nonlinear_arith)
        requires
            u > 0,
    ;
    assert(0x20_0000_0000_0000 * abs(q * n - ev) <= ev + 0x10_0000_0000_0000 * n)
        by (nonlinear_arith)
        requires
            0x20_0000_0000_0000 * (abs(q * n - ev) * u) <= ev * u + 0x10_0000_0000_0000 * (n * u),
            u > 0,
    {
        assert((0x20_0000_0000_0000 * abs(q * n - ev)) * u <= (ev + 0x10_0000_0000_0000 * n) * u);
    }
    let a = power(c) * z;
    if power(c) == 0 {
        assert(a == 0) by (nonlinear_arith)
            requires
                power(c) == 0,
                a == power(c) * z,
        ;
    } else {
        lemma_pow2_adds(925, 925);
        lemma_pow2_adds(64, 1074);
        lemma_pow2_adds(64, 1138);
        bounds::lemma_pow2_order(1202, 1850);
        assert(a >= z) by (nonlinear_arith)
            requires
                power(c) >= 1,
                a == power(c) * z,
                z >= 0,
        ;
    }
    lemma_mean_square_steps(n, a, b, ev, q, u);
}

/// The steps from the mean to its root, all times the number of samples `n`: `a` is the sum of
/// the squares, `f` the mean as a single, `r` the root, `v` and `u` one in either format, and `z`
/// what they differ by.
proof fn lemma_root_steps(n: int, a: int, q: int, f: int, r: int, v: int, u: int, z: int)
    requires
        n >= 1,
        v > 0,
        z > 0,
        u == z * v,
        a >= 0,
        q >= 0,
        f >= 0,
        r >= 0,
        0x400_0000 * abs((q * n) * u - a * (z * z)) <= a * (z * z),
        0x100_0000 * abs(f * u - q * v) <= q * v + 0x80_0000 * u,
        0x40_0000 * abs(r * r - f * v) <= r * r,
    ensures
        0x20_0000 * abs(n * (r * r) - a) <= a + 0x20_0000 * (n * v),
{
    // The mean, without the factors.
    let g = (q * n) * v;
    let az = a * z;
    assert((q * n) * u - a * (z * z) == (g - az) * z) by (nonlinear_arith)
        requires
            u == z * v,
            g == (q * n) * v,
            az == a * z,
    ;
    assert(abs((g - az) * z) == abs(g - az) * z) by (nonlinear_arith)
        requires
            z > 0,
    ;
    assert(a * (z * z) == az * z) by (nonlinear_arith)
        requires
            az == a * z,
    ;
    assert(0x400_0000 * abs(g - az) <= az) by (nonlinear_arith)
        requires
            0x400_0000 * (abs(g - az) * z) <= az * z,
            z > 0,
    ;
    // The single.
    let fv = n * (f * v);
    let nv = n * v;
    assert(n * (f * u) == fv * z) by (nonlinear_arith)
        requires
            u == z * v,
            fv == n * (f * v),
    ;
    assert(n * (q * v) == g) by (nonlinear_arith)
        requires
            g == (q * n) * v,
    ;
    assert(n * u == nv * z) by (nonlinear_arith)
        requires
            u == z * v,
            nv == n * v,
    ;
    assert(0x100_0000 * abs(fv * z - g) <= g + 0x80_0000 * (nv * z)) by (nonlinear_arith)
        requires
            0x100_0000 * abs(f * u - q * v) <= q * v + 0x80_0000 * u,
            n * (f * u) == fv * z,
            n * (q * v) == g,
            n * u == nv * z,
            n >= 1,
    {
        let e = f * u - q * v;
        assert(n * e == fv * z - g);
        assert(abs(n * e) == n * abs(e));
        assert(n * (0x100_0000 * abs(e)) <= n * (q * v + 0x80_0000 * u));
    }
    // Against the exact sum, without the factor.
    assert(fv * z - az == (fv - a) * z) by (nonlinear_arith)
        requires
            az == a * z,
    ;
    assert(abs((fv - a) * z) == abs(fv - a) * z) by (nonlinear_arith)
        requires
            z > 0,
    ;
    let x = abs(fv - a) * z;
    let y = nv * z;
    assert(0x80_0000 * x <= az + 0x40_0000 * y) by {
        // Half a part from the single, an eighth from the mean.
        assert(x <= abs(fv * z - g) + abs(g - az));
        assert(g <= az + abs(g - az));
        assert(y >= 0) by (nonlinear_arith)
            requires
                y == nv * z,
                nv == n * v,
                n >= 1,
                v > 0,
                z > 0,
        ;
    }
    assert(0x80_0000 * abs(fv - a) <= a + 0x40_0000 * nv) by (nonlinear_arith)
        requires
            0x80_0000 * (abs(fv - a) * z) <= a * z + 0x40_0000 * (nv * z),
            z > 0,
    {
        assert((0x80_0000 * abs(fv - a)) * z <= (a + 0x40_0000 * nv) * z);
    }
    // The root.
    let rr = n * (r * r);
    assert(0x40_0000 * abs(rr - fv) <= rr) by (nonlinear_arith)
        requires
            0x40_0000 * abs(r * r - f * v) <= r * r,
            rr == n * (r * r),
            fv == n * (f * v),
            n >= 1,
    {
        let e = r * r - f * v;
        assert(n * e == rr - fv);
        assert(abs(n * e) == n * abs(e));
        assert(n * (0x40_0000 * abs(e)) <= n * (r * r));
    }
    assert(nv >= 1) by (nonlinear_arith)
        requires
            nv == n * v,
            n >= 1,
            v > 0,
    ;
}

/// The level of a block is the root of the mean square of its samples.
///
/// Blocks of more than eight million samples, and samples whose mean square no single can hold,
/// are left out.
pub proof fn law_the_level_is_the_root_mean_square(c: Seq<F32>)
    requires
        in_range(c),
    ensures
        is_root_mean_square(block_rms(c), c),
{
    let n = c.len() as int;
    let q = energy(c).div_spec(F64::of_int(n));
    let u = pow2(1074) as int;
    let v = pow2(149) as int;
    let z = pow2(925) as int;
    let a = power(c);
    single::lemma_units();
    lemma_power(c);
    lemma_mean_square(c);
    accuracy::lemma_zero(Width::Double);
    assert((F64 { bits: 0 }).value() == 0);
    accuracy::lemma_finite_order(Width::Double, 0, q.bits as nat);
    let held = q.max_spec(F64 { bits: 0 });
    assert(held == q);
    // The mean is a single.
    let qv = q.value();
    let zz = z * z;
    let az = a * zz;
    assert(az >= 0) by (nonlinear_arith)
        requires
            a >= 0,
            az == a * zz,
            zz == z * z,
            z > 0,
    ;
    assert((qv * n) * u <= 2 * az);
    lemma_pow2_adds(425, 925);
    lemma_pow2_adds(1350, 925);
    lemma_pow2_adds(253, 1074);
    lemma2_to64();
    let limit = 0xFF_FFFF * pow2(253);
    // Sharper: the mean is within a small part of the exact one.
    assert(0x400_0000 * ((qv * n) * u) <= 0x400_0001 * az);
    assert(qv * v <= limit * u) by {
        let p = pow2(425) as int;
        assert(az <= n * (p * zz)) by (nonlinear_arith)
            requires
                a <= n * p,
                az == a * zz,
                zz >= 0,
                zz == z * z,
        ;
        assert(0x400_0000 * (qv * u) <= 0x400_0001 * (p * zz)) by (nonlinear_arith)
            requires
                0x400_0000 * ((qv * n) * u) <= 0x400_0001 * az,
                az <= n * (p * zz),
                n >= 1,
        {
            assert((qv * n) * u == n * (qv * u));
            assert(n * (0x400_0000 * (qv * u)) <= n * (0x400_0001 * (p * zz)));
        }
        // In the units of the single.
        assert(0x400_0000 * (qv * v) <= 0x400_0001 * (p * z)) by (nonlinear_arith)
            requires
                0x400_0000 * (qv * u) <= 0x400_0001 * (p * zz),
                u == z * v,
                zz == z * z,
                z > 0,
        {
            assert((0x400_0000 * (qv * v)) * z <= (0x400_0001 * (p * z)) * z);
        }
        assert(p * z == pow2(1350));
        lemma_pow2_adds(23, 1327);
        assert(pow2(253) * u == pow2(1327));
        assert(limit * u == 0xFF_FFFF * pow2(1327)) by (nonlinear_arith)
            requires
                limit == 0xFF_FFFF * pow2(253),
                pow2(253) * u == pow2(1327),
        ;
        lemma_pow2_pos(1327);
    }
    single::lemma_narrowed(q);
    let f = q.to_f32_spec();
    single::lemma_root(f);
    let r = f.sqrt_spec();
    assert(block_rms(c) == r);
    lemma_root_steps(n, a, qv, f.value(), r.value(), v, u, z);
}

/// A block whose samples all have the same magnitude has that magnitude for its level: their
/// squares are equal to within one part in two to the power of twenty-one, and to within one
/// smallest single.
pub proof fn law_a_steady_block_has_its_own_level(c: Seq<F32>, m: int)
    requires
        in_range(c),
        forall|i: int| 0 <= i < c.len() ==> abs((#[trigger] c[i]).value()) == m,
    ensures
        ({
            let level = block_rms(c).value();
            0x20_0000 * (abs(level - m) * (level + m)) <= m * m + 0x20_0000 * pow2(149)
        }),
{
    law_the_level_is_the_root_mean_square(c);
    lemma_steady_power(c, m);
    let n = c.len() as int;
    let l = block_rms(c).value();
    let v = pow2(149) as int;
    let mm = m * m;
    let ll = l * l;
    assert(abs(c[0].value()) == m);
    assert(0x20_0000 * abs(ll - mm) <= mm + 0x20_0000 * v) by (nonlinear_arith)
        requires
            0x20_0000 * abs(n * ll - n * mm) <= n * mm + 0x20_0000 * (n * v),
            n >= 1,
    {
        let e = ll - mm;
        assert(n * ll - n * mm == n * e);
        assert(abs(n * e) == n * abs(e));
        assert(n * (0x20_0000 * abs(e)) <= n * (mm + 0x20_0000 * v));
    }
    assert(abs(ll - mm) == abs(l - m) * (l + m)) by (nonlinear_arith)
        requires
            ll == l * l,
            mm == m * m,
            l >= 0,
            m >= 0,
    {
        assert(ll - mm == (l - m) * (l + m));
        assert(abs((l - m) * (l + m)) == abs(l - m) * abs(l + m));
    }
}

proof fn lemma_steady_power(c: Seq<F32>, m: int)
    requires
        forall|i: int| 0 <= i < c.len() ==> abs((#[trigger] c[i]).value()) == m,
    ensures
        power(c) == c.len() * (m * m),
    decreases c.len(),
{
    let mm = m * m;
    if c.len() == 0 {
        lemma_mul_basics(mm);
    } else {
        let fewer = c.drop_last();
        assert forall|i: int| 0 <= i < fewer.len() implies abs((#[trigger] fewer[i]).value())
            == m by {
            assert(fewer[i] == c[i]);
        }
        lemma_steady_power(fewer, m);
        assert(abs(c[c.len() - 1].value()) == m);
        let x = c.last().value();
        let n = c.len() as int;
        assert(x * x == m * m) by (nonlinear_arith)
            requires
                abs(x) == m,
        ;
        assert((n - 1) * mm + mm == n * mm) by (nonlinear_arith);
    }
}

/// The steps of the bar: `p` is where it was, `l` the level, `a` the part of the way that it
/// moves, `d` the way, `g` the move and `t` where it comes to, `v` being one.
proof fn lemma_bar_steps(p: int, l: int, a: int, d: int, g: int, t: int, v: int)
    requires
        v > 0,
        p >= 0,
        l >= 0,
        0 <= a <= v,
        0x100_0000 * abs(d - (l - p)) <= abs(l - p),
        0x100_0000 * abs(g * v - a * d) <= abs(a * d) + 0x80_0000 * v,
        0x100_0000 * abs(t - (p + g)) <= abs(p + g),
    ensures
        0x20_0000 * abs(t * v - (p * v + a * (l - p))) <= (p + l) * v + 0x20_0000 * v,
        p * v + a * (l - p) >= 0,
{
    let w = l - p;
    let e = d - w;
    let m = (p + l) * v;
    assert(a * d == a * w + a * e) by (nonlinear_arith)
        requires
            e == d - w,
    ;
    assert(abs(a * w) <= m) by (nonlinear_arith)
        requires
            0 <= a <= v,
            abs(w) <= p + l,
            m == (p + l) * v,
    {
        assert(abs(a * w) == a * abs(w));
    }
    assert(0x100_0000 * abs(a * e) <= m) by (nonlinear_arith)
        requires
            0 <= a <= v,
            0x100_0000 * abs(e) <= p + l,
            m == (p + l) * v,
    {
        assert(abs(a * e) == a * abs(e));
        assert(a * (0x100_0000 * abs(e)) <= v * (p + l));
    }
    let pg = (p + g) * v;
    assert(pg == p * v + g * v) by (nonlinear_arith)
        requires
            pg == (p + g) * v,
    ;
    assert(0x100_0000 * abs(t * v - pg) <= abs(pg)) by (nonlinear_arith)
        requires
            0x100_0000 * abs(t - (p + g)) <= abs(p + g),
            pg == (p + g) * v,
            v > 0,
    {
        let x = t - (p + g);
        assert(t * v - pg == x * v);
        assert(abs(x * v) == abs(x) * v);
        assert(abs((p + g) * v) == abs(p + g) * v);
        assert((0x100_0000 * abs(x)) * v <= abs(p + g) * v);
    }
    assert(0 <= p * v <= m) by (nonlinear_arith)
        requires
            p >= 0,
            l >= 0,
            v > 0,
            m == (p + l) * v,
    ;
    assert(p * v + a * w >= 0) by (nonlinear_arith)
        requires
            p >= 0,
            l >= 0,
            0 <= a <= v,
            w == l - p,
    {
        assert(p * v + a * (l - p) == p * (v - a) + a * l);
    }
}

/// The bar moves its part of the way from where it was to the level, the attack while the level
/// is above it and the release while it is not, to within one part in two to the power of
/// twenty-one.
pub proof fn law_the_bar_moves_towards_the_level(previous: F32, level: F32, b: Ballistics)
    requires
        previous.is_finite_spec(),
        level.is_finite_spec(),
        0 <= previous.value() <= pow2(275),
        0 <= level.value() <= pow2(275),
        b.attack.is_finite_spec(),
        b.release.is_finite_spec(),
        0 <= b.attack.value() <= pow2(149),
        0 <= b.release.value() <= pow2(149),
    ensures
        ({
            let one = pow2(149) as int;
            let bar = smoothed(previous, level, b);
            let part = if previous.value() < level.value() {
                b.attack.value()
            } else {
                b.release.value()
            };
            let from = previous.value();
            let to = level.value();
            &&& bar.is_finite_spec()
            &&& bar.value() >= 0
            &&& 0x20_0000 * abs(bar.value() * one - (from * one + part * (to - from))) <= (from + to)
                * one + 0x20_0000 * one
        }),
{
    let f = Width::Single;
    let v = pow2(149) as int;
    lemma_pow2_pos(149);
    accuracy::lemma_finite_order(f, previous.bits as nat, level.bits as nat);
    accuracy::lemma_finite_order(f, level.bits as nat, previous.bits as nat);
    assert(previous.lt_spec(level) == (previous.value() < level.value()));
    let a = if previous.lt_spec(level) {
        b.attack
    } else {
        b.release
    };
    let p = previous.value();
    let l = level.value();
    lemma2_to64();
    lemma_pow2_adds(22, 253);
    lemma_pow2_pos(253);
    let limit = 0xFF_FFFF * pow2(253);
    single::lemma_difference_is_finite(level, previous);
    let d = level.sub_spec(previous);
    single::lemma_finite_difference(level, previous);
    assert(2 * abs(d.value()) <= 3 * pow2(275));
    assert(abs(a.value()) * abs(d.value()) <= limit * v) by (nonlinear_arith)
        requires
            0 <= abs(a.value()) <= v,
            0 <= abs(d.value()) <= limit,
    ;
    single::lemma_product_is_finite(a, d);
    let g = a.mul_spec(d);
    single::lemma_finite_product(a, d);
    let av = a.value();
    let dv = d.value();
    let gv = g.value();
    bounds::lemma_pow2_order(24, 275);
    assert(abs(gv) <= 2 * pow2(275)) by (nonlinear_arith)
        requires
            0x100_0000 * abs(gv * v - av * dv) <= abs(av * dv) + 0x80_0000 * v,
            0 <= av <= v,
            2 * abs(dv) <= 3 * pow2(275),
            pow2(275) >= 0x100_0000,
            v > 0,
    {
        assert(abs(av * dv) == av * abs(dv));
        assert(2 * (av * abs(dv)) <= v * (3 * pow2(275)));
        assert(abs(gv * v) == abs(gv) * v);
        assert(0x100_0000 * v <= pow2(275) * v);
        assert(abs(gv) * v <= (2 * pow2(275)) * v);
    }
    single::lemma_sum_is_finite(previous, g);
    let t = previous.add_spec(g);
    single::lemma_finite_sum(previous, g);
    lemma_bar_steps(p, l, av, dv, gv, t.value(), v);
    accuracy::lemma_zero(f);
    assert((F32 { bits: 0 }).value() == 0);
    accuracy::lemma_finite_order(f, 0, t.bits as nat);
    let bar = smoothed(previous, level, b);
    assert(bar == t.max_spec(F32 { bits: 0 }));
    if t.value() < 0 {
        assert(bar == F32 { bits: 0 });
        lemma_mul_basics(v);
        assert(t.value() * v <= 0) by (nonlinear_arith)
            requires
                t.value() < 0,
                v > 0,
        ;
    } else {
        assert(bar == t);
    }
}

/// What a meter shows after a block, in terms of what it showed before and of the samples.
///
/// The bar has moved towards the root mean square of the block. The peak is the greatest
/// magnitude there was, and one that really was. The clip latch is set where it was set, or where
/// a sample reached full scale.
pub proof fn law_a_meter_shows_its_samples(before: Level, c: Seq<F32>, b: Ballistics)
    requires
        in_range(c),
        before.rms.is_finite_spec(),
        0 <= before.rms.value() <= pow2(275),
        !before.peak.is_negative_spec(),
        before.peak.is_finite_spec(),
        b.attack.is_finite_spec(),
        b.release.is_finite_spec(),
        0 <= b.attack.value() <= pow2(149),
        0 <= b.release.value() <= pow2(149),
    ensures
        ({
            let one = pow2(149) as int;
            let after = level_after(before, c, b);
            let from = before.rms.value();
            &&& exists|level: F32|
                {
                    &&& #[trigger] is_root_mean_square(level, c)
                    &&& after.rms.is_finite_spec()
                    &&& after.rms.value() >= 0
                    &&& 0x20_0000 * abs(
                        after.rms.value() * one - (from * one + (if from < level.value() {
                            b.attack.value()
                        } else {
                            b.release.value()
                        }) * (level.value() - from)),
                    ) <= (from + level.value()) * one + 0x20_0000 * one
                }
            &&& after.peak.is_finite_spec()
            &&& after.peak.value() >= before.peak.value()
            &&& forall|i: int|
                0 <= i < c.len() ==> after.peak.value() >= abs((#[trigger] c[i]).value())
            &&& after.peak.value() == before.peak.value() || exists|i: int|
                0 <= i < c.len() && after.peak.value() == abs((#[trigger] c[i]).value())
            &&& after.clipped <==> before.clipped || exists|i: int|
                0 <= i < c.len() && abs((#[trigger] c[i]).value()) >= one
        }),
{
    let f = Width::Single;
    let one = pow2(149) as int;
    let after = level_after(before, c, b);
    // The bar.
    law_the_level_is_the_root_mean_square(c);
    let level = block_rms(c);
    lemma_power(c);
    assert(level.value() <= pow2(275)) by {
        let l = level.value();
        let n = c.len() as int;
        lemma_pow2_adds(273, 273);
        lemma_pow2_adds(275, 275);
        lemma_pow2_adds(4, 546);
        lemma2_to64();
        bounds::lemma_pow2_order(149, 546);
        lemma_pow2_adds(23, 425);
        bounds::lemma_pow2_order(448, 546);
        assert(n * pow2(425) <= 0x80_0000 * pow2(425)) by (nonlinear_arith)
            requires
                n <= 0x80_0000,
                pow2(425) >= 0,
        ;
        assert(l * l <= 4 * pow2(546)) by (nonlinear_arith)
            requires
                0x20_0000 * abs(n * (l * l) - power(c)) <= power(c) + 0x20_0000 * (n * pow2(149)),
                power(c) <= pow2(546),
                pow2(149) <= pow2(546),
                n >= 1,
        {
            let x = l * l;
            assert(0x20_0000 * (n * x) <= 0x20_0001 * pow2(546) + 0x20_0000 * (n * pow2(546)));
            assert(n * pow2(546) >= pow2(546));
            assert(n * x <= n * (4 * pow2(546)));
        }
        assert(l <= pow2(275)) by (nonlinear_arith)
            requires
                l * l <= pow2(275) * pow2(275),
                pow2(275) >= 0,
        ;
    }
    law_the_bar_moves_towards_the_level(before.rms, level, b);
    assert(is_root_mean_square(level, c));
    // The peak.
    let p = peak_of(c);
    lemma_peak_is_a_magnitude(c);
    lemma_peak_is_one(c);
    assert forall|i: int| 0 <= i < c.len() implies p.value() >= abs(
        (#[trigger] c[i]).value(),
    ) by {
        assert(c[i].is_finite_spec());
        law_peak_bounds_every_sample(c, i);
        lemma_magnitude(c[i]);
        accuracy::lemma_finite_order(f, c[i].abs_spec().bits as nat, p.bits as nat);
    }
    accuracy::lemma_finite_order(f, p.bits as nat, before.peak.bits as nat);
    accuracy::lemma_finite_order(f, before.peak.bits as nat, p.bits as nat);
    // The latch.
    lemma_unity();
    accuracy::lemma_finite_order(f, UNITY as nat, p.bits as nat);
    assert(p.value() >= one <==> (F32 { bits: UNITY }).le_spec(p));
    let i = choose|i: int| 0 <= i < c.len() && p.value() == abs((#[trigger] c[i]).value());
    assert(p.value() == abs(c[i].value()));
}

/// One as a single.
proof fn lemma_unity()
    ensures
        (F32 { bits: UNITY }).is_finite_spec(),
        (F32 { bits: UNITY }).value() == pow2(149),
{
    lemma2_to64();
    lemma_fundamental_div_mod_converse(UNITY as int, pow2(23) as int, 127, 0);
    lemma_pow2_adds(23, 126);
}

/// The magnitude of a sample.
proof fn lemma_magnitude(x: F32)
    ensures
        x.abs_spec().value() == abs(x.value()),
        x.is_finite_spec() ==> x.abs_spec().is_finite_spec(),
        x.abs_spec().is_finite_spec() ==> x.is_finite_spec(),
{
    assert(ops::magnitude_bits(Width::Single, x.abs_spec().bits as nat) == ops::magnitude_bits(
        Width::Single,
        x.bits as nat,
    ));
}

/// The peak of some samples is the magnitude of one of them.
proof fn lemma_peak_is_one(c: Seq<F32>)
    requires
        c.len() > 0,
        all_numbers(c),
    ensures
        peak_of(c).is_finite_spec(),
        exists|i: int| 0 <= i < c.len() && peak_of(c).value() == abs((#[trigger] c[i]).value()),
    decreases c.len(),
{
    let fewer = c.drop_last();
    let x = c.last();
    let f = Width::Single;
    assert(c[c.len() - 1].is_finite_spec());
    lemma_magnitude(x);
    accuracy::lemma_zero(f);
    if fewer.len() == 0 {
        let none = peak_of(fewer);
        assert(none == F32 { bits: 0 });
        assert(none.value() == 0);
        accuracy::lemma_finite_order(f, 0, x.abs_spec().bits as nat);
        accuracy::lemma_finite_order(f, x.abs_spec().bits as nat, 0);
        assert(peak_of(c).value() == abs(c[0].value()));
    } else {
        assert forall|i: int| 0 <= i < fewer.len() implies (
        #[trigger] fewer[i]).is_finite_spec() by {
            assert(fewer[i] == c[i]);
        }
        lemma_peak_is_one(fewer);
        let i = choose|i: int|
            0 <= i < fewer.len() && peak_of(fewer).value() == abs((#[trigger] fewer[i]).value());
        assert(fewer[i] == c[i]);
        assert(abs(c[c.len() - 1].value()) == x.abs_spec().value());
    }
}

/// The constants of the scale: twenty, seventy-two, and the floor that far below zero.
proof fn lemma_scale()
    ensures
        (F32 { bits: TWENTY }).is_finite_spec(),
        (F32 { bits: TWENTY }).value() == 20 * pow2(149),
        (F32 { bits: RANGE_DB }).is_finite_spec(),
        (F32 { bits: RANGE_DB }).value() == 72 * pow2(149),
        (F32 { bits: FLOOR_DBFS }).is_finite_spec(),
        (F32 { bits: FLOOR_DBFS }).value() == -72 * pow2(149),
        (F32 { bits: 0 }).value() == 0,
        pow2(149) > 0,
{
    lemma2_to64();
    let half = pow2(23) as int;
    lemma_pow2_pos(149);
    lemma_fundamental_div_mod_converse(TWENTY as int, half, 131, 0x20_0000);
    lemma_pow2_adds(19, 130);
    assert(0xA0_0000 * pow2(130) == 20 * (0x8_0000 * pow2(130))) by (nonlinear_arith);
    lemma_fundamental_div_mod_converse(RANGE_DB as int, half, 133, 0x10_0000);
    lemma_pow2_adds(17, 132);
    assert(0x90_0000 * pow2(132) == 72 * (0x2_0000 * pow2(132))) by (nonlinear_arith);
    single::lemma_neg_value(F32 { bits: RANGE_DB });
    assert((F32 { bits: RANGE_DB }).neg_spec() == F32 { bits: FLOOR_DBFS });
    accuracy::lemma_zero(Width::Single);
}

/// A level in decibels is twenty times its decimal logarithm, to within the rounding, and never
/// less than the floor of the scale, which is where everything without a magnitude reads.
pub proof fn law_decibels_are_twenty_times_the_logarithm(mag: F32, log10: F32)
    requires
        mag.is_finite_spec(),
        log10.is_finite_spec(),
        abs(log10.value()) <= pow2(270),
    ensures
        ({
            let one = pow2(149) as int;
            let db = dbfs(mag, log10);
            let exact = if mag.value() <= 0 || 20 * log10.value() < -72 * one {
                -72 * one
            } else {
                20 * log10.value()
            };
            &&& db.is_finite_spec()
            &&& db.value() >= -72 * one
            &&& 0x100_0000 * abs(db.value() - exact) <= 20 * abs(log10.value()) + 0x100_0000
        }),
{
    let f = Width::Single;
    let v = pow2(149) as int;
    let floor = F32 { bits: FLOOR_DBFS };
    let twenty = F32 { bits: TWENTY };
    lemma_scale();
    accuracy::lemma_finite_order(f, mag.bits as nat, 0);
    let l = log10.value();
    lemma2_to64();
    lemma_pow2_adds(17, 253);
    lemma_pow2_pos(253);
    assert(abs(20 * v) * abs(l) <= (0xFF_FFFF * pow2(253)) * v) by (nonlinear_arith)
        requires
            0 <= abs(l) <= 0x2_0000 * pow2(253),
            v > 0,
            pow2(253) > 0,
    {
        assert(abs(20 * v) == 20 * v);
        assert((20 * v) * abs(l) <= (20 * v) * (0x2_0000 * pow2(253)));
    }
    single::lemma_product_is_finite(twenty, log10);
    let p = twenty.mul_spec(log10);
    single::lemma_finite_product(twenty, log10);
    let pv = p.value();
    let e = pv - 20 * l;
    assert(pv * v - (20 * v) * l == e * v) by (nonlinear_arith)
        requires
            e == pv - 20 * l,
    ;
    assert(abs(e * v) == abs(e) * v && abs((20 * v) * l) == (20 * abs(l)) * v) by (nonlinear_arith)
        requires
            v > 0,
    ;
    assert(0x100_0000 * abs(e) <= 20 * abs(l) + 0x80_0000) by (nonlinear_arith)
        requires
            0x100_0000 * (abs(e) * v) <= (20 * abs(l)) * v + 0x80_0000 * v,
            v > 0,
    ;
    accuracy::lemma_finite_order(f, p.bits as nat, FLOOR_DBFS as nat);
    accuracy::lemma_finite_order(f, FLOOR_DBFS as nat, p.bits as nat);
    assert(mag.le_spec(F32 { bits: 0 }) == (mag.value() <= 0)) by {
        accuracy::lemma_finite_order(f, 0, mag.bits as nat);
    }
}

/// The meter's scale is even: between its ends a level reads as far along it as it lies above the
/// floor, of seventy-two decibels in all, to within the rounding.
pub proof fn law_the_scale_is_even(db: F32)
    requires
        db.is_finite_spec(),
        -72 * pow2(149) <= db.value() <= 0,
    ensures
        ({
            let one = pow2(149) as int;
            let part = fraction_of(db);
            &&& part.is_finite_spec()
            &&& 0x40_0000 * abs(72 * part.value() - (db.value() + 72 * one)) <= 72 * one
        }),
{
    let f = Width::Single;
    let v = pow2(149) as int;
    let floor = F32 { bits: FLOOR_DBFS };
    let range = F32 { bits: RANGE_DB };
    let unity = F32 { bits: UNITY };
    lemma_scale();
    lemma_unity();
    lemma2_to64();
    bounds::lemma_pow2_order(149, 253);
    single::lemma_difference_is_finite(db, floor);
    let d = db.sub_spec(floor);
    single::lemma_finite_difference(db, floor);
    let dv = d.value();
    let exact = db.value() + 72 * v;
    assert(0x100_0000 * abs(dv - exact) <= exact);
    assert(abs(dv) * v <= (0xFF_FFFF * pow2(253)) * abs(72 * v)) by (nonlinear_arith)
        requires
            0 <= abs(dv) <= 144 * v,
            v > 0,
            v <= pow2(253),
    {
        assert(abs(72 * v) == 72 * v);
        assert(abs(dv) * v <= (144 * v) * v);
        assert((0xFF_FFFF * pow2(253)) * (72 * v) >= (0xFF_FFFF * v) * (72 * v));
    }
    single::lemma_quotient_is_finite(d, range);
    let q = d.div_spec(range);
    single::lemma_finite_quotient(d, range);
    let qv = q.value();
    let e = 72 * qv - dv;
    assert(qv * (72 * v) - dv * v == e * v) by (nonlinear_arith)
        requires
            e == 72 * qv - dv,
    ;
    assert(abs(e * v) == abs(e) * v) by (nonlinear_arith)
        requires
            v > 0,
    ;
    assert(0x100_0000 * abs(e) <= abs(dv) + 0x80_0000 * 72) by (nonlinear_arith)
        requires
            0x100_0000 * (abs(e) * v) <= abs(dv) * v + 0x80_0000 * (72 * v),
            v > 0,
    ;
    bounds::lemma_pow2_order(64, 149);
    accuracy::lemma_finite_order(f, q.bits as nat, 0);
    accuracy::lemma_finite_order(f, 0, q.bits as nat);
    accuracy::lemma_finite_order(f, q.bits as nat, UNITY as nat);
    accuracy::lemma_finite_order(f, UNITY as nat, q.bits as nat);
    assert(fraction_of(db) == q.clamp_spec(F32 { bits: 0 }, unity));
}

/// Every sample of the whole frames of an interleaved buffer is metered on its own channel, in its
/// own frame, and no channel meters anything else.
pub proof fn law_every_sample_is_metered_on_its_channel(s: Seq<F32>, channels: nat, i: int)
    requires
        channels > 0,
        0 <= i < (s.len() / channels) * channels,
    ensures
        ({
            let ch = (i % channels as int) as nat;
            let frame = i / channels as int;
            &&& channel_of(s, channels, ch).len() == s.len() / channels
            &&& 0 <= frame < channel_of(s, channels, ch).len()
            &&& channel_of(s, channels, ch)[frame] == s[i]
        }),
{
    let c = channels as int;
    let frames = (s.len() / channels) as int;
    lemma_fundamental_div_mod(i, c);
    lemma_mod_bound(i, c);
    let f = i / c;
    assert(0 <= f < frames) by (nonlinear_arith)
        requires
            i == c * f + i % c,
            0 <= i % c < c,
            0 <= i < frames * c,
            c > 0,
    ;
    assert(c * f == f * c) by (nonlinear_arith);
}

/// A block lasts as long as its frames take at the sample rate, to within one part in two to the
/// power of twenty: its duration times the rate is its frames.
pub proof fn law_a_block_lasts_its_frames_over_the_rate(frames: nat, sample_rate: nat)
    requires
        frames <= 0x1_0000_0000_0000_0000,
        1 <= sample_rate <= 0x1_0000_0000_0000_0000,
    ensures
        ({
            let secs = meters::block_secs_of(frames, sample_rate);
            &&& secs.is_finite_spec()
            &&& secs.value() >= 0
            &&& 0x10_0000 * abs(secs.value() * sample_rate - frames * pow2(149)) <= frames * pow2(
                149,
            ) + 0x10_0000 * sample_rate
        }),
{
    let v = pow2(149) as int;
    let n = frames as int;
    let r = sample_rate as int;
    let x = F32::of_int(n);
    let y = F32::of_int(r);
    lemma_pow2_pos(149);
    lemma2_to64();
    lemma_pow2_adds(65, 149);
    lemma_pow2_adds(1, 64);
    bounds::lemma_pow2_order(214, 253);
    single::lemma_integer(n);
    single::lemma_integer(r);
    let fx = x.value();
    let fy = y.value();
    assert(0 <= n * v && n * v <= 0x1_0000_0000_0000_0000 * v && r * v >= v) by (nonlinear_arith)
        requires
            0 <= n <= 0x1_0000_0000_0000_0000,
            r >= 1,
            v > 0,
    ;
    assert(abs(fx) * v <= (0xFF_FFFF * pow2(253)) * abs(fy)) by (nonlinear_arith)
        requires
            0 <= fx <= 0x2_0000_0000_0000_0000 * v,
            pow2(214) == 0x2_0000_0000_0000_0000 * v,
            pow2(214) <= pow2(253),
            2 * fy >= v,
            v > 0,
    {
        assert(fx * v <= pow2(253) * v);
        assert(pow2(253) * v <= pow2(253) * (2 * fy));
    }
    single::lemma_quotient_is_finite(x, y);
    single::lemma_finite_quotient(x, y);
    let q = x.div_spec(y).value();
    let b = q * fy;
    let c = fx * v;
    let a = (q * r) * v;
    let d = (n * v) * v;
    assert(b >= 0 && a >= 0 && c >= 0 && d >= 0) by (nonlinear_arith)
        requires
            b == q * fy,
            c == fx * v,
            a == (q * r) * v,
            d == (n * v) * v,
            q >= 0,
            fy >= 0,
            fx >= 0,
            r >= 1,
            n >= 0,
            v > 0,
    ;
    assert(0x100_0000 * abs(b - a) <= a) by (nonlinear_arith)
        requires
            b == q * fy,
            a == (q * r) * v,
            0x100_0000 * abs(fy - r * v) <= r * v,
            q >= 0,
    {
        let e = fy - r * v;
        assert(b - a == q * e);
        assert(abs(q * e) == q * abs(e));
        assert(q * (0x100_0000 * abs(e)) <= q * (r * v));
        assert(q * (r * v) == a);
    }
    assert(0x100_0000 * abs(c - d) <= d) by (nonlinear_arith)
        requires
            c == fx * v,
            d == (n * v) * v,
            0x100_0000 * abs(fx - n * v) <= n * v,
            v > 0,
    {
        let e = fx - n * v;
        assert(c - d == e * v);
        assert(abs(e * v) == abs(e) * v);
        assert((0x100_0000 * abs(e)) * v <= (n * v) * v);
    }
    assert(0x10_0000 * abs(a - d) <= d + 0x10_0000 * (r * v));
    let g = q * r - n * v;
    assert(0x10_0000 * abs(g) <= n * v + 0x10_0000 * r) by (nonlinear_arith)
        requires
            g == q * r - n * v,
            a == (q * r) * v,
            d == (n * v) * v,
            0x10_0000 * abs(a - d) <= d + 0x10_0000 * (r * v),
            v > 0,
    {
        assert(a - d == g * v);
        assert(abs(g * v) == abs(g) * v);
        assert((0x10_0000 * abs(g)) * v <= (n * v + 0x10_0000 * r) * v);
    }
}

/// The time constants in numbers: the bar rises with thirty milliseconds and falls with a hundred
/// and fifty, to within one part in a hundred thousand.
pub proof fn law_the_bar_rises_in_thirty_milliseconds_and_falls_in_a_hundred_and_fifty()
    ensures
        ({
            let one = pow2(149) as int;
            let attack = F32 { bits: meters::ATTACK_TAU_S };
            let release = F32 { bits: meters::RELEASE_TAU_S };
            &&& attack.is_finite_spec()
            &&& release.is_finite_spec()
            &&& 100_000 * abs(1000 * attack.value() - 30 * one) <= 30 * one
            &&& 100_000 * abs(1000 * release.value() - 150 * one) <= 150 * one
        }),
{
    lemma2_to64();
    let half = pow2(23) as int;
    lemma_fundamental_div_mod_converse(meters::ATTACK_TAU_S as int, half, 121, 0x75_C28F);
    lemma_pow2_adds(29, 120);
    lemma_pow2_pos(120);
    lemma_fundamental_div_mod_converse(meters::RELEASE_TAU_S as int, half, 124, 0x19_999A);
    lemma_pow2_adds(26, 123);
    lemma_pow2_pos(123);
    assert((F32 { bits: meters::ATTACK_TAU_S }).value() == 0xF5_C28F * pow2(120));
    assert((F32 { bits: meters::RELEASE_TAU_S }).value() == 0x99_999A * pow2(123));
}

} // verus!
