//! What the scatter of points about a line is, in numbers.
//!
//! The scatter is the root of the sum of the squared distances over the degrees of freedom. It is
//! computed in doubles, and held here against the exact distances.

use crate::float::accuracy;
use crate::float::bounds;
use crate::float::error;
use crate::float::error::{abs, all_finite, bulk, sum, MOST};
use crate::float::fold;
use crate::float::ops;
use crate::float::ops::Width;
use crate::float::root;
use crate::float::F64;
use crate::least_squares::above;
use vstd::arithmetic::mul::*;
use vstd::arithmetic::power2::*;
use vstd::prelude::*;

verus! {

/// The exact sum of the squares of some doubles, in units of the square of the smallest.
pub open spec fn squares_of(d: Seq<F64>) -> int
    decreases d.len(),
{
    if d.len() == 0 {
        0
    } else {
        squares_of(d.drop_last()) + d.last().value() * d.last().value()
    }
}

/// Whether some doubles are how far points lie above the line `a + b * x`, each to within one part
/// in two to the power of fifty of what goes into it.
pub open spec fn are_distances(d: Seq<F64>, xs: Seq<F64>, ys: Seq<F64>, a: F64, b: F64) -> bool {
    &&& d.len() == xs.len()
    &&& forall|i: int|
        0 <= i < d.len() ==> is_distance(#[trigger] d[i], xs[i], ys[i], a, b)
}

pub open spec fn is_distance(d: F64, x: F64, y: F64, a: F64, b: F64) -> bool {
    let u = pow2(1074) as int;
    &&& d.is_finite_spec()
    &&& 0x4_0000_0000_0000 * abs(d.value() * u - above(x, y, a, b)) <= abs(y.value() * u) + abs(
        a.value() * u,
    ) + abs(b.value() * x.value()) + 0x4_0000_0000_0000 * u
}

/// Whether a double is the root of the sum of some squares over the degrees of freedom: its square
/// times those is that sum, to within one part in two to the power of twenty-seven and a few of
/// the smallest doubles for each of the squares.
pub open spec fn is_scatter(r: F64, d: Seq<F64>, freedom: int) -> bool {
    &&& r.is_finite_spec()
    &&& r.value() >= 0
    &&& 0x800_0000 * abs(freedom * (r.value() * r.value()) - squares_of(d)) <= squares_of(d)
        + 0x2000_0000 * (d.len() * pow2(1074))
}

/// The steps to a distance: `p` is the slope times where the point lies, `s` the line there, and
/// `d` the distance.
proof fn lemma_distance_steps(y: int, a: int, w: int, p: int, s: int, d: int, u: int)
    requires
        u > 0,
        0x20_0000_0000_0000 * abs(p * u - w) <= abs(w) + 0x10_0000_0000_0000 * u,
        0x20_0000_0000_0000 * abs(s - (a + p)) <= abs(a + p),
        0x20_0000_0000_0000 * abs(d - (y - s)) <= abs(y - s),
    ensures
        0x4_0000_0000_0000 * abs(d * u - (u * y - u * a - w)) <= abs(y * u) + abs(a * u) + abs(w)
            + 0x4_0000_0000_0000 * u,
{
    let yu = y * u;
    let au = a * u;
    let pu = p * u;
    let su = s * u;
    let du = d * u;
    assert(u * y == yu && u * a == au) by (nonlinear_arith)
        requires
            yu == y * u,
            au == a * u,
    ;
    assert(0x20_0000_0000_0000 * abs(su - (au + pu)) <= abs(au + pu)) by (nonlinear_arith)
        requires
            0x20_0000_0000_0000 * abs(s - (a + p)) <= abs(a + p),
            au == a * u,
            pu == p * u,
            su == s * u,
            u > 0,
    {
        let e = s - (a + p);
        assert(su - (au + pu) == e * u);
        assert(abs(e * u) == abs(e) * u);
        assert(au + pu == (a + p) * u);
        assert(abs((a + p) * u) == abs(a + p) * u);
        assert((0x20_0000_0000_0000 * abs(e)) * u <= abs(a + p) * u);
    }
    assert(0x20_0000_0000_0000 * abs(du - (yu - su)) <= abs(yu - su)) by (nonlinear_arith)
        requires
            0x20_0000_0000_0000 * abs(d - (y - s)) <= abs(y - s),
            yu == y * u,
            su == s * u,
            du == d * u,
            u > 0,
    {
        let e = d - (y - s);
        assert(du - (yu - su) == e * u);
        assert(abs(e * u) == abs(e) * u);
        assert(yu - su == (y - s) * u);
        assert(abs((y - s) * u) == abs(y - s) * u);
        assert((0x20_0000_0000_0000 * abs(e)) * u <= abs(y - s) * u);
    }
}

/// One distance, as computed.
pub proof fn lemma_distance(x: F64, y: F64, a: F64, b: F64)
    requires
        y.sub_spec(a.add_spec(b.mul_spec(x))).is_finite_spec(),
    ensures
        is_distance(y.sub_spec(a.add_spec(b.mul_spec(x))), x, y, a, b),
{
    let p = b.mul_spec(x);
    let s = a.add_spec(p);
    let d = y.sub_spec(s);
    lemma_pow2_pos(1074);
    error::lemma_finite_difference(y, s);
    error::lemma_finite_sum(a, p);
    error::lemma_finite_product(b, x);
    lemma_distance_steps(
        y.value(),
        a.value(),
        b.value() * x.value(),
        p.value(),
        s.value(),
        d.value(),
        pow2(1074) as int,
    );
}

/// The squares of some distances, as computed.
pub open spec fn squared(d: Seq<F64>) -> Seq<F64> {
    Seq::new(d.len(), |i: int| d[i].mul_spec(d[i]))
}

/// What the squares add up to, as computed one by one.
proof fn lemma_squared(d: Seq<F64>)
    requires
        forall|i: int| 0 <= i < d.len() ==> bounds::within(#[trigger] d[i], 1500),
    ensures
        all_finite(squared(d)),
        bulk(squared(d)) == sum(squared(d)),
        0 <= sum(squared(d)) <= d.len() * pow2(1926),
        squares_of(d) >= 0,
        0x20_0000_0000_0000 * abs(sum(squared(d)) * pow2(1074) - squares_of(d)) <= squares_of(d)
            + 0x10_0000_0000_0000 * (d.len() * pow2(1074)),
    decreases d.len(),
{
    let sq = squared(d);
    let u = pow2(1074) as int;
    let top = pow2(1926) as int;
    let n = d.len() as int;
    if n == 0 {
        lemma_mul_basics(u);
        lemma_mul_basics(top);
    } else {
        let fewer = d.drop_last();
        assert forall|i: int| 0 <= i < fewer.len() implies bounds::within(
            #[trigger] fewer[i],
            1500,
        ) by {
            assert(fewer[i] == d[i]);
        }
        lemma_squared(fewer);
        let x = d[n - 1];
        assert(bounds::within(x, 1500));
        bounds::lemma_product_within(x, x, 1500, 1500);
        error::lemma_finite_product(x, x);
        let p = x.mul_spec(x);
        assert(abs(p.value()) == bounds::size(p));
        assert(sq.drop_last() =~= squared(fewer));
        assert(sq.last() == p);
        let s = x.value() * x.value();
        assert(s >= 0) by (nonlinear_arith)
            requires
                s == x.value() * x.value(),
        ;
        let a = sum(squared(fewer));
        let pv = p.value();
        assert((a + pv) * u == a * u + pv * u) by (nonlinear_arith);
        assert((n - 1) * u + u == n * u) by (nonlinear_arith);
        assert((n - 1) * top + top == n * top) by (nonlinear_arith);
        assert forall|i: int| 0 <= i < sq.len() implies (#[trigger] sq[i]).is_finite_spec() by {
            if i < fewer.len() {
                assert(sq[i] == squared(fewer)[i]);
            }
        }
    }
}

/// The steps to the scatter: `a` is the exact sum of the squares, `b` what they add up to as
/// computed one by one, `e` the sum as computed, `q` the mean and `r` its root, `n` the count and
/// `f` the degrees of freedom.
proof fn lemma_scatter_steps(n: int, f: int, a: int, b: int, e: int, q: int, r: int, u: int)
    requires
        1 <= f <= n <= 0x80_0000,
        u > 0,
        a >= 0,
        b >= 0,
        e >= 0,
        q >= 0,
        r >= 0,
        0x20_0000_0000_0000 * abs(b * u - a) <= a + 0x10_0000_0000_0000 * (n * u),
        0x10_0000_0000_0000 * abs(e - b) <= n * b,
        0x20_0000_0000_0000 * abs(q * f - e) <= e + 0x10_0000_0000_0000 * f,
        0x8_0000_0000_0000 * abs(r * r - q * u) <= r * r,
    ensures
        0x800_0000 * abs(f * (r * r) - a) <= a + 0x2000_0000 * (n * u),
{
    assert(n * b <= 0x80_0000 * b) by (nonlinear_arith)
        requires
            n <= 0x80_0000,
            b >= 0,
    ;
    let bu = b * u;
    let eu = e * u;
    let qu = (q * f) * u;
    let nu = n * u;
    let fu = f * u;
    assert(0 < fu <= nu) by (nonlinear_arith)
        requires
            1 <= f <= n,
            u > 0,
            fu == f * u,
            nu == n * u,
    ;
    assert(0x2000_0000 * abs(eu - bu) <= bu) by (nonlinear_arith)
        requires
            0x10_0000_0000_0000 * abs(e - b) <= 0x80_0000 * b,
            u > 0,
            eu == e * u,
            bu == b * u,
    {
        assert(eu - bu == (e - b) * u);
        assert(abs((e - b) * u) == abs(e - b) * u);
        assert(0x2000_0000 * abs(e - b) <= b);
        assert((0x2000_0000 * abs(e - b)) * u <= b * u);
    }
    assert(0x20_0000_0000_0000 * abs(qu - eu) <= eu + 0x10_0000_0000_0000 * fu)
        by (nonlinear_arith)
        requires
            0x20_0000_0000_0000 * abs(q * f - e) <= e + 0x10_0000_0000_0000 * f,
            u > 0,
            qu == (q * f) * u,
            eu == e * u,
            fu == f * u,
    {
        assert(qu - eu == (q * f - e) * u);
        assert(abs((q * f - e) * u) == abs(q * f - e) * u);
        assert((0x20_0000_0000_0000 * abs(q * f - e)) * u <= (e + 0x10_0000_0000_0000 * f) * u);
    }
    let rr = f * (r * r);
    assert(0x8_0000_0000_0000 * abs(rr - qu) <= rr) by (nonlinear_arith)
        requires
            0x8_0000_0000_0000 * abs(r * r - q * u) <= r * r,
            rr == f * (r * r),
            qu == (q * f) * u,
            f >= 1,
    {
        let x = r * r - q * u;
        assert(rr - qu == f * x);
        assert(abs(f * x) == f * abs(x));
        assert(f * (0x8_0000_0000_0000 * abs(x)) <= f * (r * r));
    }
    assert(bu >= 0 && eu >= 0) by (nonlinear_arith)
        requires
            bu == b * u,
            eu == e * u,
            b >= 0,
            e >= 0,
            u > 0,
    ;
}

/// The scatter, as computed.
pub proof fn lemma_scatter(start: F64, d: Seq<F64>, freedom: int)
    requires
        start.bits == 0 || start.bits == fold::NEG_ZERO,
        1 <= freedom <= d.len() <= MOST,
        forall|i: int| 0 <= i < d.len() ==> bounds::within(#[trigger] d[i], 1500),
    ensures
        is_scatter(
            fold::total(start, squared(d)).div_spec(F64::of_int(freedom)).sqrt_spec(),
            d,
            freedom,
        ),
{
    let sq = squared(d);
    let e = fold::total(start, sq);
    let n = d.len() as int;
    let u = pow2(1074) as int;
    lemma_pow2_pos(1074);
    lemma_squared(d);
    lemma2_to64();
    lemma_pow2_adds(24, 1926);
    lemma_pow2_pos(1926);
    let b = sum(sq);
    assert(2 * b <= pow2(1950)) by (nonlinear_arith)
        requires
            b <= n * pow2(1926),
            n <= 0x80_0000,
            pow2(1950) == 0x100_0000 * pow2(1926),
            pow2(1926) > 0,
    ;
    error::lemma_total_error(start, sq, 1950);
    let ev = e.value();
    assert(n * b <= 0x80_0000 * b) by (nonlinear_arith)
        requires
            n <= 0x80_0000,
            b >= 0,
    ;
    assert(ev >= 0);
    let w = F64::of_int(freedom);
    accuracy::law_small_integers_are_exact(freedom);
    let fu = freedom * u;
    assert(fu >= u) by (nonlinear_arith)
        requires
            freedom >= 1,
            u > 0,
            fu == freedom * u,
    ;
    assert(abs(ev) * pow2(1074) <= pow2(1950) * abs(fu)) by (nonlinear_arith)
        requires
            0 <= abs(ev) <= pow2(1950),
            abs(fu) >= u,
            u == pow2(1074),
            u > 0,
    ;
    error::lemma_div_error(e, w, 1950);
    let q = e.div_spec(w);
    let qv = q.value();
    assert(qv * fu - ev * u == (qv * freedom - ev) * u) by (nonlinear_arith)
        requires
            fu == freedom * u,
    ;
    assert(abs((qv * freedom - ev) * u) == abs(qv * freedom - ev) * u) by (nonlinear_arith)
        requires
            u > 0,
    ;
    assert(0x20_0000_0000_0000 * abs(qv * freedom - ev) <= ev + 0x10_0000_0000_0000 * freedom)
        by (nonlinear_arith)
        requires
            0x20_0000_0000_0000 * (abs(qv * freedom - ev) * u) <= ev * u + 0x10_0000_0000_0000 * (
            freedom * u),
            u > 0,
    {
        assert((0x20_0000_0000_0000 * abs(qv * freedom - ev)) * u <= (ev + 0x10_0000_0000_0000
            * freedom) * u);
    }
    lemma_root(q);
    lemma_scatter_steps(n, freedom, squares_of(d), b, ev, qv, q.sqrt_spec().value(), u);
}

/// The square of a double's root is close to the double.
pub proof fn lemma_root(x: F64)
    requires
        x.is_finite_spec(),
        x.value() >= 0,
    ensures
        ({
            let r = x.sqrt_spec();
            &&& r.is_finite_spec()
            &&& r.value() >= 0
            &&& 0x8_0000_0000_0000 * abs(r.value() * r.value() - x.value() * pow2(1074))
                <= r.value() * r.value()
        }),
{
    reveal(F64::sqrt_spec);
    let f = Width::Double;
    let b = x.bits as nat;
    lemma2_to64();
    lemma2_to64_rest();
    accuracy::lemma_zero(f);
    if x.value() == 0 {
        let m = ops::magnitude_bits(f, b);
        if m > 0 {
            accuracy::lemma_magnitude_grows(f, 0, m);
            assert(ops::magnitude(f, b) == ops::magnitude(f, m));
        }
        assert(x.sqrt_spec() == x);
        lemma_mul_basics(pow2(1074) as int);
        lemma_mul_basics(0);
    } else {
        assert(!x.is_negative_spec());
        root::lemma_root_close(f, b);
    }
}

} // verus!
