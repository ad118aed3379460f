//! What makes a line the least-squares line, in numbers.
//!
//! The line `a + b * x` through some points is the least-squares line where what is left of the
//! points above and below it cancels out, both by itself and weighted by `x`. A line that was
//! computed in doubles does so to within the rounding, which is bounded here.

use crate::clock::mean;
use crate::finalize::moments;
use crate::float::bounds;
use crate::float::error;
use crate::float::error::{abs, all_finite, bulk, sum, MOST};
use crate::float::fold;
use crate::float::F64;
use crate::time::ZERO;
use crate::trend;
use crate::trend::{crosses, in_reach, isum, pair, products, row, rows, together, turned, zeros};
use vstd::arithmetic::mul::*;
use vstd::arithmetic::power2::*;
use vstd::prelude::*;

verus! {

/// Whether no value is further from zero than `x`.
pub open spec fn reaches(s: Seq<F64>, x: int) -> bool {
    forall|i: int| 0 <= i < s.len() ==> abs((#[trigger] s[i]).value()) <= x
}

/// The values along an axis, in units of the smallest double.
pub open spec fn values(s: Seq<F64>) -> Seq<int> {
    turned(s, 1)
}

/// How far a point lies above the line `a + b * x`, in units of the square of the smallest
/// double.
pub open spec fn above(x: F64, y: F64, a: F64, b: F64) -> int {
    pow2(1074) * y.value() - pow2(1074) * a.value() - b.value() * x.value()
}

/// What is left of each of some points.
pub open spec fn remainders(xs: Seq<F64>, ys: Seq<F64>, a: F64, b: F64) -> Seq<int> {
    Seq::new(xs.len(), |i: int| above(xs[i], ys[i], a, b))
}

/// The same, each weighted by where its point lies along the axis.
pub open spec fn weighted(xs: Seq<F64>, ys: Seq<F64>, a: F64, b: F64) -> Seq<int> {
    Seq::new(xs.len(), |i: int| above(xs[i], ys[i], a, b) * xs[i].value())
}

/// How much a line of slope `b` can make of points that reach no further than `x` and `y`.
pub open spec fn size_of(b: F64, x: int, y: int) -> int {
    pow2(1074) * y + abs(b.value()) * x
}

/// Whether a line is the least-squares line of some points that reach no further than `x` and
/// `y`, to within one part in two to the power of forty-six for each pair of points.
pub open spec fn is_least_squares(
    xs: Seq<F64>,
    ys: Seq<F64>,
    a: F64,
    b: F64,
    x: int,
    y: int,
) -> bool {
    let n = xs.len() as int;
    &&& 0x2_0000_0000_0000 * abs(isum(remainders(xs, ys, a, b))) <= (n * n) * size_of(b, x, y)
    &&& 0x4000_0000_0000 * abs(isum(weighted(xs, ys, a, b))) <= (n * n) * (x * size_of(b, x, y))
}

/// The bounds that points are held against: at least a second and at most some hundred billion
/// years along the first axis, and not vanishing along the second.
pub open spec fn are_bounds(x: int, y: int) -> bool {
    &&& pow2(1074) <= x <= pow2(1138)
    &&& pow2(1000) <= y <= pow2(1201)
}

/// The spread of some values: the squared distances of all pairs, added up.
pub open spec fn spread(a: Seq<int>) -> int {
    a.len() * isum(products(a, a)) - isum(a) * isum(a)
}

/// How two axes go together: the products of the distances of all pairs, added up.
pub open spec fn trend_of(a: Seq<int>, b: Seq<int>) -> int {
    a.len() * isum(products(a, b)) - isum(a) * isum(b)
}

pub proof fn lemma_bulk_reaches(s: Seq<F64>, x: int)
    requires
        reaches(s, x),
        x >= 0,
    ensures
        bulk(s) <= s.len() * x,
    decreases s.len(),
{
    let n = s.len() as int;
    if n == 0 {
        lemma_mul_basics(x);
    } else {
        let fewer = s.drop_last();
        assert forall|i: int| 0 <= i < fewer.len() implies abs((#[trigger] fewer[i]).value())
            <= x by {
            assert(fewer[i] == s[i]);
        }
        lemma_bulk_reaches(fewer, x);
        assert(abs(s[n - 1].value()) <= x);
        assert((n - 1) * x + x == n * x) by (nonlinear_arith);
    }
}

/// A mean is close to the exact one.
pub proof fn lemma_mean(s: Seq<F64>, x: int)
    requires
        all_finite(s),
        2 <= s.len() <= MOST,
        reaches(s, x),
        pow2(1000) <= x <= pow2(1201),
    ensures
        mean(s).is_finite_spec(),
        abs(mean(s).value()) <= 2 * x,
        abs(sum(s)) <= s.len() * x,
        0x20_0000_0000_0000 * abs(sum(s) - s.len() * mean(s).value()) <= 7 * ((s.len() * s.len())
            * x),
        forall|i: int|
            0 <= i < s.len() ==> abs((#[trigger] s[i]).value() - mean(s).value()) <= 4 * x,
{
    let n = s.len() as int;
    let t = n * x;
    let m = mean(s).value();
    lemma_bulk_reaches(s, x);
    error::lemma_sum_within_bulk(s);
    lemma2_to64();
    lemma_pow2_adds(64, 64);
    bounds::lemma_pow2_order(128, 1000);
    lemma_pow2_adds(25, 1201);
    assert(x <= t) by (nonlinear_arith)
        requires
            t == n * x,
            n >= 1,
            x >= 0,
    ;
    assert(4 * t <= pow2(1226)) by (nonlinear_arith)
        requires
            t == n * x,
            n <= 0x80_0000,
            0 <= x <= pow2(1201),
            pow2(1226) == 0x200_0000 * pow2(1201),
    ;
    error::lemma_mean_error_over(s, t, 1226);
    let n2 = n * n;
    assert((7 * n) * t == 7 * (n2 * x)) by (nonlinear_arith)
        requires
            t == n * x,
            n2 == n * n,
    ;
    assert(n2 <= 0x80_0000 * n) by (nonlinear_arith)
        requires
            n2 == n * n,
            0 <= n <= 0x80_0000,
    ;
    assert(n2 * x <= 0x80_0000 * t) by (nonlinear_arith)
        requires
            n2 <= 0x80_0000 * n,
            t == n * x,
            x >= 0,
    ;
    assert(abs(n * m) <= 2 * t);
    assert(abs(m) <= 2 * x) by (nonlinear_arith)
        requires
            abs(n * m) <= 2 * (n * x),
            n >= 1,
    {
        assert(abs(n * m) == n * abs(m));
        assert(n * abs(m) <= n * (2 * x));
    }
    assert forall|i: int| 0 <= i < s.len() implies abs((#[trigger] s[i]).value() - m) <= 4 * x by {
        assert(abs(s[i].value()) <= x);
    }
}

/// A sum of products of distances from the means is close to the exact one.
pub proof fn lemma_moment(xs: Seq<F64>, ys: Seq<F64>, x: int, y: int)
    requires
        xs.len() == ys.len(),
        2 <= xs.len() <= MOST,
        all_finite(xs),
        all_finite(ys),
        mean(xs).is_finite_spec(),
        mean(ys).is_finite_spec(),
        forall|i: int|
            0 <= i < xs.len() ==> abs((#[trigger] xs[i]).value() - mean(xs).value()) <= 4 * x,
        forall|i: int|
            0 <= i < ys.len() ==> abs((#[trigger] ys[i]).value() - mean(ys).value()) <= 4 * y,
        in_reach(2 * x, 2 * y),
    ensures
        ({
            let z = fold::total(F64 { bits: ZERO }, moments(xs, mean(xs), ys, mean(ys)));
            let c = isum(crosses(values(xs), values(ys), mean(xs).value(), mean(ys).value()));
            let n = xs.len() as int;
            &&& z.is_finite_spec()
            &&& 0x20_0000_0000_0000 * abs(z.value() * pow2(1074) - c) <= 80 * ((n * n) * (x * y))
            &&& abs(z.value()) * pow2(1074) <= 40 * (n * (x * y))
        }),
{
    let n = xs.len() as int;
    let u = pow2(1074) as int;
    let mx = mean(xs).value();
    let my = mean(ys).value();
    let v = x * y;
    let w = (2 * x) * (2 * y);
    lemma_pow2_pos(1074);
    trend::lemma_reach(2 * x, 2 * y);
    assert(w == 4 * v) by (nonlinear_arith)
        requires
            w == (2 * x) * (2 * y),
            v == x * y,
    ;
    let ps = moments(xs, mean(xs), ys, mean(ys));
    let ts = turned(ps, u);
    let cs = crosses(values(xs), values(ys), mx, my);
    assert forall|i: int| 0 <= i < ps.len() implies (#[trigger] ps[i]).is_finite_spec()
        && 0x20_0000_0000_0000 * abs(ts[i] - cs[i]) <= 20 * w && abs(ps[i].value()) * u <= 5
        * w by {
        assert(xs[i].is_finite_spec() && ys[i].is_finite_spec());
        trend::lemma_term(xs[i], ys[i], mean(xs), mean(ys), 2 * x, 2 * y);
        let p = ps[i].value();
        assert(u * p == p * u) by (nonlinear_arith);
        assert(values(xs)[i] == xs[i].value() && values(ys)[i] == ys[i].value());
    }
    assert forall|i: int| 0 <= i < ts.len() implies 0x20_0000_0000_0000 * abs(
        #[trigger] ts[i] - cs[i],
    ) <= 20 * w by {
        assert(ps[i].is_finite_spec());
    }
    trend::lemma_sums_near(ts, cs, 20 * w);
    trend::lemma_turned_sum(ps, u);
    trend::lemma_bulk_of_products(ps, u, w);
    trend::lemma_products_fit(n, w, bulk(ps), u);
    error::lemma_total_error(F64 { bits: ZERO }, ps, 1300);
    let z = fold::total(F64 { bits: ZERO }, ps).value();
    let b = bulk(ps);
    let nv = n * v;
    let nnv = (n * n) * v;
    assert(n * w == 4 * nv) by (nonlinear_arith)
        requires
            w == 4 * v,
            nv == n * v,
    ;
    assert(n * (20 * w) == 80 * nv) by (nonlinear_arith)
        requires
            w == 4 * v,
            nv == n * v,
    ;
    assert(2 * nv <= nnv) by (nonlinear_arith)
        requires
            nv == n * v,
            nnv == (n * n) * v,
            n >= 2,
            v > 0,
    {
        assert(nnv == n * nv);
        assert(nv > 0);
    }
    let g = abs(z - sum(ps));
    assert(z * u - u * sum(ps) == (z - sum(ps)) * u) by (nonlinear_arith);
    assert(abs((z - sum(ps)) * u) == g * u) by (nonlinear_arith)
        requires
            g == abs(z - sum(ps)),
            u > 0,
    ;
    assert(0x10_0000_0000_0000 * (g * u) <= 20 * nnv) by (nonlinear_arith)
        requires
            0x10_0000_0000_0000 * g <= n * b,
            b * u <= 20 * nv,
            nnv == (n * n) * v,
            nv == n * v,
            n >= 2,
            u > 0,
    {
        assert((0x10_0000_0000_0000 * g) * u <= (n * b) * u);
        assert((n * b) * u == n * (b * u));
        assert(n * (b * u) <= n * (20 * nv));
        assert(n * (20 * nv) == 20 * nnv);
    }
    assert(abs(z) * u <= (2 * b) * u) by (nonlinear_arith)
        requires
            abs(z) <= 2 * b,
            u > 0,
    ;
    assert((2 * b) * u == 2 * (b * u)) by (nonlinear_arith);
}

/// The errors of a slope, added up: `s` and `z` are the sums of products as computed, `c2` and
/// `c` as they are, and `b` is the quotient.
proof fn lemma_slope_steps(
    n: int,
    x: int,
    y: int,
    u: int,
    s: int,
    z: int,
    b: int,
    c: int,
    c2: int,
)
    requires
        n >= 2,
        u > 0,
        x > 0,
        y > 0,
        0x20_0000_0000_0000 * abs(z * u - c) <= 80 * ((n * n) * (x * y)),
        0x20_0000_0000_0000 * abs(s * u - c2) <= 80 * ((n * n) * (x * x)),
        0x20_0000_0000_0000 * abs(b * s - z * u) <= 21 * ((n * n) * (x * y)),
    ensures
        0x20_0000_0000_0000 * abs(u * c - b * c2) <= 101 * ((n * n) * (x * (u * y + abs(b) * x))),
{
    let big: int = 0x20_0000_0000_0000;
    let m = n * n;
    let w = m * (x * y);
    let v = m * (x * x);
    assert(v >= 0 && w >= 0) by (nonlinear_arith)
        requires
            v == m * (x * x),
            w == m * (x * y),
            m == n * n,
            n >= 2,
            x > 0,
            y > 0,
    {
        assert(x * x >= 0 && x * y >= 0 && m >= 0);
    }
    let e1 = b * (s * u - c2);
    let e2 = u * (b * s - z * u);
    let e3 = u * (z * u - c);
    assert(u * c - b * c2 == e1 - e2 - e3) by {
        assert(e1 == b * (s * u) - b * c2) by (nonlinear_arith)
            requires
                e1 == b * (s * u - c2),
        ;
        assert(e2 == u * (b * s) - u * (z * u)) by (nonlinear_arith)
            requires
                e2 == u * (b * s - z * u),
        ;
        assert(e3 == u * (z * u) - u * c) by (nonlinear_arith)
            requires
                e3 == u * (z * u - c),
        ;
        assert(b * (s * u) == u * (b * s)) by (nonlinear_arith);
    }
    assert(big * abs(e1) <= 80 * (abs(b) * v)) by (nonlinear_arith)
        requires
            e1 == b * (s * u - c2),
            big * abs(s * u - c2) <= 80 * v,
            big > 0,
    {
        let g = abs(s * u - c2);
        assert(abs(e1) == abs(b) * g);
        assert(abs(b) * (big * g) <= abs(b) * (80 * v));
    }
    assert(big * abs(e2) <= 21 * (u * w)) by (nonlinear_arith)
        requires
            e2 == u * (b * s - z * u),
            big * abs(b * s - z * u) <= 21 * w,
            u > 0,
            big > 0,
    {
        let g = abs(b * s - z * u);
        assert(abs(e2) == u * g);
        assert(u * (big * g) <= u * (21 * w));
    }
    assert(big * abs(e3) <= 80 * (u * w)) by (nonlinear_arith)
        requires
            e3 == u * (z * u - c),
            big * abs(z * u - c) <= 80 * w,
            u > 0,
            big > 0,
    {
        let g = abs(z * u - c);
        assert(abs(e3) == u * g);
        assert(u * (big * g) <= u * (80 * w));
    }
    let k = m * (x * (u * y + abs(b) * x));
    let h = abs(b);
    let xy = x * y;
    let xx = x * x;
    let l = x * (u * y + h * x);
    assert(l == u * xy + h * xx) by (nonlinear_arith)
        requires
            l == x * (u * y + h * x),
            xy == x * y,
            xx == x * x,
    ;
    assert(m * l == m * (u * xy) + m * (h * xx)) by (nonlinear_arith)
        requires
            l == u * xy + h * xx,
    ;
    assert(m * (u * xy) == u * (m * xy)) by (nonlinear_arith);
    assert(m * (h * xx) == h * (m * xx)) by (nonlinear_arith);
    assert(k == u * w + abs(b) * v);
    assert(abs(b) * v >= 0) by (nonlinear_arith)
        requires
            v >= 0,
    ;
}

/// The errors of an intercept, added up: `c` is the slope times the mean along the first axis as
/// computed, and `a` the intercept.
proof fn lemma_intercept_steps(x: int, y: int, u: int, b: int, mx: int, my: int, c: int, a: int)
    requires
        u > 0,
        x > 0,
        y >= 0x10_0000_0000_0000,
        abs(mx) <= 2 * x,
        abs(my) <= 2 * y,
        0x20_0000_0000_0000 * abs(c * u - b * mx) <= abs(b * mx) + 0x10_0000_0000_0000 * u,
        0x20_0000_0000_0000 * abs(a - (my - c)) <= abs(my - c),
    ensures
        0x20_0000_0000_0000 * abs(a * u - (my * u - b * mx)) <= 5 * (u * y + abs(b) * x),
{
    let big: int = 0x20_0000_0000_0000;
    let uy = u * y;
    let bx = abs(b) * x;
    assert(abs(b * mx) <= 2 * bx) by (nonlinear_arith)
        requires
            abs(mx) <= 2 * x,
            bx == abs(b) * x,
    {
        assert(abs(b * mx) == abs(b) * abs(mx));
    }
    assert(0x10_0000_0000_0000 * u <= uy) by (nonlinear_arith)
        requires
            y >= 0x10_0000_0000_0000,
            u > 0,
            uy == u * y,
    ;
    let e = a - (my - c);
    assert(a * u - my * u + c * u == e * u) by (nonlinear_arith)
        requires
            e == a - (my - c),
    ;
    assert(abs(e * u) == abs(e) * u) by (nonlinear_arith)
        requires
            u > 0,
    ;
    assert(abs(my - c) * u <= abs(my * u) + abs(c * u)) by (nonlinear_arith)
        requires
            u > 0,
    {
        assert(abs(my - c) * u == abs((my - c) * u));
        assert((my - c) * u == my * u - c * u);
    }
    assert(abs(my * u) <= 2 * uy) by (nonlinear_arith)
        requires
            abs(my) <= 2 * y,
            u > 0,
            uy == u * y,
    {
        assert(abs(my * u) == abs(my) * u);
    }
    assert(big * (abs(e) * u) <= abs(my * u) + abs(c * u)) by (nonlinear_arith)
        requires
            big * abs(e) <= abs(my - c),
            abs(my - c) * u <= abs(my * u) + abs(c * u),
            u > 0,
    {
        assert((big * abs(e)) * u <= abs(my - c) * u);
    }
    assert(bx >= 0) by (nonlinear_arith)
        requires
            bx == abs(b) * x,
            x > 0,
    ;
}

/// What is left of the points, expressed by the errors of the means and of the intercept: `e` is
/// the error of the intercept, and `d` that of the means.
proof fn lemma_remainders(xs: Seq<F64>, ys: Seq<F64>, a: F64, b: F64, mx: int, my: int)
    requires
        xs.len() == ys.len(),
    ensures
        ({
            let u = pow2(1074) as int;
            let n = xs.len() as int;
            let e = a.value() * u - (my * u - b.value() * mx);
            let d = u * (sum(ys) - n * my) - b.value() * (sum(xs) - n * mx);
            let c = isum(crosses(values(xs), values(ys), mx, my));
            let c2 = isum(crosses(values(xs), values(xs), mx, mx));
            &&& isum(remainders(xs, ys, a, b)) == d - n * e
            &&& isum(weighted(xs, ys, a, b)) == (u * c - b.value() * c2) - sum(xs) * e + mx * d
        }),
{
    let u = pow2(1074) as int;
    let n = xs.len() as int;
    let av = a.value();
    let bv = b.value();
    let vx = values(xs);
    let vy = values(ys);
    let z = zeros(xs.len());
    let sx = sum(xs);
    let sy = sum(ys);
    trend::lemma_zeros(xs.len());
    trend::lemma_turned_sum(xs, 1);
    trend::lemma_turned_sum(ys, 1);
    let r = remainders(xs, ys, a, b);
    assert forall|i: int| 0 <= i < r.len() implies #[trigger] r[i] == u * vy[i] + (-bv) * vx[i]
        + z[i] + (-(u * av)) by {
        let x = xs[i].value();
        assert(vx[i] == x && vy[i] == ys[i].value());
        assert((-bv) * x == -(bv * x)) by (nonlinear_arith);
    }
    trend::lemma_sum_combines(r, vy, vx, z, u, -bv, -(u * av));
    let q = weighted(xs, ys, a, b);
    let pxy = products(vx, vy);
    let pxx = products(vx, vx);
    let l = Seq::new(xs.len(), |i: int| (-(u * av)) * vx[i]);
    assert forall|i: int| 0 <= i < l.len() implies #[trigger] l[i] == (-(u * av)) * vx[i] + 0
        * z[i] + z[i] + 0 by {
        assert(0 * z[i] == 0);
    }
    trend::lemma_sum_combines(l, vx, z, z, -(u * av), 0, 0);
    assert forall|i: int| 0 <= i < q.len() implies #[trigger] q[i] == u * pxy[i] + (-bv) * pxx[i]
        + l[i] + 0 by {
        let x = xs[i].value();
        let y = ys[i].value();
        assert(vx[i] == x && vy[i] == y);
        assert((u * y - u * av - bv * x) * x == u * (x * y) + (-bv) * (x * x) + (-(u * av)) * x)
            by (nonlinear_arith);
    }
    trend::lemma_sum_combines(q, pxy, pxx, l, u, -bv, 0);
    trend::lemma_crosses(vx, vy, mx, my);
    trend::lemma_crosses(vx, vx, mx, mx);
    assert(n * 0 == 0);
    lemma_remainder_algebra(n, u, av, bv, mx, my, sx, sy, isum(pxy), isum(pxx));
}

proof fn lemma_remainder_algebra(
    n: int,
    u: int,
    a: int,
    b: int,
    mx: int,
    my: int,
    sx: int,
    sy: int,
    p: int,
    q: int,
)
    ensures
        ({
            let e = a * u - (my * u - b * mx);
            let d = u * (sy - n * my) - b * (sx - n * mx);
            let c = p - my * sx - mx * sy + n * (mx * my);
            let c2 = q - mx * sx - mx * sx + n * (mx * mx);
            &&& u * sy + (-b) * sx + n * (-(u * a)) == d - n * e
            &&& u * p + (-b) * q + (-(u * a)) * sx == (u * c - b * c2) - sx * e + mx * d
        }),
{
    let e = a * u - (my * u - b * mx);
    let d = u * (sy - n * my) - b * (sx - n * mx);
    let c = p - my * sx - mx * sy + n * (mx * my);
    let c2 = q - mx * sx - mx * sx + n * (mx * mx);
    assert(n * e == n * (a * u) - n * (my * u) + n * (b * mx)) by (nonlinear_arith)
        requires
            e == a * u - (my * u - b * mx),
    ;
    assert(d == u * sy - u * (n * my) - b * sx + b * (n * mx)) by (nonlinear_arith)
        requires
            d == u * (sy - n * my) - b * (sx - n * mx),
    ;
    assert(u * (n * my) == n * (my * u)) by (nonlinear_arith);
    assert(b * (n * mx) == n * (b * mx)) by (nonlinear_arith);
    assert(n * (-(u * a)) == -(n * (a * u))) by (nonlinear_arith);
    assert((-b) * sx == -(b * sx)) by (nonlinear_arith);
    assert(u * c == u * p - u * (my * sx) - u * (mx * sy) + u * (n * (mx * my)))
        by (nonlinear_arith)
        requires
            c == p - my * sx - mx * sy + n * (mx * my),
    ;
    assert(b * c2 == b * q - 2 * (b * (mx * sx)) + b * (n * (mx * mx))) by (nonlinear_arith)
        requires
            c2 == q - mx * sx - mx * sx + n * (mx * mx),
    ;
    assert(sx * e == sx * (a * u) - sx * (my * u) + sx * (b * mx)) by (nonlinear_arith)
        requires
            e == a * u - (my * u - b * mx),
    ;
    assert(mx * d == mx * (u * sy) - mx * (u * (n * my)) - mx * (b * sx) + mx * (b * (n * mx)))
        by (nonlinear_arith)
        requires
            d == u * sy - u * (n * my) - b * sx + b * (n * mx),
    ;
    assert(u * (my * sx) == sx * (my * u)) by (nonlinear_arith);
    assert(u * (mx * sy) == mx * (u * sy)) by (nonlinear_arith);
    assert(u * (n * (mx * my)) == mx * (u * (n * my))) by (nonlinear_arith);
    assert(b * (mx * sx) == sx * (b * mx)) by (nonlinear_arith);
    assert(b * (mx * sx) == mx * (b * sx)) by (nonlinear_arith);
    assert(b * (n * (mx * mx)) == mx * (b * (n * mx))) by (nonlinear_arith);
    assert((-(u * a)) * sx == -(sx * (a * u))) by (nonlinear_arith);
    assert((-b) * q == -(b * q)) by (nonlinear_arith);
}

/// The last steps: `f` is what the slope leaves, `e` the error of the intercept, `d` that of the
/// means, and `k` the size of the line.
proof fn lemma_least_steps(
    n: int,
    x: int,
    k: int,
    f: int,
    e: int,
    d: int,
    sx: int,
    mx: int,
    r: int,
    q: int,
)
    requires
        n >= 2,
        x > 0,
        k >= 0,
        r == d - n * e,
        q == f - sx * e + mx * d,
        abs(sx) <= n * x,
        abs(mx) <= 2 * x,
        0x20_0000_0000_0000 * abs(f) <= 101 * ((n * n) * (x * k)),
        0x20_0000_0000_0000 * abs(e) <= 5 * k,
        0x20_0000_0000_0000 * abs(d) <= 7 * ((n * n) * k),
    ensures
        0x2_0000_0000_0000 * abs(r) <= (n * n) * k,
        0x4000_0000_0000 * abs(q) <= (n * n) * (x * k),
{
    let big: int = 0x20_0000_0000_0000;
    let m = n * n;
    let mk = m * k;
    let nk = n * k;
    assert(2 * nk <= mk && nk >= 0) by (nonlinear_arith)
        requires
            m == n * n,
            mk == m * k,
            nk == n * k,
            n >= 2,
            k >= 0,
    {
        assert(mk == n * nk);
    }
    assert(big * abs(n * e) <= 5 * nk) by (nonlinear_arith)
        requires
            big * abs(e) <= 5 * k,
            nk == n * k,
            n >= 2,
            big > 0,
    {
        assert(abs(n * e) == n * abs(e));
        assert(n * (big * abs(e)) <= n * (5 * k));
    }
    assert(big * abs(r) <= 10 * mk);
    let xk = x * k;
    let mxk = m * xk;
    let nxk = n * xk;
    assert(mxk == x * mk) by (nonlinear_arith)
        requires
            mxk == m * xk,
            xk == x * k,
            mk == m * k,
    ;
    assert(2 * nxk <= mxk && nxk >= 0) by (nonlinear_arith)
        requires
            m == n * n,
            mxk == m * xk,
            nxk == n * xk,
            n >= 2,
            xk == x * k,
            x > 0,
            k >= 0,
    {
        assert(xk >= 0);
        assert(mxk == n * nxk);
    }
    assert(big * abs(sx * e) <= 5 * nxk) by (nonlinear_arith)
        requires
            abs(sx) <= n * x,
            big * abs(e) <= 5 * k,
            nxk == n * xk,
            xk == x * k,
            big > 0,
    {
        assert(abs(sx * e) == abs(sx) * abs(e));
        assert(abs(sx) * (big * abs(e)) <= (n * x) * (5 * k));
        assert((n * x) * (5 * k) == 5 * (n * (x * k)));
    }
    assert(big * abs(mx * d) <= 14 * mxk) by (nonlinear_arith)
        requires
            abs(mx) <= 2 * x,
            big * abs(d) <= 7 * mk,
            mxk == x * mk,
            big > 0,
    {
        assert(abs(mx * d) == abs(mx) * abs(d));
        assert(abs(mx) * (big * abs(d)) <= (2 * x) * (7 * mk));
        assert((2 * x) * (7 * mk) == 14 * (x * mk));
    }
    assert(big * abs(q) <= 118 * mxk);
}

/// A line computed as the least-squares line is one: what is left of the points cancels out.
pub proof fn lemma_normal_equations(xs: Seq<F64>, ys: Seq<F64>, a: F64, b: F64, x: int, y: int)
    requires
        xs.len() == ys.len(),
        2 <= xs.len() <= MOST,
        all_finite(xs),
        all_finite(ys),
        reaches(xs, x),
        reaches(ys, y),
        are_bounds(x, y),
        ({
            let s = fold::total(F64 { bits: ZERO }, moments(xs, mean(xs), xs, mean(xs)));
            let z = fold::total(F64 { bits: ZERO }, moments(xs, mean(xs), ys, mean(ys)));
            &&& s.value() > 0
            &&& b == z.div_spec(s)
        }),
        b.is_finite_spec(),
        a == mean(ys).sub_spec(b.mul_spec(mean(xs))),
        a.is_finite_spec(),
    ensures
        is_least_squares(xs, ys, a, b, x, y),
{
    let n = xs.len() as int;
    let u = pow2(1074) as int;
    let mx = mean(xs).value();
    let my = mean(ys).value();
    let s = fold::total(F64 { bits: ZERO }, moments(xs, mean(xs), xs, mean(xs)));
    let z = fold::total(F64 { bits: ZERO }, moments(xs, mean(xs), ys, mean(ys)));
    let bv = b.value();
    lemma_pow2_pos(1074);
    lemma_pow2_pos(1000);
    bounds::lemma_pow2_order(1000, 1074);
    bounds::lemma_pow2_order(1138, 1201);
    lemma_pow2_unfold(1139);
    lemma_pow2_unfold(1202);
    lemma_mean(xs, x);
    lemma_mean(ys, y);
    lemma_moment(xs, ys, x, y);
    lemma_moment(xs, xs, x, x);
    let c = isum(crosses(values(xs), values(ys), mx, my));
    let c2 = isum(crosses(values(xs), values(xs), mx, mx));
    // The slope.
    error::lemma_finite_quotient(z, s);
    let sv = s.value();
    let zv = z.value();
    let w = x * y;
    let nw = n * w;
    let nnw = (n * n) * w;
    assert(w > 0) by (nonlinear_arith)
        requires
            w == x * y,
            x > 0,
            y > 0,
    ;
    assert(2 * nw <= nnw && nw > 0) by (nonlinear_arith)
        requires
            nw == n * w,
            nnw == (n * n) * w,
            n >= 2,
            w > 0,
    {
        assert(nnw == n * nw);
    }
    assert(0x10_0000_0000_0000 * sv <= nw) by {
        lemma2_to64();
        lemma2_to64_rest();
        lemma_pow2_adds(58, 1138);
        lemma_pow2_adds(1074, 1000);
        bounds::lemma_pow2_order(1196, 2074);
        let v = n * (x * x);
        assert(abs(sv) * u == sv * u);
        assert(0x400_0000_0000_0000 * x <= u * y) by (nonlinear_arith)
            requires
                x <= pow2(1138),
                0x400_0000_0000_0000 * pow2(1138) == pow2(1196),
                pow2(1196) <= pow2(2074),
                pow2(2074) == u * pow2(1000),
                y >= pow2(1000),
                u > 0,
        ;
        assert(0x10_0000_0000_0000 * sv <= nw) by (nonlinear_arith)
            requires
                sv * u <= 40 * v,
                v == n * (x * x),
                0x400_0000_0000_0000 * x <= u * y,
                nw == n * (x * y),
                n >= 2,
                x > 0,
                y > 0,
                u > 0,
        {
            let nx = n * x;
            assert(nx > 0);
            assert(nx * (0x400_0000_0000_0000 * x) <= nx * (u * y));
            assert(nx * (0x400_0000_0000_0000 * x) == 0x400_0000_0000_0000 * v);
            assert(nx * (u * y) == nw * u);
            assert(0x10_0000_0000_0000 * (sv * u) <= 0x10_0000_0000_0000 * (40 * v));
            assert(v >= 0);
            assert((0x10_0000_0000_0000 * sv) * u <= nw * u);
        }
    }
    lemma_slope_steps(n, x, y, u, sv, zv, bv, c, c2);
    // The intercept.
    let g = b.mul_spec(mean(xs));
    error::lemma_finite_difference(mean(ys), g);
    error::lemma_finite_product(b, mean(xs));
    lemma2_to64_rest();
    bounds::lemma_pow2_order(52, 1000);
    lemma_intercept_steps(x, y, u, bv, mx, my, g.value(), a.value());
    // Together.
    let k = size_of(b, x, y);
    let e = a.value() * u - (my * u - bv * mx);
    let ex = sum(xs) - n * mx;
    let ey = sum(ys) - n * my;
    let d = u * ey - bv * ex;
    let m = n * n;
    assert(k >= 0) by (nonlinear_arith)
        requires
            k == u * y + abs(bv) * x,
            u > 0,
            y > 0,
            x > 0,
    ;
    assert(0x20_0000_0000_0000 * abs(d) <= 7 * (m * k)) by (nonlinear_arith)
        requires
            d == u * ey - bv * ex,
            0x20_0000_0000_0000 * abs(ex) <= 7 * (m * x),
            0x20_0000_0000_0000 * abs(ey) <= 7 * (m * y),
            k == u * y + abs(bv) * x,
            u > 0,
    {
        let big: int = 0x20_0000_0000_0000;
        assert(abs(u * ey) == u * abs(ey));
        assert(abs(bv * ex) == abs(bv) * abs(ex));
        assert(u * (big * abs(ey)) <= u * (7 * (m * y)));
        assert(abs(bv) * (big * abs(ex)) <= abs(bv) * (7 * (m * x)));
        assert(u * (7 * (m * y)) + abs(bv) * (7 * (m * x)) == 7 * (m * k));
    }
    lemma_remainders(xs, ys, a, b, mx, my);
    lemma_least_steps(
        n,
        x,
        k,
        u * c - bv * c2,
        e,
        d,
        sum(xs),
        mx,
        isum(remainders(xs, ys, a, b)),
        isum(weighted(xs, ys, a, b)),
    );
}

/// What is left of the points, added up, by sums over the points alone.
proof fn lemma_sums(xs: Seq<F64>, ys: Seq<F64>, a: F64, b: F64)
    requires
        xs.len() == ys.len(),
    ensures
        ({
            let u = pow2(1074) as int;
            let n = xs.len() as int;
            &&& isum(remainders(xs, ys, a, b)) == u * sum(ys) - b.value() * sum(xs) - n * (a.value()
                * u)
            &&& isum(weighted(xs, ys, a, b)) == u * isum(products(values(xs), values(ys)))
                - b.value() * isum(products(values(xs), values(xs))) - sum(xs) * (a.value() * u)
        }),
{
    let u = pow2(1074) as int;
    let n = xs.len() as int;
    lemma_remainders(xs, ys, a, b, 0, 0);
    trend::lemma_crosses(values(xs), values(ys), 0, 0);
    trend::lemma_crosses(values(xs), values(xs), 0, 0);
    lemma_mul_basics(u);
    lemma_mul_basics(b.value());
    lemma_mul_basics(n);
    lemma_mul_basics(isum(values(xs)));
    lemma_mul_basics(isum(values(ys)));
    lemma_mul_basics(u * (sum(ys) - 0) - b.value() * (sum(xs) - 0));
    assert(n * 0 == 0);
    assert(0 * u == 0);
}

/// The slope of a least-squares line is how the axes go together over the spread: the slope times
/// the one is the other, to within one part in two to the power of forty-five for each triple of
/// points.
pub proof fn law_the_slope_is_the_trend_over_the_spread(
    xs: Seq<F64>,
    ys: Seq<F64>,
    a: F64,
    b: F64,
    x: int,
    y: int,
)
    requires
        xs.len() == ys.len(),
        xs.len() >= 1,
        reaches(xs, x),
        x >= 0,
        y >= 0,
        is_least_squares(xs, ys, a, b, x, y),
    ensures
        ({
            let n = xs.len() as int;
            0x2000_0000_0000 * abs(
                pow2(1074) * trend_of(values(xs), values(ys)) - b.value() * spread(values(xs)),
            ) <= (n * n * n) * (x * size_of(b, x, y))
        }),
{
    let n = xs.len() as int;
    let u = pow2(1074) as int;
    let av = a.value();
    let bv = b.value();
    let k = size_of(b, x, y);
    let sx = sum(xs);
    let sy = sum(ys);
    let p = isum(products(values(xs), values(ys)));
    let q = isum(products(values(xs), values(xs)));
    lemma_sums(xs, ys, a, b);
    trend::lemma_turned_sum(xs, 1);
    trend::lemma_turned_sum(ys, 1);
    lemma_bulk_reaches(xs, x);
    error::lemma_sum_within_bulk(xs);
    lemma_pow2_pos(1074);
    let r = isum(remainders(xs, ys, a, b));
    let t = isum(weighted(xs, ys, a, b));
    let e = av * u;
    assert(n * t == n * (u * p) - n * (bv * q) - n * (sx * e)) by (nonlinear_arith)
        requires
            t == u * p - bv * q - sx * e,
    ;
    assert(sx * r == sx * (u * sy) - sx * (bv * sx) - sx * (n * e)) by (nonlinear_arith)
        requires
            r == u * sy - bv * sx - n * e,
    ;
    assert(n * (sx * e) == sx * (n * e)) by (nonlinear_arith);
    assert(u * (n * p - sx * sy) == n * (u * p) - sx * (u * sy)) by (nonlinear_arith);
    assert(bv * (n * q - sx * sx) == n * (bv * q) - sx * (bv * sx)) by (nonlinear_arith);
    let d = u * (n * p - sx * sy) - bv * (n * q - sx * sx);
    assert(d == n * t - sx * r);
    let xk = x * k;
    let m = n * n;
    let c = n * n * n;
    assert(k >= 0) by (nonlinear_arith)
        requires
            k == u * y + abs(bv) * x,
            u > 0,
            y >= 0,
            x >= 0,
    ;
    assert(c * xk >= 0) by (nonlinear_arith)
        requires
            c == n * n * n,
            xk == x * k,
            n >= 1,
            x >= 0,
            k >= 0,
    {
        assert(xk >= 0);
        assert(c >= 0);
    }
    assert(0x4000_0000_0000 * abs(n * t) <= c * xk) by (nonlinear_arith)
        requires
            0x4000_0000_0000 * abs(t) <= m * xk,
            m == n * n,
            c == n * n * n,
            n >= 1,
    {
        assert(abs(n * t) == n * abs(t));
        assert(n * (0x4000_0000_0000 * abs(t)) <= n * (m * xk));
        assert(n * (m * xk) == c * xk);
    }
    assert(0x2_0000_0000_0000 * abs(sx * r) <= c * xk) by (nonlinear_arith)
        requires
            0x2_0000_0000_0000 * abs(r) <= m * k,
            abs(sx) <= n * x,
            m == n * n,
            c == n * n * n,
            xk == x * k,
            n >= 1,
            x >= 0,
    {
        assert(abs(sx * r) == abs(sx) * abs(r));
        assert(abs(sx) * (0x2_0000_0000_0000 * abs(r)) <= (n * x) * (m * k));
        assert((n * x) * (m * k) == c * xk);
    }
}

/// Axes that move together have a trend that is not negative.
proof fn lemma_trend_sign(a: Seq<int>, b: Seq<int>)
    requires
        together(a, b),
    ensures
        trend_of(a, b) >= 0,
{
    trend::lemma_rows(a, b);
    let r = rows(a, b);
    if a.len() > 0 {
        assert forall|i: int| 0 <= i < r.len() implies #[trigger] r[i] >= 0 by {
            let ri = row(a, b, i);
            assert forall|k: int| 0 <= k < ri.len() implies #[trigger] ri[k] >= 0 by {
                trend::lemma_pair(a, b, i, k);
            }
            trend::lemma_sum_holds(ri, 0, 0);
            assert(ri[0] >= 0);
        }
        trend::lemma_sum_holds(r, 0, 0);
        assert(r[0] >= 0);
    } else {
        assert(r =~= Seq::<int>::empty());
    }
}

/// The trend against an axis turned over is the trend turned over.
proof fn lemma_trend_turned(xs: Seq<F64>, ys: Seq<F64>)
    requires
        xs.len() == ys.len(),
    ensures
        trend_of(values(xs), turned(ys, -1)) == -trend_of(values(xs), values(ys)),
{
    let n = xs.len() as int;
    let a = values(xs);
    let b = values(ys);
    let c = turned(ys, -1);
    let z = zeros(xs.len());
    trend::lemma_zeros(xs.len());
    trend::lemma_turned_sum(ys, -1);
    trend::lemma_turned_sum(ys, 1);
    let p = products(a, c);
    let q = products(a, b);
    assert forall|i: int| 0 <= i < p.len() implies #[trigger] p[i] == (-1) * q[i] + 0 * z[i] + z[i]
        + 0 by {
        let x = a[i];
        let y = ys[i].value();
        assert(c[i] == -y && b[i] == y);
        assert(x * (-y) == -(x * y)) by (nonlinear_arith);
    }
    trend::lemma_sum_combines(p, q, z, z, -1, 0, 0);
    let s = isum(a);
    let t = isum(b);
    assert(n * (-isum(q)) == -(n * isum(q))) by (nonlinear_arith);
    assert(s * (-t) == -(s * t)) by (nonlinear_arith);
}

/// The spread of some values is at least the squared distance of any two of them.
pub proof fn law_the_spread_holds_every_distance(a: Seq<int>, i: int, j: int)
    requires
        0 <= i < a.len(),
        0 <= j < a.len(),
    ensures
        spread(a) >= (a[i] - a[j]) * (a[i] - a[j]),
{
    assert(together(a, a));
    trend::lemma_rows(a, a);
    let r = rows(a, a);
    assert forall|k: int| 0 <= k < r.len() implies #[trigger] r[k] >= 0 by {
        let rk = row(a, a, k);
        assert forall|l: int| 0 <= l < rk.len() implies #[trigger] rk[l] >= 0 by {
            trend::lemma_pair(a, a, k, l);
        }
        trend::lemma_sum_holds(rk, 0, 0);
        assert(rk[0] >= 0);
    }
    if i == j {
        trend::lemma_sum_holds(r, i, i);
        assert(r[i] >= 0);
        lemma_mul_basics(0);
    } else {
        let ri = row(a, a, i);
        let rj = row(a, a, j);
        assert forall|l: int| 0 <= l < ri.len() implies #[trigger] ri[l] >= 0 by {
            trend::lemma_pair(a, a, i, l);
        }
        assert forall|l: int| 0 <= l < rj.len() implies #[trigger] rj[l] >= 0 by {
            trend::lemma_pair(a, a, j, l);
        }
        trend::lemma_sum_holds(ri, j, j);
        trend::lemma_sum_holds(rj, i, i);
        trend::lemma_pair(a, a, i, j);
        assert(ri[j] == pair(a, a, i, j) && rj[i] == pair(a, a, j, i));
        trend::lemma_sum_holds(r, i, j);
    }
}

/// Whether a point further along the first axis never lies higher on the second.
pub open spec fn never_rises(xs: Seq<F64>, ys: Seq<F64>) -> bool {
    forall|i: int, j: int|
        0 <= i < xs.len() && 0 <= j < xs.len() && (#[trigger] xs[i]).value() < (
        #[trigger] xs[j]).value() ==> ys[i].value() >= ys[j].value()
}

/// Whether a point further along the first axis never lies lower on the second.
pub open spec fn never_falls(xs: Seq<F64>, ys: Seq<F64>) -> bool {
    forall|i: int, j: int|
        0 <= i < xs.len() && 0 <= j < xs.len() && (#[trigger] xs[i]).value() < (
        #[trigger] xs[j]).value() ==> ys[i].value() <= ys[j].value()
}

/// Points that never rise have a slope that is not positive, and points that never fall one that
/// is not negative, as far as the rounding lets it be told.
pub proof fn law_the_slope_goes_where_the_points_go(
    xs: Seq<F64>,
    ys: Seq<F64>,
    a: F64,
    b: F64,
    x: int,
    y: int,
)
    requires
        xs.len() == ys.len(),
        xs.len() >= 1,
        reaches(xs, x),
        x >= 0,
        y >= 0,
        is_least_squares(xs, ys, a, b, x, y),
    ensures
        ({
            let n = xs.len() as int;
            let slack = (n * n * n) * (x * size_of(b, x, y));
            &&& never_rises(xs, ys) ==> 0x2000_0000_0000 * (b.value() * spread(values(xs))) <= slack
            &&& never_falls(xs, ys) ==> 0x2000_0000_0000 * (b.value() * spread(values(xs)))
                >= -slack
        }),
{
    law_the_slope_is_the_trend_over_the_spread(xs, ys, a, b, x, y);
    let u = pow2(1074) as int;
    lemma_pow2_pos(1074);
    let t = trend_of(values(xs), values(ys));
    let vx = values(xs);
    if never_rises(xs, ys) {
        let vy = turned(ys, -1);
        assert forall|i: int, j: int|
            0 <= i < vx.len() && 0 <= j < vx.len() && #[trigger] vx[i] < #[trigger] vx[j] implies vy[i]
            <= vy[j] by {
            assert(vx[i] == xs[i].value() && vx[j] == xs[j].value());
        }
        lemma_trend_sign(vx, vy);
        lemma_trend_turned(xs, ys);
        assert(u * t <= 0) by (nonlinear_arith)
            requires
                u > 0,
                t <= 0,
        ;
    }
    if never_falls(xs, ys) {
        let vy = values(ys);
        assert forall|i: int, j: int|
            0 <= i < vx.len() && 0 <= j < vx.len() && #[trigger] vx[i] < #[trigger] vx[j] implies vy[i]
            <= vy[j] by {
            assert(vx[i] == xs[i].value() && vx[j] == xs[j].value());
        }
        lemma_trend_sign(vx, vy);
        assert(u * t >= 0) by (nonlinear_arith)
            requires
                u > 0,
                t >= 0,
        ;
    }
}

/// Whether no point is further than `t` from the line `a0 + b0 * x`.
pub open spec fn near_a_line(xs: Seq<F64>, ys: Seq<F64>, a0: F64, b0: F64, t: int) -> bool {
    forall|i: int|
        0 <= i < xs.len() ==> abs(above(#[trigger] xs[i], ys[i], a0, b0)) <= t
}

/// What is left of points near a line, added up.
proof fn lemma_near(xs: Seq<F64>, ys: Seq<F64>, a0: F64, b0: F64, t: int, x: int)
    requires
        xs.len() == ys.len(),
        reaches(xs, x),
        near_a_line(xs, ys, a0, b0, t),
        x >= 0,
        t >= 0,
    ensures
        abs(isum(remainders(xs, ys, a0, b0))) <= xs.len() * t,
        abs(isum(weighted(xs, ys, a0, b0))) <= xs.len() * (t * x),
    decreases xs.len(),
{
    let n = xs.len() as int;
    let r = remainders(xs, ys, a0, b0);
    let w = weighted(xs, ys, a0, b0);
    let tx = t * x;
    if n == 0 {
        assert(r =~= Seq::<int>::empty());
        assert(w =~= Seq::<int>::empty());
        lemma_mul_basics(t);
        lemma_mul_basics(tx);
    } else {
        let xs1 = xs.drop_last();
        let ys1 = ys.drop_last();
        assert forall|i: int| 0 <= i < xs1.len() implies abs((#[trigger] xs1[i]).value())
            <= x by {
            assert(xs1[i] == xs[i]);
        }
        assert forall|i: int| 0 <= i < xs1.len() implies abs(
            above(#[trigger] xs1[i], ys1[i], a0, b0),
        ) <= t by {
            assert(xs1[i] == xs[i]);
        }
        lemma_near(xs1, ys1, a0, b0, t, x);
        assert(r.drop_last() =~= remainders(xs1, ys1, a0, b0));
        assert(w.drop_last() =~= weighted(xs1, ys1, a0, b0));
        let h = above(xs[n - 1], ys[n - 1], a0, b0);
        let v = xs[n - 1].value();
        assert(abs(h) <= t && abs(v) <= x);
        assert(abs(h * v) <= tx) by (nonlinear_arith)
            requires
                abs(h) <= t,
                abs(v) <= x,
                tx == t * x,
        {
            assert(abs(h * v) == abs(h) * abs(v));
        }
        assert((n - 1) * t + t == n * t) by (nonlinear_arith);
        assert((n - 1) * tx + tx == n * tx) by (nonlinear_arith);
    }
}

/// Points near a line give it back: the slope of their least-squares line differs from that of
/// the line by no more than how far the points are off it, over their spread, and the intercept
/// by no more than that and what the slopes differ by makes of it.
pub proof fn law_points_near_a_line_give_it_back(
    xs: Seq<F64>,
    ys: Seq<F64>,
    a: F64,
    b: F64,
    x: int,
    y: int,
    a0: F64,
    b0: F64,
    t: int,
)
    requires
        xs.len() == ys.len(),
        xs.len() >= 1,
        reaches(xs, x),
        x >= 0,
        y >= 0,
        t >= 0,
        is_least_squares(xs, ys, a, b, x, y),
        near_a_line(xs, ys, a0, b0, t),
    ensures
        ({
            let n = xs.len() as int;
            let k = size_of(b, x, y);
            let off = abs(b.value() - b0.value());
            &&& 0x2000_0000_0000 * (off * spread(values(xs))) <= (n * n * n) * (x * k)
                + 0x4000_0000_0000 * ((n * n) * (x * t))
            &&& 0x2_0000_0000_0000 * (pow2(1074) * abs(a.value() - a0.value())) <= n * k
                + 0x2_0000_0000_0000 * (t + off * x)
        }),
{
    let n = xs.len() as int;
    let u = pow2(1074) as int;
    let k = size_of(b, x, y);
    let bv = b.value();
    let bz = b0.value();
    let sx = sum(xs);
    let sy = sum(ys);
    let p = isum(products(values(xs), values(ys)));
    let q = isum(products(values(xs), values(xs)));
    law_the_slope_is_the_trend_over_the_spread(xs, ys, a, b, x, y);
    lemma_near(xs, ys, a0, b0, t, x);
    lemma_sums(xs, ys, a0, b0);
    lemma_sums(xs, ys, a, b);
    trend::lemma_turned_sum(xs, 1);
    trend::lemma_turned_sum(ys, 1);
    lemma_bulk_reaches(xs, x);
    error::lemma_sum_within_bulk(xs);
    lemma_pow2_pos(1074);
    let r = isum(remainders(xs, ys, a0, b0));
    let w = isum(weighted(xs, ys, a0, b0));
    let e = a0.value() * u;
    assert(n * w == n * (u * p) - n * (bz * q) - n * (sx * e)) by (nonlinear_arith)
        requires
            w == u * p - bz * q - sx * e,
    ;
    assert(sx * r == sx * (u * sy) - sx * (bz * sx) - sx * (n * e)) by (nonlinear_arith)
        requires
            r == u * sy - bz * sx - n * e,
    ;
    assert(n * (sx * e) == sx * (n * e)) by (nonlinear_arith);
    assert(u * (n * p - sx * sy) == n * (u * p) - sx * (u * sy)) by (nonlinear_arith);
    assert(bz * (n * q - sx * sx) == n * (bz * q) - sx * (bz * sx)) by (nonlinear_arith);
    let s = n * q - sx * sx;
    let tr = u * (n * p - sx * sy);
    assert(tr - bz * s == n * w - sx * r);
    let xt = x * t;
    let m = n * n;
    assert(abs(n * w) <= m * xt) by (nonlinear_arith)
        requires
            abs(w) <= n * (t * x),
            m == n * n,
            xt == x * t,
            n >= 1,
    {
        assert(abs(n * w) == n * abs(w));
        assert(n * abs(w) <= n * (n * (t * x)));
        assert(n * (n * (t * x)) == m * xt);
    }
    assert(abs(sx * r) <= m * xt) by (nonlinear_arith)
        requires
            abs(sx) <= n * x,
            abs(r) <= n * t,
            m == n * n,
            xt == x * t,
    {
        assert(abs(sx * r) == abs(sx) * abs(r));
        assert(abs(sx) * abs(r) <= (n * x) * (n * t));
        assert((n * x) * (n * t) == m * xt);
    }
    let off = abs(bv - bz);
    law_the_spread_holds_every_distance(values(xs), 0, 0);
    lemma_mul_basics(0);
    assert(off * s == abs(bv * s - bz * s)) by (nonlinear_arith)
        requires
            off == abs(bv - bz),
            s >= 0,
    {
        assert(bv * s - bz * s == (bv - bz) * s);
    }
    // The intercept.
    let r1 = isum(remainders(xs, ys, a, b));
    let g = a.value() - a0.value();
    assert(n * (a.value() * u) - n * e == n * (u * g)) by (nonlinear_arith)
        requires
            g == a.value() - a0.value(),
            e == a0.value() * u,
    ;
    assert(bv * sx - bz * sx == (bv - bz) * sx) by (nonlinear_arith);
    assert(n * (u * g) == r - r1 - (bv - bz) * sx);
    let ox = off * x;
    assert(abs((bv - bz) * sx) <= n * ox) by (nonlinear_arith)
        requires
            off == abs(bv - bz),
            abs(sx) <= n * x,
            ox == off * x,
    {
        assert(abs((bv - bz) * sx) == off * abs(sx));
        assert(off * abs(sx) <= off * (n * x));
        assert(off * (n * x) == n * ox);
    }
    let ug = u * abs(g);
    assert(abs(n * (u * g)) == n * ug) by (nonlinear_arith)
        requires
            ug == u * abs(g),
            u > 0,
            n >= 1,
    {
        assert(abs(u * g) == u * abs(g));
    }
    let big: int = 0x2_0000_0000_0000;
    assert(big * (n * ug) <= m * k + big * (n * t) + big * (n * ox));
    assert(big * ug <= n * k + big * (t + ox)) by (nonlinear_arith)
        requires
            big * (n * ug) <= m * k + big * (n * t) + big * (n * ox),
            m == n * n,
            n >= 1,
    {
        assert(n * (big * ug) <= n * (n * k + big * (t + ox)));
    }
}

} // verus!
