//! The direction of a fitted line.
//!
//! Least squares takes the sign of a slope from a sum of products of distances from two means.
//! For values that move together along both axes that sum is positive, by far more than the
//! rounding of its terms can take away.

use crate::audio::writer::DriftObservation;
use crate::clock::mean;
use crate::finalize;
use crate::finalize::{beta_of, dxs, dys, fit_of, has_line, is_usable, sxx_of};
use crate::float::accuracy;
use crate::float::bounds;
use crate::float::bounds::{size, within};
use crate::float::error;
use crate::float::error::{abs, all_finite, bulk, sum, MOST};
use crate::float::fold;
use crate::float::ops;
use crate::float::ops::Width;
use crate::float::F64;
use crate::time;
use crate::time::{GIGA, ONE, ZERO};
use vstd::arithmetic::power2::*;
use vstd::prelude::*;

verus! {

/// The sum of some integers.
pub open spec fn isum(v: Seq<int>) -> int
    decreases v.len(),
{
    if v.len() == 0 {
        0
    } else {
        isum(v.drop_last()) + v.last()
    }
}

/// A sum grows with its terms.
pub proof fn lemma_sum_grows(u: Seq<int>, v: Seq<int>)
    requires
        u.len() == v.len(),
        forall|i: int| 0 <= i < u.len() ==> #[trigger] u[i] <= v[i],
    ensures
        isum(u) <= isum(v),
    decreases u.len(),
{
    if u.len() > 0 {
        let u1 = u.drop_last();
        let v1 = v.drop_last();
        assert forall|i: int| 0 <= i < u1.len() implies #[trigger] u1[i] <= v1[i] by {
            assert(u1[i] == u[i]);
        }
        lemma_sum_grows(u1, v1);
        assert(u[u.len() - 1] <= v[u.len() - 1]);
    }
}

/// The sum of a combination is the combination of the sums.
pub proof fn lemma_sum_combines(
    w: Seq<int>,
    u: Seq<int>,
    v: Seq<int>,
    z: Seq<int>,
    c: int,
    d: int,
    e: int,
)
    requires
        w.len() == u.len(),
        w.len() == v.len(),
        w.len() == z.len(),
        forall|i: int| 0 <= i < w.len() ==> #[trigger] w[i] == c * u[i] + d * v[i] + z[i] + e,
    ensures
        isum(w) == c * isum(u) + d * isum(v) + isum(z) + w.len() * e,
    decreases w.len(),
{
    let n = w.len() as int;
    if n == 0 {
        assert(c * 0 == 0 && d * 0 == 0 && 0 * e == 0);
    } else {
        let w1 = w.drop_last();
        let u1 = u.drop_last();
        let v1 = v.drop_last();
        let z1 = z.drop_last();
        assert forall|i: int| 0 <= i < w1.len() implies #[trigger] w1[i] == c * u1[i] + d * v1[i]
            + z1[i] + e by {
            assert(w1[i] == w[i]);
        }
        lemma_sum_combines(w1, u1, v1, z1, c, d, e);
        assert(w[n - 1] == c * u[n - 1] + d * v[n - 1] + z[n - 1] + e);
        let s = isum(u1);
        let t = isum(v1);
        assert(c * (s + u.last()) == c * s + c * u.last()) by (nonlinear_arith);
        assert(d * (t + v.last()) == d * t + d * v.last()) by (nonlinear_arith);
        assert(n * e == (n - 1) * e + e) by (nonlinear_arith);
    }
}

/// So many zeros.
pub open spec fn zeros(n: nat) -> Seq<int> {
    Seq::new(n, |i: int| 0)
}

pub proof fn lemma_zeros(n: nat)
    ensures
        isum(zeros(n)) == 0,
    decreases n,
{
    if n > 0 {
        assert(zeros(n).drop_last() =~= zeros((n - 1) as nat));
        lemma_zeros((n - 1) as nat);
    }
}

/// A sum of terms none of which is negative is at least any one of them, and any two.
pub proof fn lemma_sum_holds(v: Seq<int>, p: int, q: int)
    requires
        forall|i: int| 0 <= i < v.len() ==> #[trigger] v[i] >= 0,
        0 <= p < v.len(),
        0 <= q < v.len(),
    ensures
        v[p] <= isum(v),
        p != q ==> v[p] + v[q] <= isum(v),
    decreases v.len(),
{
    let n = v.len() as int;
    let w = v.drop_last();
    assert forall|i: int| 0 <= i < w.len() implies #[trigger] w[i] >= 0 by {
        assert(w[i] == v[i]);
    }
    assert(v[n - 1] >= 0 && v[p] >= 0 && v[q] >= 0);
    if n == 1 {
        assert(isum(w) == 0);
    } else {
        let a = if p == n - 1 {
            0
        } else {
            p
        };
        let b = if q == n - 1 {
            0
        } else {
            q
        };
        lemma_sum_holds(w, a, b);
        assert(w[a] >= 0 && w[b] >= 0);
    }
}

/// Two sequences that move together: where one is greater the other is no less.
pub open spec fn together(a: Seq<int>, b: Seq<int>) -> bool {
    &&& a.len() == b.len()
    &&& forall|i: int, j: int|
        0 <= i < a.len() && 0 <= j < a.len() && #[trigger] a[i] < #[trigger] a[j] ==> b[i] <= b[j]
}

/// Where both sequences are least and where both are greatest.
pub open spec fn ends(a: Seq<int>, b: Seq<int>, p: int, q: int) -> bool {
    &&& 0 <= p < a.len()
    &&& 0 <= q < a.len()
    &&& forall|i: int|
        0 <= i < a.len() ==> a[p] <= #[trigger] a[i] <= a[q] && b[p] <= b[i] <= b[q]
}

/// Sequences that move together have ends.
pub proof fn lemma_ends(a: Seq<int>, b: Seq<int>) -> (r: (int, int))
    requires
        together(a, b),
        a.len() > 0,
    ensures
        ends(a, b, r.0, r.1),
    decreases a.len(),
{
    let n = a.len() as int;
    if n == 1 {
        (0, 0)
    } else {
        let a1 = a.drop_last();
        let b1 = b.drop_last();
        assert forall|i: int, j: int|
            0 <= i < a1.len() && 0 <= j < a1.len() && #[trigger] a1[i] < #[trigger] a1[j] implies b1[i]
            <= b1[j] by {
            assert(a1[i] == a[i] && a1[j] == a[j]);
        }
        let (p, q) = lemma_ends(a1, b1);
        let l = n - 1;
        assert(a1[p] == a[p] && b1[p] == b[p] && a1[q] == a[q] && b1[q] == b[q]);
        let p2 = if a[l] < a[p] || (a[l] == a[p] && b[l] < b[p]) {
            l
        } else {
            p
        };
        let q2 = if a[q] < a[l] || (a[q] == a[l] && b[q] < b[l]) {
            l
        } else {
            q
        };
        assert forall|i: int| 0 <= i < a.len() implies a[p2] <= #[trigger] a[i] <= a[q2] && b[p2]
            <= b[i] <= b[q2] by {
            if i < l {
                assert(a1[i] == a[i]);
                assert(b1[i] == b[i]);
            }
        }
        (p2, q2)
    }
}

/// The product of the distances of two points, which is never negative.
pub open spec fn pair(a: Seq<int>, b: Seq<int>, i: int, j: int) -> int {
    (a[i] - a[j]) * (b[i] - b[j])
}

pub proof fn lemma_pair(a: Seq<int>, b: Seq<int>, i: int, j: int)
    requires
        together(a, b),
        0 <= i < a.len(),
        0 <= j < a.len(),
    ensures
        pair(a, b, i, j) >= 0,
        pair(a, b, i, j) == pair(a, b, j, i),
{
    let x = a[i] - a[j];
    let y = b[i] - b[j];
    assert(a[i] < a[j] ==> b[i] <= b[j]);
    assert(a[j] < a[i] ==> b[j] <= b[i]);
    assert(x * y >= 0) by (nonlinear_arith)
        requires
            x > 0 ==> y >= 0,
            x < 0 ==> y <= 0,
    ;
    assert((-x) * (-y) == x * y) by (nonlinear_arith);
}

pub proof fn lemma_products_grow(p: int, q: int, r: int, s: int)
    requires
        0 <= p <= r,
        0 <= q <= s,
    ensures
        p * q <= r * s,
{
    assert(p * q <= r * s) by (nonlinear_arith)
        requires
            0 <= p <= r,
            0 <= q <= s,
    ;
}

/// Of three points, a distance along one axis times a distance along the other is no more than
/// the pairs make together.
proof fn lemma_three(a: Seq<int>, b: Seq<int>, i: int, j: int, k: int)
    requires
        together(a, b),
        0 <= i < a.len(),
        0 <= j < a.len(),
        0 <= k < a.len(),
    ensures
        abs(a[i] - a[j]) * abs(b[i] - b[k]) <= pair(a, b, i, j) + pair(a, b, i, k) + pair(
            a,
            b,
            j,
            k,
        ),
{
    lemma_pair(a, b, i, j);
    lemma_pair(a, b, i, k);
    lemma_pair(a, b, j, k);
    let x = abs(a[i] - a[j]);
    let y = abs(b[i] - b[k]);
    assert(a[i] < a[j] ==> b[i] <= b[j]);
    assert(a[j] < a[i] ==> b[j] <= b[i]);
    assert(a[i] < a[k] ==> b[i] <= b[k]);
    assert(a[k] < a[i] ==> b[k] <= b[i]);
    assert(a[j] < a[k] ==> b[j] <= b[k]);
    assert(a[k] < a[j] ==> b[k] <= b[j]);
    if x == 0 || y == 0 {
        assert(x * y == 0) by (nonlinear_arith)
            requires
                x == 0 || y == 0,
        ;
    } else if x <= abs(a[i] - a[k]) && (a[i] - a[k] > 0) == (b[i] - b[k] > 0) {
        lemma_products_grow(x, y, abs(a[i] - a[k]), y);
        lemma_same_sign(a[i] - a[k], b[i] - b[k]);
    } else if y <= abs(b[i] - b[j]) && (a[i] - a[j] > 0) == (b[i] - b[j] > 0) {
        lemma_products_grow(x, y, x, abs(b[i] - b[j]));
        lemma_same_sign(a[i] - a[j], b[i] - b[j]);
    } else {
        lemma_products_grow(x, y, abs(a[j] - a[k]), abs(b[j] - b[k]));
        lemma_same_sign(a[j] - a[k], b[j] - b[k]);
    }
}

proof fn lemma_same_sign(x: int, y: int)
    requires
        x > 0 ==> y >= 0,
        x < 0 ==> y <= 0,
    ensures
        abs(x) * abs(y) == x * y,
{
    assert(abs(x) * abs(y) == x * y) by (nonlinear_arith)
        requires
            x > 0 ==> y >= 0,
            x < 0 ==> y <= 0,
    ;
}

/// The pairs that a point makes with all points.
pub open spec fn row(a: Seq<int>, b: Seq<int>, i: int) -> Seq<int> {
    Seq::new(a.len(), |k: int| pair(a, b, i, k))
}

/// What the pairs of every point add up to.
pub open spec fn rows(a: Seq<int>, b: Seq<int>) -> Seq<int> {
    Seq::new(a.len(), |i: int| isum(row(a, b, i)))
}

pub open spec fn products(a: Seq<int>, b: Seq<int>) -> Seq<int> {
    Seq::new(a.len(), |i: int| a[i] * b[i])
}

/// The products of the distances of two sequences from two values.
pub open spec fn crosses(a: Seq<int>, b: Seq<int>, m: int, q: int) -> Seq<int> {
    Seq::new(a.len(), |i: int| (a[i] - m) * (b[i] - q))
}

/// The distances from two values, multiplied out.
pub proof fn lemma_crosses(a: Seq<int>, b: Seq<int>, m: int, q: int)
    requires
        a.len() == b.len(),
    ensures
        isum(crosses(a, b, m, q)) == isum(products(a, b)) - q * isum(a) - m * isum(b) + a.len() * (m
            * q),
{
    let c = crosses(a, b, m, q);
    assert forall|i: int| 0 <= i < c.len() implies #[trigger] c[i] == (-q) * a[i] + (-m) * b[i]
        + products(a, b)[i] + m * q by {
        let x = a[i];
        let y = b[i];
        assert((x - m) * (y - q) == (-q) * x + (-m) * y + x * y + m * q) by (nonlinear_arith);
    }
    lemma_sum_combines(c, a, b, products(a, b), -q, -m, m * q);
    let s = isum(a);
    let t = isum(b);
    assert((-q) * s == -(q * s)) by (nonlinear_arith);
    assert((-m) * t == -(m * t)) by (nonlinear_arith);
}

/// What all pairs add up to.
pub proof fn lemma_rows(a: Seq<int>, b: Seq<int>)
    requires
        a.len() == b.len(),
    ensures
        isum(rows(a, b)) == 2 * (a.len() * isum(products(a, b)) - isum(a) * isum(b)),
{
    let n = a.len() as int;
    let s = isum(a);
    let t = isum(b);
    let d = isum(products(a, b));
    let r = rows(a, b);
    let np = Seq::new(a.len(), |i: int| n * (a[i] * b[i]));
    assert forall|i: int| 0 <= i < r.len() implies #[trigger] r[i] == (-t) * a[i] + (-s) * b[i]
        + np[i] + d by {
        let x = a[i];
        let y = b[i];
        lemma_crosses(a, b, x, y);
        assert(row(a, b, i) =~= crosses(a, b, x, y)) by {
            assert forall|k: int| 0 <= k < a.len() implies row(a, b, i)[k] == crosses(a, b, x, y)[k] by {
                let v = a[k];
                let w = b[k];
                assert((x - v) * (y - w) == (v - x) * (w - y)) by (nonlinear_arith);
            }
        }
        assert((-t) * x == -(x * t)) by (nonlinear_arith);
        assert((-s) * y == -(y * s)) by (nonlinear_arith);
    }
    lemma_sum_combines(r, a, b, np, -t, -s, d);
    let z = zeros(a.len());
    lemma_zeros(a.len());
    assert forall|i: int| 0 <= i < np.len() implies #[trigger] np[i] == n * products(a, b)[i] + 0
        * z[i] + z[i] + 0 by {
        assert(0 * z[i] == 0);
    }
    lemma_sum_combines(np, products(a, b), z, z, n, 0, 0);
    assert(0 * isum(z) == 0 && n * 0 == 0);
    assert((-t) * s == -(s * t)) by (nonlinear_arith);
    assert((-s) * t == -(s * t)) by (nonlinear_arith);
}

/// The distances of one value from all others.
spec fn gaps(a: Seq<int>, i: int) -> Seq<int> {
    Seq::new(a.len(), |k: int| abs(a[i] - a[k]))
}

/// A value's distance from the mean, times the count.
proof fn lemma_gaps(a: Seq<int>, i: int)
    requires
        0 <= i < a.len(),
    ensures
        abs(a.len() * a[i] - isum(a)) <= isum(gaps(a, i)),
{
    let n = a.len() as int;
    let x = a[i];
    let g = gaps(a, i);
    let z = zeros(a.len());
    lemma_zeros(a.len());
    let up = Seq::new(a.len(), |k: int| x - a[k]);
    let down = Seq::new(a.len(), |k: int| a[k] - x);
    assert forall|k: int| 0 <= k < up.len() implies #[trigger] up[k] == (-1) * a[k] + 0 * z[k]
        + z[k] + x by {
        assert(0 * z[k] == 0);
    }
    assert forall|k: int| 0 <= k < down.len() implies #[trigger] down[k] == 1 * a[k] + 0 * z[k]
        + z[k] + (-x) by {
        assert(0 * z[k] == 0);
    }
    lemma_sum_combines(up, a, z, z, -1, 0, x);
    lemma_sum_combines(down, a, z, z, 1, 0, -x);
    assert(0 * isum(z) == 0);
    assert(n * (-x) == -(n * x)) by (nonlinear_arith);
    lemma_sum_grows(up, g);
    lemma_sum_grows(down, g);
}

/// A distance along one axis times all distances along the other.
proof fn lemma_one_gap(a: Seq<int>, b: Seq<int>, i: int, j: int)
    requires
        together(a, b),
        0 <= i < a.len(),
        0 <= j < a.len(),
    ensures
        abs(a[i] - a[j]) * isum(gaps(b, i)) <= a.len() * pair(a, b, i, j) + rows(a, b)[i] + rows(
            a,
            b,
        )[j],
{
    let n = a.len() as int;
    let x = abs(a[i] - a[j]);
    let z = zeros(a.len());
    lemma_zeros(a.len());
    let scaled = Seq::new(a.len(), |k: int| x * abs(b[i] - b[k]));
    let most = Seq::new(
        a.len(),
        |k: int| pair(a, b, i, j) + pair(a, b, i, k) + pair(a, b, j, k),
    );
    assert forall|k: int| 0 <= k < scaled.len() implies #[trigger] scaled[k] <= most[k] by {
        lemma_three(a, b, i, j, k);
    }
    lemma_sum_grows(scaled, most);
    assert forall|k: int| 0 <= k < scaled.len() implies #[trigger] scaled[k] == x * gaps(b, i)[k]
        + 0 * z[k] + z[k] + 0 by {
        assert(0 * z[k] == 0);
    }
    lemma_sum_combines(scaled, gaps(b, i), z, z, x, 0, 0);
    let ri = row(a, b, i);
    let rj = row(a, b, j);
    assert forall|k: int| 0 <= k < most.len() implies #[trigger] most[k] == 1 * ri[k] + 1 * rj[k]
        + z[k] + pair(a, b, i, j) by {
    }
    lemma_sum_combines(most, ri, rj, z, 1, 1, pair(a, b, i, j));
    assert(0 * isum(z) == 0 && n * 0 == 0);
}

/// All distances of a point along one axis times all along the other.
proof fn lemma_all_gaps(a: Seq<int>, b: Seq<int>, i: int)
    requires
        together(a, b),
        0 <= i < a.len(),
    ensures
        isum(gaps(a, i)) * isum(gaps(b, i)) <= 2 * (a.len() * rows(a, b)[i]) + isum(rows(a, b)),
{
    let n = a.len() as int;
    let t = isum(gaps(b, i));
    let r = rows(a, b);
    let z = zeros(a.len());
    lemma_zeros(a.len());
    let scaled = Seq::new(a.len(), |j: int| t * abs(a[i] - a[j]));
    let ri = row(a, b, i);
    let most = Seq::new(a.len(), |j: int| n * ri[j] + r[i] + r[j]);
    assert forall|j: int| 0 <= j < scaled.len() implies #[trigger] scaled[j] <= most[j] by {
        lemma_one_gap(a, b, i, j);
        let x = abs(a[i] - a[j]);
        assert(t * x == x * t) by (nonlinear_arith);
    }
    lemma_sum_grows(scaled, most);
    assert forall|j: int| 0 <= j < scaled.len() implies #[trigger] scaled[j] == t * gaps(a, i)[j]
        + 0 * z[j] + z[j] + 0 by {
        assert(0 * z[j] == 0);
    }
    lemma_sum_combines(scaled, gaps(a, i), z, z, t, 0, 0);
    assert forall|j: int| 0 <= j < most.len() implies #[trigger] most[j] == n * ri[j] + 1 * r[j]
        + z[j] + r[i] by {
    }
    lemma_sum_combines(most, ri, r, z, n, 1, r[i]);
    assert(0 * isum(z) == 0 && n * 0 == 0);
    let s = isum(gaps(a, i));
    assert(t * s == s * t) by (nonlinear_arith);
}

/// The products of the distances from the means, each times the count.
spec fn centred(a: Seq<int>, b: Seq<int>) -> Seq<int> {
    Seq::new(
        a.len(),
        |i: int| abs(a.len() * a[i] - isum(a)) * abs(b.len() * b[i] - isum(b)),
    )
}

/// The products of the distances from the means do not cancel out: without their signs they are
/// no more than a few times what they add up to.
proof fn lemma_little_cancels(a: Seq<int>, b: Seq<int>)
    requires
        together(a, b),
    ensures
        isum(centred(a, b)) <= 3 * (a.len() * isum(rows(a, b))),
{
    let n = a.len() as int;
    let c = centred(a, b);
    let r = rows(a, b);
    let w = isum(r);
    let z = zeros(a.len());
    lemma_zeros(a.len());
    let most = Seq::new(a.len(), |i: int| (2 * n) * r[i] + w);
    assert forall|i: int| 0 <= i < c.len() implies #[trigger] c[i] <= most[i] by {
        lemma_gaps(a, i);
        lemma_gaps(b, i);
        lemma_all_gaps(a, b, i);
        lemma_products_grow(
            abs(a.len() * a[i] - isum(a)),
            abs(b.len() * b[i] - isum(b)),
            isum(gaps(a, i)),
            isum(gaps(b, i)),
        );
        let v = r[i];
        assert((2 * n) * v == 2 * (n * v)) by (nonlinear_arith);
    }
    lemma_sum_grows(c, most);
    assert forall|i: int| 0 <= i < most.len() implies #[trigger] most[i] == (2 * n) * r[i] + 0
        * z[i] + z[i] + w by {
        assert(0 * z[i] == 0);
    }
    lemma_sum_combines(most, r, z, z, 2 * n, 0, w);
    assert(0 * isum(z) == 0);
    assert((2 * n) * w == 2 * (n * w)) by (nonlinear_arith);
}

/// The pairs add up to at least the one that the ends make, both ways round.
proof fn lemma_rows_hold(a: Seq<int>, b: Seq<int>, p: int, q: int)
    requires
        together(a, b),
        ends(a, b, p, q),
    ensures
        isum(rows(a, b)) >= 2 * ((a[q] - a[p]) * (b[q] - b[p])),
{
    let r = rows(a, b);
    assert forall|i: int| 0 <= i < r.len() implies #[trigger] r[i] >= 0 by {
        let ri = row(a, b, i);
        assert forall|k: int| 0 <= k < ri.len() implies #[trigger] ri[k] >= 0 by {
            lemma_pair(a, b, i, k);
        }
        lemma_sum_holds(ri, 0, 0);
        assert(ri[0] >= 0);
    }
    let rp = row(a, b, p);
    let rq = row(a, b, q);
    assert forall|k: int| 0 <= k < rp.len() implies #[trigger] rp[k] >= 0 by {
        lemma_pair(a, b, p, k);
    }
    assert forall|k: int| 0 <= k < rq.len() implies #[trigger] rq[k] >= 0 by {
        lemma_pair(a, b, q, k);
    }
    lemma_pair(a, b, p, q);
    lemma_sum_holds(rp, q, q);
    lemma_sum_holds(rq, p, p);
    assert(rp[q] == pair(a, b, p, q));
    assert(rq[p] == pair(a, b, q, p));
    lemma_sum_holds(r, p, q);
    if p == q {
        assert((a[q] - a[p]) * (b[q] - b[p]) == 0) by (nonlinear_arith)
            requires
                a[q] - a[p] == 0,
        ;
    }
}

/// The errors of one product of two distances, added up: `a` and `b` are the distances, `c` and
/// `d` stand for them as computed, and `p` for the product of those, in units of which there are
/// `u` in one.
proof fn lemma_term_steps(u: int, x: int, y: int, a: int, b: int, c: int, d: int, p: int)
    requires
        u > 0,
        x > 0,
        y > 0,
        0x10_0000_0000_0000 * u <= x * y,
        abs(a) <= 2 * x,
        abs(b) <= 2 * y,
        0x20_0000_0000_0000 * abs(c - a) <= abs(a),
        0x20_0000_0000_0000 * abs(d - b) <= abs(b),
        0x20_0000_0000_0000 * abs(p * u - c * d) <= abs(c * d) + 0x10_0000_0000_0000 * u,
    ensures
        0x20_0000_0000_0000 * abs(p * u - a * b) <= 20 * (x * y),
        abs(p) * u <= 5 * (x * y),
{
    let big: int = 0x20_0000_0000_0000;
    let w = x * y;
    assert(abs(c) <= 3 * x);
    assert(abs(d) <= 3 * y);
    assert(abs(c * d) == abs(c) * abs(d)) by (nonlinear_arith);
    assert(abs(a * b) == abs(a) * abs(b)) by (nonlinear_arith);
    assert(abs(c) * abs(d) <= 9 * w) by (nonlinear_arith)
        requires
            0 <= abs(c) <= 3 * x,
            0 <= abs(d) <= 3 * y,
            w == x * y,
            x > 0,
            y > 0,
    ;
    assert(abs(a) * abs(b) <= 4 * w) by (nonlinear_arith)
        requires
            0 <= abs(a) <= 2 * x,
            0 <= abs(b) <= 2 * y,
            w == x * y,
            x > 0,
            y > 0,
    ;
    let e1 = c - a;
    let e2 = d - b;
    assert(c * d - a * b == e1 * d + a * e2) by (nonlinear_arith)
        requires
            e1 == c - a,
            e2 == d - b,
    ;
    assert(big * abs(e1 * d) <= 6 * w) by (nonlinear_arith)
        requires
            big * abs(e1) <= 2 * x,
            0 <= abs(d) <= 3 * y,
            w == x * y,
            x > 0,
            y > 0,
            big > 0,
    {
        assert(abs(e1 * d) == abs(e1) * abs(d));
        assert((big * abs(e1)) * abs(d) <= (2 * x) * abs(d));
        assert((2 * x) * abs(d) <= (2 * x) * (3 * y));
    }
    assert(big * abs(a * e2) <= 4 * w) by (nonlinear_arith)
        requires
            big * abs(e2) <= 2 * y,
            0 <= abs(a) <= 2 * x,
            w == x * y,
            x > 0,
            y > 0,
            big > 0,
    {
        assert(abs(a * e2) == abs(a) * abs(e2));
        assert(abs(a) * (big * abs(e2)) <= abs(a) * (2 * y));
        assert(abs(a) * (2 * y) <= (2 * x) * (2 * y));
    }
    assert(big * abs(p * u - a * b) <= 20 * w);
    assert(abs(p * u) == abs(p) * u) by (nonlinear_arith)
        requires
            u > 0,
    ;
    assert(w >= 0) by (nonlinear_arith)
        requires
            w == x * y,
            x > 0,
            y > 0,
    ;
}

/// How far the ends of two axes may be apart.
pub open spec fn in_reach(x: int, y: int) -> bool {
    &&& pow2(1074) <= x <= pow2(1139)
    &&& pow2(1000) <= y <= pow2(1202)
}

pub proof fn lemma_reach(x: int, y: int)
    requires
        in_reach(x, y),
    ensures
        x > 0,
        y > 0,
        0x10_0000_0000_0000 * pow2(1074) <= x * y,
        x * y <= pow2(2341),
        x * y > 0,
{
    lemma_pow2_pos(1074);
    lemma_pow2_pos(1000);
    lemma2_to64_rest();
    bounds::lemma_pow2_order(52, 1000);
    lemma_pow2_adds(1139, 1202);
    let u = pow2(1074);
    assert(0x10_0000_0000_0000 * u <= x * y && x * y > 0) by (nonlinear_arith)
        requires
            0 < u <= x,
            0x10_0000_0000_0000 <= y,
    ;
    lemma_products_grow(x, y, pow2(1139) as int, pow2(1202) as int);
}

/// One product of two distances.
pub proof fn lemma_term(a: F64, b: F64, ma: F64, mb: F64, x: int, y: int)
    requires
        a.is_finite_spec(),
        b.is_finite_spec(),
        ma.is_finite_spec(),
        mb.is_finite_spec(),
        in_reach(x, y),
        abs(a.value() - ma.value()) <= 2 * x,
        abs(b.value() - mb.value()) <= 2 * y,
    ensures
        ({
            let p = a.sub_spec(ma).mul_spec(b.sub_spec(mb));
            &&& p.is_finite_spec()
            &&& 0x20_0000_0000_0000 * abs(
                p.value() * pow2(1074) - (a.value() - ma.value()) * (b.value() - mb.value()),
            ) <= 20 * (x * y)
            &&& abs(p.value()) * pow2(1074) <= 5 * (x * y)
        }),
{
    let u = pow2(1074) as int;
    lemma_pow2_pos(1074);
    lemma_reach(x, y);
    lemma_pow2_unfold(1140);
    lemma_pow2_unfold(1203);
    error::lemma_sub_error(a, ma, 1140);
    error::lemma_sub_error(b, mb, 1203);
    let c = a.sub_spec(ma);
    let d = b.sub_spec(mb);
    let w = x * y;
    assert(abs(c.value() * d.value()) <= 9 * w) by (nonlinear_arith)
        requires
            abs(c.value()) <= 3 * x,
            abs(d.value()) <= 3 * y,
            w == x * y,
            x > 0,
            y > 0,
    {
        assert(abs(c.value() * d.value()) == abs(c.value()) * abs(d.value()));
        assert(abs(c.value()) * abs(d.value()) <= (3 * x) * (3 * y));
    }
    lemma2_to64();
    lemma_pow2_adds(4, 2341);
    lemma_pow2_adds(1271, 1074);
    error::lemma_mul_error(c, d, 1271);
    lemma_term_steps(
        u,
        x,
        y,
        a.value() - ma.value(),
        b.value() - mb.value(),
        c.value(),
        d.value(),
        c.mul_spec(d).value(),
    );
}

/// The values along an axis, each times a factor.
pub open spec fn turned(s: Seq<F64>, factor: int) -> Seq<int> {
    Seq::new(s.len(), |i: int| factor * s[i].value())
}

pub proof fn lemma_turned_sum(s: Seq<F64>, factor: int)
    ensures
        isum(turned(s, factor)) == factor * sum(s),
    decreases s.len(),
{
    if s.len() == 0 {
        assert(factor * 0 == 0);
    } else {
        lemma_turned_sum(s.drop_last(), factor);
        assert(turned(s, factor).drop_last() =~= turned(s.drop_last(), factor));
        let t = sum(s.drop_last());
        let v = s.last().value();
        assert(factor * (t + v) == factor * t + factor * v) by (nonlinear_arith);
    }
}

/// The absolute values along an axis, each times a factor.
spec fn sizes(s: Seq<F64>, factor: int) -> Seq<int> {
    Seq::new(s.len(), |i: int| factor * abs(s[i].value()))
}

proof fn lemma_sizes_sum(s: Seq<F64>, factor: int)
    ensures
        isum(sizes(s, factor)) == factor * bulk(s),
    decreases s.len(),
{
    if s.len() == 0 {
        assert(factor * 0 == 0);
    } else {
        lemma_sizes_sum(s.drop_last(), factor);
        assert(sizes(s, factor).drop_last() =~= sizes(s.drop_last(), factor));
        let t = bulk(s.drop_last());
        let v = abs(s.last().value());
        assert(factor * (t + v) == factor * t + factor * v) by (nonlinear_arith);
    }
}

/// Values that start at zero and stay within a reach.
spec fn stays(s: Seq<F64>, x: int) -> bool {
    &&& s.len() > 0
    &&& s[0].value() == 0
    &&& forall|i: int| 0 <= i < s.len() ==> abs((#[trigger] s[i]).value()) <= x
}

proof fn lemma_bulk_stays(s: Seq<F64>, x: int)
    requires
        stays(s, x),
        x >= 0,
    ensures
        bulk(s) <= (s.len() - 1) * x,
    decreases s.len(),
{
    let n = s.len() as int;
    assert(abs(s[n - 1].value()) <= x);
    if n == 1 {
        reveal_with_fuel(bulk, 2);
        assert(0 * x == 0);
    } else {
        let fewer = s.drop_last();
        assert forall|i: int| 0 <= i < fewer.len() implies abs((#[trigger] fewer[i]).value())
            <= x by {
            assert(fewer[i] == s[i]);
        }
        lemma_bulk_stays(fewer, x);
        assert((n - 2) * x + x == (n - 1) * x) by (nonlinear_arith);
    }
}

proof fn lemma_bulk_holds(s: Seq<F64>, i: int)
    requires
        0 <= i < s.len(),
    ensures
        abs(s[i].value()) <= bulk(s),
    decreases s.len(),
{
    if i < s.len() - 1 {
        lemma_bulk_holds(s.drop_last(), i);
    } else {
        error::lemma_sum_within_bulk(s.drop_last());
    }
}

/// The mean of values that stay within a reach: it does so too, and is close to the exact one.
proof fn lemma_mean_near(s: Seq<F64>, x: int, far: int, k: nat)
    requires
        all_finite(s),
        2 <= s.len() <= MOST,
        stays(s, x),
        0 <= far < s.len(),
        abs(s[far].value()) >= pow2(128),
        4 * (s.len() * x) <= pow2(k),
        52 <= k <= 2097,
    ensures
        mean(s).is_finite_spec(),
        abs(mean(s).value()) <= x,
        0x20_0000_0000_0000 * abs(s.len() * mean(s).value() - sum(s)) <= 7 * ((s.len() * s.len())
            * x),
        abs(sum(s)) <= s.len() * x,
        forall|i: int|
            0 <= i < s.len() ==> abs((#[trigger] s[i]).value() - mean(s).value()) <= 2 * x,
{
    let n = s.len() as int;
    let b = bulk(s);
    let m = mean(s).value();
    assert(abs(s[far].value()) <= x);
    lemma_bulk_stays(s, x);
    lemma_bulk_holds(s, far);
    error::lemma_sum_within_bulk(s);
    lemma2_to64();
    lemma_pow2_adds(64, 64);
    assert((n - 1) * x <= n * x) by (nonlinear_arith)
        requires
            x >= 0,
    ;
    error::lemma_mean_error(s, k);
    let big: int = 0x20_0000_0000_0000;
    assert((7 * n) * b <= 7 * ((n * n) * x)) by (nonlinear_arith)
        requires
            n > 0,
            0 <= b <= n * x,
    {
        assert((7 * n) * b <= (7 * n) * (n * x));
        assert((7 * n) * (n * x) == 7 * ((n * n) * x));
    }
    assert(abs(m) <= x) by {
        assert(abs(n * m) == n * abs(m)) by (nonlinear_arith)
            requires
                n > 0,
        ;
        assert(big * (n * abs(m)) <= big * b + (7 * n) * b);
        assert(n * abs(m) <= n * x) by (nonlinear_arith)
            requires
                big * (n * abs(m)) <= big * b + (7 * n) * b,
                0 <= b <= (n - 1) * x,
                2 <= n <= 0x80_0000,
                x >= 0,
                big == 0x20_0000_0000_0000,
        {
            assert((7 * n) * b <= (7 * 0x80_0000) * b);
            assert(big * b + (7 * 0x80_0000) * b == (big + 7 * 0x80_0000) * b);
            assert((big + 7 * 0x80_0000) * b <= (big + 7 * 0x80_0000) * ((n - 1) * x));
            assert((big + 7 * 0x80_0000) * (n - 1) <= big * n);
            assert(((big + 7 * 0x80_0000) * (n - 1)) * x <= (big * n) * x);
        }
        assert(abs(m) <= x) by (nonlinear_arith)
            requires
                n * abs(m) <= n * x,
                n > 0,
        ;
    }
    assert forall|i: int| 0 <= i < s.len() implies abs((#[trigger] s[i]).value() - m) <= 2 * x by {
        assert(abs(s[i].value()) <= x);
    }
}

/// Sums of terms that are close to each other.
pub proof fn lemma_sums_near(u: Seq<int>, v: Seq<int>, e: int)
    requires
        u.len() == v.len(),
        forall|i: int|
            0 <= i < u.len() ==> 0x20_0000_0000_0000 * abs(#[trigger] u[i] - v[i]) <= e,
    ensures
        0x20_0000_0000_0000 * abs(isum(u) - isum(v)) <= u.len() * e,
    decreases u.len(),
{
    let n = u.len() as int;
    if n == 0 {
        assert(0 * e == 0);
    } else {
        let u1 = u.drop_last();
        let v1 = v.drop_last();
        assert forall|i: int| 0 <= i < u1.len() implies 0x20_0000_0000_0000 * abs(
            #[trigger] u1[i] - v1[i],
        ) <= e by {
            assert(u1[i] == u[i]);
        }
        lemma_sums_near(u1, v1, e);
        assert(0x20_0000_0000_0000 * abs(u[n - 1] - v[n - 1]) <= e);
        assert(n * e == (n - 1) * e + e) by (nonlinear_arith);
    }
}

/// The size of one product of distances, against that of the distances from the exact means:
/// `a` and `b` are those, each times the count `n`, `c` and `d` the distances from the means as
/// computed, and `p` the size of their product as computed.
proof fn lemma_product_size(n: int, x: int, y: int, a: int, b: int, c: int, d: int, p: int)
    requires
        2 <= n <= 0x80_0000,
        x > 0,
        y > 0,
        abs(a) <= 2 * (n * x),
        abs(b) <= 2 * (n * y),
        0x20_0000_0000_0000 * abs(n * c - a) <= 7 * ((n * n) * x),
        0x20_0000_0000_0000 * abs(n * d - b) <= 7 * ((n * n) * y),
        0x20_0000_0000_0000 * abs(p - c * d) <= 20 * (x * y),
    ensures
        0x20_0000_0000_0000 * ((n * n) * abs(p)) <= 0x20_0000_0000_0000 * (abs(a) * abs(b)) + 39 * (
        (n * n * n) * (x * y)),
{
    let big: int = 0x20_0000_0000_0000;
    let w = x * y;
    let n2 = n * n;
    let n3 = n * n2;
    assert(n * n * n == n3) by (nonlinear_arith)
        requires
            n2 == n * n,
            n3 == n * n2,
    ;
    assert(w > 0) by (nonlinear_arith)
        requires
            w == x * y,
            x > 0,
            y > 0,
    ;
    assert(n2 > 0 && n3 > 0) by (nonlinear_arith)
        requires
            n2 == n * n,
            n3 == n * n2,
            n >= 2,
    ;
    let e = n * c - a;
    let f = n * d - b;
    // The product of the two distances, each times the count.
    assert(n2 * (c * d) == (n * c) * (n * d)) by (nonlinear_arith)
        requires
            n2 == n * n,
    ;
    assert((a + e) * (b + f) == a * b + e * b + a * f + e * f) by (nonlinear_arith);
    assert(abs(a * b) == abs(a) * abs(b)) by (nonlinear_arith);
    assert(abs(e * b) == abs(e) * abs(b)) by (nonlinear_arith);
    assert(abs(a * f) == abs(a) * abs(f)) by (nonlinear_arith);
    assert(abs(e * f) == abs(e) * abs(f)) by (nonlinear_arith);
    assert(big * (abs(e) * abs(b)) <= 14 * (n3 * w)) by (nonlinear_arith)
        requires
            0 <= big * abs(e) <= 7 * (n2 * x),
            0 <= abs(b) <= 2 * (n * y),
            w == x * y,
            n3 == n * n2,
    {
        assert((big * abs(e)) * abs(b) <= (7 * (n2 * x)) * (2 * (n * y)));
        assert((7 * (n2 * x)) * (2 * (n * y)) == 14 * ((n * n2) * (x * y)));
        assert((big * abs(e)) * abs(b) == big * (abs(e) * abs(b)));
    }
    assert(big * (abs(a) * abs(f)) <= 14 * (n3 * w)) by (nonlinear_arith)
        requires
            0 <= big * abs(f) <= 7 * (n2 * y),
            0 <= abs(a) <= 2 * (n * x),
            w == x * y,
            n3 == n * n2,
    {
        assert(abs(a) * (big * abs(f)) <= (2 * (n * x)) * (7 * (n2 * y)));
        assert((2 * (n * x)) * (7 * (n2 * y)) == 14 * ((n * n2) * (x * y)));
        assert(abs(a) * (big * abs(f)) == big * (abs(a) * abs(f)));
    }
    assert(abs(e) <= n * x) by (nonlinear_arith)
        requires
            big * abs(e) <= 7 * (n2 * x),
            n2 == n * n,
            2 <= n <= 0x80_0000,
            x > 0,
            big == 0x20_0000_0000_0000,
    {
        assert(7 * n <= big);
        assert((7 * n) * (n * x) <= big * (n * x)) by {
            assert(n * x > 0);
        }
        assert(7 * (n2 * x) == (7 * n) * (n * x));
    }
    assert(n2 <= 0x4000_0000_0000) by (nonlinear_arith)
        requires
            2 <= n <= 0x80_0000,
            n2 == n * n,
    ;
    assert(big * (abs(e) * abs(f)) <= n3 * w) by (nonlinear_arith)
        requires
            0 <= abs(e),
            big * abs(e) <= 7 * (n2 * x),
            big * abs(f) <= 7 * (n2 * y),
            0 <= abs(f),
            w == x * y,
            n3 == n * n2,
            n2 == n * n,
            2 <= n <= 0x80_0000,
            x > 0,
            y > 0,
            big == 0x20_0000_0000_0000,
    {
        assert((big * abs(e)) * (big * abs(f)) <= (7 * (n2 * x)) * (7 * (n2 * y)));
        assert((7 * (n2 * x)) * (7 * (n2 * y)) == (49 * n) * (n3 * w));
        assert(n3 * w > 0);
        assert((49 * n) * (n3 * w) <= big * (n3 * w));
        assert((big * abs(e)) * (big * abs(f)) == big * (big * (abs(e) * abs(f))));
    }
    let v = c * d;
    assert(abs(n2 * v) == n2 * abs(v)) by (nonlinear_arith)
        requires
            n2 > 0,
    ;
    assert(big * (n2 * abs(v)) <= big * (abs(a) * abs(b)) + 29 * (n3 * w));
    // The error of the product.
    assert(abs(p) <= abs(v) + abs(p - v));
    assert(n2 * abs(p) <= n2 * abs(v) + n2 * abs(p - v)) by (nonlinear_arith)
        requires
            abs(p) <= abs(v) + abs(p - v),
            n2 > 0,
    ;
    assert(big * (n2 * abs(p - v)) <= 20 * (n2 * w)) by (nonlinear_arith)
        requires
            big * abs(p - v) <= 20 * w,
            n2 > 0,
    {
        assert(n2 * (big * abs(p - v)) <= n2 * (20 * w));
    }
    assert(20 * (n2 * w) <= 10 * (n3 * w)) by (nonlinear_arith)
        requires
            n3 == n * n2,
            n >= 2,
            n2 > 0,
            w > 0,
    {
        assert(2 * n2 <= n3);
        assert((2 * n2) * w <= n3 * w);
    }
}

/// The errors behind the sum of the products, added up over `n` of them: `z` is the sum as
/// computed, `t` the exact sum of the products as computed, `c` the exact sum of the exact
/// products, `e` what the means add to it, `b` the bulk of the products as computed, and `d` what
/// all pairs add up to, twice.
proof fn lemma_trend_steps(n: int, w: int, z: int, t: int, c: int, e: int, b: int, d: int)
    requires
        2 <= n <= 0x80_0000,
        w > 0,
        d >= 2 * w,
        2 * (n * c) == d + 2 * e,
        (0x20_0000_0000_0000 * 0x20_0000_0000_0000) * abs(e) <= (49 * (n * n * n * n)) * w,
        0x20_0000_0000_0000 * abs(t - c) <= 20 * (n * w),
        0x10_0000_0000_0000 * abs(z - t) <= n * b,
        0x20_0000_0000_0000 * (n * b) <= 3 * (0x20_0000_0000_0000 * d) + 39 * ((n * n * n) * w),
    ensures
        4 * (n * z) >= w,
{
    let big: int = 0x20_0000_0000_0000;
    let n2 = n * n;
    let n3 = n * n2;
    let n4 = n * n3;
    assert(n * n * n == n3 && n * n * n * n == n4) by (nonlinear_arith)
        requires
            n2 == n * n,
            n3 == n * n2,
            n4 == n * n3,
    ;
    assert(n2 <= 0x4000_0000_0000) by (nonlinear_arith)
        requires
            2 <= n <= 0x80_0000,
            n2 == n * n,
    ;
    assert(n4 == n2 * n2) by (nonlinear_arith)
        requires
            n2 == n * n,
            n3 == n * n2,
            n4 == n * n3,
    ;
    assert(0 <= n2 * n2 <= 0x4000_0000_0000 * 0x4000_0000_0000) by (nonlinear_arith)
        requires
            0 <= n2 <= 0x4000_0000_0000,
    ;
    // In parts of `big` squared.
    let m: int = 0x4000_0000_0000int * 0x4000_0000_0000int;
    let sq = big * big;
    assert((49 * n4) * w <= (49 * m) * w) by (nonlinear_arith)
        requires
            n4 <= m,
            w > 0,
    ;
    // The part of the products.
    assert(sq * (n * abs(t - c)) <= (20 * (n2 * w)) * big) by (nonlinear_arith)
        requires
            big * abs(t - c) <= 20 * (n * w),
            n > 0,
            n2 == n * n,
            sq == big * big,
            big > 0,
    {
        assert(n * (big * abs(t - c)) <= n * (20 * (n * w)));
        assert(n * (20 * (n * w)) == 20 * (n2 * w));
        assert(big * (n * (big * abs(t - c))) <= big * (20 * (n2 * w)));
        assert(big * (n * (big * abs(t - c))) == (big * big) * (n * abs(t - c)));
    }
    assert((20 * (n2 * w)) * big <= (20 * (0x4000_0000_0000 * w)) * big) by (nonlinear_arith)
        requires
            n2 <= 0x4000_0000_0000,
            w > 0,
            big > 0,
    {
        assert(n2 * w <= 0x4000_0000_0000 * w);
    }
    // The part of the sum.
    let nb = n * b;
    assert(sq * (n * abs(z - t)) <= 2 * (n * (big * nb))) by (nonlinear_arith)
        requires
            0x10_0000_0000_0000 * abs(z - t) <= nb,
            big == 0x20_0000_0000_0000,
            sq == big * big,
            n > 0,
    {
        assert(big * abs(z - t) <= 2 * nb);
        assert(n * (big * abs(z - t)) <= n * (2 * nb));
        assert(big * (n * (big * abs(z - t))) <= big * (n * (2 * nb)));
        assert(big * (n * (big * abs(z - t))) == (big * big) * (n * abs(z - t)));
        assert(big * (n * (2 * nb)) == 2 * (n * (big * nb)));
    }
    assert(n * (big * nb) <= 3 * (big * (n * d)) + 39 * (n4 * w)) by (nonlinear_arith)
        requires
            big * nb <= 3 * (big * d) + 39 * (n3 * w),
            n > 0,
            n4 == n * n3,
    {
        assert(n * (big * nb) <= n * (3 * (big * d) + 39 * (n3 * w)));
        assert(n * (3 * (big * d)) == 3 * (big * (n * d)));
        assert(n * (39 * (n3 * w)) == 39 * ((n * n3) * w));
        assert(n * (3 * (big * d) + 39 * (n3 * w)) == n * (3 * (big * d)) + n * (39 * (n3 * w)));
    }
    assert(n * d <= 0x80_0000 * d) by (nonlinear_arith)
        requires
            n <= 0x80_0000,
            d >= 0,
    ;
    assert(n4 * w <= m * w) by (nonlinear_arith)
        requires
            n4 <= m,
            w > 0,
    ;
    // All of it.
    let g1 = n * abs(z - t);
    let g2 = n * abs(t - c);
    assert(n * z >= n * c - g1 - g2) by (nonlinear_arith)
        requires
            g1 == n * abs(z - t),
            g2 == n * abs(t - c),
            n > 0,
    {
        assert(z >= c - abs(z - t) - abs(t - c));
        assert(n * z >= n * (c - abs(z - t) - abs(t - c)));
        assert(n * (c - abs(z - t) - abs(t - c)) == n * c - n * abs(z - t) - n * abs(t - c));
    }
    let nz = n * z;
    assert(2 * nz >= d - 2 * abs(e) - 2 * g1 - 2 * g2);
    assert(4 * nz >= w) by (nonlinear_arith)
        requires
            2 * nz >= d - 2 * abs(e) - 2 * g1 - 2 * g2,
            sq * abs(e) <= (49 * m) * w,
            sq * g2 <= (20 * (0x4000_0000_0000 * w)) * big,
            sq * g1 <= 2 * (3 * (big * (0x80_0000 * d)) + 39 * (m * w)),
            d >= 2 * w,
            w > 0,
            m == 0x4000_0000_0000 * 0x4000_0000_0000,
            big == 0x20_0000_0000_0000,
            sq == big * big,
    ;
}

/// What the rounding of the means adds.
proof fn lemma_means_add(n: int, x: int, y: int, s: int, t: int, m: int, q: int, sign: int)
    requires
        n > 0,
        x > 0,
        y > 0,
        sign == 1 || sign == -1,
        0x20_0000_0000_0000 * abs(n * m - s) <= 7 * ((n * n) * x),
        0x20_0000_0000_0000 * abs(n * q - t) <= 7 * ((n * n) * y),
    ensures
        (0x20_0000_0000_0000 * 0x20_0000_0000_0000) * abs(
            (1 * s - n * m) * (sign * t - n * (sign * q)),
        ) <= (49 * (n * n * n * n)) * (x * y),
{
    let big: int = 0x20_0000_0000_0000;
    let e1 = abs(n * m - s);
    let e2 = abs(n * q - t);
    let f = sign * t - n * (sign * q);
    assert(f == sign * (t - n * q)) by (nonlinear_arith)
        requires
            f == sign * t - n * (sign * q),
    ;
    assert(abs(f) == e2) by (nonlinear_arith)
        requires
            f == sign * (t - n * q),
            e2 == abs(n * q - t),
            sign == 1 || sign == -1,
    ;
    let g = s - n * m;
    assert(abs(g * f) == abs(g) * abs(f)) by (nonlinear_arith);
    let n2 = n * n;
    assert(n2 > 0) by (nonlinear_arith)
        requires
            n > 0,
            n2 == n * n,
    ;
    assert((big * e1) * (big * e2) <= (7 * (n2 * x)) * (7 * (n2 * y))) by (nonlinear_arith)
        requires
            0 <= big * e1 <= 7 * (n2 * x),
            0 <= big * e2 <= 7 * (n2 * y),
    ;
    assert((big * e1) * (big * e2) == (big * big) * (e1 * e2)) by (nonlinear_arith);
    assert((7 * (n2 * x)) * (7 * (n2 * y)) == (49 * (n2 * n2)) * (x * y)) by (nonlinear_arith);
    assert(n * n * n * n == n2 * n2) by (nonlinear_arith)
        requires
            n2 == n * n,
    ;
}

/// The distances from values that are close to the means, added up.
proof fn lemma_cross_identity(a: Seq<int>, b: Seq<int>, m: int, q: int)
    requires
        a.len() == b.len(),
    ensures
        2 * (a.len() * isum(crosses(a, b, m, q))) == isum(rows(a, b)) + 2 * ((isum(a) - a.len() * m)
            * (isum(b) - a.len() * q)),
{
    let n = a.len() as int;
    lemma_crosses(a, b, m, q);
    lemma_rows(a, b);
    let s = isum(a);
    let t = isum(b);
    let d = isum(products(a, b));
    let nm = n * m;
    let nq = n * q;
    let mt = m * t;
    let qs = q * s;
    let mq = m * q;
    assert(n * (d - qs - mt + n * mq) == n * d - n * qs - n * mt + n * (n * mq))
        by (nonlinear_arith);
    assert(n * mt == nm * t) by (nonlinear_arith)
        requires
            mt == m * t,
            nm == n * m,
    ;
    assert(n * qs == s * nq) by (nonlinear_arith)
        requires
            qs == q * s,
            nq == n * q,
    ;
    assert(n * (n * mq) == nm * nq) by (nonlinear_arith)
        requires
            mq == m * q,
            nm == n * m,
            nq == n * q,
    ;
    assert((s - nm) * (t - nq) == s * t - s * nq - nm * t + nm * nq) by (nonlinear_arith);
}

/// The bulk of the products, from the size of each.
proof fn lemma_products_bulk(
    ps: Seq<F64>,
    a: Seq<int>,
    b: Seq<int>,
    u: int,
    w: int,
)
    requires
        together(a, b),
        ps.len() == a.len(),
        ps.len() > 0,
        forall|i: int|
            0 <= i < ps.len() ==> 0x20_0000_0000_0000 * ((a.len() * a.len()) * (u * abs(
                (#[trigger] ps[i]).value(),
            ))) <= 0x20_0000_0000_0000 * centred(a, b)[i] + 39 * ((a.len() * a.len() * a.len()) * w),
    ensures
        0x20_0000_0000_0000 * (a.len() * (u * bulk(ps))) <= 3 * (0x20_0000_0000_0000 * isum(
            rows(a, b),
        )) + 39 * ((a.len() * a.len() * a.len()) * w),
{
    let n = a.len() as int;
    let big: int = 0x20_0000_0000_0000;
    let n2 = n * n;
    let n3 = n * n * n;
    let e = 39 * (n3 * w);
    let z = zeros(a.len());
    lemma_zeros(a.len());
    let v = sizes(ps, u);
    let low = Seq::new(a.len(), |i: int| (big * n2) * v[i]);
    let high = Seq::new(a.len(), |i: int| big * centred(a, b)[i] + e);
    assert forall|i: int| 0 <= i < low.len() implies #[trigger] low[i] <= high[i] by {
        let s = u * abs(ps[i].value());
        assert((big * n2) * s == big * (n2 * s)) by (nonlinear_arith);
    }
    lemma_sum_grows(low, high);
    assert forall|i: int| 0 <= i < low.len() implies #[trigger] low[i] == (big * n2) * v[i] + 0
        * z[i] + z[i] + 0 by {
        assert(0 * z[i] == 0);
    }
    lemma_sum_combines(low, v, z, z, big * n2, 0, 0);
    assert forall|i: int| 0 <= i < high.len() implies #[trigger] high[i] == big * centred(a, b)[i]
        + 0 * z[i] + z[i] + e by {
        assert(0 * z[i] == 0);
    }
    lemma_sum_combines(high, centred(a, b), z, z, big, 0, e);
    assert(0 * isum(z) == 0 && n * 0 == 0);
    lemma_sizes_sum(ps, u);
    lemma_little_cancels(a, b);
    let s = u * bulk(ps);
    let r = isum(rows(a, b));
    let c = isum(centred(a, b));
    assert(big * (n * s) <= 3 * (big * r) + e) by (nonlinear_arith)
        requires
            (big * n2) * s <= big * c + n * e,
            c <= 3 * (n * r),
            n2 == n * n,
            n > 0,
            big == 0x20_0000_0000_0000,
    {
        assert((big * n2) * s == n * (big * (n * s)));
        assert(big * (3 * (n * r)) == n * (3 * (big * r)));
        assert(n * (big * (n * s)) <= n * (3 * (big * r) + e));
    }
}

/// The sum of products behind a slope, for values that move together along two axes, or against
/// each other where `sign` is negative. `p` and `q` are their ends. Its sign is that of the
/// trend; it is not vanishing, and not beyond reach.
pub proof fn lemma_trend(xs: Seq<F64>, ys: Seq<F64>, sign: int, p: int, q: int)
    requires
        sign == 1 || sign == -1,
        2 <= xs.len() <= MOST,
        all_finite(xs),
        all_finite(ys),
        together(turned(xs, 1), turned(ys, sign)),
        ends(turned(xs, 1), turned(ys, sign), p, q),
        xs[0].value() == 0,
        ys[0].value() == 0,
        in_reach(
            turned(xs, 1)[q] - turned(xs, 1)[p],
            turned(ys, sign)[q] - turned(ys, sign)[p],
        ),
    ensures
        ({
            let z = fold::total(
                F64 { bits: ZERO },
                finalize::moments(xs, mean(xs), ys, mean(ys)),
            );
            let w = (turned(xs, 1)[q] - turned(xs, 1)[p]) * (turned(ys, sign)[q] - turned(
                ys,
                sign,
            )[p]);
            &&& z.is_finite_spec()
            &&& 4 * (xs.len() * (sign * (z.value() * pow2(1074)))) >= w
            &&& abs(z.value()) * pow2(1074) <= 10 * (xs.len() * w)
        }),
{
    let n = xs.len() as int;
    let a = turned(xs, 1);
    let b = turned(ys, sign);
    let x = a[q] - a[p];
    let y = b[q] - b[p];
    let w = x * y;
    let u = pow2(1074) as int;
    let big: int = 0x20_0000_0000_0000;
    assert(a.len() == b.len());
    lemma_pow2_pos(1074);
    lemma_reach(x, y);
    lemma_stays(xs, ys, sign, p, q);
    let far_x = if abs(xs[q].value()) >= abs(xs[p].value()) {
        q
    } else {
        p
    };
    let far_y = if abs(ys[q].value()) >= abs(ys[p].value()) {
        q
    } else {
        p
    };
    lemma_pow2_unfold(1000);
    bounds::lemma_pow2_order(128, 999);
    bounds::lemma_pow2_order(1000, 1074);
    lemma_room(n, x, 1139);
    lemma_room(n, y, 1202);
    lemma_mean_near(xs, x, far_x, 1170);
    lemma_mean_near(ys, y, far_y, 1233);
    let mx = mean(xs).value();
    let my = mean(ys).value();
    let ps = finalize::moments(xs, mean(xs), ys, mean(ys));
    lemma_turned_sum(xs, 1);
    lemma_turned_sum(ys, sign);
    let s = isum(a);
    let t = isum(b);
    let ma = mx;
    let mb = sign * my;
    assert(abs(n * mb - t) == abs(n * my - sum(ys)) && abs(t) == abs(sum(ys))) by (nonlinear_arith)
        requires
            mb == sign * my,
            t == sign * sum(ys),
            sign == 1 || sign == -1,
    ;
    let cs = crosses(a, b, ma, mb);
    let ts = turned(ps, sign * u);
    assert forall|i: int| 0 <= i < ps.len() implies (#[trigger] ps[i]).is_finite_spec() && big
        * abs(ts[i] - cs[i]) <= 20 * w && abs(ps[i].value()) * u <= 5 * w && big * ((n * n) * (u
        * abs(ps[i].value()))) <= big * centred(a, b)[i] + 39 * ((n * n * n) * w) by {
        assert(xs[i].is_finite_spec() && ys[i].is_finite_spec());
        assert(abs(xs[i].value() - mx) <= 2 * x);
        assert(abs(ys[i].value() - my) <= 2 * y);
        lemma_term(xs[i], ys[i], mean(xs), mean(ys), x, y);
        let v = ps[i].value();
        let dx = xs[i].value() - mx;
        let dy = ys[i].value() - my;
        lemma_turned_term(v, dx, dy, ys[i].value(), my, sign, u);
        assert(ts[i] == (sign * u) * v);
        assert(a[i] - ma == dx);
        assert(cs[i] == dx * (b[i] - mb));
        assert(abs(xs[i].value()) <= x && abs(ys[i].value()) <= y);
        lemma_centre_reach(n, x, a[i], s);
        lemma_centre_reach(n, y, b[i], t);
        assert(n * (a[i] - ma) - (n * a[i] - s) == s - n * ma) by (nonlinear_arith);
        assert(n * (b[i] - mb) - (n * b[i] - t) == t - n * mb) by (nonlinear_arith);
        lemma_product_size(
            n,
            x,
            y,
            n * a[i] - s,
            n * b[i] - t,
            a[i] - ma,
            b[i] - mb,
            ts[i],
        );
        assert(abs(ts[i]) == u * abs(v));
    }
    assert forall|i: int| 0 <= i < ts.len() implies 0x20_0000_0000_0000 * abs(
        #[trigger] ts[i] - cs[i],
    ) <= 20 * w by {
        assert(ps[i].is_finite_spec());
    }
    lemma_sums_near(ts, cs, 20 * w);
    lemma_turned_sum(ps, sign * u);
    lemma_products_bulk(ps, a, b, u, w);
    assert(bulk(ps) * u <= 5 * (n * w)) by {
        lemma_bulk_of_products(ps, u, w);
    }
    lemma_products_fit(n, w, bulk(ps), u);
    error::lemma_total_error(F64 { bits: ZERO }, ps, 1300);
    let z = fold::total(F64 { bits: ZERO }, ps).value();
    let zz = sign * (z * u);
    let tt = isum(ts);
    let ub = u * bulk(ps);
    assert(0x10_0000_0000_0000 * abs(zz - tt) <= n * ub) by {
        let g = abs(z - sum(ps));
        assert(abs(zz - tt) == g * u) by (nonlinear_arith)
            requires
                zz == sign * (z * u),
                tt == (sign * u) * sum(ps),
                sign == 1 || sign == -1,
                u > 0,
                g == abs(z - sum(ps)),
        ;
        assert(0x10_0000_0000_0000 * (g * u) <= n * ub) by (nonlinear_arith)
            requires
                0x10_0000_0000_0000 * g <= n * bulk(ps),
                ub == u * bulk(ps),
                u > 0,
        {
            assert((0x10_0000_0000_0000 * g) * u <= (n * bulk(ps)) * u);
            assert((n * bulk(ps)) * u == n * ub);
        }
    }
    lemma_cross_identity(a, b, ma, mb);
    lemma_rows_hold(a, b, p, q);
    lemma_means_add(n, x, y, sum(xs), sum(ys), mx, my, sign);
    let e = (s - n * ma) * (t - n * mb);
    assert(n * (20 * w) == 20 * (n * w)) by (nonlinear_arith);
    lemma_trend_steps(n, w, zz, tt, isum(cs), e, ub, isum(rows(a, b)));
    assert(abs(z) * u <= 10 * (n * w)) by (nonlinear_arith)
        requires
            abs(z) <= 2 * bulk(ps),
            bulk(ps) * u <= 5 * (n * w),
            u > 0,
    {
        assert(abs(z) * u <= (2 * bulk(ps)) * u);
    }
}

/// One product, turned round with its axis.
proof fn lemma_turned_term(v: int, dx: int, dy: int, y: int, my: int, sign: int, u: int)
    requires
        sign == 1 || sign == -1,
        u > 0,
        dy == y - my,
    ensures
        sign * y - sign * my == sign * dy,
        abs((sign * u) * v - dx * (sign * y - sign * my)) == abs(v * u - dx * dy),
        abs((sign * u) * v) == u * abs(v),
{
    assert(sign * y - sign * my == sign * dy) by (nonlinear_arith)
        requires
            dy == y - my,
    ;
    let g = sign * dy;
    assert((sign * u) * v - dx * g == sign * (v * u - dx * dy)) by (nonlinear_arith)
        requires
            g == sign * dy,
    ;
    let h = v * u - dx * dy;
    assert(abs(sign * h) == abs(h)) by (nonlinear_arith)
        requires
            sign == 1 || sign == -1,
    ;
    assert(abs((sign * u) * v) == u * abs(v)) by (nonlinear_arith)
        requires
            sign == 1 || sign == -1,
            u > 0,
    ;
}

/// A value's distance from the mean, times the count, for values within a reach.
proof fn lemma_centre_reach(n: int, x: int, v: int, s: int)
    requires
        n > 0,
        abs(v) <= x,
        abs(s) <= n * x,
    ensures
        abs(n * v - s) <= 2 * (n * x),
{
    assert(abs(n * v) <= n * x) by (nonlinear_arith)
        requires
            n > 0,
            abs(v) <= x,
    ;
}

/// Between their ends, which have zero between them, values stay within the reach of the ends.
proof fn lemma_stays(xs: Seq<F64>, ys: Seq<F64>, sign: int, p: int, q: int)
    requires
        sign == 1 || sign == -1,
        xs.len() > 0,
        xs.len() == ys.len(),
        ends(turned(xs, 1), turned(ys, sign), p, q),
        xs[0].value() == 0,
        ys[0].value() == 0,
    ensures
        stays(xs, turned(xs, 1)[q] - turned(xs, 1)[p]),
        stays(ys, turned(ys, sign)[q] - turned(ys, sign)[p]),
        abs(xs[p].value()) + abs(xs[q].value()) >= turned(xs, 1)[q] - turned(xs, 1)[p],
        abs(ys[p].value()) + abs(ys[q].value()) >= turned(ys, sign)[q] - turned(ys, sign)[p],
{
    let a = turned(xs, 1);
    let b = turned(ys, sign);
    assert(a[0] == 0 && b[0] == 0);
    assert(a[p] <= a[0] <= a[q] && b[p] <= b[0] <= b[q]);
    assert forall|i: int| 0 <= i < xs.len() implies abs((#[trigger] xs[i]).value()) <= a[q]
        - a[p] && abs(ys[i].value()) <= b[q] - b[p] by {
        assert(a[p] <= a[i] <= a[q] && b[p] <= b[i] <= b[q]);
        assert(a[i] == 1 * xs[i].value());
        assert(b[i] == sign * ys[i].value());
    }
    assert forall|i: int| 0 <= i < ys.len() implies abs((#[trigger] ys[i]).value()) <= b[q]
        - b[p] by {
        assert(abs(xs[i].value()) <= a[q] - a[p]);
    }
    assert(a[p] == 1 * xs[p].value() && a[q] == 1 * xs[q].value());
    assert(b[p] == sign * ys[p].value() && b[q] == sign * ys[q].value());
}

/// The bulk of products that are within reach.
pub proof fn lemma_bulk_of_products(ps: Seq<F64>, u: int, w: int)
    requires
        forall|i: int| 0 <= i < ps.len() ==> abs((#[trigger] ps[i]).value()) * u <= 5 * w,
    ensures
        bulk(ps) * u <= 5 * (ps.len() * w),
    decreases ps.len(),
{
    let n = ps.len() as int;
    if n == 0 {
        assert(0 * u == 0 && 0 * w == 0);
    } else {
        let fewer = ps.drop_last();
        assert forall|i: int| 0 <= i < fewer.len() implies abs((#[trigger] fewer[i]).value()) * u
            <= 5 * w by {
            assert(fewer[i] == ps[i]);
        }
        lemma_bulk_of_products(fewer, u, w);
        let v = abs(ps[n - 1].value());
        assert(v * u <= 5 * w);
        assert((bulk(fewer) + v) * u == bulk(fewer) * u + v * u) by (nonlinear_arith);
        assert(n * w == (n - 1) * w + w) by (nonlinear_arith);
    }
}

/// A count of values that are within reach.
proof fn lemma_room(n: int, x: int, k: nat)
    requires
        0 < n <= MOST,
        0 <= x <= pow2(k),
    ensures
        4 * (n * x) <= pow2(k + 31),
{
    lemma2_to64();
    lemma_pow2_adds(k, 31);
    lemma_pow2_pos(k);
    assert(4 * (n * x) <= pow2(k) * 0x8000_0000) by (nonlinear_arith)
        requires
            0 < n <= 0x80_0000,
            0 <= x <= pow2(k),
    {
        assert(n * x <= 0x80_0000 * x);
    }
}

/// The products behind a slope do not overflow.
pub proof fn lemma_products_fit(n: int, w: int, b: int, u: int)
    requires
        0 < n <= MOST,
        0 < w <= pow2(2341),
        u == pow2(1074),
        b * u <= 5 * (n * w),
    ensures
        2 * b <= pow2(1300),
{
    lemma2_to64();
    lemma_pow2_pos(1074);
    lemma_pow2_adds(1300, 1074);
    lemma_pow2_adds(2341, 31);
    bounds::lemma_pow2_order(2372, 2374);
    assert(10 * (n * w) <= pow2(2341) * 0x8000_0000) by (nonlinear_arith)
        requires
            0 < n <= 0x80_0000,
            0 < w <= pow2(2341),
    {
        assert(n * w <= 0x80_0000 * w);
    }
    assert((2 * b) * u == 2 * (b * u)) by (nonlinear_arith);
    assert(2 * b <= pow2(1300)) by (nonlinear_arith)
        requires
            (2 * b) * u <= pow2(1300) * u,
            u > 0,
    ;
}

/// Observations that are not all at one sample and not all at one time.
pub open spec fn spread_out(s: Seq<DriftObservation>) -> bool {
    &&& exists|i: int| 0 <= i < s.len() && (#[trigger] s[i]).sample_index != s[0].sample_index
    &&& exists|i: int| 0 <= i < s.len() && (#[trigger] s[i]).utc_unix_nanos != s[0].utc_unix_nanos
}

/// Observations, in whatever order, of which a later sample never has an earlier time.
pub open spec fn time_runs_forwards(s: Seq<DriftObservation>) -> bool {
    forall|i: int, j: int|
        0 <= i < s.len() && 0 <= j < s.len() && (#[trigger] s[i]).sample_index < (
        #[trigger] s[j]).sample_index ==> s[i].utc_unix_nanos <= s[j].utc_unix_nanos
}

/// Observations, in whatever order, of which a later sample never has a later time.
pub open spec fn time_runs_backwards(s: Seq<DriftObservation>) -> bool {
    forall|i: int, j: int|
        0 <= i < s.len() && 0 <= j < s.len() && (#[trigger] s[i]).sample_index < (
        #[trigger] s[j]).sample_index ==> s[i].utc_unix_nanos >= s[j].utc_unix_nanos
}

/// An interval as seconds: its sign is kept, and it is neither vanishing nor beyond reach.
proof fn lemma_interval(t: int)
    requires
        i128::MIN <= t <= i128::MAX,
    ensures
        ({
            let y = F64::of_int(t).div_spec(F64 { bits: GIGA });
            &&& within(y, 1201)
            &&& t == 0 ==> y.value() == 0
            &&& t != 0 ==> pow2(1000) <= size(y) && y.is_negative_spec() == (t < 0)
        }),
{
    let x = F64::of_int(t);
    let g = F64 { bits: GIGA };
    time::lemma_giga();
    crate::float::round::lemma_pow2_127();
    lemma_pow2_pos(1074);
    lemma_pow2_pos(1000);
    time::lemma_nanos_in_seconds_within(t);
    if t == 0 {
        accuracy::law_small_integers_are_exact(0);
        assert(0 * pow2(1074) == 0);
        bounds::lemma_zero_over(x, g);
    } else {
        bounds::lemma_integer_between(t, 127);
        lemma2_to64();
        let u = pow2(1074) as int;
        let a = size(x) as int;
        let d = size(g) as int;
        lemma_pow2_adds(1000, 74);
        bounds::lemma_pow2_order(64, 74);
        assert(pow2(1000) * d <= a * u) by (nonlinear_arith)
            requires
                u <= a,
                d == 1_000_000_000 * u,
                u == pow2(1000) * pow2(74),
                pow2(74) >= 0x1_0000_0000_0000_0000,
                pow2(1000) > 0,
                u > 0,
        {
            assert(pow2(1000) * (1_000_000_000 * u) == (1_000_000_000 * pow2(1000)) * u);
            assert(1_000_000_000 * pow2(1000) <= pow2(1000) * pow2(74));
            assert((1_000_000_000 * pow2(1000)) * u <= u * u);
            assert(u * u <= a * u);
        }
        assert(a * u <= pow2(1201) * d) by (nonlinear_arith)
            requires
                0 <= a <= pow2(1201),
                d == 1_000_000_000 * u,
                u > 0,
        ;
        bounds::lemma_quotient_between(x, g, 1000, 1201);
    }
}

proof fn lemma_intervals_keep_order(a: int, b: int)
    requires
        i128::MIN <= a <= b <= i128::MAX,
    ensures
        F64::of_int(a).div_spec(F64 { bits: GIGA }).value() <= F64::of_int(b).div_spec(
            F64 { bits: GIGA },
        ).value(),
{
    let f = Width::Double;
    let g = F64 { bits: GIGA };
    time::lemma_giga();
    crate::float::round::lemma_pow2_127();
    lemma_interval(a);
    lemma_interval(b);
    bounds::lemma_integer_within(a, 127);
    bounds::lemma_integer_within(b, 127);
    bounds::lemma_integers_keep_order(a, b, 127);
    let x = F64::of_int(a);
    let y = F64::of_int(b);
    accuracy::lemma_finite_order(f, x.bits as nat, y.bits as nat);
    accuracy::law_quotients_keep_order(f, x.bits as nat, y.bits as nat, GIGA as nat);
    accuracy::lemma_is_pattern(f, x.bits as nat, GIGA as nat);
    accuracy::lemma_is_pattern(f, y.bits as nat, GIGA as nat);
    reveal(F64::div_spec);
    accuracy::lemma_finite_order(
        f,
        x.div_spec(g).bits as nat,
        y.div_spec(g).bits as nat,
    );
}

/// The interval from the first observation to another, in nanoseconds.
spec fn interval(s: Seq<DriftObservation>, i: int) -> int {
    time::held(s[i].utc_unix_nanos - s[0].utc_unix_nanos)
}

/// The two axes of observations: they are numbers, and begin at zero.
pub proof fn lemma_axes(s: Seq<DriftObservation>)
    requires
        s.len() > 0,
    ensures
        all_finite(dxs(s)),
        all_finite(dys(s)),
        dxs(s)[0].value() == 0,
        dys(s)[0].value() == 0,
        forall|i: int| 0 <= i < s.len() ==> abs((#[trigger] dxs(s)[i]).value()) <= pow2(1138),
        forall|i: int| 0 <= i < s.len() ==> abs((#[trigger] dys(s)[i]).value()) <= pow2(1201),
        forall|i: int|
            0 <= i < s.len() && s[i].sample_index != s[0].sample_index ==> abs(
                (#[trigger] dxs(s)[i]).value(),
            ) >= pow2(1074),
        forall|i: int|
            0 <= i < s.len() && s[i].utc_unix_nanos != s[0].utc_unix_nanos ==> abs(
                (#[trigger] dys(s)[i]).value(),
            ) >= pow2(1000),
{
    lemma2_to64();
    accuracy::law_small_integers_are_exact(0);
    assert(0 * pow2(1074) == 0);
    lemma_interval(0);
    assert forall|i: int| 0 <= i < s.len() implies {
        let x = #[trigger] dxs(s)[i];
        &&& x.is_finite_spec()
        &&& abs(x.value()) <= pow2(1138)
        &&& s[i].sample_index != s[0].sample_index ==> abs(x.value()) >= pow2(1074)
    } by {
        let d = s[i].sample_index - s[0].sample_index;
        bounds::lemma_integer_within(d, 64);
        if d != 0 {
            bounds::lemma_integer_between(d, 64);
        }
    }
    assert forall|i: int| 0 <= i < s.len() implies {
        let y = #[trigger] dys(s)[i];
        &&& y.is_finite_spec()
        &&& abs(y.value()) <= pow2(1201)
        &&& s[i].utc_unix_nanos != s[0].utc_unix_nanos ==> abs(y.value()) >= pow2(1000)
    } by {
        lemma_interval(interval(s, i));
    }
}

/// Observations whose time runs one way, forwards or, where `sign` is negative, backwards: the
/// axes move together.
proof fn lemma_axes_move(s: Seq<DriftObservation>, sign: int)
    requires
        sign == 1 && time_runs_forwards(s) || sign == -1 && time_runs_backwards(s),
    ensures
        together(turned(dxs(s), 1), turned(dys(s), sign)),
{
    let a = turned(dxs(s), 1);
    let b = turned(dys(s), sign);
    lemma2_to64();
    assert forall|i: int, j: int|
        0 <= i < a.len() && 0 <= j < a.len() && #[trigger] a[i] < #[trigger] a[j] implies b[i]
        <= b[j] by {
        let c = s[i].sample_index - s[0].sample_index;
        let d = s[j].sample_index - s[0].sample_index;
        if d <= c {
            bounds::lemma_integers_keep_order(d, c, 64);
        }
        assert(s[i].sample_index < s[j].sample_index);
        if sign == 1 {
            lemma_intervals_keep_order(interval(s, i), interval(s, j));
        } else {
            lemma_intervals_keep_order(interval(s, j), interval(s, i));
        }
    }
}

/// The ends of the axes are within reach.
proof fn lemma_axes_reach(s: Seq<DriftObservation>, sign: int, p: int, q: int)
    requires
        sign == 1 || sign == -1,
        spread_out(s),
        ends(turned(dxs(s), 1), turned(dys(s), sign), p, q),
    ensures
        s.len() >= 2,
        in_reach(
            turned(dxs(s), 1)[q] - turned(dxs(s), 1)[p],
            turned(dys(s), sign)[q] - turned(dys(s), sign)[p],
        ),
{
    let xs = dxs(s);
    let ys = dys(s);
    let i = choose|i: int|
        0 <= i < s.len() && (#[trigger] s[i]).sample_index != s[0].sample_index;
    let j = choose|j: int|
        0 <= j < s.len() && (#[trigger] s[j]).utc_unix_nanos != s[0].utc_unix_nanos;
    lemma_axes(s);
    lemma_stays(xs, ys, sign, p, q);
    assert(abs(xs[i].value()) >= pow2(1074));
    assert(abs(ys[j].value()) >= pow2(1000));
    lemma_pow2_unfold(1139);
    lemma_pow2_unfold(1202);
    let a = turned(xs, 1);
    let b = turned(ys, sign);
    assert(abs(xs[p].value()) <= pow2(1138) && abs(xs[q].value()) <= pow2(1138));
    assert(abs(ys[p].value()) <= pow2(1201) && abs(ys[q].value()) <= pow2(1201));
    assert(a[p] == 1 * xs[p].value() && a[q] == 1 * xs[q].value());
    assert(b[p] == sign * ys[p].value() && b[q] == sign * ys[q].value());
}

/// Time that runs backwards across a take is no rate: up to 8,388,608 observations, in whatever
/// order, of which a later sample never has a later time, have no fit.
pub proof fn law_time_running_backwards_gives_no_fit(s: Seq<DriftObservation>)
    requires
        s.len() <= MOST,
        spread_out(s),
        time_runs_backwards(s),
    ensures
        fit_of(s) is None,
{
    let a = turned(dxs(s), 1);
    let b = turned(dys(s), -1);
    lemma_axes(s);
    lemma_axes_move(s, -1);
    let (p, q) = lemma_ends(a, b);
    lemma_axes_reach(s, -1, p, q);
    lemma_trend(dxs(s), dys(s), -1, p, q);
    let n = s.len() as int;
    let x = a[q] - a[p];
    let y = b[q] - b[p];
    lemma_reach(x, y);
    let z = fold::total(
        F64 { bits: ZERO },
        finalize::moments(dxs(s), mean(dxs(s)), dys(s), mean(dys(s))),
    );
    let u = pow2(1074) as int;
    lemma_pow2_pos(1074);
    assert(z.value() < 0) by (nonlinear_arith)
        requires
            4 * (n * (-1 * (z.value() * u))) >= x * y,
            x * y > 0,
            n > 0,
            u > 0,
    {
        if z.value() >= 0 {
            assert(z.value() * u >= 0);
            assert(n * (-1 * (z.value() * u)) <= 0);
        }
    }
    if has_line(s) {
        let d = sxx_of(s);
        reveal(F64::div_spec);
        assert(!d.is_negative_spec());
        assert(beta_of(s).le_spec(F64 { bits: ZERO }));
    }
}

/// The slope of observations whose time runs forwards.
proof fn lemma_rising_slope(s: Seq<DriftObservation>)
    requires
        s.len() <= MOST,
        spread_out(s),
        time_runs_forwards(s),
    ensures
        s.len() >= 2,
        sxx_of(s).is_finite_spec(),
        sxx_of(s).value() > 0,
        within(beta_of(s), 1254),
        pow2(880) <= size(beta_of(s)),
        !beta_of(s).is_negative_spec(),
{
    let xs = dxs(s);
    let ys = dys(s);
    let a = turned(xs, 1);
    let b = turned(ys, 1);
    lemma_axes(s);
    lemma_axes_move(s, 1);
    let (p, q) = lemma_ends(a, b);
    lemma_axes_reach(s, 1, p, q);
    let n = s.len() as int;
    let x = a[q] - a[p];
    let y = b[q] - b[p];
    let u = pow2(1074) as int;
    lemma_pow2_pos(1074);
    bounds::lemma_pow2_order(1000, 1074);
    bounds::lemma_pow2_order(1139, 1202);
    lemma_trend(xs, ys, 1, p, q);
    assert(ends(a, a, p, q));
    lemma_trend(xs, xs, 1, p, q);
    lemma_reach(x, y);
    lemma_reach(x, x);
    let zy = fold::total(F64 { bits: ZERO }, finalize::moments(xs, mean(xs), ys, mean(ys)));
    let zx = sxx_of(s);
    lemma_positive(n, zy.value(), u, x * y);
    lemma_positive(n, zx.value(), u, x * x);
    lemma_slope_between(n, x, y, u, zy.value(), zx.value());
    bounds::lemma_quotient_between(zy, zx, 880, 1254);
}

proof fn lemma_positive(n: int, z: int, u: int, w: int)
    requires
        n > 0,
        u > 0,
        w > 0,
        4 * (n * (1 * (z * u))) >= w,
    ensures
        z > 0,
{
    assert(z > 0) by (nonlinear_arith)
        requires
            4 * (n * (1 * (z * u))) >= w,
            w > 0,
            n > 0,
            u > 0,
    {
        if z <= 0 {
            assert(z * u <= 0);
            assert(n * (1 * (z * u)) <= 0);
        }
    }
}

/// The bounds of a slope, from those of the two sums that it is the quotient of.
proof fn lemma_slope_between(n: int, x: int, y: int, u: int, a: int, b: int)
    requires
        2 <= n <= MOST,
        in_reach(x, y),
        u == pow2(1074),
        a > 0,
        b > 0,
        4 * (n * (1 * (a * u))) >= x * y,
        4 * (n * (1 * (b * u))) >= x * x,
        a * u <= 10 * (n * (x * y)),
        b * u <= 10 * (n * (x * x)),
    ensures
        pow2(880) * b <= a * u <= pow2(1254) * b,
{
    lemma_reach(x, y);
    lemma_pow2_pos(1074);
    lemma_pow2_pos(880);
    lemma_pow2_pos(1254);
    lemma2_to64();
    lemma2_to64_rest();
    let nn = n * n;
    assert(0 < 40 * nn <= 0x10_0000_0000_0000) by (nonlinear_arith)
        requires
            2 <= n <= 0x80_0000,
            nn == n * n,
    ;
    let f = 4 * (n * u);
    assert(f > 0) by (nonlinear_arith)
        requires
            n > 0,
            u > 0,
            f == 4 * (n * u),
    ;
    // From above.
    lemma_pow2_adds(1202, 52);
    assert((40 * nn) * y <= pow2(1254)) by (nonlinear_arith)
        requires
            0 < 40 * nn <= 0x10_0000_0000_0000,
            0 < y <= pow2(1202),
            pow2(1254) == pow2(1202) * 0x10_0000_0000_0000,
    {
        assert((40 * nn) * y <= 0x10_0000_0000_0000 * y);
    }
    let hi = pow2(1254) as int;
    assert(f * (a * u) <= f * (hi * b)) by {
        assert(f * (a * u) <= (u * x) * ((40 * nn) * y)) by (nonlinear_arith)
            requires
                f == 4 * (n * u),
                a * u <= 10 * (n * (x * y)),
                nn == n * n,
                n > 0,
                u > 0,
        {
            assert(f * (a * u) <= f * (10 * (n * (x * y)))) by {
                assert(f > 0);
            }
            assert((4 * (n * u)) * (10 * (n * (x * y))) == (u * x) * ((40 * (n * n)) * y));
        }
        assert((u * x) * ((40 * nn) * y) <= (u * x) * hi) by (nonlinear_arith)
            requires
                u > 0,
                x > 0,
                (40 * nn) * y <= hi,
        {
            assert(u * x > 0);
        }
        assert((u * x) * hi <= (x * x) * hi) by (nonlinear_arith)
            requires
                u <= x,
                x > 0,
                hi > 0,
        {
            assert(u * x <= x * x);
        }
        assert(hi * (4 * (n * (1 * (b * u)))) == f * (hi * b)) by (nonlinear_arith)
            requires
                f == 4 * (n * u),
        ;
        assert((x * x) * hi <= hi * (4 * (n * (1 * (b * u))))) by (nonlinear_arith)
            requires
                4 * (n * (1 * (b * u))) >= x * x,
                hi > 0,
        ;
    }
    assert(a * u <= hi * b) by (nonlinear_arith)
        requires
            f * (a * u) <= f * (hi * b),
            f > 0,
    ;
    // From below.
    let lo = pow2(880) as int;
    lemma_pow2_adds(880, 52);
    lemma_pow2_adds(932, 1139);
    lemma_pow2_adds(1074, 1000);
    bounds::lemma_pow2_order(2071, 2074);
    assert((lo * (40 * nn)) * x <= u * y) by (nonlinear_arith)
        requires
            0 < 40 * nn <= 0x10_0000_0000_0000,
            0 < x <= pow2(1139),
            pow2(1000) <= y,
            lo > 0,
            u > 0,
            lo * 0x10_0000_0000_0000 == pow2(932),
            pow2(932) * pow2(1139) <= u * pow2(1000),
    {
        assert(lo * (40 * nn) <= lo * 0x10_0000_0000_0000);
        assert((lo * (40 * nn)) * x <= pow2(932) * x);
        assert(pow2(932) * x <= pow2(932) * pow2(1139));
        assert(u * pow2(1000) <= u * y);
    }
    assert(f * (lo * b) <= f * (a * u)) by {
        assert(f * (lo * b) <= ((lo * (40 * nn)) * x) * x) by (nonlinear_arith)
            requires
                f == 4 * (n * u),
                b * u <= 10 * (n * (x * x)),
                nn == n * n,
                n > 0,
                lo > 0,
        {
            assert((4 * (n * u)) * (lo * b) == (4 * (n * lo)) * (b * u));
            assert((4 * (n * lo)) > 0);
            assert((4 * (n * lo)) * (b * u) <= (4 * (n * lo)) * (10 * (n * (x * x))));
            assert((4 * (n * lo)) * (10 * (n * (x * x))) == ((lo * (40 * (n * n))) * x) * x);
        }
        assert(((lo * (40 * nn)) * x) * x <= (u * y) * x) by (nonlinear_arith)
            requires
                (lo * (40 * nn)) * x <= u * y,
                x > 0,
        ;
        assert((u * y) * x == u * (x * y)) by (nonlinear_arith);
        assert(u * (4 * (n * (1 * (a * u)))) == f * (a * u)) by (nonlinear_arith)
            requires
                f == 4 * (n * u),
        ;
        assert(u * (x * y) <= u * (4 * (n * (1 * (a * u))))) by (nonlinear_arith)
            requires
                4 * (n * (1 * (a * u))) >= x * y,
                u > 0,
        ;
    }
    assert(lo * b <= a * u) by (nonlinear_arith)
        requires
            f * (lo * b) <= f * (a * u),
            f > 0,
    ;
}

/// A double that is neither vanishing nor negative is usable.
proof fn lemma_usable(x: F64)
    requires
        x.is_finite_spec(),
        size(x) > 0,
        !x.is_negative_spec(),
    ensures
        is_usable(x),
{
    accuracy::lemma_zero(Width::Double);
    if x.bits == 0 {
        assert(size(x) == ops::magnitude(Width::Double, 0));
    }
}

/// Time that runs forwards across a take is a rate: up to 8,388,608 observations, in whatever
/// order, of which a later sample never has an earlier time, have a fit, with a slope and a rate
/// that are positive finite numbers.
pub proof fn law_time_running_forwards_gives_a_rate(s: Seq<DriftObservation>)
    requires
        s.len() <= MOST,
        spread_out(s),
        time_runs_forwards(s),
    ensures
        fit_of(s) is Some,
        is_usable(fit_of(s)->0.seconds_per_sample),
        is_usable(fit_of(s)->0.measured_rate),
{
    lemma_rising_slope(s);
    let beta = beta_of(s);
    let one = F64 { bits: ONE };
    lemma_pow2_pos(880);
    lemma_usable(beta);
    bounds::lemma_power(1074);
    assert(bounds::power_bits(1074) == ONE);
    lemma_pow2_adds(1074, 1074);
    lemma_pow2_adds(890, 1254);
    lemma_pow2_adds(1270, 880);
    bounds::lemma_pow2_order(2144, 2148);
    bounds::lemma_pow2_order(2148, 2150);
    let d = size(beta) as int;
    lemma_pow2_pos(890);
    lemma_pow2_pos(1270);
    assert(pow2(890) * d <= pow2(890) * pow2(1254)) by (nonlinear_arith)
        requires
            d <= pow2(1254),
            pow2(890) > 0,
    ;
    assert(pow2(1270) * pow2(880) <= pow2(1270) * d) by (nonlinear_arith)
        requires
            d >= pow2(880),
            pow2(1270) > 0,
    ;
    bounds::lemma_quotient_between(one, beta, 890, 1270);
    lemma_usable(one.div_spec(beta));
    lemma_usable(sxx_of(s));
}

/// Either of the two zeros.
spec fn is_nought(x: F64) -> bool {
    ops::is_zero(Width::Double, x.bits as nat)
}

proof fn lemma_noughts_add(x: F64, y: F64)
    requires
        is_nought(x),
        is_nought(y),
    ensures
        is_nought(x.add_spec(y)),
        is_nought(x.neg_spec()),
{
    reveal(F64::add_spec);
    accuracy::lemma_zero(Width::Double);
    assert(size(x) == ops::magnitude(Width::Double, 0));
    assert(size(y) == ops::magnitude(Width::Double, 0));
}

proof fn lemma_nought_times(x: F64, y: F64)
    requires
        is_nought(x),
        y.is_finite_spec(),
    ensures
        is_nought(x.mul_spec(y)),
{
    reveal(F64::mul_spec);
    let f = Width::Double;
    accuracy::lemma_zero(f);
    lemma_pow2_pos(1074);
    assert(size(x) == ops::magnitude(f, 0));
    let n = size(x) * size(y);
    assert(n == 0) by (nonlinear_arith)
        requires
            n == size(x) * size(y),
            size(x) == 0,
    ;
    assert(0 * pow2(1074) == 0);
    accuracy::law_rounding_never_passes_a_float(f, n, pow2(1074), 0);
}

proof fn lemma_noughts_total(start: F64, s: Seq<F64>)
    requires
        is_nought(start),
        forall|i: int| 0 <= i < s.len() ==> is_nought(#[trigger] s[i]),
    ensures
        is_nought(fold::total(start, s)),
    decreases s.len(),
{
    if s.len() > 0 {
        let fewer = s.drop_last();
        assert forall|i: int| 0 <= i < fewer.len() implies is_nought(#[trigger] fewer[i]) by {
            assert(fewer[i] == s[i]);
        }
        lemma_noughts_total(start, fewer);
        assert(is_nought(s[s.len() - 1]));
        lemma_noughts_add(fold::total(start, fewer), s.last());
    }
}

/// Observations that are all at one sample describe no line.
pub proof fn law_observations_at_one_sample_give_no_fit(s: Seq<DriftObservation>)
    requires
        s.len() <= usize::MAX,
        forall|i: int| 0 <= i < s.len() ==> (#[trigger] s[i]).sample_index == s[0].sample_index,
    ensures
        fit_of(s) is None,
{
    if s.len() >= 2 {
        let f = Width::Double;
        let xs = dxs(s);
        let n = s.len() as int;
        accuracy::law_small_integers_are_exact(0);
        assert(0 * pow2(1074) == 0);
        lemma_pow2_pos(1074);
        let zero = F64::of_int(0);
        assert(is_nought(zero)) by {
            accuracy::lemma_zero(f);
            if zero.bits > 0 {
                accuracy::lemma_magnitude_grows(f, 0, zero.bits as nat);
            }
        }
        assert forall|i: int| 0 <= i < xs.len() implies is_nought(#[trigger] xs[i]) by {
            assert(s[i].sample_index == s[0].sample_index);
        }
        lemma_noughts_total(F64 { bits: fold::NEG_ZERO }, xs);
        let one = F64 { bits: ONE };
        let count = F64::of_int(n);
        lemma2_to64();
        bounds::lemma_integer_between(n, 64);
        bounds::lemma_bits_within(one, 1074);
        bounds::lemma_quotient_within(one, count, 1074, 1074);
        lemma_nought_times(fold::total(F64 { bits: fold::NEG_ZERO }, xs), one.div_spec(count));
        let mx = mean(xs);
        let ps = finalize::moments(xs, mx, xs, mx);
        assert forall|i: int| 0 <= i < ps.len() implies is_nought(#[trigger] ps[i]) by {
            assert(is_nought(xs[i]));
            lemma_noughts_add(mx, mx);
            lemma_noughts_add(xs[i], mx.neg_spec());
            let d = xs[i].sub_spec(mx);
            lemma_nought_times(d, d);
        }
        lemma_noughts_total(F64 { bits: ZERO }, ps);
        assert(sxx_of(s).le_spec(F64 { bits: ZERO }));
    }
}

} // verus!
