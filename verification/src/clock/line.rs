//! What the fitted line promises, in numbers.
//!
//! The line is fitted in doubles. Here it is held against exact arithmetic on the samples that
//! survived: where its slope is trusted it is their least-squares line, and where it is not it is
//! their mean.

use crate::clock::{
    co_spreads, cutoff_of, delays, law_the_fit_is_gated, lemma_kept_passes, lemma_least_is_one,
    lemma_means_are_numbers, lemma_slope_is_a_number, lemma_spreads_are_numbers, lemma_survivors,
    mean, residual, sample_of, slope_of, slope_supported, span_of, spreads, squared_residuals,
    sxx_of, xs, ys, ClockModel, ClockSample, Fit, SyncState, DELAY_REJECT_FACTOR, EPSILON,
    MAX_PLAUSIBLE_PPM, MIN_SLOPE_SPAN, WINDOW,
};
use crate::drift;
use crate::finalize::moments;
use crate::float::accuracy;
use crate::float::bounds;
use crate::float::error;
use crate::float::error::{abs, all_finite, sum};
use crate::float::fold;
use crate::float::ops;
use crate::float::ops::Width;
use crate::float::round;
use crate::float::F64;
use crate::instants;
use crate::least_squares;
use crate::least_squares::{
    are_bounds, is_least_squares, near_a_line, never_falls, never_rises, reaches, size_of, spread,
    trend_of, values,
};
use crate::scatter;
use crate::scatter::{are_distances, is_distance, is_scatter};
use crate::time::{Instant, MEGA, TWO};
use crate::trend;
use crate::trend::crosses;
use vstd::arithmetic::div_mod::*;
use vstd::arithmetic::mul::*;
use vstd::arithmetic::power2::*;
use vstd::prelude::*;

verus! {

/// Whether some samples lie within `x` of the base and are corrected by no more than `y`, both in
/// units of the smallest double.
pub open spec fn lie_within(k: Seq<ClockSample>, x: int, y: int) -> bool {
    &&& are_bounds(x, y)
    &&& reaches(xs(k), x)
    &&& reaches(ys(k), y)
}

/// The slope and the intercept of the samples, as they would be if every gate passed, make the
/// least-squares line.
proof fn lemma_line(k: Seq<ClockSample>, x: int, y: int)
    requires
        2 <= k.len() <= WINDOW,
        forall|i: int| 0 <= i < k.len() ==> (#[trigger] k[i]).measured(),
        !sxx_of(k).le_spec(F64 { bits: EPSILON }),
        lie_within(k, x, y),
    ensures
        slope_of(k).is_finite_spec(),
        is_least_squares(
            xs(k),
            ys(k),
            mean(ys(k)).sub_spec(slope_of(k).mul_spec(mean(xs(k)))),
            slope_of(k),
            x,
            y,
        ),
{
    let b = slope_of(k);
    let a = mean(ys(k)).sub_spec(b.mul_spec(mean(xs(k))));
    lemma_slope_is_a_number(k);
    lemma_means_are_numbers(k);
    lemma_spreads_are_numbers(k);
    bounds::lemma_product_within(b, mean(xs(k)), 1345, 1148);
    bounds::lemma_within_more(mean(ys(k)), 1209, 1419);
    bounds::lemma_difference_within(mean(ys(k)), b.mul_spec(mean(xs(k))), 1419);
    assert(spreads(k, mean(xs(k))) =~= moments(xs(k), mean(xs(k)), xs(k), mean(xs(k))));
    assert(co_spreads(k, mean(xs(k)), mean(ys(k))) =~= moments(
        xs(k),
        mean(xs(k)),
        ys(k),
        mean(ys(k)),
    ));
    bounds::lemma_power(1022);
    assert(bounds::power_bits(1022) == EPSILON);
    accuracy::lemma_finite_order(Width::Double, sxx_of(k).bits as nat, EPSILON as nat);
    lemma_pow2_pos(1022);
    assert(sxx_of(k).value() > 0);
    lemma_finite_axes(k);
    least_squares::lemma_normal_equations(xs(k), ys(k), a, b, x, y);
}

proof fn lemma_finite_axes(k: Seq<ClockSample>)
    requires
        forall|i: int| 0 <= i < k.len() ==> (#[trigger] k[i]).measured(),
    ensures
        all_finite(xs(k)),
        all_finite(ys(k)),
{
    assert forall|i: int| 0 <= i < k.len() implies (#[trigger] xs(k)[i]).is_finite_spec() by {
        assert(k[i].measured());
    }
    assert forall|i: int| 0 <= i < k.len() implies (#[trigger] ys(k)[i]).is_finite_spec() by {
        assert(k[i].measured());
    }
}

/// Where the slope of a fit is trusted, the fit is the least-squares line of the samples that
/// survived: what is left of their corrections above and below it cancels out, both by itself and
/// weighted by their time, to within the rounding. Of all lines this is the one with the least
/// squared distance, whichever sign its slope has.
pub proof fn law_a_trusted_line_is_least_squares(m: ClockModel, x: int, y: int)
    requires
        m.wf(),
        m.fit is Some,
        m.fit->0.slope_trusted,
        lie_within(m.survivors(), x, y),
    ensures
        is_least_squares(xs(m.survivors()), ys(m.survivors()), m.fit->0.a, m.fit->0.b, x, y),
{
    lemma_survivors(m);
    lemma_line(m.survivors(), x, y);
}

/// Where the slope of a fit is trusted, corrections that never rise with time give a slope that
/// is not positive, and corrections that never fall one that is not negative, as far as the
/// rounding lets it be told.
pub proof fn law_the_slope_follows_the_corrections(m: ClockModel, x: int, y: int)
    requires
        m.wf(),
        m.fit is Some,
        m.fit->0.slope_trusted,
        lie_within(m.survivors(), x, y),
    ensures
        ({
            let k = m.survivors();
            let n = k.len() as int;
            let b = m.fit->0.b;
            let slack = (n * n * n) * (x * size_of(b, x, y));
            &&& never_rises(xs(k), ys(k)) ==> 0x2000_0000_0000 * (b.value() * spread(
                values(xs(k)),
            )) <= slack
            &&& never_falls(xs(k), ys(k)) ==> 0x2000_0000_0000 * (b.value() * spread(
                values(xs(k)),
            )) >= -slack
        }),
{
    let k = m.survivors();
    law_a_trusted_line_is_least_squares(m, x, y);
    lemma_bounds(x, y);
    least_squares::law_the_slope_goes_where_the_points_go(
        xs(k),
        ys(k),
        m.fit->0.a,
        m.fit->0.b,
        x,
        y,
    );
}

proof fn lemma_bounds(x: int, y: int)
    requires
        are_bounds(x, y),
    ensures
        x > 0,
        y > 0,
{
    lemma_pow2_pos(1074);
    lemma_pow2_pos(1000);
}

/// Where the slope of a fit is trusted, samples that lie within `t` of a line `a0 + b0 * x`, of
/// either sign, give it back: the fitted slope differs from `b0` by no more than `t` and the
/// rounding make over the spread of the samples, and the intercept from `a0` accordingly.
pub proof fn law_samples_near_a_line_give_it_back(
    m: ClockModel,
    x: int,
    y: int,
    a0: F64,
    b0: F64,
    t: int,
)
    requires
        m.wf(),
        m.fit is Some,
        m.fit->0.slope_trusted,
        lie_within(m.survivors(), x, y),
        t >= 0,
        near_a_line(xs(m.survivors()), ys(m.survivors()), a0, b0, t),
    ensures
        ({
            let n = m.survivors().len() as int;
            let a = m.fit->0.a;
            let b = m.fit->0.b;
            let k = size_of(b, x, y);
            let off = abs(b.value() - b0.value());
            &&& 0x2000_0000_0000 * (off * spread(values(xs(m.survivors())))) <= (n * n * n) * (x
                * k) + 0x4000_0000_0000 * ((n * n) * (x * t))
            &&& 0x2_0000_0000_0000 * (pow2(1074) * abs(a.value() - a0.value())) <= n * k
                + 0x2_0000_0000_0000 * (t + off * x)
        }),
{
    let k = m.survivors();
    law_a_trusted_line_is_least_squares(m, x, y);
    lemma_bounds(x, y);
    least_squares::law_points_near_a_line_give_it_back(
        xs(k),
        ys(k),
        m.fit->0.a,
        m.fit->0.b,
        x,
        y,
        a0,
        b0,
        t,
    );
}

/// Where the slope is not trusted, the fit is flat, and as high as the mean of the corrections of
/// the samples that survived, to within the rounding.
pub proof fn law_an_untrusted_line_is_the_mean(m: ClockModel, y: int)
    requires
        m.wf(),
        m.fit is Some,
        !m.fit->0.slope_trusted,
        pow2(1000) <= y <= pow2(1201),
        reaches(ys(m.survivors()), y),
    ensures
        ({
            let n = m.survivors().len() as int;
            let fit = m.fit->0;
            &&& n >= 1
            &&& fit.b.value() == 0
            &&& 0x20_0000_0000_0000 * abs(n * fit.a.value() - sum(ys(m.survivors()))) <= 11 * ((n
                * n) * y)
        }),
{
    let k = m.survivors();
    let n = k.len() as int;
    let s = ys(k);
    lemma_survivors(m);
    lemma_finite_axes(k);
    least_squares::lemma_bulk_reaches(s, y);
    lemma_pow2_pos(1000);
    let t = n * y;
    lemma2_to64();
    lemma_pow2_adds(64, 64);
    bounds::lemma_pow2_order(128, 1000);
    lemma_pow2_adds(25, 1201);
    assert(y <= t && 4 * t <= pow2(1226)) by (nonlinear_arith)
        requires
            t == n * y,
            1 <= n <= 8,
            0 <= y <= pow2(1201),
            pow2(1226) == 0x200_0000 * pow2(1201),
    ;
    error::lemma_mean_error_over(s, t, 1226);
    assert((11 * n) * t == 11 * ((n * n) * y)) by (nonlinear_arith)
        requires
            t == n * y,
    ;
    accuracy::lemma_zero(Width::Double);
}

/// What is slow is dropped, and nothing else: of the last samples of the log, a sample survives
/// exactly where its delay is no more than twice that of every one of them.
pub proof fn law_the_slow_exchanges_are_dropped(m: ClockModel)
    requires
        m.wf(),
        m.proper_delays(),
    ensures
        m.survivors() == m.window@.filter(
            |c: ClockSample|
                forall|j: int|
                    0 <= j < m.window@.len() ==> c.delay.value() <= 2 * (
                    #[trigger] m.window@[j]).delay.value(),
        ),
{
    let w = m.window@;
    let fast = |c: ClockSample|
        forall|j: int| 0 <= j < w.len() ==> c.delay.value() <= 2 * (#[trigger] w[j]).delay.value();
    let cutoff = cutoff_of(w);
    lemma_kept_passes(w, cutoff);
    let slow = |c: ClockSample| c.delay.le_spec(cutoff);
    if w.len() > 0 {
        let i = lemma_least_is_one(w);
        let least = w[i].delay;
        assert forall|c: int| 0 <= c < w.len() implies #[trigger] slow(w[c]) == fast(w[c]) by {
            lemma_twice(least, w[c].delay);
            assert(w[c].delay.is_finite_spec());
            assert forall|j: int| 0 <= j < w.len() implies least.value() <= (
            #[trigger] w[j]).delay.value() by {
                lemma_least(w, j);
                accuracy::lemma_finite_order(
                    Width::Double,
                    least.bits as nat,
                    w[j].delay.bits as nat,
                );
            }
            if w[c].delay.value() <= 2 * least.value() {
                assert(fast(w[c]));
            } else {
                assert(w[i].delay == least);
                assert(!fast(w[c]));
            }
        }
    }
    lemma_same_filter(w, slow, fast);
}

proof fn lemma_same_filter(
    w: Seq<ClockSample>,
    f: spec_fn(ClockSample) -> bool,
    g: spec_fn(ClockSample) -> bool,
)
    requires
        forall|i: int| 0 <= i < w.len() ==> #[trigger] f(w[i]) == g(w[i]),
    ensures
        w.filter(f) == w.filter(g),
    decreases w.len(),
{
    reveal(Seq::filter);
    if w.len() > 0 {
        let fewer = w.drop_last();
        assert forall|i: int| 0 <= i < fewer.len() implies #[trigger] f(fewer[i]) == g(
            fewer[i],
        ) by {
            assert(fewer[i] == w[i]);
        }
        lemma_same_filter(fewer, f, g);
        assert(f(w[w.len() - 1]) == g(w[w.len() - 1]));
    }
}

/// The least of some delays is no more than any of them.
proof fn lemma_least(w: Seq<ClockSample>, j: int)
    requires
        0 <= j < w.len(),
        forall|i: int| 0 <= i < w.len() ==> (#[trigger] w[i]).delay.is_finite_spec(),
    ensures
        fold::least(delays(w)).key() <= w[j].delay.key(),
    decreases w.len(),
{
    let fewer = w.drop_last();
    assert(delays(w).drop_last() =~= delays(fewer));
    assert(delays(w).last() == w.last().delay);
    assert(w[w.len() - 1].delay.is_finite_spec());
    assert forall|i: int| 0 <= i < fewer.len() implies (
    #[trigger] fewer[i]).delay.is_finite_spec() by {
        assert(fewer[i] == w[i]);
    }
    let rest = fold::least(delays(fewer));
    assert(!rest.is_nan_spec()) by {
        if fewer.len() == 0 {
            assert(rest == F64 { bits: fold::INFINITY });
        } else {
            let i = lemma_least_is_one(fewer);
            assert(w[i] == fewer[i]);
        }
    }
    if j < fewer.len() {
        lemma_least(fewer, j);
        assert(fewer[j] == w[j]);
    }
}

/// Whether a delay is at most twice another is what the doubles say.
proof fn lemma_twice(least: F64, d: F64)
    requires
        least.is_finite_spec(),
        !least.is_negative_spec(),
        d.is_finite_spec(),
        !d.is_negative_spec(),
    ensures
        d.le_spec(least.mul_spec(F64 { bits: DELAY_REJECT_FACTOR })) <==> d.value() <= 2
            * least.value(),
{
    let two = F64 { bits: DELAY_REJECT_FACTOR };
    let f = Width::Double;
    let u = pow2(1074);
    let c = least.mul_spec(two);
    lemma_pow2_pos(1074);
    lemma_pow2_unfold(1075);
    bounds::lemma_power(1075);
    assert(bounds::power_bits(1075) == DELAY_REJECT_FACTOR);
    let a = bounds::size(least);
    assert(bounds::size(two) == 2 * u);
    reveal(F64::mul_spec);
    let n = a * bounds::size(two);
    assert(n == (2 * a) * u) by (nonlinear_arith)
        requires
            n == a * (2 * u),
    ;
    let bits = round::round_bits(53, f.top(), n, u);
    assert(c.bits == bits);
    accuracy::law_rounding_never_passes_a_float(f, n, u, d.bits as nat);
    let v = bounds::size(d);
    assert(n >= v * u <==> 2 * a >= v) by (nonlinear_arith)
        requires
            n == (2 * a) * u,
            u > 0,
    ;
    if d.value() <= 2 * least.value() {
        assert(bits >= d.bits);
    } else {
        // The double is exact, so it does not reach what is above it.
        if bits >= d.bits {
            assert(n <= v * u) by (nonlinear_arith)
                requires
                    n == (2 * a) * u,
                    2 * a <= v,
                    u > 0,
            ;
            assert(bits == d.bits);
            assert(ops::magnitude(f, bits) == v);
            lemma_double_is_exact(a, v, least);
        }
    }
}

/// Twice a double is a double, so it does not round up to a greater one.
proof fn lemma_double_is_exact(a: nat, v: nat, least: F64)
    requires
        least.is_finite_spec(),
        a == bounds::size(least),
        round::round_bits(53, Width::Double.top(), (a * (2 * pow2(1074))) as nat, pow2(1074))
            < Width::Double.top(),
        ops::magnitude(
            Width::Double,
            round::round_bits(
                53,
                Width::Double.top(),
                (a * (2 * pow2(1074))) as nat,
                pow2(1074),
            ),
        ) == v,
    ensures
        v == 2 * a,
{
    let f = Width::Double;
    let u = pow2(1074);
    lemma_pow2_pos(1074);
    let n = (a * (2 * u)) as nat;
    assert(n == (2 * a) * u) by (nonlinear_arith)
        requires
            n == a * (2 * u),
    ;
    let half = pow2(52);
    let m = ops::magnitude_bits(f, least.bits as nat);
    lemma2_to64();
    lemma2_to64_rest();
    lemma_fundamental_div_mod(m as int, half as int);
    lemma_mod_bound(m as int, half as int);
    let field = m / half;
    let twice: nat = if field == 0 {
        2 * m
    } else {
        m + half
    };
    assert(field <= 2046) by (nonlinear_arith)
        requires
            m < 0x7FF0_0000_0000_0000,
            half == 0x10_0000_0000_0000,
            m == half * field + m % half,
            m % half >= 0,
    ;
    let fraction = m % half;
    if field == 0 {
        assert(m == fraction);
        assert(a == m);
        if twice < half {
            lemma_basic_div(twice as int, half as int);
            lemma_small_mod(twice, half);
        } else {
            lemma_fundamental_div_mod_converse(twice as int, half as int, 1, twice - half);
            assert((twice - half + half) * pow2(0) == twice);
        }
        assert(ops::magnitude(f, twice) == 2 * a);
        assert(twice < f.top());
    } else {
        assert(half * (field + 1) == half * field + half) by (nonlinear_arith);
        lemma_fundamental_div_mod_converse(
            twice as int,
            half as int,
            (field + 1) as int,
            fraction as int,
        );
        lemma_pow2_unfold(field);
        assert((fraction + half) * (2 * pow2((field - 1) as nat)) == 2 * ((fraction + half) * pow2(
            (field - 1) as nat,
        ))) by (nonlinear_arith);
        assert(twice < f.sign());
        assert(ops::magnitude(f, twice) == 2 * a);
        if field == 2046 {
            // Then twice the double is beyond the largest.
            lemma_pow2_pos(2045);
            assert(a >= half * pow2(2045)) by (nonlinear_arith)
                requires
                    a == (fraction + half) * pow2(2045),
                    fraction >= 0,
                    pow2(2045) > 0,
            ;
            lemma_overflow(n, u, a);
        }
    }
    if twice < f.top() {
        accuracy::law_rounding_is_to_the_nearest(f, n, u, twice);
        assert(ops::magnitude(f, twice) * u == n);
        assert(accuracy::distance(v * u, n) == 0);
        assert(v == 2 * a) by (nonlinear_arith)
            requires
                v * u == (2 * a) * u,
                u > 0,
        ;
    }
}

/// Two to the power of a thousand and twenty-four rounds to infinity.
proof fn lemma_overflow(n: nat, u: nat, a: nat)
    requires
        u == pow2(1074),
        n == (2 * a) * u,
        a >= pow2(52) * pow2(2045),
    ensures
        round::round_bits(53, Width::Double.top(), n, u) >= Width::Double.top(),
{
    let f = Width::Double;
    lemma_pow2_pos(1074);
    lemma2_to64();
    lemma2_to64_rest();
    let e = round::quantum(53, n, u);
    accuracy::lemma_quantum(53, n, u);
    if e < 2046 {
        let d = u * pow2(e);
        lemma_pow2_pos(e);
        bounds::lemma_pow2_order(e, 2045);
        lemma_pow2_pos(2045);
        assert(d > 0) by (nonlinear_arith)
            requires
                d == u * pow2(e),
                u > 0,
                pow2(e) > 0,
        ;
        assert(n >= pow2(53) * d) by (nonlinear_arith)
            requires
                n == (2 * a) * u,
                a >= pow2(52) * pow2(2045),
                pow2(53) == 2 * pow2(52),
                d == u * pow2(e),
                pow2(e) <= pow2(2045),
                u > 0,
        {
            assert((2 * a) * u >= (2 * (pow2(52) * pow2(2045))) * u);
            assert((2 * (pow2(52) * pow2(2045))) * u >= (2 * (pow2(52) * pow2(e))) * u);
        }
        lemma_fundamental_div_mod(n as int, d as int);
        lemma_mod_bound(n as int, d as int);
        assert(n / d >= pow2(53)) by (nonlinear_arith)
            requires
                n == d * (n / d) + n % d,
                n % d < d,
                n >= pow2(53) * d,
                d > 0,
        ;
    }
    let g = (e - 1) as nat;
    let h = u * pow2(g);
    lemma_pow2_unfold(e);
    lemma_pow2_pos(g);
    assert(h > 0) by (nonlinear_arith)
        requires
            h == u * pow2(g),
            u > 0,
            pow2(g) > 0,
    ;
    assert(u * (2 * pow2(g)) == h * 2) by (nonlinear_arith)
        requires
            h == u * pow2(g),
    ;
    lemma_div_denominator(n as int, h as int, 2);
    let k = round::nearest_even(n, u * pow2(e));
    assert(k >= pow2(52));
    assert(e * pow2(52) + k >= f.top()) by (nonlinear_arith)
        requires
            e >= 2046,
            k >= pow2(52),
            pow2(52) == 0x10_0000_0000_0000,
            f.top() == 0x7FF0_0000_0000_0000,
    ;
}

/// The residual of a fit is the scatter of the samples that survived about its line: the root of
/// their squared distances over the degrees of freedom that are left, which are as many as there
/// are samples less two where a slope was fitted and less one where it was not, and at least one.
pub proof fn law_the_residual_is_the_scatter(m: ClockModel)
    requires
        m.wf(),
        m.fit is Some,
    ensures
        ({
            let k = m.survivors();
            let fit = m.fit->0;
            let n = k.len() as int;
            let spent: int = if fit.slope_trusted { 2 } else { 1 };
            let freedom: int = if n - spent > 1 { n - spent } else { 1 };
            exists|d: Seq<F64>| #[trigger]
                are_distances(d, xs(k), ys(k), fit.a, fit.b) && is_scatter(
                    fit.residual_rms,
                    d,
                    freedom,
                )
        }),
{
    let k = m.survivors();
    let fit = m.fit->0;
    let n = k.len() as int;
    let spent: int = if fit.slope_trusted { 2 } else { 1 };
    let freedom: int = if n - spent > 1 { n - spent } else { 1 };
    lemma_survivors(m);
    lemma_means_are_numbers(k);
    let d = Seq::new(k.len(), |i: int| residual(k[i], fit.a, fit.b));
    // The line is made of numbers.
    if fit.slope_trusted {
        lemma_slope_is_a_number(k);
        bounds::lemma_product_within(fit.b, mean(xs(k)), 1345, 1148);
        bounds::lemma_within_more(mean(ys(k)), 1209, 1419);
        bounds::lemma_difference_within(mean(ys(k)), fit.b.mul_spec(mean(xs(k))), 1419);
    } else {
        bounds::lemma_within_more(fit.a, 1209, 1420);
        bounds::lemma_zero_within(fit.b, 1345);
    }
    assert forall|i: int| 0 <= i < d.len() implies bounds::within(#[trigger] d[i], 1500)
        && is_distance(d[i], xs(k)[i], ys(k)[i], fit.a, fit.b) by {
        assert(k[i].measured());
        let p = fit.b.mul_spec(k[i].x);
        bounds::lemma_product_within(fit.b, k[i].x, 1345, 1140);
        bounds::lemma_within_more(p, 1411, 1420);
        bounds::lemma_sum_within(fit.a, p, 1420);
        bounds::lemma_within_more(k[i].y, 1201, 1421);
        bounds::lemma_difference_within(k[i].y, fit.a.add_spec(p), 1421);
        bounds::lemma_within_more(d[i], 1422, 1500);
        scatter::lemma_distance(k[i].x, k[i].y, fit.a, fit.b);
    }
    assert(are_distances(d, xs(k), ys(k), fit.a, fit.b));
    scatter::lemma_scatter(F64 { bits: fold::NEG_ZERO }, d, freedom);
    assert(scatter::squared(d) =~= squared_residuals(k, fit.a, fit.b));
}

/// The steps to the dispersion: `h` is half of the delay `d`, and `t` the sum with the residual.
proof fn lemma_dispersion_steps(r: int, d: int, h: int, t: int, u: int)
    requires
        u > 0,
        r >= 0,
        d >= 0,
        0x20_0000_0000_0000 * abs(h * (2 * u) - d * u) <= d * u + 0x10_0000_0000_0000 * (2 * u),
        0x20_0000_0000_0000 * abs(t - (r + h)) <= abs(r + h),
    ensures
        0x8_0000_0000_0000 * abs(2 * t - (2 * r + d)) <= 2 * r + d + 0x20_0000_0000_0000,
{
    let e = 2 * h - d;
    assert(h * (2 * u) - d * u == e * u) by (nonlinear_arith)
        requires
            e == 2 * h - d,
    ;
    assert(abs(e * u) == abs(e) * u) by (nonlinear_arith)
        requires
            u > 0,
    ;
    assert(0x20_0000_0000_0000 * abs(e) <= d + 0x20_0000_0000_0000) by (nonlinear_arith)
        requires
            0x20_0000_0000_0000 * (abs(e) * u) <= d * u + 0x10_0000_0000_0000 * (2 * u),
            u > 0,
    ;
}

/// The error that is owned up to is the residual and half of the fastest round trip, to within
/// the rounding. The fastest round trip is that of one of the last samples, and none of them was
/// faster.
pub proof fn law_the_dispersion_is_scatter_and_half_a_round_trip(m: ClockModel)
    requires
        m.wf(),
        m.log@.len() > 0,
        m.proper_delays(),
    ensures
        ({
            let fit = m.fit->0;
            let d = m.view_of().dispersion_of();
            &&& m.fit is Some
            &&& d is Some
            &&& fit.min_delay.is_finite_spec()
            &&& exists|i: int|
                0 <= i < m.window@.len() && fit.min_delay == (#[trigger] m.window@[i]).delay
            &&& forall|i: int|
                0 <= i < m.window@.len() ==> fit.min_delay.value() <= (
                #[trigger] m.window@[i]).delay.value()
            &&& d->0.is_finite_spec() ==> 0x8_0000_0000_0000 * abs(
                2 * d->0.value() - (2 * fit.residual_rms.value() + fit.min_delay.value()),
            ) <= 2 * fit.residual_rms.value() + fit.min_delay.value() + 0x20_0000_0000_0000
        }),
{
    let w = m.window@;
    law_the_fit_is_gated(m);
    let fit = m.fit->0;
    let i = lemma_least_is_one(w);
    assert(fit.min_delay == w[i].delay);
    assert forall|j: int| 0 <= j < w.len() implies fit.min_delay.value() <= (
    #[trigger] w[j]).delay.value() by {
        lemma_least(w, j);
        assert(w[j].delay.is_finite_spec());
        accuracy::lemma_finite_order(
            Width::Double,
            fit.min_delay.bits as nat,
            w[j].delay.bits as nat,
        );
    }
    let d = m.view_of().dispersion_of()->0;
    let two = F64 { bits: TWO };
    let half = fit.min_delay.div_spec(two);
    law_the_residual_is_the_scatter(m);
    if d.is_finite_spec() {
        lemma_pow2_pos(1074);
        lemma_pow2_unfold(1075);
        bounds::lemma_power(1075);
        assert(bounds::power_bits(1075) == TWO);
        assert(two.value() == 2 * pow2(1074));
        error::lemma_finite_sum(fit.residual_rms, half);
        error::lemma_finite_quotient(fit.min_delay, two);
        lemma_dispersion_steps(
            fit.residual_rms.value(),
            fit.min_delay.value(),
            half.value(),
            d.value(),
            pow2(1074) as int,
        );
    }
}

/// A model is unsynced before its first exchange, coarse with one or two, and synced from the
/// third on.
pub proof fn law_three_exchanges_make_a_clock_synced(m: ClockModel)
    requires
        m.wf(),
        m.proper_delays(),
    ensures
        m.log@.len() == 0 <==> m.view_of().state == SyncState::Unsynced,
        1 <= m.log@.len() <= 2 <==> m.view_of().state == SyncState::Coarse,
        m.log@.len() >= 3 <==> m.view_of().state == SyncState::Synced,
{
    if m.log@.len() > 0 {
        law_the_fit_is_gated(m);
    }
}

/// The slope in parts per million is a million times the slope, to within the rounding.
pub proof fn law_parts_per_million_are_millionths(fit: Fit)
    requires
        fit.slope_ppm().is_finite_spec(),
    ensures
        fit.b.is_finite_spec(),
        0x10_0000_0000_0000 * abs(fit.slope_ppm().value() - 1_000_000 * fit.b.value())
            <= 1_000_000 * abs(fit.b.value()) + 0x10_0000_0000_0000,
{
    let u = pow2(1074) as int;
    let mega = F64 { bits: MEGA };
    drift::lemma_mega();
    lemma_pow2_pos(1074);
    error::lemma_finite_product(fit.b, mega);
    let p = fit.slope_ppm().value();
    let b = fit.b.value();
    let e = p - 1_000_000 * b;
    assert(p * u - b * (1_000_000 * u) == e * u) by (nonlinear_arith)
        requires
            e == p - 1_000_000 * b,
    ;
    assert(abs(e * u) == abs(e) * u) by (nonlinear_arith)
        requires
            u > 0,
    ;
    assert(abs(b * (1_000_000 * u)) == (1_000_000 * abs(b)) * u) by (nonlinear_arith)
        requires
            u > 0,
    ;
    assert(0x20_0000_0000_0000 * abs(e) <= 1_000_000 * abs(b) + 0x10_0000_0000_0000)
        by (nonlinear_arith)
        requires
            0x20_0000_0000_0000 * (abs(e) * u) <= (1_000_000 * abs(b)) * u + 0x10_0000_0000_0000
                * u,
            u > 0,
    ;
}

/// The least and the greatest of some numbers are two of them, and the others lie between.
proof fn lemma_extremes(s: Seq<F64>) -> (r: (int, int))
    requires
        s.len() > 0,
        all_finite(s),
    ensures
        0 <= r.0 < s.len(),
        0 <= r.1 < s.len(),
        fold::least(s) == s[r.0],
        fold::greatest(s) == s[r.1],
        forall|i: int|
            0 <= i < s.len() ==> s[r.0].value() <= (#[trigger] s[i]).value() <= s[r.1].value(),
    decreases s.len(),
{
    let f = Width::Double;
    let fewer = s.drop_last();
    let l = s.len() - 1;
    assert(s[l].is_finite_spec());
    assert forall|i: int| 0 <= i < fewer.len() implies (#[trigger] fewer[i]).is_finite_spec() by {
        assert(fewer[i] == s[i]);
    }
    if fewer.len() == 0 {
        assert(fold::least(fewer) == F64 { bits: fold::INFINITY });
        assert(fold::greatest(fewer) == F64 { bits: fold::NEG_INFINITY });
        (0, 0)
    } else {
        let (p, q) = lemma_extremes(fewer);
        assert(fewer[p] == s[p] && fewer[q] == s[q]);
        accuracy::lemma_finite_order(f, s[p].bits as nat, s[l].bits as nat);
        accuracy::lemma_finite_order(f, s[l].bits as nat, s[p].bits as nat);
        accuracy::lemma_finite_order(f, s[q].bits as nat, s[l].bits as nat);
        accuracy::lemma_finite_order(f, s[l].bits as nat, s[q].bits as nat);
        let p2 = if s[l].lt_spec(s[p]) {
            l
        } else {
            p
        };
        let q2 = if s[q].lt_spec(s[l]) {
            l
        } else {
            q
        };
        assert forall|i: int| 0 <= i < s.len() implies s[p2].value() <= (#[trigger] s[i]).value()
            <= s[q2].value() by {
            if i < l {
                assert(fewer[i] == s[i]);
            }
        }
        (p2, q2)
    }
}

/// Sixty as a double.
proof fn lemma_sixty()
    ensures
        (F64 { bits: MIN_SLOPE_SPAN }).is_finite_spec(),
        (F64 { bits: MIN_SLOPE_SPAN }).value() == 60 * pow2(1074),
{
    lemma2_to64();
    lemma2_to64_rest();
    lemma_fundamental_div_mod_converse(
        MIN_SLOPE_SPAN as int,
        pow2(52) as int,
        1028,
        0xE_0000_0000_0000,
    );
    lemma_pow2_adds(47, 1027);
    assert(0x1E_0000_0000_0000 * pow2(1027) == 60 * (0x8000_0000_0000 * pow2(1027)))
        by (nonlinear_arith);
}

/// The span of a fit is from the earliest to the latest of the samples that survived, to within
/// the rounding.
pub proof fn law_the_span_is_from_first_to_last(m: ClockModel)
    requires
        m.wf(),
        m.fit is Some,
    ensures
        ({
            let k = m.survivors();
            let span = m.fit->0.span;
            &&& span.is_finite_spec()
            &&& forall|i: int, j: int|
                0 <= i < k.len() && 0 <= j < k.len() ==> 0x10_0000_0000_0000 * ((
                #[trigger] k[j]).x.value() - (#[trigger] k[i]).x.value()) <= 0x10_0000_0000_0001
                    * span.value()
            &&& exists|i: int, j: int|
                0 <= i < k.len() && 0 <= j < k.len() && 0x20_0000_0000_0000 * abs(
                    span.value() - ((#[trigger] k[j]).x.value() - (#[trigger] k[i]).x.value()),
                ) <= k[j].x.value() - k[i].x.value()
        }),
{
    let k = m.survivors();
    let s = xs(k);
    lemma_survivors(m);
    lemma_finite_axes(k);
    let (p, q) = lemma_extremes(s);
    assert(k[p].measured() && k[q].measured());
    bounds::lemma_difference_within(s[q], s[p], 1140);
    error::lemma_finite_difference(s[q], s[p]);
    assert(s[p].value() <= s[q].value());
    let span = m.fit->0.span;
    assert(k[q].x == s[q] && k[p].x == s[p]);
    assert(0x20_0000_0000_0000 * abs(span.value() - (k[q].x.value() - k[p].x.value()))
        <= k[q].x.value() - k[p].x.value());
    assert forall|i: int, j: int| 0 <= i < k.len() && 0 <= j < k.len() implies 0x10_0000_0000_0000 * ((
    #[trigger] k[j]).x.value() - (#[trigger] k[i]).x.value()) <= 0x10_0000_0000_0001
        * span.value() by {
        assert(s[i] == k[i].x && s[j] == k[j].x);
        assert(s[p].value() <= s[i].value() <= s[q].value());
        assert(s[p].value() <= s[j].value() <= s[q].value());
    }
}

/// The spread of samples, two of which are `d` apart, as computed.
proof fn lemma_spread_holds(k: Seq<ClockSample>, x: int, i: int, j: int)
    requires
        2 <= k.len() <= WINDOW,
        forall|i: int| 0 <= i < k.len() ==> (#[trigger] k[i]).measured(),
        pow2(1074) <= x <= pow2(1096),
        reaches(xs(k), x),
        0 <= i < k.len(),
        0 <= j < k.len(),
        k[j].x.value() - k[i].x.value() >= 60 * pow2(1074),
    ensures
        !sxx_of(k).le_spec(F64 { bits: EPSILON }),
{
    let s = xs(k);
    let u = pow2(1074) as int;
    let n = k.len() as int;
    let mx = mean(s).value();
    lemma_pow2_pos(1074);
    lemma_finite_axes(k);
    bounds::lemma_pow2_order(1000, 1074);
    bounds::lemma_pow2_order(1096, 1138);
    bounds::lemma_pow2_order(1096, 1201);
    lemma_pow2_unfold(1139);
    bounds::lemma_pow2_order(1139, 1202);
    least_squares::lemma_mean(s, x);
    least_squares::lemma_moment(s, s, x, x);
    let cs = crosses(values(s), values(s), mx, mx);
    assert forall|l: int| 0 <= l < cs.len() implies #[trigger] cs[l] >= 0 by {
        let v = values(s)[l] - mx;
        assert(v * v >= 0) by (nonlinear_arith);
    }
    assert(i != j) by {
        assert(60 * u > 0);
    }
    trend::lemma_sum_holds(cs, i, j);
    let p = s[i].value() - mx;
    let q = s[j].value() - mx;
    assert(s[i] == k[i].x && s[j] == k[j].x);
    assert(values(s)[i] == s[i].value() && values(s)[j] == s[j].value());
    let d = q - p;
    assert(2 * (p * p + q * q) >= d * d) by (nonlinear_arith)
        requires
            d == q - p,
    {
        assert((p + q) * (p + q) >= 0);
        assert(2 * (p * p + q * q) == d * d + (p + q) * (p + q));
    }
    let uu = u * u;
    assert(d * d >= 3600 * uu) by (nonlinear_arith)
        requires
            d >= 60 * u,
            u > 0,
            uu == u * u,
    ;
    lemma2_to64();
    lemma_pow2_adds(22, 1074);
    let xx = x * x;
    assert(xx <= 0x1000_0000_0000 * uu) by (nonlinear_arith)
        requires
            0 <= x <= 0x40_0000 * u,
            xx == x * x,
            uu == u * u,
            u > 0,
    ;
    assert((n * n) * xx <= 64 * xx) by (nonlinear_arith)
        requires
            0 <= n <= 8,
            xx >= 0,
    {
        assert(n * n <= 64);
    }
    let sv = sxx_of(k).value();
    assert(spreads(k, mean(s)) =~= moments(s, mean(s), s, mean(s)));
    assert(sv * u >= 1000 * uu);
    assert(sv >= 1000 * u) by (nonlinear_arith)
        requires
            sv * u >= 1000 * (u * u),
            u > 0,
    ;
    bounds::lemma_power(1022);
    assert(bounds::power_bits(1022) == EPSILON);
    bounds::lemma_pow2_order(1022, 1074);
    accuracy::lemma_finite_order(Width::Double, sxx_of(k).bits as nat, EPSILON as nat);
}

/// The steps to a slope that is clearly plausible: `t` is the trend, `s` the spread and `b` the
/// slope.
proof fn lemma_plausible_steps(n: int, x: int, y: int, u: int, t: int, s: int, b: int)
    requires
        1 <= n <= 8,
        u > 0,
        0 <= x <= 0x40_0000 * u,
        0 <= y <= 0x400 * u,
        s >= 3600 * (u * u),
        1_000_000 * abs(t) <= 150 * s,
        0x2000_0000_0000 * abs(u * t - b * s) <= (n * n * n) * (x * (u * y + abs(b) * x)),
    ensures
        1_000_000 * abs(b) <= 190 * u,
{
    let h = abs(b);
    let uu = u * u;
    let c = n * n * n;
    assert(0 <= c <= 512) by (nonlinear_arith)
        requires
            1 <= n <= 8,
            c == n * n * n,
    {
        assert(n * n <= 64);
        assert(n * n * n <= 64 * 8);
    }
    // Both parts of the slack.
    let xy = x * y;
    let xx = x * x;
    assert(0 <= xy <= 0x1_0000_0000 * uu) by (nonlinear_arith)
        requires
            0 <= x <= 0x40_0000 * u,
            0 <= y <= 0x400 * u,
            xy == x * y,
            uu == u * u,
    {
        assert(x * y <= (0x40_0000 * u) * (0x400 * u));
    }
    assert(0 <= xx <= 0x1000_0000_0000 * uu) by (nonlinear_arith)
        requires
            0 <= x <= 0x40_0000 * u,
            xx == x * x,
            uu == u * u,
    {
        assert(x * x <= (0x40_0000 * u) * (0x40_0000 * u));
    }
    let l = x * (u * y + h * x);
    assert(l == u * xy + h * xx) by (nonlinear_arith)
        requires
            l == x * (u * y + h * x),
            xy == x * y,
            xx == x * x,
    ;
    let uuu = u * uu;
    let huu = h * uu;
    assert(0 <= u * xy <= 0x1_0000_0000 * uuu) by (nonlinear_arith)
        requires
            0 <= xy <= 0x1_0000_0000 * uu,
            u > 0,
            uuu == u * uu,
    {
        assert(u * xy <= u * (0x1_0000_0000 * uu));
    }
    assert(0 <= h * xx <= 0x1000_0000_0000 * huu) by (nonlinear_arith)
        requires
            0 <= xx <= 0x1000_0000_0000 * uu,
            h >= 0,
            huu == h * uu,
    {
        assert(h * xx <= h * (0x1000_0000_0000 * uu));
    }
    assert(c * l <= 512 * l) by (nonlinear_arith)
        requires
            0 <= c <= 512,
            l >= 0,
    ;
    assert(0x2000_0000_0000 * abs(u * t - b * s) <= 0x200_0000_0000 * uuu + 0x20_0000_0000_0000
        * huu);
    // In units of the spread.
    let hs = h * s;
    let us = u * s;
    assert(abs(b * s) == hs) by (nonlinear_arith)
        requires
            h == abs(b),
            hs == h * s,
            s >= 0,
    ;
    assert(1_000_000 * abs(u * t) <= 150 * us) by (nonlinear_arith)
        requires
            1_000_000 * abs(t) <= 150 * s,
            us == u * s,
            u > 0,
    {
        assert(abs(u * t) == u * abs(t));
        assert(u * (1_000_000 * abs(t)) <= u * (150 * s));
    }
    assert(us >= 3600 * uuu) by (nonlinear_arith)
        requires
            s >= 3600 * uu,
            us == u * s,
            uuu == u * uu,
            u > 0,
    {
        assert(u * s >= u * (3600 * uu));
    }
    assert(hs >= 3600 * huu) by (nonlinear_arith)
        requires
            s >= 3600 * uu,
            hs == h * s,
            huu == h * uu,
            h >= 0,
    {
        assert(h * s >= h * (3600 * uu));
    }
    assert(hs <= abs(u * t) + abs(u * t - b * s));
    assert(huu >= 0 && uuu >= 0) by (nonlinear_arith)
        requires
            huu == h * (u * u),
            uuu == u * (u * u),
            h >= 0,
            u > 0,
    {
        assert(u * u > 0);
    }
    assert(1_000_000 * hs <= 190 * us);
    assert(s > 0) by (nonlinear_arith)
        requires
            s >= 3600 * (u * u),
            u > 0,
    ;
    assert(1_000_000 * h <= 190 * u) by (nonlinear_arith)
        requires
            1_000_000 * (h * s) <= 190 * (u * s),
            s > 0,
    {
        assert((1_000_000 * h) * s <= (190 * u) * s);
    }
}

/// When a slope is owed: four samples or more survived, two of them at least a minute apart, all
/// of them within some fifty days of the base and corrected by no more than a quarter of an hour,
/// and the exact least-squares slope, which is how time and corrections go together over the
/// spread of the times, is at most a hundred and fifty parts per million on either side.
pub proof fn law_a_plausible_slope_is_trusted(m: ClockModel, x: int, y: int, i: int, j: int)
    requires
        m.wf(),
        m.fit is Some,
        m.survivors().len() >= 4,
        lie_within(m.survivors(), x, y),
        x <= pow2(1096),
        y <= pow2(1084),
        0 <= i < m.survivors().len(),
        0 <= j < m.survivors().len(),
        m.survivors()[j].x.value() - m.survivors()[i].x.value() >= 60 * pow2(1074),
        1_000_000 * abs(trend_of(values(xs(m.survivors())), values(ys(m.survivors())))) <= 150
            * spread(values(xs(m.survivors()))),
    ensures
        m.fit->0.slope_trusted,
{
    let k = m.survivors();
    let s = xs(k);
    let f = Width::Double;
    let u = pow2(1074) as int;
    let sixty = F64 { bits: MIN_SLOPE_SPAN };
    lemma_survivors(m);
    lemma_finite_axes(k);
    lemma_bounds(x, y);
    lemma_pow2_pos(1074);
    lemma_sixty();
    // The span.
    let (p, q) = lemma_extremes(s);
    assert(k[p].measured() && k[q].measured());
    assert(s[i] == k[i].x && s[j] == k[j].x);
    assert(s[p].value() <= s[i].value() && s[j].value() <= s[q].value());
    let d = s[q].value() - s[p].value();
    assert(d >= 60 * u);
    bounds::lemma_difference_within(s[q], s[p], 1140);
    error::lemma_neg_value(s[p]);
    let span = s[q].sub_spec(s[p]);
    assert(sixty.le_spec(span)) by {
        reveal(F64::add_spec);
        lemma_mul_basics(60 * u);
        accuracy::law_rounding_never_passes_a_float(f, d as nat, 1, MIN_SLOPE_SPAN as nat);
    }
    assert(span == span_of(k));
    // The spread.
    lemma_spread_holds(k, x, i, j);
    // The slope.
    lemma_line(k, x, y);
    let b = slope_of(k);
    let a = mean(ys(k)).sub_spec(b.mul_spec(mean(s)));
    least_squares::law_the_slope_is_the_trend_over_the_spread(s, ys(k), a, b, x, y);
    least_squares::law_the_spread_holds_every_distance(values(s), i, j);
    let w = s[i].value() - s[j].value();
    assert(values(s)[i] == s[i].value() && values(s)[j] == s[j].value());
    assert(w * w >= 3600 * (u * u)) by (nonlinear_arith)
        requires
            w <= -60 * u,
            u > 0,
    {
        assert((-w) * (-w) >= (60 * u) * (60 * u));
    }
    lemma2_to64();
    lemma_pow2_adds(22, 1074);
    lemma_pow2_adds(10, 1074);
    lemma_plausible_steps(
        k.len() as int,
        x,
        y,
        u,
        trend_of(values(s), values(ys(k))),
        spread(values(s)),
        b.value(),
    );
    // The comparison.
    let mega = F64 { bits: MEGA };
    let ppm = b.mul_spec(mega);
    lemma_slope_is_a_number(k);
    drift::lemma_mega();
    error::lemma_finite_product(b, mega);
    let bv = b.value();
    let pv = ppm.value();
    assert(abs(bv * (1_000_000 * u)) == (1_000_000 * abs(bv)) * u) by (nonlinear_arith)
        requires
            u > 0,
    ;
    bounds::lemma_pow2_order(64, 1074);
    assert(abs(pv) <= 199 * u) by (nonlinear_arith)
        requires
            0x20_0000_0000_0000 * abs(pv * u - bv * (1_000_000 * u)) <= abs(bv * (1_000_000 * u))
                + 0x10_0000_0000_0000 * u,
            abs(bv * (1_000_000 * u)) == (1_000_000 * abs(bv)) * u,
            1_000_000 * abs(bv) <= 190 * u,
            u >= 0x1_0000_0000_0000_0000,
    {
        let g = bv * (1_000_000 * u);
        assert((1_000_000 * abs(bv)) * u <= (190 * u) * u);
        assert(abs(pv * u) == abs(pv) * u);
        assert(abs(pv) * u <= (190 * u) * u + u * u);
        assert(abs(pv) * u <= (199 * u) * u);
    }
    let limit = F64 { bits: MAX_PLAUSIBLE_PPM };
    drift::lemma_limits();
    let size = ppm.abs_spec();
    assert(ops::magnitude_bits(f, size.bits as nat) == ops::magnitude_bits(f, ppm.bits as nat));
    assert(size.value() == abs(pv));
    accuracy::lemma_finite_order(f, MAX_PLAUSIBLE_PPM as nat, size.bits as nat);
    accuracy::lemma_finite_order(f, size.bits as nat, MAX_PLAUSIBLE_PPM as nat);
    assert(!limit.lt_spec(size));
    assert(slope_supported(k));
}

/// The fit goes by the last eight exchanges, and by no others.
pub proof fn law_the_last_eight_exchanges_count(m: ClockModel)
    requires
        m.wf(),
    ensures
        m.window@.len() == if m.log@.len() < 8 {
            m.log@.len()
        } else {
            8
        },
        forall|i: int|
            0 <= i < m.window@.len() ==> #[trigger] m.window@[i] == m.log@[m.log@.len()
                - m.window@.len() + i],
{
}

/// The first exchange needs no correction: the base is pinned so that the model is right there.
pub proof fn law_the_first_exchange_is_the_base(
    m: ClockModel,
    mono_mid: Instant,
    utc_mid_nanos: i128,
    delay: F64,
    offset: F64,
)
    requires
        m.base_utc_nanos is None,
        i128::MIN <= utc_mid_nanos - (mono_mid.nanos - m.base_mono.nanos) <= i128::MAX,
    ensures
        ({
            let base = m.pinned(mono_mid, utc_mid_nanos);
            &&& base + (mono_mid.nanos - m.base_mono.nanos) == utc_mid_nanos
            &&& sample_of(
                m.base_mono,
                base,
                mono_mid,
                utc_mid_nanos,
                delay,
                offset,
            ).y.value() == 0
        }),
{
    instants::lemma_nanos_in_seconds(0);
    assert(0 * pow2(1074) == 0);
}

/// A slope that is trusted passed every gate: four samples or more survived, two of them at least
/// a minute apart, and the slope is within two hundred parts per million on either side, all to
/// within the rounding.
pub proof fn law_a_trusted_slope_passed_every_gate(m: ClockModel)
    requires
        m.wf(),
        m.fit is Some,
        m.fit->0.slope_trusted,
    ensures
        ({
            let one = pow2(1074) as int;
            let k = m.survivors();
            let b = m.fit->0.b.value();
            &&& k.len() >= 4
            &&& exists|i: int, j: int|
                0 <= i < k.len() && 0 <= j < k.len() && 0x10_0000_0000_0001 * ((
                #[trigger] k[j]).x.value() - (#[trigger] k[i]).x.value()) >= 0x10_0000_0000_0000 * (
                60 * one)
            &&& 0xF_FFFF_FFFF_FFFF * (1_000_000 * abs(b)) <= 0x10_0000_0000_0000 * (200 * one + 1)
        }),
{
    let k = m.survivors();
    let f = Width::Double;
    let fit = m.fit->0;
    let u = pow2(1074) as int;
    assert(slope_supported(k));
    lemma_survivors(m);
    law_the_span_is_from_first_to_last(m);
    lemma_sixty();
    drift::lemma_limits();
    lemma_slope_is_a_number(k);
    let span = fit.span;
    accuracy::lemma_finite_order(f, MIN_SLOPE_SPAN as nat, span.bits as nat);
    let (i, j) = choose|i: int, j: int|
        0 <= i < k.len() && 0 <= j < k.len() && 0x20_0000_0000_0000 * abs(
            span.value() - ((#[trigger] k[j]).x.value() - (#[trigger] k[i]).x.value()),
        ) <= k[j].x.value() - k[i].x.value();
    assert(0x10_0000_0000_0001 * (k[j].x.value() - k[i].x.value()) >= 0x10_0000_0000_0000 * (60 * u));
    let ppm = fit.slope_ppm();
    let size = ppm.abs_spec();
    law_parts_per_million_are_millionths(fit);
    assert(ops::magnitude_bits(f, size.bits as nat) == ops::magnitude_bits(f, ppm.bits as nat));
    assert(size.value() == abs(ppm.value()));
    accuracy::lemma_finite_order(f, MAX_PLAUSIBLE_PPM as nat, size.bits as nat);
}

} // verus!
