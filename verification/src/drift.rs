//! What the drift fit and the drift gate promise, in numbers.
//!
//! Both work in doubles. Here their results are held against exact arithmetic: the ratio brings
//! the measured rate to the target rate, and the drift gate lets through only what is inside its
//! limits, on both sides of them.

use crate::audio::writer::DriftObservation;
use crate::audio::TARGET_RATE;
use crate::clock;
use crate::clock::reference::StatusView;
use crate::finalize::{
    alpha_of, beta_of, dxs, dys, fit_failures, fit_of, gate_failures, highest, is_usable,
    law_gate_passes_iff_every_criterion_holds, long_enough, lowest, moments, plausible, quiet,
    squared_errors, sxx_of, DriftFit, MAX_DRIFT_PPM, MAX_RESIDUAL_RMS_S, MIN_SPAN_S,
};
use crate::float::accuracy;
use crate::float::bounds;
use crate::float::error;
use crate::float::error::{abs, MOST};
use crate::float::fold;
use crate::float::fold::NEG_ZERO;
use crate::float::ops;
use crate::float::ops::Width;
use crate::float::F64;
use crate::instants;
use crate::least_squares;
use crate::least_squares::{
    are_bounds, is_least_squares, near_a_line, reaches, size_of, spread, values,
};
use crate::scatter;
use crate::scatter::{are_distances, is_distance, is_scatter};
use crate::time::{MEGA, ONE, ZERO};
use crate::trend;
use crate::trend::{law_observations_at_one_sample_give_no_fit, together, turned};
use vstd::arithmetic::div_mod::*;
use vstd::arithmetic::mul::*;
use vstd::arithmetic::power2::*;
use vstd::prelude::*;

verus! {

/// One as a double.
pub proof fn lemma_one()
    ensures
        (F64 { bits: ONE }).is_finite_spec(),
        !(F64 { bits: ONE }).is_negative_spec(),
        (F64 { bits: ONE }).value() == pow2(1074),
        pow2(1074) > 0,
{
    bounds::lemma_power(1074);
    assert(bounds::power_bits(1074) == ONE);
    lemma_pow2_pos(1074);
}

/// One million as a double.
pub proof fn lemma_mega()
    ensures
        (F64 { bits: MEGA }).is_finite_spec(),
        !(F64 { bits: MEGA }).is_negative_spec(),
        (F64 { bits: MEGA }).value() == 1_000_000 * pow2(1074),
{
    lemma2_to64();
    lemma2_to64_rest();
    lemma_fundamental_div_mod_converse(MEGA as int, pow2(52) as int, 1042, 0xE_8480_0000_0000);
    lemma_pow2_adds(33, 1041);
    assert(0x1E_8480_0000_0000 * pow2(1041) == 1_000_000 * (0x2_0000_0000 * pow2(1041)))
        by (nonlinear_arith);
}

/// The limits of the drift gate as doubles: two hundred, twenty, and just above five in a
/// thousand.
pub proof fn lemma_limits()
    ensures
        (F64 { bits: MAX_DRIFT_PPM }).value() == 200 * pow2(1074),
        (F64 { bits: MIN_SPAN_S }).value() == 20 * pow2(1074),
        5 * pow2(1074) <= 1000 * (F64 { bits: MAX_RESIDUAL_RMS_S }).value() <= 5 * pow2(1074) + pow2(
            1021,
        ),
{
    lemma2_to64();
    lemma2_to64_rest();
    let half = pow2(52) as int;
    lemma_fundamental_div_mod_converse(MAX_DRIFT_PPM as int, half, 1030, 0x9_0000_0000_0000);
    lemma_pow2_adds(45, 1029);
    assert(0x19_0000_0000_0000 * pow2(1029) == 200 * (0x2000_0000_0000 * pow2(1029)))
        by (nonlinear_arith);
    lemma_fundamental_div_mod_converse(MIN_SPAN_S as int, half, 1027, 0x4_0000_0000_0000);
    lemma_pow2_adds(48, 1026);
    assert(0x14_0000_0000_0000 * pow2(1026) == 20 * (0x1_0000_0000_0000 * pow2(1026)))
        by (nonlinear_arith);
    lemma_fundamental_div_mod_converse(MAX_RESIDUAL_RMS_S as int, half, 1015, 0x4_7AE1_47AE_147B);
    lemma_pow2_adds(60, 1014);
    lemma_pow2_adds(7, 1014);
    let t = pow2(1014) as int;
    assert(1000 * (0x14_7AE1_47AE_147B * t) == 5 * (0x1000_0000_0000_0000 * t) + 120 * t)
        by (nonlinear_arith);
    lemma_pow2_pos(1014);
}

/// The rate is the reciprocal of the seconds per sample, and the ratio brings it to the target:
/// the ratio times the measured rate is the target rate to within one part in two to the power
/// of fifty-two. So a device that ran fast gives a ratio below one, and a device that ran slow a
/// ratio above it, as soon as it was off by more than the rounding.
///
/// Rates below two to the power of minus a thousand hertz are left out: their ratio has no
/// double.
pub proof fn law_the_ratio_brings_the_measured_rate_to_the_target(s: Seq<DriftObservation>)
    requires
        fit_of(s) is Some,
        fit_of(s)->0.measured_rate.value() >= pow2(74),
    ensures
        ({
            let fit = fit_of(s)->0;
            let one = pow2(1074) as int;
            let rate = fit.measured_rate.value();
            let ratio = fit.drift_ratio.value();
            let beta = fit.seconds_per_sample.value();
            &&& fit.measured_rate.is_finite_spec()
            &&& fit.drift_ratio.is_finite_spec()
            &&& fit.seconds_per_sample.is_finite_spec()
            &&& beta > 0
            &&& ratio > 0
            &&& 0x10_0000_0000_0000 * abs(ratio * rate - 48_000 * (one * one)) <= 48_000 * (one
                * one)
            &&& 0x20_0000_0000_0000 * abs(rate * beta - one * one) <= one * one
                + 0x10_0000_0000_0000 * beta
            &&& 0x10_0000_0000_0000 * rate > 0x10_0000_0000_0001 * (48_000 * one) ==> ratio < one
            &&& 0x10_0000_0000_0000 * rate < 0xF_FFFF_FFFF_FFFF * (48_000 * one) ==> ratio > one
        }),
{
    let fit = fit_of(s)->0;
    let u = pow2(1074) as int;
    let beta = fit.seconds_per_sample;
    let m = fit.measured_rate;
    lemma_one();
    lemma_usable(beta);
    lemma_usable(m);
    error::lemma_finite_quotient(F64 { bits: ONE }, beta);
    assert(abs(u) * pow2(1074) == u * u);
    // The ratio.
    let t = F64::of_int(TARGET_RATE as int);
    accuracy::law_small_integers_are_exact(TARGET_RATE as int);
    assert(t.value() == 48_000 * u);
    let rate = m.value();
    lemma_pow2_adds(2097, 74);
    lemma_pow2_adds(1074, 1074);
    lemma_pow2_adds(16, 2148);
    lemma2_to64();
    bounds::lemma_pow2_order(2164, 2171);
    assert((48_000 * u) * u <= pow2(2097) * rate) by (nonlinear_arith)
        requires
            rate >= pow2(74),
            pow2(2097) * pow2(74) == pow2(2171),
            pow2(2164) <= pow2(2171),
            pow2(2164) == 0x1_0000 * (u * u),
            pow2(2097) >= 0,
            u * u >= 0,
    ;
    error::lemma_div_error(t, m, 2097);
    let ratio = fit.drift_ratio.value();
    let g = 48_000 * (u * u);
    assert(48_000 * u * u == g) by (nonlinear_arith)
        requires
            g == 48_000 * (u * u),
    ;
    // The rate is finite, so its half is far below the target times one.
    assert(0x10_0000_0000_0000 * rate <= g) by {
        lemma_finite_top(m);
        lemma_pow2_adds(52, 2098);
        lemma2_to64_rest();
        bounds::lemma_pow2_order(2150, 2152);
        lemma_pow2_adds(4, 2148);
        lemma_mul_inequality(rate, pow2(2098) as int, 0x10_0000_0000_0000);
        lemma_mul_is_commutative(rate, 0x10_0000_0000_0000);
        lemma_mul_is_commutative(pow2(2098) as int, 0x10_0000_0000_0000);
        assert(u * u == pow2(2148));
        lemma_pow2_pos(2148);
    }
    assert(0x10_0000_0000_0000 * abs(ratio * rate - g) <= g);
    assert(ratio > 0) by (nonlinear_arith)
        requires
            0x10_0000_0000_0000 * abs(ratio * rate - g) <= g,
            g > 0,
            rate > 0,
    ;
    if 0x10_0000_0000_0000 * rate > 0x10_0000_0000_0001 * (48_000 * u) && ratio >= u {
        assert(ratio * rate >= u * rate) by (nonlinear_arith)
            requires
                ratio >= u,
                rate > 0,
        ;
        assert(0x10_0000_0000_0000 * (u * rate) > 0x10_0000_0000_0001 * g) by (nonlinear_arith)
            requires
                0x10_0000_0000_0000 * rate > 0x10_0000_0000_0001 * (48_000 * u),
                u > 0,
                g == 48_000 * (u * u),
        {
            assert(u * (0x10_0000_0000_0000 * rate) > u * (0x10_0000_0000_0001 * (48_000 * u)));
            assert(u * (0x10_0000_0000_0000 * rate) == 0x10_0000_0000_0000 * (u * rate));
            assert(u * (0x10_0000_0000_0001 * (48_000 * u)) == 0x10_0000_0000_0001 * (48_000 * (u
                * u)));
        }
    }
    if 0x10_0000_0000_0000 * rate < 0xF_FFFF_FFFF_FFFF * (48_000 * u) && ratio <= u {
        assert(ratio * rate <= u * rate) by (nonlinear_arith)
            requires
                ratio <= u,
                rate > 0,
        ;
        assert(0x10_0000_0000_0000 * (u * rate) < 0xF_FFFF_FFFF_FFFF * g) by (nonlinear_arith)
            requires
                0x10_0000_0000_0000 * rate < 0xF_FFFF_FFFF_FFFF * (48_000 * u),
                u > 0,
                g == 48_000 * (u * u),
        {
            assert(u * (0x10_0000_0000_0000 * rate) < u * (0xF_FFFF_FFFF_FFFF * (48_000 * u)));
            assert(u * (0x10_0000_0000_0000 * rate) == 0x10_0000_0000_0000 * (u * rate));
            assert(u * (0xF_FFFF_FFFF_FFFF * (48_000 * u)) == 0xF_FFFF_FFFF_FFFF * (48_000 * (u
                * u)));
        }
    }
}

/// The steps from a rate to its error in parts per million, each times the nominal rate: `m` is
/// the rate, `w` the nominal rate, `a` their quotient, `b` that less one, `c` the parts per
/// million, and `n` the slack of the smallest double.
proof fn lemma_ppm_steps(m: int, w: int, a: int, b: int, c: int, n: int)
    requires
        n > 0,
        0x1_0000_0000_0000_0000 * (0x1_0000_0000_0000_0000 * n) <= w,
        0x20_0000_0000_0000 * abs(a - m) <= abs(m) + 0x10_0000_0000_0000 * n,
        0x20_0000_0000_0000 * abs(b - (a - w)) <= abs(a - w),
        0x20_0000_0000_0000 * abs(c - 1_000_000 * b) <= 1_000_000 * abs(b) + 0x10_0000_0000_0000
            * n,
    ensures
        abs(c) < 200 * w ==> 10_000_000_000 * abs(m - w) <= 2_000_001 * w,
        10_000_000_000 * abs(m - w) <= 1_999_999 * w ==> abs(c) < 200 * w,
{
}

/// The error of a rate against a nominal one, in parts per million, against the exact one.
proof fn lemma_crystal_error(fit: DriftFit, nominal_rate: u32)
    requires
        fit.crystal_error(nominal_rate).is_finite_spec(),
    ensures
        ({
            let w = nominal_rate * pow2(1074);
            let m = fit.measured_rate.value();
            let c = fit.crystal_error(nominal_rate).value();
            &&& fit.measured_rate.is_finite_spec()
            &&& nominal_rate > 0
            &&& abs(c) < 200 * pow2(1074) ==> 10_000_000_000 * abs(m - w) <= 2_000_001 * w
            &&& 10_000_000_000 * abs(m - w) <= 1_999_999 * w ==> abs(c) < 200 * pow2(1074)
        }),
{
    let u = pow2(1074) as int;
    let n = nominal_rate as int;
    let mega = F64 { bits: MEGA };
    let one = F64 { bits: ONE };
    let d = F64::of_int(n);
    let q = fit.measured_rate.div_spec(d);
    let s = q.sub_spec(one);
    let c = s.mul_spec(mega);
    lemma_one();
    lemma_mega();
    accuracy::law_small_integers_are_exact(n);
    error::lemma_finite_product(s, mega);
    error::lemma_finite_difference(q, one);
    error::lemma_finite_quotient(fit.measured_rate, d);
    let m = fit.measured_rate.value();
    let w = n * u;
    assert(n > 0) by (nonlinear_arith)
        requires
            n >= 0,
            n * u != 0,
    ;
    let qv = q.value();
    let sv = s.value();
    let cv = c.value();
    // The quotient.
    assert(qv * w - m * u == (n * qv - m) * u) by (nonlinear_arith)
        requires
            w == n * u,
    ;
    assert(abs((n * qv - m) * u) == abs(n * qv - m) * u) by (nonlinear_arith)
        requires
            u > 0,
    ;
    assert(0x20_0000_0000_0000 * abs(n * qv - m) <= abs(m) + 0x10_0000_0000_0000 * n)
        by (nonlinear_arith)
        requires
            0x20_0000_0000_0000 * (abs(n * qv - m) * u) <= abs(m) * u + 0x10_0000_0000_0000 * (n
                * u),
            u > 0,
    {
        assert((0x20_0000_0000_0000 * abs(n * qv - m)) * u <= (abs(m) + 0x10_0000_0000_0000 * n)
            * u);
    }
    assert(abs(w) == w);
    // The difference.
    assert(0x20_0000_0000_0000 * abs(n * sv - (n * qv - w)) <= abs(n * qv - w)) by (nonlinear_arith)
        requires
            0x20_0000_0000_0000 * abs(sv - (qv - u)) <= abs(qv - u),
            n > 0,
            w == n * u,
    {
        assert(n * sv - (n * qv - w) == n * (sv - (qv - u)));
        assert(abs(n * (sv - (qv - u))) == n * abs(sv - (qv - u)));
        assert(n * qv - w == n * (qv - u));
        assert(abs(n * (qv - u)) == n * abs(qv - u));
        assert(n * (0x20_0000_0000_0000 * abs(sv - (qv - u))) <= n * abs(qv - u));
    }
    // The product.
    let e = cv - 1_000_000 * sv;
    assert(cv * u - sv * (1_000_000 * u) == e * u) by (nonlinear_arith)
        requires
            e == cv - 1_000_000 * sv,
    ;
    assert(abs(e * u) == abs(e) * u) by (nonlinear_arith)
        requires
            u > 0,
    ;
    assert(abs(sv * (1_000_000 * u)) == (1_000_000 * abs(sv)) * u) by (nonlinear_arith)
        requires
            u > 0,
    ;
    assert(0x20_0000_0000_0000 * abs(e) <= 1_000_000 * abs(sv) + 0x10_0000_0000_0000)
        by (nonlinear_arith)
        requires
            0x20_0000_0000_0000 * (abs(e) * u) <= (1_000_000 * abs(sv)) * u + 0x10_0000_0000_0000
                * u,
            u > 0,
    ;
    assert(n * cv - 1_000_000 * (n * sv) == n * e) by (nonlinear_arith)
        requires
            e == cv - 1_000_000 * sv,
    ;
    assert(abs(n * e) == n * abs(e)) by (nonlinear_arith)
        requires
            n > 0,
    ;
    assert(abs(n * sv) == n * abs(sv)) by (nonlinear_arith)
        requires
            n > 0,
    ;
    assert(0x20_0000_0000_0000 * (n * abs(e)) <= 1_000_000 * (n * abs(sv)) + 0x10_0000_0000_0000
        * n) by (nonlinear_arith)
        requires
            0x20_0000_0000_0000 * abs(e) <= 1_000_000 * abs(sv) + 0x10_0000_0000_0000,
            n > 0,
    ;
    lemma2_to64();
    lemma_pow2_adds(64, 64);
    bounds::lemma_pow2_order(128, 1074);
    assert(0x1_0000_0000_0000_0000 * (0x1_0000_0000_0000_0000 * n) <= w) by (nonlinear_arith)
        requires
            u >= 0x1_0000_0000_0000_0000 * 0x1_0000_0000_0000_0000,
            w == n * u,
            n > 0,
    ;
    lemma_ppm_steps(m, w, n * qv, n * sv, n * cv, n);
    assert(abs(n * cv) == n * abs(cv)) by (nonlinear_arith)
        requires
            n > 0,
    ;
    assert(abs(n * cv) < 200 * w <==> abs(cv) < 200 * u) by (nonlinear_arith)
        requires
            abs(n * cv) == n * abs(cv),
            w == n * u,
            n > 0,
    ;
}

/// A rate near its nominal one has an error in parts per million.
proof fn lemma_near_is_finite(fit: DriftFit, nominal_rate: u32)
    requires
        nominal_rate > 0,
        fit.measured_rate.is_finite_spec(),
        abs(fit.measured_rate.value() - nominal_rate * pow2(1074)) <= nominal_rate * pow2(1074),
    ensures
        fit.crystal_error(nominal_rate).is_finite_spec(),
{
    let u = pow2(1074) as int;
    let n = nominal_rate as int;
    let mega = F64 { bits: MEGA };
    let one = F64 { bits: ONE };
    let d = F64::of_int(n);
    let w = n * u;
    lemma_one();
    lemma_mega();
    accuracy::law_small_integers_are_exact(n);
    assert(w > 0) by (nonlinear_arith)
        requires
            w == n * u,
            n > 0,
            u > 0,
    ;
    let m = fit.measured_rate.value();
    lemma_pow2_unfold(1075);
    assert(abs(m) * pow2(1074) <= pow2(1075) * abs(w)) by (nonlinear_arith)
        requires
            abs(m) <= 2 * w,
            abs(w) == w,
            pow2(1075) == 2 * pow2(1074),
            pow2(1074) > 0,
    ;
    error::lemma_div_error(fit.measured_rate, d, 1075);
    let q = fit.measured_rate.div_spec(d);
    bounds::lemma_pow2_order(1074, 1075);
    bounds::lemma_difference_within(q, one, 1075);
    assert(bounds::within(mega, 1094)) by {
        lemma2_to64();
        lemma_pow2_adds(20, 1074);
    }
    bounds::lemma_product_within(q.sub_spec(one), mega, 1076, 1094);
}

/// What the drift gate lets through, in numbers. The clock was synced on at least three
/// exchanges, where it counts them. There were at least thirty observations, and their line
/// spans at least twenty seconds and scatters by less than five milliseconds. And the rate is off
/// its nominal one by less than two hundred parts per million, on either side.
///
/// What lies inside all of these limits is let through. A millionth of a part per million is left
/// open on either side of the limit, since the comparison is between doubles.
pub proof fn law_the_gate_holds_to_its_limits(
    clock: StatusView,
    observations: nat,
    fit: Option<DriftFit>,
    nominal_rate: u32,
)
    ensures
        ({
            let one = pow2(1074) as int;
            let rate = fit->0.measured_rate;
            let off = abs(rate.value() - nominal_rate * one);
            let ppm = fit->0.crystal_error(nominal_rate);
            let span = fit->0.span_seconds;
            let scatter = fit->0.residual_rms_s;
            let passes = gate_failures(clock, observations, fit, nominal_rate).len() == 0;
            &&& passes ==> {
                &&& clock.synced
                &&& clock.samples is Some ==> clock.samples->0 >= 3
                &&& observations >= 30
                &&& fit is Some
                &&& !span.is_nan_spec() && !span.is_negative_spec()
                &&& span.is_finite_spec() ==> span.value() >= 20 * one
                &&& scatter.is_finite_spec()
                &&& 1000 * scatter.value() < 5 * one + pow2(1021)
                &&& ppm.is_finite_spec()
                &&& -200 * one < ppm.value() < 200 * one
                &&& rate.is_finite_spec()
                &&& nominal_rate > 0
                &&& 10_000_000_000 * off <= 2_000_001 * (nominal_rate * one)
            }
            &&& clock.synced && (clock.samples is Some ==> clock.samples->0 >= 3) && observations
                >= 30 && fit is Some && span.is_finite_spec() && span.value() >= 20 * one
                && scatter.is_finite_spec() && 1000 * scatter.value() < 5 * one
                && rate.is_finite_spec() && nominal_rate > 0 && 10_000_000_000 * off <= 1_999_999 * (
            nominal_rate * one) ==> passes
        }),
{
    let one = pow2(1074) as int;
    lemma_limits();
    lemma_pow2_pos(1074);
    lemma_pow2_pos(1021);
    if fit is Some {
        let f = fit->0;
        let ppm = f.crystal_error(nominal_rate);
        let limit = F64 { bits: MAX_DRIFT_PPM };
        let w = nominal_rate * one;
        assert(w >= 0) by (nonlinear_arith)
            requires
                w == nominal_rate * one,
                one > 0,
        ;
        if ppm.is_finite_spec() {
            lemma_crystal_error(f, nominal_rate);
            lemma_plausible(ppm);
        }
        if f.measured_rate.is_finite_spec() && nominal_rate > 0 && 10_000_000_000 * abs(
            f.measured_rate.value() - w,
        ) <= 1_999_999 * w {
            lemma_near_is_finite(f, nominal_rate);
            lemma_crystal_error(f, nominal_rate);
            lemma_plausible(ppm);
        }
        lemma_long(f.span_seconds);
        lemma_quiet(f.residual_rms_s);
    }
    law_gate_passes_iff_every_criterion_holds(clock, observations, fit, nominal_rate);
}

/// A drift is plausible where its number is between the limits.
proof fn lemma_plausible(ppm: F64)
    ensures
        plausible(ppm) <==> ppm.is_finite_spec() && -200 * pow2(1074) < ppm.value() < 200 * pow2(1074),
{
    let f = Width::Double;
    lemma_limits();
    let a = ppm.abs_spec();
    if ppm.is_finite_spec() {
        assert(ops::magnitude_bits(f, a.bits as nat) == ops::magnitude_bits(f, ppm.bits as nat));
        assert(a.value() == abs(ppm.value()));
        accuracy::lemma_finite_order(f, MAX_DRIFT_PPM as nat, a.bits as nat);
    }
}

proof fn lemma_long(span: F64)
    ensures
        long_enough(span) ==> !span.is_nan_spec() && !span.is_negative_spec(),
        span.is_finite_spec() ==> (long_enough(span) <==> span.value() >= 20 * pow2(1074)),
{
    lemma_limits();
    if span.is_finite_spec() {
        accuracy::lemma_finite_order(Width::Double, MIN_SPAN_S as nat, span.bits as nat);
    }
}

proof fn lemma_quiet(residual: F64)
    ensures
        quiet(residual) ==> residual.is_finite_spec() && 1000 * residual.value() < 5 * pow2(1074)
            + pow2(1021),
        residual.is_finite_spec() && 1000 * residual.value() < 5 * pow2(1074) ==> quiet(residual),
{
    lemma_limits();
    if residual.is_finite_spec() {
        accuracy::lemma_finite_order(
            Width::Double,
            MAX_RESIDUAL_RMS_S as nat,
            residual.bits as nat,
        );
    }
}

/// A rate that is off by two hundred parts per million or more, on either side, is reported, and
/// a rate that is off by less is not, whatever else is wrong with the take.
pub proof fn law_an_implausible_rate_is_reported(
    clock: StatusView,
    observations: nat,
    fit: DriftFit,
    nominal_rate: u32,
)
    requires
        fit.measured_rate.is_finite_spec(),
        nominal_rate > 0,
    ensures
        ({
            let off = abs(fit.measured_rate.value() - nominal_rate * pow2(1074));
            let found = gate_failures(clock, observations, Some(fit), nominal_rate);
            &&& 10_000_000_000 * off > 2_000_001 * (nominal_rate * pow2(1074)) ==> exists|i: int|
                0 <= i < found.len() && (#[trigger] found[i]) is ImplausibleDrift
            &&& 10_000_000_000 * off <= 1_999_999 * (nominal_rate * pow2(1074)) ==> forall|i: int|
                0 <= i < found.len() ==> (#[trigger] found[i]) !is ImplausibleDrift
        }),
{
    let w = nominal_rate * pow2(1074);
    let ppm = fit.crystal_error(nominal_rate);
    let off = abs(fit.measured_rate.value() - w);
    lemma_pow2_pos(1074);
    assert(w >= 0) by (nonlinear_arith)
        requires
            w == nominal_rate * pow2(1074),
            pow2(1074) > 0,
    ;
    lemma_plausible(ppm);
    if ppm.is_finite_spec() {
        lemma_crystal_error(fit, nominal_rate);
    }
    if 10_000_000_000 * off <= 1_999_999 * w {
        lemma_near_is_finite(fit, nominal_rate);
        lemma_crystal_error(fit, nominal_rate);
    }
    let found = gate_failures(clock, observations, Some(fit), nominal_rate);
    let own = fit_failures(fit, nominal_rate);
    if !plausible(ppm) {
        let at: int = if long_enough(fit.span_seconds) { 0 } else { 1 };
        assert(own[at] is ImplausibleDrift);
        assert(found[found.len() - own.len() + at] == own[at]);
    }
}

/// What is usable is a positive number.
pub proof fn lemma_usable(x: F64)
    ensures
        is_usable(x) <==> x.is_finite_spec() && x.value() > 0,
{
    accuracy::lemma_zero(Width::Double);
    assert((F64 { bits: ZERO }).value() == 0);
    if x.is_finite_spec() {
        accuracy::lemma_finite_order(Width::Double, x.bits as nat, ZERO as nat);
    }
}

/// A finite double is below two to the power of a thousand and twenty-four.
pub proof fn lemma_finite_top(x: F64)
    requires
        x.is_finite_spec(),
    ensures
        abs(x.value()) <= pow2(2098),
{
    let f = Width::Double;
    let m = ops::magnitude_bits(f, x.bits as nat);
    lemma2_to64();
    lemma2_to64_rest();
    let half = pow2(52);
    lemma_fundamental_div_mod(m as int, half as int);
    lemma_mod_bound(m as int, half as int);
    let field = m / half;
    assert(field <= 2046) by (nonlinear_arith)
        requires
            m < 0x7FF0_0000_0000_0000,
            half == 0x10_0000_0000_0000,
            m == half * field + m % half,
            m % half >= 0,
    ;
    bounds::lemma_pow2_order(53, 2098);
    if field > 0 {
        lemma_pow2_adds(53, 2045);
        bounds::lemma_pow2_order((field - 1) as nat, 2045);
        assert((m % half + half) * pow2((field - 1) as nat) <= pow2(53) * pow2(2045))
            by (nonlinear_arith)
            requires
                0 <= m % half + half <= pow2(53),
                0 <= pow2((field - 1) as nat) <= pow2(2045),
        ;
    }
}

/// The line of a drift fit is made of numbers.
proof fn lemma_line_is_made_of_numbers(s: Seq<DriftObservation>)
    requires
        fit_of(s) is Some,
        s.len() <= MOST,
    ensures
        sxx_of(s).is_finite_spec(),
        sxx_of(s).value() > 0,
        bounds::within(beta_of(s), 1321),
        bounds::within(alpha_of(s), 1387),
{
    let xs = dxs(s);
    let ys = dys(s);
    let n = s.len() as int;
    let u = pow2(1074) as int;
    let x = pow2(1138) as int;
    let y = pow2(1201) as int;
    lemma_pow2_pos(1074);
    trend::lemma_axes(s);
    bounds::lemma_pow2_order(1000, 1074);
    bounds::lemma_pow2_order(1074, 1138);
    bounds::lemma_pow2_order(1138, 1201);
    lemma_pow2_unfold(1139);
    lemma_pow2_unfold(1202);
    bounds::lemma_pow2_order(1139, 1202);
    least_squares::lemma_mean(xs, x);
    least_squares::lemma_mean(ys, y);
    least_squares::lemma_moment(xs, ys, x, y);
    least_squares::lemma_moment(xs, xs, x, x);
    let d = sxx_of(s);
    let sv = d.value();
    let z = fold::total(F64 { bits: ZERO }, moments(xs, clock::mean(xs), ys, clock::mean(ys)));
    accuracy::lemma_zero(Width::Double);
    accuracy::lemma_finite_order(Width::Double, d.bits as nat, ZERO as nat);
    assert((F64 { bits: ZERO }).value() == 0);
    assert(sv > 0);
    // Not all of the observations are at one sample.
    if forall|i: int| 0 <= i < s.len() ==> (#[trigger] s[i]).sample_index == s[0].sample_index {
        law_observations_at_one_sample_give_no_fit(s);
    }
    let far = choose|i: int|
        0 <= i < s.len() && (#[trigger] s[i]).sample_index != s[0].sample_index;
    let a = turned(xs, 1);
    assert(together(a, a));
    let (p, q) = trend::lemma_ends(a, a);
    assert(a[far] == xs[far].value() && a[0] == xs[0].value());
    assert(a[p] <= a[far] <= a[q] && a[p] <= a[0] <= a[q]);
    let range = a[q] - a[p];
    assert(abs(xs[far].value()) >= u);
    assert(range >= u);
    assert(a[p] == xs[p].value() && a[q] == xs[q].value());
    assert(abs(xs[p].value()) <= x && abs(xs[q].value()) <= x);
    trend::lemma_trend(xs, xs, 1, p, q);
    let g = sv * u;
    assert(4 * (n * g) >= range * range) by {
        assert(1 * g == g);
    }
    assert(0x200_0000 * sv >= u) by (nonlinear_arith)
        requires
            4 * (n * (sv * u)) >= range * range,
            range >= u,
            n <= 0x80_0000,
            sv > 0,
            u > 0,
    {
        assert(range * range >= u * u);
        assert(n * (sv * u) <= 0x80_0000 * (sv * u));
        assert((0x200_0000 * sv) * u >= u * u);
    }
    // The slope.
    error::lemma_finite_quotient(z, d);
    let zv = z.value();
    let bv = beta_of(s).value();
    lemma_pow2_adds(1138, 1201);
    lemma_pow2_adds(29, 2339);
    lemma2_to64();
    let w = x * y;
    assert(abs(zv) * u <= pow2(2368)) by (nonlinear_arith)
        requires
            abs(zv) * u <= 40 * (n * w),
            w == pow2(2339),
            n <= 0x80_0000,
            pow2(2368) == 0x2000_0000 * pow2(2339),
            w >= 0,
    {
        assert(n * w <= 0x80_0000 * w);
    }
    lemma_pow2_adds(1320, 1074);
    lemma_pow2_adds(26, 2368);
    lemma_pow2_unfold(1321);
    lemma_pow2_pos(1320);
    assert(abs(bv) <= pow2(1321)) by (nonlinear_arith)
        requires
            0x20_0000_0000_0000 * abs(bv * sv - zv * u) <= abs(zv) * u + 0x10_0000_0000_0000 * sv,
            abs(zv) * u <= pow2(2368),
            0x200_0000 * sv >= u,
            pow2(2394) == 0x400_0000 * pow2(2368),
            pow2(2394) == pow2(1320) * u,
            pow2(1321) == 2 * pow2(1320),
            pow2(1320) >= 1,
            sv > 0,
            u > 0,
    {
        assert(abs(zv * u) == abs(zv) * u);
        assert(abs(bv * sv) == abs(bv) * sv);
        assert(abs(bv) * sv <= 2 * pow2(2368) + sv);
        assert(0x400_0000 * (2 * pow2(2368)) <= 2 * (pow2(1320) * (0x200_0000 * sv)));
        assert(pow2(1320) * (0x200_0000 * sv) == 0x200_0000 * (pow2(1320) * sv));
        assert(2 * pow2(2368) <= pow2(1320) * sv);
        assert(sv <= pow2(1320) * sv);
        assert(abs(bv) * sv <= pow2(1321) * sv);
    }
    assert(abs(bv) == bounds::size(beta_of(s)));
    // The intercept.
    let mx = clock::mean(xs);
    let my = clock::mean(ys);
    assert(abs(mx.value()) == bounds::size(mx) && abs(my.value()) == bounds::size(my));
    bounds::lemma_product_within(beta_of(s), mx, 1321, 1139);
    bounds::lemma_within_more(my, 1202, 1386);
    bounds::lemma_difference_within(my, beta_of(s).mul_spec(mx), 1386);
}

/// The line of a drift fit is the least-squares line of its observations, counted from the first:
/// what is left of their times before and after it cancels out, both by itself and weighted by
/// their samples, to within the rounding.
pub proof fn law_the_drift_line_is_least_squares(s: Seq<DriftObservation>, x: int, y: int)
    requires
        fit_of(s) is Some,
        s.len() <= MOST,
        are_bounds(x, y),
        reaches(dxs(s), x),
        reaches(dys(s), y),
    ensures
        alpha_of(s).is_finite_spec(),
        is_least_squares(
            dxs(s),
            dys(s),
            alpha_of(s),
            fit_of(s)->0.seconds_per_sample,
            x,
            y,
        ),
{
    lemma_line_is_made_of_numbers(s);
    trend::lemma_axes(s);
    least_squares::lemma_normal_equations(dxs(s), dys(s), alpha_of(s), beta_of(s), x, y);
}

/// Observations of a device that ran at a steady rate give it back: where no observation is
/// further than `t` from the line `a0 + b0 * samples`, the seconds per sample differ from `b0` by
/// no more than `t` and the rounding make over the spread of the samples.
pub proof fn law_a_steady_device_gives_its_rate_back(
    s: Seq<DriftObservation>,
    x: int,
    y: int,
    a0: F64,
    b0: F64,
    t: int,
)
    requires
        fit_of(s) is Some,
        s.len() <= MOST,
        are_bounds(x, y),
        reaches(dxs(s), x),
        reaches(dys(s), y),
        t >= 0,
        near_a_line(dxs(s), dys(s), a0, b0, t),
    ensures
        ({
            let n = s.len() as int;
            let b = fit_of(s)->0.seconds_per_sample;
            0x2000_0000_0000 * (abs(b.value() - b0.value()) * spread(values(dxs(s)))) <= (n * n * n)
                * (x * size_of(b, x, y)) + 0x4000_0000_0000 * ((n * n) * (x * t))
        }),
{
    law_the_drift_line_is_least_squares(s, x, y);
    lemma_pow2_pos(1074);
    lemma_pow2_pos(1000);
    least_squares::law_points_near_a_line_give_it_back(
        dxs(s),
        dys(s),
        alpha_of(s),
        fit_of(s)->0.seconds_per_sample,
        x,
        y,
        a0,
        b0,
        t,
    );
}

/// The scatter of a drift fit is that of its observations about its line: the root of their
/// squared distances over as many as there are less two, and at least one.
pub proof fn law_the_drift_residual_is_the_scatter(s: Seq<DriftObservation>)
    requires
        fit_of(s) is Some,
        s.len() <= MOST,
    ensures
        ({
            let fit = fit_of(s)->0;
            let n = s.len() as int;
            let freedom: int = if n > 3 { n - 2 } else { 1 };
            exists|d: Seq<F64>| #[trigger]
                are_distances(d, dxs(s), dys(s), alpha_of(s), fit.seconds_per_sample)
                    && is_scatter(fit.residual_rms_s, d, freedom)
        }),
{
    let fit = fit_of(s)->0;
    let n = s.len() as int;
    let freedom: int = if n > 3 { n - 2 } else { 1 };
    let xs = dxs(s);
    let ys = dys(s);
    let a = alpha_of(s);
    let b = beta_of(s);
    lemma_line_is_made_of_numbers(s);
    trend::lemma_axes(s);
    let d = Seq::new(s.len(), |i: int| ys[i].sub_spec(a.add_spec(b.mul_spec(xs[i]))));
    assert forall|i: int| 0 <= i < d.len() implies bounds::within(#[trigger] d[i], 1500)
        && is_distance(d[i], xs[i], ys[i], a, b) by {
        assert(abs(xs[i].value()) <= pow2(1138) && abs(ys[i].value()) <= pow2(1201));
        assert(abs(xs[i].value()) == bounds::size(xs[i]));
        assert(abs(ys[i].value()) == bounds::size(ys[i]));
        let p = b.mul_spec(xs[i]);
        bounds::lemma_product_within(b, xs[i], 1321, 1138);
        bounds::lemma_within_more(p, 1385, 1387);
        bounds::lemma_sum_within(a, p, 1387);
        bounds::lemma_within_more(ys[i], 1201, 1388);
        bounds::lemma_difference_within(ys[i], a.add_spec(p), 1388);
        bounds::lemma_within_more(d[i], 1389, 1500);
        scatter::lemma_distance(xs[i], ys[i], a, b);
    }
    assert(are_distances(d, xs, ys, a, b));
    scatter::lemma_scatter(F64 { bits: NEG_ZERO }, d, freedom);
    assert(scatter::squared(d) =~= squared_errors(xs, ys, a, b));
    assert(freedom == clock::degrees(s.len(), 2));
    assert(fit.seconds_per_sample == b);
    assert(are_distances(d, dxs(s), dys(s), alpha_of(s), fit.seconds_per_sample) && is_scatter(
        fit.residual_rms_s,
        d,
        freedom,
    ));
}

/// What a drift fit says of its observations: how many there were, and from the lowest to the
/// highest of their samples. The span in seconds is those samples, each as long as was measured,
/// to within the rounding.
pub proof fn law_the_drift_fit_spans_its_observations(s: Seq<DriftObservation>)
    requires
        fit_of(s) is Some,
        s.len() <= usize::MAX,
        fit_of(s)->0.span_seconds.is_finite_spec(),
    ensures
        ({
            let fit = fit_of(s)->0;
            let samples = fit.span_samples as int;
            &&& fit.points == s.len()
            &&& forall|i: int, j: int|
                0 <= i < s.len() && 0 <= j < s.len() ==> (#[trigger] s[j]).sample_index - (
                #[trigger] s[i]).sample_index <= samples
            &&& exists|i: int, j: int|
                0 <= i < s.len() && 0 <= j < s.len() && (#[trigger] s[j]).sample_index - (
                #[trigger] s[i]).sample_index == samples
            &&& 0x8_0000_0000_0000 * abs(
                fit.span_seconds.value() - samples * fit.seconds_per_sample.value(),
            ) <= samples * fit.seconds_per_sample.value() + 0x8_0000_0000_0000
        }),
{
    let fit = fit_of(s)->0;
    let (i, j) = lemma_extent(s);
    assert(s[i].sample_index == lowest(s) && s[j].sample_index == highest(s));
    assert(s[i].sample_index <= s[j].sample_index);
    let samples = fit.span_samples as int;
    let c = F64::of_int(samples);
    let b = fit.seconds_per_sample;
    let u = pow2(1074) as int;
    lemma_usable(b);
    lemma_pow2_pos(1074);
    instants::lemma_integer(samples);
    error::lemma_finite_product(c, b);
    let cv = c.value();
    let bv = b.value();
    let p = fit.span_seconds.value();
    let w = samples * bv;
    assert(0x20_0000_0000_0000 * abs(cv * bv - w * u) <= w * u && w * u >= 0) by (nonlinear_arith)
        requires
            0x20_0000_0000_0000 * abs(cv - samples * u) <= abs(samples) * u,
            w == samples * bv,
            samples >= 0,
            bv > 0,
            u > 0,
    {
        let e = cv - samples * u;
        assert(cv * bv - w * u == e * bv);
        assert(abs(e * bv) == abs(e) * bv);
        assert((0x20_0000_0000_0000 * abs(e)) * bv <= (samples * u) * bv);
        assert((samples * u) * bv == w * u);
        assert(w >= 0);
    }
    assert(p * u - w * u == (p - w) * u) by (nonlinear_arith);
    assert(abs((p - w) * u) == abs(p - w) * u) by (nonlinear_arith)
        requires
            u > 0,
    ;
    assert(0x8_0000_0000_0000 * abs(p - w) <= w + 0x8_0000_0000_0000) by (nonlinear_arith)
        requires
            0x8_0000_0000_0000 * (abs(p - w) * u) <= w * u + 0x8_0000_0000_0000 * u,
            u > 0,
    ;
}

/// The lowest and the highest sample are those of two observations, and the others lie between.
proof fn lemma_extent(s: Seq<DriftObservation>) -> (r: (int, int))
    requires
        s.len() > 0,
    ensures
        0 <= r.0 < s.len(),
        0 <= r.1 < s.len(),
        s[r.0].sample_index == lowest(s),
        s[r.1].sample_index == highest(s),
        forall|i: int|
            0 <= i < s.len() ==> lowest(s) <= (#[trigger] s[i]).sample_index <= highest(s),
    decreases s.len(),
{
    let fewer = s.drop_last();
    let l = s.len() - 1;
    if fewer.len() == 0 {
        reveal_with_fuel(lowest, 2);
        reveal_with_fuel(highest, 2);
        (0, 0)
    } else {
        let (p, q) = lemma_extent(fewer);
        assert(fewer[p] == s[p] && fewer[q] == s[q]);
        assert forall|i: int| 0 <= i < s.len() implies lowest(s) <= (
        #[trigger] s[i]).sample_index <= highest(s) by {
            if i < l {
                assert(fewer[i] == s[i]);
            }
        }
        (
            if s[l].sample_index < lowest(fewer) {
                l
            } else {
                p
            },
            if s[l].sample_index > highest(fewer) {
                l
            } else {
                q
            },
        )
    }
}

/// The correction in parts per million is how far the ratio is from one, a million times over, to
/// within the rounding.
pub proof fn law_the_correction_is_how_far_the_ratio_is_from_one(fit: DriftFit)
    requires
        fit.correction_ppm().is_finite_spec(),
    ensures
        ({
            let off = fit.drift_ratio.value() - pow2(1074);
            &&& fit.drift_ratio.is_finite_spec()
            &&& 0x8_0000_0000_0000 * abs(fit.correction_ppm().value() - 1_000_000 * off)
                <= 1_000_000 * abs(off) + 0x8_0000_0000_0000
        }),
{
    let u = pow2(1074) as int;
    let mega = F64 { bits: MEGA };
    let one = F64 { bits: ONE };
    let s = fit.drift_ratio.sub_spec(one);
    lemma_one();
    lemma_mega();
    error::lemma_finite_product(s, mega);
    error::lemma_finite_difference(fit.drift_ratio, one);
    lemma_millions(s.value(), fit.correction_ppm().value(), u);
}

/// A million times something, without the factor.
proof fn lemma_millions(s: int, c: int, u: int)
    requires
        u > 0,
        0x20_0000_0000_0000 * abs(c * u - s * (1_000_000 * u)) <= abs(s * (1_000_000 * u))
            + 0x10_0000_0000_0000 * u,
    ensures
        0x20_0000_0000_0000 * abs(c - 1_000_000 * s) <= 1_000_000 * abs(s) + 0x10_0000_0000_0000,
{
    let e = c - 1_000_000 * s;
    assert(c * u - s * (1_000_000 * u) == e * u) by (nonlinear_arith)
        requires
            e == c - 1_000_000 * s,
    ;
    assert(abs(e * u) == abs(e) * u && abs(s * (1_000_000 * u)) == (1_000_000 * abs(s)) * u)
        by (nonlinear_arith)
        requires
            u > 0,
    ;
    assert(0x20_0000_0000_0000 * abs(e) <= 1_000_000 * abs(s) + 0x10_0000_0000_0000)
        by (nonlinear_arith)
        requires
            0x20_0000_0000_0000 * (abs(e) * u) <= (1_000_000 * abs(s)) * u + 0x10_0000_0000_0000
                * u,
            u > 0,
    ;
}

/// The crystal error is how far the measured rate is off the nominal one, in millionths of that,
/// to within the rounding, and positive where the device ran fast.
pub proof fn law_the_crystal_error_is_how_far_the_rate_is_off(fit: DriftFit, nominal_rate: u32)
    requires
        fit.crystal_error(nominal_rate).is_finite_spec(),
    ensures
        ({
            let one = pow2(1074) as int;
            let n = nominal_rate as int;
            let m = fit.measured_rate.value();
            let c = fit.crystal_error(nominal_rate).value();
            &&& fit.measured_rate.is_finite_spec()
            &&& n > 0
            &&& 0x4_0000_0000_0000 * abs(n * c - 1_000_000 * (m - n * one)) <= 1_000_000 * (abs(m)
                + n * one)
        }),
{
    let u = pow2(1074) as int;
    let n = nominal_rate as int;
    let mega = F64 { bits: MEGA };
    let one = F64 { bits: ONE };
    let d = F64::of_int(n);
    let q = fit.measured_rate.div_spec(d);
    let s = q.sub_spec(one);
    let c = s.mul_spec(mega);
    lemma_one();
    lemma_mega();
    accuracy::law_small_integers_are_exact(n);
    error::lemma_finite_product(s, mega);
    error::lemma_finite_difference(q, one);
    error::lemma_finite_quotient(fit.measured_rate, d);
    let m = fit.measured_rate.value();
    let w = n * u;
    assert(n > 0) by (nonlinear_arith)
        requires
            n >= 0,
            n * u != 0,
    ;
    let qv = q.value();
    let sv = s.value();
    let cv = c.value();
    assert(qv * w - m * u == (n * qv - m) * u) by (nonlinear_arith)
        requires
            w == n * u,
    ;
    assert(abs((n * qv - m) * u) == abs(n * qv - m) * u) by (nonlinear_arith)
        requires
            u > 0,
    ;
    assert(0x20_0000_0000_0000 * abs(n * qv - m) <= abs(m) + 0x10_0000_0000_0000 * n)
        by (nonlinear_arith)
        requires
            0x20_0000_0000_0000 * (abs(n * qv - m) * u) <= abs(m) * u + 0x10_0000_0000_0000 * (n
                * u),
            u > 0,
    {
        assert((0x20_0000_0000_0000 * abs(n * qv - m)) * u <= (abs(m) + 0x10_0000_0000_0000 * n)
            * u);
    }
    assert(0x20_0000_0000_0000 * abs(n * sv - (n * qv - w)) <= abs(n * qv - w)) by (nonlinear_arith)
        requires
            0x20_0000_0000_0000 * abs(sv - (qv - u)) <= abs(qv - u),
            n > 0,
            w == n * u,
    {
        assert(n * sv - (n * qv - w) == n * (sv - (qv - u)));
        assert(abs(n * (sv - (qv - u))) == n * abs(sv - (qv - u)));
        assert(n * qv - w == n * (qv - u));
        assert(abs(n * (qv - u)) == n * abs(qv - u));
        assert(n * (0x20_0000_0000_0000 * abs(sv - (qv - u))) <= n * abs(qv - u));
    }
    lemma_millions(sv, cv, u);
    let e = cv - 1_000_000 * sv;
    assert(n * cv - 1_000_000 * (n * sv) == n * e) by (nonlinear_arith)
        requires
            e == cv - 1_000_000 * sv,
    ;
    assert(abs(n * e) == n * abs(e) && abs(n * sv) == n * abs(sv)) by (nonlinear_arith)
        requires
            n > 0,
    ;
    assert(0x20_0000_0000_0000 * (n * abs(e)) <= 1_000_000 * (n * abs(sv)) + 0x10_0000_0000_0000
        * n) by (nonlinear_arith)
        requires
            0x20_0000_0000_0000 * abs(e) <= 1_000_000 * abs(sv) + 0x10_0000_0000_0000,
            n > 0,
    ;
    lemma2_to64();
    lemma_pow2_adds(64, 64);
    bounds::lemma_pow2_order(128, 1074);
    assert(0x1_0000_0000_0000_0000 * (0x1_0000_0000_0000_0000 * n) <= w) by (nonlinear_arith)
        requires
            u >= 0x1_0000_0000_0000_0000 * 0x1_0000_0000_0000_0000,
            w == n * u,
            n > 0,
    ;
}

} // verus!
