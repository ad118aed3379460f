//! What a line says of an instant, in numbers.
//!
//! Spans are turned into seconds, put through a line, and turned back into nanoseconds, all in
//! doubles. Here the instants that come out are held against exact arithmetic.

use crate::audio::writer::DriftObservation;
use crate::clock::{sample_of, ClockSnapshot, SyncState};
use crate::drift;
use crate::finalize::{alpha_of, dxs, dys, fit_of, DriftFit};
use crate::float::accuracy;
use crate::float::bounds;
use crate::float::error;
use crate::float::error::abs;
use crate::float::ops;
use crate::float::ops::Width;
use crate::float::F64;
use crate::time;
use crate::time::{Instant, GIGA};
use vstd::arithmetic::div_mod::*;
use vstd::arithmetic::mul::*;
use vstd::arithmetic::power2::*;
use vstd::prelude::*;

verus! {

/// The whole number nearest to a double of fewer than a hundred bits is within half of one.
pub proof fn lemma_nearest(x: F64)
    requires
        x.is_finite_spec(),
        abs(x.value()) < pow2(1074) * pow2(100),
    ensures
        2 * abs(x.round_i128_spec() * pow2(1074) - x.value()) <= pow2(1074),
        abs(x.round_i128_spec() as int) <= pow2(100),
{
    reveal(F64::round_i128_spec);
    let u = pow2(1074) as int;
    let m = bounds::size(x);
    lemma_pow2_pos(1074);
    let t = (2 * m + u as nat) / (2 * u as nat);
    lemma_fundamental_div_mod((2 * m + u) as int, (2 * u) as int);
    lemma_mod_bound((2 * m + u) as int, (2 * u) as int);
    lemma_pow2_adds(64, 36);
    lemma2_to64();
    lemma2_to64_rest();
    assert((2 * u) * t == 2 * (t * u)) by (nonlinear_arith);
    assert(t <= pow2(100)) by (nonlinear_arith)
        requires
            2 * (t * u) <= 2 * m + u,
            m < u * pow2(100),
            u > 0,
    ;
    assert((-t) * u == -(t * u)) by (nonlinear_arith);
    assert(ops::nearest_integer(Width::Double, x.bits as nat) == if x.is_negative_spec() {
        -(t as int)
    } else {
        t as int
    });
}

/// The steps from a line to nanoseconds, in units of the square of the smallest double: `p` is
/// the slope times where it is asked, `s` that and the intercept, `g` the nanoseconds.
proof fn lemma_line_steps(a: int, w: int, p: int, s: int, g: int, u: int, t: int)
    requires
        u >= 0x1_0000_0000_0000_0000 * 0x1_0000_0000_0000_0000,
        t == abs(a * u) + abs(w),
        0x20_0000_0000_0000 * abs(p * u - w) <= abs(w) + 0x10_0000_0000_0000 * u,
        0x20_0000_0000_0000 * abs(s - (a + p)) <= abs(a + p),
        0x20_0000_0000_0000 * abs(g * u - s * (1_000_000_000 * u)) <= abs(
            s * (1_000_000_000 * u),
        ) + 0x10_0000_0000_0000 * u,
    ensures
        0x4_0000_0000_0000 * abs(g * u - 1_000_000_000 * (a * u + w)) <= 1_000_000_000 * t
            + 0x1_0000_0000_0000_0000 * (0x10_0000_0000 * u),
{
    let au = a * u;
    let pu = p * u;
    let su = s * u;
    let gu = g * u;
    assert(s * (1_000_000_000 * u) == 1_000_000_000 * su) by (nonlinear_arith)
        requires
            su == s * u,
    ;
    assert(0x20_0000_0000_0000 * abs(su - (au + pu)) <= abs(au + pu)) by (nonlinear_arith)
        requires
            0x20_0000_0000_0000 * abs(s - (a + p)) <= abs(a + p),
            au == a * u,
            pu == p * u,
            su == s * u,
            u > 0,
    {
        let e = s - (a + p);
        assert(su - (au + pu) == e * u);
        assert(abs(e * u) == abs(e) * u);
        assert(au + pu == (a + p) * u);
        assert(abs((a + p) * u) == abs(a + p) * u);
        assert((0x20_0000_0000_0000 * abs(e)) * u <= abs(a + p) * u);
    }
}

/// What a line `a + b * x`, in seconds, comes to in whole nanoseconds: the exact number, to within
/// one nanosecond and one part in two to the power of fifty.
pub proof fn lemma_line_nanos(a: F64, b: F64, x: F64)
    requires
        a.is_finite_spec(),
        b.is_finite_spec(),
        x.is_finite_spec(),
        abs(a.value()) <= pow2(1134),
        abs(b.value()) * abs(x.value()) <= pow2(1134) * pow2(1074),
    ensures
        ({
            let u = pow2(1074) as int;
            let r = a.add_spec(b.mul_spec(x)).mul_spec(F64 { bits: GIGA }).round_i128_spec() as int;
            let w = b.value() * x.value();
            &&& 0x4_0000_0000_0000 * abs(r * (u * u) - 1_000_000_000 * (a.value() * u + w))
                <= 1_000_000_000 * (abs(a.value() * u) + abs(w)) + 0x4_0000_0000_0000 * (u * u)
            &&& abs(r) <= pow2(100)
        }),
{
    let u = pow2(1074) as int;
    let giga = F64 { bits: GIGA };
    let av = a.value();
    let w = b.value() * x.value();
    time::lemma_giga();
    lemma_pow2_pos(1074);
    assert(abs(w) == abs(b.value()) * abs(x.value())) by (nonlinear_arith)
        requires
            w == b.value() * x.value(),
    ;
    error::lemma_mul_error(b, x, 1134);
    let p = b.mul_spec(x);
    assert(abs(p.value()) == bounds::size(p));
    assert(abs(av) == bounds::size(a));
    bounds::lemma_sum_within(a, p, 1134);
    let s = a.add_spec(p);
    assert(bounds::within(giga, 1104)) by {
        lemma2_to64();
        lemma_pow2_adds(30, 1074);
    }
    bounds::lemma_product_within(s, giga, 1135, 1104);
    let g = s.mul_spec(giga);
    error::lemma_finite_product(s, giga);
    error::lemma_finite_sum(a, p);
    lemma2_to64();
    lemma_pow2_adds(64, 64);
    bounds::lemma_pow2_order(128, 1074);
    let au = av * u;
    let t = abs(au) + abs(w);
    lemma_line_steps(av, w, p.value(), s.value(), g.value(), u, t);
    // The nearest whole number.
    assert(abs(g.value()) == bounds::size(g));
    lemma_pow2_adds(1074, 100);
    lemma_pow2_strictly_increases(1165, 1174);
    lemma_nearest(g);
    let r = g.round_i128_spec() as int;
    let ru = r * u;
    assert(r * (u * u) - g.value() * u == (ru - g.value()) * u) by (nonlinear_arith)
        requires
            ru == r * u,
    ;
    assert(2 * abs((ru - g.value()) * u) <= u * u) by (nonlinear_arith)
        requires
            2 * abs(ru - g.value()) <= u,
            u > 0,
    {
        assert(abs((ru - g.value()) * u) == abs(ru - g.value()) * u);
    }
    assert(0x1_0000_0000_0000_0000 * (0x10_0000_0000 * u) <= u * u) by (nonlinear_arith)
        requires
            u >= 0x1_0000_0000_0000_0000 * 0x1_0000_0000_0000_0000,
    ;
}

/// A span in seconds is its nanoseconds over a thousand million, to within one part in two to the
/// power of fifty.
pub proof fn lemma_seconds(nanos: int)
    requires
        -0x2_0000_0000_0000_0000 < nanos < 0x2_0000_0000_0000_0000,
    ensures
        time::signed_seconds(nanos).is_finite_spec(),
        0x4_0000_0000_0000 * abs(
            1_000_000_000 * time::signed_seconds(nanos).value() - nanos * pow2(1074),
        ) <= abs(nanos) * pow2(1074),
{
    let n: nat = if nanos >= 0 { nanos as nat } else { (-nanos) as nat };
    let u = pow2(1074) as int;
    let whole = (n / 1_000_000_000) as int;
    let part = (n % 1_000_000_000) as int;
    let giga = F64 { bits: GIGA };
    time::lemma_giga();
    time::lemma_signed_seconds_within(nanos);
    lemma_pow2_pos(1074);
    accuracy::law_small_integers_are_exact(whole);
    accuracy::law_small_integers_are_exact(part);
    let w = F64::of_int(whole);
    let p = F64::of_int(part);
    let q = p.div_spec(giga);
    let s = w.add_spec(q);
    assert(time::seconds(n) == s);
    error::lemma_neg_value(s);
    assert(s.is_finite_spec()) by {
        assert(ops::magnitude_bits(Width::Double, s.neg_spec().bits as nat) == ops::magnitude_bits(
            Width::Double,
            s.bits as nat,
        ));
    }
    error::lemma_finite_sum(w, q);
    error::lemma_finite_quotient(p, giga);
    let qv = q.value();
    let sv = s.value();
    let pu = part * u;
    let wu = whole * u;
    let nu = n * u;
    // The quotient, without the factor.
    assert(qv * (1_000_000_000 * u) - pu * u == (1_000_000_000 * qv - pu) * u) by (nonlinear_arith);
    assert(abs((1_000_000_000 * qv - pu) * u) == abs(1_000_000_000 * qv - pu) * u)
        by (nonlinear_arith)
        requires
            u > 0,
    ;
    assert(pu >= 0 && wu >= 0) by (nonlinear_arith)
        requires
            pu == part * u,
            wu == whole * u,
            part >= 0,
            whole >= 0,
            u > 0,
    ;
    assert(0x20_0000_0000_0000 * abs(1_000_000_000 * qv - pu) <= pu + 0x10_0000_0000_0000
        * 1_000_000_000) by (nonlinear_arith)
        requires
            0x20_0000_0000_0000 * (abs(1_000_000_000 * qv - pu) * u) <= pu * u
                + 0x10_0000_0000_0000 * (1_000_000_000 * u),
            u > 0,
    ;
    assert(nu == 1_000_000_000 * wu + pu) by (nonlinear_arith)
        requires
            nu == n * u,
            wu == whole * u,
            pu == part * u,
            n == 1_000_000_000 * whole + part,
    ;
    if n == 0 {
        assert(nu == 0) by (nonlinear_arith)
            requires
                nu == n * u,
                n == 0,
        ;
        assert(qv == 0) by {
            accuracy::lemma_zero(Width::Double);
            assert(p.value() <= 0);
        }
    } else {
        lemma2_to64();
        lemma_pow2_adds(64, 64);
        bounds::lemma_pow2_order(128, 1074);
        assert(nu >= u) by (nonlinear_arith)
            requires
                nu == n * u,
                n >= 1,
                u > 0,
        ;
    }
    assert((-(n as int)) * u == -nu) by (nonlinear_arith)
        requires
            nu == n * u,
    ;
}

/// What the clock model answers, in numbers: UTC is the base and the span since it, corrected by
/// the fitted line. The intercept counts in full, and the slope as often as the span is long, to
/// within a nanosecond and one part in two to the power of forty-eight of the correction.
///
/// Corrections of more than two to the power of sixty seconds are left out, and answers at the
/// ends of what an instant can be.
pub proof fn law_utc_is_the_span_since_the_base_corrected(c: ClockSnapshot, mono: Instant)
    requires
        c.fit is Some,
        c.state != SyncState::Unsynced,
        c.fit->0.a.is_finite_spec(),
        c.fit->0.b.is_finite_spec(),
        abs(c.fit->0.a.value()) <= pow2(1134),
        abs(c.fit->0.b.value()) <= pow2(1074),
        i128::MIN + pow2(101) < c.base_utc_nanos < i128::MAX - pow2(101),
    ensures
        ({
            let one = pow2(1074) as int;
            let span = mono.nanos - c.base_mono.nanos;
            let a = 1_000_000_000 * c.fit->0.a.value();
            let b = c.fit->0.b.value() * span;
            &&& c.resolves(mono) is Some
            &&& 0x1_0000_0000_0000 * abs(
                (c.resolves(mono)->0 - c.base_utc_nanos - span) * one - (a + b),
            ) <= abs(a) + abs(b) + 0x1_0000_0000_0000 * one
        }),
{
    let fit = c.fit->0;
    let u = pow2(1074) as int;
    let span = mono.nanos - c.base_mono.nanos;
    let x = time::signed_seconds(span);
    let av = fit.a.value();
    let bv = fit.b.value();
    lemma_pow2_pos(1074);
    lemma_seconds(span);
    let xv = x.value();
    let su = span * u;
    assert(abs(su) == abs(span) * u) by (nonlinear_arith)
        requires
            su == span * u,
            u > 0,
    ;
    lemma2_to64();
    lemma2_to64_rest();
    lemma_pow2_adds(60, 1074);
    assert(abs(xv) <= pow2(1134)) by (nonlinear_arith)
        requires
            0x4_0000_0000_0000 * abs(1_000_000_000 * xv - su) <= abs(su),
            abs(su) == abs(span) * u,
            abs(span) <= 0x1_0000_0000_0000_0000,
            pow2(1134) == 0x1000_0000_0000_0000 * u,
            u > 0,
    {
        assert(abs(su) <= 0x1_0000_0000_0000_0000 * u);
    }
    assert(abs(bv) * abs(xv) <= pow2(1134) * pow2(1074)) by (nonlinear_arith)
        requires
            0 <= abs(bv) <= pow2(1074),
            0 <= abs(xv) <= pow2(1134),
    ;
    lemma_line_nanos(fit.a, fit.b, x);
    let r = ClockSnapshot::correction_nanos(fit, span) as int;
    lemma_pow2_unfold(101);
    assert(0x1_0000_0000_0000_0000 < pow2(100)) by {
        lemma_pow2_strictly_increases(64, 100);
    }
    assert(c.resolves(mono)->0 == c.base_utc_nanos + span + r);
    lemma_answer_steps(av, bv, xv, span, r, u);
}

/// The last steps of an answer: `x` is the span in seconds, and `r` the correction.
proof fn lemma_answer_steps(a: int, b: int, x: int, span: int, r: int, u: int)
    requires
        u > 0,
        0x4_0000_0000_0000 * abs(1_000_000_000 * x - span * u) <= abs(span) * u,
        0x4_0000_0000_0000 * abs(r * (u * u) - 1_000_000_000 * (a * u + b * x)) <= 1_000_000_000 * (
        abs(a * u) + abs(b * x)) + 0x4_0000_0000_0000 * (u * u),
    ensures
        0x1_0000_0000_0000 * abs(r * u - (1_000_000_000 * a + b * span)) <= abs(1_000_000_000 * a)
            + abs(b * span) + 0x1_0000_0000_0000 * u,
{
    let big: int = 0x4_0000_0000_0000;
    let g = b * x;
    let h = b * (span * u);
    // What the seconds are off by makes of the slope.
    assert(big * abs(1_000_000_000 * g - h) <= abs(h)) by (nonlinear_arith)
        requires
            big * abs(1_000_000_000 * x - span * u) <= abs(span) * u,
            g == b * x,
            h == b * (span * u),
            u > 0,
            big > 0,
    {
        let e = 1_000_000_000 * x - span * u;
        assert(1_000_000_000 * g - h == b * e);
        assert(abs(b * e) == abs(b) * abs(e));
        assert(abs(b) * (big * abs(e)) <= abs(b) * (abs(span) * u));
        assert(abs(h) == abs(b) * abs(span * u));
        assert(abs(span * u) == abs(span) * u);
    }
    let k = r * u;
    let f = 1_000_000_000 * a;
    let bs = b * span;
    assert(h == bs * u) by (nonlinear_arith)
        requires
            h == b * (span * u),
            bs == b * span,
    ;
    assert(r * (u * u) == k * u) by (nonlinear_arith)
        requires
            k == r * u,
    ;
    assert(1_000_000_000 * (a * u) == f * u) by (nonlinear_arith)
        requires
            f == 1_000_000_000 * a,
    ;
    let v = k - (f + bs);
    assert(v * u == k * u - f * u - bs * u) by (nonlinear_arith)
        requires
            v == k - (f + bs),
    ;
    assert(abs(v * u) == abs(v) * u) by (nonlinear_arith)
        requires
            u > 0,
    ;
    assert(abs(f * u) == abs(f) * u && abs(bs * u) == abs(bs) * u) by (nonlinear_arith)
        requires
            u > 0,
    ;
    assert(0x1_0000_0000_0000 * (abs(v) * u) <= abs(f) * u + abs(bs) * u + 0x1_0000_0000_0000 * (u
        * u));
    assert(0x1_0000_0000_0000 * abs(v) <= abs(f) + abs(bs) + 0x1_0000_0000_0000 * u)
        by (nonlinear_arith)
        requires
            0x1_0000_0000_0000 * (abs(v) * u) <= abs(f) * u + abs(bs) * u + 0x1_0000_0000_0000 * (u
                * u),
            u > 0,
    {
        assert((0x1_0000_0000_0000 * abs(v)) * u <= (abs(f) + abs(bs) + 0x1_0000_0000_0000 * u)
            * u);
    }
}

/// A whole number as a double is close to it.
pub proof fn lemma_integer(i: int)
    requires
        i128::MIN <= i <= i128::MAX,
    ensures
        bounds::within(F64::of_int(i), 1201),
        0x20_0000_0000_0000 * abs(F64::of_int(i).value() - i * pow2(1074)) <= abs(i) * pow2(1074),
{
    let u = pow2(1074) as int;
    crate::float::round::lemma_pow2_127();
    lemma_pow2_pos(1074);
    bounds::lemma_integer_within(i, 127);
    reveal(F64::of_int);
    let n = (abs(i) * u) as nat;
    assert(n == abs(i) * u) by (nonlinear_arith)
        requires
            abs(i) >= 0,
            u > 0,
            n == (abs(i) * u) as nat,
    ;
    assert((-i) * u == -(i * u)) by (nonlinear_arith);
    let m = crate::float::round::round_bits(53, Width::Double.top(), n, 1);
    let r = F64::of_int(i);
    assert(ops::magnitude_bits(Width::Double, r.bits as nat) == m);
    assert(ops::magnitude(Width::Double, r.bits as nat) == ops::magnitude(Width::Double, m));
    error::lemma_relative(n, 1);
    if i == 0 {
        assert(n == 0);
    }
}

/// Nanoseconds over a thousand million, to within one part in two to the power of fifty.
pub proof fn lemma_nanos_in_seconds(i: int)
    requires
        i128::MIN <= i <= i128::MAX,
    ensures
        ({
            let y = F64::of_int(i).div_spec(F64 { bits: GIGA });
            &&& y.is_finite_spec()
            &&& 0x4_0000_0000_0000 * abs(1_000_000_000 * y.value() - i * pow2(1074)) <= abs(i)
                * pow2(1074)
        }),
{
    let u = pow2(1074) as int;
    let giga = F64 { bits: GIGA };
    let w = F64::of_int(i);
    let y = w.div_spec(giga);
    time::lemma_giga();
    time::lemma_nanos_in_seconds_within(i);
    lemma_pow2_pos(1074);
    lemma_integer(i);
    error::lemma_finite_quotient(w, giga);
    let wv = w.value();
    let yv = y.value();
    let iu = i * u;
    assert(abs(iu) == abs(i) * u) by (nonlinear_arith)
        requires
            iu == i * u,
            u > 0,
    ;
    let e = 1_000_000_000 * yv - wv;
    assert(yv * (1_000_000_000 * u) - wv * u == e * u) by (nonlinear_arith)
        requires
            e == 1_000_000_000 * yv - wv,
    ;
    assert(abs(e * u) == abs(e) * u) by (nonlinear_arith)
        requires
            u > 0,
    ;
    assert(0x20_0000_0000_0000 * abs(e) <= abs(wv) + 0x10_0000_0000_0000 * 1_000_000_000)
        by (nonlinear_arith)
        requires
            0x20_0000_0000_0000 * (abs(e) * u) <= abs(wv) * u + 0x10_0000_0000_0000 * (
            1_000_000_000 * u),
            u > 0,
    ;
    if i == 0 {
        assert(iu == 0) by (nonlinear_arith)
            requires
                i == 0,
                iu == i * u,
        ;
        assert(wv == 0);
        assert(yv == 0);
    } else {
        lemma2_to64();
        lemma_pow2_adds(64, 64);
        bounds::lemma_pow2_order(128, 1074);
        assert(abs(iu) >= u) by (nonlinear_arith)
            requires
                abs(iu) == abs(i) * u,
                abs(i) >= 1,
                u > 0,
        ;
    }
}

/// What an exchange makes of a sample, in numbers: its time is the span since the base, and its
/// correction is how far the UTC of the exchange lies past what the base and that span make, both
/// in seconds, to within one part in two to the power of fifty.
pub proof fn law_a_sample_is_what_the_exchange_showed(
    base_mono: Instant,
    base_utc: i128,
    mono_mid: Instant,
    utc_mid_nanos: i128,
    delay: F64,
    offset: F64,
)
    requires
        i128::MIN <= base_utc + (mono_mid.nanos - base_mono.nanos) <= i128::MAX,
        i128::MIN <= utc_mid_nanos - base_utc - (mono_mid.nanos - base_mono.nanos) <= i128::MAX,
    ensures
        ({
            let one = pow2(1074) as int;
            let c = sample_of(base_mono, base_utc, mono_mid, utc_mid_nanos, delay, offset);
            let span = mono_mid.nanos - base_mono.nanos;
            let past = utc_mid_nanos - base_utc - span;
            &&& c.x.is_finite_spec()
            &&& c.y.is_finite_spec()
            &&& 0x4_0000_0000_0000 * abs(1_000_000_000 * c.x.value() - span * one) <= abs(span)
                * one
            &&& 0x4_0000_0000_0000 * abs(1_000_000_000 * c.y.value() - past * one) <= abs(past)
                * one
            &&& c.delay == delay
            &&& c.offset == offset
            &&& c.at_unix_nanos == utc_mid_nanos
        }),
{
    lemma_seconds(mono_mid.nanos - base_mono.nanos);
    lemma_nanos_in_seconds(utc_mid_nanos - base_utc - (mono_mid.nanos - base_mono.nanos));
}

/// What the drift fit works on, in numbers: the samples as they are counted from the first, and
/// the seconds since it.
pub proof fn law_the_drift_fit_works_on_the_observations(s: Seq<DriftObservation>, i: int)
    requires
        0 <= i < s.len(),
        i128::MIN <= s[i].utc_unix_nanos - s[0].utc_unix_nanos <= i128::MAX,
    ensures
        ({
            let one = pow2(1074) as int;
            let samples = s[i].sample_index - s[0].sample_index;
            let nanos = s[i].utc_unix_nanos - s[0].utc_unix_nanos;
            &&& dxs(s).len() == s.len()
            &&& dys(s).len() == s.len()
            &&& dxs(s)[i].is_finite_spec()
            &&& dys(s)[i].is_finite_spec()
            &&& 0x20_0000_0000_0000 * abs(dxs(s)[i].value() - samples * one) <= abs(samples) * one
            &&& 0x4_0000_0000_0000 * abs(1_000_000_000 * dys(s)[i].value() - nanos * one) <= abs(
                nanos,
            ) * one
        }),
{
    lemma_integer(s[i].sample_index - s[0].sample_index);
    lemma_nanos_in_seconds(s[i].utc_unix_nanos - s[0].utc_unix_nanos);
}

/// A line through a sample index: what it comes to is close, though the index was rounded: `v` is
/// the index as a double, and `w` the slope times it.
proof fn lemma_index_steps(a: int, b: int, v: int, i: int, r: int, u: int)
    requires
        u > 0,
        0x20_0000_0000_0000 * abs(v - i * u) <= abs(i) * u,
        0x4_0000_0000_0000 * abs(r * (u * u) - 1_000_000_000 * (a * u + b * v)) <= 1_000_000_000 * (
        abs(a * u) + abs(b * v)) + 0x4_0000_0000_0000 * (u * u),
    ensures
        0x1_0000_0000_0000 * abs(r * u - 1_000_000_000 * (a + b * i)) <= 1_000_000_000 * (abs(a)
            + abs(b * i)) + 0x1_0000_0000_0000 * u,
{
    let g = b * v;
    let bi = b * i;
    assert(0x20_0000_0000_0000 * abs(g - bi * u) <= abs(bi) * u) by (nonlinear_arith)
        requires
            0x20_0000_0000_0000 * abs(v - i * u) <= abs(i) * u,
            g == b * v,
            bi == b * i,
            u > 0,
    {
        let e = v - i * u;
        assert(g - bi * u == b * e);
        assert(abs(b * e) == abs(b) * abs(e));
        assert(abs(b) * (0x20_0000_0000_0000 * abs(e)) <= abs(b) * (abs(i) * u));
        assert(abs(bi) == abs(b) * abs(i));
    }
    let k = r * u;
    assert(r * (u * u) == k * u) by (nonlinear_arith)
        requires
            k == r * u,
    ;
    let t = 1_000_000_000 * (a + bi);
    let x = k - t;
    assert(x * u == k * u - 1_000_000_000 * (a * u) - 1_000_000_000 * (bi * u)) by (nonlinear_arith)
        requires
            x == k - t,
            t == 1_000_000_000 * (a + bi),
    ;
    assert(abs(x * u) == abs(x) * u) by (nonlinear_arith)
        requires
            u > 0,
    ;
    assert(abs(a * u) == abs(a) * u && abs(bi * u) == abs(bi) * u) by (nonlinear_arith)
        requires
            u > 0,
    ;
    assert(0x1_0000_0000_0000 * abs(x) <= 1_000_000_000 * (abs(a) + abs(bi)) + 0x1_0000_0000_0000
        * u) by (nonlinear_arith)
        requires
            0x1_0000_0000_0000 * (abs(x) * u) <= 1_000_000_000 * (abs(a) * u + abs(bi) * u)
                + 0x1_0000_0000_0000 * (u * u),
            u > 0,
    {
        assert((0x1_0000_0000_0000 * abs(x)) * u <= (1_000_000_000 * (abs(a) + abs(bi))
            + 0x1_0000_0000_0000 * u) * u);
    }
}

/// The anchor that the drift fit gives is where its line stands at sample zero: at the UTC of the
/// first observation, and the intercept after it, and the seconds of the samples before it
/// earlier, to within a nanosecond and one part in two to the power of forty-eight.
pub proof fn law_the_fitted_anchor_is_the_line_at_sample_zero(s: Seq<DriftObservation>)
    requires
        fit_of(s) is Some,
        alpha_of(s).is_finite_spec(),
        abs(alpha_of(s).value()) <= pow2(1134),
        fit_of(s)->0.seconds_per_sample.value() <= pow2(1069),
        i128::MIN + pow2(101) < s[0].utc_unix_nanos < i128::MAX - pow2(101),
    ensures
        ({
            let one = pow2(1074) as int;
            let a = alpha_of(s).value();
            let b = fit_of(s)->0.seconds_per_sample.value() * s[0].sample_index;
            0x1_0000_0000_0000 * abs(
                (fit_of(s)->0.t0_unix_nanos - s[0].utc_unix_nanos) * one - 1_000_000_000 * (a - b),
            ) <= 1_000_000_000 * (abs(a) + abs(b)) + 0x1_0000_0000_0000 * one
        }),
{
    let fit = fit_of(s)->0;
    let beta = fit.seconds_per_sample;
    let alpha = alpha_of(s);
    let i = s[0].sample_index as int;
    let u = pow2(1074) as int;
    let x = F64::of_int(i).neg_spec();
    drift::lemma_usable(beta);
    lemma_pow2_pos(1074);
    lemma_integer(i);
    error::lemma_neg_value(F64::of_int(i));
    let v = x.value();
    lemma_index_reach(i, v, beta.value());
    assert((-i) * u == -(i * u)) by (nonlinear_arith);
    lemma_line_nanos(alpha, beta, x);
    let r = alpha.add_spec(beta.mul_spec(x)).mul_spec(F64 { bits: GIGA }).round_i128_spec() as int;
    lemma_pow2_unfold(101);
    assert(fit.t0_unix_nanos == s[0].utc_unix_nanos + r);
    lemma_index_steps(alpha.value(), beta.value(), v, -i, r, u);
    assert(beta.value() * (-i) == -(beta.value() * i)) by (nonlinear_arith);
}

/// A slope times a sample index stays within reach.
proof fn lemma_index_reach(i: int, v: int, b: int)
    requires
        0 <= i <= u64::MAX,
        0 <= b <= pow2(1069),
        0x20_0000_0000_0000 * abs(abs(v) - i * pow2(1074)) <= i * pow2(1074),
    ensures
        abs(b) * abs(v) <= pow2(1134) * pow2(1074),
{
    let u = pow2(1074) as int;
    lemma_pow2_pos(1074);
    lemma2_to64();
    lemma_pow2_adds(65, 1069);
    lemma_pow2_adds(64, 1);
    assert(abs(v) <= pow2(65) * u) by (nonlinear_arith)
        requires
            0x20_0000_0000_0000 * abs(abs(v) - i * u) <= i * u,
            0 <= i <= 0xFFFF_FFFF_FFFF_FFFF,
            pow2(65) == 0x1_0000_0000_0000_0000 * 2,
            u > 0,
    ;
    assert(abs(b) * abs(v) <= pow2(1069) * (pow2(65) * u)) by (nonlinear_arith)
        requires
            0 <= abs(b) <= pow2(1069),
            0 <= abs(v) <= pow2(65) * u,
    ;
    assert(pow2(1069) * (pow2(65) * u) == (pow2(65) * pow2(1069)) * u) by (nonlinear_arith);
}

/// UTC at a sample, per a drift fit, is its anchor and as many times the seconds per sample, to
/// within a nanosecond and one part in two to the power of forty-eight.
pub proof fn law_utc_at_a_sample_counts_from_the_anchor(fit: DriftFit, sample_index: u64)
    requires
        fit.seconds_per_sample.is_finite_spec(),
        0 <= fit.seconds_per_sample.value() <= pow2(1069),
        i128::MIN + pow2(101) < fit.t0_unix_nanos < i128::MAX - pow2(101),
    ensures
        ({
            let one = pow2(1074) as int;
            let b = fit.seconds_per_sample.value() * sample_index;
            0x1_0000_0000_0000 * abs(
                (fit.utc_at(sample_index) - fit.t0_unix_nanos) * one - 1_000_000_000 * b,
            ) <= 1_000_000_000 * abs(b) + 0x1_0000_0000_0000 * one
        }),
{
    let beta = fit.seconds_per_sample;
    let i = sample_index as int;
    let u = pow2(1074) as int;
    let x = F64::of_int(i);
    let giga = F64 { bits: GIGA };
    let zero = F64 { bits: 0 };
    lemma_pow2_pos(1074);
    lemma_integer(i);
    assert(i * u >= 0) by (nonlinear_arith)
        requires
            i >= 0,
            u > 0,
    ;
    lemma_index_reach(i, x.value(), beta.value());
    lemma_scaled_nanos(beta, x);
    let r = beta.mul_spec(x).mul_spec(giga).round_i128_spec() as int;
    lemma_pow2_unfold(101);
    assert(fit.utc_at(sample_index) == fit.t0_unix_nanos + r);
    assert(0 * u == 0);
    lemma_index_steps(0, beta.value(), x.value(), i, r, u);
}

/// What a slope alone comes to in whole nanoseconds.
proof fn lemma_scaled_nanos(b: F64, x: F64)
    requires
        b.is_finite_spec(),
        x.is_finite_spec(),
        abs(b.value()) * abs(x.value()) <= pow2(1134) * pow2(1074),
    ensures
        ({
            let u = pow2(1074) as int;
            let r = b.mul_spec(x).mul_spec(F64 { bits: GIGA }).round_i128_spec() as int;
            let w = b.value() * x.value();
            &&& 0x4_0000_0000_0000 * abs(r * (u * u) - 1_000_000_000 * (0 * u + w))
                <= 1_000_000_000 * (abs(0 * u) + abs(w)) + 0x4_0000_0000_0000 * (u * u)
            &&& abs(r) <= pow2(100)
        }),
{
    let u = pow2(1074) as int;
    let giga = F64 { bits: GIGA };
    let w = b.value() * x.value();
    time::lemma_giga();
    lemma_pow2_pos(1074);
    assert(abs(w) == abs(b.value()) * abs(x.value())) by (nonlinear_arith)
        requires
            w == b.value() * x.value(),
    ;
    error::lemma_mul_error(b, x, 1134);
    let p = b.mul_spec(x);
    assert(bounds::within(giga, 1104)) by {
        lemma2_to64();
        lemma_pow2_adds(30, 1074);
    }
    bounds::lemma_product_within(p, giga, 1134, 1104);
    let g = p.mul_spec(giga);
    error::lemma_finite_product(p, giga);
    lemma2_to64();
    lemma_pow2_adds(64, 64);
    bounds::lemma_pow2_order(128, 1074);
    assert(0 * u == 0);
    lemma_line_steps(0, w, p.value(), p.value(), g.value(), u, abs(w));
    assert(abs(g.value()) == bounds::size(g));
    lemma_pow2_adds(1074, 100);
    lemma_pow2_strictly_increases(1164, 1174);
    lemma_nearest(g);
    let r = g.round_i128_spec() as int;
    let ru = r * u;
    assert(r * (u * u) - g.value() * u == (ru - g.value()) * u) by (nonlinear_arith)
        requires
            ru == r * u,
    ;
    assert(2 * abs((ru - g.value()) * u) <= u * u) by (nonlinear_arith)
        requires
            2 * abs(ru - g.value()) <= u,
            u > 0,
    {
        assert(abs((ru - g.value()) * u) == abs(ru - g.value()) * u);
    }
    assert(0x1_0000_0000_0000_0000 * (0x10_0000_0000 * u) <= u * u) by (nonlinear_arith)
        requires
            u >= 0x1_0000_0000_0000_0000 * 0x1_0000_0000_0000_0000,
    ;
}

/// What some seconds come to in whole nanoseconds: the exact number, to within one nanosecond and
/// one part in two to the power of fifty.
pub proof fn lemma_seconds_to_nanos(x: F64)
    requires
        x.is_finite_spec(),
        abs(x.value()) <= pow2(1134),
    ensures
        ({
            let r = x.mul_spec(F64 { bits: GIGA }).round_i128_spec() as int;
            &&& 0x4_0000_0000_0000 * abs(r * pow2(1074) - 1_000_000_000 * x.value())
                <= 1_000_000_000 * abs(x.value()) + 0x4_0000_0000_0000 * pow2(1074)
            &&& abs(r) <= pow2(100)
        }),
{
    let u = pow2(1074) as int;
    let giga = F64 { bits: GIGA };
    time::lemma_giga();
    lemma_pow2_pos(1074);
    assert(abs(x.value()) == bounds::size(x));
    assert(bounds::within(giga, 1104)) by {
        lemma2_to64();
        lemma_pow2_adds(30, 1074);
    }
    bounds::lemma_product_within(x, giga, 1134, 1104);
    let g = x.mul_spec(giga);
    error::lemma_finite_product(x, giga);
    assert(abs(g.value()) == bounds::size(g));
    lemma_pow2_adds(1074, 100);
    lemma_pow2_strictly_increases(1164, 1174);
    lemma_nearest(g);
    let xv = x.value();
    let gv = g.value();
    let e = gv - 1_000_000_000 * xv;
    assert(gv * u - xv * (1_000_000_000 * u) == e * u) by (nonlinear_arith)
        requires
            e == gv - 1_000_000_000 * xv,
    ;
    assert(abs(e * u) == abs(e) * u && abs(xv * (1_000_000_000 * u)) == (1_000_000_000 * abs(xv))
        * u) by (nonlinear_arith)
        requires
            u > 0,
    ;
    assert(0x20_0000_0000_0000 * abs(e) <= 1_000_000_000 * abs(xv) + 0x10_0000_0000_0000)
        by (nonlinear_arith)
        requires
            0x20_0000_0000_0000 * (abs(e) * u) <= (1_000_000_000 * abs(xv)) * u
                + 0x10_0000_0000_0000 * u,
            u > 0,
    ;
    lemma2_to64();
    bounds::lemma_pow2_order(64, 1074);
}

} // verus!
