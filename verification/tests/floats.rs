//! The bit-pattern floats against the machine's own.

use syncrec::float::{F32, F64};
use syncrec::text::{push_fixed, push_fixed_signed};
use syncrec::time::Duration;

fn wide(x: f64) -> F64 {
    F64::from_bits(x.to_bits())
}

fn num(x: F64) -> f64 {
    f64::from_bits(x.to_bits())
}

fn same64(got: F64, want: f64, what: &str) {
    let got = num(got);
    assert!(
        got.to_bits() == want.to_bits() || (got.is_nan() && want.is_nan()),
        "{what}: got {got:e}, want {want:e}"
    );
}

fn same32(got: F32, want: f32, what: &str) {
    let got = f32::from_bits(got.to_bits());
    assert!(
        got.to_bits() == want.to_bits() || (got.is_nan() && want.is_nan()),
        "{what}: got {got:e}, want {want:e}"
    );
}

/// Reproducible bit patterns, the special ones among them.
fn patterns() -> Vec<u64> {
    let mut v = vec![
        0,
        1,
        0x000F_FFFF_FFFF_FFFF,
        0x0010_0000_0000_0000,
        0x3FF0_0000_0000_0000,
        0x3FEF_FFFF_FFFF_FFFF,
        0x4340_0000_0000_0000,
        0x7FEF_FFFF_FFFF_FFFF,
        0x7FF0_0000_0000_0000,
        0x7FF8_0000_0000_0001,
        0x41CD_CD65_0000_0000,
    ];
    let mut state = 0x2545_F491_4F6C_DD1Du64;
    for k in 0..60u64 {
        state ^= state >> 12;
        state ^= state << 25;
        state ^= state >> 27;
        let x = state.wrapping_mul(0x2545_F491_4F6C_DD1D);
        v.push(x);
        // Values near one another in magnitude, where cancellation and ties happen.
        v.push(0x3FF0_0000_0000_0000 | (x >> 12));
        v.push(0x4000_0000_0000_0000 + (k << 44));
    }
    let negative: Vec<u64> = v.iter().map(|x| x ^ 0x8000_0000_0000_0000).collect();
    v.extend(negative);
    v
}

#[test]
fn double_arithmetic_is_the_machines() {
    let ps = patterns();
    for a in &ps {
        for b in &ps {
            let (x, y) = (f64::from_bits(*a), f64::from_bits(*b));
            let (p, q) = (F64::from_bits(*a), F64::from_bits(*b));
            let what = format!("{x:e}, {y:e}");
            same64(p.add(q), x + y, &what);
            same64(p.sub(q), x - y, &what);
            same64(p.mul(q), x * y, &what);
            same64(p.div(q), x / y, &what);
            assert_eq!(p.lt(q), x < y, "{what}");
            assert_eq!(p.le(q), x <= y, "{what}");
            assert_eq!(p.eq_num(q), x == y, "{what}");
        }
    }
}

#[test]
fn single_arithmetic_is_the_machines() {
    let ps: Vec<u32> = patterns().iter().map(|x| (x >> 32) as u32).collect();
    for a in &ps {
        for b in &ps {
            let (x, y) = (f32::from_bits(*a), f32::from_bits(*b));
            let (p, q) = (F32::from_bits(*a), F32::from_bits(*b));
            let what = format!("{x:e}, {y:e}");
            same32(p.add(q), x + y, &what);
            same32(p.sub(q), x - y, &what);
            same32(p.mul(q), x * y, &what);
            same32(p.div(q), x / y, &what);
            assert_eq!(p.lt(q), x < y, "{what}");
        }
    }
}

#[test]
fn roots_and_conversions_are_the_machines() {
    for a in patterns() {
        let x = f64::from_bits(a);
        let p = F64::from_bits(a);
        let what = format!("{x:e}");
        same64(p.sqrt(), x.sqrt(), &what);
        same64(p.abs(), x.abs(), &what);
        same64(p.neg(), -x, &what);
        same32(p.to_f32(), x as f32, &what);
        assert_eq!(p.round_i128(), x.round() as i128, "{what}");
        assert_eq!(p.whole_u64(), x as u64, "{what}");
        let y = f32::from_bits((a >> 32) as u32);
        let q = F32::from_bits((a >> 32) as u32);
        same64(q.to_f64(), y as f64, &what);
        same32(q.sqrt(), y.sqrt(), &what);
        same64(F64::from_u64(a), a as f64, &what);
        same32(F32::from_u64(a), a as f32, &what);
        let wide_int = (a as i128) * (a as i128 >> 7) - (a as i128);
        same64(F64::from_i128(wide_int), wide_int as f64, &what);
        same64(F64::from_i128(-wide_int), -wide_int as f64, &what);
    }
    same64(F64::from_i128(i128::MIN), i128::MIN as f64, "least");
    same64(F64::from_i128(i128::MAX), i128::MAX as f64, "greatest");
}

#[test]
fn ties_round_to_even_and_halves_away_from_zero() {
    assert_eq!(num(F64::from_u64((1 << 53) + 1)), 9007199254740992.0);
    assert_eq!(num(F64::from_u64((1 << 53) + 3)), 9007199254740996.0);
    assert_eq!(wide(2.5).round_i128(), 3);
    assert_eq!(wide(-2.5).round_i128(), -3);
    assert_eq!(wide(0.49999999999999994).round_i128(), 0);
    assert_eq!(wide(1e300).round_i128(), i128::MAX);
    assert_eq!(wide(f64::NAN).round_i128(), 0);
}

#[test]
fn extremes_and_clamping_pass_over_what_is_no_number() {
    assert_eq!(wide(1.0).max(wide(f64::NAN)), wide(1.0));
    assert_eq!(wide(f64::NAN).max(wide(1.0)), wide(1.0));
    assert_eq!(wide(2.0).min(wide(1.0)), wide(1.0));
    assert_eq!(wide(5.0).clamp(wide(0.0), wide(1.0)), wide(1.0));
    assert!(wide(f64::NAN).clamp(wide(0.0), wide(1.0)).is_nan());
}

#[test]
fn decimals_read_as_the_standard_library_prints_them() {
    let mut values = vec![
        0.0, -0.0, 0.5, 1.5, 2.5, -0.05, 0.05, 0.25, 0.35, 1e-9, 999.95, 1e20, -1e15, 47999.4,
        1.0000125, f64::MAX, f64::MIN_POSITIVE, f64::NAN, f64::INFINITY, f64::NEG_INFINITY,
    ];
    for a in patterns() {
        values.push(f64::from_bits(a));
    }
    for x in values {
        for prec in [0usize, 1, 2, 3, 4, 9] {
            let mut s = String::new();
            push_fixed(&mut s, wide(x), prec as u32);
            assert_eq!(s, format!("{x:.prec$}"), "{x:e} to {prec}");
            let mut s = String::new();
            push_fixed_signed(&mut s, wide(x), prec as u32);
            assert_eq!(s, format!("{x:+.prec$}"), "{x:e} to {prec}, signed");
        }
    }
}

#[test]
fn spans_convert_as_the_standard_library_converts_them() {
    for nanos in [0u64, 1, 999_999_999, 1_000_000_000, 1_234_567_890_123, u64::MAX] {
        let d = std::time::Duration::from_nanos(nanos);
        assert_eq!(
            num(Duration { nanos: nanos as u128 }.as_secs_f64()),
            d.as_secs_f64()
        );
    }
    for secs in [0.0, 1e-9, 0.5e-9, 1.5e-9, 2.5e-9, 0.1, 1.5, 123456.789, 1e9] {
        assert_eq!(
            Duration::from_secs_f64(wide(secs)).nanos,
            std::time::Duration::from_secs_f64(secs).as_nanos(),
            "{secs}"
        );
    }
    assert_eq!(Duration::from_secs_f64(wide(-1.0)).nanos, 0);
    assert_eq!(Duration::from_secs_f64(wide(f64::NAN)).nanos, 0);
}
