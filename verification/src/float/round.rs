//! Rounding of exact magnitudes to binary floating point.
//!
//! A magnitude is a quotient of two naturals, measured in units of the smallest
//! subnormal of the target format. Rounding is to the nearest representable value,
//! ties to even, with gradual underflow and with overflow to infinity.

use vstd::arithmetic::div_mod::*;
use vstd::arithmetic::mul::*;
use vstd::arithmetic::power2::*;
use vstd::prelude::*;

verus! {

/// The exponent of the spacing between neighbouring floats of precision `p` around
/// `n / d`: the least `e` for which `n / d` has fewer than `p + 1` bits above `2^e`.
pub open spec fn quantum(p: nat, n: nat, d: nat) -> nat
    decreases n / d,
{
    if d == 0 || n / d < pow2(p) {
        0
    } else {
        proof {
            lemma_pow2_pos(p);
            lemma_halving(n, d);
        }
        1 + quantum(p, n, 2 * d)
    }
}

/// `n / d` rounded to the nearest natural, ties to even.
pub open spec fn nearest_even(n: nat, d: nat) -> nat {
    let q = n / d;
    let r = n % d;
    if 2 * r > d || (2 * r == d && q % 2 == 1) {
        q + 1
    } else {
        q
    }
}

/// The magnitude bits of the float of precision `p` nearest to `n / d`, where `top`
/// is the bit pattern of infinity.
pub open spec fn round_bits(p: nat, top: nat, n: nat, d: nat) -> nat {
    let e = quantum(p, n, d);
    let bits = e * pow2((p - 1) as nat) + nearest_even(n, d * pow2(e));
    if bits < top {
        bits
    } else {
        top
    }
}

/// `m` is `n / d` measured in units of `2^e` and cut to a whole number; `sticky` says
/// whether anything was cut off.
pub open spec fn scaled(n: nat, d: nat, m: nat, e: int, sticky: bool) -> bool {
    let a = if e < 0 { n * pow2((-e) as nat) } else { n };
    let b = if e > 0 { d * pow2(e as nat) } else { d };
    &&& d > 0
    &&& m == a / b
    &&& sticky == (a % b != 0)
}

pub proof fn lemma_halving(n: nat, d: nat)
    requires
        d > 0,
        n / d >= 1,
    ensures
        n / (2 * d) < n / d,
{
    lemma_div_denominator(n as int, d as int, 2);
    assert(d * 2 == 2 * d);
    assert((n / d) / 2 < n / d);
}

pub proof fn lemma_quantum_is(p: nat, n: nat, d: nat, e: nat)
    requires
        d > 0,
        n / (d * pow2(e)) < pow2(p),
        e == 0 || n / (d * pow2((e - 1) as nat)) >= pow2(p),
    ensures
        quantum(p, n, d) == e,
    decreases e,
{
    lemma_pow2_pos(p);
    lemma2_to64();
    if e == 0 {
        assert(d * pow2(0) == d);
    } else {
        let f = (e - 1) as nat;
        lemma_pow2_pos(f);
        lemma_mul_increases(pow2(f) as int, d as int);
        assert(d * pow2(f) == pow2(f) * d) by (nonlinear_arith);
        lemma_div_is_ordered_by_denominator(n as int, d as int, (d * pow2(f)) as int);
        lemma_pow2_unfold(e);
        assert((2 * d) * pow2(f) == d * (2 * pow2(f))) by (nonlinear_arith);
        if f > 0 {
            let g = (f - 1) as nat;
            lemma_pow2_unfold(f);
            assert((2 * d) * pow2(g) == d * (2 * pow2(g))) by (nonlinear_arith);
        }
        lemma_quantum_is(p, n, 2 * d, f);
    }
}

pub proof fn lemma_scale_div(n: nat, d: nat, c: nat)
    requires
        d > 0,
        c > 0,
    ensures
        d * c > 0,
        (n * c) / (d * c) == n / d,
        (n * c) % (d * c) == (n % d) * c,
{
    let q = n / d;
    let r = n % d;
    lemma_fundamental_div_mod(n as int, d as int);
    assert(d * c > 0) by (nonlinear_arith)
        requires
            d > 0,
            c > 0,
    ;
    assert(n * c == q * (d * c) + r * c) by (nonlinear_arith)
        requires
            n == d * q + r,
    ;
    assert(0 <= r * c < d * c) by (nonlinear_arith)
        requires
            0 <= r < d,
            c > 0,
    ;
    lemma_fundamental_div_mod_converse((n * c) as int, (d * c) as int, q as int, (r * c) as int);
}

pub proof fn lemma_nearest_even_scale(n: nat, d: nat, c: nat)
    requires
        d > 0,
        c > 0,
    ensures
        nearest_even(n * c, d * c) == nearest_even(n, d),
{
    lemma_scale_div(n, d, c);
    let r = n % d;
    assert(2 * (r * c) > d * c <==> 2 * r > d) by (nonlinear_arith)
        requires
            c > 0,
    ;
    assert(2 * (r * c) == d * c <==> 2 * r == d) by (nonlinear_arith)
        requires
            c > 0,
    ;
}

/// Dividing by `b * s` in two steps.
pub proof fn lemma_two_step_div(a: nat, b: nat, s: nat)
    requires
        b > 0,
        s > 0,
    ensures
        b * s > 0,
        a / (b * s) == (a / b) / s,
        a % (b * s) == ((a / b) % s) * b + a % b,
{
    let m = a / b;
    let t = a % b;
    let q = m / s;
    let r = m % s;
    lemma_fundamental_div_mod(a as int, b as int);
    lemma_fundamental_div_mod(m as int, s as int);
    assert(b * s > 0) by (nonlinear_arith)
        requires
            b > 0,
            s > 0,
    ;
    assert(a == q * (b * s) + (r * b + t)) by (nonlinear_arith)
        requires
            a == b * m + t,
            m == s * q + r,
    ;
    assert(0 <= r * b + t < b * s) by (nonlinear_arith)
        requires
            0 <= r <= s - 1,
            0 <= t < b,
    ;
    lemma_fundamental_div_mod_converse(a as int, (b * s) as int, q as int, (r * b + t) as int);
}

proof fn lemma_times_unit(n: nat)
    ensures
        n * pow2(0) == n,
{
    lemma2_to64();
    lemma_mul_basics(n as int);
}

/// Rounding from a cut value and its sticky bit.
proof fn lemma_round_cut(a: nat, b: nat, h: nat)
    requires
        b > 0,
        h > 0,
    ensures
        ({
            let q = (a / b) / (2 * h);
            let r = (a / b) % (2 * h);
            let sticky = a % b != 0;
            nearest_even(a, b * (2 * h)) == if r > h || (r == h && (sticky || q % 2 == 1)) {
                q + 1
            } else {
                q
            }
        }),
{
    let m = a / b;
    let t = a % b;
    let r = m % (2 * h);
    lemma_two_step_div(a, b, 2 * h);
    let rem = r * b + t;
    if r > h {
        assert(2 * rem > b * (2 * h)) by (nonlinear_arith)
            requires
                rem == r * b + t,
                r >= h + 1,
                t >= 0,
                b > 0,
        ;
    } else if r == h {
        assert(2 * rem == b * (2 * h) + 2 * t) by (nonlinear_arith)
            requires
                rem == r * b + t,
                r == h,
        ;
    } else {
        assert(2 * rem < b * (2 * h)) by (nonlinear_arith)
            requires
                rem == r * b + t,
                r <= h - 1,
                t < b,
        ;
    }
}

/// An exact cut value may be measured in finer units.
pub proof fn lemma_scaled_finer(n: nat, d: nat, m: nat, e: int, t: nat)
    requires
        scaled(n, d, m, e, false),
    ensures
        scaled(n, d, m * pow2(t), e - t, false),
{
    let a = if e < 0 { n * pow2((-e) as nat) } else { n };
    let b = if e > 0 { d * pow2(e as nat) } else { d };
    lemma_pow2_pos(t);
    if e > 0 {
        lemma_pow2_pos(e as nat);
        assert(b > 0) by (nonlinear_arith)
            requires
                b == d * pow2(e as nat),
                d > 0,
                pow2(e as nat) > 0,
        ;
    }
    lemma_fundamental_div_mod(a as int, b as int);
    assert(a == b * m);
    let f = e - t;
    let a2 = if f < 0 { n * pow2((-f) as nat) } else { n };
    let b2 = if f > 0 { d * pow2(f as nat) } else { d };
    if f > 0 {
        lemma_pow2_pos(f as nat);
    }
    assert(b2 > 0) by {
        if f > 0 {
            assert(d * pow2(f as nat) > 0) by (nonlinear_arith)
                requires
                    d > 0,
                    pow2(f as nat) > 0,
            ;
        }
    }
    assert(a2 == b2 * (m * pow2(t))) by {
        if e <= 0 {
            lemma_pow2_adds((-e) as nat, t);
            lemma2_to64();
            assert(n * pow2((-e) as nat) == a) by (nonlinear_arith)
                requires
                    e < 0 ==> a == n * pow2((-e) as nat),
                    e == 0 ==> a == n && pow2((-e) as nat) == 1,
                    e <= 0,
            ;
            assert(n * pow2((-f) as nat) == d * (m * pow2(t))) by (nonlinear_arith)
                requires
                    n * pow2((-e) as nat) == d * m,
                    pow2((-f) as nat) == pow2((-e) as nat) * pow2(t),
            ;
            lemma_times_unit(n);
        } else if f >= 0 {
            lemma_pow2_adds(f as nat, t);
            lemma2_to64();
            assert(n == (d * pow2(f as nat)) * (m * pow2(t))) by (nonlinear_arith)
                requires
                    n == (d * pow2(e as nat)) * m,
                    pow2(e as nat) == pow2(f as nat) * pow2(t),
            ;
            lemma_times_unit(d);
        } else {
            lemma_pow2_adds(e as nat, (-f) as nat);
            assert(n * pow2((-f) as nat) == d * (m * pow2(t))) by (nonlinear_arith)
                requires
                    n == (d * pow2(e as nat)) * m,
                    pow2(t) == pow2(e as nat) * pow2((-f) as nat),
            ;
        }
    }
    assert(b2 * (m * pow2(t)) == (m * pow2(t)) * b2) by (nonlinear_arith);
    lemma_fundamental_div_mod_converse(a2 as int, b2 as int, (m * pow2(t)) as int, 0);
}

/// Rounding and cutting at any spacing no finer than that of the cut value.
proof fn lemma_at_spacing(n: nat, d: nat, m: nat, e: int, sticky: bool, f: nat)
    requires
        scaled(n, d, m, e, sticky),
        f >= e,
    ensures
        n / (d * pow2(f)) == m / pow2((f - e) as nat),
        f > e ==> ({
            let h = pow2((f - e - 1) as nat);
            let q = m / (2 * h);
            let r = m % (2 * h);
            nearest_even(n, d * pow2(f)) == if r > h || (r == h && (sticky || q % 2 == 1)) {
                q + 1
            } else {
                q
            }
        }),
{
    let k: nat = if e < 0 { (-e) as nat } else { 0 };
    let g: nat = if e > 0 { e as nat } else { 0 };
    let w = (f - e) as nat;
    lemma_pow2_pos(k);
    lemma_pow2_pos(g);
    lemma_pow2_pos(f);
    lemma_pow2_pos(w);
    let a = n * pow2(k);
    let b = d * pow2(g);
    lemma_times_unit(n);
    lemma_times_unit(d);
    assert(a == if e < 0 { n * pow2((-e) as nat) } else { n });
    assert(b == if e > 0 { d * pow2(e as nat) } else { d });
    assert(b > 0) by (nonlinear_arith)
        requires
            b == d * pow2(g),
            d > 0,
            pow2(g) > 0,
    ;
    lemma_pow2_adds(g, w);
    lemma_pow2_adds(f, k);
    assert(g + w == f + k);
    assert(b * pow2(w) == (d * pow2(f)) * pow2(k)) by (nonlinear_arith)
        requires
            b == d * pow2(g),
            pow2(g) * pow2(w) == pow2(f) * pow2(k),
    ;
    assert(d * pow2(f) > 0) by (nonlinear_arith)
        requires
            d > 0,
            pow2(f) > 0,
    ;
    lemma_scale_div(n, d * pow2(f), pow2(k));
    lemma_two_step_div(a, b, pow2(w));
    if f > e {
        lemma_pow2_unfold(w);
        lemma_pow2_pos((w - 1) as nat);
        lemma_nearest_even_scale(n, d * pow2(f), pow2(k));
        lemma_round_cut(a, b, pow2((w - 1) as nat));
    }
}

/// The spacing around a value whose cut has `len` bits, more than the precision.
proof fn lemma_spacing(p: nat, n: nat, d: nat, m: nat, e: int, sticky: bool, len: nat, e2: nat)
    requires
        scaled(n, d, m, e, sticky),
        p < len,
        pow2((len - 1) as nat) <= m < pow2(len),
        e2 == if e + len - p > 0 { e + len - p } else { 0 },
    ensures
        e2 > e,
        quantum(p, n, d) == e2,
{
    let s = (e2 - e) as nat;
    // The quotient at the chosen spacing has at most p bits.
    assert(n / (d * pow2(e2)) < pow2(p)) by {
        lemma_at_spacing(n, d, m, e, sticky, e2);
        lemma_pow2_pos(s);
        lemma_pow2_adds(s, p);
        if p + s > len {
            lemma_pow2_strictly_increases(len, p + s);
        }
        lemma_multiply_divide_lt(m as int, pow2(s) as int, pow2(p) as int);
    }
    // One bit finer it has more.
    if e2 > 0 {
        let f = (e2 - 1) as nat;
        let w = (len - p - 1) as nat;
        assert(f - e == w);
        assert(n / (d * pow2(f)) >= pow2(p)) by {
            lemma_at_spacing(n, d, m, e, sticky, f);
            lemma_pow2_pos(w);
            lemma_pow2_adds(p, w);
            lemma_div_is_ordered((pow2(p) * pow2(w)) as int, m as int, pow2(w) as int);
            lemma_div_by_multiple(pow2(p) as int, pow2(w) as int);
        }
    }
    lemma_quantum_is(p, n, d, e2);
}

pub proof fn lemma_pow2_127()
    ensures
        pow2(127) == 0x8000_0000_0000_0000_0000_0000_0000_0000,
{
    lemma2_to64();
    lemma2_to64_rest();
    lemma_pow2_adds(63, 64);
}

/// The power of two `2^s`.
pub fn two_to(s: u32) -> (r: u128)
    requires
        s < 128,
    ensures
        r == pow2(s as nat),
        r > 0,
{
    proof {
        lemma_pow2_pos(s as nat);
        lemma2_to64();
    }
    if s < 64 {
        proof {
            vstd::bits::lemma_u64_pow2_no_overflow(s as nat);
            vstd::bits::lemma_u64_shl_is_mul(1, s as u64);
        }
        (1u64 << s) as u128
    } else {
        let t: u32 = s - 64;
        proof {
            vstd::bits::lemma_u64_pow2_no_overflow(t as nat);
            vstd::bits::lemma_u64_shl_is_mul(1, t as u64);
            lemma_pow2_adds(t as nat, 64);
        }
        (1u64 << t) as u128 * 0x1_0000_0000_0000_0000u128
    }
}

/// One halving of a search for the highest bit: where `v` has more than `k` bits, the low
/// `k` are dropped and counted.
fn halve(m: u128, v: u128, len: u32, k: u32, unit: u128) -> (r: (u128, u32))
    requires
        1 <= len,
        len + k <= 127,
        unit == pow2(k as nat),
        0 < v,
        pow2((len - 1) as nat) * v <= m,
        m < pow2((len - 1) as nat) * (v + 1),
    ensures
        r.1 == len || r.1 == len + k,
        0 < r.0,
        v < unit ==> r.0 == v && r.1 == len,
        v >= unit ==> r.0 == v / unit && r.1 == len + k,
        pow2((r.1 - 1) as nat) * r.0 <= m,
        m < pow2((r.1 - 1) as nat) * (r.0 + 1),
{
    if v < unit {
        return (v, len);
    }
    proof {
        lemma_pow2_pos(k as nat);
    }
    let q: u128 = v / unit;
    proof {
        let p = pow2((len - 1) as nat);
        let u = unit as nat;
        lemma_pow2_pos((len - 1) as nat);
        lemma_pow2_pos(k as nat);
        lemma_pow2_adds((len - 1) as nat, k as nat);
        lemma_fundamental_div_mod(v as int, unit as int);
        lemma_div_is_ordered(unit as int, v as int, unit as int);
        lemma_div_basics(unit as int);
        assert((p * u) * q <= p * v) by (nonlinear_arith)
            requires
                u * q <= v,
        ;
        let rest = v % unit;
        assert(v + 1 <= u * (q + 1)) by (nonlinear_arith)
            requires
                v == u * q + rest,
                rest < u,
        ;
        assert(p * (v + 1) <= (p * u) * (q + 1)) by (nonlinear_arith)
            requires
                v + 1 <= u * (q + 1),
        ;
    }
    (q, len + k)
}

/// The number of bits in `m`.
pub fn bit_length(m: u128) -> (len: u32)
    requires
        0 < m,
        m < pow2(127),
    ensures
        1 <= len <= 127,
        pow2((len - 1) as nat) <= m < pow2(len as nat),
{
    proof {
        lemma2_to64();
        lemma2_to64_rest();
        lemma_pow2_127();
        lemma_mul_basics(m as int);
        lemma_mul_basics(m + 1);
    }
    let (a, la) = halve(m, m, 1, 63, 0x8000_0000_0000_0000);
    let (b, lb) = halve(m, a, la, 32, 0x1_0000_0000);
    let (c, lc) = halve(m, b, lb, 16, 0x1_0000);
    let (d, ld) = halve(m, c, lc, 8, 0x100);
    let (e, le) = halve(m, d, ld, 4, 0x10);
    let (f, lf) = halve(m, e, le, 2, 4);
    let (g, lg) = halve(m, f, lf, 1, 2);
    proof {
        lemma_pow2_unfold(lg as nat);
        assert(pow2((lg - 1) as nat) * 1 == pow2((lg - 1) as nat));
        assert(pow2((lg - 1) as nat) * 2 == pow2(lg as nat));
    }
    lg
}

/// Rounds a cut magnitude to the bit pattern of a float of precision `p`.
pub fn round_cut(
    p: u32,
    top: u64,
    m: u128,
    e: i32,
    sticky: bool,
    Ghost(n): Ghost<nat>,
    Ghost(d): Ghost<nat>,
) -> (bits: u64)
    requires
        p == 24 || p == 53,
        0 < m < pow2(127),
        -5000 <= e <= 5000,
        scaled(n, d, m as nat, e as int, sticky),
        sticky ==> m >= pow2((p + 1) as nat),
    ensures
        bits == round_bits(p as nat, top as nat, n, d),
{
    let len0: u32 = bit_length(m);
    let mut m: u128 = m;
    let mut e: i32 = e;
    let mut len: u32 = len0;
    if len0 <= p {
        proof {
            if sticky {
                lemma_pow2_strictly_increases(len0 as nat, (p + 1) as nat);
            }
            lemma_scaled_finer(n, d, m as nat, e as int, 60);
            lemma_pow2_adds(len0 as nat, 60);
            lemma_pow2_adds((len0 - 1) as nat, 60);
            lemma_pow2_strictly_increases((len0 + 60) as nat, 127);
            let a: nat = pow2((len0 - 1) as nat);
            let b: nat = pow2(len0 as nat);
            let c: nat = pow2(60);
            lemma_pow2_pos(60);
            assert(a * c <= m * c < b * c) by (nonlinear_arith)
                requires
                    a <= m < b,
                    c > 0,
            ;
            lemma_pow2_127();
        }
        m = m * two_to(60);
        e = e - 60;
        len = len0 + 60;
    }
    let grown: i32 = e + len as i32 - p as i32;
    let e2: i32 = if grown > 0 { grown } else { 0 };
    proof {
        lemma_spacing(p as nat, n, d, m as nat, e as int, sticky, len as nat, e2 as nat);
        lemma_at_spacing(n, d, m as nat, e as int, sticky, e2 as nat);
        lemma_pow2_127();
    }
    let s: i32 = e2 - e;
    let rounded: u128 = if s < 128 {
        let h: u128 = two_to((s - 1) as u32);
        let unit: u128 = two_to(s as u32);
        proof {
            lemma_pow2_unfold(s as nat);
        }
        proof {
            lemma_div_nonincreasing(m as int, unit as int);
        }
        let q: u128 = m / unit;
        let r: u128 = m % unit;
        if r > h || (r == h && (sticky || q % 2 == 1)) {
            q + 1
        } else {
            q
        }
    } else {
        proof {
            let h = pow2((s - 1) as nat);
            if s > 128 {
                lemma_pow2_strictly_increases(127, (s - 1) as nat);
            }
            lemma_basic_div(m as int, (2 * h) as int);
            lemma_small_mod(m as nat, 2 * h);
        }
        0
    };
    let half: u128 = two_to(p - 1);
    proof {
        lemma2_to64();
        lemma2_to64_rest();
        assert(e2 * half <= 6000 * 0x10_0000_0000_0000) by (nonlinear_arith)
            requires
                0 <= e2 <= 6000,
                0 <= half <= 0x10_0000_0000_0000,
        ;
    }
    let bits: u128 = e2 as u128 * half + rounded;
    if bits < top as u128 {
        bits as u64
    } else {
        top
    }
}

} // verus!
