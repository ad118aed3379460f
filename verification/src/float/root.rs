//! Square roots, rounded once.

use crate::float::accuracy;
use crate::float::accuracy::distance;
use crate::float::bounds;
use crate::float::ops;
use crate::float::ops::{unpack, Width};
use crate::float::round;
use crate::float::round::{bit_length, two_to};
use vstd::arithmetic::div_mod::*;
use vstd::arithmetic::mul::*;
use vstd::arithmetic::power2::*;
use vstd::prelude::*;

verus! {

/// The greatest natural whose square does not exceed `x`.
pub open spec fn floor_sqrt(x: nat) -> nat
    decreases x,
{
    if x == 0 {
        0
    } else {
        let r = 2 * floor_sqrt(x / 4);
        if (r + 1) * (r + 1) <= x {
            r + 1
        } else {
            r
        }
    }
}

/// The exponent of the spacing of floats of precision `p` around the root of `x`.
pub open spec fn root_quantum(p: nat, x: nat) -> nat
    decreases x,
{
    if x == 0 || floor_sqrt(x) < pow2(p) {
        0
    } else {
        1 + root_quantum(p, x / 4)
    }
}

/// The magnitude bits of the float of precision `p` nearest to the square root of `x`.
/// The root of a float never lies halfway between two floats, so no tie needs a rule.
pub open spec fn root_bits(p: nat, top: nat, x: nat) -> nat {
    let e = root_quantum(p, x);
    let q = floor_sqrt(x / pow2(2 * e));
    let up: nat = if 4 * x > ((2 * q + 1) * (2 * q + 1)) * pow2(2 * e) { 1 } else { 0 };
    let bits = e * pow2((p - 1) as nat) + q + up;
    if bits < top {
        bits
    } else {
        top
    }
}

/// The square root of a float; negative numbers have none, the two zeros are their own.
pub open spec fn square_root(f: Width, x: nat) -> nat {
    if ops::is_nan(f, x) {
        f.nan()
    } else if ops::is_zero(f, x) {
        x
    } else if ops::is_negative(f, x) {
        f.nan()
    } else if ops::is_infinite(f, x) {
        x
    } else {
        root_bits(f.precision(), f.top(), ops::magnitude(f, x) * pow2(f.unit()))
    }
}

pub proof fn lemma_floor_sqrt(x: nat)
    ensures
        floor_sqrt(x) * floor_sqrt(x) <= x,
        x < (floor_sqrt(x) + 1) * (floor_sqrt(x) + 1),
    decreases x,
{
    if x > 0 {
        let s = floor_sqrt(x / 4);
        lemma_floor_sqrt(x / 4);
        assert((2 * s) * (2 * s) == 4 * (s * s)) by (nonlinear_arith);
        assert((2 * s + 2) * (2 * s + 2) == 4 * ((s + 1) * (s + 1))) by (nonlinear_arith);
        let r = 2 * s;
        if (r + 1) * (r + 1) <= x {
            assert(floor_sqrt(x) == r + 1);
            assert(r + 1 + 1 == 2 * s + 2);
        } else {
            assert(floor_sqrt(x) == r);
        }
    } else {
        lemma_mul_basics(0);
        lemma_mul_basics(1);
    }
}

proof fn lemma_floor_sqrt_is(x: nat, r: nat)
    requires
        r * r <= x < (r + 1) * (r + 1),
    ensures
        floor_sqrt(x) == r,
{
    lemma_floor_sqrt(x);
    let t = floor_sqrt(x);
    if t < r {
        assert((t + 1) * (t + 1) <= r * r) by (nonlinear_arith)
            requires
                t + 1 <= r,
        ;
    } else if r < t {
        assert((r + 1) * (r + 1) <= t * t) by (nonlinear_arith)
            requires
                r + 1 <= t,
        ;
    }
}

/// Cutting under the root is cutting the root.
proof fn lemma_floor_sqrt_shift(y: nat, s: nat)
    ensures
        floor_sqrt(y / pow2(2 * s)) == floor_sqrt(y) / pow2(s),
    decreases s,
{
    lemma2_to64();
    if s == 0 {
        assert(y / 1 == y);
        assert(floor_sqrt(y) / 1 == floor_sqrt(y));
    } else {
        let t = (s - 1) as nat;
        lemma_floor_sqrt_shift(y, t);
        lemma_pow2_pos(t);
        lemma_pow2_pos(2 * t);
        lemma_pow2_adds(2 * t, 2);
        lemma_pow2_adds(t, 1);
        lemma_div_denominator(y as int, pow2(2 * t) as int, 4);
        lemma_div_denominator(floor_sqrt(y) as int, pow2(t) as int, 2);
        let z = y / pow2(2 * t);
        assert(floor_sqrt(z / 4) == floor_sqrt(z) / 2);
    }
}

proof fn lemma_root_quantum_is(p: nat, x: nat, e: nat)
    requires
        floor_sqrt(x / pow2(2 * e)) < pow2(p),
        e == 0 || floor_sqrt(x / pow2((2 * (e - 1)) as nat)) >= pow2(p),
    ensures
        root_quantum(p, x) == e,
    decreases e,
{
    lemma2_to64();
    lemma_pow2_pos(p);
    if e == 0 {
        assert(x / 1 == x);
    } else {
        let f = (e - 1) as nat;
        lemma_pow2_pos(2 * f);
        lemma_pow2_adds(2, 2 * f);
        lemma_div_denominator(x as int, 4, pow2(2 * f) as int);
        // The root itself is at least as long as its cut.
        lemma_floor_sqrt_shift(x, f);
        lemma_pow2_pos(f);
        lemma_div_nonincreasing(floor_sqrt(x) as int, pow2(f) as int);
        if f > 0 {
            let g = (f - 1) as nat;
            lemma_pow2_pos(2 * g);
            lemma_pow2_adds(2, 2 * g);
            lemma_div_denominator(x as int, 4, pow2(2 * g) as int);
        }
        lemma_root_quantum_is(p, x / 4, f);
    }
}

/// The quantum of a root is the least exponent at which the root has no more bits than fit.
proof fn lemma_root_quantum(p: nat, x: nat)
    ensures
        ({
            let e = root_quantum(p, x);
            &&& floor_sqrt(x / pow2(2 * e)) < pow2(p)
            &&& e > 0 && p > 0 ==> floor_sqrt(x / pow2(2 * e)) >= pow2((p - 1) as nat)
            &&& e == 0 ==> floor_sqrt(x) < pow2(p)
        }),
    decreases x,
{
    lemma2_to64();
    lemma_pow2_pos(p);
    if x == 0 || floor_sqrt(x) < pow2(p) {
        assert(x / 1 == x);
        if x == 0 {
            assert(floor_sqrt(0) == 0);
        }
    } else {
        let y = x / 4;
        let f = root_quantum(p, y);
        lemma_root_quantum(p, y);
        lemma_pow2_pos(2 * f);
        lemma_pow2_adds(2, 2 * f);
        lemma_div_denominator(x as int, 4, pow2(2 * f) as int);
        assert(x / pow2(2 * (f + 1)) == y / pow2(2 * f));
        if f == 0 && p > 0 {
            assert(y / 1 == y);
            lemma_floor_sqrt_shift(x, 1);
            lemma_pow2_unfold(p);
            assert(floor_sqrt(y) == floor_sqrt(x) / 2);
        }
    }
}

/// Cut and rounded, a root is within half of its spacing of the exact one.
proof fn lemma_root_rounded(x: nat, e: nat) -> (g: nat)
    ensures
        ({
            let q = floor_sqrt(x / pow2(2 * e));
            let up: nat = if 4 * x > ((2 * q + 1) * (2 * q + 1)) * pow2(2 * e) { 1 } else { 0 };
            &&& g == q + up
            &&& 4 * x <= ((2 * g + 1) * (2 * g + 1)) * pow2(2 * e)
            &&& g > 0 ==> ((2 * g - 1) * (2 * g - 1)) * pow2(2 * e) <= 4 * x
        }),
{
    let b = pow2(2 * e);
    lemma_pow2_pos(2 * e);
    let y = x / b;
    let q = floor_sqrt(y);
    lemma_floor_sqrt(y);
    lemma_fundamental_div_mod(x as int, b as int);
    lemma_mod_bound(x as int, b as int);
    // q squared fits, and its successor's square does not.
    assert((q * q) * b <= x) by (nonlinear_arith)
        requires
            q * q <= y,
            x == b * y + x % b,
            x % b >= 0,
            b > 0,
    ;
    assert(x < ((q + 1) * (q + 1)) * b) by (nonlinear_arith)
        requires
            y + 1 <= (q + 1) * (q + 1),
            x == b * y + x % b,
            x % b < b,
            b > 0,
    ;
    let o = (2 * q + 1) * (2 * q + 1);
    if 4 * x > o * b {
        let g = q + 1;
        assert((2 * g - 1) * (2 * g - 1) == o) by (nonlinear_arith)
            requires
                g == q + 1,
                o == (2 * q + 1) * (2 * q + 1),
        ;
        assert(4 * (((q + 1) * (q + 1)) * b) <= ((2 * g + 1) * (2 * g + 1)) * b)
            by (nonlinear_arith)
            requires
                g == q + 1,
                b > 0,
        {
            assert((2 * g + 1) * (2 * g + 1) >= 4 * (g * g));
        }
        g
    } else {
        if q > 0 {
            assert(((2 * q - 1) * (2 * q - 1)) * b <= 4 * ((q * q) * b)) by (nonlinear_arith)
                requires
                    q > 0,
                    b > 0,
            {
                assert((2 * q - 1) * (2 * q - 1) <= 4 * (q * q));
            }
        }
        q
    }
}

/// The square of a rounded root is close to what it is the root of, to within one part in two to
/// the power of two less than the precision.
pub proof fn lemma_root_close(f: Width, x: nat)
    requires
        ops::is_finite(f, x),
        !ops::is_negative(f, x),
        ops::magnitude(f, x) > 0,
    ensures
        ({
            let r = square_root(f, x);
            let m = ops::magnitude(f, r);
            let y = ops::magnitude(f, x) * pow2(f.unit());
            &&& ops::is_finite(f, r)
            &&& !ops::is_negative(f, r)
            &&& m > 0
            &&& pow2((f.precision() - 2) as nat) * distance(m * m, y) <= m * m
        }),
{
    let p = f.precision();
    let half = pow2((p - 1) as nat);
    let y = ops::magnitude(f, x) * pow2(f.unit());
    lemma2_to64();
    lemma2_to64_rest();
    lemma_pow2_pos(f.unit());
    assert(y >= pow2(f.unit())) by (nonlinear_arith)
        requires
            y == ops::magnitude(f, x) * pow2(f.unit()),
            ops::magnitude(f, x) >= 1,
    ;
    if ops::is_zero(f, x) {
        accuracy::lemma_zero(f);
        assert(ops::magnitude(f, x) == ops::magnitude(f, 0));
    }
    lemma_floor_sqrt(y);
    lemma_root_quantum(p, y);
    let e = root_quantum(p, y);
    // The root is longer than the precision.
    lemma_pow2_adds(p, p);
    let c = floor_sqrt(y);
    bounds::lemma_pow2_order(2 * p, f.unit());
    assert(c >= pow2(p)) by (nonlinear_arith)
        requires
            pow2(p) * pow2(p) <= y,
            y < (c + 1) * (c + 1),
    ;
    assert(e > 0);
    let g = lemma_root_rounded(y, e);
    let q = floor_sqrt(y / pow2(2 * e));
    lemma_pow2_unfold(p);
    assert(half <= g <= 2 * half);
    // The exponent is far from the top.
    let b = pow2(2 * e);
    lemma_pow2_pos(2 * e);
    lemma_pow2_adds(e, e);
    lemma_root_range(f, x);
    let top = match f {
        Width::Single => 215nat,
        Width::Double => 1600nat,
    };
    if e >= top {
        bounds::lemma_pow2_order(2 * top, 2 * e);
        lemma_floor_sqrt(y / b);
        lemma_fundamental_div_mod(y as int, b as int);
        lemma_mod_bound(y as int, b as int);
        assert(y >= b) by (nonlinear_arith)
            requires
                q * q <= y / b,
                q >= half,
                half >= 1,
                y == b * (y / b) + y % b,
                y % b >= 0,
                b > 0,
        {
            assert(q * q >= 1);
        }
    }
    let bits = e * half + g;
    assert(bits < f.top()) by (nonlinear_arith)
        requires
            e < top,
            g <= 2 * half,
            bits == e * half + g,
            f == Width::Single ==> half == 0x80_0000 && top == 215 && f.top() == 0x7F80_0000,
            f == Width::Double ==> half == 0x10_0000_0000_0000 && top == 1600 && f.top()
                == 0x7FF0_0000_0000_0000,
            half > 0,
    {
        assert(e * half <= (top - 1) * half);
    }
    let r = square_root(f, x);
    assert(r == bits);
    let m = g * pow2(e);
    assert(ops::magnitude(f, r) == m) by {
        if g < 2 * half {
            assert(e * half + g == (e + 1) * half + (g - half)) by (nonlinear_arith);
            lemma_fundamental_div_mod_converse(bits as int, half as int, (e + 1) as int, g - half);
        } else {
            assert(e * half + 2 * half == (e + 2) * half) by (nonlinear_arith);
            lemma_fundamental_div_mod_converse(bits as int, half as int, (e + 2) as int, 0);
            lemma_pow2_unfold(e + 1);
            assert(half * (2 * pow2(e)) == (2 * half) * pow2(e)) by (nonlinear_arith);
        }
    }
    lemma_pow2_pos(e);
    assert(m > 0) by (nonlinear_arith)
        requires
            m == g * pow2(e),
            g >= half,
            half > 0,
            pow2(e) > 0,
    ;
    assert(m * m == (g * g) * b) by (nonlinear_arith)
        requires
            m == g * pow2(e),
            b == pow2(e) * pow2(e),
    ;
    let quarter = pow2((p - 2) as nat);
    lemma_pow2_unfold((p - 1) as nat);
    lemma_pow2_pos((p - 2) as nat);
    assert(((2 * g + 1) * (2 * g + 1)) * b == 4 * ((g * g) * b) + (4 * g + 1) * b)
        by (nonlinear_arith);
    assert(((2 * g - 1) * (2 * g - 1)) * b == 4 * ((g * g) * b) - (4 * g - 1) * b)
        by (nonlinear_arith);
    let gap = distance(m * m, y);
    assert((4 * g - 1) * b <= (4 * g + 1) * b) by (nonlinear_arith)
        requires
            b > 0,
    ;
    assert(4 * gap <= (4 * g + 1) * b);
    assert(quarter * (4 * g + 1) <= 4 * (g * g)) by (nonlinear_arith)
        requires
            g >= 2 * quarter,
            quarter > 0,
    {
        assert(4 * (g * g) >= 8 * (quarter * g));
        assert(quarter * (4 * g + 1) == 4 * (quarter * g) + quarter);
        assert(quarter * g >= quarter);
    }
    assert(4 * (quarter * gap) <= 4 * (m * m)) by (nonlinear_arith)
        requires
            4 * gap <= (4 * g + 1) * b,
            quarter * (4 * g + 1) <= 4 * (g * g),
            m * m == (g * g) * b,
            b > 0,
            quarter > 0,
    {
        assert(quarter * (4 * gap) <= quarter * ((4 * g + 1) * b));
        assert(quarter * ((4 * g + 1) * b) == (quarter * (4 * g + 1)) * b);
        assert((quarter * (4 * g + 1)) * b <= (4 * (g * g)) * b);
    }
}

/// How large a finite float can be, times the unit of its format.
proof fn lemma_root_range(f: Width, x: nat)
    requires
        ops::is_finite(f, x),
    ensures
        f == Width::Single ==> ops::magnitude(f, x) * pow2(149) < pow2(430),
        f == Width::Double ==> ops::magnitude(f, x) * pow2(1074) < pow2(3200),
{
    let half = pow2((f.precision() - 1) as nat);
    let m = ops::magnitude_bits(f, x);
    lemma2_to64();
    lemma2_to64_rest();
    lemma_fundamental_div_mod(m as int, half as int);
    lemma_mod_bound(m as int, half as int);
    let field = m / half;
    let most: nat = match f {
        Width::Single => 254,
        Width::Double => 2046,
    };
    assert(field <= most) by (nonlinear_arith)
        requires
            m < f.top(),
            m == half * field + m % half,
            m % half >= 0,
            f == Width::Single ==> half == 0x80_0000 && most == 254 && f.top() == 0x7F80_0000,
            f == Width::Double ==> half == 0x10_0000_0000_0000 && most == 2046 && f.top()
                == 0x7FF0_0000_0000_0000,
    ;
    let g: nat = if field == 0 { 0 } else { (field - 1) as nat };
    lemma_pow2_pos(g);
    bounds::lemma_pow2_order(g, (most - 1) as nat);
    let v = ops::magnitude(f, x);
    assert(v <= pow2(f.precision()) * pow2((most - 1) as nat)) by (nonlinear_arith)
        requires
            v <= (m % half + half) * pow2(g),
            0 <= m % half + half <= pow2(f.precision()),
            0 < pow2(g) <= pow2((most - 1) as nat),
    ;
    let u = pow2(f.unit());
    lemma_pow2_pos(f.unit());
    lemma_pow2_adds(f.precision(), (most - 1) as nat);
    lemma_pow2_adds((f.precision() + most - 1) as nat, f.unit());
    assert(v * u <= pow2((f.precision() + most - 1) as nat) * u) by (nonlinear_arith)
        requires
            v <= pow2((f.precision() + most - 1) as nat),
            u > 0,
    ;
    if f == Width::Single {
        lemma_pow2_strictly_increases((24 + 253 + 149) as nat, 430);
    } else {
        lemma_pow2_strictly_increases((53 + 2045 + 1074) as nat, 3200);
    }
}

/// `y` is `x` measured in units of `4^e`, exactly.
pub open spec fn rescaled(x: nat, y: nat, e: int) -> bool {
    if e >= 0 {
        x == y * pow2((2 * e) as nat)
    } else {
        x * pow2((-2 * e) as nat) == y
    }
}

/// The root of `x`, cut and compared at a spacing `f` coarser than that of `y`.
proof fn lemma_rescaled_root(x: nat, y: nat, e: int, f: nat)
    requires
        rescaled(x, y, e),
        f >= e,
    ensures
        floor_sqrt(x / pow2(2 * f)) == floor_sqrt(y) / pow2((f - e) as nat),
        f > e ==> ({
            let h = pow2((f - e - 1) as nat);
            let r = floor_sqrt(y);
            let q = r / (2 * h);
            let c = r % (2 * h);
            4 * x > ((2 * q + 1) * (2 * q + 1)) * pow2(2 * f) <==> (c > h || (c == h && r * r
                != y))
        }),
{
    let s = (f - e) as nat;
    let r = floor_sqrt(y);
    lemma_pow2_pos(2 * f);
    lemma_pow2_pos(2 * s);
    let k: nat = if e >= 0 { 2 * e as nat } else { (-2 * e) as nat };
    lemma_pow2_pos(k);
    if e >= 0 {
        lemma_pow2_adds(2 * s, k);
        assert(2 * s + k == 2 * f);
        round::lemma_scale_div(y, pow2(2 * s), pow2(k));
    } else {
        lemma_pow2_adds(2 * f, k);
        assert(2 * s == 2 * f + k);
        round::lemma_scale_div(x, pow2(2 * f), pow2(k));
    }
    assert(x / pow2(2 * f) == y / pow2(2 * s));
    lemma_floor_sqrt_shift(y, s);
    if f > e {
        let h = pow2((s - 1) as nat);
        lemma_pow2_unfold(s);
        lemma_pow2_pos((s - 1) as nat);
        lemma_pow2_adds(s, s);
        let q = r / (2 * h);
        let o = (2 * q + 1) * (2 * q + 1);
        // Both sides in units of y.
        assert(4 * x > o * pow2(2 * f) <==> 4 * y > o * pow2(2 * s)) by {
            if e >= 0 {
                assert(4 * x > o * pow2(2 * f) <==> 4 * y > o * pow2(2 * s)) by (nonlinear_arith)
                    requires
                        x == y * pow2(k),
                        pow2(2 * f) == pow2(2 * s) * pow2(k),
                        pow2(k) > 0,
                ;
            } else {
                assert(4 * x > o * pow2(2 * f) <==> 4 * y > o * pow2(2 * s)) by (nonlinear_arith)
                    requires
                        y == x * pow2(k),
                        pow2(2 * s) == pow2(2 * f) * pow2(k),
                        pow2(k) > 0,
                ;
            }
        }
        let t = q * (2 * h) + h;
        assert(o * pow2(2 * s) == 4 * (t * t)) by (nonlinear_arith)
            requires
                o == (2 * q + 1) * (2 * q + 1),
                pow2(2 * s) == (2 * h) * (2 * h),
                t == q * (2 * h) + h,
        ;
        lemma_fundamental_div_mod(r as int, (2 * h) as int);
        assert((2 * h) * q == q * (2 * h)) by (nonlinear_arith);
        lemma_floor_sqrt(y);
        if r > t {
            assert(r * r > t * t) by (nonlinear_arith)
                requires
                    r > t,
                    t >= 0,
            ;
        } else if r < t {
            assert((r + 1) * (r + 1) <= t * t) by (nonlinear_arith)
                requires
                    r + 1 <= t,
                    r >= 0,
            ;
        }
    }
}

/// The integer square root.
pub fn integer_sqrt(y: u128) -> (r: u128)
    requires
        y < pow2(126),
    ensures
        r == floor_sqrt(y as nat),
        r < pow2(63),
{
    let mut k: u32 = 63;
    let mut r: u128 = 0;
    proof {
        lemma_pow2_adds(63, 63);
        lemma2_to64_rest();
        lemma2_to64();
        lemma_mul_basics(0);
    }
    while k > 0
        invariant
            k <= 63,
            r + pow2(k as nat) <= pow2(63),
            r * r <= y < (r + pow2(k as nat)) * (r + pow2(k as nat)),
        decreases k,
    {
        proof {
            lemma_pow2_unfold(k as nat);
            lemma_pow2_pos((k - 1) as nat);
            lemma2_to64_rest();
        }
        let b: u128 = two_to(k - 1);
        let c: u128 = r + b;
        proof {
            assert(c * c <= 0x8000_0000_0000_0000 * 0x8000_0000_0000_0000) by (nonlinear_arith)
                requires
                    0 <= c <= 0x8000_0000_0000_0000,
            ;
        }
        if c * c <= y {
            r = c;
        }
        k = k - 1;
    }
    proof {
        lemma2_to64();
        lemma_floor_sqrt_is(y as nat, r as nat);
    }
    r
}

/// Rounds the root of `x`, given as `y` in units of `4^e`.
fn round_root(p: u32, top: u64, y: u128, e: i32, Ghost(x): Ghost<nat>) -> (bits: u64)
    requires
        p == 24 || p == 53,
        pow2(122) <= y < pow2(126),
        -2000 <= e <= 2000,
        rescaled(x, y as nat, e as int),
    ensures
        bits == root_bits(p as nat, top as nat, x),
{
    let r: u128 = integer_sqrt(y);
    proof {
        lemma_floor_sqrt(y as nat);
        lemma_pow2_adds(61, 61);
        lemma2_to64();
        lemma2_to64_rest();
        round::lemma_pow2_127();
        lemma_pow2_strictly_increases(63, 127);
        if r < pow2(61) {
            assert((r + 1) * (r + 1) <= pow2(61) * pow2(61)) by (nonlinear_arith)
                requires
                    0 <= r + 1 <= pow2(61),
            ;
        }
        assert(r * r <= 0x8000_0000_0000_0000 * 0x8000_0000_0000_0000) by (nonlinear_arith)
            requires
                0 <= r <= 0x8000_0000_0000_0000,
        ;
    }
    let sticky: bool = r * r != y;
    let len: u32 = bit_length(r);
    proof {
        if len < 62 {
            lemma_pow2_strictly_increases(len as nat, 62);
            if len < 61 {
                lemma_pow2_strictly_increases(len as nat, 61);
            }
        }
        if len > 63 {
            if len > 64 {
                lemma_pow2_strictly_increases(63, (len - 1) as nat);
            }
        }
    }
    let grown: i32 = e + len as i32 - p as i32;
    let e2: i32 = if grown > 0 { grown } else { 0 };
    let s: i32 = e2 - e;
    proof {
        lemma_root_spacing(p as nat, x, y as nat, e as int, r as nat, len as nat, e2 as nat);
        lemma_rescaled_root(x, y as nat, e as int, e2 as nat);
    }
    let rounded: u128 = if s < 128 {
        let h: u128 = two_to((s - 1) as u32);
        let unit: u128 = two_to(s as u32);
        proof {
            lemma_pow2_unfold(s as nat);
            lemma_div_nonincreasing(r as int, unit as int);
        }
        let q: u128 = r / unit;
        let c: u128 = r % unit;
        if c > h || (c == h && sticky) {
            q + 1
        } else {
            q
        }
    } else {
        proof {
            let h = pow2((s - 1) as nat);
            lemma_pow2_unfold(s as nat);
            lemma_pow2_strictly_increases(63, (s - 1) as nat);
            lemma_basic_div(r as int, (2 * h) as int);
            lemma_small_mod(r as nat, 2 * h);
        }
        0
    };
    let half: u128 = two_to(p - 1);
    proof {
        assert(e2 * half <= 6000 * 0x10_0000_0000_0000) by (nonlinear_arith)
            requires
                0 <= e2 <= 6000,
                0 <= half <= 0x10_0000_0000_0000,
        ;
    }
    let bits: u128 = e2 as u128 * half + rounded;
    if bits < top as u128 {
        bits as u64
    } else {
        top
    }
}

proof fn lemma_root_spacing(p: nat, x: nat, y: nat, e: int, r: nat, len: nat, e2: nat)
    requires
        rescaled(x, y, e),
        r == floor_sqrt(y),
        p < len,
        pow2((len - 1) as nat) <= r < pow2(len),
        e2 == if e + len - p > 0 { e + len - p } else { 0 },
    ensures
        e2 > e,
        root_quantum(p, x) == e2,
{
    let s = (e2 - e) as nat;
    assert(floor_sqrt(x / pow2(2 * e2)) < pow2(p)) by {
        lemma_rescaled_root(x, y, e, e2);
        lemma_pow2_pos(s);
        lemma_pow2_adds(s, p);
        if p + s > len {
            lemma_pow2_strictly_increases(len, p + s);
        }
        lemma_multiply_divide_lt(r as int, pow2(s) as int, pow2(p) as int);
    }
    if e2 > 0 {
        let f = (e2 - 1) as nat;
        let w = (len - p - 1) as nat;
        assert(f - e == w);
        assert(floor_sqrt(x / pow2(2 * f)) >= pow2(p)) by {
            lemma_rescaled_root(x, y, e, f);
            lemma_pow2_pos(w);
            lemma_pow2_adds(p, w);
            lemma_div_is_ordered((pow2(p) * pow2(w)) as int, r as int, pow2(w) as int);
            lemma_div_by_multiple(pow2(p) as int, pow2(w) as int);
        }
    }
    lemma_root_quantum_is(p, x, e2);
}

pub fn sqrt_bits(f: Width, x: u64) -> (r: u64)
    requires
        ops::pattern(f, x as nat),
    ensures
        r == square_root(f, x as nat),
        ops::pattern(f, r as nat),
{
    let top: u64 = f.get_top();
    let sign: u64 = f.get_sign();
    let m: u64 = if x >= sign { x - sign } else { x };
    if m > top {
        f.get_nan()
    } else if m == 0 {
        x
    } else if x >= sign {
        f.get_nan()
    } else if m == top {
        x
    } else {
        let (c, e) = unpack(f, m);
        let w: u32 = f.get_unit();
        proof {
            lemma2_to64();
            lemma2_to64_rest();
            round::lemma_pow2_127();
        }
        let len: u32 = bit_length(c as u128);
        proof {
            if len > 54 {
                lemma_pow2_strictly_increases(53, (len - 1) as nat);
            }
        }
        let j: u32 = if (e + w + len) % 2 == 0 { 124 - len } else { 125 - len };
        let scale: u128 = two_to(j);
        let ghost g: nat = (len + j) as nat;
        proof {
            lemma_pow2_adds(len as nat, j as nat);
            lemma_pow2_adds((len - 1) as nat, j as nat);
            lemma_pow2_strictly_increases(122, (g - 1) as nat);
            lemma_pow2_strictly_increases(g, 126);
            lemma_pow2_strictly_increases(126, 127);
            assert(c * scale < pow2(g)) by (nonlinear_arith)
                requires
                    c < pow2(len as nat),
                    scale > 0,
                    pow2(len as nat) * scale == pow2(g),
            ;
            assert(c * scale >= pow2((g - 1) as nat)) by (nonlinear_arith)
                requires
                    c >= pow2((len - 1) as nat),
                    scale > 0,
                    pow2((len - 1) as nat) * scale == pow2((g - 1) as nat),
            ;
        }
        let y: u128 = c as u128 * scale;
        let twice: i32 = e as i32 + w as i32 - j as i32;
        let half: i32 = if twice >= 0 { twice / 2 } else { -((-twice) / 2) };
        proof {
            assert(twice == 2 * half);
        }
        let ghost xx: nat = (ops::magnitude(f, x as nat) * pow2(f.unit())) as nat;
        proof {
            lemma_pow2_adds(e as nat, w as nat);
            assert(xx == c * pow2((e + w) as nat)) by (nonlinear_arith)
                requires
                    xx == (c * pow2(e as nat)) * pow2(w as nat),
                    pow2((e + w) as nat) == pow2(e as nat) * pow2(w as nat),
            ;
            if half >= 0 {
                lemma_pow2_adds(j as nat, (2 * half) as nat);
                assert(xx == y * pow2((2 * half) as nat)) by (nonlinear_arith)
                    requires
                        xx == c * pow2((e + w) as nat),
                        y == c * pow2(j as nat),
                        pow2((e + w) as nat) == pow2(j as nat) * pow2((2 * half) as nat),
                ;
            } else {
                lemma_pow2_adds((e + w) as nat, (-2 * half) as nat);
                assert(xx * pow2((-2 * half) as nat) == y) by (nonlinear_arith)
                    requires
                        xx == c * pow2((e + w) as nat),
                        y == c * pow2(j as nat),
                        pow2(j as nat) == pow2((e + w) as nat) * pow2((-2 * half) as nat),
                ;
            }
        }
        round_root(f.get_precision(), top, y, half, Ghost(xx))
    }
}

} // verus!
