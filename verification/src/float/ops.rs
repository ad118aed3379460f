//! Arithmetic on the bit patterns of IEEE 754 binary floats.
//!
//! Every operation is stated by its exact result, a whole number of the format's
//! smallest unit or a quotient of two such numbers, and one rounding.

use crate::float::round;
use crate::float::round::{round_cut, two_to};
use vstd::arithmetic::div_mod::*;
use vstd::arithmetic::mul::*;
use vstd::arithmetic::power2::*;
use vstd::prelude::*;

verus! {

/// The two formats in use.
#[derive(Clone, Copy, PartialEq, Eq, Structural, Debug)]
pub enum Width {
    Single,
    Double,
}

impl Width {
    /// Significant bits of a normal value.
    pub open spec fn precision(self) -> nat {
        match self {
            Width::Single => 24,
            Width::Double => 53,
        }
    }

    /// The smallest subnormal is two to the power of minus this.
    pub open spec fn unit(self) -> nat {
        match self {
            Width::Single => 149,
            Width::Double => 1074,
        }
    }

    /// The magnitude bits of infinity.
    pub open spec fn top(self) -> nat {
        match self {
            Width::Single => 0x7F80_0000,
            Width::Double => 0x7FF0_0000_0000_0000,
        }
    }

    /// The sign bit.
    pub open spec fn sign(self) -> nat {
        match self {
            Width::Single => 0x8000_0000,
            Width::Double => 0x8000_0000_0000_0000,
        }
    }

    /// The bit pattern that stands for every result that is not a number.
    pub open spec fn nan(self) -> nat {
        match self {
            Width::Single => 0x7FC0_0000,
            Width::Double => 0x7FF8_0000_0000_0000,
        }
    }

    pub fn get_precision(self) -> (p: u32)
        ensures
            p == self.precision(),
            p == 24 || p == 53,
    {
        match self {
            Width::Single => 24,
            Width::Double => 53,
        }
    }

    pub fn get_unit(self) -> (w: u32)
        ensures
            w == self.unit(),
    {
        match self {
            Width::Single => 149,
            Width::Double => 1074,
        }
    }

    pub fn get_top(self) -> (t: u64)
        ensures
            t == self.top(),
    {
        match self {
            Width::Single => 0x7F80_0000,
            Width::Double => 0x7FF0_0000_0000_0000,
        }
    }

    pub fn get_sign(self) -> (t: u64)
        ensures
            t == self.sign(),
    {
        match self {
            Width::Single => 0x8000_0000,
            Width::Double => 0x8000_0000_0000_0000,
        }
    }

    pub fn get_nan(self) -> (t: u64)
        ensures
            t == self.nan(),
    {
        match self {
            Width::Single => 0x7FC0_0000,
            Width::Double => 0x7FF8_0000_0000_0000,
        }
    }
}

/// Whether `x` is a bit pattern of the format.
pub open spec fn pattern(f: Width, x: nat) -> bool {
    x < 2 * f.sign()
}

pub open spec fn is_negative(f: Width, x: nat) -> bool {
    x >= f.sign()
}

/// The bits without the sign.
pub open spec fn magnitude_bits(f: Width, x: nat) -> nat {
    if x >= f.sign() {
        (x - f.sign()) as nat
    } else {
        x
    }
}

pub open spec fn is_nan(f: Width, x: nat) -> bool {
    magnitude_bits(f, x) > f.top()
}

pub open spec fn is_infinite(f: Width, x: nat) -> bool {
    magnitude_bits(f, x) == f.top()
}

pub open spec fn is_finite(f: Width, x: nat) -> bool {
    magnitude_bits(f, x) < f.top()
}

pub open spec fn is_zero(f: Width, x: nat) -> bool {
    magnitude_bits(f, x) == 0
}

/// The absolute value of a finite float, in units of the smallest subnormal.
pub open spec fn magnitude(f: Width, x: nat) -> nat {
    let half = pow2((f.precision() - 1) as nat);
    let m = magnitude_bits(f, x);
    let field = m / half;
    let fraction = m % half;
    if field == 0 {
        fraction
    } else {
        (fraction + half) * pow2((field - 1) as nat)
    }
}

/// The value of a finite float, in units of the smallest subnormal.
pub open spec fn value(f: Width, x: nat) -> int {
    if is_negative(f, x) {
        -(magnitude(f, x) as int)
    } else {
        magnitude(f, x) as int
    }
}

pub open spec fn with_sign(f: Width, negative: bool, m: nat) -> nat {
    if negative {
        f.sign() + m
    } else {
        m
    }
}

/// The float nearest to `n / d` units, with the given sign.
pub open spec fn rounded(f: Width, negative: bool, n: nat, d: nat) -> nat {
    with_sign(f, negative, round::round_bits(f.precision(), f.top(), n, d))
}

pub open spec fn sum(f: Width, x: nat, y: nat) -> nat {
    if is_nan(f, x) || is_nan(f, y) {
        f.nan()
    } else if is_infinite(f, x) {
        if is_infinite(f, y) && is_negative(f, x) != is_negative(f, y) {
            f.nan()
        } else {
            x
        }
    } else if is_infinite(f, y) {
        y
    } else {
        let s = value(f, x) + value(f, y);
        if s == 0 {
            with_sign(f, is_negative(f, x) && is_negative(f, y), 0)
        } else if s < 0 {
            rounded(f, true, (-s) as nat, 1)
        } else {
            rounded(f, false, s as nat, 1)
        }
    }
}

pub open spec fn product(f: Width, x: nat, y: nat) -> nat {
    let negative = is_negative(f, x) != is_negative(f, y);
    if is_nan(f, x) || is_nan(f, y) {
        f.nan()
    } else if is_infinite(f, x) || is_infinite(f, y) {
        if is_zero(f, x) || is_zero(f, y) {
            f.nan()
        } else {
            with_sign(f, negative, f.top())
        }
    } else {
        rounded(f, negative, magnitude(f, x) * magnitude(f, y), pow2(f.unit()))
    }
}

pub open spec fn quotient(f: Width, x: nat, y: nat) -> nat {
    let negative = is_negative(f, x) != is_negative(f, y);
    if is_nan(f, x) || is_nan(f, y) {
        f.nan()
    } else if is_infinite(f, x) {
        if is_infinite(f, y) {
            f.nan()
        } else {
            with_sign(f, negative, f.top())
        }
    } else if is_infinite(f, y) {
        with_sign(f, negative, 0)
    } else if is_zero(f, y) {
        if is_zero(f, x) {
            f.nan()
        } else {
            with_sign(f, negative, f.top())
        }
    } else {
        rounded(f, negative, magnitude(f, x) * pow2(f.unit()), magnitude(f, y))
    }
}

/// `x < y` as numbers; a value that is no number is below nothing.
pub open spec fn less(f: Width, x: nat, y: nat) -> bool {
    &&& !is_nan(f, x)
    &&& !is_nan(f, y)
    &&& order_key(f, x) < order_key(f, y)
}

/// `x == y` as numbers: the two zeros are equal, and what is no number equals nothing.
pub open spec fn equal(f: Width, x: nat, y: nat) -> bool {
    &&& !is_nan(f, x)
    &&& !is_nan(f, y)
    &&& order_key(f, x) == order_key(f, y)
}

/// Sign and magnitude bits as one integer, which orders as the numbers do.
pub open spec fn order_key(f: Width, x: nat) -> int {
    if is_negative(f, x) {
        -(magnitude_bits(f, x) as int)
    } else {
        magnitude_bits(f, x) as int
    }
}

/// The integer nearest to a finite float, halves away from zero.
pub open spec fn nearest_integer(f: Width, x: nat) -> int {
    let u = pow2(f.unit());
    let n = (2 * magnitude(f, x) + u) / (2 * u);
    if is_negative(f, x) {
        -(n as int)
    } else {
        n as int
    }
}

/// A finite float cut to an integer, towards zero.
pub open spec fn whole(f: Width, x: nat) -> nat {
    magnitude(f, x) / pow2(f.unit())
}

/// Splits a finite magnitude into a significand and an exponent.
pub fn unpack(f: Width, m: u64) -> (r: (u64, u32))
    requires
        m < f.top(),
    ensures
        r.0 < pow2(f.precision()),
        r.1 <= 2046,
        f == Width::Single ==> r.1 <= 254,
        r.1 > 0 ==> r.0 >= pow2((f.precision() - 1) as nat),
        magnitude(f, m as nat) == r.0 * pow2(r.1 as nat),
        (r.0 == 0) == (m == 0),
{
    let half: u64 = match f {
        Width::Single => 0x80_0000,
        Width::Double => 0x10_0000_0000_0000,
    };
    proof {
        lemma2_to64();
        lemma2_to64_rest();
        lemma_mul_basics(m as int);
    }
    let field: u64 = m / half;
    let fraction: u64 = m % half;
    if field == 0 {
        proof {
            lemma_fundamental_div_mod(m as int, half as int);
            lemma_mul_basics(fraction as int);
        }
        (fraction, 0)
    } else {
        proof {
            lemma_mul_basics((fraction + half) as int);
        }
        (fraction + half, (field - 1) as u32)
    }
}

/// An exact whole number of units of `2^e`.
proof fn lemma_exact(m: nat, e: nat)
    ensures
        round::scaled(m * pow2(e), 1, m, e as int, false),
{
    lemma_pow2_pos(e);
    lemma_mul_basics(pow2(e) as int);
    lemma2_to64();
    assert(1 * pow2(e) == pow2(e));
    lemma_fundamental_div_mod_converse((m * pow2(e)) as int, pow2(e) as int, m as int, 0);
    lemma_mul_basics(m as int);
}

/// Rounds an exact signed number of units.
fn round_signed(f: Width, s: i128, e: u32) -> (r: u64)
    requires
        s != 0,
        -pow2(127) < s < pow2(127),
        e <= 4000,
    ensures
        s > 0 ==> r == rounded(f, false, (s * pow2(e as nat)) as nat, 1),
        s < 0 ==> r == rounded(f, true, (-(s * pow2(e as nat))) as nat, 1),
        pattern(f, r as nat),
{
    let negative: bool = s < 0;
    proof {
        round::lemma_pow2_127();
    }
    let m: u128 = if negative { (-s) as u128 } else { s as u128 };
    proof {
        lemma_exact(m as nat, e as nat);
        lemma_pow2_pos(e as nat);
        assert(negative ==> m * pow2(e as nat) == -(s * pow2(e as nat))) by (nonlinear_arith)
            requires
                negative ==> m == -s,
        ;
        assert(s * pow2(e as nat) > 0 <==> s > 0) by (nonlinear_arith)
            requires
                pow2(e as nat) > 0,
        ;
    }
    let ghost n: nat = m as nat * pow2(e as nat);
    let bits: u64 = round_cut(
        f.get_precision(),
        f.get_top(),
        m,
        e as i32,
        false,
        Ghost(n),
        Ghost(1),
    );
    if negative {
        f.get_sign() + bits
    } else {
        bits
    }
}

/// The remainder that falls below the cut when a far smaller value is added.
proof fn lemma_far_add(p: nat, ma: nat, ea: nat, mb: nat, eb: nat)
    requires
        p == 24 || p == 53,
        ea >= eb + 74,
        mb < pow2(p),
        pow2((p - 1) as nat) <= ma < pow2(p),
    ensures
        ma * pow2(20) >= 1,
        mb * pow2(eb) <= ma * pow2(ea),
        round::scaled(
            ma * pow2(ea) + mb * pow2(eb),
            1,
            ma * pow2(20),
            ea - 20,
            mb != 0,
        ),
        mb != 0 ==> round::scaled(
            (ma * pow2(ea) - mb * pow2(eb)) as nat,
            1,
            (ma * pow2(20) - 1) as nat,
            ea - 20,
            true,
        ),
        ma * pow2(20) - 1 >= pow2((p + 1) as nat),
        ma * pow2(20) < pow2(127),
{
    let c = (ea - 20) as nat;
    let b = pow2(c);
    lemma_pow2_pos(c);
    lemma_pow2_pos(eb);
    lemma_pow2_pos(20);
    lemma_pow2_adds(20, c);
    let x = ma * pow2(ea);
    let y = mb * pow2(eb);
    assert(x == (ma * pow2(20)) * b) by (nonlinear_arith)
        requires
            x == ma * pow2(ea),
            pow2(ea) == pow2(20) * b,
    ;
    assert(y < b) by {
        lemma_pow2_adds(p, eb);
        assert(mb * pow2(eb) < pow2(p) * pow2(eb)) by (nonlinear_arith)
            requires
                mb < pow2(p),
                pow2(eb) > 0,
        ;
        if p + eb < c {
            lemma_pow2_strictly_increases(p + eb, c);
        }
    }
    lemma_pow2_adds((p - 1) as nat, 20);
    lemma_pow2_adds(p, 20);
    lemma_pow2_strictly_increases((p + 1) as nat, (p + 19) as nat);
    lemma_pow2_strictly_increases(p + 20, 127);
    assert(ma * pow2(20) >= pow2((p - 1) as nat) * pow2(20)) by (nonlinear_arith)
        requires
            ma >= pow2((p - 1) as nat),
    ;
    assert(ma * pow2(20) < pow2(p) * pow2(20)) by (nonlinear_arith)
        requires
            ma < pow2(p),
            pow2(20) > 0,
    ;
    let q = ma * pow2(20);
    assert(q * b >= b) by (nonlinear_arith)
        requires
            q >= 1,
            b > 0,
    ;
    assert(1 * b == b);
    lemma_fundamental_div_mod_converse((x + y) as int, b as int, q as int, y as int);
    assert(y > 0 <==> mb > 0) by (nonlinear_arith)
        requires
            y == mb * pow2(eb),
            pow2(eb) > 0,
    ;
    if mb != 0 {
        assert((q - 1) * b == q * b - b) by (nonlinear_arith);
        lemma_fundamental_div_mod_converse(x - y, b as int, q - 1, b - y);
    }
}

/// Adds two finite values, the first with the exponent that is not smaller.
fn sum_finite(f: Width, na: bool, ma: u64, ea: u32, nb: bool, mb: u64, eb: u32) -> (r: u64)
    requires
        ea >= eb,
        ea <= 2046,
        ma < pow2(f.precision()),
        mb < pow2(f.precision()),
        ea > 0 ==> ma >= pow2((f.precision() - 1) as nat),
    ensures
        pattern(f, r as nat),
        ({
            let x = if na { -(ma * pow2(ea as nat)) } else { ma * pow2(ea as nat) };
            let y = if nb { -(mb * pow2(eb as nat)) } else { mb * pow2(eb as nat) };
            let s = x + y;
            r == if s == 0 {
                with_sign(f, na && nb, 0)
            } else if s < 0 {
                rounded(f, true, (-s) as nat, 1)
            } else {
                rounded(f, false, s as nat, 1)
            }
        }),
{
    let p: u32 = f.get_precision();
    let gap: u32 = ea - eb;
    let ghost x: int = if na { -(ma * pow2(ea as nat)) } else { ma * pow2(ea as nat) };
    let ghost y: int = if nb { -(mb * pow2(eb as nat)) } else { mb * pow2(eb as nat) };
    if gap < 74 {
        let scale: u128 = two_to(gap);
        proof {
            lemma2_to64();
            lemma2_to64_rest();
            lemma_pow2_adds(gap as nat, eb as nat);
            lemma_pow2_pos(eb as nat);
            round::lemma_pow2_127();
            lemma_pow2_adds(53, 73);
            lemma_pow2_adds(1, 126);
            if gap < 73 {
                lemma_pow2_strictly_increases(gap as nat, 73);
            }
            lemma_pow2_adds(9, 64);
            assert(ma * scale <= pow2(53) * pow2(73)) by (nonlinear_arith)
                requires
                    ma <= pow2(53),
                    scale <= pow2(73),
            ;
        }
        let big: i128 = (ma as u128 * scale) as i128;
        let a: i128 = if na { -big } else { big };
        let b: i128 = if nb { -(mb as i128) } else { mb as i128 };
        let s: i128 = a + b;
        proof {
            assert(x + y == s * pow2(eb as nat)) by {
                let u = pow2(eb as nat);
                assert(ma * pow2(ea as nat) == big * u) by (nonlinear_arith)
                    requires
                        pow2(ea as nat) == scale * u,
                        big == ma * scale,
                ;
                assert(x == a * u) by (nonlinear_arith)
                    requires
                        ma * pow2(ea as nat) == big * u,
                        x == if na { -(ma * pow2(ea as nat)) } else { ma * pow2(ea as nat) },
                        a == if na { -big } else { big as int },
                ;
                assert(y == b * u) by (nonlinear_arith)
                    requires
                        y == if nb { -(mb * u) } else { mb * u },
                        b == if nb { -(mb as int) } else { mb as int },
                ;
                assert(a * u + b * u == (a + b) * u) by (nonlinear_arith);
            }
            let u = pow2(eb as nat);
            assert((s * u == 0) == (s == 0) && (s * u < 0) == (s < 0)) by (nonlinear_arith)
                requires
                    u > 0,
            ;
        }
        if s == 0 {
            if na && nb {
                f.get_sign()
            } else {
                0
            }
        } else {
            round_signed(f, s, eb)
        }
    } else {
        proof {
            lemma_far_add(f.precision(), ma as nat, ea as nat, mb as nat, eb as nat);
            lemma2_to64();
            lemma2_to64_rest();
            lemma_pow2_pos(ea as nat);
            lemma_pow2_pos(eb as nat);
            lemma_pow2_strictly_increases(eb as nat, ea as nat);
        }
        let ghost bx: nat = (ma * pow2(ea as nat)) as nat;
        let ghost by: nat = (mb * pow2(eb as nat)) as nat;
        let whole: u128 = ma as u128 * 0x10_0000u128;
        let ghost n: nat = (if na == nb { bx + by } else { (bx - by) as nat }) as nat;
        let m: u128 = if na == nb || mb == 0 { whole } else { whole - 1 };
        let bits: u64 = round_cut(p, f.get_top(), m, ea as i32 - 20, mb != 0, Ghost(n), Ghost(1));
        proof {
            assert(n > 0) by {
                lemma_round_positive(n, m as nat, ea - 20, mb != 0);
            }
        }
        if na {
            f.get_sign() + bits
        } else {
            bits
        }
    }
}

/// A value whose cut is not zero is not zero.
proof fn lemma_round_positive(n: nat, m: nat, e: int, sticky: bool)
    requires
        round::scaled(n, 1, m, e, sticky),
        m > 0,
        e >= 0,
    ensures
        n > 0,
{
    let b = if e > 0 { pow2(e as nat) } else { 1 };
    lemma_pow2_pos(e as nat);
    assert(1 * pow2(e as nat) == pow2(e as nat));
    if n == 0 {
        lemma_div_basics(b as int);
    }
}

/// The sign and the magnitude bits of a pattern.
fn split(f: Width, x: u64) -> (r: (bool, u64))
    requires
        pattern(f, x as nat),
    ensures
        r.0 == is_negative(f, x as nat),
        r.1 == magnitude_bits(f, x as nat),
        r.1 < f.sign(),
        magnitude_bits(f, r.1 as nat) == r.1,
        magnitude(f, r.1 as nat) == magnitude(f, x as nat),
{
    let sign: u64 = f.get_sign();
    if x >= sign {
        (true, x - sign)
    } else {
        (false, x)
    }
}

pub fn add_bits(f: Width, x: u64, y: u64) -> (r: u64)
    requires
        pattern(f, x as nat),
        pattern(f, y as nat),
    ensures
        r == sum(f, x as nat, y as nat),
        pattern(f, r as nat),
{
    let (nx, mx) = split(f, x);
    let (ny, my) = split(f, y);
    let top: u64 = f.get_top();
    if mx > top || my > top {
        f.get_nan()
    } else if mx == top {
        if my == top && nx != ny {
            f.get_nan()
        } else {
            x
        }
    } else if my == top {
        y
    } else {
        let (ma, ea) = unpack(f, mx);
        let (mb, eb) = unpack(f, my);
        if ea >= eb {
            sum_finite(f, nx, ma, ea, ny, mb, eb)
        } else {
            sum_finite(f, ny, mb, eb, nx, ma, ea)
        }
    }
}

/// A product as a cut value.
proof fn lemma_product(ma: nat, ea: nat, mb: nat, eb: nat, w: nat)
    ensures
        round::scaled(
            (ma * pow2(ea)) * (mb * pow2(eb)),
            pow2(w),
            ma * mb,
            ea + eb - w,
            false,
        ),
{
    let n = (ma * pow2(ea)) * (mb * pow2(eb));
    let m = ma * mb;
    lemma_pow2_pos(w);
    lemma_pow2_pos(ea + eb);
    lemma_pow2_adds(ea, eb);
    assert(n == m * pow2(ea + eb)) by (nonlinear_arith)
        requires
            n == (ma * pow2(ea)) * (mb * pow2(eb)),
            m == ma * mb,
            pow2(ea + eb) == pow2(ea) * pow2(eb),
    ;
    if ea + eb >= w {
        let g = (ea + eb - w) as nat;
        lemma_pow2_adds(w, g);
        lemma_fundamental_div_mod_converse(n as int, pow2(ea + eb) as int, m as int, 0);
    } else {
        let g = (w - ea - eb) as nat;
        lemma_pow2_adds(ea + eb, g);
        assert(n * pow2(g) == m * pow2(w)) by (nonlinear_arith)
            requires
                n == m * pow2(ea + eb),
                pow2(w) == pow2(ea + eb) * pow2(g),
        ;
        lemma_fundamental_div_mod_converse((n * pow2(g)) as int, pow2(w) as int, m as int, 0);
    }
}

/// Nothing rounds to nothing.
pub proof fn lemma_round_zero(p: nat, top: nat, d: nat)
    requires
        d > 0,
        top > 0,
    ensures
        round::round_bits(p, top, 0, d) == 0,
{
    lemma_pow2_pos(p);
    lemma_div_basics(d as int);
    lemma2_to64();
    lemma_mul_basics(d as int);
    lemma_mul_basics(pow2((p - 1) as nat) as int);
    lemma_small_mod(0, d);
    assert(round::quantum(p, 0, d) == 0);
    assert(round::nearest_even(0, d * pow2(0)) == 0);
}

pub fn mul_bits(f: Width, x: u64, y: u64) -> (r: u64)
    requires
        pattern(f, x as nat),
        pattern(f, y as nat),
    ensures
        r == product(f, x as nat, y as nat),
        pattern(f, r as nat),
{
    let (nx, mx) = split(f, x);
    let (ny, my) = split(f, y);
    let top: u64 = f.get_top();
    let sign: u64 = if nx != ny { f.get_sign() } else { 0 };
    if mx > top || my > top {
        f.get_nan()
    } else if mx == top || my == top {
        if mx == 0 || my == 0 {
            f.get_nan()
        } else {
            sign + top
        }
    } else {
        let (ma, ea) = unpack(f, mx);
        let (mb, eb) = unpack(f, my);
        let w: u32 = f.get_unit();
        let ghost n: nat = (magnitude(f, x as nat) * magnitude(f, y as nat)) as nat;
        let ghost d: nat = pow2(f.unit());
        proof {
            lemma_pow2_pos(f.unit());
            lemma_pow2_pos(ea as nat);
            lemma_pow2_pos(eb as nat);
            lemma2_to64();
            lemma2_to64_rest();
            lemma_pow2_adds(53, 53);
            lemma_pow2_strictly_increases(106, 127);
            round::lemma_pow2_127();
            assert(ma * mb <= pow2(53) * pow2(53)) by (nonlinear_arith)
                requires
                    0 <= ma <= pow2(53),
                    0 <= mb <= pow2(53),
            ;
        }
        let m: u128 = ma as u128 * mb as u128;
        if m == 0 {
            proof {
                lemma_round_zero(f.precision(), f.top(), d);
                assert(ma == 0 || mb == 0) by (nonlinear_arith)
                    requires
                        ma * mb == 0,
                ;
                assert(n == 0) by (nonlinear_arith)
                    requires
                        n == (ma * pow2(ea as nat)) * (mb * pow2(eb as nat)),
                        ma == 0 || mb == 0,
                ;
            }
            sign
        } else {
            proof {
                lemma_product(ma as nat, ea as nat, mb as nat, eb as nat, f.unit());
            }
            let bits: u64 = round_cut(
                f.get_precision(),
                top,
                m,
                ea as i32 + eb as i32 - w as i32,
                false,
                Ghost(n),
                Ghost(d),
            );
            sign + bits
        }
    }
}

/// A quotient as a cut value: the numerator is shifted by `k` before the division.
proof fn lemma_quotient(ma: nat, ea: nat, mb: nat, eb: nat, w: nat, k: nat)
    requires
        mb > 0,
        k <= w,
    ensures
        mb * pow2(eb) > 0,
        round::scaled(
            (ma * pow2(ea)) * pow2(w),
            mb * pow2(eb),
            (ma * pow2(k)) / mb,
            ea + w - eb - k,
            (ma * pow2(k)) % mb != 0,
        ),
{
    let n = (ma * pow2(ea)) * pow2(w);
    let d = mb * pow2(eb);
    let t = ma * pow2(k);
    let e = ea + w - eb - k;
    lemma_pow2_pos(eb);
    lemma_pow2_adds(ea, w);
    assert(n == ma * pow2(ea + w)) by (nonlinear_arith)
        requires
            n == (ma * pow2(ea)) * pow2(w),
            pow2(ea + w) == pow2(ea) * pow2(w),
    ;
    assert(d > 0) by (nonlinear_arith)
        requires
            d == mb * pow2(eb),
            mb > 0,
            pow2(eb) > 0,
    ;
    if e >= 0 {
        let c = (ea + w - k) as nat;
        lemma_pow2_pos(c);
        lemma_pow2_adds(k, c);
        lemma_pow2_adds(eb, e as nat);
        assert(n == t * pow2(c)) by (nonlinear_arith)
            requires
                n == ma * pow2(ea + w),
                pow2(ea + w) == pow2(k) * pow2(c),
                t == ma * pow2(k),
        ;
        assert(d * pow2(e as nat) == mb * pow2(c)) by (nonlinear_arith)
            requires
                d == mb * pow2(eb),
                pow2(c) == pow2(eb) * pow2(e as nat),
        ;
        lemma_times_one(d);
        round::lemma_scale_div(t, mb, pow2(c));
        lemma_product_zero(t % mb, pow2(c));
    } else {
        let g = (-e) as nat;
        lemma_pow2_adds(ea + w, g);
        lemma_pow2_adds(k, eb);
        assert(n * pow2(g) == t * pow2(eb)) by (nonlinear_arith)
            requires
                n == ma * pow2(ea + w),
                pow2(ea + w) * pow2(g) == pow2(k) * pow2(eb),
                t == ma * pow2(k),
        ;
        round::lemma_scale_div(t, mb, pow2(eb));
        lemma_product_zero(t % mb, pow2(eb));
    }
}

proof fn lemma_product_zero(r: nat, c: nat)
    requires
        c > 0,
    ensures
        r * c == 0 <==> r == 0,
{
    assert(r * c == 0 <==> r == 0) by (nonlinear_arith)
        requires
            c > 0,
    ;
}

proof fn lemma_times_one(d: nat)
    ensures
        d * pow2(0) == d,
{
    lemma2_to64();
    lemma_mul_basics(d as int);
}

pub fn div_bits(f: Width, x: u64, y: u64) -> (r: u64)
    requires
        pattern(f, x as nat),
        pattern(f, y as nat),
    ensures
        r == quotient(f, x as nat, y as nat),
        pattern(f, r as nat),
{
    let (nx, mx) = split(f, x);
    let (ny, my) = split(f, y);
    let top: u64 = f.get_top();
    let sign: u64 = if nx != ny { f.get_sign() } else { 0 };
    if mx > top || my > top {
        f.get_nan()
    } else if mx == top {
        if my == top {
            f.get_nan()
        } else {
            sign + top
        }
    } else if my == top {
        sign
    } else if my == 0 {
        if mx == 0 {
            f.get_nan()
        } else {
            sign + top
        }
    } else {
        let (ma, ea) = unpack(f, mx);
        let (mb, eb) = unpack(f, my);
        let w: u32 = f.get_unit();
        let ghost n: nat = (magnitude(f, x as nat) * pow2(f.unit())) as nat;
        let ghost d: nat = magnitude(f, y as nat);
        proof {
            lemma2_to64();
            lemma2_to64_rest();
            round::lemma_pow2_127();
            lemma_pow2_pos(eb as nat);
            assert(d > 0) by (nonlinear_arith)
                requires
                    d == mb * pow2(eb as nat),
                    mb > 0,
                    pow2(eb as nat) > 0,
            ;
        }
        if ma == 0 {
            proof {
                lemma_mul_basics(pow2(ea as nat) as int);
                lemma_mul_basics(pow2(f.unit()) as int);
                lemma_round_zero(f.precision(), f.top(), d);
            }
            sign
        } else {
            let len: u32 = round::bit_length(ma as u128);
            proof {
                if len > 53 {
                    lemma_pow2_strictly_increases(53, len as nat);
                    if len > 54 {
                        lemma_pow2_strictly_increases(53, (len - 1) as nat);
                    }
                }
            }
            let k: u32 = 126 - len;
            let scale: u128 = two_to(k);
            proof {
                lemma_pow2_adds(len as nat, k as nat);
                lemma_pow2_adds((len - 1) as nat, k as nat);
                lemma_pow2_strictly_increases(126, 127);
                assert(ma * scale < pow2(126)) by (nonlinear_arith)
                    requires
                        ma < pow2(len as nat),
                        scale > 0,
                        pow2(len as nat) * scale == pow2(126),
                ;
                assert(ma * scale >= pow2(125)) by (nonlinear_arith)
                    requires
                        ma >= pow2((len - 1) as nat),
                        scale > 0,
                        pow2((len - 1) as nat) * scale == pow2(125),
                ;
            }
            let t: u128 = ma as u128 * scale;
            let m: u128 = t / mb as u128;
            let sticky: bool = t % mb as u128 != 0;
            proof {
                lemma_quotient(ma as nat, ea as nat, mb as nat, eb as nat, f.unit(), k as nat);
                lemma_div_nonincreasing(t as int, mb as int);
                // The quotient keeps more bits than the precision.
                let p = f.precision();
                lemma_pow2_adds(p, (p + 1) as nat);
                lemma_pow2_strictly_increases((p + (p + 1)) as nat, 125);
                lemma_pow2_pos((p + 1) as nat);
                assert(t >= pow2((p + 1) as nat) * mb) by (nonlinear_arith)
                    requires
                        t >= pow2(p) * pow2((p + 1) as nat),
                        mb <= pow2(p),
                ;
                lemma_div_is_ordered((pow2((p + 1) as nat) * mb) as int, t as int, mb as int);
                lemma_div_by_multiple(pow2((p + 1) as nat) as int, mb as int);
            }
            let bits: u64 = round_cut(
                f.get_precision(),
                top,
                m,
                ea as i32 + w as i32 - eb as i32 - k as i32,
                sticky,
                Ghost(n),
                Ghost(d),
            );
            sign + bits
        }
    }
}

pub fn less_bits(f: Width, x: u64, y: u64) -> (r: bool)
    requires
        pattern(f, x as nat),
        pattern(f, y as nat),
    ensures
        r == less(f, x as nat, y as nat),
{
    let (nx, mx) = split(f, x);
    let (ny, my) = split(f, y);
    let top: u64 = f.get_top();
    if mx > top || my > top {
        false
    } else if nx && ny {
        mx > my
    } else if nx {
        mx != 0 || my != 0
    } else if ny {
        false
    } else {
        mx < my
    }
}

pub fn equal_bits(f: Width, x: u64, y: u64) -> (r: bool)
    requires
        pattern(f, x as nat),
        pattern(f, y as nat),
    ensures
        r == equal(f, x as nat, y as nat),
{
    let (nx, mx) = split(f, x);
    let (ny, my) = split(f, y);
    let top: u64 = f.get_top();
    if mx > top || my > top {
        false
    } else if nx == ny {
        mx == my
    } else {
        mx == 0 && my == 0
    }
}

/// The float nearest to an integer.
pub open spec fn of_integer(f: Width, i: int) -> nat {
    if i < 0 {
        rounded(f, true, ((-i) * pow2(f.unit())) as nat, 1)
    } else {
        rounded(f, false, (i * pow2(f.unit())) as nat, 1)
    }
}

pub fn from_integer_bits(f: Width, i: i128) -> (r: u64)
    ensures
        r == of_integer(f, i as int),
        pattern(f, r as nat),
{
    proof {
        round::lemma_pow2_127();
        lemma_mul_basics(pow2(f.unit()) as int);
        lemma_round_zero(f.precision(), f.top(), 1);
        assert(-(i * pow2(f.unit())) == (-i) * pow2(f.unit())) by (nonlinear_arith);
    }
    if i == 0 {
        0
    } else if i == i128::MIN {
        let half: i128 = i / 2;
        proof {
            lemma_pow2_unfold((f.unit() + 1) as nat);
            let u = pow2(f.unit());
            assert(half * (2 * u) == i * u) by (nonlinear_arith)
                requires
                    i == 2 * half,
            ;
        }
        round_signed(f, half, f.get_unit() + 1)
    } else {
        round_signed(f, i, f.get_unit())
    }
}

/// The same number in another format, rounded where the other format is narrower.
pub open spec fn converted(from: Width, to: Width, x: nat) -> nat {
    if is_nan(from, x) {
        to.nan()
    } else if is_infinite(from, x) {
        with_sign(to, is_negative(from, x), to.top())
    } else {
        rounded(
            to,
            is_negative(from, x),
            magnitude(from, x) * pow2(to.unit()),
            pow2(from.unit()),
        )
    }
}

pub fn convert_bits(from: Width, to: Width, x: u64) -> (r: u64)
    requires
        pattern(from, x as nat),
    ensures
        r == converted(from, to, x as nat),
        pattern(to, r as nat),
{
    let (nx, mx) = split(from, x);
    let sign: u64 = if nx { to.get_sign() } else { 0 };
    if mx > from.get_top() {
        to.get_nan()
    } else if mx == from.get_top() {
        sign + to.get_top()
    } else {
        let (m, e) = unpack(from, mx);
        let ghost n: nat = (magnitude(from, x as nat) * pow2(to.unit())) as nat;
        let ghost d: nat = pow2(from.unit());
        proof {
            lemma_pow2_pos(from.unit());
            lemma2_to64();
            lemma2_to64_rest();
            round::lemma_pow2_127();
            lemma_mul_basics(pow2(e as nat) as int);
            lemma_mul_basics(pow2(to.unit()) as int);
            lemma_mul_basics(m as int);
            lemma_round_zero(to.precision(), to.top(), d);
            lemma_product(m as nat, e as nat, 1, to.unit(), from.unit());
        }
        if m == 0 {
            sign
        } else {
            let bits: u64 = round_cut(
                to.get_precision(),
                to.get_top(),
                m as u128,
                e as i32 + to.get_unit() as i32 - from.get_unit() as i32,
                false,
                Ghost(n),
                Ghost(d),
            );
            sign + bits
        }
    }
}

pub open spec fn clamped(i: int, lo: int, hi: int) -> int {
    if i < lo {
        lo
    } else if i > hi {
        hi
    } else {
        i
    }
}

/// The nearest integer, halves away from zero, held to the range of `i128`; what is no
/// number gives zero.
pub open spec fn to_nearest_i128(f: Width, x: nat) -> int {
    if is_nan(f, x) {
        0
    } else if is_infinite(f, x) {
        if is_negative(f, x) {
            i128::MIN as int
        } else {
            i128::MAX as int
        }
    } else {
        clamped(nearest_integer(f, x), i128::MIN as int, i128::MAX as int)
    }
}

/// Rounding a magnitude that lies below one unit bit `t` to whole numbers.
proof fn lemma_nearest_below(m: nat, e: nat, t: nat)
    requires
        t >= 1,
    ensures
        (2 * (m * pow2(e)) + pow2((e + t) as nat)) / (2 * pow2((e + t) as nat)) == (m + pow2(
            (t - 1) as nat,
        )) / pow2(t),
        pow2(t) > 0,
{
    lemma_pow2_pos(e);
    lemma_pow2_pos(t);
    lemma_pow2_adds(e, t);
    lemma_pow2_unfold(t);
    let h = pow2((t - 1) as nat);
    let u = 2 * pow2(e);
    assert(2 * (m * pow2(e)) + pow2((e + t) as nat) == (m + h) * u) by (nonlinear_arith)
        requires
            pow2((e + t) as nat) == pow2(e) * pow2(t),
            pow2(t) == 2 * h,
            u == 2 * pow2(e),
    ;
    assert(2 * pow2((e + t) as nat) == pow2(t) * u) by (nonlinear_arith)
        requires
            pow2((e + t) as nat) == pow2(e) * pow2(t),
            u == 2 * pow2(e),
    ;
    round::lemma_scale_div(m + h, pow2(t), u);
}

/// Rounding a magnitude that is already whole.
proof fn lemma_nearest_above(m: nat, w: nat, s: nat)
    ensures
        (2 * (m * pow2(w + s)) + pow2(w)) / (2 * pow2(w)) == m * pow2(s),
{
    lemma_pow2_pos(w);
    lemma_pow2_adds(w, s);
    let q = m * pow2(s);
    let u = pow2(w);
    assert(2 * (m * pow2(w + s)) + u == q * (2 * u) + u) by (nonlinear_arith)
        requires
            pow2(w + s) == u * pow2(s),
            q == m * pow2(s),
    ;
    lemma_fundamental_div_mod_converse(
        (2 * (m * pow2(w + s)) + u) as int,
        (2 * u) as int,
        q as int,
        u as int,
    );
}

/// A significand with its top bit set, shifted past the range of `i128`.
proof fn lemma_beyond_i128(p: nat, m: nat, s: nat)
    requires
        p == 24 || p == 53,
        m >= pow2((p - 1) as nat),
        s + p > 127,
    ensures
        m * pow2(s) >= pow2(127),
{
    let t = (p - 1) as nat;
    lemma_pow2_adds(t, s);
    if t + s > 127 {
        lemma_pow2_strictly_increases(127, t + s);
    }
    assert(m * pow2(s) >= pow2(t) * pow2(s)) by (nonlinear_arith)
        requires
            m >= pow2(t),
    ;
}

proof fn lemma_within_i128(p: nat, m: nat, s: nat)
    requires
        p == 24 || p == 53,
        m < pow2(p),
        s + p <= 127,
    ensures
        m * pow2(s) < pow2(127),
{
    lemma_pow2_pos(s);
    lemma_pow2_adds(p, s);
    if p + s < 127 {
        lemma_pow2_strictly_increases(p + s, 127);
    }
    assert(m * pow2(s) < pow2(p) * pow2(s)) by (nonlinear_arith)
        requires
            m < pow2(p),
            pow2(s) > 0,
    ;
}

pub fn nearest_i128_bits(f: Width, x: u64) -> (r: i128)
    requires
        pattern(f, x as nat),
    ensures
        r == to_nearest_i128(f, x as nat),
{
    let (nx, mx) = split(f, x);
    let top: u64 = f.get_top();
    if mx > top {
        0
    } else if mx == top {
        if nx {
            i128::MIN
        } else {
            i128::MAX
        }
    } else {
        let (m, e) = unpack(f, mx);
        let w: u32 = f.get_unit();
        let p: u32 = f.get_precision();
        proof {
            lemma2_to64();
            lemma2_to64_rest();
            round::lemma_pow2_127();
        }
        if e >= w {
            let s: u32 = e - w;
            proof {
                lemma_nearest_above(m as nat, w as nat, s as nat);
            }
            if s + p <= 127 {
                proof {
                    lemma_within_i128(f.precision(), m as nat, s as nat);
                }
                let n: u128 = m as u128 * two_to(s);
                if nx {
                    -(n as i128)
                } else {
                    n as i128
                }
            } else {
                proof {
                    lemma_beyond_i128(f.precision(), m as nat, s as nat);
                }
                if nx {
                    i128::MIN
                } else {
                    i128::MAX
                }
            }
        } else {
            let t: u32 = w - e;
            proof {
                lemma_nearest_below(m as nat, e as nat, t as nat);
                assert(e + t == w);
            }
            if t < 64 {
                let h: u128 = two_to(t - 1);
                let unit: u128 = two_to(t);
                proof {
                    lemma_pow2_strictly_increases((t - 1) as nat, 64);
                    lemma_div_nonincreasing(m + h, unit as int);
                }
                let n: u128 = (m as u128 + h) / unit;
                if nx {
                    -(n as i128)
                } else {
                    n as i128
                }
            } else {
                proof {
                    lemma_pow2_unfold(t as nat);
                    if t > 64 {
                        lemma_pow2_strictly_increases(63, (t - 1) as nat);
                    }
                    lemma_basic_div(
                        m + pow2((t - 1) as nat),
                        pow2(t as nat) as int,
                    );
                }
                0
            }
        }
    }
}

/// A float cut towards zero and held to the range of `u64`; what is no number, or is
/// negative, gives zero.
pub open spec fn to_whole_u64(f: Width, x: nat) -> int {
    if is_nan(f, x) || is_negative(f, x) {
        0
    } else if is_infinite(f, x) {
        u64::MAX as int
    } else {
        clamped(whole(f, x) as int, 0, u64::MAX as int)
    }
}

pub fn whole_u64_bits(f: Width, x: u64) -> (r: u64)
    requires
        pattern(f, x as nat),
    ensures
        r == to_whole_u64(f, x as nat),
{
    let (nx, mx) = split(f, x);
    let top: u64 = f.get_top();
    if mx > top || nx {
        0
    } else if mx == top {
        u64::MAX
    } else {
        let (m, e) = unpack(f, mx);
        let w: u32 = f.get_unit();
        let p: u32 = f.get_precision();
        proof {
            lemma2_to64();
            lemma2_to64_rest();
            round::lemma_pow2_127();
            lemma_pow2_pos(w as nat);
        }
        if e >= w {
            let s: u32 = e - w;
            proof {
                lemma_pow2_adds(w as nat, s as nat);
                assert(m * pow2(e as nat) == (m * pow2(s as nat)) * pow2(w as nat))
                    by (nonlinear_arith)
                    requires
                        pow2(e as nat) == pow2(w as nat) * pow2(s as nat),
                ;
                lemma_div_by_multiple(m * pow2(s as nat), pow2(w as nat) as int);
            }
            if s + p <= 127 {
                proof {
                    lemma_within_i128(f.precision(), m as nat, s as nat);
                }
                let n: u128 = m as u128 * two_to(s);
                if n > u64::MAX as u128 {
                    u64::MAX
                } else {
                    n as u64
                }
            } else {
                proof {
                    lemma_beyond_i128(f.precision(), m as nat, s as nat);
                }
                u64::MAX
            }
        } else {
            let t: u32 = w - e;
            proof {
                lemma_pow2_pos(t as nat);
                lemma_pow2_pos(e as nat);
                lemma_pow2_adds(t as nat, e as nat);
                round::lemma_scale_div(m as nat, pow2(t as nat), pow2(e as nat));
            }
            if t < 64 {
                let unit: u128 = two_to(t);
                proof {
                    lemma_div_nonincreasing(m as int, unit as int);
                }
                (m as u128 / unit) as u64
            } else {
                proof {
                    if t > 64 {
                        lemma_pow2_strictly_increases(64, t as nat);
                    }
                    lemma_basic_div(m as int, pow2(t as nat) as int);
                }
                0
            }
        }
    }
}

} // verus!
