//! Numbers as text.

use crate::float::accuracy;
use crate::float::ops;
use crate::float::ops::{unpack, Width};
use crate::float::round;
use crate::float::round::two_to;
use crate::float::F64;
use vstd::arithmetic::div_mod::*;
use vstd::arithmetic::mul::*;
use vstd::arithmetic::power::*;
use vstd::arithmetic::power2::*;
use vstd::prelude::*;

verus! {

/// The character of a decimal digit.
pub open spec fn digit(d: nat) -> char {
    (48 + d) as char
}

/// A natural number in decimal.
pub open spec fn decimal(n: nat) -> Seq<char>
    decreases n,
{
    if n < 10 {
        seq![digit(n)]
    } else {
        decimal(n / 10).push(digit(n % 10))
    }
}

/// The last `width` decimal digits of `n`.
pub open spec fn low_digits(n: nat, width: nat) -> Seq<char>
    decreases width,
{
    if width == 0 {
        Seq::empty()
    } else {
        low_digits(n / 10, (width - 1) as nat).push(digit(n % 10))
    }
}

/// `n` in decimal with zeros in front up to `width` digits.
pub open spec fn padded(n: nat, width: nat) -> Seq<char> {
    if n < pow(10, width) {
        low_digits(n, width)
    } else {
        decimal(n)
    }
}

/// `n` ten-to-the-`prec`ths, with exactly `prec` digits after the point.
pub open spec fn fraction(n: nat, prec: nat) -> Seq<char> {
    let unit = pow(10, prec) as nat;
    if prec == 0 {
        decimal(n)
    } else {
        decimal(n / unit) + "."@ + low_digits(n, prec)
    }
}

/// A float with `prec` digits after the point, rounded to nearest, ties to even.
pub open spec fn fixed(x: F64, prec: nat) -> Seq<char> {
    if x.is_nan_spec() {
        "NaN"@
    } else {
        let sign = if x.is_negative_spec() { "-"@ } else { Seq::empty() };
        sign + fixed_magnitude(x, prec)
    }
}

/// The same with a plus where there is no minus.
pub open spec fn fixed_signed(x: F64, prec: nat) -> Seq<char> {
    if x.is_nan_spec() {
        "NaN"@
    } else {
        let sign = if x.is_negative_spec() { "-"@ } else { "+"@ };
        sign + fixed_magnitude(x, prec)
    }
}

/// The absolute value of a float that is a number, as [`fixed`] gives it.
pub open spec fn fixed_magnitude(x: F64, prec: nat) -> Seq<char> {
    if !x.is_finite_spec() {
        "inf"@
    } else {
        fraction(
            round::nearest_even(
                ops::magnitude(Width::Double, x.bits as nat) * pow(10, prec) as nat,
                pow2(1074),
            ),
            prec,
        )
    }
}

/// Whether `part` stands somewhere in `s`.
pub open spec fn occurs(part: Seq<char>, s: Seq<char>) -> bool {
    exists|before: Seq<char>, behind: Seq<char>| s == #[trigger] (before + part + behind)
}

/// What occurs in a text still does when more is written before and behind it.
pub proof fn lemma_still_occurs(part: Seq<char>, s: Seq<char>, front: Seq<char>, back: Seq<char>)
    requires
        occurs(part, s),
    ensures
        occurs(part, front + s + back),
        occurs(part, s + back),
        occurs(part, front + s),
{
    let (a, b) = choose|a: Seq<char>, b: Seq<char>| s == #[trigger] (a + part + b);
    assert(front + s + back =~= (front + a) + part + (b + back));
    assert(s + back =~= a + part + (b + back));
    assert(front + s =~= (front + a) + part + b);
}

/// A value between two texts is between the tags that they end and begin with.
pub proof fn lemma_tagged(
    front: Seq<char>,
    value: Seq<char>,
    back: Seq<char>,
    open: Seq<char>,
    close: Seq<char>,
)
    requires
        open.len() <= front.len(),
        front.skip(front.len() - open.len()) == open,
        close.len() <= back.len(),
        back.take(close.len() as int) == close,
    ensures
        occurs(open + value + close, front + value + back),
{
    let a = front.take(front.len() - open.len());
    let b = back.skip(close.len() as int);
    assert(front =~= a + open);
    assert(back =~= close + b);
    assert(front + value + back =~= a + (open + value + close) + b);
}

/// Whether a text is ASCII throughout.
pub open spec fn ascii(s: Seq<char>) -> bool {
    forall|i: int| 0 <= i < s.len() ==> #[trigger] s[i] as int <= 127
}

pub proof fn lemma_decimal_is_ascii(n: nat)
    ensures
        ascii(decimal(n)),
    decreases n,
{
    if n >= 10 {
        lemma_decimal_is_ascii(n / 10);
    }
}

pub proof fn lemma_low_digits_are_ascii(n: nat, width: nat)
    ensures
        ascii(low_digits(n, width)),
    decreases width,
{
    if width > 0 {
        lemma_low_digits_are_ascii(n / 10, (width - 1) as nat);
    }
}

pub proof fn lemma_padded_is_ascii(n: nat, width: nat)
    ensures
        ascii(padded(n, width)),
{
    lemma_decimal_is_ascii(n);
    lemma_low_digits_are_ascii(n, width);
}

/// A float is ASCII with any number of digits, and so are the forms that are not numbers.
pub proof fn lemma_fixed_is_ascii(x: F64, prec: nat)
    ensures
        ascii(fixed(x, prec)),
{
    reveal_strlit("NaN");
    reveal_strlit("inf");
    reveal_strlit("-");
    reveal_strlit(".");
    let n = round::nearest_even(
        ops::magnitude(Width::Double, x.bits as nat) * pow(10, prec) as nat,
        pow2(1074),
    );
    lemma_decimal_is_ascii(n);
    lemma_decimal_is_ascii(n / pow(10, prec) as nat);
    lemma_low_digits_are_ascii(n, prec);
    assert(ascii(fraction(n, prec)));
}

/// Appends one digit.
pub fn push_digit(out: &mut String, d: u8)
    requires
        d < 10,
    ensures
        final(out)@ == old(out)@.push(digit(d as nat)),
{
    proof {
        reveal_strlit("0");
        reveal_strlit("1");
        reveal_strlit("2");
        reveal_strlit("3");
        reveal_strlit("4");
        reveal_strlit("5");
        reveal_strlit("6");
        reveal_strlit("7");
        reveal_strlit("8");
        reveal_strlit("9");
    }
    let s: &str = if d == 0 {
        "0"
    } else if d == 1 {
        "1"
    } else if d == 2 {
        "2"
    } else if d == 3 {
        "3"
    } else if d == 4 {
        "4"
    } else if d == 5 {
        "5"
    } else if d == 6 {
        "6"
    } else if d == 7 {
        "7"
    } else if d == 8 {
        "8"
    } else {
        "9"
    };
    assert(s@ =~= seq![digit(d as nat)]);
    out.append(s);
    assert(out@ =~= old(out)@.push(digit(d as nat)));
}

/// Appends a number in decimal.
pub fn push_decimal(out: &mut String, n: u128)
    ensures
        final(out)@ == old(out)@ + decimal(n as nat),
    decreases n,
{
    if n < 10 {
        push_digit(out, n as u8);
        assert(out@ =~= old(out)@ + decimal(n as nat));
    } else {
        push_decimal(out, n / 10);
        push_digit(out, (n % 10) as u8);
        assert(out@ =~= old(out)@ + decimal(n as nat));
    }
}

/// Appends the last `width` decimal digits.
pub fn push_low_digits(out: &mut String, n: u128, width: u32)
    ensures
        final(out)@ == old(out)@ + low_digits(n as nat, width as nat),
    decreases width,
{
    if width > 0 {
        push_low_digits(out, n / 10, width - 1);
        push_digit(out, (n % 10) as u8);
        assert(out@ =~= old(out)@ + low_digits(n as nat, width as nat));
    } else {
        assert(out@ =~= old(out)@ + low_digits(n as nat, width as nat));
    }
}

/// The power of ten.
pub fn ten_to(k: u32) -> (r: u128)
    requires
        k <= 18,
    ensures
        r == pow(10, k as nat),
        1 <= r <= 1_000_000_000_000_000_000,
        k <= 9 ==> r <= 1_000_000_000,
{
    let mut r: u128 = 1;
    let mut i: u32 = 0;
    proof {
        lemma_pow0(10);
        lemma_pow_values();
    }
    while i < k
        invariant
            i <= k <= 18,
            r == pow(10, i as nat),
            r >= 1,
            pow(10, 18) == 1_000_000_000_000_000_000,
            pow(10, 9) == 1_000_000_000,
        decreases k - i,
    {
        proof {
            lemma_pow_strictly_increases(10, i as nat, (i + 1) as nat);
            if i + 1 < 18 {
                lemma_pow_strictly_increases(10, (i + 1) as nat, 18);
            }
            reveal(pow);
            lemma_pow1(10);
            lemma_pow_adds(10, 1, i as nat);
        }
        r = r * 10;
        i = i + 1;
    }
    proof {
        if k < 18 {
            lemma_pow_strictly_increases(10, k as nat, 18);
        }
        if k < 9 {
            lemma_pow_strictly_increases(10, k as nat, 9);
        }
    }
    r
}

pub proof fn lemma_pow_values()
    ensures
        pow(10, 0) == 1,
        pow(10, 1) == 10,
        pow(10, 2) == 100,
        pow(10, 4) == 10_000,
        pow(10, 9) == 1_000_000_000,
        pow(10, 18) == 1_000_000_000_000_000_000,
{
    lemma_pow0(10);
    lemma_pow1(10);
    let two = pow(10, 2);
    let four = pow(10, 4);
    let nine = pow(10, 9);
    lemma_pow_adds(10, 1, 1);
    lemma_pow_adds(10, 2, 2);
    lemma_pow_adds(10, 4, 4);
    lemma_pow_adds(10, 8, 1);
    lemma_pow_adds(10, 9, 9);
    assert(two * two == 10_000) by (nonlinear_arith)
        requires
            two == 100,
    ;
    assert(four * four == 100_000_000) by (nonlinear_arith)
        requires
            four == 10_000,
    ;
    assert(nine * nine == 1_000_000_000_000_000_000) by (nonlinear_arith)
        requires
            nine == 1_000_000_000,
    ;
}

/// Appends a number with zeros in front.
pub fn push_padded(out: &mut String, n: u128, width: u32)
    requires
        width <= 18,
    ensures
        final(out)@ == old(out)@ + padded(n as nat, width as nat),
{
    if n < ten_to(width) {
        push_low_digits(out, n, width);
    } else {
        push_decimal(out, n);
    }
}

// Numbers too long for a machine word, as decimal digits, the lowest first.
pub open spec fn digits_value(ds: Seq<u8>) -> nat
    decreases ds.len(),
{
    if ds.len() == 0 {
        0
    } else {
        ds.last() as nat * pow(10, (ds.len() - 1) as nat) as nat + digits_value(ds.drop_last())
    }
}

spec fn all_digits(ds: Seq<u8>) -> bool {
    forall|i: int| 0 <= i < ds.len() ==> ds[i] < 10
}

proof fn lemma_pow10_pos(k: nat)
    ensures
        pow(10, k) > 0,
        pow(10, k + 1) == 10 * pow(10, k),
{
    lemma_pow_positive(10, k);
    lemma_pow_adds(10, 1, k);
    lemma_pow1(10);
}

/// Twice a number.
fn doubled(ds: &Vec<u8>) -> (r: Vec<u8>)
    requires
        all_digits(ds@),
        ds@.len() > 0,
        ds@.last() != 0,
        ds@.len() < 1000,
    ensures
        all_digits(r@),
        digits_value(r@) == 2 * digits_value(ds@),
        r@.len() > 0,
        r@.last() != 0,
        r@.len() <= ds@.len() + 1,
{
    let mut r: Vec<u8> = Vec::new();
    let mut carry: u8 = 0;
    let mut i: usize = 0;
    proof {
        lemma_pow0(10);
    }
    while i < ds.len()
        invariant
            i <= ds@.len(),
            r@.len() == i,
            carry <= 1,
            all_digits(ds@),
            all_digits(r@),
            ds@.len() < 1000,
            ds@.len() > 0,
            ds@.last() != 0,
            i == ds@.len() ==> carry == 1 || r@.last() != 0,
            digits_value(r@) + carry as nat * pow(10, i as nat) as nat == 2 * digits_value(
                ds@.take(i as int),
            ),
        decreases ds@.len() - i,
    {
        let t: u8 = ds[i] * 2 + carry;
        let ghost before = r@;
        let ghost c0 = carry as nat;
        r.push(t % 10);
        carry = t / 10;
        proof {
            let p = pow(10, i as nat) as nat;
            lemma_pow10_pos(i as nat);
            assert(ds@.take(i + 1).drop_last() =~= ds@.take(i as int));
            assert(r@.drop_last() =~= before);
            let d = ds@[i as int] as nat;
            let lo = (t % 10) as nat;
            let hi = carry as nat;
            assert(lo * p + hi * (10 * p) == 2 * (d * p) + c0 * p) by (nonlinear_arith)
                requires
                    lo + 10 * hi == 2 * d + c0,
            ;
            if i + 1 == ds@.len() {
                assert(ds@[i as int] == ds@.last());
            }
        }
        i = i + 1;
    }
    assert(ds@.take(i as int) =~= ds@);
    if carry > 0 {
        let ghost before = r@;
        r.push(carry);
        proof {
            assert(r@.drop_last() =~= before);
        }
    }
    r
}

/// A number with a leading digit that is not zero reads as its digits do.
proof fn lemma_decimal_digits(ds: Seq<u8>)
    requires
        all_digits(ds),
        ds.len() > 0,
        ds.last() != 0,
    ensures
        decimal(digits_value(ds)) == Seq::new(
            ds.len(),
            |i: int| digit(ds[ds.len() - 1 - i] as nat),
        ),
        digits_value(ds) >= 1,
    decreases ds.len(),
{
    let text = Seq::new(ds.len(), |i: int| digit(ds[ds.len() - 1 - i] as nat));
    let rest = ds.drop_first();
    lemma_drop_first(ds);
    lemma_pow0(10);
    if ds.len() == 1 {
        assert(rest.len() == 0);
        assert(text =~= seq![digit(ds[0] as nat)]);
    } else {
        assert(rest.last() == ds.last());
        lemma_decimal_digits(rest);
        let v = digits_value(ds);
        assert(v / 10 == digits_value(rest));
        assert(v % 10 == ds[0] as nat);
        let head = Seq::new(rest.len(), |i: int| digit(rest[rest.len() - 1 - i] as nat));
        assert(text =~= head.push(digit(ds[0] as nat)));
    }
}

proof fn lemma_drop_first(ds: Seq<u8>)
    requires
        ds.len() > 0,
    ensures
        digits_value(ds) == ds[0] as nat + 10 * digits_value(ds.drop_first()),
    decreases ds.len(),
{
    lemma_pow0(10);
    if ds.len() == 1 {
        assert(ds.drop_first() =~= Seq::<u8>::empty());
        assert(ds.drop_last() =~= Seq::<u8>::empty());
        lemma_mul_basics(ds[0] as int);
    } else {
        let body = ds.drop_last();
        lemma_drop_first(body);
        assert(body.drop_first() =~= ds.drop_first().drop_last());
        let k = (ds.len() - 2) as nat;
        lemma_pow10_pos(k);
        let p = pow(10, k) as nat;
        let d = ds.last() as nat;
        assert(d * (10 * p) == 10 * (d * p)) by (nonlinear_arith);
    }
}

/// Appends `m * 2^s` in decimal.
fn push_shifted(out: &mut String, m: u64, s: u32)
    requires
        m > 0,
        s <= 972,
    ensures
        final(out)@ == old(out)@ + decimal(m as nat * pow2(s as nat)),
{
    let mut ds: Vec<u8> = Vec::new();
    let mut rest: u64 = m;
    proof {
        lemma_pow0(10);
        lemma2_to64();
        lemma_mul_basics(m as int);
    }
    while rest > 0
        invariant
            all_digits(ds@),
            ds@.len() <= 20,
            rest > 0 ==> ds@.len() < 20,
            digits_value(ds@) + rest as nat * pow(10, ds@.len()) as nat == m,
            rest == 0 ==> ds@.len() > 0 && ds@.last() != 0,
            m > 0,
            rest as nat * pow(10, ds@.len()) as nat <= m,
        decreases rest,
    {
        let ghost before = ds@;
        let ghost r0 = rest as nat;
        ds.push((rest % 10) as u8);
        rest = rest / 10;
        proof {
            let k = before.len();
            lemma_pow10_pos(k);
            let p = pow(10, k) as nat;
            assert(ds@.drop_last() =~= before);
            let lo = r0 % 10;
            let hi = rest as nat;
            assert(lo * p + hi * (10 * p) == r0 * p) by (nonlinear_arith)
                requires
                    r0 == 10 * hi + lo,
            ;
            if rest > 0 && k + 1 >= 20 {
                lemma_pow_values();
                lemma_pow_adds(10, 18, 2);
                assert(rest as nat * pow(10, 20) as nat > 0xFFFF_FFFF_FFFF_FFFF) by {
                    assert(pow(10, 20) == 100_000_000_000_000_000_000);
                    assert(rest * 100_000_000_000_000_000_000 > 0xFFFF_FFFF_FFFF_FFFF);
                }
            }
        }
    }
    let mut k: u32 = 0;
    proof {
        lemma_mul_basics(m as int);
        lemma_mul_basics(pow(10, ds@.len()));
    }
    while k < s
        invariant
            k <= s <= 972,
            all_digits(ds@),
            0 < ds@.len() <= 20 + k,
            ds@.last() != 0,
            digits_value(ds@) == m as nat * pow2(k as nat),
        decreases s - k,
    {
        let next: Vec<u8> = doubled(&ds);
        proof {
            lemma_pow2_unfold((k + 1) as nat);
            assert(2 * (m as nat * pow2(k as nat)) == m as nat * (2 * pow2(k as nat)))
                by (nonlinear_arith);
        }
        ds = next;
        k = k + 1;
    }
    proof {
        lemma_decimal_digits(ds@);
    }
    let ghost text = decimal(m as nat * pow2(s as nat));
    let mut i: usize = ds.len();
    assert(out@ =~= old(out)@ + text.take(0));
    while i > 0
        invariant
            i <= ds@.len(),
            all_digits(ds@),
            text.len() == ds@.len(),
            forall|j: int|
                0 <= j < ds@.len() ==> text[j] == digit(ds@[ds@.len() - 1 - j] as nat),
            out@ == old(out)@ + text.take(ds@.len() - i),
        decreases i,
    {
        i = i - 1;
        push_digit(out, ds[i]);
        proof {
            let j = ds@.len() - 1 - i;
            assert(text.take(j + 1) =~= text.take(j).push(text[j]));
            assert(out@ =~= old(out)@ + text.take(j + 1));
        }
    }
    assert(text.take(ds@.len() as int) =~= text);
}

/// Appends the absolute value of a float that is a number.
fn push_magnitude(out: &mut String, x: F64, prec: u32)
    requires
        !x.is_nan_spec(),
        prec <= 9,
    ensures
        final(out)@ == old(out)@ + fixed_magnitude(x, prec as nat),
{
    let a: F64 = x.abs();
    if !x.is_finite() {
        out.append("inf");
        return;
    }
    let (m, e) = unpack(Width::Double, a.bits);
    let unit: u128 = ten_to(prec);
    let ghost mag = ops::magnitude(Width::Double, x.bits as nat);
    let ghost n = round::nearest_even(mag * pow(10, prec as nat) as nat, pow2(1074));
    proof {
        assert(mag == m * pow2(e as nat));
        lemma_pow2_pos(1074);
        lemma_pow2_pos(e as nat);
        lemma2_to64();
        lemma2_to64_rest();
        round::lemma_pow2_127();
    }
    if e >= 1074 {
        let s: u32 = e - 1074;
        proof {
            let whole = m as nat * pow2(s as nat);
            let u = unit as nat;
            lemma_pow2_adds(s as nat, 1074);
            assert(mag * u == (whole * u) * pow2(1074)) by (nonlinear_arith)
                requires
                    mag == m * pow2(e as nat),
                    pow2(e as nat) == pow2(s as nat) * pow2(1074),
                    whole == m * pow2(s as nat),
            ;
            lemma_fundamental_div_mod_converse(
                (mag * u) as int,
                pow2(1074) as int,
                (whole * u) as int,
                0,
            );
            assert(n == whole * u);
            lemma_div_by_multiple(whole as int, u as int);
            lemma_zero_digits(whole, prec as nat);
        }
        push_shifted(out, m, s);
        if prec > 0 {
            out.append(".");
            push_low_digits(out, 0, prec);
            proof {
                let whole = m as nat * pow2(s as nat);
                assert(out@ =~= old(out)@ + (decimal(whole) + "."@ + low_digits(n, prec as nat)));
            }
        } else {
            proof {
                lemma_pow_values();
                lemma_mul_basics((m as nat * pow2(s as nat)) as int);
            }
        }
    } else {
        let t: u32 = 1074 - e;
        proof {
            lemma_pow2_pos(t as nat);
            lemma_pow2_adds(t as nat, e as nat);
            let u = unit as nat;
            assert(mag * u == (m * u) * pow2(e as nat)) by (nonlinear_arith)
                requires
                    mag == m * pow2(e as nat),
            ;
            round::lemma_nearest_even_scale(m as nat * u, pow2(t as nat), pow2(e as nat));
            assert(n == round::nearest_even(m as nat * u, pow2(t as nat)));
            assert(m * unit <= 0x20_0000_0000_0000 * 1_000_000_000) by (nonlinear_arith)
                requires
                    0 <= m <= 0x20_0000_0000_0000,
                    0 <= unit <= 1_000_000_000,
            ;
        }
        let scaled: u128 = m as u128 * unit;
        let nearest: u128 = if t < 127 {
            let d: u128 = two_to(t);
            proof {
                lemma_div_nonincreasing(scaled as int, d as int);
                lemma_pow2_strictly_increases(t as nat, 127);
            }
            let q: u128 = scaled / d;
            let r: u128 = scaled % d;
            if 2 * r > d || (2 * r == d && q % 2 == 1) {
                q + 1
            } else {
                q
            }
        } else {
            proof {
                lemma_pow2_unfold(127);
                if t > 127 {
                    lemma_pow2_strictly_increases(127, t as nat);
                }
                lemma_basic_div(scaled as int, pow2(t as nat) as int);
                lemma_small_mod(scaled as nat, pow2(t as nat));
            }
            0
        };
        assert(nearest == n);
        if prec > 0 {
            push_decimal(out, nearest / unit);
            out.append(".");
            push_low_digits(out, nearest, prec);
            assert(out@ =~= old(out)@ + fraction(n, prec as nat));
        } else {
            push_decimal(out, nearest);
        }
    }
}

/// A multiple of a power of ten ends in zeros.
proof fn lemma_zero_digits(w: nat, prec: nat)
    ensures
        low_digits(w * pow(10, prec) as nat, prec) == low_digits(0, prec),
    decreases prec,
{
    lemma_pow_positive(10, prec);
    if prec > 0 {
        let k = (prec - 1) as nat;
        lemma_pow10_pos(k);
        let p = pow(10, k) as nat;
        assert(w * (10 * p) == 10 * (w * p)) by (nonlinear_arith);
        lemma_zero_digits(w, k);
    }
}

/// Appends a float with `prec` digits after the point.
pub fn push_fixed(out: &mut String, x: F64, prec: u32)
    requires
        prec <= 9,
    ensures
        final(out)@ == old(out)@ + fixed(x, prec as nat),
{
    if x.is_nan() {
        out.append("NaN");
    } else {
        if x.bits >= 0x8000_0000_0000_0000 {
            out.append("-");
        }
        push_magnitude(out, x, prec);
        assert(out@ =~= old(out)@ + fixed(x, prec as nat));
    }
}

/// Appends a float with its sign and `prec` digits after the point.
pub fn push_fixed_signed(out: &mut String, x: F64, prec: u32)
    requires
        prec <= 9,
    ensures
        final(out)@ == old(out)@ + fixed_signed(x, prec as nat),
{
    if x.is_nan() {
        out.append("NaN");
    } else {
        if x.bits >= 0x8000_0000_0000_0000 {
            out.append("-");
        } else {
            out.append("+");
        }
        push_magnitude(out, x, prec);
        assert(out@ =~= old(out)@ + fixed_signed(x, prec as nat));
    }
}

/// Whether the text at `from` in `s` is `part`.
pub open spec fn region(s: Seq<char>, from: int, part: Seq<char>) -> bool {
    from + part.len() <= s.len() && s.subrange(from, from + part.len()) == part
}

pub fn region_is(s: &str, from: usize, part: &str) -> (r: bool)
    requires
        from <= s@.len(),
    ensures
        r == region(s@, from as int, part@),
{
    let n: usize = s.unicode_len();
    let k: usize = part.unicode_len();
    if k > n - from {
        return false;
    }
    let mut i: usize = 0;
    while i < k
        invariant
            n == s@.len(),
            k == part@.len(),
            from + k <= n,
            i <= k,
            forall|j: int| 0 <= j < i ==> s@[from + j] == part@[j],
        decreases k - i,
    {
        if s.get_char(from + i) != part.get_char(i) {
            assert(s@.subrange(from as int, from + k)[i as int] == s@[from + i]);
            return false;
        }
        i = i + 1;
    }
    assert(s@.subrange(from as int, from + k) =~= part@);
    true
}

/// Whether two texts are the same.
pub fn same_text(a: &str, b: &str) -> (r: bool)
    ensures
        r == (a@ == b@),
{
    if a.unicode_len() != b.unicode_len() {
        return false;
    }
    let r: bool = region_is(a, 0, b);
    assert(a@.subrange(0, a@.len() as int) =~= a@);
    r
}

/// A text cut out of a longer one.
pub fn cut(s: &str, from: usize, to: usize) -> (r: String)
    requires
        from <= to <= s@.len(),
    ensures
        r@ == s@.subrange(from as int, to as int),
{
    String::from_str(s.substring_char(from, to))
}

/// Whether a character is a decimal digit.
pub open spec fn is_digit(c: char) -> bool {
    48 <= c as int <= 57
}

/// The value of a run of digits.
pub open spec fn digits_number(s: Seq<char>) -> nat
    decreases s.len(),
{
    if s.len() == 0 {
        0
    } else {
        digits_number(s.drop_last()) * 10 + (s.last() as int - 48) as nat
    }
}

/// A number in decimal is made of digits, and reads as itself.
pub proof fn lemma_decimal_reads_back(n: nat)
    ensures
        decimal(n).len() > 0,
        forall|i: int| 0 <= i < decimal(n).len() ==> is_digit(#[trigger] decimal(n)[i]),
        digits_number(decimal(n)) == n,
    decreases n,
{
    if n < 10 {
        let s = seq![digit(n)];
        assert(s.drop_last() =~= Seq::empty());
        assert(digits_number(s.drop_last()) == 0);
        assert(digit(n) as int == 48 + n);
    } else {
        lemma_decimal_reads_back(n / 10);
        let rest = decimal(n / 10);
        assert(decimal(n).drop_last() =~= rest);
        assert(digit(n % 10) as int == 48 + n % 10);
    }
}

/// What occurs in a text is a region of it, and the other way round.
proof fn lemma_occurs_where(part: Seq<char>, s: Seq<char>, i: int)
    ensures
        0 <= i && region(s, i, part) ==> occurs(part, s),
        occurs(part, s) ==> exists|j: int| 0 <= j <= s.len() - part.len() && #[trigger] region(
            s,
            j,
            part,
        ),
{
    if 0 <= i && region(s, i, part) {
        assert(s =~= s.take(i) + part + s.skip(i + part.len()));
    }
    if occurs(part, s) {
        let (a, b) = choose|a: Seq<char>, b: Seq<char>| s == #[trigger] (a + part + b);
        assert(s.subrange(a.len() as int, (a.len() + part.len()) as int) =~= part);
        assert(region(s, a.len() as int, part));
    }
}

/// Whether a text stands somewhere in another.
pub fn contains(whole: &str, part: &str) -> (r: bool)
    ensures
        r == occurs(part@, whole@),
{
    let n: usize = whole.unicode_len();
    let k: usize = part.unicode_len();
    proof {
        lemma_occurs_where(part@, whole@, -1);
    }
    if k > n {
        return false;
    }
    let mut i: usize = 0;
    while i < n - k
        invariant
            n == whole@.len(),
            k == part@.len(),
            k <= n,
            i <= n - k,
            forall|j: int| 0 <= j < i ==> !#[trigger] region(whole@, j, part@),
        decreases n - k - i,
    {
        if region_is(whole, i, part) {
            proof {
                lemma_occurs_where(part@, whole@, i as int);
            }
            return true;
        }
        i = i + 1;
    }
    proof {
        lemma_occurs_where(part@, whole@, i as int);
    }
    region_is(whole, i, part)
}

/// Whether a text of digits with `prec` of them after the point stands for `n` ten-to-the-`prec`ths.
pub open spec fn reads_as(t: Seq<char>, prec: nat, n: nat) -> bool {
    if prec == 0 {
        digits_number(t) == n && forall|i: int| 0 <= i < t.len() ==> is_digit(#[trigger] t[i])
    } else {
        exists|whole: Seq<char>, part: Seq<char>|
            {
                &&& t == #[trigger] (whole + "."@ + part)
                &&& part.len() == prec
                &&& digits_number(whole) * pow(10, prec) + digits_number(part) == n
                &&& forall|i: int| 0 <= i < whole.len() ==> is_digit(#[trigger] whole[i])
                &&& forall|i: int| 0 <= i < part.len() ==> is_digit(#[trigger] part[i])
            }
    }
}

/// The last digits of a number read as what is left of it.
pub proof fn lemma_low_digits_read_back(n: nat, width: nat)
    ensures
        low_digits(n, width).len() == width,
        forall|i: int|
            0 <= i < low_digits(n, width).len() ==> is_digit(#[trigger] low_digits(n, width)[i]),
        digits_number(low_digits(n, width)) == n % pow(10, width) as nat,
        pow(10, width) > 0,
    decreases width,
{
    if width == 0 {
        vstd::arithmetic::power::lemma_pow0(10);
        assert(low_digits(n, 0).len() == 0);
        assert(n % 1 == 0);
    } else {
        let w = (width - 1) as nat;
        lemma_low_digits_read_back(n / 10, w);
        lemma_pow10_pos(w);
        let rest = low_digits(n / 10, w);
        let t = low_digits(n, width);
        assert(t.drop_last() =~= rest);
        assert(digit(n % 10) as int == 48 + n % 10);
        let p = pow(10, w) as int;
        // What is left of a tenth, and the last digit.
        lemma_breakdown(n as int, 10, p);
        assert forall|i: int| 0 <= i < t.len() implies is_digit(#[trigger] t[i]) by {
            if i < rest.len() {
                assert(t[i] == rest[i]);
            }
        }
    }
}

/// A float in fixed-point reads as the decimal nearest to it, with a minus where it is negative:
/// no further from it than half of its last place.
pub proof fn law_a_float_reads_as_its_nearest_decimal(x: F64, prec: nat)
    requires
        x.is_finite_spec(),
    ensures
        fixed(x, prec) == (if x.is_negative_spec() {
            "-"@
        } else {
            Seq::empty()
        }) + fixed_magnitude(x, prec),
        exists|n: nat|
            {
                &&& #[trigger] reads_as(fixed_magnitude(x, prec), prec, n)
                &&& -(pow2(1074) as int) <= 2 * (n * pow2(1074)) - 2 * (ops::magnitude(
                    Width::Double,
                    x.bits as nat,
                ) * pow(10, prec)) <= pow2(1074)
            },
{
    let m = ops::magnitude(Width::Double, x.bits as nat);
    let unit = pow(10, prec) as nat;
    lemma_pow10_pos(prec);
    lemma_pow2_pos(1074);
    let a = (m * unit) as nat;
    let n = round::nearest_even(a, pow2(1074));
    accuracy::lemma_nearest(a, pow2(1074), 0);
    let t = fixed_magnitude(x, prec);
    assert(t == fraction(n, prec));
    if prec == 0 {
        lemma_decimal_reads_back(n);
    } else {
        let whole = decimal(n / unit);
        let part = low_digits(n, prec);
        lemma_decimal_reads_back(n / unit);
        lemma_low_digits_read_back(n, prec);
        lemma_fundamental_div_mod(n as int, unit as int);
        assert((n / unit) * unit == unit * (n / unit)) by (nonlinear_arith);
        assert(t == whole + "."@ + part);
    }
    assert(reads_as(t, prec, n));
}

/// A number with zeros in front is made of digits, has as many as asked for where they suffice,
/// and reads as itself.
pub proof fn lemma_padded_reads_back(n: nat, width: nat)
    ensures
        forall|i: int| 0 <= i < padded(n, width).len() ==> is_digit(#[trigger] padded(n, width)[i]),
        digits_number(padded(n, width)) == n,
        n < pow(10, width) ==> padded(n, width).len() == width,
{
    lemma_decimal_reads_back(n);
    lemma_low_digits_read_back(n, width);
    if n < pow(10, width) {
        lemma_small_mod(n, pow(10, width) as nat);
    }
}

/// Some runs of digits, with a mark between each and the next, that read as three numbers.
pub open spec fn reads_as_three(t: Seq<char>, mark: Seq<char>, a: nat, b: nat, c: nat) -> bool {
    exists|x: Seq<char>, y: Seq<char>, z: Seq<char>|
        {
            &&& t == #[trigger] (x + mark + y + mark + z)
            &&& digits_number(x) == a
            &&& digits_number(y) == b
            &&& digits_number(z) == c
            &&& x.len() >= 2 && y.len() == 2 && z.len() == 2
            &&& forall|i: int| 0 <= i < x.len() ==> is_digit(#[trigger] x[i])
            &&& forall|i: int| 0 <= i < y.len() ==> is_digit(#[trigger] y[i])
            &&& forall|i: int| 0 <= i < z.len() ==> is_digit(#[trigger] z[i])
        }
}

/// Three padded numbers with a mark between them read as those numbers.
pub proof fn lemma_three_read_back(mark: Seq<char>, width: nat, a: nat, b: nat, c: nat)
    requires
        width >= 2,
        b < 100,
        c < 100,
    ensures
        reads_as_three(
            padded(a, width) + mark + padded(b, 2) + mark + padded(c, 2),
            mark,
            a,
            b,
            c,
        ),
{
    lemma_padded_reads_back(a, width);
    lemma_padded_reads_back(b, 2);
    lemma_padded_reads_back(c, 2);
    lemma_pow10_pos(0);
    lemma_pow10_pos(1);
    lemma_pow0(10);
    let x = padded(a, width);
    assert(x.len() >= 2) by {
        if a >= pow(10, width) {
            lemma_pow_increases(10, 1, width);
            reveal_with_fuel(decimal, 2);
            lemma_decimal_reads_back(a / 10);
        }
    }
    assert(x + mark + padded(b, 2) + mark + padded(c, 2) == x + mark + padded(b, 2) + mark
        + padded(c, 2));
}

/// A float that shows its sign reads as the same decimal, with a plus where there is no minus.
pub proof fn law_a_signed_float_always_shows_its_sign(x: F64, prec: nat)
    requires
        x.is_finite_spec(),
    ensures
        x.value() < 0 ==> fixed_signed(x, prec) == "-"@ + fixed_magnitude(x, prec) && fixed(x, prec)
            == "-"@ + fixed_magnitude(x, prec),
        x.value() > 0 ==> fixed_signed(x, prec) == "+"@ + fixed_magnitude(x, prec) && fixed(x, prec)
            == fixed_magnitude(x, prec),
{
    assert(Seq::<char>::empty() + fixed_magnitude(x, prec) =~= fixed_magnitude(x, prec));
}

} // verus!
