//! Floating point that gives the same answer everywhere.
//!
//! Clock fits, drift fits and meters are computed in IEEE 754 arithmetic whose results
//! are part of their contracts, so the arithmetic itself is stated and proved here:
//! each operation is the exact result, rounded once to nearest, ties to even.

pub mod accuracy;
pub mod bounds;
pub mod error;
pub mod fold;
pub mod ops;
pub mod root;
pub mod round;
pub mod single;

use crate::float::ops::Width;
use vstd::prelude::*;

verus! {

/// A binary64 float, held as its bit pattern.
///
/// Two values are `==` when their bits are; [`F64::eq_num`] compares them as numbers.
#[derive(Clone, Copy, PartialEq, Eq, Structural, Debug)]
pub struct F64 {
    pub bits: u64,
}

impl F64 {
    pub open spec fn is_nan_spec(self) -> bool {
        ops::is_nan(Width::Double, self.bits as nat)
    }

    pub open spec fn is_finite_spec(self) -> bool {
        ops::is_finite(Width::Double, self.bits as nat)
    }

    /// Whether the sign bit is set.
    pub open spec fn is_negative_spec(self) -> bool {
        ops::is_negative(Width::Double, self.bits as nat)
    }

    /// The value in units of the smallest subnormal, where it is finite.
    pub open spec fn value(self) -> int {
        ops::value(Width::Double, self.bits as nat)
    }

    /// Orders as the numbers do, where neither is a NaN.
    pub open spec fn key(self) -> int {
        ops::order_key(Width::Double, self.bits as nat)
    }

    #[verifier::opaque]
    pub open spec fn add_spec(self, other: F64) -> F64 {
        F64 { bits: ops::sum(Width::Double, self.bits as nat, other.bits as nat) as u64 }
    }

    #[verifier::opaque]
    pub open spec fn mul_spec(self, other: F64) -> F64 {
        F64 { bits: ops::product(Width::Double, self.bits as nat, other.bits as nat) as u64 }
    }

    #[verifier::opaque]
    pub open spec fn div_spec(self, other: F64) -> F64 {
        F64 { bits: ops::quotient(Width::Double, self.bits as nat, other.bits as nat) as u64 }
    }

    pub open spec fn neg_spec(self) -> F64 {
        F64 {
            bits: (if self.bits >= 0x8000_0000_0000_0000 {
                self.bits - 0x8000_0000_0000_0000
            } else {
                self.bits + 0x8000_0000_0000_0000
            }) as u64,
        }
    }

    pub open spec fn sub_spec(self, other: F64) -> F64 {
        self.add_spec(other.neg_spec())
    }

    pub open spec fn abs_spec(self) -> F64 {
        F64 {
            bits: (if self.bits >= 0x8000_0000_0000_0000 {
                self.bits - 0x8000_0000_0000_0000
            } else {
                self.bits as int
            }) as u64,
        }
    }

    #[verifier::opaque]
    pub open spec fn sqrt_spec(self) -> F64 {
        F64 { bits: root::square_root(Width::Double, self.bits as nat) as u64 }
    }

    pub open spec fn lt_spec(self, other: F64) -> bool {
        ops::less(Width::Double, self.bits as nat, other.bits as nat)
    }

    pub open spec fn eq_num_spec(self, other: F64) -> bool {
        ops::equal(Width::Double, self.bits as nat, other.bits as nat)
    }

    pub open spec fn le_spec(self, other: F64) -> bool {
        self.lt_spec(other) || self.eq_num_spec(other)
    }

    pub open spec fn min_spec(self, other: F64) -> F64 {
        if self.is_nan_spec() || other.lt_spec(self) {
            other
        } else {
            self
        }
    }

    pub open spec fn max_spec(self, other: F64) -> F64 {
        if self.is_nan_spec() || self.lt_spec(other) {
            other
        } else {
            self
        }
    }

    pub open spec fn clamp_spec(self, lo: F64, hi: F64) -> F64 {
        if self.lt_spec(lo) {
            lo
        } else if hi.lt_spec(self) {
            hi
        } else {
            self
        }
    }

    #[verifier::opaque]
    pub open spec fn of_int(i: int) -> F64 {
        F64 { bits: ops::of_integer(Width::Double, i) as u64 }
    }

    pub fn from_bits(bits: u64) -> (r: F64)
        ensures
            r.bits == bits,
    {
        F64 { bits }
    }

    pub fn to_bits(self) -> (bits: u64)
        ensures
            bits == self.bits,
    {
        self.bits
    }

    #[verifier::when_used_as_spec(is_nan_spec)]
    pub fn is_nan(self) -> (r: bool)
        ensures
            r == self.is_nan_spec(),
    {
        let m: u64 = self.abs().bits;
        m > 0x7FF0_0000_0000_0000
    }

    #[verifier::when_used_as_spec(is_finite_spec)]
    pub fn is_finite(self) -> (r: bool)
        ensures
            r == self.is_finite_spec(),
    {
        let m: u64 = self.abs().bits;
        m < 0x7FF0_0000_0000_0000
    }

    /// The sum, rounded once.
    #[verifier::when_used_as_spec(add_spec)]
    pub fn add(self, other: F64) -> (r: F64)
        ensures
            r == self.add_spec(other),
    {
        proof {
            reveal(F64::add_spec);
        }
        F64 { bits: ops::add_bits(Width::Double, self.bits, other.bits) }
    }

    /// The difference, rounded once.
    #[verifier::when_used_as_spec(sub_spec)]
    pub fn sub(self, other: F64) -> (r: F64)
        ensures
            r == self.sub_spec(other),
    {
        self.add(other.neg())
    }

    /// The product, rounded once.
    #[verifier::when_used_as_spec(mul_spec)]
    pub fn mul(self, other: F64) -> (r: F64)
        ensures
            r == self.mul_spec(other),
    {
        proof {
            reveal(F64::mul_spec);
        }
        F64 { bits: ops::mul_bits(Width::Double, self.bits, other.bits) }
    }

    /// The quotient, rounded once.
    #[verifier::when_used_as_spec(div_spec)]
    pub fn div(self, other: F64) -> (r: F64)
        ensures
            r == self.div_spec(other),
    {
        proof {
            reveal(F64::div_spec);
        }
        F64 { bits: ops::div_bits(Width::Double, self.bits, other.bits) }
    }

    #[verifier::when_used_as_spec(neg_spec)]
    pub fn neg(self) -> (r: F64)
        ensures
            r == self.neg_spec(),
    {
        if self.bits >= 0x8000_0000_0000_0000 {
            F64 { bits: self.bits - 0x8000_0000_0000_0000 }
        } else {
            F64 { bits: self.bits + 0x8000_0000_0000_0000 }
        }
    }

    #[verifier::when_used_as_spec(abs_spec)]
    pub fn abs(self) -> (r: F64)
        ensures
            r == self.abs_spec(),
    {
        if self.bits >= 0x8000_0000_0000_0000 {
            F64 { bits: self.bits - 0x8000_0000_0000_0000 }
        } else {
            self
        }
    }

    /// The square root, rounded once.
    #[verifier::when_used_as_spec(sqrt_spec)]
    pub fn sqrt(self) -> (r: F64)
        ensures
            r == self.sqrt_spec(),
    {
        proof {
            reveal(F64::sqrt_spec);
        }
        F64 { bits: root::sqrt_bits(Width::Double, self.bits) }
    }

    #[verifier::when_used_as_spec(lt_spec)]
    pub fn lt(self, other: F64) -> (r: bool)
        ensures
            r == self.lt_spec(other),
    {
        ops::less_bits(Width::Double, self.bits, other.bits)
    }

    #[verifier::when_used_as_spec(le_spec)]
    pub fn le(self, other: F64) -> (r: bool)
        ensures
            r == self.le_spec(other),
    {
        ops::less_bits(Width::Double, self.bits, other.bits) || ops::equal_bits(
            Width::Double,
            self.bits,
            other.bits,
        )
    }

    /// Equality as numbers: the two zeros are equal, a NaN equals nothing.
    #[verifier::when_used_as_spec(eq_num_spec)]
    pub fn eq_num(self, other: F64) -> (r: bool)
        ensures
            r == self.eq_num_spec(other),
    {
        ops::equal_bits(Width::Double, self.bits, other.bits)
    }

    /// The smaller of the two; a NaN gives way to the other.
    #[verifier::when_used_as_spec(min_spec)]
    pub fn min(self, other: F64) -> (r: F64)
        ensures
            r == self.min_spec(other),
    {
        if self.is_nan() || other.lt(self) {
            other
        } else {
            self
        }
    }

    /// The greater of the two; a NaN gives way to the other.
    #[verifier::when_used_as_spec(max_spec)]
    pub fn max(self, other: F64) -> (r: F64)
        ensures
            r == self.max_spec(other),
    {
        if self.is_nan() || self.lt(other) {
            other
        } else {
            self
        }
    }

    /// Held between `lo` and `hi`; a NaN stays one.
    #[verifier::when_used_as_spec(clamp_spec)]
    pub fn clamp(self, lo: F64, hi: F64) -> (r: F64)
        requires
            lo.le_spec(hi),
        ensures
            r == self.clamp_spec(lo, hi),
    {
        if self.lt(lo) {
            lo
        } else if hi.lt(self) {
            hi
        } else {
            self
        }
    }

    /// The float nearest to an unsigned integer.
    pub fn from_u64(i: u64) -> (r: F64)
        ensures
            r == F64::of_int(i as int),
    {
        proof {
            reveal(F64::of_int);
        }
        F64 { bits: ops::from_integer_bits(Width::Double, i as i128) }
    }

    /// The float nearest to a count.
    pub fn from_usize(i: usize) -> (r: F64)
        ensures
            r == F64::of_int(i as int),
    {
        F64::from_u64(i as u64)
    }

    /// The float nearest to a signed integer.
    pub fn from_i128(i: i128) -> (r: F64)
        ensures
            r == F64::of_int(i as int),
    {
        proof {
            reveal(F64::of_int);
        }
        F64 { bits: ops::from_integer_bits(Width::Double, i) }
    }

    #[verifier::opaque]
    pub open spec fn round_i128_spec(self) -> i128 {
        ops::to_nearest_i128(Width::Double, self.bits as nat) as i128
    }

    /// The nearest integer, halves away from zero, held to the range of `i128`; zero for
    /// a NaN.
    #[verifier::when_used_as_spec(round_i128_spec)]
    pub fn round_i128(self) -> (r: i128)
        ensures
            r == self.round_i128_spec(),
    {
        proof {
            reveal(F64::round_i128_spec);
        }
        ops::nearest_i128_bits(Width::Double, self.bits)
    }

    #[verifier::opaque]
    pub open spec fn whole_u64_spec(self) -> u64 {
        ops::to_whole_u64(Width::Double, self.bits as nat) as u64
    }

    /// Cut towards zero and held to the range of `u64`; zero for a NaN.
    #[verifier::when_used_as_spec(whole_u64_spec)]
    pub fn whole_u64(self) -> (r: u64)
        ensures
            r == self.whole_u64_spec(),
    {
        proof {
            reveal(F64::whole_u64_spec);
        }
        ops::whole_u64_bits(Width::Double, self.bits)
    }

    #[verifier::opaque]
    pub open spec fn to_f32_spec(self) -> F32 {
        F32 { bits: ops::converted(Width::Double, Width::Single, self.bits as nat) as u32 }
    }

    /// The nearest single.
    #[verifier::when_used_as_spec(to_f32_spec)]
    pub fn to_f32(self) -> (r: F32)
        ensures
            r == self.to_f32_spec(),
    {
        proof {
            reveal(F64::to_f32_spec);
        }
        F32 { bits: ops::convert_bits(Width::Double, Width::Single, self.bits) as u32 }
    }
}

/// A binary32 float, held as its bit pattern.
///
/// Two values are `==` when their bits are; [`F32::eq_num`] compares them as numbers.
#[derive(Clone, Copy, PartialEq, Eq, Structural, Debug)]
pub struct F32 {
    pub bits: u32,
}

impl F32 {
    pub open spec fn is_nan_spec(self) -> bool {
        ops::is_nan(Width::Single, self.bits as nat)
    }

    pub open spec fn is_finite_spec(self) -> bool {
        ops::is_finite(Width::Single, self.bits as nat)
    }

    /// Whether the sign bit is set.
    pub open spec fn is_negative_spec(self) -> bool {
        ops::is_negative(Width::Single, self.bits as nat)
    }

    /// The value in units of the smallest subnormal, where it is finite.
    pub open spec fn value(self) -> int {
        ops::value(Width::Single, self.bits as nat)
    }

    /// Orders as the numbers do, where neither is a NaN.
    pub open spec fn key(self) -> int {
        ops::order_key(Width::Single, self.bits as nat)
    }

    #[verifier::opaque]
    pub open spec fn add_spec(self, other: F32) -> F32 {
        F32 { bits: ops::sum(Width::Single, self.bits as nat, other.bits as nat) as u32 }
    }

    #[verifier::opaque]
    pub open spec fn mul_spec(self, other: F32) -> F32 {
        F32 { bits: ops::product(Width::Single, self.bits as nat, other.bits as nat) as u32 }
    }

    #[verifier::opaque]
    pub open spec fn div_spec(self, other: F32) -> F32 {
        F32 { bits: ops::quotient(Width::Single, self.bits as nat, other.bits as nat) as u32 }
    }

    pub open spec fn neg_spec(self) -> F32 {
        F32 {
            bits: (if self.bits >= 0x8000_0000 {
                self.bits - 0x8000_0000
            } else {
                self.bits + 0x8000_0000
            }) as u32,
        }
    }

    pub open spec fn sub_spec(self, other: F32) -> F32 {
        self.add_spec(other.neg_spec())
    }

    pub open spec fn abs_spec(self) -> F32 {
        F32 {
            bits: (if self.bits >= 0x8000_0000 {
                self.bits - 0x8000_0000
            } else {
                self.bits as int
            }) as u32,
        }
    }

    #[verifier::opaque]
    pub open spec fn sqrt_spec(self) -> F32 {
        F32 { bits: root::square_root(Width::Single, self.bits as nat) as u32 }
    }

    pub open spec fn lt_spec(self, other: F32) -> bool {
        ops::less(Width::Single, self.bits as nat, other.bits as nat)
    }

    pub open spec fn eq_num_spec(self, other: F32) -> bool {
        ops::equal(Width::Single, self.bits as nat, other.bits as nat)
    }

    pub open spec fn le_spec(self, other: F32) -> bool {
        self.lt_spec(other) || self.eq_num_spec(other)
    }

    pub open spec fn min_spec(self, other: F32) -> F32 {
        if self.is_nan_spec() || other.lt_spec(self) {
            other
        } else {
            self
        }
    }

    pub open spec fn max_spec(self, other: F32) -> F32 {
        if self.is_nan_spec() || self.lt_spec(other) {
            other
        } else {
            self
        }
    }

    pub open spec fn clamp_spec(self, lo: F32, hi: F32) -> F32 {
        if self.lt_spec(lo) {
            lo
        } else if hi.lt_spec(self) {
            hi
        } else {
            self
        }
    }

    #[verifier::opaque]
    pub open spec fn of_int(i: int) -> F32 {
        F32 { bits: ops::of_integer(Width::Single, i) as u32 }
    }

    pub fn from_bits(bits: u32) -> (r: F32)
        ensures
            r.bits == bits,
    {
        F32 { bits }
    }

    pub fn to_bits(self) -> (bits: u32)
        ensures
            bits == self.bits,
    {
        self.bits
    }

    #[verifier::when_used_as_spec(is_nan_spec)]
    pub fn is_nan(self) -> (r: bool)
        ensures
            r == self.is_nan_spec(),
    {
        let m: u32 = self.abs().bits;
        m > 0x7F80_0000
    }

    #[verifier::when_used_as_spec(is_finite_spec)]
    pub fn is_finite(self) -> (r: bool)
        ensures
            r == self.is_finite_spec(),
    {
        let m: u32 = self.abs().bits;
        m < 0x7F80_0000
    }

    /// The sum, rounded once.
    #[verifier::when_used_as_spec(add_spec)]
    pub fn add(self, other: F32) -> (r: F32)
        ensures
            r == self.add_spec(other),
    {
        proof {
            reveal(F32::add_spec);
        }
        F32 { bits: ops::add_bits(Width::Single, self.bits as u64, other.bits as u64) as u32 }
    }

    /// The difference, rounded once.
    #[verifier::when_used_as_spec(sub_spec)]
    pub fn sub(self, other: F32) -> (r: F32)
        ensures
            r == self.sub_spec(other),
    {
        self.add(other.neg())
    }

    /// The product, rounded once.
    #[verifier::when_used_as_spec(mul_spec)]
    pub fn mul(self, other: F32) -> (r: F32)
        ensures
            r == self.mul_spec(other),
    {
        proof {
            reveal(F32::mul_spec);
        }
        F32 { bits: ops::mul_bits(Width::Single, self.bits as u64, other.bits as u64) as u32 }
    }

    /// The quotient, rounded once.
    #[verifier::when_used_as_spec(div_spec)]
    pub fn div(self, other: F32) -> (r: F32)
        ensures
            r == self.div_spec(other),
    {
        proof {
            reveal(F32::div_spec);
        }
        F32 { bits: ops::div_bits(Width::Single, self.bits as u64, other.bits as u64) as u32 }
    }

    #[verifier::when_used_as_spec(neg_spec)]
    pub fn neg(self) -> (r: F32)
        ensures
            r == self.neg_spec(),
    {
        if self.bits >= 0x8000_0000 {
            F32 { bits: self.bits - 0x8000_0000 }
        } else {
            F32 { bits: self.bits + 0x8000_0000 }
        }
    }

    #[verifier::when_used_as_spec(abs_spec)]
    pub fn abs(self) -> (r: F32)
        ensures
            r == self.abs_spec(),
    {
        if self.bits >= 0x8000_0000 {
            F32 { bits: self.bits - 0x8000_0000 }
        } else {
            self
        }
    }

    /// The square root, rounded once.
    #[verifier::when_used_as_spec(sqrt_spec)]
    pub fn sqrt(self) -> (r: F32)
        ensures
            r == self.sqrt_spec(),
    {
        proof {
            reveal(F32::sqrt_spec);
        }
        F32 { bits: root::sqrt_bits(Width::Single, self.bits as u64) as u32 }
    }

    #[verifier::when_used_as_spec(lt_spec)]
    pub fn lt(self, other: F32) -> (r: bool)
        ensures
            r == self.lt_spec(other),
    {
        ops::less_bits(Width::Single, self.bits as u64, other.bits as u64)
    }

    #[verifier::when_used_as_spec(le_spec)]
    pub fn le(self, other: F32) -> (r: bool)
        ensures
            r == self.le_spec(other),
    {
        ops::less_bits(Width::Single, self.bits as u64, other.bits as u64) || ops::equal_bits(
            Width::Single,
            self.bits as u64,
            other.bits as u64,
        )
    }

    /// Equality as numbers: the two zeros are equal, a NaN equals nothing.
    #[verifier::when_used_as_spec(eq_num_spec)]
    pub fn eq_num(self, other: F32) -> (r: bool)
        ensures
            r == self.eq_num_spec(other),
    {
        ops::equal_bits(Width::Single, self.bits as u64, other.bits as u64)
    }

    /// The smaller of the two; a NaN gives way to the other.
    #[verifier::when_used_as_spec(min_spec)]
    pub fn min(self, other: F32) -> (r: F32)
        ensures
            r == self.min_spec(other),
    {
        if self.is_nan() || other.lt(self) {
            other
        } else {
            self
        }
    }

    /// The greater of the two; a NaN gives way to the other.
    #[verifier::when_used_as_spec(max_spec)]
    pub fn max(self, other: F32) -> (r: F32)
        ensures
            r == self.max_spec(other),
    {
        if self.is_nan() || self.lt(other) {
            other
        } else {
            self
        }
    }

    /// Held between `lo` and `hi`; a NaN stays one.
    #[verifier::when_used_as_spec(clamp_spec)]
    pub fn clamp(self, lo: F32, hi: F32) -> (r: F32)
        requires
            lo.le_spec(hi),
        ensures
            r == self.clamp_spec(lo, hi),
    {
        if self.lt(lo) {
            lo
        } else if hi.lt(self) {
            hi
        } else {
            self
        }
    }

    /// The float nearest to an unsigned integer.
    pub fn from_u64(i: u64) -> (r: F32)
        ensures
            r == F32::of_int(i as int),
    {
        proof {
            reveal(F32::of_int);
        }
        F32 { bits: ops::from_integer_bits(Width::Single, i as i128) as u32 }
    }

    /// The float nearest to a count.
    pub fn from_usize(i: usize) -> (r: F32)
        ensures
            r == F32::of_int(i as int),
    {
        F32::from_u64(i as u64)
    }

    #[verifier::opaque]
    pub open spec fn to_f64_spec(self) -> F64 {
        F64 { bits: ops::converted(Width::Single, Width::Double, self.bits as nat) as u64 }
    }

    /// The same number as a double.
    #[verifier::when_used_as_spec(to_f64_spec)]
    pub fn to_f64(self) -> (r: F64)
        ensures
            r == self.to_f64_spec(),
    {
        proof {
            reveal(F32::to_f64_spec);
        }
        F64 { bits: ops::convert_bits(Width::Single, Width::Double, self.bits as u64) }
    }
}

} // verus!
