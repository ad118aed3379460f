//! Sums and extremes over sequences of floats, in order.

use crate::float::F64;
use vstd::prelude::*;

verus! {

/// Positive infinity, the start of a search for the least.
pub const INFINITY: u64 = 0x7FF0_0000_0000_0000;

/// Negative infinity, the start of a search for the greatest.
pub const NEG_INFINITY: u64 = 0xFFF0_0000_0000_0000;

/// Negative zero, which adds nothing to anything, not even a sign.
pub const NEG_ZERO: u64 = 0x8000_0000_0000_0000;

/// The values added to `start` one after the other, rounding after each.
pub open spec fn total(start: F64, s: Seq<F64>) -> F64
    decreases s.len(),
{
    if s.len() == 0 {
        start
    } else {
        total(start, s.drop_last()).add_spec(s.last())
    }
}

/// The least of the values; infinity where there are none.
pub open spec fn least(s: Seq<F64>) -> F64
    decreases s.len(),
{
    if s.len() == 0 {
        F64 { bits: INFINITY }
    } else {
        least(s.drop_last()).min_spec(s.last())
    }
}

/// The greatest of the values; negative infinity where there are none.
pub open spec fn greatest(s: Seq<F64>) -> F64
    decreases s.len(),
{
    if s.len() == 0 {
        F64 { bits: NEG_INFINITY }
    } else {
        greatest(s.drop_last()).max_spec(s.last())
    }
}

pub fn total_of(start: F64, v: &Vec<F64>) -> (r: F64)
    ensures
        r == total(start, v@),
{
    let mut acc: F64 = start;
    let mut i: usize = 0;
    while i < v.len()
        invariant
            i <= v@.len(),
            acc == total(start, v@.take(i as int)),
        decreases v@.len() - i,
    {
        assert(v@.take(i + 1).drop_last() =~= v@.take(i as int));
        acc = acc.add(v[i]);
        i = i + 1;
    }
    assert(v@.take(i as int) =~= v@);
    acc
}

pub fn least_of(v: &Vec<F64>) -> (r: F64)
    ensures
        r == least(v@),
{
    let mut acc: F64 = F64 { bits: INFINITY };
    let mut i: usize = 0;
    while i < v.len()
        invariant
            i <= v@.len(),
            acc == least(v@.take(i as int)),
        decreases v@.len() - i,
    {
        assert(v@.take(i + 1).drop_last() =~= v@.take(i as int));
        acc = acc.min(v[i]);
        i = i + 1;
    }
    assert(v@.take(i as int) =~= v@);
    acc
}

pub fn greatest_of(v: &Vec<F64>) -> (r: F64)
    ensures
        r == greatest(v@),
{
    let mut acc: F64 = F64 { bits: NEG_INFINITY };
    let mut i: usize = 0;
    while i < v.len()
        invariant
            i <= v@.len(),
            acc == greatest(v@.take(i as int)),
        decreases v@.len() - i,
    {
        assert(v@.take(i + 1).drop_last() =~= v@.take(i as int));
        acc = acc.max(v[i]);
        i = i + 1;
    }
    assert(v@.take(i as int) =~= v@);
    acc
}

} // verus!
