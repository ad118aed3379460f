//! Stable sorting, as a specification.

use vstd::prelude::*;
use vstd::seq_lib::*;

verus! {

/// Where `x` goes in `s`: behind everything that it does not come before.
pub open spec fn slot<T>(s: Seq<T>, x: T, less: spec_fn(T, T) -> bool) -> nat
    decreases s.len(),
{
    if s.len() == 0 {
        0
    } else if less(x, s.last()) {
        slot(s.drop_last(), x, less)
    } else {
        s.len()
    }
}

/// `s` sorted, items that are alike in the order in which they came.
pub open spec fn sorted_by<T>(s: Seq<T>, less: spec_fn(T, T) -> bool) -> Seq<T>
    decreases s.len(),
{
    if s.len() == 0 {
        s
    } else {
        let rest = sorted_by(s.drop_last(), less);
        rest.insert(slot(rest, s.last(), less) as int, s.last())
    }
}

/// No item comes before one that stands in front of it.
pub open spec fn ordered<T>(s: Seq<T>, less: spec_fn(T, T) -> bool) -> bool {
    forall|i: int, j: int| 0 <= i < j < s.len() ==> !less(#[trigger] s[j], #[trigger] s[i])
}

/// What an order has to satisfy for sorting by it to make sense.
pub open spec fn is_order<T>(less: spec_fn(T, T) -> bool) -> bool {
    &&& forall|a: T, b: T| #[trigger] less(a, b) ==> !less(b, a)
    &&& forall|a: T, b: T, c: T|
        !(#[trigger] less(a, b)) && !(#[trigger] less(b, c)) ==> !less(a, c)
}

pub proof fn lemma_slot<T>(s: Seq<T>, x: T, less: spec_fn(T, T) -> bool)
    ensures
        slot(s, x, less) <= s.len(),
        forall|i: int| slot(s, x, less) <= i < s.len() ==> less(x, #[trigger] s[i]),
        slot(s, x, less) > 0 ==> !less(x, s[slot(s, x, less) - 1]),
    decreases s.len(),
{
    if s.len() > 0 && less(x, s.last()) {
        let rest = s.drop_last();
        lemma_slot(rest, x, less);
        assert forall|i: int| slot(s, x, less) <= i < s.len() implies less(x, #[trigger] s[i]) by {
            if i < rest.len() {
                assert(rest[i] == s[i]);
            }
        }
    }
}

/// Sorting keeps the number of items.
pub proof fn lemma_sorted_len<T>(s: Seq<T>, less: spec_fn(T, T) -> bool)
    ensures
        sorted_by(s, less).len() == s.len(),
    decreases s.len(),
{
    if s.len() > 0 {
        lemma_sorted_len(s.drop_last(), less);
        lemma_slot(sorted_by(s.drop_last(), less), s.last(), less);
    }
}

/// Sorting loses nothing and adds nothing.
pub proof fn law_sorting_keeps_the_items<T>(s: Seq<T>, less: spec_fn(T, T) -> bool)
    ensures
        sorted_by(s, less).to_multiset() == s.to_multiset(),
    decreases s.len(),
{
    broadcast use group_to_multiset_ensures;

    if s.len() > 0 {
        let body = s.drop_last();
        let rest = sorted_by(body, less);
        law_sorting_keeps_the_items(body, less);
        lemma_slot(rest, s.last(), less);
        assert(s =~= body.push(s.last()));
    }
}

/// What comes out of sorting is in order.
pub proof fn law_sorting_orders<T>(s: Seq<T>, less: spec_fn(T, T) -> bool)
    requires
        is_order(less),
    ensures
        ordered(sorted_by(s, less), less),
    decreases s.len(),
{
    if s.len() > 0 {
        let rest = sorted_by(s.drop_last(), less);
        let x = s.last();
        let k = slot(rest, x, less) as int;
        law_sorting_orders(s.drop_last(), less);
        lemma_slot(rest, x, less);
        let out = sorted_by(s, less);
        assert forall|i: int, j: int| 0 <= i < j < out.len() implies !less(
            #[trigger] out[j],
            #[trigger] out[i],
        ) by {
            if j < k {
                assert(out[j] == rest[j] && out[i] == rest[i]);
            } else if j == k {
                assert(out[j] == x && out[i] == rest[i]);
                if i < k - 1 {
                    assert(!less(rest[k - 1], rest[i]));
                    assert(!less(x, rest[k - 1]));
                }
            } else if i > k {
                assert(out[j] == rest[j - 1] && out[i] == rest[i - 1]);
            } else if i == k {
                assert(out[j] == rest[j - 1] && out[i] == x);
                assert(less(x, rest[j - 1]));
            } else {
                assert(out[j] == rest[j - 1] && out[i] == rest[i]);
            }
        }
    }
}

} // verus!
