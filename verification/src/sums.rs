//! The total grain count of a grid, and how it behaves under updates.
//!
//! The sum of all cells is the quantity that a topple step conserves:
//! taking four grains from one cell and handing one to each of its four
//! neighbors leaves the total unchanged.

use vstd::prelude::*;

verus! {

/// Sum of all grain counts in a grid.
pub open spec fn total(s: Seq<u32>) -> int
    decreases s.len(),
{
    if s.len() == 0 {
        0
    } else {
        total(s.drop_last()) + s.last()
    }
}

/// A sum of grain counts is nonnegative.
pub proof fn lemma_total_nonneg(s: Seq<u32>)
    ensures
        total(s) >= 0,
    decreases s.len(),
{
    if s.len() > 0 {
        lemma_total_nonneg(s.drop_last());
    }
}

/// Appending a cell adds its count to the total.
pub proof fn lemma_total_push(s: Seq<u32>, v: u32)
    ensures
        total(s.push(v)) == total(s) + v,
{
    assert(s.push(v).drop_last() =~= s);
    assert(s.push(v).last() == v);
}

/// Overwriting one cell changes the total by the difference between the
/// new and the old count.
pub proof fn lemma_total_update(s: Seq<u32>, i: int, v: u32)
    requires
        0 <= i < s.len(),
    ensures
        total(s.update(i, v)) == total(s) - s[i] + v,
    decreases s.len(),
{
    if i == s.len() - 1 {
        assert(s.update(i, v).drop_last() =~= s.drop_last());
        assert(s.update(i, v).last() == v);
    } else {
        assert(s.update(i, v).drop_last() =~= s.drop_last().update(i, v));
        assert(s.update(i, v).last() == s.last());
        lemma_total_update(s.drop_last(), i, v);
    }
}

/// No single cell holds more grains than the whole grid does.
pub proof fn lemma_element_le_total(s: Seq<u32>, i: int)
    requires
        0 <= i < s.len(),
    ensures
        s[i] <= total(s),
    decreases s.len(),
{
    if i == s.len() - 1 {
        lemma_total_nonneg(s.drop_last());
    } else {
        lemma_element_le_total(s.drop_last(), i);
    }
}

} // verus!
