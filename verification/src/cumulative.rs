//! The cumulative index: the running sums of a frequency table, which give
//! every symbol its slot between two bounds, and the search that finds the
//! symbol whose slot holds a value.

use crate::frequency::{lemma_total_take_next, total, wide_counts_of};
use vstd::prelude::*;

verus! {

/// The bounds of the symbols' slots under a table of counts: under each
/// symbol the sum of the counts before it, and the total at the end. A
/// table whose total is zero gives every symbol a slot of width one.
pub open spec fn cumulative(counts: Seq<nat>) -> Seq<nat> {
    if total(counts) == 0 {
        Seq::new(counts.len() + 1, |i: int| i as nat)
    } else {
        Seq::new(counts.len() + 1, |i: int| total(counts.take(i)))
    }
}

/// What makes a sequence of bounds fit to code with: it has a slot, starts
/// at zero, never decreases, and ends in a positive total.
pub open spec fn is_cumulative(bounds: Seq<nat>) -> bool {
    &&& bounds.len() >= 2
    &&& bounds[0] == 0
    &&& forall|i: int, j: int| 0 <= i <= j < bounds.len() ==> bounds[i] <= bounds[j]
    &&& bounds.last() > 0
}

/// Whether `s` is the last symbol whose lower bound is at most `value`.
pub open spec fn is_symbol_at(bounds: Seq<nat>, value: nat, s: int) -> bool {
    &&& 0 <= s < bounds.len() - 1
    &&& bounds[s] <= value
    &&& forall|j: int| s < j < bounds.len() - 1 ==> value < bounds[j]
}

/// The last symbol whose lower bound is at most `value`.
pub open spec fn symbol_at(bounds: Seq<nat>, value: nat) -> int {
    choose|s: int| is_symbol_at(bounds, value, s)
}

/// The sums of the counts before each symbol never decrease, and a symbol
/// with a positive count lies strictly under every symbol after it.
pub proof fn lemma_prefix_totals_ordered(counts: Seq<nat>, i: int, j: int)
    requires
        0 <= i <= j <= counts.len(),
    ensures
        total(counts.take(i)) <= total(counts.take(j)),
        i < j ==> total(counts.take(i)) + counts[i] <= total(counts.take(j)),
    decreases j - i,
{
    if i < j {
        lemma_prefix_totals_ordered(counts, i, j - 1);
        lemma_total_take_next(counts, j - 1);
    }
}

/// The bounds under a table never decrease; they rise from a symbol with a
/// positive count to the symbol that follows it, and so to every later one.
/// The first bound is zero and the last is the table's total, or the number
/// of symbols where that total is zero.
pub proof fn lemma_cumulative_monotone(counts: Seq<nat>)
    ensures
        cumulative(counts).len() == counts.len() + 1,
        cumulative(counts)[0] == 0,
        cumulative(counts).last() == if total(counts) == 0 {
            counts.len()
        } else {
            total(counts)
        },
        forall|i: int, j: int|
            0 <= i <= j <= counts.len() ==> cumulative(counts)[i] <= cumulative(counts)[j],
        forall|i: int, j: int|
            0 <= i < j <= counts.len() && counts[i] > 0 ==> cumulative(counts)[i] < cumulative(
                counts,
            )[j],
        forall|i: int|
            0 <= i < counts.len() && total(counts) > 0 ==> cumulative(counts)[i + 1]
                == cumulative(counts)[i] + counts[i],
{
    let bounds = cumulative(counts);
    assert(counts.take(counts.len() as int) =~= counts);
    assert(counts.take(0) =~= Seq::<nat>::empty());
    assert forall|i: int, j: int| 0 <= i <= j <= counts.len() implies bounds[i] <= bounds[j] by {
        lemma_prefix_totals_ordered(counts, i, j);
    }
    assert forall|i: int, j: int| 0 <= i < j <= counts.len() && counts[i] > 0 implies bounds[i]
        < bounds[j] by {
        lemma_prefix_totals_ordered(counts, i, j);
        if total(counts) == 0 {
            crate::frequency::lemma_total_zero(counts);
        }
    }
    assert forall|i: int| 0 <= i < counts.len() && total(counts) > 0 implies bounds[i + 1]
        == bounds[i] + counts[i] by {
        lemma_total_take_next(counts, i);
    }
}

/// The bounds under a table that has a symbol are fit to code with.
pub proof fn lemma_cumulative_is_cumulative(counts: Seq<nat>)
    requires
        counts.len() >= 1,
    ensures
        is_cumulative(cumulative(counts)),
{
    lemma_cumulative_monotone(counts);
}

/// Under bounds that never decrease, the symbol whose slot holds a value is
/// the only one that `symbol_at` can be.
pub proof fn lemma_symbol_at_slot(bounds: Seq<nat>, value: nat, s: int)
    requires
        is_cumulative(bounds),
        0 <= s < bounds.len() - 1,
        bounds[s] <= value,
        s == bounds.len() - 2 || value < bounds[s + 1],
    ensures
        is_symbol_at(bounds, value, s),
        symbol_at(bounds, value) == s,
{
    assert(is_symbol_at(bounds, value, s));
    let t = symbol_at(bounds, value);
    assert(is_symbol_at(bounds, value, t));
    if t < s {
        assert(value < bounds[s]);
    } else if s < t {
        assert(bounds[s + 1] <= bounds[t]);
    }
}

/// Every value has its symbol, whose lower bound is at most the value and
/// whose upper bound, unless the symbol is the last, is over it.
pub proof fn lemma_symbol_at_exists(bounds: Seq<nat>, value: nat)
    requires
        is_cumulative(bounds),
    ensures
        is_symbol_at(bounds, value, symbol_at(bounds, value)),
        symbol_at(bounds, value) < bounds.len() - 2 ==> value < bounds[symbol_at(bounds, value)
            + 1],
{
    lemma_symbol_search(bounds, value, 0, bounds.len() - 1);
}

proof fn lemma_symbol_search(bounds: Seq<nat>, value: nat, lo: int, hi: int)
    requires
        is_cumulative(bounds),
        0 <= lo < hi <= bounds.len() - 1,
        bounds[lo] <= value,
        hi < bounds.len() - 1 ==> value < bounds[hi],
    ensures
        is_symbol_at(bounds, value, symbol_at(bounds, value)),
    decreases hi - lo,
{
    if lo + 1 == hi {
        lemma_symbol_at_slot(bounds, value, lo);
    } else if bounds[lo + 1] <= value {
        lemma_symbol_search(bounds, value, lo + 1, hi);
    } else {
        lemma_symbol_search(bounds, value, lo, lo + 1);
    }
}

/// Builds the bounds of the symbols' slots under a table: the running sums
/// of its counts, or, where they add up to zero, the numbers from 0 on.
pub fn build_cumulative(freq: &[u32]) -> (cumulative: Vec<u64>)
    requires
        freq@.len() < 0xFFFF_FFFF,
    ensures
        wide_counts_of(cumulative@) == self::cumulative(crate::frequency::counts_of(freq@)),
        cumulative@.len() == freq@.len() + 1,
{
    let ghost counts = crate::frequency::counts_of(freq@);
    let mut cumulative: Vec<u64> = Vec::with_capacity(freq.len() + 1);
    cumulative.push(0);
    let mut sum: u64 = 0;
    let mut i: usize = 0;
    assert(counts.take(0) =~= Seq::<nat>::empty());
    while i < freq.len()
        invariant
            i <= freq.len(),
            freq@.len() < 0xFFFF_FFFF,
            counts == crate::frequency::counts_of(freq@),
            cumulative@.len() == i + 1,
            sum == total(counts.take(i as int)),
            sum <= i * 0xFFFF_FFFF,
            forall|j: int| 0 <= j <= i ==> cumulative@[j] == total(counts.take(j)),
        decreases freq.len() - i,
    {
        proof {
            lemma_total_take_next(counts, i as int);
        }
        sum = sum + freq[i] as u64;
        cumulative.push(sum);
        i = i + 1;
    }
    assert(counts.take(i as int) =~= counts);
    if sum == 0 {
        let mut k: usize = 0;
        while k < freq.len()
            invariant
                k <= freq.len(),
                freq@.len() < 0xFFFF_FFFF,
                cumulative@.len() == freq@.len() + 1,
                cumulative@[0] == 0,
                forall|j: int| 0 <= j <= k ==> cumulative@[j] == j,
            decreases freq.len() - k,
        {
            cumulative.set(k + 1, (k + 1) as u64);
            k = k + 1;
        }
    }
    assert(wide_counts_of(cumulative@) =~= self::cumulative(counts));
    cumulative
}

/// Finds the last symbol whose lower bound is at most `value`, by halving
/// the range of symbols that can still be it.
pub fn find_symbol(cumulative: &[u64], value: u64) -> (symbol: u32)
    requires
        is_cumulative(wide_counts_of(cumulative@)),
        cumulative@.len() <= 0xFFFF_FFFF,
    ensures
        symbol == symbol_at(wide_counts_of(cumulative@), value as nat),
        is_symbol_at(wide_counts_of(cumulative@), value as nat, symbol as int),
{
    let ghost bounds = wide_counts_of(cumulative@);
    let mut lo: u32 = 0;
    let mut hi: u32 = (cumulative.len() - 1) as u32;
    while lo + 1 < hi
        invariant
            bounds == wide_counts_of(cumulative@),
            is_cumulative(bounds),
            0 <= lo < hi <= cumulative@.len() - 1,
            cumulative@.len() <= 0xFFFF_FFFF,
            bounds[lo as int] <= value,
            hi < cumulative@.len() - 1 ==> value < bounds[hi as int],
        decreases hi - lo,
    {
        let mid: u32 = lo + (hi - lo) / 2;
        if cumulative[mid as usize] > value {
            hi = mid;
        } else {
            lo = mid;
        }
    }
    proof {
        lemma_symbol_at_slot(bounds, value as nat, lo as int);
    }
    lo
}

} // verus!
