//! The frequency model: a histogram of the input, scaled to fit the coder's precision.

use vstd::prelude::*;

verus! {

/// Number of symbols in the alphabet: the 256 byte values and the end-of-stream symbol.
pub const SYMBOL_LIMIT: usize = 257;

/// The symbol that ends every coded message.
pub const EOF_SYMBOL: usize = 256;

/// The precision ceiling: the largest total that a table keeps unscaled.
pub const MAX_TOTAL: u32 = 0x0100_0000;

/// The counts of a table, as natural numbers.
pub open spec fn counts_of(table: Seq<u32>) -> Seq<nat> {
    Seq::new(table.len(), |i: int| table[i] as nat)
}

/// The counts of a wide table, as natural numbers.
pub open spec fn wide_counts_of(table: Seq<u64>) -> Seq<nat> {
    Seq::new(table.len(), |i: int| table[i] as nat)
}

/// Sum of all counts of a table.
pub open spec fn total(counts: Seq<nat>) -> nat
    decreases counts.len(),
{
    if counts.len() == 0 {
        0
    } else {
        total(counts.drop_last()) + counts.last()
    }
}

/// How often the byte `b` occurs in `data`.
pub open spec fn occurrences(data: Seq<u8>, b: int) -> nat
    decreases data.len(),
{
    if data.len() == 0 {
        0
    } else {
        occurrences(data.drop_last(), b) + if data.last() == b {
            1nat
        } else {
            0nat
        }
    }
}

/// The unscaled table of `data`: each byte value with its number of
/// occurrences, and the end-of-stream symbol with count 1.
pub open spec fn histogram(data: Seq<u8>) -> Seq<nat> {
    Seq::new(
        SYMBOL_LIMIT as nat,
        |s: int|
            if s == EOF_SYMBOL {
                1nat
            } else {
                occurrences(data, s)
            },
    )
}

/// One count scaled down in proportion `MAX_TOTAL / sum`, rounded down, but
/// never from a positive count to zero.
pub open spec fn scaled_count(count: nat, sum: nat) -> nat {
    if count == 0 {
        0
    } else if count * (MAX_TOTAL as nat) / sum == 0 {
        1
    } else {
        count * (MAX_TOTAL as nat) / sum
    }
}

/// Every count of a table scaled by `scaled_count`.
pub open spec fn scaled(counts: Seq<nat>) -> Seq<nat> {
    Seq::new(counts.len(), |i: int| scaled_count(counts[i], total(counts)))
}

/// The count that every symbol gets when scaling leaves nothing.
pub open spec fn flat_count(len: nat) -> nat {
    if len == 0 || (MAX_TOTAL as nat) / len == 0 {
        1
    } else {
        (MAX_TOTAL as nat) / len
    }
}

/// A table brought under the precision ceiling. One that is under it
/// already stays as it is.
pub open spec fn rescaled(counts: Seq<nat>) -> Seq<nat> {
    if total(counts) <= MAX_TOTAL {
        counts
    } else if total(scaled(counts)) == 0 {
        Seq::new(counts.len(), |i: int| flat_count(counts.len()))
    } else {
        scaled(counts)
    }
}

/// The table under which `data` is coded.
pub open spec fn model(data: Seq<u8>) -> Seq<nat> {
    rescaled(histogram(data))
}

/// Scaling is idle on a table that conforms: one whose total is at most
/// the precision ceiling is left as it is.
pub proof fn lemma_rescaled_conforming(counts: Seq<nat>)
    requires
        total(counts) <= MAX_TOTAL,
    ensures
        rescaled(counts) == counts,
{
}

/// The total of a table grows by the count that is appended.
pub proof fn lemma_total_push(counts: Seq<nat>, count: nat)
    ensures
        total(counts.push(count)) == total(counts) + count,
{
    assert(counts.push(count).drop_last() =~= counts);
}

/// No count of a table is larger than the table's total.
pub proof fn lemma_count_le_total(counts: Seq<nat>, i: int)
    requires
        0 <= i < counts.len(),
    ensures
        counts[i] <= total(counts),
    decreases counts.len(),
{
    if i < counts.len() - 1 {
        lemma_count_le_total(counts.drop_last(), i);
    }
}

/// A table with a positive count has a positive total.
pub proof fn lemma_total_positive(counts: Seq<nat>, i: int)
    requires
        0 <= i < counts.len(),
        counts[i] > 0,
    ensures
        total(counts) > 0,
{
    lemma_count_le_total(counts, i);
}

/// The total of a table of zeros is zero, and only of such a table.
pub proof fn lemma_total_zero(counts: Seq<nat>)
    ensures
        total(counts) == 0 <==> (forall|i: int| 0 <= i < counts.len() ==> counts[i] == 0),
    decreases counts.len(),
{
    if counts.len() > 0 {
        lemma_total_zero(counts.drop_last());
        if total(counts) == 0 {
            assert forall|i: int| 0 <= i < counts.len() implies counts[i] == 0 by {
                if i < counts.len() - 1 {
                    assert(counts.drop_last()[i] == counts[i]);
                }
            }
        } else if forall|i: int| 0 <= i < counts.len() ==> counts[i] == 0 {
            assert forall|i: int| 0 <= i < counts.drop_last().len() implies counts.drop_last()[i]
                == 0 by {
                assert(counts.drop_last()[i] == counts[i]);
            }
        }
    }
}

/// The total of the first `n + 1` counts is that of the first `n` and the next count.
pub proof fn lemma_total_take_next(counts: Seq<nat>, n: int)
    requires
        0 <= n < counts.len(),
    ensures
        total(counts.take(n + 1)) == total(counts.take(n)) + counts[n],
{
    assert(counts.take(n + 1).drop_last() =~= counts.take(n));
}

/// Scaling keeps a count within the ceiling, at or under its old value, and
/// positive where it was positive.
pub proof fn lemma_scaled_count_bounds(count: nat, sum: nat)
    requires
        count <= sum,
        sum > MAX_TOTAL,
    ensures
        scaled_count(count, sum) <= count,
        scaled_count(count, sum) <= MAX_TOTAL,
        count > 0 ==> scaled_count(count, sum) > 0,
{
    let c: nat = MAX_TOTAL as nat;
    assert(count * c / sum <= count && count * c / sum <= c) by (nonlinear_arith)
        requires
            count <= sum,
            sum > c,
            c > 0,
    ;
}

/// Scaling never leaves a table without a positive count, so the reset to
/// `flat_count` is never taken.
pub proof fn lemma_rescaled_over_ceiling(counts: Seq<nat>)
    requires
        total(counts) > MAX_TOTAL,
    ensures
        rescaled(counts) == scaled(counts),
        total(scaled(counts)) > 0,
{
    lemma_total_zero(counts);
    let i: int = choose|i: int| 0 <= i < counts.len() && counts[i] != 0;
    lemma_count_le_total(counts, i);
    lemma_scaled_count_bounds(counts[i], total(counts));
    assert(scaled(counts)[i] > 0);
    lemma_total_positive(scaled(counts), i);
}

/// Scaling keeps every symbol that has a count, and gives none to a
/// symbol that has none: a count is over zero after scaling exactly where
/// it was before.
pub proof fn lemma_rescaled_keeps_symbols(counts: Seq<nat>, i: int)
    requires
        0 <= i < counts.len(),
    ensures
        rescaled(counts).len() == counts.len(),
        rescaled(counts)[i] > 0 <==> counts[i] > 0,
        rescaled(counts)[i] <= counts[i],
{
    if total(counts) > MAX_TOTAL {
        lemma_rescaled_over_ceiling(counts);
        lemma_count_le_total(counts, i);
        lemma_scaled_count_bounds(counts[i], total(counts));
    }
}

proof fn lemma_scaled_count_weight(count: nat, sum: nat)
    by (nonlinear_arith)
    requires
        sum > 0,
    ensures
        (count * 0x0100_0000 / sum) * sum <= count * 0x0100_0000,
{
}

proof fn lemma_scaled_prefix(counts: Seq<nat>, k: int)
    requires
        0 <= k <= counts.len(),
        total(counts) > MAX_TOTAL,
    ensures
        total(scaled(counts).take(k)) * total(counts) <= 0x0100_0000 * total(counts.take(k)) + k
            * total(counts),
    decreases k,
{
    let sum: nat = total(counts);
    if k == 0 {
        assert(scaled(counts).take(0) =~= Seq::<nat>::empty());
        assert(counts.take(0) =~= Seq::<nat>::empty());
        assert(0 * sum == 0) by (nonlinear_arith);
    } else {
        lemma_scaled_prefix(counts, k - 1);
        lemma_total_take_next(scaled(counts), k - 1);
        lemma_total_take_next(counts, k - 1);
        lemma_scaled_count_weight(counts[k - 1], sum);
        let before: nat = total(scaled(counts).take(k - 1));
        let next: nat = scaled(counts)[k - 1];
        let raw: nat = total(counts.take(k - 1));
        assert(next * sum <= counts[k - 1] * 0x0100_0000 + sum) by (nonlinear_arith)
            requires
                next == scaled_count(counts[k - 1], sum),
                (counts[k - 1] * 0x0100_0000 / sum) * sum <= counts[k - 1] * 0x0100_0000,
                sum > 0,
        ;
        assert((before + next) * sum == before * sum + next * sum) by (nonlinear_arith);
        assert(0x0100_0000 * (raw + counts[k - 1]) == 0x0100_0000 * raw + counts[k - 1]
            * 0x0100_0000) by (nonlinear_arith);
        assert(k * sum == (k - 1) * sum + sum) by (nonlinear_arith);
    }
}

/// The total of a scaled table is within the precision ceiling but for
/// the counts that were kept from becoming zero: at most one over the
/// ceiling for each symbol.
pub proof fn lemma_rescaled_total(counts: Seq<nat>)
    ensures
        total(rescaled(counts)) <= MAX_TOTAL + counts.len(),
        total(counts) <= MAX_TOTAL ==> total(rescaled(counts)) == total(counts),
{
    if total(counts) > MAX_TOTAL {
        let sum: nat = total(counts);
        let n: nat = counts.len();
        lemma_rescaled_over_ceiling(counts);
        lemma_scaled_prefix(counts, n as int);
        assert(scaled(counts).take(n as int) =~= scaled(counts));
        assert(counts.take(n as int) =~= counts);
        let t: nat = total(scaled(counts));
        assert(t <= 0x0100_0000 + n) by (nonlinear_arith)
            requires
                t * sum <= 0x0100_0000 * sum + n * sum,
                sum > 0,
        ;
    }
}

/// No byte value occurs more often than there are bytes.
pub proof fn lemma_occurrences_bounds(data: Seq<u8>, b: int)
    ensures
        occurrences(data, b) <= data.len(),
    decreases data.len(),
{
    if data.len() > 0 {
        lemma_occurrences_bounds(data.drop_last(), b);
    }
}

/// A byte of a message occurs in it.
pub proof fn lemma_occurrence(data: Seq<u8>, i: int)
    requires
        0 <= i < data.len(),
    ensures
        occurrences(data, data[i] as int) >= 1,
    decreases data.len(),
{
    if i < data.len() - 1 {
        lemma_occurrence(data.drop_last(), i);
    }
}

/// What holds of the table of every message: it is over the coder's 257
/// symbols; every byte of the message and the end-of-stream symbol have a
/// count over zero, and no other symbol has; its total is at most 257
/// over the precision ceiling; and a message that is shorter than the
/// ceiling has its table unscaled, with as many counts as it has bytes,
/// and one.
pub proof fn lemma_model_invariant(data: Seq<u8>)
    ensures
        model(data).len() == SYMBOL_LIMIT,
        model(data)[EOF_SYMBOL as int] == 1,
        forall|i: int| 0 <= i < data.len() ==> model(data)[#[trigger] data[i] as int] >= 1,
        forall|b: int| 0 <= b < 256 ==> (model(data)[b] > 0 <==> occurrences(data, b) > 0),
        1 <= total(model(data)) <= MAX_TOTAL + SYMBOL_LIMIT,
        data.len() < MAX_TOTAL ==> model(data) == histogram(data) && total(model(data))
            == data.len() + 1,
{
    let raw = histogram(data);
    lemma_histogram_total(data);
    lemma_rescaled_total(raw);
    lemma_rescaled_keeps_symbols(raw, EOF_SYMBOL as int);
    assert forall|i: int| 0 <= i < data.len() implies model(data)[#[trigger] data[i] as int]
        >= 1 by {
        lemma_occurrence(data, i);
        lemma_rescaled_keeps_symbols(raw, data[i] as int);
    }
    assert forall|b: int| 0 <= b < 256 implies (model(data)[b] > 0 <==> occurrences(data, b)
        > 0) by {
        lemma_rescaled_keeps_symbols(raw, b);
    }
    lemma_total_positive(model(data), EOF_SYMBOL as int);
}

/// The total of a histogram is the length of the data and one.
pub proof fn lemma_histogram_total(data: Seq<u8>)
    ensures
        total(histogram(data)) == data.len() + 1,
{
    lemma_occurrences_total(data);
    lemma_total_push(histogram(data).drop_last(), 1);
    assert(histogram(data).drop_last().push(1) =~= histogram(data));
    assert(histogram(data).drop_last() =~= Seq::new(256, |s: int| occurrences(data, s)));
}

/// How many bytes of `data` are under `n`.
spec fn below(data: Seq<u8>, n: int) -> nat
    decreases data.len(),
{
    if data.len() == 0 {
        0
    } else {
        below(data.drop_last(), n) + if data.last() < n {
            1nat
        } else {
            0nat
        }
    }
}

proof fn lemma_below_all(data: Seq<u8>)
    ensures
        below(data, 256) == data.len(),
    decreases data.len(),
{
    if data.len() > 0 {
        lemma_below_all(data.drop_last());
    }
}

proof fn lemma_below_step(data: Seq<u8>, n: int)
    ensures
        below(data, n + 1) == below(data, n) + occurrences(data, n),
    decreases data.len(),
{
    if data.len() > 0 {
        lemma_below_step(data.drop_last(), n);
    }
}

proof fn lemma_below_none(data: Seq<u8>)
    ensures
        below(data, 0) == 0,
    decreases data.len(),
{
    if data.len() > 0 {
        lemma_below_none(data.drop_last());
    }
}

proof fn lemma_occurrences_prefix(data: Seq<u8>, n: int)
    requires
        0 <= n <= 256,
    ensures
        total(Seq::new(n as nat, |s: int| occurrences(data, s))) == below(data, n),
    decreases n,
{
    let t = Seq::new(n as nat, |s: int| occurrences(data, s));
    if n == 0 {
        lemma_below_none(data);
    } else {
        lemma_occurrences_prefix(data, n - 1);
        assert(t.drop_last() =~= Seq::new((n - 1) as nat, |s: int| occurrences(data, s)));
        lemma_below_step(data, n - 1);
    }
}

proof fn lemma_occurrences_total(data: Seq<u8>)
    ensures
        total(Seq::new(256, |s: int| occurrences(data, s))) == data.len(),
{
    lemma_occurrences_prefix(data, 256);
    lemma_below_all(data);
}

/// Sum of the counts of a wide table.
fn sum_counts(counts: &Vec<u64>) -> (sum: u128)
    ensures
        sum == total(wide_counts_of(counts@)),
{
    let ghost all = wide_counts_of(counts@);
    let mut sum: u128 = 0;
    let mut i: usize = 0;
    while i < counts.len()
        invariant
            i <= counts.len(),
            all == wide_counts_of(counts@),
            sum == total(all.take(i as int)),
            sum <= i * 0xFFFF_FFFF_FFFF_FFFF,
        decreases counts.len() - i,
    {
        proof {
            lemma_total_take_next(all, i as int);
        }
        sum = sum + counts[i] as u128;
        i = i + 1;
    }
    assert(all.take(i as int) =~= all);
    sum
}

/// One count of a table whose total `sum` is over the ceiling, scaled.
fn scale_count(count: u64, sum: u128) -> (r: u32)
    requires
        count <= sum,
        sum > MAX_TOTAL,
    ensures
        r == scaled_count(count as nat, sum as nat),
{
    if count == 0 {
        return 0;
    }
    proof {
        lemma_scaled_count_bounds(count as nat, sum as nat);
    }
    let scaled: u128 = (count as u128 * MAX_TOTAL as u128) / sum;
    if scaled == 0 {
        1
    } else {
        scaled as u32
    }
}

/// The table of `counts` brought under the precision ceiling.
fn rescale_counts(counts: &Vec<u64>) -> (table: Vec<u32>)
    ensures
        counts_of(table@) == rescaled(wide_counts_of(counts@)),
{
    let ghost all = wide_counts_of(counts@);
    let sum = sum_counts(counts);
    let mut table: Vec<u32> = Vec::with_capacity(counts.len());
    let mut i: usize = 0;
    if sum <= MAX_TOTAL as u128 {
        while i < counts.len()
            invariant
                i <= counts.len(),
                table@.len() == i,
                all == wide_counts_of(counts@),
                total(all) <= MAX_TOTAL,
                forall|j: int| 0 <= j < i ==> table@[j] == counts@[j],
            decreases counts.len() - i,
        {
            proof {
                lemma_count_le_total(all, i as int);
            }
            table.push(counts[i] as u32);
            i = i + 1;
        }
        assert(counts_of(table@) =~= all);
        return table;
    }
    let mut new_total: u128 = 0;
    while i < counts.len()
        invariant
            i <= counts.len(),
            table@.len() == i,
            all == wide_counts_of(counts@),
            sum == total(all),
            sum > MAX_TOTAL,
            forall|j: int| 0 <= j < i ==> table@[j] == scaled(all)[j],
            new_total == total(scaled(all).take(i as int)),
            new_total <= i * 0xFFFF_FFFF,
        decreases counts.len() - i,
    {
        proof {
            lemma_count_le_total(all, i as int);
            lemma_total_take_next(scaled(all), i as int);
        }
        let count = scale_count(counts[i], sum);
        table.push(count);
        new_total = new_total + count as u128;
        i = i + 1;
    }
    assert(scaled(all).take(i as int) =~= scaled(all));
    if new_total == 0 {
        proof {
            let n: nat = counts@.len();
            let c: nat = MAX_TOTAL as nat;
            assert(n > c ==> c / n == 0) by (nonlinear_arith)
                requires
                    c > 0,
            ;
            assert(0 < n <= c ==> c / n > 0) by (nonlinear_arith);
        }
        let base: u32 = if counts.len() == 0 || counts.len() > MAX_TOTAL as usize {
            1
        } else {
            MAX_TOTAL / (counts.len() as u32)
        };
        let mut flat: Vec<u32> = Vec::with_capacity(counts.len());
        let mut k: usize = 0;
        while k < counts.len()
            invariant
                k <= counts.len(),
                flat@.len() == k,
                base == flat_count(counts@.len()),
                forall|j: int| 0 <= j < k ==> flat@[j] == base,
            decreases counts.len() - k,
        {
            flat.push(base);
            k = k + 1;
        }
        assert(counts_of(flat@) =~= rescaled(all));
        return flat;
    }
    assert(counts_of(table@) =~= scaled(all));
    table
}

/// Brings a table under the precision ceiling.
///
/// A table whose total is at most `MAX_TOTAL` is left as it is. Otherwise
/// every count is scaled by `MAX_TOTAL / total`, rounded down, and a positive
/// count that would become zero becomes one. Were that to leave a table of
/// zeros, every symbol would get the count `flat_count`.
pub fn scale_frequencies(freq: &mut Vec<u32>)
    ensures
        counts_of(final(freq)@) == rescaled(counts_of(old(freq)@)),
        final(freq)@.len() == old(freq)@.len(),
        total(counts_of(old(freq)@)) <= MAX_TOTAL ==> final(freq)@ == old(freq)@,
{
    let mut wide: Vec<u64> = Vec::with_capacity(freq.len());
    let mut i: usize = 0;
    while i < freq.len()
        invariant
            i <= freq.len(),
            wide@.len() == i,
            forall|j: int| 0 <= j < i ==> wide@[j] == freq@[j],
        decreases freq.len() - i,
    {
        wide.push(freq[i] as u64);
        i = i + 1;
    }
    assert(wide_counts_of(wide@) =~= counts_of(freq@));
    let table = rescale_counts(&wide);
    proof {
        assert(counts_of(table@).len() == table@.len());
        if total(counts_of(freq@)) <= MAX_TOTAL {
            assert forall|j: int| 0 <= j < table@.len() implies table@[j] == freq@[j] by {
                assert(counts_of(table@)[j] == counts_of(freq@)[j]);
            }
            assert(table@ =~= freq@);
        }
    }
    *freq = table;
}

/// Builds the table under which `data` is coded: the number of occurrences
/// of each byte value, count 1 for the end-of-stream symbol, the whole
/// brought under the precision ceiling.
pub fn build_frequencies(data: &[u8]) -> (freq: Vec<u32>)
    ensures
        freq@.len() == SYMBOL_LIMIT,
        counts_of(freq@) == model(data@),
        freq@[EOF_SYMBOL as int] == 1,
        forall|i: int| 0 <= i < data@.len() ==> freq@[#[trigger] data@[i] as int] >= 1,
        total(counts_of(freq@)) <= MAX_TOTAL + SYMBOL_LIMIT,
{
    proof {
        lemma_model_invariant(data@);
    }
    let mut counts: Vec<u64> = vec![0u64; SYMBOL_LIMIT];
    let mut i: usize = 0;
    while i < data.len()
        invariant
            i <= data.len(),
            counts@.len() == SYMBOL_LIMIT,
            forall|s: int| 0 <= s < 256 ==> counts@[s] == occurrences(data@.take(i as int), s),
            forall|s: int| 0 <= s < 256 ==> counts@[s] <= i,
            counts@[256] == 0,
        decreases data.len() - i,
    {
        let b = data[i] as usize;
        assert(data@.take(i + 1).drop_last() =~= data@.take(i as int));
        counts.set(b, counts[b] + 1);
        i = i + 1;
    }
    assert(data@.take(i as int) =~= data@);
    counts.set(EOF_SYMBOL, 1);
    assert(wide_counts_of(counts@) =~= histogram(data@));
    let freq = rescale_counts(&counts);
    assert(counts_of(freq@).len() == freq@.len());
    freq
}

} // verus!
