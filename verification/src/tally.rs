//! Splitting a run of trials among workers and adding up what they report.

use vstd::prelude::*;

verus! {

/// The number of workers among which a run is split.
pub const NUM_THREADS: i64 = 20;

/// The number of trials that each worker runs: the twentieth part of the
/// run, rounded down. Trials beyond a multiple of twenty are not run. A
/// run of no trials, or of fewer, gives each worker none.
pub open spec fn batch_size(sample_count: int) -> int {
    if sample_count <= 0 {
        0
    } else {
        sample_count / 20
    }
}

/// How many of the outcomes are successes.
pub open spec fn true_count(outcomes: Seq<bool>) -> nat
    decreases outcomes.len(),
{
    if outcomes.len() == 0 {
        0
    } else {
        true_count(outcomes.drop_last()) + if outcomes.last() {
            1nat
        } else {
            0nat
        }
    }
}

/// The sum of the counts.
pub open spec fn sum(counts: Seq<u64>) -> nat
    decreases counts.len(),
{
    if counts.len() == 0 {
        0
    } else {
        sum(counts.drop_last()) + counts.last() as nat
    }
}

/// The outcomes of all batches, one batch after the other.
pub open spec fn joined(batches: Seq<Seq<bool>>) -> Seq<bool>
    decreases batches.len(),
{
    if batches.len() == 0 {
        Seq::empty()
    } else {
        joined(batches.drop_last()) + batches.last()
    }
}

/// Computes the number of trials for each worker.
pub fn samples_per_thread(sample_count: i64) -> (r: i64)
    ensures
        r == batch_size(sample_count as int),
        0 <= r,
        r * 20 <= sample_count || sample_count < 0,
{
    if sample_count <= 0 {
        0
    } else {
        sample_count / NUM_THREADS
    }
}

/// Counts the successes among the outcomes.
pub fn count_true(outcomes: &Vec<bool>) -> (r: usize)
    ensures
        r == true_count(outcomes@),
        r <= outcomes@.len(),
{
    let n: usize = outcomes.len();
    let mut r: usize = 0;
    let mut i: usize = 0;
    while i < n
        invariant
            n == outcomes@.len(),
            i <= n,
            r <= i,
            r == true_count(outcomes@.take(i as int)),
        decreases n - i,
    {
        assert(outcomes@.take(i + 1).drop_last() == outcomes@.take(i as int));
        if outcomes[i] {
            r = r + 1;
        }
        i = i + 1;
    }
    assert(outcomes@.take(n as int) == outcomes@);
    r
}

/// Adds up the counts that the workers report. There is no total where
/// the sum does not fit into 64 bits.
pub fn total_overlaped(counts: &Vec<u64>) -> (r: Option<u64>)
    ensures
        r == if sum(counts@) <= u64::MAX {
            Some(sum(counts@) as u64)
        } else {
            None
        },
{
    let n: usize = counts.len();
    let mut total: u64 = 0;
    let mut i: usize = 0;
    while i < n
        invariant
            n == counts@.len(),
            i <= n,
            total == sum(counts@.take(i as int)),
        decreases n - i,
    {
        assert(counts@.take(i + 1).drop_last() == counts@.take(i as int));
        match total.checked_add(counts[i]) {
            Some(t) => {
                total = t;
            },
            None => {
                proof {
                    lemma_sum_grows(counts@, i + 1);
                }
                return None;
            },
        }
        i = i + 1;
    }
    assert(counts@.take(n as int) == counts@);
    Some(total)
}

/// The sum of the first counts is no more than the sum of all.
pub proof fn lemma_sum_grows(counts: Seq<u64>, k: int)
    requires
        0 <= k <= counts.len(),
    ensures
        sum(counts.take(k)) <= sum(counts),
    decreases counts.len() - k,
{
    if k < counts.len() {
        assert(counts.take(k + 1).drop_last() == counts.take(k));
        lemma_sum_grows(counts, k + 1);
    } else {
        assert(counts.take(k) == counts);
    }
}

/// The successes among two runs of outcomes, one after the other, are the
/// successes of the first and those of the second together.
pub proof fn lemma_true_count_concat(a: Seq<bool>, b: Seq<bool>)
    ensures
        true_count(a + b) == true_count(a) + true_count(b),
    decreases b.len(),
{
    if b.len() == 0 {
        assert(a + b == a);
    } else {
        lemma_true_count_concat(a, b.drop_last());
        assert((a + b).drop_last() == a + b.drop_last());
    }
}

/// Where every worker reports the successes of its own batch, the total of
/// the reports is the number of successes among all outcomes.
pub proof fn lemma_total_counts_all(batches: Seq<Seq<bool>>, counts: Seq<u64>)
    requires
        counts.len() == batches.len(),
        forall|i: int| 0 <= i < batches.len() ==> counts[i] == true_count(#[trigger] batches[i]),
    ensures
        sum(counts) == true_count(joined(batches)),
    decreases batches.len(),
{
    if batches.len() > 0 {
        lemma_total_counts_all(batches.drop_last(), counts.drop_last());
        lemma_true_count_concat(joined(batches.drop_last()), batches.last());
    }
}

/// The total does not depend on how the outcomes are split among workers:
/// two splits of the same outcomes, into any number of batches each, give
/// the same total.
pub proof fn lemma_total_independent_of_split(
    batches1: Seq<Seq<bool>>,
    counts1: Seq<u64>,
    batches2: Seq<Seq<bool>>,
    counts2: Seq<u64>,
)
    requires
        joined(batches1) == joined(batches2),
        counts1.len() == batches1.len(),
        forall|i: int| 0 <= i < batches1.len() ==> counts1[i] == true_count(#[trigger] batches1[i]),
        counts2.len() == batches2.len(),
        forall|i: int| 0 <= i < batches2.len() ==> counts2[i] == true_count(#[trigger] batches2[i]),
    ensures
        sum(counts1) == sum(counts2),
{
    lemma_total_counts_all(batches1, counts1);
    lemma_total_counts_all(batches2, counts2);
}

/// Workers that found nothing add up to nothing.
pub proof fn lemma_sum_of_zeros(counts: Seq<u64>)
    requires
        forall|i: int| 0 <= i < counts.len() ==> counts[i] == 0,
    ensures
        sum(counts) == 0,
    decreases counts.len(),
{
    if counts.len() > 0 {
        lemma_sum_of_zeros(counts.drop_last());
    }
}

/// Counts of which none exceeds `most` add up to no more than `most` for
/// each of them.
pub proof fn lemma_sum_bound(counts: Seq<u64>, most: int)
    requires
        forall|i: int| 0 <= i < counts.len() ==> counts[i] <= most,
    ensures
        sum(counts) <= counts.len() * most,
    decreases counts.len(),
{
    if counts.len() > 0 {
        lemma_sum_bound(counts.drop_last(), most);
        assert(sum(counts) <= (counts.len() - 1) * most + most);
        assert((counts.len() - 1) * most + most == counts.len() * most) by (nonlinear_arith);
    }
}

/// Twenty workers that each report no more successes than the trials of
/// their share report together no more than the trials of the run: the
/// total exists, and the estimate, the total over the trials of the run,
/// lies between zero and one.
pub proof fn lemma_total_within_samples(sample_count: i64, counts: Seq<u64>)
    requires
        counts.len() == 20,
        forall|i: int| 0 <= i < counts.len() ==> counts[i] <= batch_size(sample_count as int),
    ensures
        sum(counts) <= if sample_count > 0 { sample_count as int } else { 0 },
        sum(counts) <= u64::MAX,
{
    lemma_sum_bound(counts, batch_size(sample_count as int));
}

} // verus!
