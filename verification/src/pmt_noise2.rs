//! Two tubes, each with pulses of one width: do the trains overlap?

use crate::random::{ascending, lemma_same_values, push_random_ticks, sort_ticks};
use crate::tally::{count_true, true_count};
use vstd::prelude::*;

verus! {

/// One tube: how many pulses it gives in an observation of `time` ticks,
/// how long each pulse lasts, and when the pulses rise.
pub struct PMT {
    pub count: i64,
    pub time: u64,
    pub palse_time: u64,
    pub rise_times: Vec<u64>,
}

/// What a tube is made from: the length of the observation, the width of a
/// pulse and the number of pulses.
#[derive(Clone, Copy)]
pub struct InitialCondition {
    pub time: u64,
    pub palse_time: u64,
    pub count: i64,
}

/// A pulse of width `width` that rises at `rise` is active when `other`
/// rises: `other` is no earlier than `rise` and no later than the pulse's
/// end.
pub open spec fn covers(rise: u64, width: u64, other: u64) -> bool {
    rise <= other <= rise + width
}

/// Some instant of `theirs` falls on a pulse of width `width` that rises
/// at an instant of `ours`.
pub open spec fn rises_within(ours: Seq<u64>, width: u64, theirs: Seq<u64>) -> bool {
    exists|i: int, j: int|
        0 <= i < ours.len() && 0 <= j < theirs.len() && #[trigger] covers(
            ours[i],
            width,
            theirs[j],
        )
}

/// Every instant of `s` lies before `time`.
pub open spec fn below(s: Seq<u64>, time: u64) -> bool {
    forall|i: int| 0 <= i < s.len() ==> s[i] < time
}

/// `s` may be the train of a tube made from `init`: as many rise times as
/// the tube gives pulses, all of them inside the observation, in ascending
/// order.
pub open spec fn is_train_of(s: Seq<u64>, init: InitialCondition) -> bool {
    &&& s.len() == if init.count > 0 { init.count as int } else { 0 }
    &&& ascending(s)
    &&& below(s, init.time)
}

/// The two trains overlap: a pulse of one is active when a pulse of the
/// other rises.
pub open spec fn overlap(a: Seq<u64>, a_width: u64, b: Seq<u64>, b_width: u64) -> bool {
    rises_within(a, a_width, b) || rises_within(b, b_width, a)
}

impl PMT {
    /// A tube that has not given a pulse yet.
    pub fn new(count: i64, time: u64, palse_time: u64) -> (r: PMT)
        ensures
            r.count == count,
            r.time == time,
            r.palse_time == palse_time,
            r.rise_times@ == Seq::<u64>::empty(),
    {
        PMT { count, time, palse_time, rise_times: Vec::new() }
    }

    /// Lets the tube give `count` more pulses at random instants of the
    /// observation, and brings all its rise times into ascending order.
    pub fn generate_rise_times(&mut self)
        requires
            old(self).count > 0 ==> old(self).time > 0,
        ensures
            final(self).count == old(self).count,
            final(self).time == old(self).time,
            final(self).palse_time == old(self).palse_time,
            ascending(final(self).rise_times@),
            final(self).rise_times@.len() == old(self).rise_times@.len() + if old(self).count > 0 {
                old(self).count as int
            } else {
                0
            },
            exists|drawn: Seq<u64>|
                {
                    &&& drawn.len() == if old(self).count > 0 {
                        old(self).count as int
                    } else {
                        0
                    }
                    &&& below(drawn, old(self).time)
                    &&& #[trigger] (old(self).rise_times@ + drawn).to_multiset()
                        == final(self).rise_times@.to_multiset()
                },
            below(old(self).rise_times@, old(self).time) ==> below(
                final(self).rise_times@,
                old(self).time,
            ),
    {
        let ghost held = self.rise_times@;
        push_random_ticks(&mut self.rise_times, self.count, self.time);
        let ghost pushed = self.rise_times@;
        sort_ticks(&mut self.rise_times);
        proof {
            broadcast use vstd::seq_lib::group_to_multiset_ensures;

            let drawn = pushed.skip(held.len() as int);
            assert(pushed == pushed.take(held.len() as int) + drawn);
            assert(below(drawn, self.time));
            assert((held + drawn).to_multiset() == self.rise_times@.to_multiset());
            if below(held, self.time) {
                assert forall|i: int| 0 <= i < pushed.len() implies pushed[i] < self.time by {
                    if i < held.len() {
                        assert(pushed.take(held.len() as int)[i] == held[i]);
                    }
                }
                lemma_same_values(pushed, self.rise_times@, self.time);
            }
            assert(pushed.len() == pushed.to_multiset().len());
            assert(self.rise_times@.len() == self.rise_times@.to_multiset().len());
        }
    }
}

/// Decides whether a pulse of `pmt2` rises while a pulse of `pmt1` is
/// active. Both trains are in ascending order.
pub fn is_pmt1_overlaped(pmt1: &PMT, pmt2: &PMT) -> (r: bool)
    requires
        ascending(pmt1.rise_times@),
        ascending(pmt2.rise_times@),
    ensures
        r == rises_within(pmt1.rise_times@, pmt1.palse_time, pmt2.rise_times@),
{
    let n1: usize = pmt1.rise_times.len();
    let n2: usize = pmt2.rise_times.len();
    let mut pmt2_start: usize = 0;
    let mut i: usize = 0;
    while i < n1
        invariant
            n1 == pmt1.rise_times@.len(),
            n2 == pmt2.rise_times@.len(),
            ascending(pmt1.rise_times@),
            ascending(pmt2.rise_times@),
            i <= n1,
            pmt2_start <= n2,
            forall|k: int, m: int|
                0 <= k < pmt2_start && i <= m < n1 ==> pmt2.rise_times@[k] < pmt1.rise_times@[m],
            forall|m: int, j: int|
                0 <= m < i && 0 <= j < n2 ==> !covers(
                    pmt1.rise_times@[m],
                    pmt1.palse_time,
                    pmt2.rise_times@[j],
                ),
        decreases n1 - i,
    {
        let pmt1_rise_time: u64 = pmt1.rise_times[i];
        let mut k: usize = pmt2_start;
        let mut stopped = false;
        while k < n2 && !stopped
            invariant
                n2 == pmt2.rise_times@.len(),
                i < pmt1.rise_times@.len(),
                pmt1_rise_time == pmt1.rise_times@[i as int],
                pmt2_start <= k <= n2,
                forall|j: int| pmt2_start <= j < k ==> pmt2.rise_times@[j] < pmt1_rise_time,
                stopped ==> k < n2 && pmt2.rise_times@[k as int] > pmt1_rise_time
                    + pmt1.palse_time,
            decreases n2 - k + if stopped { 0int } else { 1int },
        {
            let pmt2_rise_time: u64 = pmt2.rise_times[k];
            if pmt1_rise_time <= pmt2_rise_time {
                if pmt2_rise_time - pmt1_rise_time <= pmt1.palse_time {
                    assert(covers(
                        pmt1.rise_times@[i as int],
                        pmt1.palse_time,
                        pmt2.rise_times@[k as int],
                    ));
                    return true;
                } else {
                    stopped = true;
                }
            } else {
                k = k + 1;
            }
        }
        pmt2_start = k;
        i = i + 1;
    }
    false
}

/// Decides whether two trains overlap: whether a pulse of either rises
/// while a pulse of the other is active.
pub fn is_overlaped(pmt1: &PMT, pmt2: &PMT) -> (r: bool)
    requires
        ascending(pmt1.rise_times@),
        ascending(pmt2.rise_times@),
    ensures
        r == overlap(pmt1.rise_times@, pmt1.palse_time, pmt2.rise_times@, pmt2.palse_time),
{
    is_pmt1_overlaped(pmt1, pmt2) || is_pmt1_overlaped(pmt2, pmt1)
}

/// Two trains of which one is empty do not overlap.
pub proof fn lemma_no_overlap_with_empty_train(
    a: Seq<u64>,
    a_width: u64,
    b: Seq<u64>,
    b_width: u64,
)
    requires
        a.len() == 0 || b.len() == 0,
    ensures
        !overlap(a, a_width, b, b_width),
{
}

/// Whether two trains overlap does not depend on which is named first.
pub proof fn lemma_overlap_commutes(a: Seq<u64>, a_width: u64, b: Seq<u64>, b_width: u64)
    ensures
        overlap(a, a_width, b, b_width) == overlap(b, b_width, a, a_width),
{
}

/// One trial: two tubes give their pulses at random, and the trial succeeds
/// where the trains overlap. Which trains are drawn is left to chance; the
/// outcome is that of some pair of trains that the tubes may give. A tube
/// without pulses overlaps nothing.
pub fn simulater(a_init: InitialCondition, b_init: InitialCondition) -> (r: bool)
    requires
        a_init.count > 0 ==> a_init.time > 0,
        b_init.count > 0 ==> b_init.time > 0,
    ensures
        exists|a: Seq<u64>, b: Seq<u64>|
            {
                &&& is_train_of(a, a_init)
                &&& is_train_of(b, b_init)
                &&& r == #[trigger] overlap(a, a_init.palse_time, b, b_init.palse_time)
            },
        a_init.count <= 0 || b_init.count <= 0 ==> !r,
{
    let mut pmt_a = PMT::new(a_init.count, a_init.time, a_init.palse_time);
    let mut pmt_b = PMT::new(b_init.count, b_init.time, b_init.palse_time);

    pmt_a.generate_rise_times();
    pmt_b.generate_rise_times();

    proof {
        if a_init.count <= 0 || b_init.count <= 0 {
            lemma_no_overlap_with_empty_train(
                pmt_a.rise_times@,
                pmt_a.palse_time,
                pmt_b.rise_times@,
                pmt_b.palse_time,
            );
        }
    }
    let r = is_overlaped(&pmt_a, &pmt_b);
    proof {
        assert(is_train_of(pmt_a.rise_times@, a_init));
        assert(is_train_of(pmt_b.rise_times@, b_init));
        assert(r == overlap(
            pmt_a.rise_times@,
            a_init.palse_time,
            pmt_b.rise_times@,
            b_init.palse_time,
        ));
    }
    r
}

/// Runs `sample_count` trials one after the other and counts the
/// successes: the result is the number of successes among the outcomes of
/// `sample_count` trials, each the outcome of some pair of trains that the
/// tubes may give. The estimate of the probability is this count over
/// `sample_count`. A `sample_count` of zero or less runs no trial.
pub fn nonparallel_simulater(
    sample_count: i64,
    a_init: InitialCondition,
    b_init: InitialCondition,
) -> (r: usize)
    requires
        a_init.count > 0 ==> a_init.time > 0,
        b_init.count > 0 ==> b_init.time > 0,
    ensures
        exists|outcomes: Seq<bool>|
            {
                &&& outcomes.len() == if sample_count > 0 { sample_count as int } else { 0 }
                &&& are_outcomes_of(outcomes, a_init, b_init)
                &&& r == #[trigger] true_count(outcomes)
            },
        r <= if sample_count > 0 { sample_count as int } else { 0 },
        a_init.count <= 0 || b_init.count <= 0 ==> r == 0,
{
    let mut overlapeds: Vec<bool> = Vec::new();
    let mut n: i64 = 0;
    while n < sample_count
        invariant
            a_init.count > 0 ==> a_init.time > 0,
            b_init.count > 0 ==> b_init.time > 0,
            0 <= n,
            n <= sample_count || n == 0,
            overlapeds@.len() == n,
            are_outcomes_of(overlapeds@, a_init, b_init),
            a_init.count <= 0 || b_init.count <= 0 ==> true_count(overlapeds@) == 0,
        decreases sample_count - n,
    {
        let ghost before = overlapeds@;
        let outcome = simulater(a_init, b_init);
        overlapeds.push(outcome);
        proof {
            assert(overlapeds@.drop_last() == before);
            assert(is_outcome_of(outcome, a_init, b_init));
            assert forall|i: int| 0 <= i < overlapeds@.len() implies is_outcome_of(
                #[trigger] overlapeds@[i],
                a_init,
                b_init,
            ) by {
                if i < before.len() {
                    assert(overlapeds@[i] == before[i]);
                }
            }
        }
        n = n + 1;
    }
    let r = count_true(&overlapeds);
    assert(r == true_count(overlapeds@));
    r
}

/// The share of one worker: runs `samples_per_thread` trials and counts the
/// successes. The result is the number of successes among the outcomes of
/// `samples_per_thread` trials, each the outcome of some pair of trains
/// that the tubes may give. A share of zero or less runs no trial.
pub fn local_overlapeds(
    samples_per_thread: i64,
    a_init: InitialCondition,
    b_init: InitialCondition,
) -> (r: u64)
    requires
        a_init.count > 0 ==> a_init.time > 0,
        b_init.count > 0 ==> b_init.time > 0,
    ensures
        exists|outcomes: Seq<bool>|
            {
                &&& outcomes.len() == if samples_per_thread > 0 {
                    samples_per_thread as int
                } else {
                    0
                }
                &&& are_outcomes_of(outcomes, a_init, b_init)
                &&& r == #[trigger] true_count(outcomes)
            },
        r <= if samples_per_thread > 0 { samples_per_thread as int } else { 0 },
        a_init.count <= 0 || b_init.count <= 0 ==> r == 0,
{
    let mut local_overlapeds: u64 = 0;
    let mut n: i64 = 0;
    let ghost mut outcomes: Seq<bool> = Seq::empty();
    while n < samples_per_thread
        invariant
            a_init.count > 0 ==> a_init.time > 0,
            b_init.count > 0 ==> b_init.time > 0,
            0 <= n,
            n <= samples_per_thread || n == 0,
            local_overlapeds <= n,
            outcomes.len() == n,
            are_outcomes_of(outcomes, a_init, b_init),
            local_overlapeds == true_count(outcomes),
            a_init.count <= 0 || b_init.count <= 0 ==> local_overlapeds == 0,
        decreases samples_per_thread - n,
    {
        let outcome = simulater(a_init, b_init);
        proof {
            let before = outcomes;
            outcomes = before.push(outcome);
            assert(outcomes.drop_last() == before);
            assert(is_outcome_of(outcome, a_init, b_init));
            assert forall|i: int| 0 <= i < outcomes.len() implies is_outcome_of(
                #[trigger] outcomes[i],
                a_init,
                b_init,
            ) by {
                if i < before.len() {
                    assert(outcomes[i] == before[i]);
                }
            }
        }
        if outcome {
            local_overlapeds = local_overlapeds + 1;
        }
        n = n + 1;
    }
    local_overlapeds
}

/// `outcome` may be the outcome of a trial: it says whether two trains
/// overlap that the tubes made from `a_init` and `b_init` may give.
pub open spec fn is_outcome_of(
    outcome: bool,
    a_init: InitialCondition,
    b_init: InitialCondition,
) -> bool {
    exists|a: Seq<u64>, b: Seq<u64>|
        {
            &&& is_train_of(a, a_init)
            &&& is_train_of(b, b_init)
            &&& outcome == #[trigger] overlap(a, a_init.palse_time, b, b_init.palse_time)
        }
}

/// Each of the outcomes may be the outcome of a trial.
pub open spec fn are_outcomes_of(
    outcomes: Seq<bool>,
    a_init: InitialCondition,
    b_init: InitialCondition,
) -> bool {
    forall|i: int|
        0 <= i < outcomes.len() ==> is_outcome_of(#[trigger] outcomes[i], a_init, b_init)
}

} // verus!
