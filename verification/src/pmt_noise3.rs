//! Three tubes: the overlapping parts of two pulse trains are themselves a
//! pulse train, so coincidence of three tubes is the overlap of an overlap.

use crate::overlap_laws::{
    lemma_insert_point_unique, lemma_no_coincidence_with_empty_train, lemma_sorted_by_rise,
};
use crate::random::{lemma_same_values, push_random_ticks, sort_ticks};
use crate::tally::true_count;
use vstd::prelude::*;

verus! {

/// One pulse: it rises at `rise_time` and stays active for `width` ticks.
#[derive(Clone, Copy, Debug, PartialEq, Eq, Structural)]
pub struct Palse {
    pub rise_time: u64,
    pub width: u64,
}

/// The pulse train of one tube.
pub struct PMT {
    pub palse_times: Vec<Palse>,
}

/// What a tube is made from: the length of the observation, the width of a
/// pulse and the number of pulses.
#[derive(Clone, Copy)]
pub struct InitialCondition {
    pub time: u64,
    pub palse_time: u64,
    pub count: i64,
}

impl Palse {
    /// The last instant at which the pulse is still active.
    pub open spec fn end(self) -> int {
        self.rise_time + self.width
    }
}

impl View for PMT {
    type V = Seq<Palse>;

    open spec fn view(&self) -> Seq<Palse> {
        self.palse_times@
    }
}

/// The train is in ascending order of rise time.
pub open spec fn is_sorted(s: Seq<Palse>) -> bool {
    forall|i: int, j: int| 0 <= i <= j < s.len() ==> s[i].rise_time <= s[j].rise_time
}

/// `s` may be the train of a tube made from `init`: as many pulses as the
/// tube gives, each of the tube's width and rising inside the observation,
/// in ascending order of rise time.
pub open spec fn is_train_of(s: Seq<Palse>, init: InitialCondition) -> bool {
    &&& s.len() == if init.count > 0 { init.count as int } else { 0 }
    &&& is_sorted(s)
    &&& forall|i: int|
        0 <= i < s.len() ==> s[i].rise_time < init.time && s[i].width == init.palse_time
}

/// `q` rises while `p` is active: no earlier than `p` rises and no later
/// than `p` ends.
pub open spec fn starts_within(p: Palse, q: Palse) -> bool {
    p.rise_time <= q.rise_time <= p.end()
}

/// The part of `q` that lies inside `p`, for a `q` that rises while `p` is
/// active: it starts where `q` rises and ends where the first of the two
/// ends.
pub open spec fn intersection(p: Palse, q: Palse) -> Palse {
    Palse {
        rise_time: q.rise_time,
        width: (vstd::math::min(p.end(), q.end()) - q.rise_time) as u64,
    }
}

/// The intersections of `p` with those pulses of `qs` that rise while `p`
/// is active, in the order of `qs`.
pub open spec fn overlaps_of(p: Palse, qs: Seq<Palse>) -> Seq<Palse>
    decreases qs.len(),
{
    if qs.len() == 0 {
        Seq::empty()
    } else if starts_within(p, qs.last()) {
        overlaps_of(p, qs.drop_last()).push(intersection(p, qs.last()))
    } else {
        overlaps_of(p, qs.drop_last())
    }
}

/// `q` rises after `p` has ended.
pub open spec fn rises_after(p: Palse, q: Palse) -> bool {
    p.rise_time <= q.rise_time && q.rise_time > p.end()
}

/// Where the scan of `qs` for `p` stops when it starts at index `from`: at
/// the first pulse from there on that rises after `p` has ended, or at the
/// end of `qs` if there is none.
pub open spec fn scan_stop(p: Palse, qs: Seq<Palse>, from: int) -> int
    decreases qs.len() - from,
{
    if from < 0 || from >= qs.len() {
        qs.len() as int
    } else if rises_after(p, qs[from]) {
        from
    } else {
        scan_stop(p, qs, from + 1)
    }
}

/// Where the scan for the pulse after `p` starts: at the pulse that stopped
/// the scan for `p`, or where the scan for `p` started if nothing stopped
/// it.
pub open spec fn next_start(p: Palse, qs: Seq<Palse>, from: int) -> int {
    let stop = scan_stop(p, qs, from);
    if stop < qs.len() {
        stop
    } else {
        from
    }
}

/// What one scan yields: the intersections of `p` with the pulses of `qs`
/// between `from` and the place where the scan stops.
pub open spec fn scan_yield(p: Palse, qs: Seq<Palse>, from: int) -> Seq<Palse> {
    overlaps_of(p, qs.subrange(from, scan_stop(p, qs, from)))
}

/// The overlaps found from the side of `ps`: the pulses of `ps` from index
/// `i` on are taken in turn, each scanning `qs` from where the scan before
/// it left off, the first of them from `from`.
pub open spec fn overlaps_from(ps: Seq<Palse>, qs: Seq<Palse>, i: int, from: int) -> Seq<Palse>
    decreases ps.len() - i,
{
    if i < 0 || i >= ps.len() {
        Seq::empty()
    } else {
        scan_yield(ps[i], qs, from) + overlaps_from(ps, qs, i + 1, next_start(ps[i], qs, from))
    }
}

/// The overlaps of two trains as seen from the first: one pulse for each
/// pulse of `qs` that a scan for a pulse of `ps` finds rising while that
/// pulse is active.
pub open spec fn one_sided_overlaps(ps: Seq<Palse>, qs: Seq<Palse>) -> Seq<Palse> {
    overlaps_from(ps, qs, 0, 0)
}

/// Where `p` goes into the sorted train `s`: behind the last pulse that
/// rises no later than `p`, so before every pulse that rises later.
pub open spec fn insert_point(s: Seq<Palse>, p: Palse) -> int
    decreases s.len(),
{
    if s.len() == 0 || s.last().rise_time <= p.rise_time {
        s.len() as int
    } else {
        insert_point(s.drop_last(), p)
    }
}

/// The pulses of `s` in ascending order of rise time; pulses that rise at
/// the same instant keep the order they have in `s`.
pub open spec fn sorted_by_rise(s: Seq<Palse>) -> Seq<Palse>
    decreases s.len(),
{
    if s.len() == 0 {
        Seq::empty()
    } else {
        let front = sorted_by_rise(s.drop_last());
        front.insert(insert_point(front, s.last()), s.last())
    }
}

/// The overlaps of two trains as seen from both sides, in ascending order
/// of rise time.
pub open spec fn two_sided_overlaps(ps: Seq<Palse>, qs: Seq<Palse>) -> Seq<Palse> {
    sorted_by_rise(one_sided_overlaps(ps, qs) + one_sided_overlaps(qs, ps))
}

/// Three trains coincide where the overlaps of the first two overlap the
/// third.
pub open spec fn all_overlap(a: Seq<Palse>, b: Seq<Palse>, c: Seq<Palse>) -> bool {
    two_sided_overlaps(two_sided_overlaps(a, b), c).len() > 0
}

/// The trains of a row of tubes.
pub open spec fn trains_of(pmts: Seq<PMT>) -> Seq<Seq<Palse>> {
    Seq::new(pmts.len(), |k: int| pmts[k]@)
}

/// What all trains have in common: the first train, then its overlaps with
/// the second, then the overlaps of those with the third, and so on. No
/// trains have nothing in common.
pub open spec fn common_overlaps(trains: Seq<Seq<Palse>>) -> Seq<Palse>
    decreases trains.len(),
{
    if trains.len() == 0 {
        Seq::empty()
    } else if trains.len() == 1 {
        trains[0]
    } else {
        two_sided_overlaps(common_overlaps(trains.drop_last()), trains.last())
    }
}

/// Computes the intersection of `p` with a pulse `q` that rises while `p`
/// is active.
fn clip(p: &Palse, q: &Palse) -> (r: Palse)
    requires
        starts_within(*p, *q),
    ensures
        r == intersection(*p, *q),
{
    let left: u64 = p.width - (q.rise_time - p.rise_time);
    if left <= q.width {
        Palse { rise_time: q.rise_time, width: left }
    } else {
        Palse { rise_time: q.rise_time, width: q.width }
    }
}

/// Finds the overlaps of two sorted trains from the side of `pmt1`: for
/// each of its pulses, every pulse of `pmt2` that the scan reaches and that
/// rises while that pulse is active gives one pulse of the result. A scan
/// does not go back behind the pulse that stopped the scan before it, so a
/// pulse of `pmt2` that two pulses of `pmt1` cover may be found once
/// only.
pub fn overlaped_pmt1(pmt1: &PMT, pmt2: &PMT) -> (r: PMT)
    requires
        is_sorted(pmt1@),
        is_sorted(pmt2@),
    ensures
        r@ == one_sided_overlaps(pmt1@, pmt2@),
{
    let mut new_palse_times: Vec<Palse> = Vec::new();
    let mut pmt2_loop: usize = 0;
    let n1: usize = pmt1.palse_times.len();
    let n2: usize = pmt2.palse_times.len();
    let mut i: usize = 0;
    while i < n1
        invariant
            n1 == pmt1@.len(),
            n2 == pmt2@.len(),
            i <= n1,
            pmt2_loop <= n2,
            new_palse_times@ + overlaps_from(pmt1@, pmt2@, i as int, pmt2_loop as int)
                == one_sided_overlaps(pmt1@, pmt2@),
        decreases n1 - i,
    {
        let p = pmt1.palse_times[i];
        let ghost before = new_palse_times@;
        let ghost from = pmt2_loop as int;
        let mut k: usize = pmt2_loop;
        let mut stopped = false;
        while k < n2 && !stopped
            invariant
                n2 == pmt2@.len(),
                from <= k <= n2,
                from == pmt2_loop || stopped,
                p == pmt1@[i as int],
                !stopped ==> scan_stop(p, pmt2@, from) == scan_stop(p, pmt2@, k as int),
                !stopped ==> new_palse_times@ == before + overlaps_of(
                    p,
                    pmt2@.subrange(from, k as int),
                ),
                stopped ==> scan_stop(p, pmt2@, from) == pmt2_loop < n2,
                stopped ==> new_palse_times@ == before + scan_yield(p, pmt2@, from),
            decreases n2 - k + if stopped { 0int } else { 1int },
        {
            let q = pmt2.palse_times[k];
            proof {
                assert(pmt2@.subrange(from, k + 1).drop_last() == pmt2@.subrange(from, k as int));
                assert(pmt2@.subrange(from, k + 1).last() == q);
            }
            if p.rise_time <= q.rise_time {
                if q.rise_time - p.rise_time <= p.width {
                    new_palse_times.push(clip(&p, &q));
                    k = k + 1;
                } else {
                    pmt2_loop = k;
                    stopped = true;
                }
            } else {
                k = k + 1;
            }
        }
        proof {
            assert(new_palse_times@ == before + scan_yield(p, pmt2@, from));
            assert(pmt2_loop == next_start(p, pmt2@, from));
            assert((before + scan_yield(p, pmt2@, from)) + overlaps_from(
                pmt1@,
                pmt2@,
                i + 1,
                pmt2_loop as int,
            ) == before + (scan_yield(p, pmt2@, from) + overlaps_from(
                pmt1@,
                pmt2@,
                i + 1,
                pmt2_loop as int,
            )));
        }
        i = i + 1;
    }
    PMT { palse_times: new_palse_times }
}

impl PMT {
    /// The train of a tube that gives `count` pulses of width `palse_time`
    /// at random instants of an observation of `time` ticks, in ascending
    /// order of rise time. A `count` of zero or less gives an empty train.
    pub fn new(count: i64, time: u64, palse_time: u64) -> (r: PMT)
        requires
            count > 0 ==> time > 0,
        ensures
            is_train_of(r@, (InitialCondition { time, palse_time, count })),
    {
        let mut rise_times: Vec<u64> = Vec::new();
        let mut palse_times: Vec<Palse> = Vec::new();

        push_random_ticks(&mut rise_times, count, time);
        let ghost drawn = rise_times@;
        sort_ticks(&mut rise_times);
        proof {
            lemma_same_values(drawn, rise_times@, time);
        }

        let n: usize = rise_times.len();
        let mut i: usize = 0;
        while i < n
            invariant
                n == rise_times@.len(),
                i <= n,
                palse_times@.len() == i,
                forall|j: int|
                    #![trigger palse_times@[j]]
                    0 <= j < i ==> palse_times@[j].rise_time == rise_times@[j]
                        && palse_times@[j].width == palse_time,
            decreases n - i,
        {
            palse_times.push(Palse { rise_time: rise_times[i], width: palse_time });
            i = i + 1;
        }

        PMT { palse_times }
    }

    /// Brings the train into ascending order of rise time. Pulses that rise
    /// at the same instant keep their order.
    pub fn sort(&mut self)
        ensures
            final(self)@ == sorted_by_rise(old(self)@),
            is_sorted(final(self)@),
            final(self)@.len() == old(self)@.len(),
            final(self)@.to_multiset() == old(self)@.to_multiset(),
    {
        let mut out: Vec<Palse> = Vec::new();
        let n: usize = self.palse_times.len();
        let mut i: usize = 0;
        while i < n
            invariant
                n == self@.len(),
                i <= n,
                out@ == sorted_by_rise(self@.take(i as int)),
                out@.len() == i,
            decreases n - i,
        {
            let p = self.palse_times[i];
            let mut k: usize = out.len();
            while k > 0 && out[k - 1].rise_time > p.rise_time
                invariant
                    k <= out@.len(),
                    forall|j: int| k <= j < out@.len() ==> out@[j].rise_time > p.rise_time,
                decreases k,
            {
                k = k - 1;
            }
            proof {
                lemma_insert_point_unique(out@, p, k as int);
                assert(self@.take(i + 1).drop_last() == self@.take(i as int));
                assert(self@.take(i + 1).last() == p);
            }
            out.insert(k, p);
            i = i + 1;
        }
        proof {
            assert(self@.take(n as int) == self@);
            lemma_sorted_by_rise(self@);
        }
        self.palse_times = out;
    }

    /// Puts the pulses of two trains into one: those of `self` first, then
    /// those of `other_pmt`. Both trains stay as they are.
    pub fn sync(&mut self, other_pmt: &mut PMT) -> (r: PMT)
        ensures
            r@ == old(self)@ + old(other_pmt)@,
            final(self)@ == old(self)@,
            final(other_pmt)@ == old(other_pmt)@,
    {
        let mut palse_times: Vec<Palse> = Vec::new();
        let n1: usize = self.palse_times.len();
        let mut i: usize = 0;
        while i < n1
            invariant
                n1 == self@.len(),
                i <= n1,
                palse_times@ == self@.take(i as int),
            decreases n1 - i,
        {
            palse_times.push(self.palse_times[i]);
            assert(palse_times@ == self@.take(i + 1));
            i = i + 1;
        }
        let n2: usize = other_pmt.palse_times.len();
        let mut j: usize = 0;
        while j < n2
            invariant
                n1 == self@.len(),
                n2 == other_pmt@.len(),
                j <= n2,
                palse_times@ == self@ + other_pmt@.take(j as int),
            decreases n2 - j,
        {
            palse_times.push(other_pmt.palse_times[j]);
            assert(palse_times@ == self@ + other_pmt@.take(j + 1));
            j = j + 1;
        }
        assert(other_pmt@.take(n2 as int) == other_pmt@);
        PMT { palse_times }
    }
}

/// Finds the overlaps of two sorted trains from both sides and returns
/// them as one sorted train.
pub fn overlaped_pmt(pmt1: &PMT, pmt2: &PMT) -> (r: PMT)
    requires
        is_sorted(pmt1@),
        is_sorted(pmt2@),
    ensures
        r@ == two_sided_overlaps(pmt1@, pmt2@),
        is_sorted(r@),
{
    let mut over_pmt1 = overlaped_pmt1(pmt1, pmt2);
    let mut over_pmt2 = overlaped_pmt1(pmt2, pmt1);
    let mut sync_pmt = over_pmt1.sync(&mut over_pmt2);
    sync_pmt.sort();
    sync_pmt
}

/// Decides whether three sorted trains coincide: whether some overlap of
/// the first two overlaps a pulse of the third.
pub fn is_all_overlaped_pmt(pmt1: &PMT, pmt2: &PMT, pmt3: &PMT) -> (r: bool)
    requires
        is_sorted(pmt1@),
        is_sorted(pmt2@),
        is_sorted(pmt3@),
    ensures
        r == all_overlap(pmt1@, pmt2@, pmt3@),
{
    let pmt12 = overlaped_pmt(pmt1, pmt2);
    let pmt123 = overlaped_pmt(&pmt12, pmt3);
    pmt123.palse_times.len() > 0
}

/// A train with the same pulses.
fn copy_of(pmt: &PMT) -> (r: PMT)
    ensures
        r@ == pmt@,
{
    let mut palse_times: Vec<Palse> = Vec::new();
    let n: usize = pmt.palse_times.len();
    let mut i: usize = 0;
    while i < n
        invariant
            n == pmt@.len(),
            i <= n,
            palse_times@ == pmt@.take(i as int),
        decreases n - i,
    {
        palse_times.push(pmt.palse_times[i]);
        assert(palse_times@ == pmt@.take(i + 1));
        i = i + 1;
    }
    assert(pmt@.take(n as int) == pmt@);
    PMT { palse_times }
}

/// Decides whether any number of sorted trains coincide: whether what is
/// common to the trains so far still overlaps the next, up to the last.
pub fn is_all_overlaped(pmts: &Vec<PMT>) -> (r: bool)
    requires
        forall|k: int| 0 <= k < pmts@.len() ==> is_sorted(#[trigger] pmts@[k]@),
    ensures
        r == (common_overlaps(trains_of(pmts@)).len() > 0),
{
    let n: usize = pmts.len();
    if n == 0 {
        return false;
    }
    let ghost trains = trains_of(pmts@);
    let mut common = copy_of(&pmts[0]);
    assert(trains.take(1).len() == 1 && trains.take(1)[0] == pmts@[0]@);
    let mut k: usize = 1;
    while k < n
        invariant
            n == pmts@.len(),
            trains == trains_of(pmts@),
            1 <= k <= n,
            forall|m: int| 0 <= m < pmts@.len() ==> is_sorted(#[trigger] pmts@[m]@),
            is_sorted(common@),
            common@ == common_overlaps(trains.take(k as int)),
        decreases n - k,
    {
        proof {
            assert(trains.take(k + 1).drop_last() == trains.take(k as int));
            assert(trains.take(k + 1).last() == pmts@[k as int]@);
        }
        common = overlaped_pmt(&common, &pmts[k]);
        k = k + 1;
    }
    assert(trains.take(n as int) == trains);
    common.palse_times.len() > 0
}

/// One trial: three tubes give their pulses at random, and the trial
/// succeeds where the three trains coincide. Which trains are drawn is left
/// to chance; the outcome is that of some three trains that the tubes may
/// give. With a tube without pulses nothing coincides.
pub fn simulater(
    a_init: InitialCondition,
    b_init: InitialCondition,
    c_init: InitialCondition,
) -> (r: bool)
    requires
        a_init.count > 0 ==> a_init.time > 0,
        b_init.count > 0 ==> b_init.time > 0,
        c_init.count > 0 ==> c_init.time > 0,
    ensures
        exists|a: Seq<Palse>, b: Seq<Palse>, c: Seq<Palse>|
            {
                &&& is_train_of(a, a_init)
                &&& is_train_of(b, b_init)
                &&& is_train_of(c, c_init)
                &&& r == #[trigger] all_overlap(a, b, c)
            },
        a_init.count <= 0 || b_init.count <= 0 || c_init.count <= 0 ==> !r,
{
    let pmt_a = PMT::new(a_init.count, a_init.time, a_init.palse_time);
    let pmt_b = PMT::new(b_init.count, b_init.time, b_init.palse_time);
    let pmt_c = PMT::new(c_init.count, c_init.time, c_init.palse_time);

    proof {
        if a_init.count <= 0 || b_init.count <= 0 || c_init.count <= 0 {
            lemma_no_coincidence_with_empty_train(pmt_a@, pmt_b@, pmt_c@);
        }
    }
    let r = is_all_overlaped_pmt(&pmt_a, &pmt_b, &pmt_c);
    proof {
        assert(is_train_of(pmt_a@, a_init));
        assert(is_train_of(pmt_b@, b_init));
        assert(is_train_of(pmt_c@, c_init));
        assert(r == all_overlap(pmt_a@, pmt_b@, pmt_c@));
    }
    r
}

/// The share of one worker: runs `samples_per_thread` trials and counts the
/// successes. The result is the number of successes among the outcomes of
/// `samples_per_thread` trials, each the outcome of some three trains that
/// the tubes may give. A share of zero or less runs no trial.
pub fn local_overlapeds(
    samples_per_thread: i64,
    a_init: InitialCondition,
    b_init: InitialCondition,
    c_init: InitialCondition,
) -> (r: u64)
    requires
        a_init.count > 0 ==> a_init.time > 0,
        b_init.count > 0 ==> b_init.time > 0,
        c_init.count > 0 ==> c_init.time > 0,
    ensures
        exists|outcomes: Seq<bool>|
            {
                &&& outcomes.len() == if samples_per_thread > 0 {
                    samples_per_thread as int
                } else {
                    0
                }
                &&& are_outcomes_of(outcomes, a_init, b_init, c_init)
                &&& r == #[trigger] true_count(outcomes)
            },
        r <= if samples_per_thread > 0 { samples_per_thread as int } else { 0 },
        a_init.count <= 0 || b_init.count <= 0 || c_init.count <= 0 ==> r == 0,
{
    let mut local_overlapeds: u64 = 0;
    let mut n: i64 = 0;
    let ghost mut outcomes: Seq<bool> = Seq::empty();
    while n < samples_per_thread
        invariant
            a_init.count > 0 ==> a_init.time > 0,
            b_init.count > 0 ==> b_init.time > 0,
            c_init.count > 0 ==> c_init.time > 0,
            0 <= n,
            n <= samples_per_thread || n == 0,
            local_overlapeds <= n,
            outcomes.len() == n,
            are_outcomes_of(outcomes, a_init, b_init, c_init),
            local_overlapeds == true_count(outcomes),
            a_init.count <= 0 || b_init.count <= 0 || c_init.count <= 0 ==> local_overlapeds == 0,
        decreases samples_per_thread - n,
    {
        let outcome = simulater(a_init, b_init, c_init);
        proof {
            let before = outcomes;
            outcomes = before.push(outcome);
            assert(outcomes.drop_last() == before);
            assert(is_outcome_of(outcome, a_init, b_init, c_init));
            assert forall|i: int| 0 <= i < outcomes.len() implies is_outcome_of(
                #[trigger] outcomes[i],
                a_init,
                b_init,
                c_init,
            ) by {
                if i < before.len() {
                    assert(outcomes[i] == before[i]);
                }
            }
        }
        if outcome {
            local_overlapeds = local_overlapeds + 1;
        }
        n = n + 1;
    }
    local_overlapeds
}

/// `outcome` may be the outcome of a trial: it says whether three trains
/// coincide that the tubes made from `a_init`, `b_init` and `c_init` may
/// give.
pub open spec fn is_outcome_of(
    outcome: bool,
    a_init: InitialCondition,
    b_init: InitialCondition,
    c_init: InitialCondition,
) -> bool {
    exists|a: Seq<Palse>, b: Seq<Palse>, c: Seq<Palse>|
        {
            &&& is_train_of(a, a_init)
            &&& is_train_of(b, b_init)
            &&& is_train_of(c, c_init)
            &&& outcome == #[trigger] all_overlap(a, b, c)
        }
}

/// Each of the outcomes may be the outcome of a trial.
pub open spec fn are_outcomes_of(
    outcomes: Seq<bool>,
    a_init: InitialCondition,
    b_init: InitialCondition,
    c_init: InitialCondition,
) -> bool {
    forall|i: int|
        0 <= i < outcomes.len() ==> is_outcome_of(#[trigger] outcomes[i], a_init, b_init, c_init)
}

} // verus!
