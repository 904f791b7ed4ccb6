//! What holds of the overlaps of pulse trains: what the scans find and what
//! they miss, what sorting keeps, and what follows for empty trains.

use crate::pmt_noise3::{
    all_overlap, common_overlaps, insert_point, intersection, is_sorted, next_start,
    one_sided_overlaps, overlaps_from, overlaps_of, rises_after, scan_stop, sorted_by_rise,
    starts_within, two_sided_overlaps, Palse,
};
use vstd::prelude::*;

verus! {

/// Some pulse of `qs` rises while a pulse of `ps` is active.
pub open spec fn some_pulse_rises_within(ps: Seq<Palse>, qs: Seq<Palse>) -> bool {
    exists|i: int, j: int|
        0 <= i < ps.len() && 0 <= j < qs.len() && #[trigger] starts_within(ps[i], qs[j])
}

/// A scan stops no earlier than it starts, passes only pulses that do not
/// rise after `p` has ended, and stops, if before the end, at one that
/// does.
pub proof fn lemma_scan_stop(p: Palse, qs: Seq<Palse>, from: int)
    requires
        0 <= from <= qs.len(),
    ensures
        from <= scan_stop(p, qs, from) <= qs.len(),
        from <= next_start(p, qs, from) <= qs.len(),
        forall|k: int| from <= k < scan_stop(p, qs, from) ==> !rises_after(p, #[trigger] qs[k]),
        scan_stop(p, qs, from) < qs.len() ==> rises_after(p, qs[scan_stop(p, qs, from)]),
    decreases qs.len() - from,
{
    if from < qs.len() && !rises_after(p, qs[from]) {
        lemma_scan_stop(p, qs, from + 1);
    }
}

/// A pulse has overlaps with a train exactly where some pulse of the train
/// rises while it is active.
pub proof fn lemma_overlaps_of_found(p: Palse, qs: Seq<Palse>)
    ensures
        overlaps_of(p, qs).len() > 0 <==> exists|j: int|
            0 <= j < qs.len() && starts_within(p, #[trigger] qs[j]),
    decreases qs.len(),
{
    if qs.len() > 0 {
        let front = qs.drop_last();
        lemma_overlaps_of_found(p, front);
        if starts_within(p, qs.last()) {
            assert(starts_within(p, qs[qs.len() - 1]));
        } else {
            if overlaps_of(p, front).len() > 0 {
                let j = choose|j: int| 0 <= j < front.len() && starts_within(p, #[trigger] front[j]);
                assert(starts_within(p, qs[j]));
            }
            if exists|j: int| 0 <= j < qs.len() && starts_within(p, #[trigger] qs[j]) {
                let j = choose|j: int| 0 <= j < qs.len() && starts_within(p, #[trigger] qs[j]);
                assert(starts_within(p, front[j]));
            }
        }
    }
}

/// `x` is the intersection of a pulse of `ps` with a pulse of `qs` that
/// rises while the pulse of `ps` is active.
pub open spec fn is_overlap_between(x: Palse, ps: Seq<Palse>, qs: Seq<Palse>) -> bool {
    exists|i: int, j: int|
        0 <= i < ps.len() && 0 <= j < qs.len() && #[trigger] starts_within(ps[i], qs[j]) && x
            == intersection(ps[i], qs[j])
}

/// The intersection of `p` with a pulse `q` that rises while `p` is active
/// lies inside both: it rises with `q`, and ends with the one that ends
/// first.
pub proof fn lemma_intersection_inside(p: Palse, q: Palse)
    requires
        starts_within(p, q),
    ensures
        intersection(p, q).rise_time == q.rise_time,
        intersection(p, q).end() == vstd::math::min(p.end(), q.end()),
        p.rise_time <= intersection(p, q).rise_time,
        intersection(p, q).end() <= p.end(),
        intersection(p, q).end() <= q.end(),
        intersection(p, q).width <= p.width,
        intersection(p, q).width <= q.width,
{
}

/// Every overlap of a pulse with a train is its intersection with a pulse
/// of the train that rises while it is active.
pub proof fn lemma_overlaps_of_are_intersections(p: Palse, qs: Seq<Palse>, k: int)
    requires
        0 <= k < overlaps_of(p, qs).len(),
    ensures
        exists|j: int|
            0 <= j < qs.len() && starts_within(p, #[trigger] qs[j]) && overlaps_of(p, qs)[k]
                == intersection(p, qs[j]),
    decreases qs.len(),
{
    let front = qs.drop_last();
    if starts_within(p, qs.last()) && k == overlaps_of(p, front).len() {
        assert(starts_within(p, qs[qs.len() - 1]));
    } else {
        lemma_overlaps_of_are_intersections(p, front, k);
        let j = choose|j: int|
            0 <= j < front.len() && starts_within(p, #[trigger] front[j]) && overlaps_of(
                p,
                front,
            )[k] == intersection(p, front[j]);
        assert(starts_within(p, qs[j]));
    }
}

/// Every pulse that the scans find is the intersection of a pulse of the
/// first train with a pulse of the second that rises while it is active.
pub proof fn lemma_found_are_intersections(
    ps: Seq<Palse>,
    qs: Seq<Palse>,
    i: int,
    from: int,
    k: int,
)
    requires
        0 <= i,
        0 <= from <= qs.len(),
        0 <= k < overlaps_from(ps, qs, i, from).len(),
    ensures
        is_overlap_between(overlaps_from(ps, qs, i, from)[k], ps, qs),
    decreases ps.len() - i,
{
    let p = ps[i];
    let stop = scan_stop(p, qs, from);
    lemma_scan_stop(p, qs, from);
    let part = qs.subrange(from, stop);
    let found = overlaps_of(p, part);
    if k < found.len() {
        lemma_overlaps_of_are_intersections(p, part, k);
        let j = choose|j: int|
            0 <= j < part.len() && starts_within(p, #[trigger] part[j]) && found[k]
                == intersection(p, part[j]);
        assert(starts_within(ps[i], qs[from + j]));
    } else {
        lemma_found_are_intersections(ps, qs, i + 1, next_start(p, qs, from), k - found.len());
    }
}

/// Every overlap of two trains as seen from the first is the intersection
/// of a pulse of the first with a pulse of the second that rises while it
/// is active.
pub proof fn lemma_one_sided_overlaps_are_intersections(ps: Seq<Palse>, qs: Seq<Palse>, k: int)
    requires
        0 <= k < one_sided_overlaps(ps, qs).len(),
    ensures
        is_overlap_between(one_sided_overlaps(ps, qs)[k], ps, qs),
{
    lemma_found_are_intersections(ps, qs, 0, 0, k);
}

/// Whatever the scans find is an overlap of a pulse of the first train
/// with a pulse of the second that rises while the first is active.
pub proof fn lemma_found_only_where_rising_within(
    ps: Seq<Palse>,
    qs: Seq<Palse>,
    i: int,
    from: int,
)
    requires
        0 <= i,
        0 <= from <= qs.len(),
        overlaps_from(ps, qs, i, from).len() > 0,
    ensures
        some_pulse_rises_within(ps, qs),
    decreases ps.len() - i,
{
    let p = ps[i];
    let stop = scan_stop(p, qs, from);
    lemma_scan_stop(p, qs, from);
    let part = qs.subrange(from, stop);
    lemma_overlaps_of_found(p, part);
    if overlaps_of(p, part).len() > 0 {
        let j = choose|j: int| 0 <= j < part.len() && starts_within(p, #[trigger] part[j]);
        assert(starts_within(ps[i], qs[from + j]));
    } else {
        lemma_found_only_where_rising_within(ps, qs, i + 1, next_start(p, qs, from));
    }
}

/// The scans of sorted trains miss no overlap altogether: where a pulse
/// of the second train rises while one of the first is active, and the
/// scans so far have passed only pulses that rise before every pulse still
/// to come, something is found.
pub proof fn lemma_found_where_rising_within(ps: Seq<Palse>, qs: Seq<Palse>, i: int, from: int)
    requires
        is_sorted(ps),
        is_sorted(qs),
        0 <= i <= ps.len(),
        0 <= from <= qs.len(),
        forall|k: int, m: int|
            0 <= k < from && i <= m < ps.len() ==> qs[k].rise_time < ps[m].rise_time,
        exists|m: int, j: int|
            i <= m < ps.len() && 0 <= j < qs.len() && #[trigger] starts_within(ps[m], qs[j]),
    ensures
        overlaps_from(ps, qs, i, from).len() > 0,
    decreases ps.len() - i,
{
    let p = ps[i];
    let stop = scan_stop(p, qs, from);
    lemma_scan_stop(p, qs, from);
    let part = qs.subrange(from, stop);
    lemma_overlaps_of_found(p, part);
    if overlaps_of(p, part).len() == 0 {
        let (m, j) = choose|m: int, j: int|
            i <= m < ps.len() && 0 <= j < qs.len() && #[trigger] starts_within(ps[m], qs[j]);
        assert forall|k: int| from <= k < stop implies qs[k].rise_time < p.rise_time by {
            assert(!starts_within(p, part[k - from]));
            assert(!rises_after(p, qs[k]));
        }
        if m == i {
            if j >= stop {
                assert(rises_after(p, qs[stop]));
                assert(qs[stop].rise_time <= qs[j].rise_time);
            }
            assert(false);
        }
        let next = next_start(p, qs, from);
        assert forall|k: int, m2: int| 0 <= k < next && i + 1 <= m2 < ps.len() implies qs[k].rise_time
            < ps[m2].rise_time by {
            assert(ps[i].rise_time <= ps[m2].rise_time);
        }
        assert(starts_within(ps[m], qs[j]));
        lemma_found_where_rising_within(ps, qs, i + 1, next);
    }
}

/// From the side of the first of two sorted trains, overlaps are found
/// exactly where some pulse of the second rises while a pulse of the first
/// is active.
pub proof fn lemma_one_sided_overlaps_found(ps: Seq<Palse>, qs: Seq<Palse>)
    requires
        is_sorted(ps),
        is_sorted(qs),
    ensures
        one_sided_overlaps(ps, qs).len() > 0 <==> some_pulse_rises_within(ps, qs),
{
    if one_sided_overlaps(ps, qs).len() > 0 {
        lemma_found_only_where_rising_within(ps, qs, 0, 0);
    }
    if some_pulse_rises_within(ps, qs) {
        lemma_found_where_rising_within(ps, qs, 0, 0);
    }
}

/// Two sorted trains have overlaps exactly where a pulse of either rises
/// while a pulse of the other is active.
pub proof fn lemma_two_sided_overlaps_found(ps: Seq<Palse>, qs: Seq<Palse>)
    requires
        is_sorted(ps),
        is_sorted(qs),
    ensures
        two_sided_overlaps(ps, qs).len() > 0 <==> some_pulse_rises_within(ps, qs)
            || some_pulse_rises_within(qs, ps),
{
    lemma_one_sided_overlaps_found(ps, qs);
    lemma_one_sided_overlaps_found(qs, ps);
    lemma_sorted_by_rise(one_sided_overlaps(ps, qs) + one_sided_overlaps(qs, ps));
}

/// Every pulse of the train has ended before the next one rises.
pub open spec fn is_apart(s: Seq<Palse>) -> bool {
    forall|i: int, j: int| 0 <= i < j < s.len() ==> s[i].end() < s[j].rise_time
}

/// The overlaps of each pulse of `ps`, from index `i` on, with the whole of
/// `qs`.
pub open spec fn all_overlaps_from(ps: Seq<Palse>, qs: Seq<Palse>, i: int) -> Seq<Palse>
    decreases ps.len() - i,
{
    if i < 0 || i >= ps.len() {
        Seq::empty()
    } else {
        overlaps_of(ps[i], qs) + all_overlaps_from(ps, qs, i + 1)
    }
}

/// The overlaps of a pulse with two trains, one behind the other, are
/// its overlaps with the first and then those with the second.
pub proof fn lemma_overlaps_of_concat(p: Palse, a: Seq<Palse>, b: Seq<Palse>)
    ensures
        overlaps_of(p, a + b) == overlaps_of(p, a) + overlaps_of(p, b),
    decreases b.len(),
{
    if b.len() == 0 {
        assert(a + b == a);
        assert(overlaps_of(p, a) + overlaps_of(p, b) == overlaps_of(p, a));
    } else {
        lemma_overlaps_of_concat(p, a, b.drop_last());
        assert((a + b).drop_last() == a + b.drop_last());
        assert((a + b).last() == b.last());
        if starts_within(p, b.last()) {
            assert((overlaps_of(p, a) + overlaps_of(p, b.drop_last())).push(
                intersection(p, b.last()),
            ) == overlaps_of(p, a) + overlaps_of(p, b.drop_last()).push(
                intersection(p, b.last()),
            ));
        }
    }
}

/// Where the pulses of the first train lie apart, a scan that starts
/// behind pulses that rise too early skips nothing: the scans find the
/// overlaps of each pulse with the whole of the second train.
pub proof fn lemma_scans_skip_nothing(ps: Seq<Palse>, qs: Seq<Palse>, i: int, from: int)
    requires
        is_apart(ps),
        is_sorted(qs),
        0 <= i <= ps.len(),
        0 <= from <= qs.len(),
        i < ps.len() ==> forall|k: int| 0 <= k < from ==> qs[k].rise_time < ps[i].rise_time,
    ensures
        overlaps_from(ps, qs, i, from) == all_overlaps_from(ps, qs, i),
    decreases ps.len() - i,
{
    if i < ps.len() {
        let p = ps[i];
        let stop = scan_stop(p, qs, from);
        lemma_scan_stop(p, qs, from);
        let head = qs.subrange(0, from);
        let part = qs.subrange(from, stop);
        let tail = qs.subrange(stop, qs.len() as int);
        assert(qs == (head + part) + tail);
        lemma_overlaps_of_concat(p, head + part, tail);
        lemma_overlaps_of_concat(p, head, part);
        lemma_overlaps_of_found(p, head);
        lemma_overlaps_of_found(p, tail);
        assert(overlaps_of(p, tail).len() == 0) by {
            if exists|j: int| 0 <= j < tail.len() && starts_within(p, #[trigger] tail[j]) {
                let j = choose|j: int| 0 <= j < tail.len() && starts_within(p, #[trigger] tail[j]);
                assert(rises_after(p, qs[stop]));
                assert(qs[stop].rise_time <= qs[stop + j].rise_time);
            }
        }
        assert(overlaps_of(p, head).len() == 0);
        assert(overlaps_of(p, head) + overlaps_of(p, part) + overlaps_of(p, tail) == overlaps_of(
            p,
            part,
        ));
        let next = next_start(p, qs, from);
        if i + 1 < ps.len() {
            assert forall|k: int| 0 <= k < next implies qs[k].rise_time < ps[i + 1].rise_time by {
                assert(ps[i].end() < ps[i + 1].rise_time);
                if k >= from {
                    assert(!rises_after(p, qs[k]));
                }
            }
        }
        lemma_scans_skip_nothing(ps, qs, i + 1, next);
    }
}

/// Where the pulses of the first train lie apart and the second train is
/// sorted, the overlaps seen from the first are the overlaps of each of
/// its pulses, in turn, with the whole of the second.
pub proof fn lemma_one_sided_overlaps_of_train_apart(ps: Seq<Palse>, qs: Seq<Palse>)
    requires
        is_apart(ps),
        is_sorted(qs),
    ensures
        one_sided_overlaps(ps, qs) == all_overlaps_from(ps, qs, 0),
{
    lemma_scans_skip_nothing(ps, qs, 0, 0);
}

/// The insertion point lies behind every pulse that rises no later than
/// `p` from the back on, and only pulses that rise later follow it.
pub proof fn lemma_insert_point(s: Seq<Palse>, p: Palse)
    ensures
        0 <= insert_point(s, p) <= s.len(),
        forall|j: int| insert_point(s, p) <= j < s.len() ==> s[j].rise_time > p.rise_time,
        insert_point(s, p) > 0 ==> s[insert_point(s, p) - 1].rise_time <= p.rise_time,
    decreases s.len(),
{
    if !(s.len() == 0 || s.last().rise_time <= p.rise_time) {
        let front = s.drop_last();
        lemma_insert_point(front, p);
        assert forall|j: int| insert_point(s, p) <= j < s.len() implies s[j].rise_time
            > p.rise_time by {
            if j < front.len() {
                assert(front[j] == s[j]);
            }
        }
    }
}

/// An index with the two properties of the insertion point is the
/// insertion point.
pub proof fn lemma_insert_point_unique(s: Seq<Palse>, p: Palse, k: int)
    requires
        0 <= k <= s.len(),
        forall|j: int| k <= j < s.len() ==> s[j].rise_time > p.rise_time,
        k > 0 ==> s[k - 1].rise_time <= p.rise_time,
    ensures
        k == insert_point(s, p),
    decreases s.len(),
{
    if k < s.len() {
        lemma_insert_point_unique(s.drop_last(), p, k);
    }
}

/// Sorting keeps every pulse, as often as it occurs, and yields a train in
/// ascending order of rise time.
pub proof fn lemma_sorted_by_rise(s: Seq<Palse>)
    ensures
        is_sorted(sorted_by_rise(s)),
        sorted_by_rise(s).len() == s.len(),
        sorted_by_rise(s).to_multiset() == s.to_multiset(),
    decreases s.len(),
{
    broadcast use vstd::seq_lib::group_to_multiset_ensures;

    if s.len() == 0 {
        assert(sorted_by_rise(s).to_multiset() =~= s.to_multiset());
    } else {
        let front = sorted_by_rise(s.drop_last());
        let p = s.last();
        let k = insert_point(front, p);
        let r = front.insert(k, p);
        lemma_sorted_by_rise(s.drop_last());
        lemma_insert_point(front, p);
        assert(is_sorted(r)) by {
            assert forall|i: int, j: int| 0 <= i <= j < r.len() implies r[i].rise_time
                <= r[j].rise_time by {
                if i < k && j > k {
                    assert(front[i].rise_time <= front[k - 1].rise_time);
                }
            }
        }
        assert(r.remove(k) == front);
        assert(r[k] == p);
        assert(r.contains(p));
        assert(r.to_multiset() =~= front.to_multiset().insert(p));
        assert(s.drop_last().push(p) == s);
    }
}

/// A train already in ascending order stays as it is.
pub proof fn lemma_sorted_by_rise_of_sorted(s: Seq<Palse>)
    requires
        is_sorted(s),
    ensures
        sorted_by_rise(s) == s,
    decreases s.len(),
{
    if s.len() > 0 {
        let front = s.drop_last();
        lemma_sorted_by_rise_of_sorted(front);
        lemma_insert_point_unique(front, s.last(), front.len() as int);
        assert(front.insert(front.len() as int, s.last()) == s);
    }
}

/// For three trains, what they have in common is the overlap of the
/// overlaps of the first two with the third.
pub proof fn lemma_common_overlaps_of_three(a: Seq<Palse>, b: Seq<Palse>, c: Seq<Palse>)
    ensures
        common_overlaps(seq![a, b, c]) == two_sided_overlaps(two_sided_overlaps(a, b), c),
        all_overlap(a, b, c) == (common_overlaps(seq![a, b, c]).len() > 0),
{
    let three = seq![a, b, c];
    let two = seq![a, b];
    let one = seq![a];
    assert(three.drop_last() == two);
    assert(two.drop_last() == one);
    assert(common_overlaps(one) == a);
    assert(common_overlaps(two) == two_sided_overlaps(a, b));
}

/// Scans of an empty train find nothing.
pub proof fn lemma_overlaps_from_no_targets(ps: Seq<Palse>, i: int)
    ensures
        overlaps_from(ps, Seq::empty(), i, 0) == Seq::<Palse>::empty(),
    decreases ps.len() - i,
{
    if 0 <= i < ps.len() {
        let none = Seq::<Palse>::empty();
        assert(scan_stop(ps[i], none, 0) == 0);
        assert(none.subrange(0, 0) == none);
        lemma_overlaps_from_no_targets(ps, i + 1);
        assert(none + none == none);
    }
}

/// Two trains of which one is empty have no overlaps.
pub proof fn lemma_no_overlap_with_empty_train(ps: Seq<Palse>, qs: Seq<Palse>)
    requires
        ps.len() == 0 || qs.len() == 0,
    ensures
        two_sided_overlaps(ps, qs) == Seq::<Palse>::empty(),
{
    let none = Seq::<Palse>::empty();
    if ps.len() == 0 {
        assert(ps == none);
        lemma_overlaps_from_no_targets(qs, 0);
    } else {
        assert(qs == none);
        lemma_overlaps_from_no_targets(ps, 0);
    }
    assert(none + none == none);
}

/// Three trains of which one is empty do not coincide.
pub proof fn lemma_no_coincidence_with_empty_train(a: Seq<Palse>, b: Seq<Palse>, c: Seq<Palse>)
    requires
        a.len() == 0 || b.len() == 0 || c.len() == 0,
    ensures
        !all_overlap(a, b, c),
{
    if a.len() == 0 || b.len() == 0 {
        lemma_no_overlap_with_empty_train(a, b);
    }
    lemma_no_overlap_with_empty_train(two_sided_overlaps(a, b), c);
}

/// The overlaps of two trains are the same pulses, each as often,
/// whichever train is named first; so there are equally many.
pub proof fn lemma_two_sided_overlaps_commute(ps: Seq<Palse>, qs: Seq<Palse>)
    ensures
        two_sided_overlaps(ps, qs).to_multiset() == two_sided_overlaps(qs, ps).to_multiset(),
        two_sided_overlaps(ps, qs).len() == two_sided_overlaps(qs, ps).len(),
{
    let x = one_sided_overlaps(ps, qs);
    let y = one_sided_overlaps(qs, ps);
    lemma_sorted_by_rise(x + y);
    lemma_sorted_by_rise(y + x);
    vstd::seq_lib::lemma_seq_union_to_multiset_commutative(x, y);
}

/// Any number of trains of which one is empty have nothing in common.
pub proof fn lemma_nothing_in_common_with_empty_train(trains: Seq<Seq<Palse>>, k: int)
    requires
        0 <= k < trains.len(),
        trains[k].len() == 0,
    ensures
        common_overlaps(trains).len() == 0,
    decreases trains.len(),
{
    if trains.len() > 1 {
        if k < trains.len() - 1 {
            assert(trains.drop_last()[k] == trains[k]);
            lemma_nothing_in_common_with_empty_train(trains.drop_last(), k);
        }
        lemma_no_overlap_with_empty_train(common_overlaps(trains.drop_last()), trains.last());
    }
}

} // verus!
