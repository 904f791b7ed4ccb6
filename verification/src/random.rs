//! Random rise times, and their ordering.
//!
//! The random numbers come from the `rand` crate's generator of the
//! calling thread, so that workers on different threads share nothing.
//! Four items here are taken on trust: the generator's type, the function
//! `rand::thread_rng` that hands it out, and the contracts of `random_tick`
//! and `sort_ticks`, which reach outside the verified code.

use rand::rngs::ThreadRng;
use rand::Rng;
use vstd::prelude::*;

verus! {

/// `rand::rngs::ThreadRng`, the handle to a thread's own generator. Its
/// state is hidden from the verifier.
#[verifier::external_type_specification]
#[verifier::external_body]
pub struct ExThreadRng(rand::rngs::ThreadRng);

/// `rand::thread_rng` hands out the calling thread's generator. Nothing is
/// claimed of it.
pub assume_specification[ rand::thread_rng ]() -> (rng: ThreadRng)
;

/// The instants are in ascending order.
pub open spec fn ascending(s: Seq<u64>) -> bool {
    forall|i: int, j: int| 0 <= i <= j < s.len() ==> s[i] <= s[j]
}

/// Draws an instant below `time` with `Rng::gen_range` on the range from
/// zero up to, and without, `time`. Trusted: the result lies in that
/// range. Which instant comes out is left open. The range must not be
/// empty, as `gen_range` panics on an empty one.
#[verifier::external_body]
pub(crate) fn random_tick(rng: &mut ThreadRng, time: u64) -> (t: u64)
    requires
        time > 0,
    ensures
        t < time,
{
    rng.gen_range(0..time)
}

/// Sorts the instants with the standard library's `sort` on slices.
/// Trusted: afterwards they are in ascending order, and they are the same
/// instants as before, each as often as before.
#[verifier::external_body]
pub(crate) fn sort_ticks(ticks: &mut Vec<u64>)
    ensures
        ascending(final(ticks)@),
        final(ticks)@.to_multiset() == old(ticks)@.to_multiset(),
{
    ticks.sort()
}

/// Two sequences that hold the same values equally often are equally long,
/// and a bound on the values of one bounds those of the other.
pub proof fn lemma_same_values(s: Seq<u64>, t: Seq<u64>, bound: u64)
    requires
        s.to_multiset() == t.to_multiset(),
        forall|i: int| 0 <= i < s.len() ==> s[i] < bound,
    ensures
        t.len() == s.len(),
        forall|i: int| 0 <= i < t.len() ==> t[i] < bound,
{
    broadcast use vstd::seq_lib::group_to_multiset_ensures;

    assert(s.len() == s.to_multiset().len());
    assert(t.len() == t.to_multiset().len());
    assert forall|i: int| 0 <= i < t.len() implies t[i] < bound by {
        assert(t.contains(t[i]));
        assert(s.to_multiset().count(t[i]) > 0);
        assert(s.contains(t[i]));
    }
}

/// Draws `count` instants below `time` from the calling thread's generator
/// and puts them behind those that `ticks` holds. A `count` of zero or less
/// adds none.
pub fn push_random_ticks(ticks: &mut Vec<u64>, count: i64, time: u64)
    requires
        count > 0 ==> time > 0,
    ensures
        final(ticks)@.len() == old(ticks)@.len() + if count > 0 { count as int } else { 0 },
        final(ticks)@.take(old(ticks)@.len() as int) == old(ticks)@,
        forall|i: int| old(ticks)@.len() <= i < final(ticks)@.len() ==> final(ticks)@[i] < time,
{
    let ghost held = ticks@;
    let mut rng = rand::thread_rng();
    let mut n: i64 = 0;
    while n < count
        invariant
            count > 0 ==> time > 0,
            0 <= n,
            n <= count || n == 0,
            ticks@.len() == held.len() + n,
            ticks@.take(held.len() as int) == held,
            forall|i: int| held.len() <= i < ticks@.len() ==> ticks@[i] < time,
        decreases count - n,
    {
        let random_time = random_tick(&mut rng, time);
        let ghost before = ticks@;
        ticks.push(random_time);
        assert(ticks@.take(held.len() as int) == before.take(held.len() as int));
        n = n + 1;
    }
}

} // verus!
