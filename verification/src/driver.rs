//! The iteration driver's decisions: the execution order of a round, when
//! to stop, when to report, and the bounds the histograms share.

use vstd::prelude::*;
use rand::seq::SliceRandom;
use crate::experiment::Experiment;
use crate::numbers::Numbers;

verus! {

/// Relies on rand's `SliceRandom::shuffle` (a Fisher-Yates pass driven by
/// `rand::thread_rng`): it permutes the slice in place, so the multiset of
/// elements is unchanged whatever order comes out.
#[verifier::external_body]
fn shuffle_indices(v: &mut Vec<usize>)
    ensures
        final(v)@.to_multiset() == old(v)@.to_multiset(),
{
    v.shuffle(&mut rand::thread_rng());
}

/// The canonical order of `k` variants: `0, 1, ..., k - 1`.
pub open spec fn canonical_order(k: nat) -> Seq<usize> {
    Seq::new(k, |i: int| i as usize)
}

/// The execution order of one round: the canonical order of the `k`
/// variants, shuffled uniformly when `randomize` is set.  Either way the
/// result is a permutation of `0 .. k`.
pub fn round_order(k: usize, randomize: bool) -> (r: Vec<usize>)
    ensures
        r@.len() == k,
        r@.to_multiset() == canonical_order(k as nat).to_multiset(),
        !randomize ==> r@ == canonical_order(k as nat),
{
    let mut v: Vec<usize> = Vec::new();
    let mut i: usize = 0;
    while i < k
        invariant
            i <= k,
            v@.len() == i,
            forall|j: int| 0 <= j < i ==> #[trigger] v@[j] == j,
        decreases k - i,
    {
        v.push(i);
        i = i + 1;
    }
    proof {
        assert(v@ =~= canonical_order(k as nat));
    }
    if randomize {
        shuffle_indices(&mut v);
        proof {
            v@.to_multiset_ensures();
            canonical_order(k as nat).to_multiset_ensures();
        }
    }
    v
}

/// The fewest duration samples any variant has: reporting and termination
/// both wait for the slowest-progressing variant.
pub fn min_runs(tests: &Vec<Experiment>) -> (r: usize)
    requires
        tests@.len() >= 1,
    ensures
        forall|i: int|
            0 <= i < tests@.len() ==> r <= #[trigger] tests@[i].durations.raw_view().len(),
        exists|i: int| 0 <= i < tests@.len() && r == tests@[i].durations.raw_view().len(),
{
    let mut r = tests[0].runs();
    let mut i: usize = 1;
    while i < tests.len()
        invariant
            1 <= i <= tests@.len(),
            forall|j: int|
                0 <= j < i ==> r <= #[trigger] tests@[j].durations.raw_view().len(),
            exists|j: int| 0 <= j < i && r == tests@[j].durations.raw_view().len(),
        decreases tests@.len() - i,
    {
        let n = tests[i].runs();
        if n < r {
            r = n;
        }
        i = i + 1;
    }
    r
}

/// The loop terminates exactly when a requested iteration count is met.
pub fn should_stop(min_len: usize, iterations: Option<u32>) -> (r: bool)
    ensures
        r == (iterations is Some && min_len == iterations.unwrap() as usize),
{
    match iterations {
        Some(n) => min_len == n as usize,
        None => false,
    }
}

/// Statistics are reported only once every variant has at least two
/// samples.
pub fn should_report(min_len: usize) -> (r: bool)
    ensures
        r == (min_len >= 2),
{
    min_len >= 2
}

/// The plot selection rule: the half-resolution rendering is used exactly
/// when its tallest bucket holds at most two samples.
pub fn use_half_resolution(max_count_halves: u64) -> (r: bool)
    ensures
        r == (max_count_halves <= 2),
{
    max_count_halves <= 2
}

/// The store a report reads: memory when `mem` is set, durations
/// otherwise.
pub open spec fn spec_store_of(e: Experiment, mem: bool) -> Numbers {
    if mem {
        e.mem_usages
    } else {
        e.durations
    }
}

/// The store a report reads, as a reference.
pub fn store_of(e: &Experiment, mem: bool) -> (r: &Numbers)
    ensures
        *r == spec_store_of(*e, mem),
{
    if mem {
        &e.mem_usages
    } else {
        &e.durations
    }
}

/// The range every variant's histogram shares: the smallest and the
/// largest sample over all the variants' chosen stores.  Absent only when
/// some store is empty.
pub fn sample_bounds(tests: &Vec<Experiment>, mem: bool) -> (r: Option<(u64, u64)>)
    requires
        tests@.len() >= 1,
        forall|i: int| 0 <= i < tests@.len() ==> (#[trigger] tests@[i]).wf(),
    ensures
        r is Some <==> forall|i: int|
            0 <= i < tests@.len() ==> #[trigger] spec_store_of(tests@[i], mem).raw_view().len()
                > 0,
        r is Some ==> ({
            let (lo, hi) = r.unwrap();
            &&& lo <= hi
            &&& forall|i: int|
                0 <= i < tests@.len() ==> lo <= #[trigger] spec_store_of(
                    tests@[i],
                    mem,
                ).sorted_view()[0]
            &&& forall|i: int|
                0 <= i < tests@.len() ==> #[trigger] spec_store_of(
                    tests@[i],
                    mem,
                ).sorted_view()[spec_store_of(tests@[i], mem).sorted_view().len() - 1] <= hi
            &&& exists|i: int|
                0 <= i < tests@.len() && lo == #[trigger] spec_store_of(
                    tests@[i],
                    mem,
                ).sorted_view()[0]
            &&& exists|i: int|
                0 <= i < tests@.len() && hi == #[trigger] spec_store_of(
                    tests@[i],
                    mem,
                ).sorted_view()[spec_store_of(tests@[i], mem).sorted_view().len() - 1]
        }),
{
    let mut lo: u64 = 0;
    let mut hi: u64 = 0;
    let mut i: usize = 0;
    while i < tests.len()
        invariant
            0 <= i <= tests@.len(),
            forall|j: int| 0 <= j < tests@.len() ==> (#[trigger] tests@[j]).wf(),
            forall|j: int|
                0 <= j < i ==> #[trigger] spec_store_of(tests@[j], mem).raw_view().len() > 0,
            i > 0 ==> ({
                &&& lo <= hi
                &&& forall|j: int|
                    0 <= j < i ==> lo <= #[trigger] spec_store_of(
                        tests@[j],
                        mem,
                    ).sorted_view()[0]
                &&& forall|j: int|
                    0 <= j < i ==> #[trigger] spec_store_of(
                        tests@[j],
                        mem,
                    ).sorted_view()[spec_store_of(tests@[j], mem).sorted_view().len() - 1] <= hi
                &&& exists|j: int|
                    0 <= j < i && lo == #[trigger] spec_store_of(
                        tests@[j],
                        mem,
                    ).sorted_view()[0]
                &&& exists|j: int|
                    0 <= j < i && hi == #[trigger] spec_store_of(
                        tests@[j],
                        mem,
                    ).sorted_view()[spec_store_of(tests@[j], mem).sorted_view().len() - 1]
            }),
        decreases tests@.len() - i,
    {
        let store = store_of(&tests[i], mem);
        let s_lo = match store.min() {
            Some(v) => v,
            None => {
                return None;
            },
        };
        let s_hi = match store.max() {
            Some(v) => v,
            None => {
                return None;
            },
        };
        if i == 0 {
            lo = s_lo;
            hi = s_hi;
        } else {
            if s_lo < lo {
                lo = s_lo;
            }
            if s_hi > hi {
                hi = s_hi;
            }
        }
        proof {
            spec_store_of(tests@[i as int], mem).lemma_bounds();
        }
        i = i + 1;
    }
    Some((lo, hi))
}

} // verus!
