//! Distinct random orderings of the teams, drawn from a seed.

use vstd::prelude::*;
use rand::rngs::StdRng;
use rand::seq::SliceRandom;
use rand::SeedableRng;
use crate::data_set::{Rawdata, team_ids};
use crate::solution::Solution;

verus! {

/// rand's seeded generator, carried through the sampler as an opaque value.
#[verifier::external_type_specification]
#[verifier::external_body]
pub struct ExStdRng(StdRng);

/// Relies on rand's `SeedableRng::seed_from_u64` for `StdRng`: a generator
/// whose stream is fixed by the seed.
#[verifier::external_body]
fn seeded_rng(seed: u64) -> StdRng {
    StdRng::seed_from_u64(seed)
}

/// Relies on rand's `SliceRandom::shuffle`, which only swaps entries: the
/// vector keeps its entries, in some order.
#[verifier::external_body]
fn shuffle_ids(ids: &mut Vec<i32>, rng: &mut StdRng)
    ensures
        final(ids)@.to_multiset() == old(ids)@.to_multiset(),
{
    ids.shuffle(rng);
}

/// `n!`, the number of orderings of `n` teams.
pub open spec fn factorial(n: nat) -> nat
    decreases n,
{
    if n == 0 {
        1
    } else {
        n * factorial((n - 1) as nat)
    }
}

/// The factorial grows with its argument.
proof fn lemma_factorial_grows(k: nat, n: nat)
    requires
        k <= n,
    ensures
        1 <= factorial(k) <= factorial(n),
    decreases n,
{
    if n > 0 {
        lemma_factorial_grows(0, (n - 1) as nat);
        if k < n {
            lemma_factorial_grows(k, (n - 1) as nat);
        }
        let f = factorial((n - 1) as nat);
        assert(f <= n * f) by (nonlinear_arith)
            requires n >= 1, f >= 1;
    }
}

/// Whether `n` teams have at least `count` distinct orderings, that is,
/// whether `count` distinct orderings can be asked of the sampler.
pub fn enough_orderings(n: usize, count: i32) -> (r: bool)
    ensures
        r == (count as int <= factorial(n as nat)),
{
    if count <= 1 {
        proof {
            lemma_factorial_grows(0, n as nat);
        }
        return true;
    }
    let mut f: u64 = 1;
    let mut k: usize = 0;
    while k < n
        invariant
            k <= n,
            f == factorial(k as nat),
            1 <= f,
            k <= f,
            f < count,
        decreases n - k,
    {
        proof {
            assert(factorial((k + 1) as nat) == (k + 1) * factorial(k as nat));
            assert((k + 1) * f <= (f + 1) * f) by (nonlinear_arith)
                requires k <= f, f >= 1;
            assert((f + 1) * f <= 0x8000_0000 * 0x8000_0000) by (nonlinear_arith)
                requires f < 0x8000_0000, f >= 1;
            assert(k + 1 <= (k + 1) * f) by (nonlinear_arith)
                requires f >= 1, k >= 0;
        }
        k += 1;
        f = (k as u64) * f;
        if f >= count as u64 {
            proof {
                lemma_factorial_grows(k as nat, n as nat);
            }
            return true;
        }
    }
    false
}

/// Whether the two orderings are equal.
fn same_ordering(a: &Vec<i32>, b: &Vec<i32>) -> (r: bool)
    ensures
        r == (a@ == b@),
{
    if a.len() != b.len() {
        return false;
    }
    let mut j: usize = 0;
    while j < a.len()
        invariant
            a@.len() == b@.len(),
            j <= a@.len(),
            forall|y: int| 0 <= y < j ==> #[trigger] a@[y] == b@[y],
        decreases a@.len() - j,
    {
        if a[j] != b[j] {
            return false;
        }
        j += 1;
    }
    assert(a@ =~= b@);
    true
}

/// Whether `candidate` is one of `orderings`.
fn holds_ordering(orderings: &Vec<Vec<i32>>, candidate: &Vec<i32>) -> (r: bool)
    ensures
        r == exists|i: int| 0 <= i < orderings@.len() && #[trigger] orderings@[i]@ == candidate@,
{
    let mut i: usize = 0;
    while i < orderings.len()
        invariant
            i <= orderings@.len(),
            forall|x: int| 0 <= x < i ==> #[trigger] orderings@[x]@ != candidate@,
        decreases orderings@.len() - i,
    {
        if same_ordering(&orderings[i], candidate) {
            return true;
        }
        i += 1;
    }
    false
}

/// `orderings` holds orderings of `ids`, no two of them equal.
pub open spec fn distinct_orderings(orderings: Seq<Vec<i32>>, ids: Seq<i32>) -> bool {
    &&& forall|i: int| 0 <= i < orderings.len() ==> (#[trigger] orderings[i])@.to_multiset() == ids.to_multiset()
    &&& forall|i: int, j: int| 0 <= i < j < orderings.len() ==> (#[trigger] orderings[i])@ != (#[trigger] orderings[j])@
}

/// Adds `candidate` to `orderings` unless an equal ordering is already
/// there; returns whether it was added.
pub fn add_ordering(orderings: &mut Vec<Vec<i32>>, candidate: Vec<i32>) -> (added: bool)
    ensures
        added == !exists|i: int| 0 <= i < old(orderings)@.len() && #[trigger] old(orderings)@[i]@ == candidate@,
        added ==> final(orderings)@ == old(orderings)@.push(candidate),
        !added ==> final(orderings)@ == old(orderings)@,
{
    if holds_ordering(orderings, &candidate) {
        false
    } else {
        orderings.push(candidate);
        true
    }
}

impl Solution {
    /// Draws `number_permutations` distinct orderings of the team identifiers
    /// of `data` from a generator seeded with `seed`, shuffling a fresh copy
    /// of the identifiers until that many distinct ones have come up.
    ///
    /// Every returned vector is an ordering of the identifiers and no two are
    /// equal. A request for more orderings than the `n!` that exist is
    /// rejected before any draw, with an empty result. Otherwise at least one
    /// ordering comes back when one is asked for; which orderings come up is
    /// the generator's choice, and the draws stop short of
    /// `number_permutations` only after `u64::MAX` shuffles.
    pub fn generate_random_permutations(data: &Rawdata, number_permutations: i32, seed: u64) -> (r: Vec<Vec<i32>>)
        ensures
            r@.len() <= if number_permutations > 0 { number_permutations as int } else { 0 },
            distinct_orderings(r@, team_ids(data.teams@)),
            !(number_permutations as int <= factorial(data.teams@.len() as nat)) ==> r@.len() == 0,
            1 <= number_permutations <= factorial(data.teams@.len() as nat) ==> r@.len() >= 1,
    {
        if !enough_orderings(data.teams.len(), number_permutations) {
            return Vec::new();
        }
        let ghost ids = team_ids(data.teams@);
        let mut base: Vec<i32> = Vec::new();
        let mut k: usize = 0;
        while k < data.teams.len()
            invariant
                k <= data.teams@.len(),
                ids == team_ids(data.teams@),
                base@ == ids.subrange(0, k as int),
            decreases data.teams@.len() - k,
        {
            base.push(data.teams[k].id);
            k += 1;
            assert(base@ =~= ids.subrange(0, k as int));
        }
        assert(base@ =~= ids);
        let mut rng = seeded_rng(seed);
        let mut orderings: Vec<Vec<i32>> = Vec::new();
        let mut draws: u64 = 0;
        while (orderings.len() as i64) < (number_permutations as i64) && draws < u64::MAX
            invariant
                base@ == ids,
                orderings@.len() <= if number_permutations > 0 { number_permutations as int } else { 0 },
                distinct_orderings(orderings@, ids),
                draws > 0 || orderings@.len() == 0,
                draws > 0 ==> orderings@.len() >= 1,
            decreases u64::MAX - draws,
        {
            let mut perm: Vec<i32> = Vec::new();
            let mut j: usize = 0;
            while j < base.len()
                invariant
                    j <= base@.len(),
                    perm@ == base@.subrange(0, j as int),
                decreases base@.len() - j,
            {
                perm.push(base[j]);
                j += 1;
                assert(perm@ =~= base@.subrange(0, j as int));
            }
            assert(perm@ =~= base@);
            shuffle_ids(&mut perm, &mut rng);
            draws += 1;
            add_ordering(&mut orderings, perm);
        }
        orderings
    }
}

} // verus!
