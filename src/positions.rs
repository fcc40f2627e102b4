use rand::rngs::ThreadRng;
use std::collections::HashSet;
use vstd::prelude::*;
use vstd::std_specs::hash::group_hash_axioms;

use crate::random::random_below;

verus! {

broadcast use group_hash_axioms;

/// The members of `used` below `bound`.
spec fn claimed_below(used: Set<usize>, bound: int) -> Set<usize> {
    Set::new(|p: usize| p < bound && used.contains(p))
}

proof fn lemma_claimed_below_step(used: Set<usize>, p: usize)
    requires
        claimed_below(used, p as int).finite(),
    ensures
        claimed_below(used, p + 1).finite(),
        used.contains(p) ==> claimed_below(used, p + 1).len() == claimed_below(used, p as int).len() + 1,
        !used.contains(p) ==> claimed_below(used, p + 1).len() == claimed_below(used, p as int).len(),
{
    if used.contains(p) {
        assert(claimed_below(used, p + 1) =~= claimed_below(used, p as int).insert(p));
    } else {
        assert(claimed_below(used, p + 1) =~= claimed_below(used, p as int));
    }
}

/// Every position of `used` lies below `max`.
pub open spec fn all_below(used: Set<usize>, max: usize) -> bool {
    forall|p: usize| used.contains(p) ==> p < max
}

/// The positions below `max` that `used` leaves free, in increasing order.
fn free_positions(max: usize, used: &HashSet<usize>) -> (free: Vec<usize>)
    requires
        all_below(used@, max),
    ensures
        used@.finite(),
        free.len() + used@.len() == max,
        free@.no_duplicates(),
        forall|i: int| 0 <= i < free.len() ==> free[i] < max && !used@.contains(#[trigger] free[i]),
{
    let mut free: Vec<usize> = Vec::new();
    let mut p: usize = 0;
    proof {
        assert(claimed_below(used@, 0) =~= Set::empty());
    }
    while p < max
        invariant
            p <= max,
            claimed_below(used@, p as int).finite(),
            free.len() + claimed_below(used@, p as int).len() == p,
            forall|i: int, j: int| 0 <= i < j < free.len() ==> free[i] < free[j],
            forall|i: int| 0 <= i < free.len() ==> free[i] < p && !used@.contains(#[trigger] free[i]),
        decreases max - p,
    {
        proof {
            lemma_claimed_below_step(used@, p);
        }
        if !used.contains(&p) {
            free.push(p);
        }
        p = p + 1;
    }
    assert(claimed_below(used@, max as int) =~= used@);
    free
}

/// Picks `count` distinct positions below `max` that `used_positions` does
/// not hold yet, each uniformly among those still free, and adds them to
/// `used_positions`.
pub fn generate_unique_positions(
    count: usize,
    max: usize,
    rng: &mut ThreadRng,
    used_positions: &mut HashSet<usize>,
) -> (positions: HashSet<usize>)
    requires
        all_below(old(used_positions)@, max),
        count + old(used_positions)@.len() <= max,
    ensures
        positions@.finite(),
        positions@.len() == count,
        all_below(positions@, max),
        positions@.disjoint(old(used_positions)@),
        final(used_positions)@ == old(used_positions)@.union(positions@),
{
    let mut free = free_positions(max, used_positions);
    let mut positions: HashSet<usize> = HashSet::with_capacity(count);
    let mut n: usize = 0;
    let ghost used0 = used_positions@;
    while n < count
        invariant
            n <= count,
            used0.finite(),
            count + used0.len() <= max,
            free.len() + n + used0.len() == max,
            positions@.finite(),
            positions@.len() == n,
            all_below(positions@, max),
            positions@.disjoint(used0),
            used_positions@ == used0.union(positions@),
            free@.no_duplicates(),
            forall|i: int| 0 <= i < free.len() ==> free[i] < max && !used_positions@.contains(#[trigger] free[i]),
        decreases count - n,
    {
        let k = random_below(&mut *rng, free.len());
        let pos = free.swap_remove(k);
        positions.insert(pos);
        used_positions.insert(pos);
        n = n + 1;
    }
    positions
}

} // verus!
