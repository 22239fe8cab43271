//! Candidate enumeration: the combination and permutation generators,
//! supplied by itertools behind trusted wrappers.

use vstd::prelude::*;
use itertools::Itertools;
use crate::domain::is_combination;

verus! {

/// Relies on itertools' `combinations`: over the strictly increasing range
/// `1..=max` it yields, by increasing index positions, every length-`k`
/// selection exactly once (an empty sequence of selections when `k`
/// exceeds the range's length). Each selection keeps the source order, so
/// each returned vector is strictly increasing.
#[verifier::external_body]
pub fn combinations_upto(max: u32, k: usize) -> (r: Vec<Vec<u32>>)
    ensures
        forall|i: int| 0 <= i < r@.len() ==> is_combination(#[trigger] r@[i]@, max, k as int),
        forall|i: int, j: int| 0 <= i < j < r@.len() ==> r@[i]@ != r@[j]@,
        forall|s: Seq<u32>|
            #[trigger] is_combination(s, max, k as int) ==> exists|i: int|
                0 <= i < r@.len() && r@[i]@ == s,
{
    (1..=max).combinations(k).collect()
}

/// Relies on itertools' `permutations`: with the requested length equal to
/// the input length it yields every arrangement of the input positions
/// exactly once, so for pairwise-distinct values it yields exactly the
/// orderings of the input's multiset, each once.
#[verifier::external_body]
pub fn permutations_of(vals: &Vec<u32>) -> (r: Vec<Vec<u32>>)
    requires
        vals@.no_duplicates(),
    ensures
        forall|i: int|
            0 <= i < r@.len() ==> (#[trigger] r@[i]@).to_multiset() == vals@.to_multiset(),
        forall|i: int, j: int| 0 <= i < j < r@.len() ==> r@[i]@ != r@[j]@,
        forall|s: Seq<u32>|
            (#[trigger] s.to_multiset()) == vals@.to_multiset() ==> exists|i: int|
                0 <= i < r@.len() && r@[i]@ == s,
{
    vals.iter()
        .permutations(vals.len())
        .map(|p| p.into_iter().copied().collect())
        .collect()
}

} // verus!
