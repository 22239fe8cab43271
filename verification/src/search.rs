//! The search pipeline: permutation of each candidate set through the
//! validity checker, fanned out across workers and merged back in.

use vstd::prelude::*;
use rayon::iter::IntoParallelRefIterator;
use rayon::iter::ParallelIterator;
use crate::checker::check_square;
use crate::checker::is_magic;
use crate::domain::in_domain;
use crate::domain::increasing;
use crate::domain::is_combination;
use crate::domain::lemma_increasing_properties;
use crate::domain::lemma_increasing_unique;
use crate::domain::lemma_multiset_transfer;
use crate::domain::lemma_sorted_version;
use crate::domain::lemma_push_anchor;
use crate::domain::lemma_push_injective;
use crate::domain::lemma_anchored_shape;
use crate::domain::magic_record;
use crate::domain::seq_views;
use crate::enumerate::combinations_upto;
use crate::enumerate::permutations_of;

verus! {

/// `out` holds exactly the magic orderings of the candidate multiset
/// `vals`, each once: every element is such an ordering, no two are equal,
/// and every magic ordering appears.
pub open spec fn candidate_results(vals: Seq<u32>, side: int, out: Seq<Seq<u32>>) -> bool {
    &&& forall|i: int|
        0 <= i < out.len() ==> (#[trigger] out[i]).to_multiset() == vals.to_multiset()
            && is_magic(out[i], side)
    &&& forall|i: int, j: int| 0 <= i < j < out.len() ==> out[i] != out[j]
    &&& forall|s: Seq<u32>|
        (#[trigger] s.to_multiset()) == vals.to_multiset() && is_magic(s, side) ==> out.contains(s)
}

/// Runs one candidate set to exhaustion: every ordering of `input` is laid
/// out as a grid and kept exactly when the checker accepts it.
#[verifier::loop_isolation(false)]
#[verifier::rlimit(30)]
pub fn check_permutations(input: &Vec<u32>, size: usize) -> (r: Vec<Vec<u32>>)
    requires
        size >= 1,
        input@.len() == size * size,
        input@.no_duplicates(),
    ensures
        candidate_results(input@, size as int, seq_views(r@)),
{
    let perms = permutations_of(input);
    let mut out: Vec<Vec<u32>> = Vec::new();
    let mut idx: usize = 0;
    while idx < perms.len()
        invariant
            0 <= idx <= perms@.len(),
            forall|i: int|
                0 <= i < out@.len() ==> (#[trigger] out@[i]@).to_multiset() == input@.to_multiset()
                    && is_magic(out@[i]@, size as int),
            forall|i: int|
                0 <= i < out@.len() ==> exists|j: int|
                    0 <= j < idx && (#[trigger] out@[i]@) == perms@[j]@,
            forall|i: int, j: int| 0 <= i < j < out@.len() ==> out@[i]@ != out@[j]@,
            forall|j: int|
                0 <= j < idx && is_magic(#[trigger] perms@[j]@, size as int) ==> exists|i: int|
                    0 <= i < out@.len() && out@[i]@ == perms@[j]@,
        decreases perms@.len() - idx,
    {
        let cand = &perms[idx];
        proof {
            assert(cand@.to_multiset() == input@.to_multiset());
            lemma_multiset_transfer(cand@, input@);
        }
        if check_square(cand, size) {
            let ghost old_out = out@;
            let kept = cand.clone();
            proof {
                assert(kept@ =~= cand@);
            }
            out.push(kept);
            proof {
                assert(out@[old_out.len() as int]@ == perms@[idx as int]@);
                assert forall|i: int, j: int| 0 <= i < j < out@.len() implies out@[i]@
                    != out@[j]@ by {
                    if j == old_out.len() {
                        let ji = choose|ji: int| 0 <= ji < idx && out@[i]@ == perms@[ji]@;
                        assert(perms@[ji]@ != perms@[idx as int]@);
                    }
                }
                assert forall|j2: int|
                    0 <= j2 < idx + 1 && is_magic(
                        #[trigger] perms@[j2]@,
                        size as int,
                    ) implies exists|i: int| 0 <= i < out@.len() && out@[i]@ == perms@[j2]@ by {
                    if j2 < idx {
                        let i = choose|i: int|
                            0 <= i < old_out.len() && old_out[i]@ == perms@[j2]@;
                        assert(out@[i]@ == perms@[j2]@);
                    } else {
                        assert(out@[old_out.len() as int]@ == perms@[j2]@);
                    }
                }
            }
        }
        idx = idx + 1;
    }
    proof {
        assert forall|s: Seq<u32>|
            (#[trigger] s.to_multiset()) == input@.to_multiset() && is_magic(
                s,
                size as int,
            ) implies seq_views(out@).contains(s) by {
            let j = choose|j: int| 0 <= j < perms@.len() && perms@[j]@ == s;
            assert(is_magic(perms@[j]@, size as int));
            let i = choose|i: int| 0 <= i < out@.len() && out@[i]@ == perms@[j]@;
            assert(seq_views(out@)[i] == s);
        }
    }
    out
}

/// Relies on rayon's `par_iter().map(..).collect()`: the verified
/// per-candidate search runs once per candidate set, with no shared state,
/// and the per-set result lists are collected in the input's order, as
/// collecting an indexed parallel iterator into a `Vec` preserves it.
#[verifier::external_body]
fn par_candidate_results(combos: &Vec<Vec<u32>>, size: usize) -> (r: Vec<Vec<Vec<u32>>>)
    requires
        size >= 1,
        forall|i: int|
            0 <= i < combos@.len() ==> (#[trigger] combos@[i]@).len() == size * size
                && combos@[i]@.no_duplicates(),
    ensures
        r@.len() == combos@.len(),
        forall|i: int|
            0 <= i < r@.len() ==> candidate_results(
                combos@[i]@,
                size as int,
                seq_views(#[trigger] r@[i]@),
            ),
{
    combos.par_iter().map(|sq| check_permutations(sq, size)).collect()
}

/// Fans the candidate sets out across workers and merges the per-worker
/// result lists after all have finished: the merge holds exactly the magic
/// orderings of the given candidate multisets, each once.
#[verifier::loop_isolation(false)]
#[verifier::rlimit(30)]
pub fn split_combos(combos: &Vec<Vec<u32>>, side: usize) -> (r: Vec<Vec<u32>>)
    requires
        side >= 1,
        forall|i: int|
            0 <= i < combos@.len() ==> (#[trigger] combos@[i]@).len() == side * side
                && combos@[i]@.no_duplicates(),
        forall|i: int, j: int|
            0 <= i < j < combos@.len() ==> (#[trigger] combos@[i]@).to_multiset() != (
            #[trigger] combos@[j]@).to_multiset(),
    ensures
        forall|i: int|
            0 <= i < r@.len() ==> is_magic(#[trigger] r@[i]@, side as int) && exists|j: int|
                0 <= j < combos@.len() && r@[i]@.to_multiset() == combos@[j]@.to_multiset(),
        forall|i: int, j: int| 0 <= i < j < r@.len() ==> r@[i]@ != r@[j]@,
        forall|s: Seq<u32>, j: int|
            0 <= j < combos@.len() && (#[trigger] s.to_multiset()) == (
            #[trigger] combos@[j]@).to_multiset() && is_magic(s, side as int) ==> exists|i: int|
                0 <= i < r@.len() && r@[i]@ == s,
{
    let chunks = par_candidate_results(combos, side);
    let mut r: Vec<Vec<u32>> = Vec::new();
    let mut j: usize = 0;
    while j < chunks.len()
        invariant
            0 <= j <= chunks@.len(),
            forall|i: int|
                0 <= i < r@.len() ==> is_magic(#[trigger] r@[i]@, side as int) && exists|jj: int|
                    0 <= jj < j && r@[i]@.to_multiset() == combos@[jj]@.to_multiset(),
            forall|i: int, ii: int| 0 <= i < ii < r@.len() ==> r@[i]@ != r@[ii]@,
            forall|s: Seq<u32>, jj: int|
                0 <= jj < j && (#[trigger] s.to_multiset()) == (
                #[trigger] combos@[jj]@).to_multiset() && is_magic(s, side as int) ==> exists|
                    i: int,
                |
                    0 <= i < r@.len() && r@[i]@ == s,
        decreases chunks@.len() - j,
    {
        let chunk = &chunks[j];
        let mut i: usize = 0;
        let ghost r_before = r@;
        while i < chunk.len()
            invariant
                0 <= i <= chunk@.len(),
                r@.len() == r_before.len() + i,
                forall|t: int| 0 <= t < r_before.len() ==> (#[trigger] r@[t]@) == r_before[t]@,
                forall|t: int|
                    r_before.len() <= t < r@.len() ==> (#[trigger] r@[t]@) == chunk@[t
                        - r_before.len()]@,
            decreases chunk@.len() - i,
        {
            let kept = chunk[i].clone();
            proof {
                assert(kept@ =~= chunk@[i as int]@);
            }
            r.push(kept);
            i = i + 1;
        }
        proof {
            assert(candidate_results(combos@[j as int]@, side as int, seq_views(chunk@)));
            assert forall|k: int| 0 <= k < chunk@.len() implies (#[trigger] chunk@[k]@).to_multiset()
                == combos@[j as int]@.to_multiset() && is_magic(chunk@[k]@, side as int) by {
                assert(seq_views(chunk@)[k] == chunk@[k]@);
            }
            assert forall|i2: int| 0 <= i2 < r@.len() implies is_magic(
                #[trigger] r@[i2]@,
                side as int,
            ) && exists|jj: int|
                0 <= jj <= j && r@[i2]@.to_multiset() == combos@[jj]@.to_multiset() by {
                if i2 >= r_before.len() {
                    let k = i2 - r_before.len();
                    assert(r@[i2]@ == chunk@[k]@);
                    assert(r@[i2]@.to_multiset() == combos@[j as int]@.to_multiset());
                }
            }
            assert forall|i2: int, ii: int| 0 <= i2 < ii < r@.len() implies r@[i2]@ != r@[ii]@ by {
                if ii >= r_before.len() {
                    let kii = ii - r_before.len();
                    assert(r@[ii]@ == chunk@[kii]@);
                    if i2 < r_before.len() {
                        assert(r@[i2]@ == r_before[i2]@);
                        let jj = choose|jj: int|
                            0 <= jj < j && r_before[i2]@.to_multiset()
                                == combos@[jj]@.to_multiset();
                        assert(combos@[jj]@.to_multiset() != combos@[j as int]@.to_multiset());
                        assert(r@[ii]@.to_multiset() == combos@[j as int]@.to_multiset());
                    } else {
                        let ki2 = i2 - r_before.len();
                        assert(r@[i2]@ == chunk@[ki2]@);
                        assert(seq_views(chunk@)[ki2] == chunk@[ki2]@);
                        assert(seq_views(chunk@)[kii] == chunk@[kii]@);
                        assert(chunk@[ki2]@ != chunk@[kii]@);
                    }
                }
            }
            assert forall|s: Seq<u32>, jj: int|
                0 <= jj <= j && (#[trigger] s.to_multiset()) == (
                #[trigger] combos@[jj]@).to_multiset() && is_magic(s, side as int) implies exists|
                i2: int,
            |
                0 <= i2 < r@.len() && r@[i2]@ == s by {
                if jj < j {
                    let i2 = choose|i2: int| 0 <= i2 < r_before.len() && r_before[i2]@ == s;
                    assert(r@[i2]@ == r_before[i2]@);
                } else {
                    assert(seq_views(chunk@).contains(s));
                    let k = choose|k: int|
                        0 <= k < seq_views(chunk@).len() && seq_views(chunk@)[k] == s;
                    assert(seq_views(chunk@)[k] == chunk@[k]@);
                    assert(r@[r_before.len() + k]@ == chunk@[k]@);
                }
            }
        }
        j = j + 1;
    }
    r
}

/// One exhaustive round: `rs` holds exactly the magic square records over
/// the domain `{1 .. max}`, each exactly once.
pub open spec fn exhaustive_round_results(rs: Seq<Seq<u32>>, side: int, max: u32) -> bool {
    &&& forall|i: int| 0 <= i < rs.len() ==> magic_record(#[trigger] rs[i], side, max)
    &&& forall|i: int, j: int| 0 <= i < j < rs.len() ==> rs[i] != rs[j]
    &&& forall|s: Seq<u32>| #[trigger] magic_record(s, side, max) ==> rs.contains(s)
}

/// One anchored round: `rs` holds exactly the magic square records over
/// `{1 .. max}` that use the new bound `max` itself, each exactly once.
pub open spec fn anchored_round_results(rs: Seq<Seq<u32>>, side: int, max: u32) -> bool {
    &&& forall|i: int|
        0 <= i < rs.len() ==> magic_record(#[trigger] rs[i], side, max) && rs[i].contains(max)
    &&& forall|i: int, j: int| 0 <= i < j < rs.len() ==> rs[i] != rs[j]
    &&& forall|s: Seq<u32>|
        #[trigger] magic_record(s, side, max) && s.contains(max) ==> rs.contains(s)
}

/// One round of the exhaustive strategy: draws every candidate set of
/// `side * side` values from `{1 .. max_val}` and keeps exactly the magic
/// orderings.
#[verifier::rlimit(30)]
pub fn search_m_square(max_val: u32, side: usize) -> (r: Vec<Vec<u32>>)
    requires
        side >= 1,
        side * side <= usize::MAX,
    ensures
        exhaustive_round_results(seq_views(r@), side as int, max_val),
{
    let k = side * side;
    let combos = combinations_upto(max_val, k);
    proof {
        assert forall|i: int|
            0 <= i < combos@.len() implies (#[trigger] combos@[i]@).len() == side * side
                && combos@[i]@.no_duplicates() by {
            assert(is_combination(combos@[i]@, max_val, k as int));
            lemma_increasing_properties(combos@[i]@);
        }
        assert forall|i: int, j: int|
            0 <= i < j < combos@.len() implies (#[trigger] combos@[i]@).to_multiset() != (
            #[trigger] combos@[j]@).to_multiset() by {
            if combos@[i]@.to_multiset() == combos@[j]@.to_multiset() {
                lemma_increasing_unique(combos@[i]@, combos@[j]@);
            }
        }
    }
    let result = split_combos(&combos, side);
    proof {
        assert forall|i: int| 0 <= i < seq_views(result@).len() implies magic_record(
            #[trigger] seq_views(result@)[i],
            side as int,
            max_val,
        ) by {
            assert(seq_views(result@)[i] == result@[i]@);
            let jj = choose|jj: int|
                0 <= jj < combos@.len() && result@[i]@.to_multiset() == combos@[jj]@.to_multiset();
            lemma_multiset_transfer(result@[i]@, combos@[jj]@);
            lemma_increasing_properties(combos@[jj]@);
            assert forall|t: int| 0 <= t < result@[i]@.len() implies 1 <= #[trigger] result@[i]@[t]
                <= max_val by {
                assert(result@[i]@.contains(result@[i]@[t]));
                assert(combos@[jj]@.contains(result@[i]@[t]));
                let u = choose|u: int|
                    0 <= u < combos@[jj]@.len() && combos@[jj]@[u] == result@[i]@[t];
                assert(1 <= combos@[jj]@[u] <= max_val);
            }
        }
        assert forall|i: int, j: int|
            0 <= i < j < seq_views(result@).len() implies seq_views(result@)[i] != seq_views(
            result@,
        )[j] by {
            assert(seq_views(result@)[i] == result@[i]@);
            assert(seq_views(result@)[j] == result@[j]@);
        }
        assert forall|s: Seq<u32>| #[trigger] magic_record(s, side as int, max_val) implies seq_views(
            result@,
        ).contains(s) by {
            let c = lemma_sorted_version(s);
            assert forall|t: int| 0 <= t < c.len() implies 1 <= #[trigger] c[t] <= max_val by {
                assert(c.contains(c[t]));
                assert(s.contains(c[t]));
                let u = choose|u: int| 0 <= u < s.len() && s[u] == c[t];
                assert(1 <= s[u] <= max_val);
            }
            assert(is_combination(c, max_val, k as int));
            let ci = choose|ci: int| 0 <= ci < combos@.len() && combos@[ci]@ == c;
            assert(s.to_multiset() == combos@[ci]@.to_multiset());
            let i = choose|i: int| 0 <= i < result@.len() && result@[i]@ == s;
            assert(seq_views(result@)[i] == s);
        }
    }
    result
}

/// One round of the anchored-incremental strategy: draws every candidate
/// set made of `side * side - 1` values from `{1 .. max_val - 1}` with
/// `max_val` forced in as the final element, and keeps exactly the magic
/// orderings; these are exactly the records that the bound `max_val`
/// newly makes possible.
#[verifier::rlimit(30)]
pub fn search_m_square_iterative(max_val: u32, side: usize) -> (r: Vec<Vec<u32>>)
    requires
        side >= 1,
        side * side <= usize::MAX,
    ensures
        anchored_round_results(seq_views(r@), side as int, max_val),
{
    let k = side * side;
    proof {
        assert(k >= 1) by (nonlinear_arith)
            requires
                side >= 1,
                k == side * side,
        ;
    }
    if max_val == 0 {
        let result: Vec<Vec<u32>> = Vec::new();
        proof {
            assert forall|s: Seq<u32>|
                #[trigger] magic_record(s, side as int, 0u32) && s.contains(
                    0u32,
                ) implies seq_views(result@).contains(s) by {
                assert(s.len() == side * side);
                assert(1 <= s[0] <= 0);
            }
        }
        return result;
    }
    let base = combinations_upto(max_val - 1, k - 1);
    let mut anchored: Vec<Vec<u32>> = Vec::new();
    let mut bi: usize = 0;
    while bi < base.len()
        invariant
            0 <= bi <= base@.len(),
            anchored@.len() == bi,
            forall|t: int| 0 <= t < bi ==> (#[trigger] anchored@[t]@) == base@[t]@.push(max_val),
        decreases base@.len() - bi,
    {
        let mut v = base[bi].clone();
        proof {
            assert(v@ =~= base@[bi as int]@);
        }
        v.push(max_val);
        anchored.push(v);
        bi = bi + 1;
    }
    proof {
        assert forall|t: int| 0 <= t < anchored@.len() implies increasing(#[trigger] anchored@[t]@)
            && in_domain(anchored@[t]@, max_val) && anchored@[t]@.no_duplicates()
            && anchored@[t]@.len() == side * side && anchored@[t]@.contains(max_val) by {
            assert(is_combination(base@[t]@, (max_val - 1) as u32, k as int - 1));
            lemma_push_anchor(base@[t]@, max_val);
        }
        assert forall|t: int, u: int|
            0 <= t < u < anchored@.len() implies (#[trigger] anchored@[t]@).to_multiset() != (
            #[trigger] anchored@[u]@).to_multiset() by {
            if anchored@[t]@.to_multiset() == anchored@[u]@.to_multiset() {
                lemma_increasing_unique(anchored@[t]@, anchored@[u]@);
                lemma_push_injective(base@[t]@, base@[u]@, max_val);
            }
        }
    }
    let result = split_combos(&anchored, side);
    proof {
        assert forall|i: int| 0 <= i < seq_views(result@).len() implies magic_record(
            #[trigger] seq_views(result@)[i],
            side as int,
            max_val,
        ) && seq_views(result@)[i].contains(max_val) by {
            assert(seq_views(result@)[i] == result@[i]@);
            let jj = choose|jj: int|
                0 <= jj < anchored@.len() && result@[i]@.to_multiset()
                    == anchored@[jj]@.to_multiset();
            lemma_multiset_transfer(result@[i]@, anchored@[jj]@);
            assert forall|t: int| 0 <= t < result@[i]@.len() implies 1 <= #[trigger] result@[i]@[t]
                <= max_val by {
                assert(result@[i]@.contains(result@[i]@[t]));
                assert(anchored@[jj]@.contains(result@[i]@[t]));
                let u = choose|u: int|
                    0 <= u < anchored@[jj]@.len() && anchored@[jj]@[u] == result@[i]@[t];
                assert(1 <= anchored@[jj]@[u] <= max_val);
            }
        }
        assert forall|i: int, j: int|
            0 <= i < j < seq_views(result@).len() implies seq_views(result@)[i] != seq_views(
            result@,
        )[j] by {
            assert(seq_views(result@)[i] == result@[i]@);
            assert(seq_views(result@)[j] == result@[j]@);
        }
        assert forall|s: Seq<u32>|
            #[trigger] magic_record(s, side as int, max_val) && s.contains(
                max_val,
            ) implies seq_views(result@).contains(s) by {
            let c = lemma_sorted_version(s);
            assert forall|t: int| 0 <= t < c.len() implies 1 <= #[trigger] c[t] <= max_val by {
                assert(c.contains(c[t]));
                assert(s.contains(c[t]));
                let u = choose|u: int| 0 <= u < s.len() && s[u] == c[t];
                assert(1 <= s[u] <= max_val);
            }
            assert(s.len() >= 1) by (nonlinear_arith)
                requires
                    side >= 1,
                    s.len() == side * side,
            ;
            assert(c.contains(max_val));
            lemma_anchored_shape(c, max_val);
            let prefix = c.subrange(0, c.len() - 1);
            assert(is_combination(prefix, (max_val - 1) as u32, k as int - 1));
            let t = choose|t: int| 0 <= t < base@.len() && base@[t]@ == prefix;
            assert(anchored@[t]@ == prefix.push(max_val));
            assert(anchored@[t]@ == c);
            assert(s.to_multiset() == anchored@[t]@.to_multiset());
            let i = choose|i: int| 0 <= i < result@.len() && result@[i]@ == s;
            assert(seq_views(result@)[i] == s);
        }
    }
    result
}

} // verus!
