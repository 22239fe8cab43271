//! Laws of the search strategies, stated over the record sets that the
//! round contracts pin down and proved once and for all.

use vstd::prelude::*;
use crate::domain::in_domain;
use crate::domain::lemma_domain_bound_floor;
use crate::domain::lemma_greatest_entry;
use crate::domain::magic_record;
use crate::search::exhaustive_round_results;

verus! {

/// The set of all magic square records over the domain `{1 .. max}`:
/// what one exhaustive round reports.
pub open spec fn exhaustive_set(side: int, max: u32) -> Set<Seq<u32>> {
    Set::new(|s: Seq<u32>| magic_record(s, side, max))
}

/// The records one anchored round at bound `max` is responsible for:
/// those that use the new bound itself.
pub open spec fn anchored_set(side: int, max: u32) -> Set<Seq<u32>> {
    Set::new(|s: Seq<u32>| magic_record(s, side, max) && s.contains(max))
}

/// The union of the anchored rounds at bounds `1 ..= hi`.
pub open spec fn anchored_union(side: int, hi: u32) -> Set<Seq<u32>>
    decreases hi,
{
    if hi == 0 {
        Set::empty()
    } else {
        anchored_union(side, (hi - 1) as u32).union(anchored_set(side, hi))
    }
}

/// Membership in the union of rounds is membership in some round.
proof fn lemma_anchored_union_membership(side: int, hi: u32, s: Seq<u32>)
    ensures
        anchored_union(side, hi).contains(s) <==> exists|m: u32|
            1 <= m <= hi && (#[trigger] anchored_set(side, m)).contains(s),
    decreases hi,
{
    if hi != 0 {
        lemma_anchored_union_membership(side, (hi - 1) as u32, s);
        if anchored_union(side, hi).contains(s) {
            if anchored_set(side, hi).contains(s) {
                assert(1 <= hi <= hi && anchored_set(side, hi).contains(s));
            }
        }
        if exists|m: u32| 1 <= m <= hi && (#[trigger] anchored_set(side, m)).contains(s) {
            let m = choose|m: u32| 1 <= m <= hi && (#[trigger] anchored_set(side, m)).contains(s);
            if m < hi {
                assert(1 <= m <= hi - 1 && anchored_set(side, m).contains(s));
            }
        }
    }
}

/// Anchored-incremental equivalence: raising the domain bound one step at
/// a time and keeping only each round's anchored records reaches, in
/// union, exactly the records of a single exhaustive round at the final
/// bound — no omissions, since every record belongs to the round of its
/// greatest value, whose bound a record of distinct positive values never
/// reaches before the rounds do.
pub proof fn lemma_anchored_union_is_exhaustive(side: int, k: u32)
    requires
        side >= 1,
    ensures
        anchored_union(side, k) =~= exhaustive_set(side, k),
{
    assert forall|s: Seq<u32>| anchored_union(side, k).contains(s) implies exhaustive_set(
        side,
        k,
    ).contains(s) by {
        lemma_anchored_union_membership(side, k, s);
        let m = choose|m: u32| 1 <= m <= k && (#[trigger] anchored_set(side, m)).contains(s);
        assert(magic_record(s, side, m));
        assert forall|i: int| 0 <= i < s.len() implies 1 <= #[trigger] s[i] <= k by {
            assert(1 <= s[i] <= m);
        }
    }
    assert forall|s: Seq<u32>| exhaustive_set(side, k).contains(s) implies anchored_union(
        side,
        k,
    ).contains(s) by {
        assert(s.len() >= 1) by (nonlinear_arith)
            requires
                side >= 1,
                s.len() == side * side,
        ;
        let m = lemma_greatest_entry(s);
        let t = choose|t: int| 0 <= t < s.len() && s[t] == m;
        assert(1 <= m <= k);
        assert(in_domain(s, m));
        assert(anchored_set(side, m).contains(s));
        lemma_anchored_union_membership(side, k, s);
    }
}

/// Distinct anchored rounds never report the same record: a record of
/// round `m` contains `m` as an entry and no entry above it.
pub proof fn lemma_anchored_rounds_disjoint(side: int, m1: u32, m2: u32)
    requires
        m1 != m2,
    ensures
        anchored_set(side, m1).disjoint(anchored_set(side, m2)),
{
    assert forall|s: Seq<u32>| anchored_set(side, m1).contains(s) implies !anchored_set(
        side,
        m2,
    ).contains(s) by {
        if anchored_set(side, m2).contains(s) {
            let t1 = choose|t: int| 0 <= t < s.len() && s[t] == m1;
            let t2 = choose|t: int| 0 <= t < s.len() && s[t] == m2;
            assert(s[t1] <= m2);
            assert(s[t2] <= m1);
        }
    }
}

/// Idempotence up to ordering: any two lists that satisfy the exhaustive
/// round contract for one side and bound hold the same records, so two
/// runs with identical inputs return result sets equal up to ordering.
pub proof fn lemma_exhaustive_idempotent(rs1: Seq<Seq<u32>>, rs2: Seq<Seq<u32>>, side: int, max: u32)
    requires
        exhaustive_round_results(rs1, side, max),
        exhaustive_round_results(rs2, side, max),
    ensures
        rs1.to_multiset() == rs2.to_multiset(),
{
    broadcast use vstd::seq_lib::group_to_multiset_ensures;

    assert(rs1.no_duplicates());
    assert(rs2.no_duplicates());
    rs1.lemma_multiset_has_no_duplicates();
    rs2.lemma_multiset_has_no_duplicates();
    assert forall|x: Seq<u32>| rs1.contains(x) <==> rs2.contains(x) by {
        if rs1.contains(x) {
            let i = choose|i: int| 0 <= i < rs1.len() && rs1[i] == x;
            assert(magic_record(rs1[i], side, max));
            assert(magic_record(x, side, max));
        }
        if rs2.contains(x) {
            let i = choose|i: int| 0 <= i < rs2.len() && rs2[i] == x;
            assert(magic_record(rs2[i], side, max));
            assert(magic_record(x, side, max));
        }
    }
    assert forall|x: Seq<u32>| rs1.to_multiset().count(x) == rs2.to_multiset().count(x) by {
        if rs1.contains(x) {
            assert(rs1.to_multiset().contains(x));
            assert(rs2.to_multiset().contains(x));
            assert(rs1.to_multiset().count(x) == 1);
            assert(rs2.to_multiset().count(x) == 1);
        } else {
            assert(rs1.to_multiset().count(x) == 0);
            assert(rs2.to_multiset().count(x) == 0);
        }
    }
    assert(rs1.to_multiset() =~= rs2.to_multiset());
}

/// A domain with fewer values than one candidate set needs gives an
/// empty round: no error, just no records.
pub proof fn lemma_small_domain_empty(side: int, max: u32)
    requires
        side >= 1,
        (max as int) < side * side,
    ensures
        exhaustive_set(side, max) =~= Set::<Seq<u32>>::empty(),
{
    assert forall|s: Seq<u32>| !(#[trigger] exhaustive_set(side, max).contains(s)) by {
        if magic_record(s, side, max) {
            lemma_domain_bound_floor(s, side, max);
        }
    }
}

} // verus!
