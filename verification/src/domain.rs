//! The value domain and the shapes of candidate sets and records:
//! spec-level vocabulary shared by the enumerators, the search and the laws,
//! with the transfer lemmas that move facts across multiset equality.

use vstd::prelude::*;
use crate::checker::is_magic;

verus! {

/// The element-wise views of a sequence of vectors.
pub open spec fn seq_views(v: Seq<Vec<u32>>) -> Seq<Seq<u32>> {
    Seq::new(v.len(), |i: int| v[i]@)
}

/// Every entry is drawn from the value domain `{1 .. max}`.
pub open spec fn in_domain(s: Seq<u32>, max: u32) -> bool {
    forall|i: int| 0 <= i < s.len() ==> 1 <= #[trigger] s[i] <= max
}

/// The entries are strictly increasing.
pub open spec fn increasing(s: Seq<u32>) -> bool {
    forall|i: int, j: int| 0 <= i < j < s.len() ==> #[trigger] s[i] < #[trigger] s[j]
}

/// A candidate combination: `k` strictly increasing values from `{1 .. max}`.
pub open spec fn is_combination(s: Seq<u32>, max: u32, k: int) -> bool {
    &&& s.len() == k
    &&& increasing(s)
    &&& in_domain(s, max)
}

/// A magic square record over the domain `{1 .. max}`: `side * side`
/// pairwise-distinct values from the domain whose row-major grid is magic.
pub open spec fn magic_record(s: Seq<u32>, side: int, max: u32) -> bool {
    &&& s.len() == side * side
    &&& s.no_duplicates()
    &&& in_domain(s, max)
    &&& is_magic(s, side)
}

/// The non-strict order on `u32`, as a spec-level relation.
pub open spec fn u32_le() -> spec_fn(u32, u32) -> bool {
    |x: u32, y: u32| x <= y
}

/// `u32_le()` is a total ordering, so the sorting lemmas of vstd apply to it.
pub proof fn lemma_u32_le_total_ordering()
    ensures
        vstd::relations::total_ordering(u32_le()),
{
    assert(vstd::relations::reflexive(u32_le()));
    assert(vstd::relations::antisymmetric(u32_le()));
    assert(vstd::relations::transitive(u32_le()));
    assert(vstd::relations::strongly_connected(u32_le()));
}

/// A strictly increasing sequence is sorted and has no duplicates.
pub proof fn lemma_increasing_properties(s: Seq<u32>)
    requires
        increasing(s),
    ensures
        vstd::relations::sorted_by(s, u32_le()),
        s.no_duplicates(),
{
    assert forall|i: int, j: int| 0 <= i < j < s.len() implies u32_le()(s[i], s[j]) by {
        assert(s[i] < s[j]);
    }
}

/// A sorted sequence without duplicates is strictly increasing.
pub proof fn lemma_sorted_no_dup_increasing(s: Seq<u32>)
    requires
        vstd::relations::sorted_by(s, u32_le()),
        s.no_duplicates(),
    ensures
        increasing(s),
{
    assert forall|i: int, j: int| 0 <= i < j < s.len() implies s[i] < s[j] by {
        assert(u32_le()(s[i], s[j]));
        assert(s[i] != s[j]);
    }
}

/// Sequences with equal multisets have the same length, the same members,
/// and are duplicate-free together.
pub proof fn lemma_multiset_transfer(a: Seq<u32>, b: Seq<u32>)
    requires
        a.to_multiset() == b.to_multiset(),
    ensures
        a.len() == b.len(),
        forall|x: u32| a.contains(x) <==> b.contains(x),
        a.no_duplicates() <==> b.no_duplicates(),
{
    broadcast use vstd::seq_lib::group_to_multiset_ensures;

    assert(a.len() == a.to_multiset().len());
    assert(b.len() == b.to_multiset().len());
    assert forall|x: u32| a.contains(x) <==> b.contains(x) by {
        assert(a.contains(x) <==> a.to_multiset().count(x) > 0);
        assert(b.contains(x) <==> b.to_multiset().count(x) > 0);
    }
    if a.no_duplicates() {
        a.lemma_multiset_has_no_duplicates();
        b.lemma_multiset_has_no_duplicates_conv();
    }
    if b.no_duplicates() {
        b.lemma_multiset_has_no_duplicates();
        a.lemma_multiset_has_no_duplicates_conv();
    }
}

/// Two strictly increasing sequences with one multiset are one sequence.
pub proof fn lemma_increasing_unique(a: Seq<u32>, b: Seq<u32>)
    requires
        increasing(a),
        increasing(b),
        a.to_multiset() == b.to_multiset(),
    ensures
        a == b,
{
    lemma_u32_le_total_ordering();
    lemma_increasing_properties(a);
    lemma_increasing_properties(b);
    vstd::seq_lib::lemma_sorted_unique(a, b, u32_le());
}

/// The strictly increasing arrangement of a duplicate-free sequence:
/// it exists, carries the same multiset, and keeps the domain bound.
pub proof fn lemma_sorted_version(s: Seq<u32>) -> (c: Seq<u32>)
    requires
        s.no_duplicates(),
    ensures
        c.to_multiset() == s.to_multiset(),
        c.len() == s.len(),
        increasing(c),
        forall|x: u32| c.contains(x) <==> s.contains(x),
{
    lemma_u32_le_total_ordering();
    let c = s.sort_by(u32_le());
    s.lemma_sort_by_ensures(u32_le());
    lemma_multiset_transfer(c, s);
    lemma_sorted_no_dup_increasing(c);
    c
}

/// Appending a value strictly above every entry of a combination over
/// `{1 .. max - 1}` gives a combination over `{1 .. max}` that ends in,
/// and so contains, the appended value.
pub proof fn lemma_push_anchor(b: Seq<u32>, max: u32)
    requires
        max >= 1,
        increasing(b),
        in_domain(b, (max - 1) as u32),
    ensures
        increasing(b.push(max)),
        in_domain(b.push(max), max),
        b.push(max).no_duplicates(),
        b.push(max).len() == b.len() + 1,
        b.push(max).contains(max),
{
    let c = b.push(max);
    assert forall|i: int, j: int| 0 <= i < j < c.len() implies #[trigger] c[i] < #[trigger] c[j] by {
        if j < b.len() {
            assert(c[i] == b[i] && c[j] == b[j]);
        } else {
            assert(c[j] == max && c[i] == b[i]);
        }
    }
    lemma_increasing_properties(c);
    assert(c[b.len() as int] == max);
}

/// Pushing one value is injective: equal results force equal originals.
pub proof fn lemma_push_injective(a: Seq<u32>, b: Seq<u32>, x: u32)
    requires
        a.push(x) == b.push(x),
    ensures
        a == b,
{
    assert(a.push(x).len() == a.len() + 1);
    assert(b.push(x).len() == b.len() + 1);
    assert forall|i: int| 0 <= i < a.len() implies a[i] == b[i] by {
        assert(a.push(x)[i] == a[i]);
        assert(b.push(x)[i] == b[i]);
    }
    assert(a =~= b);
}

/// A strictly increasing sequence over `{1 .. max}` that contains `max`
/// ends in it, and its remainder is a combination over `{1 .. max - 1}`.
pub proof fn lemma_anchored_shape(c: Seq<u32>, max: u32)
    requires
        increasing(c),
        in_domain(c, max),
        c.contains(max),
        c.len() >= 1,
    ensures
        c[c.len() - 1] == max,
        increasing(c.subrange(0, c.len() - 1)),
        in_domain(c.subrange(0, c.len() - 1), (max - 1) as u32),
        c == c.subrange(0, c.len() - 1).push(max),
{
    let last = c.len() - 1;
    let t = choose|t: int| 0 <= t < c.len() && c[t] == max;
    if t < last {
        assert(c[t] < c[last]);
        assert(c[last] <= max);
    }
    assert(c[last] == max);
    let b = c.subrange(0, last);
    assert forall|i: int| 0 <= i < b.len() implies 1 <= #[trigger] b[i] <= max - 1 by {
        assert(b[i] == c[i]);
        assert(c[i] < c[last]);
    }
    assert(c =~= b.push(max));
}

/// In a strictly increasing sequence of values at least 1, the entry at
/// index `i` is at least `i + 1`.
pub proof fn lemma_increasing_floor(s: Seq<u32>, i: int)
    requires
        increasing(s),
        forall|j: int| 0 <= j < s.len() ==> #[trigger] s[j] >= 1,
        0 <= i < s.len(),
    ensures
        s[i] >= i + 1,
    decreases i,
{
    if i > 0 {
        lemma_increasing_floor(s, i - 1);
    }
}

/// Pigeonhole floor on the domain bound: a duplicate-free sequence of
/// `side * side` values from `{1 .. max}` forces `max >= side * side`.
pub proof fn lemma_domain_bound_floor(s: Seq<u32>, side: int, max: u32)
    requires
        side >= 1,
        s.len() == side * side,
        s.no_duplicates(),
        in_domain(s, max),
    ensures
        max as int >= side * side,
{
    let c = lemma_sorted_version(s);
    let last = c.len() - 1;
    assert(c.len() >= 1) by (nonlinear_arith)
        requires
            side >= 1,
            c.len() == side * side,
    ;
    assert(forall|j: int| 0 <= j < c.len() ==> #[trigger] c[j] >= 1) by {
        assert(forall|j: int| 0 <= j < c.len() ==> s.contains(#[trigger] c[j]));
    }
    lemma_increasing_floor(c, last);
    assert(s.contains(c[last]));
    assert(c[last] <= max);
}

/// A nonempty duplicate-free record has a greatest entry, which bounds
/// the domain it needs.
pub proof fn lemma_greatest_entry(s: Seq<u32>) -> (m: u32)
    requires
        s.len() >= 1,
        s.no_duplicates(),
    ensures
        s.contains(m),
        forall|i: int| 0 <= i < s.len() ==> #[trigger] s[i] <= m,
{
    let c = lemma_sorted_version(s);
    let last = c.len() - 1;
    let m = c[last];
    assert(c.contains(m));
    assert forall|i: int| 0 <= i < s.len() implies #[trigger] s[i] <= m by {
        assert(c.contains(s[i]));
        let j = choose|j: int| 0 <= j < c.len() && c[j] == s[i];
        if j < last {
            assert(c[j] < c[last]);
        }
    }
    m
}

} // verus!
