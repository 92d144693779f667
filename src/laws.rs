//! Properties of the sort that are stated over its results rather than on a
//! single call: each is proved from the contract of `merge_sort`, `sorts_to`.
use vstd::prelude::*;
use vstd::relations::sorted_by;

use crate::model::{sorted, sorts_to, stable_origins, stable_placement};

verus! {

/// In a sorted result every element is at most the one right after it.
pub proof fn lemma_sorted_adjacent(s: Seq<i32>, t: Seq<i32>)
    requires
        sorts_to(s, t),
    ensures
        forall|k: int| 0 <= k < t.len() - 1 ==> #[trigger] t[k] <= t[k + 1],
{
    assert forall|k: int| 0 <= k < t.len() - 1 implies #[trigger] t[k] <= t[k + 1] by {
        assert(sorted(t));
    }
}

/// A sorted result is a permutation of the input: it holds the same elements,
/// each as often, and has the same length.
pub proof fn lemma_sort_permutation(s: Seq<i32>, t: Seq<i32>)
    requires
        sorts_to(s, t),
    ensures
        t.to_multiset() == s.to_multiset(),
        t.len() == s.len(),
{
    s.to_multiset_ensures();
    t.to_multiset_ensures();
}

/// Sorting a sorted result again gives it back unchanged.
pub proof fn lemma_sort_idempotent(s: Seq<i32>, t: Seq<i32>, u: Seq<i32>)
    requires
        sorts_to(s, t),
        sorts_to(t, u),
    ensures
        u == t,
{
    let leq = |a: i32, b: i32| a <= b;
    assert(sorted_by(t, leq));
    assert(sorted_by(u, leq));
    vstd::seq_lib::lemma_sorted_unique(t, u, leq);
}

/// The sort is stable: every element of the input lands at its own place in
/// the result, and of two equal elements the one earlier in the input lands
/// earlier in the result.
pub proof fn lemma_sort_stable(s: Seq<i32>, t: Seq<i32>)
    requires
        sorts_to(s, t),
    ensures
        exists|pos: Seq<int>| #[trigger] stable_placement(s, t, pos),
{
    let p = choose|p: Seq<int>| stable_origins(s, t, p);
    let n = s.len() as int;
    assert(p.no_duplicates()) by {
        assert forall|a: int, b: int| 0 <= a < p.len() && 0 <= b < p.len() && a != b implies p[a]
            != p[b] by {
            if a < b {
                assert(p[a] != p[b]);
            } else {
                assert(p[b] != p[a]);
            }
        }
    }
    p.unique_seq_to_set();
    vstd::set_lib::lemma_int_range(0, n);
    assert(p.to_set().subset_of(vstd::set_lib::set_int_range(0, n)));
    vstd::seq_lib::seq_to_set_is_finite(p);
    vstd::set_lib::lemma_subset_equality(p.to_set(), vstd::set_lib::set_int_range(0, n));
    assert forall|i: int| 0 <= i < n implies #[trigger] p.contains(i) by {
        assert(vstd::set_lib::set_int_range(0, n).contains(i));
        assert(p.to_set().contains(i));
    }
    let pos = Seq::new(s.len(), |i: int| choose|k: int| 0 <= k < p.len() && p[k] == i);
    assert forall|i: int| 0 <= i < pos.len() implies 0 <= #[trigger] pos[i] < t.len() && t[pos[i]]
        == s[i] && p[pos[i]] == i by {
        assert(p.contains(i));
    }
    assert forall|i: int, j: int| 0 <= i < j < pos.len() implies #[trigger] pos[i]
        != #[trigger] pos[j] && (s[i] == s[j] ==> pos[i] < pos[j]) by {
        assert(p.contains(i) && p.contains(j));
        let a = pos[i];
        let b = pos[j];
        assert(p[a] == i && p[b] == j);
        if b < a {
            assert(p[b] != p[a]);
        }
    }
    assert(stable_placement(s, t, pos));
}

} // verus!
