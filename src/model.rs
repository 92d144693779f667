//! The mathematical model: what it means for a sequence to be sorted, to be a
//! stable rearrangement of another, and to interleave two others.
use vstd::prelude::*;

verus! {

/// Every element is at most every element after it.
pub open spec fn sorted(s: Seq<i32>) -> bool {
    forall|a: int, b: int| 0 <= a < b < s.len() ==> s[a] <= s[b]
}

/// `p` gives, for each position of `out`, the position of `input` its element
/// came from: `p` is one-to-one into the positions of `input`, and two equal
/// elements of `out` came from `input` in the same order.
pub open spec fn stable_origins(input: Seq<i32>, out: Seq<i32>, p: Seq<int>) -> bool {
    &&& p.len() == out.len()
    &&& out.len() == input.len()
    &&& forall|k: int|
        0 <= k < p.len() ==> 0 <= #[trigger] p[k] < input.len() && out[k] == input[p[k]]
    &&& forall|a: int, b: int|
        0 <= a < b < p.len() ==> #[trigger] p[a] != #[trigger] p[b] && (out[a] == out[b] ==> p[a]
            < p[b])
}

/// `pos` gives, for each position of `input`, where its element lands in
/// `out`: no two positions land on the same place, and of two equal elements
/// the earlier one in `input` lands earlier in `out`.
pub open spec fn stable_placement(input: Seq<i32>, out: Seq<i32>, pos: Seq<int>) -> bool {
    &&& pos.len() == input.len()
    &&& out.len() == input.len()
    &&& forall|i: int|
        0 <= i < pos.len() ==> 0 <= #[trigger] pos[i] < out.len() && out[pos[i]] == input[i]
    &&& forall|i: int, j: int|
        0 <= i < j < pos.len() ==> #[trigger] pos[i] != #[trigger] pos[j] && (input[i] == input[j]
            ==> pos[i] < pos[j])
}

/// `out` is a stable ascending sort of `input`: it is sorted, holds the same
/// elements with the same multiplicities, and keeps equal elements in their
/// input order.
pub open spec fn sorts_to(input: Seq<i32>, out: Seq<i32>) -> bool {
    &&& sorted(out)
    &&& out.to_multiset() == input.to_multiset()
    &&& exists|p: Seq<int>| #[trigger] stable_origins(input, out, p)
}

/// `q` gives, for each position of `out`, its position in `l + r`; the elements
/// taken from `l` keep their order, and so do those taken from `r`.
pub open spec fn interleaving(l: Seq<i32>, r: Seq<i32>, out: Seq<i32>, q: Seq<int>) -> bool {
    &&& q.len() == out.len()
    &&& out.len() == l.len() + r.len()
    &&& forall|k: int|
        0 <= k < q.len() ==> 0 <= #[trigger] q[k] < l.len() + r.len() && out[k] == (l + r)[q[k]]
    &&& forall|a: int, b: int|
        0 <= a < b < q.len() && (q[a] < l.len() <==> q[b] < l.len()) ==> #[trigger] q[a]
            < #[trigger] q[b]
}

/// An element of `r` comes before an element of `l` only when it is strictly
/// smaller: on ties the element of `l` goes first.
pub open spec fn left_first(l: Seq<i32>, out: Seq<i32>, q: Seq<int>) -> bool {
    forall|a: int, b: int|
        0 <= a < b < q.len() && #[trigger] q[a] >= l.len() && #[trigger] q[b] < l.len() ==> out[a]
            < out[b]
}

} // verus!
