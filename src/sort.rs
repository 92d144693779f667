//! Two-cursor merge of sorted vectors, and the top-down merge sort built on it.
use vstd::multiset::Multiset;
use vstd::prelude::*;

use crate::model::{interleaving, left_first, sorted, sorts_to, stable_origins};

verus! {

broadcast use vstd::seq_lib::group_to_multiset_ensures, vstd::multiset::group_multiset_axioms;

/// The state of `merge` after it has emitted `l[..i]` and `r[..j]` into `out`,
/// with `q` recording where in `l + r` each emitted element came from.
spec fn merged_prefix(l: Seq<i32>, r: Seq<i32>, out: Seq<i32>, q: Seq<int>, i: int, j: int) -> bool {
    &&& 0 <= i <= l.len()
    &&& 0 <= j <= r.len()
    &&& out.len() == i + j
    &&& q.len() == out.len()
    &&& out.to_multiset() == l.take(i).to_multiset().add(r.take(j).to_multiset())
    &&& forall|k: int|
        0 <= k < q.len() ==> (0 <= #[trigger] q[k] < i || l.len() <= q[k] < l.len() + j) && out[k]
            == (l + r)[q[k]]
    &&& forall|a: int, b: int|
        0 <= a < b < q.len() && (q[a] < l.len() <==> q[b] < l.len()) ==> #[trigger] q[a]
            < #[trigger] q[b]
    &&& sorted(l) && sorted(r) ==> {
        &&& sorted(out)
        &&& forall|k: int, x: int|
            0 <= k < out.len() && i <= x < l.len() ==> #[trigger] out[k] <= #[trigger] l[x]
        &&& forall|k: int, y: int|
            0 <= k < out.len() && j <= y < r.len() ==> #[trigger] out[k] <= #[trigger] r[y]
        &&& forall|k: int, x: int|
            0 <= k < out.len() && q[k] >= l.len() && i <= x < l.len() ==> #[trigger] out[k]
                < #[trigger] l[x]
        &&& left_first(l, out, q)
    }
}

/// Emitting `l[i]` keeps the merge state, provided that on sorted inputs it is
/// not larger than the next element of `r`.
proof fn lemma_take_left(l: Seq<i32>, r: Seq<i32>, out: Seq<i32>, q: Seq<int>, i: int, j: int)
    requires
        merged_prefix(l, r, out, q, i, j),
        i < l.len(),
        sorted(l) && sorted(r) && j < r.len() ==> l[i] <= r[j],
    ensures
        merged_prefix(l, r, out.push(l[i]), q.push(i), i + 1, j),
{
    let out2 = out.push(l[i]);
    let q2 = q.push(i);
    assert(l.take(i + 1) =~= l.take(i).push(l[i]));
    assert(out2.to_multiset() =~= l.take(i + 1).to_multiset().add(r.take(j).to_multiset()));
    assert forall|k: int|
        0 <= k < q2.len() implies (0 <= #[trigger] q2[k] < i + 1 || l.len() <= q2[k] < l.len()
        + j) && out2[k] == (l + r)[q2[k]] by {
        if k < q.len() {
            assert(q2[k] == q[k]);
        }
    }
    assert forall|a: int, b: int|
        0 <= a < b < q2.len() && (q2[a] < l.len() <==> q2[b] < l.len()) implies #[trigger] q2[a]
        < #[trigger] q2[b] by {
        if b < q.len() {
            assert(q[a] < q[b]);
        } else {
            assert(q[a] < i);
        }
    }
    if sorted(l) && sorted(r) {
        assert forall|a: int, b: int| 0 <= a < b < out2.len() implies out2[a] <= out2[b] by {
            if b == out.len() {
                assert(out[a] <= l[i]);
            }
        }
        assert forall|a: int, b: int|
            0 <= a < b < q2.len() && #[trigger] q2[a] >= l.len() && #[trigger] q2[b] < l.len()
            implies out2[a] < out2[b] by {
            if b == q.len() {
                assert(out[a] < l[i]);
            } else {
                assert(q2[a] == q[a] && q2[b] == q[b]);
            }
        }
        assert forall|k: int, y: int|
            0 <= k < out2.len() && j <= y < r.len() implies #[trigger] out2[k] <= #[trigger] r[y] by {
            if k == out.len() {
                assert(r[j] <= r[y]);
            }
        }
        assert forall|k: int, x: int|
            0 <= k < out2.len() && i + 1 <= x < l.len() implies #[trigger] out2[k]
            <= #[trigger] l[x] by {
            if k == out.len() {
                assert(l[i] <= l[x]);
            }
        }
    }
}

/// Emitting `r[j]` keeps the merge state, provided that on sorted inputs it is
/// strictly smaller than the next element of `l`.
proof fn lemma_take_right(l: Seq<i32>, r: Seq<i32>, out: Seq<i32>, q: Seq<int>, i: int, j: int)
    requires
        merged_prefix(l, r, out, q, i, j),
        j < r.len(),
        sorted(l) && sorted(r) && i < l.len() ==> r[j] < l[i],
    ensures
        merged_prefix(l, r, out.push(r[j]), q.push(l.len() + j), i, j + 1),
{
    let out2 = out.push(r[j]);
    let q2 = q.push(l.len() + j);
    assert(r.take(j + 1) =~= r.take(j).push(r[j]));
    assert(out2.to_multiset() =~= l.take(i).to_multiset().add(r.take(j + 1).to_multiset()));
    assert forall|k: int|
        0 <= k < q2.len() implies (0 <= #[trigger] q2[k] < i || l.len() <= q2[k] < l.len() + j
        + 1) && out2[k] == (l + r)[q2[k]] by {
        if k < q.len() {
            assert(q2[k] == q[k]);
        }
    }
    assert forall|a: int, b: int|
        0 <= a < b < q2.len() && (q2[a] < l.len() <==> q2[b] < l.len()) implies #[trigger] q2[a]
        < #[trigger] q2[b] by {
        if b < q.len() {
            assert(q[a] < q[b]);
        } else {
            assert(q[a] < l.len() + j);
        }
    }
    if sorted(l) && sorted(r) {
        assert forall|a: int, b: int| 0 <= a < b < out2.len() implies out2[a] <= out2[b] by {
            if b == out.len() {
                assert(out[a] <= r[j]);
            }
        }
        assert forall|a: int, b: int|
            0 <= a < b < q2.len() && #[trigger] q2[a] >= l.len() && #[trigger] q2[b] < l.len()
            implies out2[a] < out2[b] by {
            assert(b < q.len());
            assert(q2[a] == q[a] && q2[b] == q[b]);
        }
        assert forall|k: int, y: int|
            0 <= k < out2.len() && j + 1 <= y < r.len() implies #[trigger] out2[k]
            <= #[trigger] r[y] by {
            if k == out.len() {
                assert(r[j] <= r[y]);
            }
        }
        assert forall|k: int, x: int|
            0 <= k < out2.len() && i <= x < l.len() implies #[trigger] out2[k] <= #[trigger] l[x]
            && (q2[k] >= l.len() ==> out2[k] < l[x]) by {
            if k == out.len() {
                assert(l[i] <= l[x]);
            }
        }
    }
}

/// Once `r` is used up, emitting the rest of `l` in order completes the merge.
proof fn lemma_left_tail(l: Seq<i32>, r: Seq<i32>, out: Seq<i32>, q: Seq<int>, i: int)
    requires
        merged_prefix(l, r, out, q, i, r.len() as int),
    ensures
        merged_prefix(
            l,
            r,
            out + l.subrange(i, l.len() as int),
            q + Seq::new((l.len() - i) as nat, |k: int| i + k),
            l.len() as int,
            r.len() as int,
        ),
    decreases l.len() - i,
{
    if i < l.len() {
        lemma_take_left(l, r, out, q, i, r.len() as int);
        lemma_left_tail(l, r, out.push(l[i]), q.push(i), i + 1);
        assert(out.push(l[i]) + l.subrange(i + 1, l.len() as int) =~= out + l.subrange(
            i,
            l.len() as int,
        ));
        assert(q.push(i) + Seq::new((l.len() - (i + 1)) as nat, |k: int| (i + 1) + k) =~= q
            + Seq::new((l.len() - i) as nat, |k: int| i + k));
    } else {
        assert(out + l.subrange(i, l.len() as int) =~= out);
        assert(q + Seq::new((l.len() - i) as nat, |k: int| i + k) =~= q);
    }
}

/// Once `l` is used up, emitting the rest of `r` in order completes the merge.
proof fn lemma_right_tail(l: Seq<i32>, r: Seq<i32>, out: Seq<i32>, q: Seq<int>, j: int)
    requires
        merged_prefix(l, r, out, q, l.len() as int, j),
    ensures
        merged_prefix(
            l,
            r,
            out + r.subrange(j, r.len() as int),
            q + Seq::new((r.len() - j) as nat, |k: int| l.len() + j + k),
            l.len() as int,
            r.len() as int,
        ),
    decreases r.len() - j,
{
    if j < r.len() {
        lemma_take_right(l, r, out, q, l.len() as int, j);
        lemma_right_tail(l, r, out.push(r[j]), q.push(l.len() + j), j + 1);
        assert(out.push(r[j]) + r.subrange(j + 1, r.len() as int) =~= out + r.subrange(
            j,
            r.len() as int,
        ));
        assert(q.push(l.len() + j) + Seq::new(
            (r.len() - (j + 1)) as nat,
            |k: int| l.len() + (j + 1) + k,
        ) =~= q + Seq::new((r.len() - j) as nat, |k: int| l.len() + j + k));
    } else {
        assert(out + r.subrange(j, r.len() as int) =~= out);
        assert(q + Seq::new((r.len() - j) as nat, |k: int| l.len() + j + k) =~= q);
    }
}

/// With both inputs used up, the merge state gives what `merge` promises.
proof fn lemma_merge_done(l: Seq<i32>, r: Seq<i32>, out: Seq<i32>, q: Seq<int>)
    requires
        merged_prefix(l, r, out, q, l.len() as int, r.len() as int),
    ensures
        out.to_multiset() == (l + r).to_multiset(),
        interleaving(l, r, out, q),
        sorted(l) && sorted(r) ==> left_first(l, out, q) && sorted(out),
{
    assert(l.take(l.len() as int) =~= l);
    assert(r.take(r.len() as int) =~= r);
    vstd::seq_lib::lemma_multiset_commutative(l, r);
}

/// Merges two vectors into one holding the elements of both. On sorted inputs
/// the result is sorted, and on ties the element of `left` comes first.
pub fn merge(left: Vec<i32>, right: Vec<i32>) -> (result: Vec<i32>)
    ensures
        result@.len() == left@.len() + right@.len(),
        result@.to_multiset() == (left@ + right@).to_multiset(),
        exists|q: Seq<int>|
            #[trigger] interleaving(left@, right@, result@, q) && (sorted(left@) && sorted(right@)
                ==> left_first(left@, result@, q)),
        sorted(left@) && sorted(right@) ==> sorted(result@),
{
    let mut result: Vec<i32> = Vec::new();
    let mut i: usize = 0;
    let mut j: usize = 0;
    let ghost mut q: Seq<int> = Seq::empty();
    proof {
        assert(left@.take(0) =~= Seq::<i32>::empty());
        assert(right@.take(0) =~= Seq::<i32>::empty());
        assert(result@ =~= Seq::<i32>::empty());
        vstd::multiset::lemma_multiset_empty_len(Seq::<i32>::empty().to_multiset());
        assert(Seq::<i32>::empty().to_multiset() =~= Multiset::empty());
        assert(result@.to_multiset() == left@.take(0).to_multiset().add(
            right@.take(0).to_multiset(),
        ));
    }
    while i < left.len() && j < right.len()
        invariant
            merged_prefix(left@, right@, result@, q, i as int, j as int),
        decreases left@.len() + right@.len() - i - j,
    {
        if left[i] <= right[j] {
            proof {
                lemma_take_left(left@, right@, result@, q, i as int, j as int);
                q = q.push(i as int);
            }
            result.push(left[i]);
            i += 1;
        } else {
            proof {
                lemma_take_right(left@, right@, result@, q, i as int, j as int);
                q = q.push(left@.len() + j);
            }
            result.push(right[j]);
            j += 1;
        }
    }
    let ghost emitted = result@;
    result.extend_from_slice(&left[i..left.len()]);
    assert(result@ =~= emitted + left@.subrange(i as int, left@.len() as int));
    let ghost with_left = result@;
    result.extend_from_slice(&right[j..right.len()]);
    assert(result@ =~= with_left + right@.subrange(j as int, right@.len() as int));
    proof {
        if j == right.len() {
            lemma_left_tail(left@, right@, emitted, q, i as int);
            q = q + Seq::new((left@.len() - i) as nat, |k: int| i + k);
            assert(right@.subrange(j as int, right@.len() as int) =~= Seq::<i32>::empty());
        } else {
            assert(left@.subrange(i as int, left@.len() as int) =~= Seq::<i32>::empty());
            assert(with_left =~= emitted);
            lemma_right_tail(left@, right@, emitted, q, j as int);
            q = q + Seq::new((right@.len() - j) as nat, |k: int| left@.len() + j + k);
        }
        lemma_merge_done(left@, right@, result@, q);
    }
    result
}

/// Leaving a sequence as it is keeps every element at its own position.
proof fn lemma_identity_origins(s: Seq<i32>)
    ensures
        stable_origins(s, s, Seq::new(s.len(), |k: int| k)),
{
}

/// Sorting two halves stably and merging them with ties going to the left half
/// gives a stable rearrangement of the whole: each element's origin is its
/// origin in its half, shifted by the length of `l` for the right half.
proof fn lemma_compose_origins(
    l: Seq<i32>,
    r: Seq<i32>,
    sl: Seq<i32>,
    sr: Seq<i32>,
    out: Seq<i32>,
    pl: Seq<int>,
    pr: Seq<int>,
    q: Seq<int>,
)
    requires
        stable_origins(l, sl, pl),
        stable_origins(r, sr, pr),
        interleaving(sl, sr, out, q),
        left_first(sl, out, q),
    ensures
        stable_origins(
            l + r,
            out,
            Seq::new(
                out.len(),
                |k: int|
                    if q[k] < sl.len() {
                        pl[q[k]]
                    } else {
                        l.len() + pr[q[k] - sl.len()]
                    },
            ),
        ),
{
    let s = l + r;
    let p = Seq::new(
        out.len(),
        |k: int|
            if q[k] < sl.len() {
                pl[q[k]]
            } else {
                l.len() + pr[q[k] - sl.len()]
            },
    );
    assert forall|k: int| 0 <= k < p.len() implies 0 <= #[trigger] p[k] < s.len() && out[k] == s[p[k]]
        && (q[k] < sl.len() <==> p[k] < l.len()) by {
        assert(0 <= q[k] < sl.len() + sr.len());
        if q[k] < sl.len() {
            assert(0 <= pl[q[k]] < l.len());
        } else {
            assert(0 <= pr[q[k] - sl.len()] < r.len());
        }
    }
    assert forall|a: int, b: int| 0 <= a < b < p.len() implies #[trigger] p[a] != #[trigger] p[b]
        && (out[a] == out[b] ==> p[a] < p[b]) by {
        assert(0 <= q[a] < sl.len() + sr.len());
        assert(0 <= q[b] < sl.len() + sr.len());
        if q[a] < sl.len() && q[b] < sl.len() {
            assert(q[a] < q[b]);
            assert(pl[q[a]] != pl[q[b]]);
        } else if q[a] >= sl.len() && q[b] >= sl.len() {
            assert(q[a] < q[b]);
            let x = q[a] - sl.len();
            let y = q[b] - sl.len();
            assert(pr[x] != pr[y]);
            assert(out[a] == sr[x] && out[b] == sr[y]);
        } else if q[a] >= sl.len() {
            assert(out[a] < out[b]);
        }
    }
}

/// Sorts `arr` ascending and stably: each half is sorted on its own, and the
/// two sorted halves are merged.
pub fn merge_sort(arr: Vec<i32>) -> (result: Vec<i32>)
    ensures
        sorts_to(arr@, result@),
        arr@.len() <= 1 ==> result@ == arr@,
    decreases arr@.len(),
{
    let len = arr.len();
    if len <= 1 {
        proof {
            lemma_identity_origins(arr@);
        }
        return arr;
    }
    let mid = len / 2;
    let mut left_half = arr;
    let right_half = left_half.split_off(mid);
    let left = merge_sort(left_half);
    let right = merge_sort(right_half);
    let ghost sl = left@;
    let ghost sr = right@;
    let result = merge(left, right);
    proof {
        let l = arr@.subrange(0, mid as int);
        let r = arr@.subrange(mid as int, len as int);
        assert(arr@ =~= l + r);
        vstd::seq_lib::lemma_multiset_commutative(sl, sr);
        vstd::seq_lib::lemma_multiset_commutative(l, r);
        let pl = choose|pl: Seq<int>| stable_origins(l, sl, pl);
        let pr = choose|pr: Seq<int>| stable_origins(r, sr, pr);
        let q = choose|q: Seq<int>| interleaving(sl, sr, result@, q) && left_first(sl, result@, q);
        lemma_compose_origins(l, r, sl, sr, result@, pl, pr, q);
    }
    result
}

} // verus!
