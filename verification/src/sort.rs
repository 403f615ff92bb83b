//! Sorting of integer pairs in lexicographic order (what `sort_unstable`
//! gives for tuples).

use vstd::prelude::*;
use vstd::relations::{sorted_by, total_ordering};

verus! {

broadcast use vstd::seq_lib::group_to_multiset_ensures, vstd::multiset::group_multiset_axioms;

/// Lexicographic order on pairs: by the first component, then the second.
pub open spec fn pair_le(a: (i64, i64), b: (i64, i64)) -> bool {
    a.0 < b.0 || (a.0 == b.0 && a.1 <= b.1)
}

/// The lexicographic order as a relation.
pub open spec fn pair_order() -> spec_fn((i64, i64), (i64, i64)) -> bool {
    |a: (i64, i64), b: (i64, i64)| pair_le(a, b)
}

/// The lexicographic order on pairs is a total order.
pub proof fn lemma_pair_order_total()
    ensures
        total_ordering(pair_order()),
{
    assert forall|x: (i64, i64), y: (i64, i64)| #[trigger] pair_order()(x, y) && #[trigger] pair_order()(y, x) implies x == y by {
    }
}

/// `pv` sorted: the pairs of `v` in lexicographic order.
pub open spec fn sorted_pairs(v: Seq<(i64, i64)>) -> Seq<(i64, i64)> {
    v.sort_by(pair_order())
}

fn le_exec(a: (i64, i64), b: (i64, i64)) -> (r: bool)
    ensures
        r == pair_le(a, b),
{
    a.0 < b.0 || (a.0 == b.0 && a.1 <= b.1)
}

fn merge(a: Vec<(i64, i64)>, b: Vec<(i64, i64)>) -> (r: Vec<(i64, i64)>)
    requires
        sorted_by(a@, pair_order()),
        sorted_by(b@, pair_order()),
    ensures
        sorted_by(r@, pair_order()),
        r@.to_multiset() == a@.to_multiset().add(b@.to_multiset()),
{
    proof {
        lemma_pair_order_total();
    }
    let mut out: Vec<(i64, i64)> = Vec::new();
    let mut i: usize = 0;
    let mut j: usize = 0;
    while i < a.len() || j < b.len()
        invariant
            total_ordering(pair_order()),
            sorted_by(a@, pair_order()),
            sorted_by(b@, pair_order()),
            i <= a@.len(),
            j <= b@.len(),
            sorted_by(out@, pair_order()),
            out@.to_multiset() == a@.take(i as int).to_multiset().add(b@.take(j as int).to_multiset()),
            out@.len() == i + j,
            out@.len() > 0 && i < a@.len() ==> pair_le(out@.last(), a@[i as int]),
            out@.len() > 0 && j < b@.len() ==> pair_le(out@.last(), b@[j as int]),
        decreases a@.len() + b@.len() - i - j,
    {
        let take_a = j == b.len() || (i < a.len() && le_exec(a[i], b[j]));
        let ghost old_out = out@;
        if take_a {
            let x = a[i];
            out.push(x);
            proof {
                assert(a@.take(i + 1) =~= a@.take(i as int).push(x));
                assert forall|p: int, q: int| 0 <= p < q < out@.len() implies #[trigger] pair_order()(out@[p], out@[q]) by {
                    if q == out@.len() - 1 && p < q {
                        assert(pair_le(old_out.last(), x) || old_out.len() == 0);
                        if old_out.len() > 0 {
                            assert(pair_order()(old_out[p], old_out.last()) || p == old_out.len() - 1);
                        }
                    }
                }
            }
            i += 1;
            proof {
                if i < a@.len() {
                    assert(pair_order()(a@[i - 1], a@[i as int]));
                }
                if j < b@.len() {
                    assert(pair_le(x, b@[j as int]));
                }
            }
        } else {
            let y = b[j];
            out.push(y);
            proof {
                assert(b@.take(j + 1) =~= b@.take(j as int).push(y));
                assert forall|p: int, q: int| 0 <= p < q < out@.len() implies #[trigger] pair_order()(out@[p], out@[q]) by {
                    if q == out@.len() - 1 && p < q {
                        if old_out.len() > 0 {
                            assert(pair_order()(old_out[p], old_out.last()) || p == old_out.len() - 1);
                        }
                    }
                }
            }
            j += 1;
            proof {
                if j < b@.len() {
                    assert(pair_order()(b@[j - 1], b@[j as int]));
                }
                if i < a@.len() {
                    assert(!pair_le(a@[i as int], y));
                    assert(pair_le(y, a@[i as int]));
                }
            }
        }
    }
    proof {
        assert(a@.take(a@.len() as int) =~= a@);
        assert(b@.take(b@.len() as int) =~= b@);
    }
    out
}

fn merge_sort(v: Vec<(i64, i64)>) -> (r: Vec<(i64, i64)>)
    ensures
        sorted_by(r@, pair_order()),
        r@.to_multiset() == v@.to_multiset(),
    decreases v@.len(),
{
    if v.len() <= 1 {
        return v;
    }
    let mid = v.len() / 2;
    let mut left = v;
    let ghost whole = left@;
    let right = left.split_off(mid);
    proof {
        assert(whole =~= left@ + right@);
        vstd::seq_lib::lemma_multiset_commutative(left@, right@);
    }
    let l = merge_sort(left);
    let r = merge_sort(right);
    merge(l, r)
}

/// The pairs of `v`, sorted lexicographically.
pub fn sort_pairs(v: Vec<(i64, i64)>) -> (r: Vec<(i64, i64)>)
    ensures
        r@ == sorted_pairs(v@),
{
    let ghost orig = v@;
    let r = merge_sort(v);
    proof {
        lemma_pair_order_total();
        orig.lemma_sort_by_ensures(pair_order());
        vstd::seq_lib::lemma_sorted_unique(r@, orig.sort_by(pair_order()), pair_order());
    }
    r
}

/// The ids of `v` in ascending order.
pub fn sort_ids(v: Vec<u32>) -> (r: Vec<u32>)
    ensures
        r@.to_multiset() == v@.to_multiset(),
        forall|i: int, j: int| 0 <= i < j < r@.len() ==> r@[i] <= r@[j],
{
    let mut r: Vec<u32> = Vec::new();
    let mut k: usize = 0;
    while k < v.len()
        invariant
            k <= v@.len(),
            r@.to_multiset() == v@.take(k as int).to_multiset(),
            forall|i: int, j: int| 0 <= i < j < r@.len() ==> r@[i] <= r@[j],
        decreases v@.len() - k,
    {
        let x = v[k];
        let mut pos: usize = 0;
        while pos < r.len() && r[pos] <= x
            invariant
                pos <= r@.len(),
                forall|i: int| 0 <= i < pos ==> r@[i] <= x,
            decreases r@.len() - pos,
        {
            pos += 1;
        }
        let ghost before = r@;
        r.insert(pos, x);
        proof {
            assert(r@ =~= before.take(pos as int).push(x) + before.skip(pos as int));
            assert(before =~= before.take(pos as int) + before.skip(pos as int));
            vstd::seq_lib::lemma_multiset_commutative(before.take(pos as int).push(x), before.skip(pos as int));
            vstd::seq_lib::lemma_multiset_commutative(before.take(pos as int), before.skip(pos as int));
            assert(v@.take(k + 1) =~= v@.take(k as int).push(x));
            assert(r@.to_multiset() =~= before.to_multiset().insert(x));
            assert forall|i: int, j: int| 0 <= i < j < r@.len() implies r@[i] <= r@[j] by {
                if pos < before.len() {
                    assert(!(before[pos as int] <= x) || pos == before.len());
                }
                if i < pos && j == pos {
                    assert(r@[i] == before[i]);
                } else if i == pos && j > pos {
                    assert(r@[j] == before[j - 1]);
                    if pos < before.len() {
                        assert(before[pos as int] <= before[j - 1]);
                    }
                } else if i < pos && j > pos {
                    assert(r@[i] == before[i] && r@[j] == before[j - 1]);
                } else if i > pos {
                    assert(r@[i] == before[i - 1] && r@[j] == before[j - 1]);
                } else {
                    assert(r@[i] == before[i] && r@[j] == before[j]);
                }
            }
        }
        k += 1;
    }
    proof {
        assert(v@.take(v@.len() as int) =~= v@);
    }
    r
}

} // verus!
