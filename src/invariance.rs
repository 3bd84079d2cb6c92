use vstd::prelude::*;
use crate::evaluate::{all_indices, correct_count, label_bound, label_count, lemma_label_bound, majority, score, side};
use crate::tree::Tree;

verus! {

broadcast use vstd::seq_lib::group_to_multiset_ensures, vstd::multiset::group_multiset_axioms;

/// A sample's features with its label.
pub type Labeled = (Seq<u8>, usize);

/// The indexed samples paired with their labels, in order.
pub open spec fn pairs(rows: Seq<Seq<u8>>, labels: Seq<usize>, idx: Seq<usize>) -> Seq<Labeled> {
    Seq::new(idx.len(), |j: int| (rows[idx[j] as int], labels[idx[j] as int]))
}

/// All samples paired with their labels, in order.
pub open spec fn labeled(rows: Seq<Seq<u8>>, labels: Seq<usize>) -> Seq<Labeled> {
    pairs(rows, labels, all_indices(rows.len()))
}

/// `side` over labeled samples.
pub open spec fn pair_side(t: Tree, p: Seq<Labeled>, right: bool) -> Seq<Labeled>
    decreases p.len(),
{
    if p.len() == 0 {
        Seq::empty()
    } else {
        let rest = pair_side(t, p.drop_last(), right);
        if t.goes_right(p.last().0) == right {
            rest.push(p.last())
        } else {
            rest
        }
    }
}

/// `label_count` over labeled samples.
pub open spec fn pair_count(p: Seq<Labeled>, l: nat) -> nat
    decreases p.len(),
{
    if p.len() == 0 {
        0
    } else {
        pair_count(p.drop_last(), l) + if p.last().1 == l {
            1nat
        } else {
            0nat
        }
    }
}

/// `majority` over labeled samples.
pub open spec fn pair_majority(p: Seq<Labeled>, bound: nat) -> nat
    decreases bound,
{
    if bound == 0 {
        0
    } else {
        let prev = pair_majority(p, (bound - 1) as nat);
        let here = pair_count(p, (bound - 1) as nat);
        if prev < here {
            here
        } else {
            prev
        }
    }
}

/// `score` over labeled samples.
pub open spec fn pair_score(t: Tree, p: Seq<Labeled>, bound: nat) -> nat
    decreases t,
{
    let l = pair_side(t, p, false);
    let r = pair_side(t, p, true);
    match t.branch {
        None => pair_majority(l, bound) + pair_majority(r, bound),
        Some(b) => pair_score(b.left, l, bound) + pair_score(b.right, r, bound),
    }
}

pub open spec fn labels_below(p: Seq<Labeled>, bound: nat) -> bool {
    forall|i: int| 0 <= i < p.len() ==> #[trigger] p[i].1 < bound
}

proof fn lemma_pairs_drop_last(rows: Seq<Seq<u8>>, labels: Seq<usize>, idx: Seq<usize>)
    requires
        idx.len() > 0,
    ensures
        pairs(rows, labels, idx.drop_last()) == pairs(rows, labels, idx).drop_last(),
        pairs(rows, labels, idx).last() == (rows[idx.last() as int], labels[idx.last() as int]),
{
    assert(pairs(rows, labels, idx.drop_last()) =~= pairs(rows, labels, idx).drop_last());
}

proof fn lemma_pairs_push(rows: Seq<Seq<u8>>, labels: Seq<usize>, idx: Seq<usize>, k: usize)
    ensures
        pairs(rows, labels, idx.push(k)) == pairs(rows, labels, idx).push(
            (rows[k as int], labels[k as int]),
        ),
{
    assert(pairs(rows, labels, idx.push(k)) =~= pairs(rows, labels, idx).push(
        (rows[k as int], labels[k as int]),
    ));
}

proof fn lemma_side_pairs(t: Tree, rows: Seq<Seq<u8>>, labels: Seq<usize>, idx: Seq<usize>, right: bool)
    ensures
        pairs(rows, labels, side(t, rows, idx, right)) == pair_side(t, pairs(rows, labels, idx), right),
    decreases idx.len(),
{
    if idx.len() == 0 {
        assert(pairs(rows, labels, side(t, rows, idx, right)) =~= Seq::<Labeled>::empty());
    } else {
        lemma_side_pairs(t, rows, labels, idx.drop_last(), right);
        lemma_pairs_drop_last(rows, labels, idx);
        lemma_pairs_push(rows, labels, side(t, rows, idx.drop_last(), right), idx.last());
    }
}

proof fn lemma_count_pairs(rows: Seq<Seq<u8>>, labels: Seq<usize>, idx: Seq<usize>, l: nat)
    ensures
        label_count(labels, idx, l) == pair_count(pairs(rows, labels, idx), l),
    decreases idx.len(),
{
    if idx.len() > 0 {
        lemma_count_pairs(rows, labels, idx.drop_last(), l);
        lemma_pairs_drop_last(rows, labels, idx);
    }
}

proof fn lemma_majority_pairs(rows: Seq<Seq<u8>>, labels: Seq<usize>, idx: Seq<usize>, bound: nat)
    ensures
        majority(labels, idx, bound) == pair_majority(pairs(rows, labels, idx), bound),
    decreases bound,
{
    if bound > 0 {
        lemma_majority_pairs(rows, labels, idx, (bound - 1) as nat);
        lemma_count_pairs(rows, labels, idx, (bound - 1) as nat);
    }
}

/// `score` is `pair_score` on the labeled samples.
proof fn lemma_score_pairs(t: Tree, rows: Seq<Seq<u8>>, labels: Seq<usize>, idx: Seq<usize>, bound: nat)
    ensures
        score(t, rows, labels, idx, bound) == pair_score(t, pairs(rows, labels, idx), bound),
    decreases t,
{
    lemma_side_pairs(t, rows, labels, idx, false);
    lemma_side_pairs(t, rows, labels, idx, true);
    let l = side(t, rows, idx, false);
    let r = side(t, rows, idx, true);
    match t.branch {
        None => {
            lemma_majority_pairs(rows, labels, l, bound);
            lemma_majority_pairs(rows, labels, r, bound);
        },
        Some(b) => {
            lemma_score_pairs(b.left, rows, labels, l, bound);
            lemma_score_pairs(b.right, rows, labels, r, bound);
        },
    }
}

proof fn lemma_count_remove(q: Seq<Labeled>, k: int, l: nat)
    requires
        0 <= k < q.len(),
    ensures
        pair_count(q, l) == pair_count(q.remove(k), l) + if q[k].1 == l {
            1nat
        } else {
            0nat
        },
    decreases q.len(),
{
    if k == q.len() - 1 {
        assert(q.remove(k) =~= q.drop_last());
    } else {
        let d = q.drop_last();
        lemma_count_remove(d, k, l);
        assert(d.remove(k) =~= q.remove(k).drop_last());
    }
}

proof fn lemma_side_remove(t: Tree, q: Seq<Labeled>, k: int, right: bool)
    requires
        0 <= k < q.len(),
    ensures
        pair_side(t, q, right).to_multiset() == if t.goes_right(q[k].0) == right {
            pair_side(t, q.remove(k), right).to_multiset().insert(q[k])
        } else {
            pair_side(t, q.remove(k), right).to_multiset()
        },
    decreases q.len(),
{
    if k == q.len() - 1 {
        assert(q.remove(k) =~= q.drop_last());
    } else {
        let d = q.drop_last();
        lemma_side_remove(t, d, k, right);
        assert(d.remove(k) =~= q.remove(k).drop_last());
        let a = pair_side(t, d.remove(k), right).to_multiset();
        if t.goes_right(q[k].0) == right && t.goes_right(q.last().0) == right {
            assert(a.insert(q[k]).insert(q.last()) =~= a.insert(q.last()).insert(q[k]));
        }
    }
}

/// Labeled samples with the same multiset split into sides with the same multisets.
proof fn lemma_side_multiset(t: Tree, p: Seq<Labeled>, q: Seq<Labeled>, right: bool)
    requires
        p.to_multiset() == q.to_multiset(),
    ensures
        pair_side(t, p, right).to_multiset() == pair_side(t, q, right).to_multiset(),
    decreases p.len(),
{
    if p.len() == 0 {
        assert(p.to_multiset().len() == p.len());
        assert(q.to_multiset().len() == q.len());
        assert(q.len() == 0);
        assert(q =~= Seq::<Labeled>::empty());
    } else {
        let x = p.last();
        let pd = p.drop_last();
        assert(p =~= pd.push(x));
        assert(q.to_multiset().count(x) > 0);
        assert(q.contains(x));
        let k = choose|k: int| 0 <= k < q.len() && q[k] == x;
        let qr = q.remove(k);
        assert(qr.to_multiset() =~= pd.to_multiset());
        lemma_side_multiset(t, pd, qr, right);
        lemma_side_remove(t, q, k, right);
    }
}

proof fn lemma_count_multiset(p: Seq<Labeled>, q: Seq<Labeled>, l: nat)
    requires
        p.to_multiset() == q.to_multiset(),
    ensures
        pair_count(p, l) == pair_count(q, l),
    decreases p.len(),
{
    if p.len() == 0 {
        assert(p.to_multiset().len() == p.len());
        assert(q.to_multiset().len() == q.len());
        assert(q.len() == 0);
        assert(q =~= Seq::<Labeled>::empty());
    } else {
        let x = p.last();
        let pd = p.drop_last();
        assert(p =~= pd.push(x));
        assert(q.to_multiset().count(x) > 0);
        assert(q.contains(x));
        let k = choose|k: int| 0 <= k < q.len() && q[k] == x;
        let qr = q.remove(k);
        assert(qr.to_multiset() =~= pd.to_multiset());
        lemma_count_multiset(pd, qr, l);
        lemma_count_remove(q, k, l);
    }
}

proof fn lemma_majority_multiset(p: Seq<Labeled>, q: Seq<Labeled>, bound: nat)
    requires
        p.to_multiset() == q.to_multiset(),
    ensures
        pair_majority(p, bound) == pair_majority(q, bound),
    decreases bound,
{
    if bound > 0 {
        lemma_majority_multiset(p, q, (bound - 1) as nat);
        lemma_count_multiset(p, q, (bound - 1) as nat);
    }
}

/// `pair_score` depends only on the multiset of labeled samples.
proof fn lemma_score_multiset(t: Tree, p: Seq<Labeled>, q: Seq<Labeled>, bound: nat)
    requires
        p.to_multiset() == q.to_multiset(),
    ensures
        pair_score(t, p, bound) == pair_score(t, q, bound),
    decreases t,
{
    lemma_side_multiset(t, p, q, false);
    lemma_side_multiset(t, p, q, true);
    let (pl, pr) = (pair_side(t, p, false), pair_side(t, p, true));
    let (ql, qr) = (pair_side(t, q, false), pair_side(t, q, true));
    match t.branch {
        None => {
            lemma_majority_multiset(pl, ql, bound);
            lemma_majority_multiset(pr, qr, bound);
        },
        Some(b) => {
            lemma_score_multiset(b.left, pl, ql, bound);
            lemma_score_multiset(b.right, pr, qr, bound);
        },
    }
}

proof fn lemma_count_above(p: Seq<Labeled>, bound: nat, l: nat)
    requires
        labels_below(p, bound),
        l >= bound,
    ensures
        pair_count(p, l) == 0,
    decreases p.len(),
{
    if p.len() > 0 {
        assert(p.last().1 == p[p.len() - 1].1);
        lemma_count_above(p.drop_last(), bound, l);
    }
}

proof fn lemma_majority_bound(p: Seq<Labeled>, bound: nat, bound2: nat)
    requires
        labels_below(p, bound),
        bound <= bound2,
    ensures
        pair_majority(p, bound2) == pair_majority(p, bound),
    decreases bound2,
{
    if bound2 > bound {
        lemma_majority_bound(p, bound, (bound2 - 1) as nat);
        lemma_count_above(p, bound, (bound2 - 1) as nat);
    }
}

proof fn lemma_side_labels_below(t: Tree, p: Seq<Labeled>, right: bool, bound: nat)
    requires
        labels_below(p, bound),
    ensures
        labels_below(pair_side(t, p, right), bound),
    decreases p.len(),
{
    if p.len() > 0 {
        assert(labels_below(p.drop_last(), bound));
        assert(p.last().1 == p[p.len() - 1].1);
        lemma_side_labels_below(t, p.drop_last(), right, bound);
    }
}

/// Any label bound above every label gives the same score.
proof fn lemma_score_bound(t: Tree, p: Seq<Labeled>, bound: nat, bound2: nat)
    requires
        labels_below(p, bound),
        bound <= bound2,
    ensures
        pair_score(t, p, bound2) == pair_score(t, p, bound),
    decreases t,
{
    lemma_side_labels_below(t, p, false, bound);
    lemma_side_labels_below(t, p, true, bound);
    let (l, r) = (pair_side(t, p, false), pair_side(t, p, true));
    match t.branch {
        None => {
            lemma_majority_bound(l, bound, bound2);
            lemma_majority_bound(r, bound, bound2);
        },
        Some(b) => {
            lemma_score_bound(b.left, l, bound, bound2);
            lemma_score_bound(b.right, r, bound, bound2);
        },
    }
}

proof fn lemma_labeled_below(rows: Seq<Seq<u8>>, labels: Seq<usize>)
    requires
        rows.len() == labels.len(),
        rows.len() <= usize::MAX,
    ensures
        labels_below(labeled(rows, labels), label_bound(labels)),
{
    lemma_label_bound(labels);
    let p = labeled(rows, labels);
    assert forall|i: int| 0 <= i < p.len() implies #[trigger] p[i].1 < label_bound(labels) by {
        assert(all_indices(rows.len())[i] == i as usize);
        assert(p[i].1 == labels[i]);
    }
}

/// Rearranging samples and labels in lockstep does not change the best
/// achievable number of correct classifications.
pub proof fn lemma_correct_count_permutation(
    t: Tree,
    rows1: Seq<Seq<u8>>,
    labels1: Seq<usize>,
    rows2: Seq<Seq<u8>>,
    labels2: Seq<usize>,
)
    requires
        rows1.len() == labels1.len(),
        rows2.len() == labels2.len(),
        rows1.len() <= usize::MAX,
        rows2.len() <= usize::MAX,
        labeled(rows1, labels1).to_multiset() == labeled(rows2, labels2).to_multiset(),
    ensures
        correct_count(t, rows1, labels1) == correct_count(t, rows2, labels2),
{
    let (b1, b2) = (label_bound(labels1), label_bound(labels2));
    let big = if b1 < b2 { b2 } else { b1 };
    let (first, second) = (labeled(rows1, labels1), labeled(rows2, labels2));
    lemma_score_pairs(t, rows1, labels1, all_indices(rows1.len()), b1);
    lemma_score_pairs(t, rows2, labels2, all_indices(rows2.len()), b2);
    lemma_labeled_below(rows1, labels1);
    lemma_labeled_below(rows2, labels2);
    lemma_score_bound(t, first, b1, big);
    lemma_score_bound(t, second, b2, big);
    lemma_score_multiset(t, first, second, big);
}

/// `p` is a permutation of `[0, n)`: every entry is in range and no two are equal.
pub open spec fn is_permutation(p: Seq<int>, n: nat) -> bool {
    &&& p.len() == n
    &&& forall|i: int| 0 <= i < n ==> 0 <= #[trigger] p[i] < n
    &&& forall|i: int, j: int| 0 <= i < j < n ==> #[trigger] p[i] != #[trigger] p[j]
}

/// Rearranging a sequence by a permutation keeps its multiset.
pub proof fn lemma_permuted_multiset<A>(a: Seq<A>, b: Seq<A>, p: Seq<int>)
    requires
        a.len() == b.len(),
        is_permutation(p, a.len()),
        forall|i: int| 0 <= i < b.len() ==> #[trigger] b[i] == a[p[i]],
    ensures
        a.to_multiset() == b.to_multiset(),
    decreases a.len(),
{
    let n = a.len();
    if n == 0 {
        assert(a =~= Seq::<A>::empty());
        assert(b =~= Seq::<A>::empty());
    } else {
        let k = p[n - 1];
        let a2 = a.remove(k);
        let b2 = b.drop_last();
        let p2 = Seq::new((n - 1) as nat, |i: int| if p[i] < k { p[i] } else { p[i] - 1 });
        assert forall|i: int| 0 <= i < n - 1 implies 0 <= #[trigger] p2[i] < n - 1 && b2[i]
            == a2[p2[i]] by {
            assert(p[i] != p[n - 1]);
        }
        assert forall|i: int, j: int| 0 <= i < j < n - 1 implies #[trigger] p2[i] != #[trigger] p2[j] by {
            assert(p[i] != p[j]);
            assert(p[i] != k && p[j] != k);
        }
        lemma_permuted_multiset(a2, b2, p2);
        assert(b =~= b2.push(b[n - 1]));
        assert(a.to_multiset().count(a[k]) > 0) by {
            assert(a.contains(a[k]));
        }
        assert(a.to_multiset().remove(a[k]).insert(a[k]) =~= a.to_multiset());
    }
}

/// Permuting samples and labels in lockstep by a permutation of their
/// indices does not change the best achievable number of correct
/// classifications.
pub proof fn lemma_correct_count_index_permutation(
    t: Tree,
    rows1: Seq<Seq<u8>>,
    labels1: Seq<usize>,
    rows2: Seq<Seq<u8>>,
    labels2: Seq<usize>,
    p: Seq<int>,
)
    requires
        rows1.len() == labels1.len(),
        rows2.len() == rows1.len(),
        labels2.len() == labels1.len(),
        rows1.len() <= usize::MAX,
        is_permutation(p, rows1.len()),
        forall|i: int| 0 <= i < rows2.len() ==> #[trigger] rows2[i] == rows1[p[i]],
        forall|i: int| 0 <= i < labels2.len() ==> #[trigger] labels2[i] == labels1[p[i]],
    ensures
        correct_count(t, rows1, labels1) == correct_count(t, rows2, labels2),
{
    let (first, second) = (labeled(rows1, labels1), labeled(rows2, labels2));
    assert forall|i: int| 0 <= i < second.len() implies #[trigger] second[i] == first[p[i]] by {
        assert(all_indices(rows2.len())[i] == i as usize);
        assert(all_indices(rows1.len())[p[i]] == p[i] as usize);
        assert(rows2[i] == rows1[p[i]]);
        assert(labels2[i] == labels1[p[i]]);
    }
    lemma_permuted_multiset(first, second, p);
    lemma_correct_count_permutation(t, rows1, labels1, rows2, labels2);
}

} // verus!
