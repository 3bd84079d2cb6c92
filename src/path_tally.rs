use vstd::prelude::*;
use crate::evaluate::{label_count, majority, score, side};
use crate::tree::{lemma_paths_pow2, Tree};

verus! {

/// How many indexed samples follow decision path `p` of `t` and carry label `l`.
pub open spec fn path_label_count(
    t: Tree,
    rows: Seq<Seq<u8>>,
    labels: Seq<usize>,
    idx: Seq<usize>,
    p: nat,
    l: nat,
) -> nat
    decreases idx.len(),
{
    if idx.len() == 0 {
        0
    } else {
        let j = idx.last() as int;
        path_label_count(t, rows, labels, idx.drop_last(), p, l) + if t.path(rows[j]) == p
            && labels[j] == l {
            1nat
        } else {
            0nat
        }
    }
}

/// The largest count of one label below `bound` on decision path `p`.
pub open spec fn path_majority(
    t: Tree,
    rows: Seq<Seq<u8>>,
    labels: Seq<usize>,
    idx: Seq<usize>,
    p: nat,
    bound: nat,
) -> nat
    decreases bound,
{
    if bound == 0 {
        0
    } else {
        let prev = path_majority(t, rows, labels, idx, p, (bound - 1) as nat);
        let here = path_label_count(t, rows, labels, idx, p, (bound - 1) as nat);
        if prev < here {
            here
        } else {
            prev
        }
    }
}

/// The sum, over the decision paths `[0, n)`, of each path's majority count.
pub open spec fn path_tally(
    t: Tree,
    rows: Seq<Seq<u8>>,
    labels: Seq<usize>,
    idx: Seq<usize>,
    bound: nat,
    n: nat,
) -> nat
    decreases n,
{
    if n == 0 {
        0
    } else {
        path_tally(t, rows, labels, idx, bound, (n - 1) as nat) + path_majority(
            t,
            rows,
            labels,
            idx,
            (n - 1) as nat,
            bound,
        )
    }
}

proof fn lemma_push_unfolds(t: Tree, rows: Seq<Seq<u8>>, idx: Seq<usize>)
    requires
        idx.len() > 0,
    ensures
        side(t, rows, idx.drop_last(), false).push(idx.last()).drop_last() == side(
            t,
            rows,
            idx.drop_last(),
            false,
        ),
        side(t, rows, idx.drop_last(), true).push(idx.last()).drop_last() == side(
            t,
            rows,
            idx.drop_last(),
            true,
        ),
{
    assert(side(t, rows, idx.drop_last(), false).push(idx.last()).drop_last() =~= side(
        t,
        rows,
        idx.drop_last(),
        false,
    ));
    assert(side(t, rows, idx.drop_last(), true).push(idx.last()).drop_last() =~= side(
        t,
        rows,
        idx.drop_last(),
        true,
    ));
}

proof fn lemma_leaf_count(t: Tree, rows: Seq<Seq<u8>>, labels: Seq<usize>, idx: Seq<usize>, l: nat)
    requires
        t.branch.is_none(),
    ensures
        path_label_count(t, rows, labels, idx, 0, l) == label_count(labels, side(t, rows, idx, false), l),
        path_label_count(t, rows, labels, idx, 1, l) == label_count(labels, side(t, rows, idx, true), l),
    decreases idx.len(),
{
    if idx.len() > 0 {
        lemma_leaf_count(t, rows, labels, idx.drop_last(), l);
        lemma_push_unfolds(t, rows, idx);
    }
}

proof fn lemma_leaf_majority(t: Tree, rows: Seq<Seq<u8>>, labels: Seq<usize>, idx: Seq<usize>, bound: nat)
    requires
        t.branch.is_none(),
    ensures
        path_majority(t, rows, labels, idx, 0, bound) == majority(labels, side(t, rows, idx, false), bound),
        path_majority(t, rows, labels, idx, 1, bound) == majority(labels, side(t, rows, idx, true), bound),
    decreases bound,
{
    if bound > 0 {
        lemma_leaf_majority(t, rows, labels, idx, (bound - 1) as nat);
        lemma_leaf_count(t, rows, labels, idx, (bound - 1) as nat);
    }
}

proof fn lemma_node_count(
    t: Tree,
    rows: Seq<Seq<u8>>,
    labels: Seq<usize>,
    idx: Seq<usize>,
    q: nat,
    l: nat,
)
    requires
        t.branch.is_some(),
    ensures
        path_label_count(t, rows, labels, idx, 2 * q, l) == path_label_count(
            t.branch.unwrap().left,
            rows,
            labels,
            side(t, rows, idx, false),
            q,
            l,
        ),
        path_label_count(t, rows, labels, idx, 2 * q + 1, l) == path_label_count(
            t.branch.unwrap().right,
            rows,
            labels,
            side(t, rows, idx, true),
            q,
            l,
        ),
    decreases idx.len(),
{
    if idx.len() > 0 {
        lemma_node_count(t, rows, labels, idx.drop_last(), q, l);
        lemma_push_unfolds(t, rows, idx);
    }
}

proof fn lemma_node_majority(
    t: Tree,
    rows: Seq<Seq<u8>>,
    labels: Seq<usize>,
    idx: Seq<usize>,
    q: nat,
    bound: nat,
)
    requires
        t.branch.is_some(),
    ensures
        path_majority(t, rows, labels, idx, 2 * q, bound) == path_majority(
            t.branch.unwrap().left,
            rows,
            labels,
            side(t, rows, idx, false),
            q,
            bound,
        ),
        path_majority(t, rows, labels, idx, 2 * q + 1, bound) == path_majority(
            t.branch.unwrap().right,
            rows,
            labels,
            side(t, rows, idx, true),
            q,
            bound,
        ),
    decreases bound,
{
    if bound > 0 {
        lemma_node_majority(t, rows, labels, idx, q, (bound - 1) as nat);
        lemma_node_count(t, rows, labels, idx, q, (bound - 1) as nat);
    }
}

proof fn lemma_node_tally(
    t: Tree,
    rows: Seq<Seq<u8>>,
    labels: Seq<usize>,
    idx: Seq<usize>,
    bound: nat,
    n: nat,
)
    requires
        t.branch.is_some(),
    ensures
        path_tally(t, rows, labels, idx, bound, 2 * n) == path_tally(
            t.branch.unwrap().left,
            rows,
            labels,
            side(t, rows, idx, false),
            bound,
            n,
        ) + path_tally(t.branch.unwrap().right, rows, labels, side(t, rows, idx, true), bound, n),
    decreases n,
{
    if n > 0 {
        let m = (n - 1) as nat;
        lemma_node_tally(t, rows, labels, idx, bound, m);
        lemma_node_majority(t, rows, labels, idx, m, bound);
        assert(2 * n - 1 == 2 * m + 1);
        assert(path_tally(t, rows, labels, idx, bound, 2 * n) == path_tally(
            t,
            rows,
            labels,
            idx,
            bound,
            (2 * n - 1) as nat,
        ) + path_majority(t, rows, labels, idx, 2 * m + 1, bound));
        assert(path_tally(t, rows, labels, idx, bound, (2 * n - 1) as nat) == path_tally(
            t,
            rows,
            labels,
            idx,
            bound,
            2 * m,
        ) + path_majority(t, rows, labels, idx, 2 * m, bound));
    }
}

/// For a perfect tree, `score` is the sum over all decision paths of the
/// largest number of samples on that path that share one label.
pub proof fn lemma_score_is_path_tally(
    t: Tree,
    rows: Seq<Seq<u8>>,
    labels: Seq<usize>,
    idx: Seq<usize>,
    bound: nat,
)
    requires
        t.perfect(),
    ensures
        score(t, rows, labels, idx, bound) == path_tally(t, rows, labels, idx, bound, t.paths()),
    decreases t,
{
    match t.branch {
        None => {
            lemma_leaf_majority(t, rows, labels, idx, bound);
            assert(path_tally(t, rows, labels, idx, bound, 2) == path_majority(
                t,
                rows,
                labels,
                idx,
                0,
                bound,
            ) + path_majority(t, rows, labels, idx, 1, bound)) by {
                reveal_with_fuel(path_tally, 3);
            }
        },
        Some(b) => {
            lemma_paths_pow2(b.left);
            lemma_paths_pow2(b.right);
            let l = side(t, rows, idx, false);
            let r = side(t, rows, idx, true);
            lemma_score_is_path_tally(b.left, rows, labels, l, bound);
            lemma_score_is_path_tally(b.right, rows, labels, r, bound);
            lemma_node_tally(t, rows, labels, idx, bound, b.left.paths());
        },
    }
}

} // verus!
