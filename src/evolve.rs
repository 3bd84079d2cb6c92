use vstd::prelude::*;
use crate::draw::{draw_upto, Probability};
use crate::evaluate::{lemma_le_lt, TreeEvaluation};
use crate::tree::{Branch, Tree};

verus! {

/// Every member of the population has a positive total.
pub open spec fn population_wf(pop: Seq<TreeEvaluation>) -> bool {
    forall|i: int| 0 <= i < pop.len() ==> #[trigger] pop[i].wf()
}

/// `pop[i]` is a most accurate member, and the first such.
pub open spec fn is_best_at(pop: Seq<TreeEvaluation>, i: int) -> bool {
    &&& 0 <= i < pop.len()
    &&& forall|j: int| 0 <= j < pop.len() ==> !(#[trigger] pop[i].less_accurate(&pop[j]))
    &&& forall|j: int| 0 <= j < i ==> (#[trigger] pop[j].less_accurate(&pop[i]))
}

/// `o` lists every member index once, from most to least accurate.
pub open spec fn is_ranking(pop: Seq<TreeEvaluation>, o: Seq<usize>) -> bool {
    &&& o.len() == pop.len()
    &&& forall|a: int| 0 <= a < o.len() ==> #[trigger] o[a] < pop.len()
    &&& forall|a: int, b: int| 0 <= a < b < o.len() ==> #[trigger] o[a] != #[trigger] o[b]
    &&& forall|a: int, b: int|
        0 <= a < b < o.len() ==> !(#[trigger] pop[o[a] as int].less_accurate(
            #[trigger] &pop[o[b] as int],
        ))
}

/// One field of a mutation: a forced field is redrawn within `[0, max]`;
/// another is kept or redrawn within `[0, max]`, kept for sure when `prob` is
/// zero and redrawn for sure when it is one.
pub open spec fn field_mutation(r: nat, t: nat, max: nat, prob: Probability, force: bool) -> bool {
    if force {
        r <= max
    } else {
        &&& (r == t || r <= max)
        &&& prob.numerator == 0 ==> r == t
        &&& prob.numerator == prob.denominator ==> r <= max
    }
}

/// `r` is a possible outcome of mutating `t`: the same shape, and every field
/// mutated as `field_mutation` says, with `force_root` applying to the root only.
pub open spec fn mutation_of(
    r: Tree,
    t: Tree,
    prob: Probability,
    feature_max: nat,
    threshold_max: nat,
    force_root: bool,
) -> bool
    decreases t,
{
    &&& field_mutation(r.feature as nat, t.feature as nat, feature_max, prob, force_root)
    &&& field_mutation(r.threshold as nat, t.threshold as nat, threshold_max, prob, force_root)
    &&& match (r.branch, t.branch) {
        (None, None) => true,
        (Some(a), Some(b)) => mutation_of(a.left, b.left, prob, feature_max, threshold_max, false)
            && mutation_of(a.right, b.right, prob, feature_max, threshold_max, false),
        _ => false,
    }
}

/// What every mutation keeps: the shape, features that index every sample
/// when `feature_max` does too, the bounds, and, with probability zero and an
/// unforced root, the whole tree.
pub proof fn lemma_mutation_facts(
    r: Tree,
    t: Tree,
    prob: Probability,
    feature_max: nat,
    threshold_max: nat,
    force_root: bool,
)
    requires
        mutation_of(r, t, prob, feature_max, threshold_max, force_root),
    ensures
        r.same_shape(t),
        forall|n: nat| t.features_below(n) && feature_max < n ==> #[trigger] r.features_below(n),
        t.bounded(feature_max, threshold_max) || prob.numerator == prob.denominator ==> r.bounded(
            feature_max,
            threshold_max,
        ),
        !force_root && prob.numerator == 0 ==> r == t,
    decreases t,
{
    if let (Some(a), Some(b)) = (r.branch, t.branch) {
        lemma_mutation_facts(a.left, b.left, prob, feature_max, threshold_max, false);
        lemma_mutation_facts(a.right, b.right, prob, feature_max, threshold_max, false);
        if !force_root && prob.numerator == 0 {
            assert(a == b);
        }
    }
    assert forall|n: nat| t.features_below(n) && feature_max < n implies #[trigger] r.features_below(
        n,
    ) by {
        if let (Some(a), Some(b)) = (r.branch, t.branch) {
            assert(b.left.features_below(n) && b.right.features_below(n));
            assert(a.left.features_below(n) && a.right.features_below(n));
        }
    }
}

/// A copy of `t` whose root fields are redrawn when `force_root` holds and
/// whose other fields are each redrawn with probability `prob`; features are
/// drawn from `[0, feature_max]`, thresholds from `[0, threshold_max]`.
pub fn mutate_tree(
    t: &Tree,
    prob: Probability,
    feature_max: usize,
    threshold_max: u8,
    force_root: bool,
) -> (r: Tree)
    requires
        prob.wf(),
        feature_max < usize::MAX,
    ensures
        mutation_of(r, *t, prob, feature_max as nat, threshold_max as nat, force_root),
        r.same_shape(*t),
        forall|n: nat| t.features_below(n) && feature_max < n ==> #[trigger] r.features_below(n),
        t.bounded(feature_max as nat, threshold_max as nat) || prob.numerator == prob.denominator
            ==> r.bounded(feature_max as nat, threshold_max as nat),
        force_root ==> r.feature <= feature_max && r.threshold <= threshold_max,
        !force_root && prob.numerator == 0 ==> r == *t,
    decreases *t,
{
    let feature = if force_root || prob.trial() {
        draw_upto(feature_max)
    } else {
        t.feature
    };
    let threshold = if force_root || prob.trial() {
        draw_upto(threshold_max as usize) as u8
    } else {
        t.threshold
    };
    let r = match &t.branch {
        None => Tree { feature, threshold, branch: None },
        Some(b) => {
            let left = mutate_tree(&b.left, prob, feature_max, threshold_max, false);
            let right = mutate_tree(&b.right, prob, feature_max, threshold_max, false);
            Tree { feature, threshold, branch: Some(Box::new(Branch { left, right })) }
        },
    };
    proof {
        lemma_mutation_facts(r, *t, prob, feature_max as nat, threshold_max as nat, force_root);
    }
    r
}

/// A copy of `t` in which every field is redrawn with probability `prob`.
pub fn mutate(t: &Tree, prob: Probability, feature_max: usize, threshold_max: u8) -> (r: Tree)
    requires
        prob.wf(),
        feature_max < usize::MAX,
    ensures
        mutation_of(r, *t, prob, feature_max as nat, threshold_max as nat, false),
        r.same_shape(*t),
        t.bounded(feature_max as nat, threshold_max as nat) || prob.numerator == prob.denominator
            ==> r.bounded(feature_max as nat, threshold_max as nat),
        prob.numerator == 0 ==> r == *t,
{
    mutate_tree(t, prob, feature_max, threshold_max, false)
}

/// The index of the first most accurate member.
pub fn best_index(pop: &[TreeEvaluation]) -> (r: usize)
    requires
        pop@.len() > 0,
        population_wf(pop@),
    ensures
        is_best_at(pop@, r as int),
{
    let mut b: usize = 0;
    let mut k: usize = 1;
    while k < pop.len()
        invariant
            0 <= b < k <= pop@.len(),
            population_wf(pop@),
            forall|j: int| 0 <= j < k ==> !(#[trigger] pop@[b as int].less_accurate(&pop@[j])),
            forall|j: int| 0 <= j < b ==> (#[trigger] pop@[j].less_accurate(&pop@[b as int])),
        decreases pop@.len() - k,
    {
        if pop[b].is_less_accurate(&pop[k]) {
            assert forall|j: int| 0 <= j < k implies #[trigger] pop@[j].less_accurate(
                &pop@[k as int],
            ) by {
                assert(!pop@[b as int].less_accurate(&pop@[j]));
                lemma_le_lt(pop@[j], pop@[b as int], pop@[k as int]);
            }
            assert forall|j: int| 0 <= j <= k implies !(#[trigger] pop@[k as int].less_accurate(
                &pop@[j],
            )) by {
                if j < k {
                    assert(pop@[j].less_accurate(&pop@[k as int]));
                }
            }
            b = k;
        }
        k = k + 1;
    }
    b
}

/// The most accurate member of a non-empty population; the first on a tie.
pub fn best_eval(pop: &[TreeEvaluation]) -> (r: &TreeEvaluation)
    requires
        pop@.len() > 0,
        population_wf(pop@),
    ensures
        exists|i: int| is_best_at(pop@, i) && *r == pop@[i],
{
    let i = best_index(pop);
    &pop[i]
}

/// The member indices ordered from most to least accurate.
pub fn ranking(pop: &[TreeEvaluation]) -> (r: Vec<usize>)
    requires
        population_wf(pop@),
    ensures
        is_ranking(pop@, r@),
{
    let n = pop.len();
    let mut o: Vec<usize> = Vec::new();
    let mut i: usize = 0;
    while i < n
        invariant
            i <= n,
            n == pop@.len(),
            o@.len() == i,
            forall|a: int| 0 <= a < i ==> #[trigger] o@[a] == a,
        decreases n - i,
    {
        o.push(i);
        i = i + 1;
    }
    let mut pos: usize = 0;
    while pos < n
        invariant
            pos <= n,
            n == pop@.len(),
            o@.len() == n,
            population_wf(pop@),
            forall|a: int| 0 <= a < n ==> #[trigger] o@[a] < n,
            forall|a: int, b: int| 0 <= a < b < n ==> #[trigger] o@[a] != #[trigger] o@[b],
            forall|a: int, b: int|
                0 <= a < pos && a < b < n ==> !(#[trigger] pop@[o@[a] as int].less_accurate(
                    #[trigger] &pop@[o@[b] as int],
                )),
        decreases n - pos,
    {
        let mut m: usize = pos;
        let mut k: usize = pos + 1;
        while k < n
            invariant
                pos <= m < n,
                pos < k <= n,
                m < k,
                n == pop@.len(),
                o@.len() == n,
                population_wf(pop@),
                forall|a: int| 0 <= a < n ==> #[trigger] o@[a] < n,
                forall|a: int, b: int| 0 <= a < b < n ==> #[trigger] o@[a] != #[trigger] o@[b],
                forall|j: int|
                    pos <= j < k ==> !(#[trigger] pop@[o@[m as int] as int].less_accurate(
                        &pop@[o@[j] as int],
                    )),
            decreases n - k,
        {
            if pop[o[m]].is_less_accurate(&pop[o[k]]) {
                assert forall|j: int| pos <= j <= k implies !(#[trigger] pop@[o@[
                    k as int] as int].less_accurate(&pop@[o@[j] as int])) by {
                    if j < k {
                        assert(!pop@[o@[m as int] as int].less_accurate(&pop@[o@[j] as int]));
                        lemma_le_lt(pop@[o@[j] as int], pop@[o@[m as int] as int], pop@[o@[k as int] as int]);
                    }
                }
                m = k;
            }
            k = k + 1;
        }
        let ghost before = o@;
        let x = o[pos];
        let y = o[m];
        o.set(pos, y);
        o.set(m, x);
        assert forall|a: int, b: int| 0 <= a < b < n implies #[trigger] o@[a] != #[trigger] o@[b] by {
            let oa = if a == m { pos as int } else if a == pos { m as int } else { a };
            let ob = if b == m { pos as int } else if b == pos { m as int } else { b };
            assert(o@[a] == before[oa] && o@[b] == before[ob]);
            assert(oa != ob);
            if oa < ob {
                assert(before[oa] != before[ob]);
            } else {
                assert(before[ob] != before[oa]);
            }
        }
        assert forall|a: int| 0 <= a < n implies #[trigger] o@[a] < n by {
            let oa = if a == m { pos as int } else if a == pos { m as int } else { a };
            assert(o@[a] == before[oa]);
        }
        assert forall|a: int, b: int|
            0 <= a < pos + 1 && a < b < n implies !(#[trigger] pop@[o@[a] as int].less_accurate(
            #[trigger] &pop@[o@[b] as int],
        )) by {
            let ob = if b == m { pos as int } else if b == pos { m as int } else { b };
            assert(o@[b] == before[ob]);
            if a < pos {
                assert(a < ob < n);
                assert(o@[a] == before[a]);
                assert(!pop@[before[a] as int].less_accurate(&pop@[before[ob] as int]));
            } else {
                assert(pos <= ob < n);
                assert(o@[a] == before[m as int]);
                assert(!pop@[before[m as int] as int].less_accurate(&pop@[before[ob] as int]));
            }
        }
        pos = pos + 1;
    }
    o
}

/// The next generation: the most accurate tree unchanged in slot 0, then, for
/// each further slot `i`, a mutation of the `((i - 1) mod elite_size)`-th most
/// accurate member.
pub fn next_generation(
    pop: &[TreeEvaluation],
    elite_size: usize,
    prob: Probability,
    feature_max: usize,
    threshold_max: u8,
) -> (r: Vec<Tree>)
    requires
        0 < pop@.len(),
        elite_size <= pop@.len(),
        pop@.len() > 1 ==> elite_size > 0,
        population_wf(pop@),
        prob.wf(),
        feature_max < usize::MAX,
    ensures
        r@.len() == pop@.len(),
        exists|i: int| is_best_at(pop@, i) && r@[0] == pop@[i].tree,
        exists|o: Seq<usize>|
            is_ranking(pop@, o) && forall|k: int|
                0 < k < r@.len() ==> mutation_of(
                    #[trigger] r@[k],
                    pop@[o[(k - 1) % (elite_size as int)] as int].tree,
                    prob,
                    feature_max as nat,
                    threshold_max as nat,
                    false,
                ),
        (forall|j: int|
            0 <= j < pop@.len() ==> (#[trigger] pop@[j].tree).bounded(
                feature_max as nat,
                threshold_max as nat,
            )) ==> forall|k: int|
            0 <= k < r@.len() ==> (#[trigger] r@[k]).bounded(
                feature_max as nat,
                threshold_max as nat,
            ),
{
    let order = ranking(pop);
    let best = best_index(pop);
    let mut result: Vec<Tree> = Vec::new();
    result.push(pop[best].tree.copy());
    let mut i: usize = 0;
    while i < pop.len() - 1
        invariant
            0 < pop@.len(),
            elite_size <= pop@.len(),
            pop@.len() > 1 ==> elite_size > 0,
            is_ranking(pop@, order@),
            prob.wf(),
            feature_max < usize::MAX,
            is_best_at(pop@, best as int),
            i <= pop@.len() - 1,
            result@.len() == i + 1,
            result@[0] == pop@[best as int].tree,
            forall|k: int|
                0 < k < result@.len() ==> mutation_of(
                    #[trigger] result@[k],
                    pop@[order@[(k - 1) % (elite_size as int)] as int].tree,
                    prob,
                    feature_max as nat,
                    threshold_max as nat,
                    false,
                ),
            (forall|j: int|
                0 <= j < pop@.len() ==> (#[trigger] pop@[j].tree).bounded(
                    feature_max as nat,
                    threshold_max as nat,
                )) ==> forall|k: int|
                0 <= k < result@.len() ==> (#[trigger] result@[k]).bounded(
                    feature_max as nat,
                    threshold_max as nat,
                ),
        decreases pop@.len() - 1 - i,
    {
        let p = order[i % elite_size];
        let child = mutate(&pop[p].tree, prob, feature_max, threshold_max);
        result.push(child);
        assert(((i + 1) - 1) as int % (elite_size as int) == i as int % (elite_size as int));
        i = i + 1;
    }
    proof {
        assert(is_best_at(pop@, best as int) && result@[0] == pop@[best as int].tree);
    }
    result
}

} // verus!
