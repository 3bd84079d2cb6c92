use brute_tree::coordinator::Coordinator;
use brute_tree::dataset::mnist::{parse_image_file, parse_label_file, DataError, Image, MNIST, IMAGE_SIZE};
use brute_tree::dataset::{Dataset, FeatureVector};
use brute_tree::draw::{draw_upto, Probability};
use brute_tree::evaluate::{evaluate, TreeEvaluation};
use brute_tree::evolve::{best_eval, best_index, mutate, next_generation, ranking};
use brute_tree::heap_tree::HeapTree;
use brute_tree::search::{better_tree, Searcher};
use brute_tree::tree::{Branch, Tree};
use brute_tree::worker::Restart;

fn leaf(feature: usize, threshold: u8) -> Tree {
    Tree { feature, threshold, branch: None }
}

fn node(feature: usize, threshold: u8, left: Tree, right: Tree) -> Tree {
    Tree { feature, threshold, branch: Some(Box::new(Branch { left, right })) }
}

fn depth(t: &Tree) -> usize {
    match &t.branch {
        None => 0,
        Some(b) => 1 + depth(&b.left),
    }
}

fn within(t: &Tree, feature_max: usize, threshold_max: u8) -> bool {
    t.feature <= feature_max
        && t.threshold <= threshold_max
        && match &t.branch {
            None => true,
            Some(b) => within(&b.left, feature_max, threshold_max) && within(&b.right, feature_max, threshold_max),
        }
}

fn same_shape(a: &Tree, b: &Tree) -> bool {
    match (&a.branch, &b.branch) {
        (None, None) => true,
        (Some(x), Some(y)) => same_shape(&x.left, &y.left) && same_shape(&x.right, &y.right),
        _ => false,
    }
}

fn eval(tree: Tree, correct: usize, total: usize) -> TreeEvaluation {
    TreeEvaluation { tree, correct, total }
}

#[test]
fn count_decision_paths_is_two_to_depth_plus_one() {
    for d in 0u8..6 {
        assert_eq!(Tree::new(d).count_decision_paths(), 1usize << (d + 1));
        assert_eq!(Tree::random(d, 9, 200).count_decision_paths(), 1usize << (d + 1));
    }
}

#[test]
fn new_tree_is_zero_and_perfect() {
    let t = Tree::new(3);
    assert_eq!(depth(&t), 3);
    assert!(within(&t, 0, 0));
}

#[test]
fn random_tree_respects_bounds() {
    for _ in 0..20 {
        let t = Tree::random(4, 3, 7);
        assert_eq!(depth(&t), 4);
        assert!(within(&t, 3, 7));
        assert!(same_shape(&t, &Tree::new(4)));
    }
}

#[test]
fn decision_path_root_bit_is_least_significant() {
    // root sends feature 0 > 5 right; the right child sends feature 1 > 3 right.
    let t = node(0, 5, leaf(1, 3), leaf(1, 3));
    assert_eq!(t.decision_path(&[0u8, 0u8]), 0);
    assert_eq!(t.decision_path(&[9u8, 0u8]), 1);
    assert_eq!(t.decision_path(&[0u8, 9u8]), 2);
    assert_eq!(t.decision_path(&[9u8, 9u8]), 3);
    assert_eq!(t.decision_path(&[5u8, 4u8]), 2);
}

#[test]
fn decision_path_within_count() {
    for _ in 0..20 {
        let t = Tree::random(3, 3, 255);
        let n = t.count_decision_paths();
        for v in 0u8..=255 {
            let sample = [v, v.wrapping_mul(7), v.wrapping_add(13), 255 - v];
            assert!(t.decision_path(&sample) < n);
        }
    }
}

#[test]
fn copy_is_equal() {
    let t = Tree::random(3, 10, 100);
    assert_eq!(t.copy(), t);
}

#[test]
fn evaluate_depth_one_split_is_perfect() {
    let mut t = Tree::new(1);
    t.threshold = 5;
    let samples = vec![vec![1u8], vec![2u8], vec![10u8], vec![11u8]];
    let labels = vec![0usize, 0, 1, 1];
    assert_eq!(evaluate(&t, &samples, &labels), 4);
}

#[test]
fn evaluate_empty_is_zero() {
    let t = Tree::new(2);
    let samples: Vec<Vec<u8>> = Vec::new();
    let labels: Vec<usize> = Vec::new();
    assert_eq!(evaluate(&t, &samples, &labels), 0);
}

#[test]
fn evaluate_counts_majority_per_path() {
    // a single leaf: two paths, split at threshold 5.
    let t = leaf(0, 5);
    let samples = vec![vec![1u8], vec![2u8], vec![3u8], vec![9u8], vec![9u8]];
    let labels = vec![0usize, 1, 1, 2, 0];
    assert_eq!(evaluate(&t, &samples, &labels), 3);
}

#[test]
fn evaluate_bounded_and_permutation_invariant() {
    let samples = vec![vec![1u8, 200], vec![50, 3], vec![90, 90], vec![250, 7], vec![8, 8], vec![100, 150]];
    let labels = vec![0usize, 1, 2, 1, 0, 2];
    let order = [5usize, 2, 0, 4, 1, 3];
    let ps: Vec<Vec<u8>> = order.iter().map(|&i| samples[i].clone()).collect();
    let pl: Vec<usize> = order.iter().map(|&i| labels[i]).collect();
    for _ in 0..20 {
        let t = Tree::random(2, 1, 255);
        let a = evaluate(&t, &samples, &labels);
        assert!(a <= samples.len());
        assert_eq!(a, evaluate(&t, &ps, &pl));
    }
}

#[test]
fn better_tree_prefers_first_on_tie() {
    let r = better_tree((leaf(1, 1), 3), (leaf(2, 2), 3));
    assert_eq!(r, (leaf(1, 1), 3));
    let r = better_tree((leaf(1, 1), 3), (leaf(2, 2), 4));
    assert_eq!(r, (leaf(2, 2), 4));
}

#[test]
fn search_never_regresses() {
    let samples = vec![vec![1u8, 200], vec![50, 3], vec![90, 90], vec![250, 7], vec![8, 8], vec![100, 150]];
    let labels = vec![0usize, 1, 2, 1, 0, 2];
    let searcher = Searcher {
        trials_per_depth: 8,
        mutate_prob: Probability { numerator: 1, denominator: 10 },
        feature_max: 1,
        threshold_max: 254,
    };
    for _ in 0..10 {
        let t = Tree::random(2, 1, 254);
        let before = evaluate(&t, &samples, &labels);
        let (found, correct) = searcher.search(&t, &samples, &labels);
        assert!(correct >= before);
        assert_eq!(correct, evaluate(&found, &samples, &labels));
        assert!(same_shape(&found, &t));
        assert!(within(&found, 1, 254));
    }
}

#[test]
fn search_finds_the_split() {
    let samples = vec![vec![1u8], vec![2u8], vec![10u8], vec![11u8]];
    let labels = vec![0usize, 0, 1, 1];
    let searcher = Searcher {
        trials_per_depth: 400,
        mutate_prob: Probability { numerator: 0, denominator: 1 },
        feature_max: 0,
        threshold_max: 254,
    };
    let (_, correct) = searcher.search(&Tree::new(0), &samples, &labels);
    assert_eq!(correct, 4);
}

#[test]
fn searcher_mutate_forces_root() {
    let searcher = Searcher {
        trials_per_depth: 1,
        mutate_prob: Probability { numerator: 0, denominator: 1 },
        feature_max: 0,
        threshold_max: 0,
    };
    let t = node(0, 0, leaf(0, 0), leaf(0, 0));
    let m = searcher.mutate(&t, true);
    assert_eq!(m, t);
    let t = node(0, 9, leaf(3, 3), leaf(4, 4));
    let m = searcher.mutate(&t, true);
    assert_eq!(m, node(0, 0, leaf(3, 3), leaf(4, 4)));
}

#[test]
fn mutate_with_zero_probability_keeps_tree() {
    let t = Tree::random(3, 20, 200);
    let m = mutate(&t, Probability { numerator: 0, denominator: 5 }, 20, 200);
    assert_eq!(m, t);
}

#[test]
fn mutate_with_certainty_stays_in_bounds() {
    let t = Tree::random(3, 20, 200);
    let m = mutate(&t, Probability::certain(), 2, 3);
    assert!(same_shape(&m, &t));
    assert!(within(&m, 2, 3));
}

#[test]
fn probability_extremes() {
    for _ in 0..50 {
        assert!(Probability::certain().trial());
        assert!(!Probability { numerator: 0, denominator: 3 }.trial());
    }
}

#[test]
fn draw_upto_stays_in_range() {
    for _ in 0..200 {
        assert!(draw_upto(5) <= 5);
        assert_eq!(draw_upto(0), 0);
    }
    let mut seen = [false; 4];
    for _ in 0..400 {
        seen[draw_upto(3)] = true;
    }
    assert!(seen.iter().all(|&b| b));
}

#[test]
fn best_eval_first_of_most_accurate() {
    let pop = vec![eval(leaf(0, 0), 1, 4), eval(leaf(1, 1), 3, 4), eval(leaf(2, 2), 6, 8), eval(leaf(3, 3), 1, 2)];
    assert_eq!(best_index(&pop), 1);
    assert_eq!(best_eval(&pop).tree, leaf(1, 1));
}

#[test]
fn ranking_orders_by_accuracy() {
    let pop = vec![eval(leaf(0, 0), 1, 4), eval(leaf(1, 1), 3, 4), eval(leaf(2, 2), 1, 8), eval(leaf(3, 3), 1, 2)];
    assert_eq!(ranking(&pop), vec![1, 3, 0, 2]);
}

#[test]
fn next_generation_keeps_best_in_slot_zero() {
    let pop = vec![
        eval(Tree::random(2, 5, 50), 2, 10),
        eval(Tree::random(2, 5, 50), 9, 10),
        eval(Tree::random(2, 5, 50), 4, 10),
        eval(Tree::random(2, 5, 50), 7, 10),
    ];
    let next = next_generation(&pop, 2, Probability { numerator: 1, denominator: 2 }, 5, 50);
    assert_eq!(next.len(), 4);
    assert_eq!(next[0], pop[1].tree);
    for t in &next {
        assert!(same_shape(t, &pop[0].tree));
        assert!(within(t, 5, 50));
    }
    let still = next_generation(&pop, 2, Probability { numerator: 0, denominator: 2 }, 5, 50);
    assert_eq!(still[0], pop[1].tree);
    assert_eq!(still[1], pop[1].tree);
    assert_eq!(still[2], pop[3].tree);
    assert_eq!(still[3], pop[1].tree);
}

#[test]
fn coordinator_persists_only_improvements() {
    let mut c = Coordinator::new(None);
    assert!(c.submit(eval(leaf(1, 1), 5, 10)));
    assert!(!c.submit(eval(leaf(2, 2), 3, 10)));
    assert!(c.submit(eval(leaf(3, 3), 7, 10)));
    assert_eq!(c.count, 3);
    let best = c.best().as_ref().unwrap();
    assert_eq!((best.correct, best.total), (7, 10));
    assert_eq!(best.tree, leaf(3, 3));
}

#[test]
fn coordinator_ignores_equal_accuracy_and_respects_seed() {
    let mut c = Coordinator::new(Some(eval(leaf(1, 1), 1, 2)));
    assert!(!c.submit(eval(leaf(2, 2), 2, 4)));
    assert!(!c.submit(eval(leaf(2, 2), 1, 4)));
    assert_eq!(c.best().as_ref().unwrap().tree, leaf(1, 1));
    assert!(c.submit(eval(leaf(3, 3), 3, 5)));
}

#[test]
fn heap_tree_leaf_counts_through_all_values() {
    let mut t = HeapTree::new(0);
    let mut wraps = Vec::new();
    for _ in 0..8 {
        let (n, w) = t.next_tree(1, 1);
        wraps.push(w);
        t = n;
    }
    assert_eq!(wraps, vec![false, false, false, true, false, false, false, true]);
}

#[test]
fn heap_tree_wraps_after_full_cycle() {
    // depth 1, two values per node: 2 * 2 * 2 = 8 trees.
    let mut t = HeapTree::new(1);
    let mut steps = 0;
    loop {
        let (n, w) = t.next_tree(1, 0);
        t = n;
        steps += 1;
        if w {
            break;
        }
    }
    assert_eq!(steps, 8);
    let (_, w) = HeapTree::new(2).next_tree(0, 0);
    assert!(w);
}

#[test]
fn restart_tracks_stagnation() {
    let mut r = Restart::new(2);
    assert!(!r.observe(0));
    assert!(r.observe(3));
    assert!(!r.exhausted());
    assert!(!r.observe(3));
    assert!(!r.observe(1));
    assert!(r.exhausted());
    assert!(r.observe(4));
    assert_eq!(r.stagnant, 0);
}

fn image_file(count: usize, fill: impl Fn(usize, usize) -> u8) -> Vec<u8> {
    let mut b = vec![0u8, 0, 8, 3, 0, 0, (count >> 8) as u8, count as u8, 0, 0, 0, 28, 0, 0, 0, 28];
    for i in 0..count {
        for j in 0..IMAGE_SIZE {
            b.push(fill(i, j));
        }
    }
    b
}

#[test]
fn parse_label_file_reads_labels() {
    let b = vec![0u8, 0, 8, 1, 0, 0, 0, 3, 7, 2, 9];
    assert_eq!(parse_label_file(&b), Ok(vec![7usize, 2, 9]));
}

#[test]
fn parse_label_file_errors() {
    assert_eq!(parse_label_file(&[0u8, 0, 8]), Err(DataError::Truncated));
    assert_eq!(parse_label_file(&[0u8, 0, 8, 3, 0, 0, 0, 0]), Err(DataError::UnexpectedMagic));
    assert_eq!(parse_label_file(&[0u8, 0, 8, 1, 0, 0]), Err(DataError::Truncated));
    assert_eq!(parse_label_file(&[0u8, 0, 8, 1, 0, 0, 0, 2, 5]), Err(DataError::UnexpectedCount));
}

#[test]
fn parse_image_file_reads_images() {
    let b = image_file(2, |i, j| ((i * 3 + j) % 256) as u8);
    let images: Vec<Image> = parse_image_file(&b).ok().unwrap();
    assert_eq!(images.len(), 2);
    assert_eq!(images[0].index(0), 0);
    assert_eq!(images[1].index(10), 13);
    assert_eq!(images[1].index(IMAGE_SIZE - 1), ((3 + IMAGE_SIZE - 1) % 256) as u8);
}

#[test]
fn parse_image_file_errors() {
    let mut b = image_file(1, |_, _| 1);
    b[11] = 27;
    assert!(matches!(parse_image_file(&b), Err(DataError::UnexpectedMagic)));
    let mut b = image_file(1, |_, _| 1);
    b.pop();
    assert!(matches!(parse_image_file(&b), Err(DataError::UnexpectedCount)));
    assert!(matches!(parse_image_file(&[0u8, 0, 8, 3, 0, 0, 0, 1, 0, 0]), Err(DataError::Truncated)));
}

#[test]
fn mnist_parse_and_evaluate() {
    let images = image_file(4, |i, _| if i < 2 { 10 } else { 200 });
    let labels = vec![0u8, 0, 8, 1, 0, 0, 0, 4, 3, 3, 8, 8];
    let data = MNIST::parse(&images, &labels, &images, &labels).ok().unwrap();
    let (samples, labs) = data.train_data();
    assert_eq!(samples.len(), 4);
    assert_eq!(labs, &[3usize, 3, 8, 8][..]);
    assert_eq!(MNIST::feature_max(), IMAGE_SIZE - 1);
    assert_eq!(MNIST::threshold_max(), 254);
    let t = leaf(17, 100);
    assert_eq!(evaluate(&t, samples, labs), 4);
    let (test_samples, _) = data.test_data();
    assert_eq!(test_samples.len(), 4);
    assert!(MNIST::parse(&images, &labels, &labels, &labels).is_err());
}

#[test]
fn heap_tree_add_composes() {
    // depth 1, two values per node: 8 trees.
    let t = HeapTree::new(1);
    let (a, c1) = t.add(3, 1, 0);
    let (b, c2) = a.add(7, 1, 0);
    let (d, c3) = t.add(10, 1, 0);
    assert_eq!(b, d);
    assert_eq!(c1 + c2, c3);
    assert_eq!((c1, c2, c3), (0, 1, 1));
}

#[test]
fn heap_tree_add_full_cycle_returns_with_one_carry() {
    let t = HeapTree::new(1);
    assert_eq!(t.add(8, 1, 0), (t.copy(), 1));
    let (u, _) = t.add(5, 1, 0);
    assert_eq!(u.add(8, 1, 0), (u.copy(), 1));
    let (w, c) = u.add(16, 1, 0);
    assert_eq!((w, c), (u.copy(), 2));
    // a leaf with thresholds in [0, 2] and features in [0, 1]: 6 values.
    let leaf_tree = HeapTree::new(0);
    assert_eq!(leaf_tree.add(6, 1, 2), (leaf_tree.copy(), 1));
    assert_eq!(leaf_tree.add(0, 1, 2), (leaf_tree.copy(), 0));
}

#[test]
fn heap_tree_add_matches_repeated_next_tree() {
    let t = HeapTree::new(2);
    let mut cur = t.copy();
    let mut wraps = 0u64;
    for n in 1u64..40 {
        let (next, w) = cur.next_tree(1, 1);
        cur = next;
        if w {
            wraps += 1;
        }
        assert_eq!(t.add(n, 1, 1), (cur.copy(), wraps));
    }
}

#[test]
fn evaluate_lockstep_permutation_same_score() {
    let samples = vec![vec![3u8, 9], vec![200, 1], vec![17, 250], vec![3, 9], vec![99, 99]];
    let labels = vec![4usize, 1, 1, 0, 4];
    let rev_samples: Vec<Vec<u8>> = samples.iter().rev().cloned().collect();
    let rev_labels: Vec<usize> = labels.iter().rev().cloned().collect();
    for _ in 0..30 {
        let t = Tree::random(1, 1, 255);
        assert_eq!(evaluate(&t, &samples, &labels), evaluate(&t, &rev_samples, &rev_labels));
    }
}

#[test]
fn next_generation_of_one_needs_no_elite() {
    let pop = vec![eval(leaf(4, 4), 1, 2)];
    let next = next_generation(&pop, 0, Probability::certain(), 1, 1);
    assert_eq!(next, vec![leaf(4, 4)]);
}

#[test]
fn next_generation_children_fields_kept_or_in_bounds() {
    // parents with fields above the bounds
    let pop = vec![eval(node(50, 200, leaf(60, 210), leaf(70, 220)), 3, 4), eval(leaf(9, 9), 1, 4)];
    for _ in 0..20 {
        let next = next_generation(&pop, 1, Probability { numerator: 1, denominator: 2 }, 3, 7);
        assert_eq!(next[0], pop[0].tree);
        let child = &next[1];
        assert!(same_shape(child, &pop[0].tree));
        assert!(child.feature == 50 || child.feature <= 3);
        assert!(child.threshold == 200 || child.threshold <= 7);
    }
}

#[test]
fn search_without_trials_returns_input() {
    let samples = vec![vec![1u8, 200], vec![50, 3], vec![90, 90], vec![250, 7]];
    let labels = vec![0usize, 1, 2, 1];
    let searcher = Searcher {
        trials_per_depth: 0,
        mutate_prob: Probability::certain(),
        feature_max: 1,
        threshold_max: 254,
    };
    let t = Tree::random(2, 1, 254);
    let (found, correct) = searcher.search(&t, &samples, &labels);
    assert_eq!(found, t);
    assert_eq!(correct, evaluate(&t, &samples, &labels));
}

#[test]
fn searcher_mutate_forced_root_keeps_children_at_zero_probability() {
    let searcher = Searcher {
        trials_per_depth: 1,
        mutate_prob: Probability { numerator: 0, denominator: 1 },
        feature_max: 2,
        threshold_max: 3,
    };
    let t = node(90, 90, leaf(80, 80), node(70, 70, leaf(60, 60), leaf(50, 50)));
    for _ in 0..20 {
        let m = searcher.mutate(&t, true);
        assert!(m.feature <= 2 && m.threshold <= 3);
        let (mb, tb) = (m.branch.as_ref().unwrap(), t.branch.as_ref().unwrap());
        assert_eq!(mb.left, tb.left);
        assert_eq!(mb.right, tb.right);
    }
}

#[test]
fn mutate_with_certainty_and_zero_bounds_gives_zero_tree() {
    let t = node(5, 5, leaf(6, 6), leaf(7, 7));
    let m = mutate(&t, Probability::certain(), 0, 0);
    assert_eq!(m, node(0, 0, leaf(0, 0), leaf(0, 0)));
}

#[test]
fn heap_tree_next_tree_with_small_bounds_does_not_panic() {
    // a tree counted under larger bounds, then stepped under smaller ones
    let (t, _) = HeapTree::new(1).add(200, 9, 9);
    let (u, _) = t.next_tree(0, 0);
    let (_, _) = u.next_tree(0, 0);
}

#[test]
fn feature_vector_len() {
    let v = vec![1u8, 2, 3];
    assert_eq!(FeatureVector::len(&v), 3);
    let b = image_file(1, |_, _| 0);
    let images = parse_image_file(&b).ok().unwrap();
    assert_eq!(FeatureVector::len(&images[0]), IMAGE_SIZE);
}

#[test]
fn mnist_parse_reports_first_error() {
    let images = image_file(1, |_, _| 0);
    let bad_labels = vec![0u8, 0, 8, 1, 0, 0, 0, 2, 1];
    let bad_images = vec![0u8, 0, 8, 9];
    assert!(matches!(MNIST::parse(&images, &bad_labels, &bad_images, &bad_labels), Err(DataError::UnexpectedMagic)));
    assert!(matches!(MNIST::parse(&images, &bad_labels, &images, &bad_labels), Err(DataError::UnexpectedCount)));
}
