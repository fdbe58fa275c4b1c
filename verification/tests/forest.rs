use fru::classification::{ClsDaAggregator, DecisionSlice};
use fru::{
    FYSampler, Forest, ImportanceSink, Mask, MaskCache, RfInput, RfRng, Tree, Votes,
    Walk, XrfError,
};

/// A small data set of integer features and class labels; a pivot `t` sends
/// observations whose feature value is at most `t` left.
struct Grid {
    cols: Vec<Vec<u32>>,
    y: Vec<u32>,
    ncat: u32,
}

impl RfInput for Grid {
    type FeatureId = usize;
    type Pivot = u32;
    type Vote = u32;
    type VoteAggregator = Votes;
    type DecisionSlice = DecisionSlice;
    type AccuracyDecreaseAggregator = ClsDaAggregator;
    type FeatureSampler = FYSampler;

    fn new_aggregator(&self) -> Votes {
        Votes::new(self.ncat)
    }

    fn new_da_aggregator(&self, on: &Mask, n: usize) -> ClsDaAggregator {
        ClsDaAggregator::new(&self.y, on.len(), n)
    }

    fn observation_count(&self) -> usize {
        self.y.len()
    }

    fn feature_count(&self) -> usize {
        self.cols.len()
    }

    fn same_feature(a: usize, b: usize) -> bool {
        a == b
    }

    fn decision_slice(&self, mask: &Mask) -> DecisionSlice {
        DecisionSlice::new(mask, &self.y, self.ncat)
    }

    fn feature_sampler(&self) -> FYSampler {
        FYSampler::new(self)
    }

    fn new_split(
        &self,
        on: &Mask,
        using: usize,
        _y: &DecisionSlice,
        _rng: &mut RfRng,
    ) -> Option<(u32, u64)> {
        let col = &self.cols[using];
        let mut values: Vec<u32> = on.as_slice().iter().map(|&e| col[e]).collect();
        values.sort_unstable();
        values.dedup();
        let mut best: Option<(u32, u64)> = None;
        for &t in values.iter().take(values.len().saturating_sub(1)) {
            let mut left = vec![0u64; self.ncat as usize];
            let mut right = vec![0u64; self.ncat as usize];
            for &e in on.as_slice() {
                if col[e] <= t {
                    left[self.y[e] as usize] += 1;
                } else {
                    right[self.y[e] as usize] += 1;
                }
            }
            let score = left.iter().max().unwrap() + right.iter().max().unwrap();
            if best.map_or(true, |(_, s)| score > s) {
                best = Some((t, score));
            }
        }
        best
    }

    fn split_iter(&self, on: &Mask, using: usize, by: &u32) -> Vec<bool> {
        on.as_slice()
            .iter()
            .map(|&e| self.cols[using][e] <= *by)
            .collect()
    }
}

/// Feature 0 equals the class, feature 1 is noise.
fn ident_grid(n: usize) -> Grid {
    let mut rng = RfRng::from_seed(5, 3);
    let y: Vec<u32> = (0..n).map(|e| (e % 2) as u32).collect();
    let noise: Vec<u32> = (0..n).map(|_| rng.up_to(4) as u32).collect();
    Grid {
        cols: vec![y.clone(), noise],
        y,
        ncat: 2,
    }
}

struct Drops(Vec<(usize, i64)>);

impl ImportanceSink<Grid> for Drops {
    type Model = ();

    fn absorb(&mut self, collector: ClsDaAggregator) {
        for (f, d) in collector.drops().iter() {
            self.0.push((*f, *d));
        }
    }
}

fn majority(v: &Votes) -> usize {
    let c = v.counts();
    if c[1] > c[0] {
        1
    } else {
        0
    }
}

#[test]
fn trained_forest_predicts_identity() {
    let input = ident_grid(40);
    let mut no_sink: Option<Drops> = None;
    let forest = Forest::new(&input, 10, 2, true, &mut no_sink, true, 17);
    assert!(forest.has_trees());
    assert!(forest.has_oob());
    assert_eq!(forest.trees(), 10);
    let pred = forest.predict(&input);
    assert_eq!(pred.predictions().len(), 40);
    for (e, v) in pred.predictions().iter().enumerate() {
        assert_eq!(v.counts().iter().sum::<u32>(), 10);
        assert_eq!(majority(v), e % 2);
    }
    assert_eq!(forest.oob().len(), 40);
    let oob_total: u32 = forest.oob().iter().map(|v| v.counts().iter().sum::<u32>()).sum();
    assert!(oob_total > 0);
    for (e, v) in forest.oob().iter().enumerate() {
        if v.counts().iter().sum::<u32>() > 0 {
            assert_eq!(majority(v), e % 2);
        }
    }
}

#[test]
fn training_is_reproducible() {
    let input = ident_grid(30);
    let mut none_a: Option<Drops> = None;
    let mut none_b: Option<Drops> = None;
    let a = Forest::new(&input, 5, 1, true, &mut none_a, true, 99);
    let b = Forest::new(&input, 5, 1, true, &mut none_b, true, 99);
    assert_eq!(a.walk().len(), b.walk().len());
    for (x, y) in a.oob().iter().zip(b.oob().iter()) {
        assert_eq!(x.counts(), y.counts());
    }
}

#[test]
fn trees_grown_one_by_one_match_forest() {
    let input = ident_grid(24);
    let mut none: Option<Drops> = None;
    let whole = Forest::new(&input, 4, 2, true, &mut none, true, 8);
    let mut parts = Forest::new_training(&input, true, true);
    let mut other = Forest::new_training(&input, true, true);
    let mut cache = MaskCache::new();
    let mut sampler = input.feature_sampler();
    let mut none2: Option<Drops> = None;
    for id in [0usize, 2] {
        parts.grow_tree(&input, id, 2, 8, &mut sampler, &mut cache, &mut none2);
    }
    for id in [1usize, 3] {
        other.grow_tree(&input, id, 2, 8, &mut sampler, &mut cache, &mut none2);
    }
    parts.merge(other);
    assert_eq!(parts.trees(), 4);
    for (x, y) in parts.oob().iter().zip(whole.oob().iter()) {
        assert_eq!(x.counts(), y.counts());
    }
}

#[test]
fn importance_prefers_informative_feature() {
    let input = ident_grid(60);
    let mut sink = Some(Drops(Vec::new()));
    let forest = Forest::new(&input, 8, 2, false, &mut sink, true, 3);
    assert!(!forest.has_trees());
    assert_eq!(forest.trees(), 8);
    let drops = sink.unwrap().0;
    let informative: i64 = drops.iter().filter(|(f, _)| *f == 0).map(|(_, d)| *d).sum();
    let noise: i64 = drops.iter().filter(|(f, _)| *f == 1).map(|(_, d)| *d).sum();
    assert!(informative > 0);
    assert!(informative > noise);
    let oob_total: u32 = forest.oob().iter().map(|v| v.counts().iter().sum::<u32>()).sum();
    assert!(oob_total > 0);
}

#[test]
fn forest_without_oob_has_none() {
    let input = ident_grid(10);
    let mut none: Option<Drops> = None;
    let forest = Forest::new(&input, 2, 1, true, &mut none, false, 1);
    assert!(!forest.has_oob());
    assert!(forest.oob().is_empty());
}

#[test]
fn walk_round_trip_keeps_predictions() {
    let input = ident_grid(20);
    let mut none: Option<Drops> = None;
    let forest = Forest::new(&input, 3, 2, true, &mut none, false, 4);
    let steps = forest.walk();
    let back = Forest::<Grid>::from_walk(&steps).ok().unwrap();
    assert_eq!(back.trees(), 3);
    assert!(!back.has_oob());
    assert_eq!(back.walk().len(), steps.len());
    let p1 = forest.predict(&input);
    let p2 = back.predict(&input);
    for (a, b) in p1.predictions().iter().zip(p2.predictions().iter()) {
        assert_eq!(a.counts(), b.counts());
    }
}

#[test]
fn truncated_walk_is_rejected() {
    let steps: Vec<Walk<Grid>> = vec![Walk::VisitBranch(0, 1), Walk::VisitLeaf(0)];
    let r = Forest::<Grid>::from_walk(&steps);
    assert_eq!(r.err(), Some(XrfError::WalkAggregationFailure));
    let empty: Vec<Walk<Grid>> = Vec::new();
    assert_eq!(
        Forest::<Grid>::from_walk(&empty).err(),
        Some(XrfError::WalkAggregationFailure)
    );
}

#[test]
fn tree_from_walk_reads_one_tree() {
    let steps: Vec<Walk<Grid>> = vec![
        Walk::VisitBranch(0, 0),
        Walk::VisitLeaf(0),
        Walk::VisitLeaf(1),
        Walk::VisitLeaf(1),
    ];
    let mut pos = 0usize;
    let tree = Tree::from_walk(&steps, &mut pos).ok().unwrap();
    assert_eq!(pos, 3);
    assert_eq!(tree.walk().len(), 3);
    let second = Tree::from_walk(&steps, &mut pos).ok().unwrap();
    assert_eq!(pos, 4);
    assert!(matches!(second, Tree::Leaf(1)));
    assert_eq!(
        Tree::from_walk(&steps, &mut pos).err(),
        Some(XrfError::WalkAggregationFailure)
    );
}

#[test]
fn cast_votes_routes_every_entry() {
    let input = ident_grid(6);
    let tree: Tree<Grid> = Tree::Branch(0, 0, Box::new(Tree::Leaf(0)), Box::new(Tree::Leaf(1)));
    let mut onto: Vec<Votes> = (0..6).map(|_| Votes::new(2)).collect();
    let on = Mask::from_vec(vec![0, 1, 1, 4]);
    let mut cache = MaskCache::new();
    tree.cast_votes(&input, &on, &mut onto, &mut cache);
    assert_eq!(onto[0].counts(), &[1, 0]);
    assert_eq!(onto[1].counts(), &[0, 2]);
    assert_eq!(onto[2].counts(), &[0, 0]);
    assert_eq!(onto[4].counts(), &[1, 0]);
}

#[test]
fn grown_tree_separates_classes() {
    let input = ident_grid(16);
    let bag = Mask::new_all(16);
    let mut sampler = input.feature_sampler();
    let mut cache = MaskCache::new();
    let mut rng = RfRng::from_seed(2, 1);
    let tree = Tree::new(&input, &bag, 2, &mut sampler, 512, &mut cache, &mut rng);
    let mut onto: Vec<Votes> = (0..16).map(|_| Votes::new(2)).collect();
    tree.cast_votes(&input, &bag, &mut onto, &mut cache);
    for (e, v) in onto.iter().enumerate() {
        assert_eq!(majority(v), e % 2);
    }
    let stump = Tree::new(&input, &bag, 2, &mut sampler, 0, &mut cache, &mut rng);
    assert!(matches!(stump, Tree::Leaf(_)));
}

#[test]
fn permuted_cast_reports_direct_and_permuted_votes() {
    let input = ident_grid(8);
    let tree: Tree<Grid> = Tree::Branch(0, 0, Box::new(Tree::Leaf(0)), Box::new(Tree::Leaf(1)));
    let on = Mask::new_all(8);
    let perm = Mask::from_vec(vec![1, 0, 3, 2, 5, 4, 7, 6]);
    let mut used: Vec<usize> = Vec::new();
    let mut cache = MaskCache::new();
    let mut collector = ClsDaAggregator::new(&input.y, 8, 8);
    tree.cast_votes_permutational(&input, &on, &perm, None, &mut used, &mut cache, &mut collector);
    assert!(used.is_empty());
    // Every permuted vote is wrong while every direct one was right.
    assert_eq!(collector.drops().get(&0), Some(&8));
    assert_eq!(collector.drops().len(), 1);
}

#[test]
fn permutational_importance_fills_oob() {
    let input = ident_grid(8);
    let tree: Tree<Grid> = Tree::Branch(0, 0, Box::new(Tree::Leaf(0)), Box::new(Tree::Leaf(1)));
    let on = Mask::from_vec(vec![2, 3, 5]);
    let mut cache = MaskCache::new();
    let mut rng = RfRng::from_seed(1, 1);
    let mut oob: Option<Vec<Votes>> = Some((0..8).map(|_| Votes::new(2)).collect());
    let collector = tree.permutational_importance(&input, &on, &mut cache, &mut rng, &mut oob);
    assert_eq!(collector.observations(), 3);
    let oob = oob.unwrap();
    assert_eq!(oob[2].counts(), &[1, 0]);
    assert_eq!(oob[3].counts(), &[0, 1]);
    assert_eq!(oob[5].counts(), &[0, 1]);
    assert_eq!(oob[0].counts(), &[0, 0]);
}

#[test]
fn merge_appends_trees_and_merges_oob() {
    let input = ident_grid(12);
    let mut none: Option<Drops> = None;
    let mut a = Forest::new(&input, 2, 1, true, &mut none, true, 1);
    let b = Forest::new(&input, 3, 1, true, &mut none, true, 2);
    let before: Vec<u32> = a.oob().iter().map(|v| v.counts().iter().sum()).collect();
    let other: Vec<u32> = b.oob().iter().map(|v| v.counts().iter().sum()).collect();
    a.merge(b);
    assert_eq!(a.trees(), 5);
    for (e, v) in a.oob().iter().enumerate() {
        assert_eq!(v.counts().iter().sum::<u32>(), before[e] + other[e]);
    }
    let mut empty = Forest::<Grid>::new_with_num_trees(0);
    let c = Forest::new(&input, 1, 1, true, &mut none, false, 3);
    empty.merge(c);
    assert_eq!(empty.trees(), 1);
    assert!(!empty.has_oob());
}

#[test]
fn num_trees_only_forest() {
    let f = Forest::<Grid>::new_with_num_trees(7);
    assert_eq!(f.trees(), 7);
    assert!(!f.has_trees());
    assert!(!f.has_oob());
}

#[test]
fn replace_oob_hands_back_previous() {
    let mut f = Forest::<Grid>::new_with_num_trees(0);
    let first = f.replace_oob(vec![Votes::new(2)]);
    assert!(first.is_none());
    assert_eq!(f.oob().len(), 1);
    let second = f.replace_oob(vec![Votes::new(3), Votes::new(3)]).unwrap();
    assert_eq!(second.len(), 1);
    assert_eq!(f.oob().len(), 2);
}

#[test]
fn fy_sampler_draws_each_feature_once() {
    let input = Grid {
        cols: vec![vec![0], vec![1], vec![2]],
        y: vec![0],
        ncat: 1,
    };
    let mut sampler = FYSampler::new(&input);
    let mut rng = RfRng::from_seed(6, 1);
    let mut seen: Vec<usize> = (0..3).map(|_| sampler.random_feature(&mut rng)).collect();
    seen.sort_unstable();
    assert_eq!(seen, vec![0, 1, 2]);
    sampler.reload();
    let mut again: Vec<usize> = (0..3).map(|_| sampler.random_feature(&mut rng)).collect();
    again.sort_unstable();
    assert_eq!(again, vec![0, 1, 2]);
    sampler.reset();
    let mut a = RfRng::from_seed(9, 9);
    let first = sampler.random_feature(&mut a);
    let mut fresh = FYSampler::new(&input);
    let mut b = RfRng::from_seed(9, 9);
    assert_eq!(fresh.random_feature(&mut b), first);
}

#[test]
fn tree_getter_follows_kept_trees() {
    let input = ident_grid(10);
    let mut none: Option<Drops> = None;
    let kept = Forest::new(&input, 2, 1, true, &mut none, false, 5);
    assert!(kept.tree(0).is_some());
    assert!(kept.tree(1).is_some());
    assert!(kept.tree(2).is_none());
    let counted = Forest::new(&input, 2, 1, false, &mut none, false, 5);
    assert!(counted.tree(0).is_none());
}

#[test]
fn oob_votes_do_not_depend_on_importance() {
    let input = ident_grid(36);
    let mut none: Option<Drops> = None;
    let plain = Forest::new(&input, 6, 2, false, &mut none, true, 21);
    let mut sink = Some(Drops(Vec::new()));
    let with_importance = Forest::new(&input, 6, 2, false, &mut sink, true, 21);
    for (a, b) in plain.oob().iter().zip(with_importance.oob().iter()) {
        assert_eq!(a.counts(), b.counts());
    }
}
