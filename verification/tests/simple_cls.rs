use fru::classification::{ClsDaAggregator, DecisionSlice};
use fru::{FYSampler, Mask, MaskCache, RfInput, RfRng, Tree, Votes, Walk};

/// A classification data set with floating-point features: a pivot `t` sends
/// observations whose feature value is above `t` left, and a split is scored by
/// a Gini-like purity of the two sides (mapped to an order-preserving integer
/// key, as scores are never negative).
struct FloatFrame {
    x: Vec<Vec<f64>>,
    y: Vec<u32>,
    n_cat: u32,
}

/// Identity-like many-class problem: one feature `0..n`, and class `e / (n / n_cat)`.
fn generate_ident(n_cat: usize, n: usize) -> FloatFrame {
    assert!(n % n_cat == 0);
    let x: Vec<Vec<f64>> = vec![(0..n).map(|e| e as f64).collect()];
    let y: Vec<u32> = (0..n_cat)
        .flat_map(|c| std::iter::repeat(c as u32).take(n / n_cat))
        .collect();
    FloatFrame { x, y, n_cat: n_cat as u32 }
}

/// Best threshold between consecutive distinct values of `x` on the
/// observations of `mask`, the first one on ties, with its score.
fn scan(x: &[f64], ys: &DecisionSlice, mask: &Mask) -> Option<(f64, f64)> {
    let mut bound: Vec<(f64, u32)> = mask
        .as_slice()
        .iter()
        .zip(ys.values().iter())
        .map(|(&e, &y)| (x[e], y))
        .collect();
    bound.sort_unstable_by(|a, b| a.0.total_cmp(&b.0));
    let n = bound.len();
    let all = ys.summary().counts();
    let mut left = vec![0u32; ys.ncat() as usize];
    let mut scanned = 0usize;
    let mut best: Option<(f64, f64)> = None;
    for w in bound.windows(2) {
        let (xv, next_x, y) = (w[0].0, w[1].0, w[0].1);
        scanned += 1;
        left[y as usize] += 1;
        if xv.total_cmp(&next_x).is_ne() {
            let score: f64 = all
                .iter()
                .zip(left.iter())
                .map(|(&a, &l)| {
                    let ahead = (n - scanned) as f64;
                    let sc = scanned as f64;
                    let nf = n as f64;
                    let right = (a - l) as f64;
                    let l = l as f64;
                    (l / sc) * (l / nf) + (right / ahead) * (right / nf)
                })
                .sum();
            if score > best.map(|b| b.1).unwrap_or(f64::NEG_INFINITY) {
                best = Some((0.5 * (xv + next_x), score));
            }
        }
    }
    best
}

impl RfInput for FloatFrame {
    type FeatureId = usize;
    type Pivot = f64;
    type Vote = u32;
    type VoteAggregator = Votes;
    type DecisionSlice = DecisionSlice;
    type AccuracyDecreaseAggregator = ClsDaAggregator;
    type FeatureSampler = FYSampler;

    fn new_aggregator(&self) -> Votes {
        Votes::new(self.n_cat)
    }

    fn new_da_aggregator(&self, on: &Mask, n: usize) -> ClsDaAggregator {
        ClsDaAggregator::new(&self.y, on.len(), n)
    }

    fn observation_count(&self) -> usize {
        self.y.len()
    }

    fn feature_count(&self) -> usize {
        self.x.len()
    }

    fn same_feature(a: usize, b: usize) -> bool {
        a == b
    }

    fn decision_slice(&self, mask: &Mask) -> DecisionSlice {
        DecisionSlice::new(mask, &self.y, self.n_cat)
    }

    fn feature_sampler(&self) -> FYSampler {
        FYSampler::new(self)
    }

    fn new_split(
        &self,
        on: &Mask,
        using: usize,
        y: &DecisionSlice,
        _rng: &mut RfRng,
    ) -> Option<(f64, u64)> {
        scan(&self.x[using], y, on).map(|(t, score)| (t, score.to_bits()))
    }

    fn split_iter(&self, on: &Mask, using: usize, by: &f64) -> Vec<bool> {
        on.as_slice().iter().map(|&e| self.x[using][e] > *by).collect()
    }
}

#[test]
fn ident() {
    let n = 8;
    let nc = 4;
    let mut rng = RfRng::from_seed(21, 1);
    let mut mask_cache = MaskCache::new();
    let bag = Mask::new_all(n);
    let input = generate_ident(nc, n);
    let mut feature_sampler = input.feature_sampler();
    let tree = Tree::new(&input, &bag, 1, &mut feature_sampler, 512, &mut mask_cache, &mut rng);
    let tw = tree.walk();
    let ref_walk = vec![
        Walk::<FloatFrame>::VisitBranch(0, 3.5),
        Walk::<FloatFrame>::VisitBranch(0, 5.5),
        Walk::<FloatFrame>::VisitLeaf(3),
        Walk::<FloatFrame>::VisitLeaf(2),
        Walk::<FloatFrame>::VisitBranch(0, 1.5),
        Walk::<FloatFrame>::VisitLeaf(1),
        Walk::<FloatFrame>::VisitLeaf(0),
    ];
    let ok = tw.iter().zip(ref_walk.iter()).all(|x| match x {
        (Walk::VisitLeaf(x), Walk::VisitLeaf(y)) => x == y,
        (Walk::VisitBranch(xf, xp), Walk::VisitBranch(yf, yp)) => (xf == yf) && (xp == yp),
        _ => false,
    });
    assert!(ok);
}

#[test]
fn imp() {
    let n = 1200;
    let nc = 4;
    let mut rng = RfRng::from_seed(21, 1);
    let mut mask_cache = MaskCache::new();
    let bag = Mask::new_all(n);
    let input = generate_ident(nc, n);
    let mut feature_sampler = input.feature_sampler();
    let tree = Tree::new(&input, &bag, 1, &mut feature_sampler, 512, &mut mask_cache, &mut rng);
    let mut no_oob: Option<Vec<Votes>> = None;
    let collector = tree.permutational_importance(&input, &bag, &mut mask_cache, &mut rng, &mut no_oob);
    let drop = *collector.drops().get(&0).unwrap();
    let imp = (drop as f64) / (collector.observations() as f64);
    let nc = nc as f64;
    assert!((imp - (nc - 1.) / nc).abs() < 0.05);
}

#[test]
fn ident_tree_is_seed_reproducible() {
    let input = generate_ident(4, 8);
    let grow = || {
        let mut rng = RfRng::from_seed(21, 1);
        let mut feature_sampler = input.feature_sampler();
        let tree = Tree::new(&input, &Mask::new_all(8), 1, &mut feature_sampler, 512, &mut MaskCache::new(), &mut rng);
        tree.walk()
    };
    let a = grow();
    let b = grow();
    assert_eq!(a.len(), b.len());
    assert!(a.iter().zip(b.iter()).all(|p| match p {
        (Walk::VisitLeaf(x), Walk::VisitLeaf(y)) => x == y,
        (Walk::VisitBranch(xf, xp), Walk::VisitBranch(yf, yp)) => xf == yf && xp == yp,
        _ => false,
    }));
}
