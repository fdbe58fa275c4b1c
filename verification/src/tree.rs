use vstd::prelude::*;

use crate::error::XrfError;
use crate::fair_best::{
    best_of, fair_step, lemma_fair_step_best, lemma_fair_step_hits, lemma_max_score_bound, max_score, BestState, FairBest,
};
use crate::mask::{occurrences, select_side, zip_len, Mask, MaskCache};
use crate::rfinput::{acceptance_kept, DecisionSlice, FeatureSampler, RfInput, VoteAggregator};
use crate::rng::RfRng;

verus! {

/// A portable representation of a vertex of a trained forest; a left-first,
/// depth-first sequence of these represents the whole forest.
pub enum Walk<I: RfInput> {
    /// The visited vertex is a leaf.
    VisitLeaf(I::Vote),
    /// The visited vertex is a branch.
    VisitBranch(I::FeatureId, I::Pivot),
}

/// A binary decision tree.
pub enum Tree<I: RfInput> {
    Leaf(I::Vote),
    Branch(I::FeatureId, I::Pivot, Box<Tree<I>>, Box<Tree<I>>),
}

/// Left-first, depth-first walk over a tree.
pub open spec fn walk_of<I: RfInput>(t: Tree<I>) -> Seq<Walk<I>>
    decreases t,
{
    match t {
        Tree::Leaf(v) => seq![Walk::VisitLeaf(v)],
        Tree::Branch(f, p, l, r) => seq![Walk::VisitBranch(f, p)] + walk_of::<I>(*l) + walk_of::<I>(*r),
    }
}

/// Concatenated walks of a sequence of trees.
pub open spec fn forest_walk<I: RfInput>(ts: Seq<Tree<I>>) -> Seq<Walk<I>>
    decreases ts.len(),
{
    if ts.len() == 0 {
        Seq::empty()
    } else {
        forest_walk(ts.drop_last()) + walk_of(ts.last())
    }
}

/// Reading one tree from the walk `s` at position `i`: the tree and the
/// position after it, or `None` when the walk ends before the tree does.
pub open spec fn parse_tree<I: RfInput>(s: Seq<Walk<I>>, i: int) -> Option<(Tree<I>, int)>
    decreases s.len() - i,
{
    if i < 0 || i >= s.len() {
        None
    } else {
        match s[i] {
            Walk::VisitLeaf(v) => Some((Tree::Leaf(v), i + 1)),
            Walk::VisitBranch(f, p) => match parse_tree(s, i + 1) {
                None => None,
                Some((l, j)) => if j <= i || j > s.len() {
                    None
                } else {
                    match parse_tree(s, j) {
                        None => None,
                        Some((r, k)) => Some((Tree::Branch(f, p, Box::new(l), Box::new(r)), k)),
                    }
                },
            },
        }
    }
}

/// Reading trees from position `i` until the walk is exhausted; `None` when
/// the walk is empty there or ends inside a tree.
pub open spec fn parse_forest<I: RfInput>(s: Seq<Walk<I>>, i: int) -> Option<Seq<Tree<I>>>
    decreases s.len() - i,
{
    match parse_tree(s, i) {
        None => None,
        Some((t, j)) => if j >= s.len() {
            Some(seq![t])
        } else if j <= i {
            None
        } else {
            match parse_forest(s, j) {
                None => None,
                Some(ts) => Some(seq![t] + ts),
            }
        },
    }
}

/// The vote of the leaf that observation `e` reaches.
pub open spec fn route<I: RfInput>(t: Tree<I>, input: I, e: usize) -> I::Vote
    decreases t,
{
    match t {
        Tree::Leaf(v) => v,
        Tree::Branch(f, p, l, r) => if input.goes_left(e, f, p) {
            route::<I>(*l, input, e)
        } else {
            route::<I>(*r, input, e)
        },
    }
}

/// The aggregator after ingesting vote `v` `n` times.
pub open spec fn ingest_n<A: VoteAggregator<V>, V>(a: A::Model, v: V, n: nat) -> A::Model
    decreases n,
{
    if n == 0 {
        a
    } else {
        ingest_n::<A, V>(A::ingested(a, v), v, (n - 1) as nat)
    }
}

/// The sides a pivot sends the observations of `mask` to (`true` is left).
pub open spec fn sides_of<I: RfInput>(input: I, mask: Seq<usize>, f: I::FeatureId, p: I::Pivot) -> Seq<bool> {
    Seq::new(mask.len(), |k: int| input.goes_left(mask[k], f, p))
}

/// The abstract state of the feature sampler of the data set `I`.
pub type SamplerModel<I> = <<I as RfInput>::FeatureSampler as FeatureSampler<<I as RfInput>::FeatureId>>::Model;

/// The best split kept after `k` features were tried on the observations `mask`,
/// starting from sampler state `sm` and generator state `state`: each try draws a
/// feature, looks for a split on it, and offers a split found to a fair-best
/// accumulator (score, then fair ties). Gives the accumulator, the sampler state
/// and the generator state after the tries.
pub open spec fn try_splits<I: RfInput>(
    input: I,
    mask: Seq<usize>,
    k: nat,
    sm: SamplerModel<I>,
    state: u64,
    hop: u64,
) -> (BestState<(I::FeatureId, I::Pivot)>, SamplerModel<I>, u64)
    decreases k,
{
    if k == 0 {
        (None, sm, state)
    } else {
        let (b, sm1, st1) = try_splits(input, mask, (k - 1) as nat, sm, state, hop);
        let (f, sm2, st2) = I::FeatureSampler::drawn(sm1, st1, hop);
        let (found, st3) = input.split_of(mask, f, st2, hop);
        match found {
            None => (b, sm2, st3),
            Some((p, score)) => {
                let (b2, st4) = fair_step(b, score, (f, p), st3, hop);
                (b2, sm2, st4)
            },
        }
    }
}

/// The tree grown on the observations `mask` with at most `depth` levels,
/// trying `tries` features per level, from sampler state `sm` and generator
/// state `state`, together with the sampler and generator states after it.
/// Where no depth is left or the observations are pure, a leaf is made from
/// them; otherwise the sampler is reloaded, `tries` features are tried, and
/// the best split found becomes a branch whose children are grown, left then
/// right, on the observations its pivot sends to each side; when no split is
/// found a leaf is made.
pub open spec fn grow<I: RfInput>(
    input: I,
    mask: Seq<usize>,
    tries: nat,
    sm: SamplerModel<I>,
    depth: nat,
    state: u64,
    hop: u64,
) -> (Tree<I>, SamplerModel<I>, u64)
    decreases depth,
{
    if depth == 0 || input.pure_on(mask) {
        let (v, st1) = input.leaf_of(mask, state, hop);
        (Tree::Leaf(v), sm, st1)
    } else {
        let (b, sm1, st1) = try_splits(input, mask, tries, I::FeatureSampler::reloaded(sm), state, hop);
        match b {
            None => {
                let (v, st2) = input.leaf_of(mask, st1, hop);
                (Tree::Leaf(v), sm1, st2)
            },
            Some((_, _, (f, p))) => {
                let sides = sides_of(input, mask, f, p);
                let (l, sm2, st2) = grow(
                    input,
                    select_side(mask, sides, true, mask.len()),
                    tries,
                    sm1,
                    (depth - 1) as nat,
                    st1,
                    hop,
                );
                let (r, sm3, st3) = grow(
                    input,
                    select_side(mask, sides, false, mask.len()),
                    tries,
                    sm2,
                    (depth - 1) as nat,
                    st2,
                    hop,
                );
                (Tree::Branch(f, p, Box::new(l), Box::new(r)), sm3, st3)
            },
        }
    }
}

/// The splits found by the first `k` tries of `try_splits`, as (score,
/// (feature, pivot)) in the order they were found.
pub open spec fn splits_found<I: RfInput>(
    input: I,
    mask: Seq<usize>,
    k: nat,
    sm: SamplerModel<I>,
    state: u64,
    hop: u64,
) -> Seq<(u64, (I::FeatureId, I::Pivot))>
    decreases k,
{
    if k == 0 {
        Seq::empty()
    } else {
        let prev = splits_found(input, mask, (k - 1) as nat, sm, state, hop);
        let (_, sm1, st1) = try_splits(input, mask, (k - 1) as nat, sm, state, hop);
        let (f, _, st2) = I::FeatureSampler::drawn(sm1, st1, hop);
        match input.split_of(mask, f, st2, hop).0 {
            None => prev,
            Some((p, score)) => prev.push((score, (f, p))),
        }
    }
}

/// Best-split law: after `k` tries the accumulator holds nothing when no split
/// was found, and otherwise the highest score among the splits found, how many
/// of them reached it, and one of those splits.
pub proof fn lemma_try_splits_best<I: RfInput>(
    input: I,
    mask: Seq<usize>,
    k: nat,
    sm: SamplerModel<I>,
    state: u64,
    hop: u64,
)
    ensures
        best_of(try_splits(input, mask, k, sm, state, hop).0, splits_found(input, mask, k, sm, state, hop)),
    decreases k,
{
    if k > 0 {
        lemma_try_splits_best(input, mask, (k - 1) as nat, sm, state, hop);
        let (b, sm1, st1) = try_splits(input, mask, (k - 1) as nat, sm, state, hop);
        let (f, sm2, st2) = I::FeatureSampler::drawn(sm1, st1, hop);
        let (found, st3) = input.split_of(mask, f, st2, hop);
        match found {
            None => {},
            Some((p, score)) => {
                lemma_fair_step_best(b, splits_found(input, mask, (k - 1) as nat, sm, state, hop), score, (f, p), st3, hop);
            },
        }
    }
}

/// Best-split law for grown trees: where depth is left and the observations are
/// not pure, the tree is a leaf exactly when none of the tried features has a
/// split, and otherwise its root splits on one of the best-scoring splits found
/// by the tries of that level; no split found scores higher.
pub proof fn lemma_grow_splits_on_best<I: RfInput>(
    input: I,
    mask: Seq<usize>,
    tries: nat,
    sm: SamplerModel<I>,
    depth: nat,
    state: u64,
    hop: u64,
)
    requires
        depth > 0,
        !input.pure_on(mask),
    ensures
        ({
            let items = splits_found(input, mask, tries, I::FeatureSampler::reloaded(sm), state, hop);
            &&& (grow(input, mask, tries, sm, depth, state, hop).0 is Leaf) == (items.len() == 0)
            &&& (grow(input, mask, tries, sm, depth, state, hop).0 matches Tree::Branch(f, p, _, _)
                ==> exists|i: int| 0 <= i < items.len() && #[trigger] items[i] == (max_score(items), (f, p)))
            &&& forall|i: int| 0 <= i < items.len() ==> #[trigger] items[i].0 <= max_score(items)
        }),
{
    let sm0 = I::FeatureSampler::reloaded(sm);
    lemma_try_splits_best(input, mask, tries, sm0, state, hop);
    lemma_max_score_bound(splits_found(input, mask, tries, sm0, state, hop));
}

impl<I: RfInput> Tree<I> {
    /// Grows a tree on the observations of `bag`: the feature sampler is reset,
    /// then each level tries `tries` features and splits on the best pivot found
    /// (ties broken fairly), until the observations are pure, no split is
    /// found, or `max_depth` levels are used.
    pub fn new(
        input: &I,
        bag: &Mask,
        tries: usize,
        feature_sampler: &mut I::FeatureSampler,
        max_depth: usize,
        mask_cache: &mut MaskCache,
        rng: &mut RfRng,
    ) -> (r: Self)
        requires
            input.condensable(),
            tries <= old(feature_sampler).total(),
        ensures
            (r, final(feature_sampler).model(), final(rng).state()) == grow(
                *input,
                bag@,
                tries as nat,
                I::FeatureSampler::restarted(old(feature_sampler).total()),
                max_depth as nat,
                old(rng).state(),
                old(rng).hop(),
            ),
            final(rng).hop() == old(rng).hop(),
            final(feature_sampler).total() == old(feature_sampler).total(),
    {
        feature_sampler.reset();
        Self::new_rec(input, bag, tries, feature_sampler, max_depth, mask_cache, rng)
    }

    fn new_rec(
        input: &I,
        mask: &Mask,
        tries: usize,
        feature_sampler: &mut I::FeatureSampler,
        depth_left: usize,
        mask_cache: &mut MaskCache,
        rng: &mut RfRng,
    ) -> (r: Self)
        requires
            input.condensable(),
            tries <= old(feature_sampler).total(),
        ensures
            (r, final(feature_sampler).model(), final(rng).state()) == grow(
                *input,
                mask@,
                tries as nat,
                old(feature_sampler).model(),
                depth_left as nat,
                old(rng).state(),
                old(rng).hop(),
            ),
            final(rng).hop() == old(rng).hop(),
            final(feature_sampler).total() == old(feature_sampler).total(),
        decreases depth_left,
    {
        let ghost hop = rng.hop();
        let y = input.decision_slice(mask);
        if depth_left == 0 || y.is_pure() {
            let v = y.condense(rng);
            return Tree::Leaf(v);
        }
        feature_sampler.reload();
        let ghost total = feature_sampler.total();
        let ghost sm0 = feature_sampler.model();
        let ghost st0 = rng.state();
        let mut best: FairBest<(I::FeatureId, I::Pivot)> = FairBest::new();
        let mut i: usize = 0;
        while i < tries
            invariant
                i <= tries,
                tries <= total,
                total == old(feature_sampler).total(),
                feature_sampler.total() == total,
                feature_sampler.available() + i >= total,
                rng.hop() == hop,
                best.state() matches Some((_, h, _)) ==> h <= i,
                (best.state(), feature_sampler.model(), rng.state()) == try_splits(
                    *input,
                    mask@,
                    i as nat,
                    sm0,
                    st0,
                    hop,
                ),
            decreases tries - i,
        {
            let feature = feature_sampler.random_feature(rng);
            match input.new_split(mask, feature, &y, rng) {
                Some((pivot, score)) => {
                    proof {
                        lemma_fair_step_hits(best.state(), score, (feature, pivot), rng.state(), rng.hop(), i as nat);
                    }
                    best.ingest(score, (feature, pivot), rng);
                },
                None => {},
            }
            i = i + 1;
        }
        match best.consume() {
            Some((_score, (feature, pivot))) => {
                let mut left = mask_cache.provide();
                let mut right = mask_cache.provide();
                let sides = input.split_iter(mask, feature, &pivot);
                mask.split_into(sides.as_slice(), &mut left, &mut right);
                proof {
                    assert(sides@ =~= sides_of(*input, mask@, feature, pivot));
                }
                let l = Self::new_rec(input, &left, tries, feature_sampler, depth_left - 1, mask_cache, rng);
                let r = Self::new_rec(input, &right, tries, feature_sampler, depth_left - 1, mask_cache, rng);
                mask_cache.release(left);
                mask_cache.release(right);
                Tree::Branch(feature, pivot, Box::new(l), Box::new(r))
            },
            None => {
                let v = y.condense(rng);
                Tree::Leaf(v)
            },
        }
    }

    /// Appends the walk of this tree to `out`.
    pub(crate) fn walk_into(&self, out: &mut Vec<Walk<I>>)
        ensures
            final(out)@ == old(out)@ + walk_of(*self),
        decreases self,
    {
        match self {
            Tree::Leaf(v) => {
                out.push(Walk::VisitLeaf(*v));
            },
            Tree::Branch(f, p, l, r) => {
                out.push(Walk::VisitBranch(*f, *p));
                l.walk_into(out);
                r.walk_into(out);
                proof {
                    assert(out@ =~= old(out)@ + walk_of(*self));
                }
            },
        }
    }

    /// Left-first, depth-first walk over the tree.
    pub fn walk(&self) -> (r: Vec<Walk<I>>)
        ensures
            r@ == walk_of(*self),
    {
        let mut out: Vec<Walk<I>> = Vec::new();
        self.walk_into(&mut out);
        proof {
            assert(out@ =~= walk_of(*self));
        }
        out
    }

    /// Rebuilds one tree from the walk `steps`, starting at `*pos` and leaving
    /// `*pos` after the tree; fails with `WalkAggregationFailure` when the walk
    /// ends before the tree is complete.
    pub fn from_walk(steps: &[Walk<I>], pos: &mut usize) -> (r: Result<Self, XrfError>)
        requires
            *old(pos) <= steps@.len(),
        ensures
            match parse_tree(steps@, *old(pos) as int) {
                Some((t, k)) => r == Ok::<Self, XrfError>(t) && *final(pos) == k,
                None => r == Err::<Self, XrfError>(XrfError::WalkAggregationFailure),
            },
            *final(pos) <= steps@.len(),
        decreases steps@.len() - *old(pos),
    {
        if *pos >= steps.len() {
            return Err(XrfError::WalkAggregationFailure);
        }
        let i = *pos;
        *pos = i + 1;
        match &steps[i] {
            Walk::VisitLeaf(v) => Ok(Tree::Leaf(*v)),
            Walk::VisitBranch(fid, piv) => {
                let left = match Self::from_walk(steps, pos) {
                    Ok(t) => t,
                    Err(e) => return Err(e),
                };
                proof {
                    lemma_parse_tree_advances(steps@, i + 1);
                }
                let right = match Self::from_walk(steps, pos) {
                    Ok(t) => t,
                    Err(e) => return Err(e),
                };
                Ok(Tree::Branch(*fid, *piv, Box::new(left), Box::new(right)))
            },
        }
    }

    /// Routes the observations of `on` down the tree and makes each ingest the
    /// vote of the leaf it reaches into its slot of `onto` (once per entry of
    /// `on`).
    pub fn cast_votes(
        &self,
        input: &I,
        on: &Mask,
        onto: &mut Vec<I::VoteAggregator>,
        mask_cache: &mut MaskCache,
    )
        requires
            forall|k: int| 0 <= k < on@.len() ==> #[trigger] on@[k] < old(onto)@.len(),
            acceptance_kept::<I::VoteAggregator, I::Vote>(),
            forall|j: int|
                0 <= j < old(onto)@.len() && occurrences(on@, j as usize) > 0 ==> I::VoteAggregator::accepts(
                    #[trigger] old(onto)@[j].model(),
                    route(*self, *input, j as usize),
                ),
        ensures
            final(onto)@.len() == old(onto)@.len(),
            forall|j: int|
                0 <= j < old(onto)@.len() ==> #[trigger] final(onto)@[j].model() == ingest_n::<I::VoteAggregator, I::Vote>(
                    old(onto)@[j].model(),
                    route(*self, *input, j as usize),
                    occurrences(on@, j as usize),
                ),
        decreases self,
    {
        match self {
            Tree::Leaf(vote) => {
                let n = on.len();
                let total = onto.len();
                let mut k: usize = 0;
                while k < n
                    invariant
                        n == on@.len(),
                        total == old(onto)@.len(),
                        k <= n,
                        onto@.len() == old(onto)@.len(),
                        forall|kk: int| 0 <= kk < on@.len() ==> #[trigger] on@[kk] < old(onto)@.len(),
                        acceptance_kept::<I::VoteAggregator, I::Vote>(),
                        forall|j: int|
                            0 <= j < old(onto)@.len() && occurrences(on@, j as usize) > 0 ==> I::VoteAggregator::accepts(
                                #[trigger] old(onto)@[j].model(),
                                *vote,
                            ),
                        forall|j: int|
                            0 <= j < old(onto)@.len() ==> #[trigger] onto@[j].model() == ingest_n::<I::VoteAggregator, I::Vote>(
                                old(onto)@[j].model(),
                                *vote,
                                occurrences(on@.take(k as int), j as usize),
                            ),
                    decreases n - k,
                {
                    let e = on.get(k);
                    proof {
                        let ghost c = occurrences(on@.take(k as int), e);
                        lemma_occurrences_prefix_le(on@, k as nat, e);
                        lemma_ingest_n_step::<I::VoteAggregator, I::Vote>(old(onto)@[e as int].model(), *vote, c);
                        lemma_ingest_n_keeps_acceptance::<I::VoteAggregator, I::Vote>(old(onto)@[e as int].model(), *vote, c);
                        assert(I::VoteAggregator::accepts(onto@[e as int].model(), *vote));
                    }
                    let ghost before = onto@;
                    onto[e].ingest_vote(*vote);
                    proof {
                        assert(onto@.len() == before.len());
                        assert(onto@[e as int].model() == I::VoteAggregator::ingested(before[e as int].model(), *vote));
                        assert(forall|j: int| 0 <= j < onto@.len() && j != e ==> onto@[j] == before[j]);
                        lemma_vote_step::<I::VoteAggregator, I::Vote>(old(onto)@, before, onto@, on@, k as nat, |j: usize| *vote);
                    }
                    k = k + 1;
                }
                proof {
                    assert(on@.take(n as int) =~= on@);
                }
            },
            Tree::Branch(feature_id, pivot, left, right) => {
                let mut left_on = mask_cache.provide();
                let mut right_on = mask_cache.provide();
                let sides = input.split_iter(on, *feature_id, pivot);
                on.split_into(sides.as_slice(), &mut left_on, &mut right_on);
                proof {
                    assert(zip_len(on@, sides@) == on@.len());
                    lemma_select_routes(*input, on@, sides@, *feature_id, *pivot, on@.len());
                    assert(on@.take(on@.len() as int) =~= on@);
                    assert forall|k: int| 0 <= k < left_on@.len() implies #[trigger] left_on@[k] < old(onto)@.len() by {
                        let j = choose|j: int| 0 <= j < on@.len() && left_on@[k] == on@[j];
                    }
                    assert forall|k: int| 0 <= k < right_on@.len() implies #[trigger] right_on@[k] < old(onto)@.len() by {
                        let j = choose|j: int| 0 <= j < on@.len() && right_on@[k] == on@[j];
                    }
                    assert forall|j: int|
                        0 <= j < old(onto)@.len() && occurrences(left_on@, j as usize) > 0 implies I::VoteAggregator::accepts(
                            #[trigger] old(onto)@[j].model(),
                            route(**left, *input, j as usize),
                        ) by {
                        assert(occurrences(on@, j as usize) > 0);
                    }
                }
                let ghost mid = onto@;
                if !left_on.is_empty() {
                    left.cast_votes(input, &left_on, onto, mask_cache);
                }
                proof {
                    assert forall|j: int| 0 <= j < old(onto)@.len() implies #[trigger] onto@[j].model() == ingest_n::<I::VoteAggregator, I::Vote>(
                        old(onto)@[j].model(),
                        route(**left, *input, j as usize),
                        occurrences(left_on@, j as usize),
                    ) by {
                        if left_on@.len() == 0 {
                            assert(occurrences(left_on@, j as usize) == 0);
                        }
                    }
                }
                proof {
                    assert forall|j: int|
                        0 <= j < onto@.len() && occurrences(right_on@, j as usize) > 0 implies I::VoteAggregator::accepts(
                            #[trigger] onto@[j].model(),
                            route(**right, *input, j as usize),
                        ) by {
                        assert(occurrences(on@, j as usize) > 0);
                        assert(occurrences(left_on@, j as usize) == 0);
                        assert(onto@[j].model() == old(onto)@[j].model());
                    }
                }
                if !right_on.is_empty() {
                    right.cast_votes(input, &right_on, onto, mask_cache);
                }
                proof {
                    assert forall|j: int| 0 <= j < old(onto)@.len() implies #[trigger] onto@[j].model() == ingest_n::<I::VoteAggregator, I::Vote>(
                        old(onto)@[j].model(),
                        route(*self, *input, j as usize),
                        occurrences(on@, j as usize),
                    ) by {
                        if right_on@.len() == 0 {
                            assert(occurrences(right_on@, j as usize) == 0);
                        }
                    }
                }
                mask_cache.release(right_on);
                mask_cache.release(left_on);
            },
        }
    }
}

proof fn lemma_walk_nonempty<I: RfInput>(t: Tree<I>)
    ensures
        walk_of(t).len() >= 1,
    decreases t,
{
}

/// Walk law: reading a tree from its own walk (found at any position of a
/// longer walk) gives the tree back and stops right after its walk.
pub proof fn lemma_walk_round_trip<I: RfInput>(t: Tree<I>, s: Seq<Walk<I>>, i: int)
    requires
        0 <= i,
        i + walk_of(t).len() <= s.len(),
        s.subrange(i, i + walk_of(t).len()) == walk_of(t),
    ensures
        parse_tree(s, i) == Some((t, i + walk_of(t).len())),
    decreases t,
{
    let w = walk_of(t);
    assert(s[i] == w[0]);
    match t {
        Tree::Leaf(v) => {},
        Tree::Branch(f, p, l, r) => {
            let wl = walk_of::<I>(*l);
            let wr = walk_of::<I>(*r);
            assert(w == seq![Walk::<I>::VisitBranch(f, p)] + wl + wr);
            let j = i + 1 + wl.len();
            assert(s.subrange(i + 1, j) =~= wl) by {
                assert forall|x: int| 0 <= x < wl.len() implies s.subrange(i + 1, j)[x] == wl[x] by {
                    assert(s.subrange(i, i + w.len())[1 + x] == w[1 + x]);
                }
            }
            lemma_walk_round_trip::<I>(*l, s, i + 1);
            assert(s.subrange(j, j + wr.len()) =~= wr) by {
                assert forall|x: int| 0 <= x < wr.len() implies s.subrange(j, j + wr.len())[x] == wr[x] by {
                    assert(s.subrange(i, i + w.len())[1 + wl.len() + x] == w[1 + wl.len() + x]);
                }
            }
            lemma_walk_round_trip::<I>(*r, s, j);
            lemma_walk_nonempty::<I>(*l);
        },
    }
}

proof fn lemma_forest_walk_front<I: RfInput>(ts: Seq<Tree<I>>)
    requires
        ts.len() > 0,
    ensures
        forest_walk(ts) == walk_of(ts[0]) + forest_walk(ts.subrange(1, ts.len() as int)),
    decreases ts.len(),
{
    if ts.len() == 1 {
        assert(ts.drop_last() =~= Seq::<Tree<I>>::empty());
        assert(ts.subrange(1, 1) =~= Seq::<Tree<I>>::empty());
        assert(forest_walk(ts) =~= walk_of(ts[0]) + forest_walk(ts.subrange(1, 1)));
    } else {
        let p = ts.drop_last();
        lemma_forest_walk_front(p);
        assert(p.subrange(1, p.len() as int) =~= ts.subrange(1, ts.len() as int).drop_last());
        assert(ts.subrange(1, ts.len() as int).last() == ts.last());
        assert(forest_walk(ts) =~= walk_of(ts[0]) + forest_walk(ts.subrange(1, ts.len() as int)));
    }
}

/// Forest walk law: reading a forest from the concatenated walks of a
/// non-empty sequence of trees gives the trees back.
pub proof fn lemma_forest_round_trip<I: RfInput>(ts: Seq<Tree<I>>, s: Seq<Walk<I>>, i: int)
    requires
        ts.len() > 0,
        0 <= i,
        s.len() == i + forest_walk(ts).len(),
        s.subrange(i, s.len() as int) == forest_walk(ts),
    ensures
        parse_forest(s, i) == Some(ts),
    decreases ts.len(),
{
    let t = ts[0];
    let rest = ts.subrange(1, ts.len() as int);
    lemma_forest_walk_front(ts);
    let wt = walk_of(t);
    let j = i + wt.len();
    assert(s.subrange(i, j) =~= wt) by {
        assert forall|x: int| 0 <= x < wt.len() implies s.subrange(i, j)[x] == wt[x] by {
            assert(s.subrange(i, s.len() as int)[x] == forest_walk(ts)[x]);
        }
    }
    lemma_walk_round_trip(t, s, i);
    lemma_walk_nonempty(t);
    if ts.len() == 1 {
        assert(rest =~= Seq::<Tree<I>>::empty());
        assert(ts =~= seq![t]);
    } else {
        let fr = forest_walk(rest);
        assert(forest_walk(ts) == wt + fr);
        assert(forest_walk(ts).len() == wt.len() + fr.len());
        assert(s.len() == j + fr.len());
        assert(s.subrange(j, s.len() as int) =~= forest_walk(rest)) by {
            assert forall|x: int| 0 <= x < forest_walk(rest).len() implies s.subrange(j, s.len() as int)[x] == forest_walk(rest)[x] by {
                assert(s.subrange(i, s.len() as int)[wt.len() + x] == forest_walk(ts)[wt.len() + x]);
                assert((wt + fr)[wt.len() + x] == fr[x]);
            }
        }
        lemma_forest_walk_nonempty(rest);
        lemma_forest_round_trip(rest, s, j);
        assert(ts =~= seq![t] + rest);
    }
}

proof fn lemma_forest_walk_nonempty<I: RfInput>(ts: Seq<Tree<I>>)
    requires
        ts.len() > 0,
    ensures
        forest_walk(ts).len() >= 1,
{
    lemma_forest_walk_front(ts);
    lemma_walk_nonempty(ts[0]);
}

/// One more vote: observation `on[k]` ingests the vote meant for it.
pub(crate) proof fn lemma_vote_step<A: VoteAggregator<V>, V>(
    init: Seq<A>,
    before: Seq<A>,
    after: Seq<A>,
    on: Seq<usize>,
    k: nat,
    votes: spec_fn(usize) -> V,
)
    requires
        k < on.len(),
        (on[k as int] as int) < init.len(),
        init.len() <= usize::MAX,
        before.len() == init.len(),
        after.len() == init.len(),
        after[on[k as int] as int].model() == A::ingested(before[on[k as int] as int].model(), votes(on[k as int])),
        forall|j: int| 0 <= j < after.len() && j != on[k as int] ==> after[j] == before[j],
        forall|j: int|
            0 <= j < init.len() ==> #[trigger] before[j].model() == ingest_n::<A, V>(
                init[j].model(),
                votes(j as usize),
                occurrences(on.take(k as int), j as usize),
            ),
    ensures
        forall|j: int|
            0 <= j < init.len() ==> #[trigger] after[j].model() == ingest_n::<A, V>(
                init[j].model(),
                votes(j as usize),
                occurrences(on.take((k + 1) as int), j as usize),
            ),
{
    let e = on[k as int];
    assert forall|j: int| 0 <= j < init.len() implies #[trigger] after[j].model() == ingest_n::<A, V>(
        init[j].model(),
        votes(j as usize),
        occurrences(on.take((k + 1) as int), j as usize),
    ) by {
        lemma_occurrences_prefix_le(on, k, j as usize);
        if j != e {
            assert(after[j] == before[j]);
        } else {
            let c = occurrences(on.take(k as int), e);
            lemma_ingest_n_step::<A, V>(init[j].model(), votes(j as usize), c);
        }
    }
}

pub proof fn lemma_parse_tree_advances<I: RfInput>(s: Seq<Walk<I>>, i: int)
    ensures
        parse_tree(s, i) matches Some((_, j)) ==> i < j <= s.len(),
    decreases s.len() - i,
{
    if 0 <= i < s.len() {
        if let Walk::VisitBranch(_, _) = s[i] {
            lemma_parse_tree_advances(s, i + 1);
            if let Some((_, j)) = parse_tree(s, i + 1) {
                if i < j <= s.len() {
                    lemma_parse_tree_advances(s, j);
                }
            }
        }
    }
}

pub(crate) proof fn lemma_occurrences_prefix_le(s: Seq<usize>, k: nat, x: usize)
    requires
        k < s.len(),
    ensures
        occurrences(s.take(k as int), x) + if s[k as int] == x {
            1nat
        } else {
            0nat
        } <= occurrences(s, x),
        occurrences(s.take((k + 1) as int), x) == occurrences(s.take(k as int), x) + if s[k as int] == x {
            1nat
        } else {
            0nat
        },
    decreases s.len() - k,
{
    assert(s.take((k + 1) as int).drop_last() =~= s.take(k as int));
    if k + 1 < s.len() {
        lemma_occurrences_prefix_le(s, k + 1, x);
    } else {
        assert(s.take((k + 1) as int) =~= s);
    }
}


/// Counting an accepted vote any number of times leaves the accepted votes as
/// they were, where counting never changes them.
pub proof fn lemma_ingest_n_keeps_acceptance<A: VoteAggregator<V>, V>(a: A::Model, v: V, c: nat)
    requires
        acceptance_kept::<A, V>(),
        A::accepts(a, v),
    ensures
        forall|w: V| #[trigger] A::accepts(ingest_n::<A, V>(a, v, c), w) == A::accepts(a, w),
    decreases c,
{
    if c > 0 {
        let b = A::ingested(a, v);
        assert(A::accepts(b, v) == A::accepts(a, v));
        lemma_ingest_n_keeps_acceptance::<A, V>(b, v, (c - 1) as nat);
        assert(ingest_n::<A, V>(a, v, c) == ingest_n::<A, V>(b, v, (c - 1) as nat));
        assert forall|w: V| #[trigger] A::accepts(ingest_n::<A, V>(a, v, c), w) == A::accepts(a, w) by {
            assert(A::accepts(ingest_n::<A, V>(b, v, (c - 1) as nat), w) == A::accepts(b, w));
            assert(A::accepts(b, w) == A::accepts(a, w));
        }
    }
}

proof fn lemma_ingest_n_step<A: VoteAggregator<V>, V>(a: A::Model, v: V, c: nat)
    ensures
        ingest_n::<A, V>(a, v, c + 1) == A::ingested(ingest_n::<A, V>(a, v, c), v),
    decreases c,
{
    let b = A::ingested(a, v);
    assert(ingest_n::<A, V>(a, v, c + 1) == ingest_n::<A, V>(b, v, c));
    if c > 0 {
        lemma_ingest_n_step::<A, V>(b, v, (c - 1) as nat);
        assert(ingest_n::<A, V>(a, v, c) == ingest_n::<A, V>(b, v, (c - 1) as nat));
    } else {
        assert(ingest_n::<A, V>(b, v, 0) == b);
        assert(ingest_n::<A, V>(a, v, 0) == a);
    }
}

/// Occurrences of an observation in the two parts of a split: all of them go
/// to the side the observation is sent to.
proof fn lemma_select_routes<I: RfInput>(
    input: I,
    s: Seq<usize>,
    sides: Seq<bool>,
    f: I::FeatureId,
    p: I::Pivot,
    k: nat,
)
    requires
        k <= s.len(),
        k <= sides.len(),
        forall|i: int| 0 <= i < s.len() && i < sides.len() ==> #[trigger] sides[i] == input.goes_left(s[i], f, p),
    ensures
        forall|x: usize|
            #[trigger] occurrences(select_side(s, sides, true, k), x) == if input.goes_left(x, f, p) {
                occurrences(s.take(k as int), x)
            } else {
                0
            },
        forall|x: usize|
            #[trigger] occurrences(select_side(s, sides, false, k), x) == if input.goes_left(x, f, p) {
                0
            } else {
                occurrences(s.take(k as int), x)
            },
        forall|i: int| 0 <= i < select_side(s, sides, true, k).len() ==> exists|j: int| 0 <= j < k && #[trigger] select_side(s, sides, true, k)[i] == s[j],
        forall|i: int| 0 <= i < select_side(s, sides, false, k).len() ==> exists|j: int| 0 <= j < k && #[trigger] select_side(s, sides, false, k)[i] == s[j],
    decreases k,
{
    if k == 0 {
        assert(s.take(0) =~= Seq::<usize>::empty());
    } else {
        let km = (k - 1) as nat;
        lemma_select_routes(input, s, sides, f, p, km);
        assert(s.take(k as int).drop_last() =~= s.take(km as int));
        assert(s.take(k as int).last() == s[km as int]);
        let lt = select_side(s, sides, true, km);
        let rt = select_side(s, sides, false, km);
        if sides[km as int] {
            assert(lt.push(s[km as int]).drop_last() =~= lt);
        } else {
            assert(rt.push(s[km as int]).drop_last() =~= rt);
        }
        let l = select_side(s, sides, true, k);
        let r = select_side(s, sides, false, k);
        let y = s[km as int];
        assert forall|x: usize| #[trigger] occurrences(l, x) == if input.goes_left(x, f, p) {
            occurrences(s.take(k as int), x)
        } else {
            0
        } by {
            assert(occurrences(s.take(k as int), x) == occurrences(s.take(km as int), x) + if y == x {
                1nat
            } else {
                0nat
            });
            if sides[km as int] {
                assert(l == lt.push(y));
                assert(occurrences(l, x) == occurrences(lt, x) + if y == x {
                    1nat
                } else {
                    0nat
                });
            } else {
                assert(l == lt);
            }
        }
        assert forall|x: usize| #[trigger] occurrences(r, x) == if input.goes_left(x, f, p) {
            0
        } else {
            occurrences(s.take(k as int), x)
        } by {
            assert(occurrences(s.take(k as int), x) == occurrences(s.take(km as int), x) + if y == x {
                1nat
            } else {
                0nat
            });
            if !sides[km as int] {
                assert(r == rt.push(y));
                assert(occurrences(r, x) == occurrences(rt, x) + if y == x {
                    1nat
                } else {
                    0nat
                });
            } else {
                assert(r == rt);
            }
        }
        assert forall|i: int| 0 <= i < l.len() implies exists|j: int| 0 <= j < k && #[trigger] l[i] == s[j] by {
            if i < lt.len() {
                assert(l[i] == lt[i]);
            } else {
                assert(l[i] == s[km as int]);
            }
        }
        assert forall|i: int| 0 <= i < r.len() implies exists|j: int| 0 <= j < k && #[trigger] r[i] == s[j] by {
            if i < rt.len() {
                assert(r[i] == rt[i]);
            } else {
                assert(r[i] == s[km as int]);
            }
        }
    }
}

} // verus!
