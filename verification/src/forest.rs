use vstd::prelude::*;

use crate::error::XrfError;
use crate::mask::{bag_oob_spec, lemma_bag_oob_partition, occurrences, shuffle_from, Mask, MaskCache};
use crate::maybe_vec::MaybeVec;
use crate::importance::{collect_events, perm_events};
use crate::rfinput::{acceptance_kept, AccuracyDecreaseAggregator, FeatureSampler, RfInput, VoteAggregator};
use crate::rng::{lcg_iter, lemma_streams_start_apart, RfRng};
use crate::tree::{
    forest_walk, grow, ingest_n, lemma_forest_round_trip, lemma_ingest_n_keeps_acceptance, parse_forest, route, SamplerModel, Tree, Walk,
};

verus! {

/// The abstract state of a vote aggregator of the data set `I`.
pub type AggView<I> = <<I as RfInput>::VoteAggregator as VoteAggregator<<I as RfInput>::Vote>>::Model;

/// The aggregator of observation `j` after it received the votes of the first
/// `k` trees of `ts`, starting from `a`.
pub open spec fn forest_votes<I: RfInput>(a: AggView<I>, ts: Seq<Tree<I>>, input: I, j: usize, k: nat) -> AggView<I>
    decreases k,
{
    if k == 0 {
        a
    } else {
        I::VoteAggregator::ingested(forest_votes(a, ts, input, j, (k - 1) as nat), route(ts[k - 1], input, j))
    }
}

/// Depth limit of the trees grown by `Forest::new`.
pub const MAX_DEPTH: usize = 512;

/// The bag, the out-of-bag observations and the generator state after drawing
/// them, for tree `i` of a forest trained with `seed` on `n` observations: the
/// tree's generator is seeded with `seed` and stream number `i + 1`.
pub open spec fn tree_sample(n: usize, seed: u64, i: nat) -> (Seq<usize>, Seq<usize>, u64) {
    let hop = (i + 1) as u64;
    bag_oob_spec(lcg_iter(seed, hop, 2), hop, n)
}

/// The abstract state of a permuted-vote collector of the data set `I`.
pub type DaView<I> = <<I as RfInput>::AccuracyDecreaseAggregator as AccuracyDecreaseAggregator<
    <I as RfInput>::FeatureId,
    <I as RfInput>::Vote,
>>::Model;

/// Tree number `i` of a forest trained with `seed` on `input`, trying `tries`
/// features per level, with the sampler and generator states after growing it:
/// it is grown on the bag drawn for it by its own generator, from a freshly
/// reset sampler, with at most `MAX_DEPTH` levels.
pub open spec fn tree_growth<I: RfInput>(input: I, seed: u64, i: nat, tries: nat) -> (Tree<I>, SamplerModel<I>, u64) {
    let (bag, _, state) = tree_sample(input.n_observations() as usize, seed, i);
    grow(
        input,
        bag,
        tries,
        I::FeatureSampler::restarted(input.n_features()),
        MAX_DEPTH as nat,
        state,
        (i + 1) as u64,
    )
}

/// Tree number `i` of a forest trained with `seed` on `input`, trying `tries`
/// features per level.
pub open spec fn tree_of<I: RfInput>(input: I, seed: u64, i: nat, tries: nat) -> Tree<I> {
    tree_growth(input, seed, i, tries).0
}

/// The first `k` trees of a forest trained with `seed` on `input`.
pub open spec fn trees_of<I: RfInput>(input: I, seed: u64, k: nat, tries: nat) -> Seq<Tree<I>> {
    Seq::new(k, |i: int| tree_of(input, seed, i as nat, tries))
}

/// The collector of the permutational-importance pass of tree number `i`: the
/// tree votes on its out-of-bag observations and on their permutation drawn by
/// its generator right after growing it.
pub open spec fn tree_collector<I: RfInput>(input: I, seed: u64, i: nat, tries: nat) -> DaView<I> {
    let oob = tree_sample(input.n_observations() as usize, seed, i).1;
    let perm = shuffle_from(oob, 0, tree_growth(input, seed, i, tries).2, (i + 1) as u64).0;
    collect_events::<I::FeatureId, I::Vote, I::AccuracyDecreaseAggregator>(
        input.fresh_da_aggregator(oob),
        perm_events(input, tree_of(input, seed, i, tries), oob, perm, None, Seq::empty()),
    )
}

/// The vote tree number `i` gives an out-of-bag observation `j`: the direct vote
/// of its importance pass when importance is collected, else the vote of the
/// leaf `j` reaches.
pub open spec fn oob_vote<I: RfInput>(input: I, seed: u64, i: nat, tries: nat, importance: bool, j: usize) -> I::Vote {
    if importance {
        <I::AccuracyDecreaseAggregator as AccuracyDecreaseAggregator<I::FeatureId, I::Vote>>::direct_vote(
            tree_collector(input, seed, i, tries),
            j,
        )
    } else {
        route(tree_of(input, seed, i, tries), input, j)
    }
}

/// The out-of-bag aggregator of observation `j` after the first `k` trees of a
/// forest trained with `seed` voted on their out-of-bag observations (once per
/// occurrence there), starting from `a`.
pub open spec fn oob_votes_of<I: RfInput>(
    a: AggView<I>,
    input: I,
    seed: u64,
    tries: nat,
    importance: bool,
    j: usize,
    k: nat,
) -> AggView<I>
    decreases k,
{
    if k == 0 {
        a
    } else {
        ingest_n::<I::VoteAggregator, I::Vote>(
            oob_votes_of(a, input, seed, tries, importance, j, (k - 1) as nat),
            oob_vote(input, seed, (k - 1) as nat, tries, importance, j),
            occurrences(tree_sample(input.n_observations() as usize, seed, (k - 1) as nat).1, j),
        )
    }
}

/// Where the permutational-importance collector of each trained tree goes,
/// described over an abstract model of what it received (the default spec
/// functions leave everything unspecified).
pub trait ImportanceSink<I: RfInput> {
    /// The abstract state the contracts speak of.
    type Model;

    /// The abstract state of the sink.
    open spec fn received(&self) -> Self::Model {
        arbitrary()
    }

    /// The state after absorbing a collector whose state is `c`.
    open spec fn absorbed(m: Self::Model, c: DaView<I>) -> Self::Model {
        arbitrary()
    }

    /// Takes in the collector of one tree.
    fn absorb(&mut self, collector: I::AccuracyDecreaseAggregator)
        ensures
            final(self).received() == Self::absorbed(old(self).received(), collector.model()),
    ;
}

/// The state of a sink that was in state `m` after it absorbed the collectors of
/// the first `k` trees of a forest trained with `seed`, in tree order.
pub open spec fn sink_after<I: RfInput, S: ImportanceSink<I>>(m: S::Model, input: I, seed: u64, tries: nat, k: nat) -> S::Model
    decreases k,
{
    if k == 0 {
        m
    } else {
        S::absorbed(sink_after::<I, S>(m, input, seed, tries, (k - 1) as nat), tree_collector(input, seed, (k - 1) as nat, tries))
    }
}

/// A trained forest: its trees (or just their number) and, optionally, the
/// out-of-bag vote aggregators of the training observations.
pub struct Forest<I: RfInput> {
    trees: MaybeVec<Tree<I>>,
    oob_votes: Option<Vec<I::VoteAggregator>>,
}

/// Whether forest `f` holds the first `trees` trees of a forest trained with
/// `seed` (kept or only counted) and, when it keeps out-of-bag aggregators, the
/// votes those trees cast on their out-of-bag observations.
pub open spec fn trained<I: RfInput>(f: Forest<I>, input: I, seed: u64, trees: nat, tries: nat, importance: bool) -> bool {
    &&& f.tree_store().spec_len() == trees
    &&& (f.tree_store() is Vector ==> f.tree_seq() == trees_of(input, seed, trees, tries))
    &&& (f.oob_store() matches Some(v) ==> v.len() == input.n_observations() && forall|j: int|
        0 <= j < v.len() ==> #[trigger] v[j].model() == oob_votes_of(
            input.fresh_aggregator(),
            input,
            seed,
            tries,
            importance,
            j as usize,
            trees,
        ))
}

/// Whether `after` is `before` with tree number `id` of a forest trained with
/// `seed` added: the tree is kept when `before` keeps its trees, and the
/// out-of-bag aggregators, when kept, took the tree's votes on its out-of-bag
/// observations.
pub open spec fn grew<I: RfInput>(before: Forest<I>, after: Forest<I>, input: I, id: nat, seed: u64, tries: nat, importance: bool) -> bool {
    let oob = tree_sample(input.n_observations() as usize, seed, id).1;
    &&& after.tree_store().spec_len() == before.tree_store().spec_len() + 1
    &&& (after.tree_store() is Vector) == (before.tree_store() is Vector)
    &&& (before.tree_store() is Vector ==> after.tree_seq() == before.tree_seq().push(tree_of(input, seed, id, tries)))
    &&& (after.oob_store() is Some) == (before.oob_store() is Some)
    &&& (before.oob_store() matches Some(v) ==> after.oob_store().unwrap().len() == v.len() && forall|j: int|
        0 <= j < v.len() ==> #[trigger] after.oob_store().unwrap()[j].model() == ingest_n::<I::VoteAggregator, I::Vote>(
            v[j].model(),
            oob_vote(input, seed, id, tries, importance, j as usize),
            occurrences(oob, j as usize),
        ))
}

/// Whether every vote the trees `ts` give an observation of `input` is one a
/// fresh aggregator accepts, and counting such votes never changes which votes
/// are accepted.
pub open spec fn votes_accepted<I: RfInput>(input: I, ts: Seq<Tree<I>>) -> bool {
    &&& acceptance_kept::<I::VoteAggregator, I::Vote>()
    &&& forall|i: int, j: usize|
        0 <= i < ts.len() && j < input.n_observations() ==> I::VoteAggregator::accepts(
            input.fresh_aggregator(),
            #[trigger] route(ts[i], input, j),
        )
}

/// Whether every vote the first `trees` trees of a forest trained with `seed`
/// cast on their out-of-bag observations is one a fresh aggregator accepts,
/// and counting such votes never changes which votes are accepted.
pub open spec fn oob_votes_accepted<I: RfInput>(input: I, seed: u64, trees: nat, tries: nat, importance: bool) -> bool {
    &&& acceptance_kept::<I::VoteAggregator, I::Vote>()
    &&& forall|i: nat, j: usize|
        i < trees && j < input.n_observations() && occurrences(
            tree_sample(input.n_observations() as usize, seed, i).1,
            j,
        ) > 0 ==> I::VoteAggregator::accepts(
            input.fresh_aggregator(),
            #[trigger] oob_vote(input, seed, i, tries, importance, j),
        )
}

proof fn lemma_forest_votes_keep_acceptance<I: RfInput>(input: I, ts: Seq<Tree<I>>, j: usize, k: nat)
    requires
        votes_accepted(input, ts),
        k <= ts.len(),
        j < input.n_observations(),
    ensures
        forall|w: I::Vote|
            #[trigger] I::VoteAggregator::accepts(forest_votes(input.fresh_aggregator(), ts, input, j, k), w)
                == I::VoteAggregator::accepts(input.fresh_aggregator(), w),
    decreases k,
{
    if k > 0 {
        lemma_forest_votes_keep_acceptance(input, ts, j, (k - 1) as nat);
        let m = forest_votes(input.fresh_aggregator(), ts, input, j, (k - 1) as nat);
        let v = route(ts[k - 1], input, j);
        assert(I::VoteAggregator::accepts(m, v));
        assert forall|w: I::Vote| #[trigger] I::VoteAggregator::accepts(
            forest_votes(input.fresh_aggregator(), ts, input, j, k),
            w,
        ) == I::VoteAggregator::accepts(input.fresh_aggregator(), w) by {
            assert(I::VoteAggregator::accepts(I::VoteAggregator::ingested(m, v), w) == I::VoteAggregator::accepts(m, w));
        }
    }
}

proof fn lemma_grew_keeps_acceptance<I: RfInput>(
    before: Forest<I>,
    after: Forest<I>,
    input: I,
    id: nat,
    seed: u64,
    tries: nat,
    importance: bool,
)
    requires
        grew(before, after, input, id, seed, tries, importance),
        before.oob_store() is Some,
        before.oob_store().unwrap().len() == input.n_observations(),
        oob_votes_accepted(input, seed, id + 1, tries, importance),
        forall|j: int, w: I::Vote|
            0 <= j < before.oob_store().unwrap().len() ==> #[trigger] I::VoteAggregator::accepts(
                before.oob_store().unwrap()[j].model(),
                w,
            ) == I::VoteAggregator::accepts(input.fresh_aggregator(), w),
    ensures
        forall|j: int, w: I::Vote|
            0 <= j < after.oob_store().unwrap().len() ==> #[trigger] I::VoteAggregator::accepts(
                after.oob_store().unwrap()[j].model(),
                w,
            ) == I::VoteAggregator::accepts(input.fresh_aggregator(), w),
{
    let oob = tree_sample(input.n_observations() as usize, seed, id).1;
    let b = before.oob_store().unwrap();
    let a = after.oob_store().unwrap();
    assert forall|j: int, w: I::Vote|
        0 <= j < a.len() implies #[trigger] I::VoteAggregator::accepts(a[j].model(), w)
            == I::VoteAggregator::accepts(input.fresh_aggregator(), w) by {
        let v = oob_vote(input, seed, id, tries, importance, j as usize);
        let c = occurrences(oob, j as usize);
        if c > 0 {
            assert(I::VoteAggregator::accepts(input.fresh_aggregator(), v));
            assert(I::VoteAggregator::accepts(b[j].model(), v) == I::VoteAggregator::accepts(input.fresh_aggregator(), v));
            lemma_ingest_n_keeps_acceptance::<I::VoteAggregator, I::Vote>(b[j].model(), v, c);
            assert(I::VoteAggregator::accepts(b[j].model(), w) == I::VoteAggregator::accepts(input.fresh_aggregator(), w));
        } else {
            assert(a[j].model() == b[j].model());
            assert(I::VoteAggregator::accepts(b[j].model(), w) == I::VoteAggregator::accepts(input.fresh_aggregator(), w));
        }
    }
}

/// Stream law: tree number `i` of a forest trained with `seed` uses its own
/// generator, the one `RfRng::from_seed(seed, i + 1)` makes (state advanced twice
/// from `seed` on stream `i + 1`): its bag and out-of-bag observations are what
/// `Mask::new_bag_oob` draws first from that generator, the tree is grown from
/// where that draw left the generator, on the same stream, and its importance
/// permutation is drawn on the same stream from where the growing left it.
/// Trees with different numbers (below 2^63 - 1) start their generators in
/// different states.
pub proof fn lemma_tree_streams<I: RfInput>(input: I, seed: u64, i: nat, k: nat, tries: nat)
    requires
        i < u64::MAX,
        k < u64::MAX,
    ensures
        ({
            let n = input.n_observations() as usize;
            let hop = (i + 1) as u64;
            let drawn = bag_oob_spec(lcg_iter(seed, hop, 2), hop, n);
            let growth = tree_growth(input, seed, i, tries);
            &&& tree_sample(n, seed, i) == drawn
            &&& growth == grow(
                input,
                drawn.0,
                tries,
                I::FeatureSampler::restarted(input.n_features()),
                MAX_DEPTH as nat,
                drawn.2,
                hop,
            )
            &&& tree_collector(input, seed, i, tries) == collect_events::<
                I::FeatureId,
                I::Vote,
                I::AccuracyDecreaseAggregator,
            >(
                input.fresh_da_aggregator(drawn.1),
                perm_events(input, growth.0, drawn.1, shuffle_from(drawn.1, 0, growth.2, hop).0, None, Seq::empty()),
            )
        }),
        i != k && i + 1 < 0x8000_0000_0000_0000int && k + 1 < 0x8000_0000_0000_0000int ==> lcg_iter(
            seed,
            (i + 1) as u64,
            2,
        ) != lcg_iter(seed, (k + 1) as u64, 2),
{
    if i != k && i + 1 < 0x8000_0000_0000_0000int && k + 1 < 0x8000_0000_0000_0000int {
        lemma_streams_start_apart(seed, (i + 1) as u64, (k + 1) as u64);
    }
}

/// Reproducibility law: two forests trained on the same input with the same
/// seed, number of trees, tries and importance setting hold the same number of
/// trees, the same trees where both keep them, and out-of-bag aggregators in the
/// same states where both keep them.
pub proof fn lemma_training_reproducible<I: RfInput>(
    f1: Forest<I>,
    f2: Forest<I>,
    input: I,
    seed: u64,
    trees: nat,
    tries: nat,
    importance: bool,
)
    requires
        trained(f1, input, seed, trees, tries, importance),
        trained(f2, input, seed, trees, tries, importance),
    ensures
        f1.tree_store().spec_len() == f2.tree_store().spec_len(),
        f1.tree_store() is Vector && f2.tree_store() is Vector ==> f1.tree_seq() == f2.tree_seq(),
        f1.oob_store() is Some && f2.oob_store() is Some ==> {
            &&& f1.oob_store().unwrap().len() == f2.oob_store().unwrap().len()
            &&& forall|j: int|
                0 <= j < f1.oob_store().unwrap().len() ==> #[trigger] f1.oob_store().unwrap()[j].model()
                    == f2.oob_store().unwrap()[j].model()
        },
{
}

/// Thread-independence law: tree number `id` added by `grow_tree` to any forest
/// that keeps its trees, whatever it held before and whichever sampler and mask
/// cache were used, is tree number `id` of the forest `Forest::new` trains with
/// the same seed.
pub proof fn lemma_grown_tree_matches_forest<I: RfInput>(
    before: Forest<I>,
    after: Forest<I>,
    f: Forest<I>,
    input: I,
    seed: u64,
    id: nat,
    trees: nat,
    tries: nat,
    importance: bool,
    other_importance: bool,
)
    requires
        grew(before, after, input, id, seed, tries, importance),
        before.tree_store() is Vector,
        trained(f, input, seed, trees, tries, other_importance),
        f.tree_store() is Vector,
        id < trees,
    ensures
        after.tree_seq().len() > 0,
        after.tree_seq().last() == f.tree_seq()[id as int],
{
}

impl<I: RfInput> Forest<I> {
    /// The trees, or just their number.
    pub closed spec fn tree_store(&self) -> MaybeVec<Tree<I>> {
        self.trees
    }

    /// The held trees (empty when only their number is kept).
    pub open spec fn tree_seq(&self) -> Seq<Tree<I>> {
        match self.tree_store() {
            MaybeVec::Vector(v) => v@,
            MaybeVec::JustLength(_) => Seq::empty(),
        }
    }

    /// Out-of-bag aggregators, when kept.
    pub closed spec fn oob_store(&self) -> Option<Seq<I::VoteAggregator>> {
        match self.oob_votes {
            Some(v) => Some(v@),
            None => None,
        }
    }

    /// An empty forest about to be trained on `input`: no trees yet (kept when
    /// `save_forest`, else only counted) and, when `oob`, a fresh out-of-bag
    /// aggregator for every observation.
    pub fn new_training(input: &I, save_forest: bool, oob: bool) -> (r: Self)
        ensures
            r.tree_store().spec_len() == 0,
            (r.tree_store() is Vector) == save_forest,
            r.tree_seq() == Seq::<Tree<I>>::empty(),
            (r.oob_store() is Some) == oob,
            r.oob_store() matches Some(v) ==> v.len() == input.n_observations() && forall|j: int|
                0 <= j < v.len() ==> #[trigger] v[j].model() == input.fresh_aggregator(),
    {
        let trees: MaybeVec<Tree<I>> = MaybeVec::new(save_forest);
        let oob_votes: Option<Vec<I::VoteAggregator>> = if oob {
            let n = input.observation_count();
            let mut v: Vec<I::VoteAggregator> = Vec::new();
            let mut i: usize = 0;
            while i < n
                invariant
                    i <= n,
                    v@.len() == i,
                    forall|j: int| 0 <= j < i ==> #[trigger] v@[j].model() == input.fresh_aggregator(),
                decreases n - i,
            {
                v.push(input.new_aggregator());
                i = i + 1;
            }
            Some(v)
        } else {
            None
        };
        Forest { trees, oob_votes }
    }

    /// Grows tree number `tree_id` of a forest trained with `seed` and adds it:
    /// its generator is seeded with `seed` and stream number `tree_id + 1`, it
    /// draws the bag and out-of-bag observations, and the tree is grown on the
    /// bag. When `importance` holds a sink, the tree makes a permutational
    /// importance pass over its out-of-bag observations and hands the collector
    /// to the sink (the out-of-bag aggregators, when kept, ingest the direct
    /// votes of that pass); otherwise the tree casts its votes on its
    /// out-of-bag observations into the out-of-bag aggregators, when kept.
    /// What is added depends only on the input, `seed`, `tree_id` and `tries`.
    pub fn grow_tree<S: ImportanceSink<I>>(
        &mut self,
        input: &I,
        tree_id: usize,
        tries: usize,
        seed: u64,
        feature_sampler: &mut I::FeatureSampler,
        mask_cache: &mut MaskCache,
        importance: &mut Option<S>,
    )
        requires
            input.condensable(),
            old(feature_sampler).total() == input.n_features(),
            tries <= input.n_features(),
            tree_id < usize::MAX,
            old(self).tree_store() is JustLength ==> old(self).tree_store().spec_len() < usize::MAX,
            old(self).oob_store() matches Some(v) ==> v.len() == input.n_observations(),
            old(self).oob_store() is Some ==> acceptance_kept::<I::VoteAggregator, I::Vote>(),
            old(self).oob_store() matches Some(v) ==> forall|j: int|
                0 <= j < v.len() && occurrences(tree_sample(input.n_observations() as usize, seed, tree_id as nat).1, j as usize)
                    > 0 ==> I::VoteAggregator::accepts(
                    #[trigger] v[j].model(),
                    oob_vote(*input, seed, tree_id as nat, tries as nat, *old(importance) is Some, j as usize),
                ),
        ensures
            final(feature_sampler).total() == old(feature_sampler).total(),
            grew(*old(self), *final(self), *input, tree_id as nat, seed, tries as nat, *old(importance) is Some),
            match (*old(importance), *final(importance)) {
                (Some(a), Some(b)) => b.received() == S::absorbed(
                    a.received(),
                    tree_collector(*input, seed, tree_id as nat, tries as nat),
                ),
                (None, None) => true,
                _ => false,
            },
    {
        let n = input.observation_count();
        let hop = tree_id as u64 + 1;
        let mut rng = RfRng::from_seed(seed, hop);
        let (bag, oob_mask) = Mask::new_bag_oob(n, &mut rng);
        proof {
            lemma_bag_oob_partition(lcg_iter(seed, hop, 2), hop, n);
            assert(bag@ == tree_sample(n, seed, tree_id as nat).0);
            assert(oob_mask@ == tree_sample(n, seed, tree_id as nat).1);
            assert(rng.state() == tree_sample(n, seed, tree_id as nat).2);
        }
        let tree = Tree::new(input, &bag, tries, feature_sampler, MAX_DEPTH, mask_cache, &mut rng);
        proof {
            assert(tree == tree_of(*input, seed, tree_id as nat, tries as nat));
            assert(rng.state() == tree_growth(*input, seed, tree_id as nat, tries as nat).2);
        }
        let ghost before = *self;
        let mut oob_votes = self.oob_votes.take();
        let taken = importance.take();
        match taken {
            Some(mut sink) => {
                let collector = tree.permutational_importance(input, &oob_mask, mask_cache, &mut rng, &mut oob_votes);
                sink.absorb(collector);
                *importance = Some(sink);
            },
            None => {
                match oob_votes {
                    Some(mut v) => {
                        tree.cast_votes(input, &oob_mask, &mut v, mask_cache);
                        oob_votes = Some(v);
                    },
                    None => {},
                }
            },
        }
        self.oob_votes = oob_votes;
        self.trees.push(tree);
        proof {
            assert(grew(before, *self, *input, tree_id as nat, seed, tries as nat, *old(importance) is Some));
        }
    }

    /// Trains a forest of `trees` trees on `input`, each level of each tree
    /// trying `tries` features: the trees numbered `0..trees` are grown in turn
    /// (see `grow_tree`) into a forest that keeps them when `save_forest` and
    /// collects out-of-bag votes when `oob`; a sink in `importance` absorbs the
    /// collectors of the trees in order. The result depends only on the input,
    /// `seed` and the other arguments. When out-of-bag votes are collected, every
    /// such vote must be one the aggregators accept.
    pub fn new<S: ImportanceSink<I>>(
        input: &I,
        trees: usize,
        tries: usize,
        save_forest: bool,
        importance: &mut Option<S>,
        oob: bool,
        seed: u64,
    ) -> (r: Self)
        requires
            input.condensable(),
            tries <= input.n_features(),
            oob ==> oob_votes_accepted(*input, seed, trees as nat, tries as nat, *old(importance) is Some),
        ensures
            (r.tree_store() is Vector) == save_forest,
            (r.oob_store() is Some) == oob,
            trained(r, *input, seed, trees as nat, tries as nat, *old(importance) is Some),
            match (*old(importance), *final(importance)) {
                (Some(a), Some(b)) => b.received() == sink_after::<I, S>(
                    a.received(),
                    *input,
                    seed,
                    tries as nat,
                    trees as nat,
                ),
                (None, None) => true,
                _ => false,
            },
    {
        let mut forest = Self::new_training(input, save_forest, oob);
        let mut mask_cache = MaskCache::new();
        let mut feature_sampler = input.feature_sampler();
        let ghost imp = *old(importance) is Some;
        let ghost sink0 = *old(importance);
        let mut tree_id: usize = 0;
        proof {
            assert(trees_of(*input, seed, 0, tries as nat) =~= Seq::<Tree<I>>::empty());
        }
        while tree_id < trees
            invariant
                input.condensable(),
                tries <= input.n_features(),
                feature_sampler.total() == input.n_features(),
                tree_id <= trees,
                (forest.tree_store() is Vector) == save_forest,
                (forest.oob_store() is Some) == oob,
                (*importance is Some) == imp,
                sink0 is Some == imp,
                trained(forest, *input, seed, tree_id as nat, tries as nat, imp),
                oob ==> oob_votes_accepted(*input, seed, trees as nat, tries as nat, imp),
                forest.oob_store() is Some ==> forall|j: int, w: I::Vote|
                    0 <= j < forest.oob_store().unwrap().len() ==> #[trigger] I::VoteAggregator::accepts(
                        forest.oob_store().unwrap()[j].model(),
                        w,
                    ) == I::VoteAggregator::accepts(input.fresh_aggregator(), w),
                match (sink0, *importance) {
                    (Some(a), Some(b)) => b.received() == sink_after::<I, S>(
                        a.received(),
                        *input,
                        seed,
                        tries as nat,
                        tree_id as nat,
                    ),
                    _ => true,
                },
            decreases trees - tree_id,
        {
            let ghost prev = forest;
            proof {
                if forest.oob_store() is Some {
                    assert forall|j: int|
                        0 <= j < forest.oob_store().unwrap().len() && occurrences(
                            tree_sample(input.n_observations() as usize, seed, tree_id as nat).1,
                            j as usize,
                        ) > 0 implies I::VoteAggregator::accepts(
                        #[trigger] forest.oob_store().unwrap()[j].model(),
                        oob_vote(*input, seed, tree_id as nat, tries as nat, imp, j as usize),
                    ) by {
                        assert(I::VoteAggregator::accepts(
                            input.fresh_aggregator(),
                            oob_vote(*input, seed, tree_id as nat, tries as nat, imp, j as usize),
                        ));
                    }
                }
            }
            forest.grow_tree(input, tree_id, tries, seed, &mut feature_sampler, &mut mask_cache, importance);
            proof {
                if prev.oob_store() is Some {
                    assert forall|i: nat, j: usize|
                        i < tree_id + 1 && j < input.n_observations() && occurrences(
                            tree_sample(input.n_observations() as usize, seed, i).1,
                            j,
                        ) > 0 implies I::VoteAggregator::accepts(
                        input.fresh_aggregator(),
                        #[trigger] oob_vote(*input, seed, i, tries as nat, imp, j),
                    ) by {}
                    lemma_grew_keeps_acceptance(prev, forest, *input, tree_id as nat, seed, tries as nat, imp);
                }
                assert(trees_of(*input, seed, (tree_id + 1) as nat, tries as nat) =~= trees_of(
                    *input,
                    seed,
                    tree_id as nat,
                    tries as nat,
                ).push(tree_of(*input, seed, tree_id as nat, tries as nat)));
                assert(trained(forest, *input, seed, (tree_id + 1) as nat, tries as nat, imp));
            }
            tree_id = tree_id + 1;
        }
        forest
    }

    /// A forest that only records its number of trees (to deserialise a model
    /// saved without its trees).
    pub fn new_with_num_trees(num_trees: usize) -> (r: Self)
        ensures
            r.tree_store() == MaybeVec::<Tree<I>>::JustLength(num_trees),
            r.oob_store() is None,
    {
        Forest { oob_votes: None, trees: MaybeVec::from_just_length(num_trees) }
    }

    pub fn has_oob(&self) -> (r: bool)
        ensures
            r == self.oob_store() is Some,
    {
        self.oob_votes.is_some()
    }

    pub fn has_trees(&self) -> (r: bool)
        ensures
            r == self.tree_store() is Vector,
    {
        self.trees.is_some()
    }

    /// Number of trees.
    pub fn trees(&self) -> (r: usize)
        ensures
            r == self.tree_store().spec_len(),
    {
        self.trees.len()
    }

    /// Merges another forest into this one: trees are appended and out-of-bag
    /// aggregators are merged pairwise (they are dropped unless both forests
    /// have them); a forest with no trees is replaced by `other`.
    pub fn merge(&mut self, other: Self)
        requires
            old(self).tree_store().spec_len() > 0 ==> (old(self).tree_store() is Vector) == (
            other.tree_store() is Vector),
            old(self).tree_store().spec_len() > 0 && old(self).tree_store() is JustLength
                ==> old(self).tree_store().spec_len() + other.tree_store().spec_len() <= usize::MAX,
        ensures
            old(self).tree_store().spec_len() == 0 ==> *final(self) == other,
            old(self).tree_store().spec_len() > 0 ==> {
                &&& final(self).tree_store().spec_len() == old(self).tree_store().spec_len()
                    + other.tree_store().spec_len()
                &&& (final(self).tree_store() is Vector) == (old(self).tree_store() is Vector)
                &&& final(self).tree_seq() == old(self).tree_seq() + other.tree_seq()
                &&& match (old(self).oob_store(), other.oob_store()) {
                    (Some(a), Some(b)) => final(self).oob_store() matches Some(m) && m.len() == a.len()
                        && forall|i: int|
                        0 <= i < a.len() ==> #[trigger] m[i].model() == if i < b.len() {
                            I::VoteAggregator::merged(a[i].model(), b[i].model())
                        } else {
                            a[i].model()
                        },
                    _ => final(self).oob_store() is None,
                }
            },
    {
        if self.trees.len() > 0 {
            let Forest { trees: other_trees, oob_votes: other_oob } = other;
            self.trees.merge(other_trees);
            let mine = self.oob_votes.take();
            self.oob_votes = match (mine, other_oob) {
                (Some(mut a), Some(b)) => {
                    let n = if a.len() <= b.len() {
                        a.len()
                    } else {
                        b.len()
                    };
                    let ghost a0 = a@;
                    proof {
                        assert(old(self).oob_store() == Some(a0));
                        assert(other.oob_store() == Some(b@));
                        assert(old(self).tree_store().spec_len() > 0);
                    }
                    let mut i: usize = 0;
                    while i < n
                        invariant
                            n <= a0.len(),
                            n <= b@.len(),
                            n == a0.len() || n == b@.len(),
                            i <= n,
                            a@.len() == a0.len(),
                            forall|k: int|
                                0 <= k < a0.len() ==> #[trigger] a@[k].model() == if k < i {
                                    I::VoteAggregator::merged(a0[k].model(), b@[k].model())
                                } else {
                                    a0[k].model()
                                },
                        decreases n - i,
                    {
                        a[i].merge(&b[i]);
                        i = i + 1;
                    }
                    Some(a)
                },
                _ => None,
            };
        } else {
            *self = other;
        }
    }

    /// Tree number `e`, when trees are kept and `e` is in range.
    pub fn tree(&self, e: usize) -> (r: Option<&Tree<I>>)
        ensures
            r == if e < self.tree_seq().len() {
                Some(&self.tree_seq()[e as int])
            } else {
                None
            },
    {
        self.trees.get(e)
    }

    /// Concatenated left-first, depth-first walks over all trees.
    pub fn walk(&self) -> (r: Vec<Walk<I>>)
        requires
            self.tree_store() is Vector,
        ensures
            r@ == forest_walk(self.tree_seq()),
    {
        let mut out: Vec<Walk<I>> = Vec::new();
        match &self.trees {
            MaybeVec::Vector(ts) => {
                let mut k: usize = 0;
                while k < ts.len()
                    invariant
                        k <= ts@.len(),
                        ts@ == self.tree_seq(),
                        out@ == forest_walk(ts@.take(k as int)),
                    decreases ts@.len() - k,
                {
                    ts[k].walk_into(&mut out);
                    proof {
                        assert(ts@.take(k + 1).drop_last() =~= ts@.take(k as int));
                        assert(ts@.take(k + 1).last() == ts@[k as int]);
                    }
                    k = k + 1;
                }
                proof {
                    assert(ts@.take(ts@.len() as int) =~= ts@);
                }
            },
            MaybeVec::JustLength(_) => {},
        }
        out
    }

    /// Rebuilds a forest from a forest walk; out-of-bag aggregators are left
    /// empty. Fails with `WalkAggregationFailure` when the walk is empty or ends
    /// inside a tree.
    pub fn from_walk(forest_walk: &[Walk<I>]) -> (r: Result<Self, XrfError>)
        ensures
            match parse_forest(forest_walk@, 0) {
                Some(ts) => r matches Ok(f) && f.tree_store() is Vector && f.tree_seq() == ts
                    && f.oob_store() is None,
                None => r == Err::<Self, XrfError>(XrfError::WalkAggregationFailure),
            },
    {
        let mut trees: Vec<Tree<I>> = Vec::new();
        let mut pos: usize = 0;
        let ghost s = forest_walk@;
        proof {
            assert(trees@ + Seq::<Tree<I>>::empty() =~= Seq::<Tree<I>>::empty());
            match parse_forest(s, 0) {
                Some(rest) => {
                    assert(trees@ + rest =~= rest);
                },
                None => {},
            }
        }
        loop
            invariant
                pos <= s.len(),
                s == forest_walk@,
                match parse_forest(s, pos as int) {
                    Some(rest) => parse_forest(s, 0) == Some(trees@ + rest),
                    None => parse_forest(s, 0) is None,
                },
            decreases s.len() - pos,
        {
            let ghost start = pos;
            let ghost old_trees = trees@;
            let tree = match Tree::from_walk(forest_walk, &mut pos) {
                Ok(t) => t,
                Err(e) => {
                    return Err(e);
                },
            };
            proof {
                crate::tree::lemma_parse_tree_advances(s, start as int);
            }
            trees.push(tree);
            if pos >= forest_walk.len() {
                proof {
                    assert(old_trees + seq![tree] =~= trees@);
                }
                return Ok(Forest { trees: MaybeVec::Vector(trees), oob_votes: None });
            }
            proof {
                match parse_forest(s, pos as int) {
                    Some(rest) => {
                        assert(old_trees + (seq![tree] + rest) =~= trees@ + rest);
                    },
                    None => {},
                }
            }
        }
    }

    /// Replaces (or sets) the out-of-bag aggregators, returning the previous ones.
    pub fn replace_oob(&mut self, oob: Vec<I::VoteAggregator>) -> (r: Option<Vec<I::VoteAggregator>>)
        ensures
            final(self).oob_store() == Some(oob@),
            final(self).tree_store() == old(self).tree_store(),
            match old(self).oob_store() {
                Some(v) => r matches Some(w) && w@ == v,
                None => r is None,
            },
    {
        let prev = self.oob_votes.take();
        self.oob_votes = Some(oob);
        prev
    }

    /// The out-of-bag aggregators, one per training observation (none when they
    /// were not kept).
    pub fn oob(&self) -> (r: &[I::VoteAggregator])
        ensures
            match self.oob_store() {
                Some(v) => r@ == v,
                None => r@ == Seq::<I::VoteAggregator>::empty(),
            },
    {
        match &self.oob_votes {
            Some(v) => v.as_slice(),
            None => &[],
        }
    }

    /// Predicts the observations of `input` with all trees of the forest; every
    /// vote a tree gives must be one the aggregators accept.
    pub fn predict(&self, input: &I) -> (r: Prediction<I>)
        requires
            self.tree_store() is Vector,
            votes_accepted(*input, self.tree_seq()),
        ensures
            r@.len() == input.n_observations(),
            forall|j: int|
                0 <= j < r@.len() ==> #[trigger] r@[j].model() == forest_votes(
                    input.fresh_aggregator(),
                    self.tree_seq(),
                    *input,
                    j as usize,
                    self.tree_seq().len(),
                ),
    {
        Prediction::new(self, input)
    }
}

/// The votes collected for each observation of a predicted data set.
pub struct Prediction<I: RfInput>(Vec<I::VoteAggregator>);

impl<I: RfInput> View for Prediction<I> {
    type V = Seq<I::VoteAggregator>;

    closed spec fn view(&self) -> Seq<I::VoteAggregator> {
        self.0@
    }
}

impl<I: RfInput> Prediction<I> {
    /// Predicts the observations of `input` with all trees of `forest`: every
    /// observation gets a fresh aggregator that ingests one vote per tree.
    pub fn new(forest: &Forest<I>, input: &I) -> (r: Self)
        requires
            forest.tree_store() is Vector,
            votes_accepted(*input, forest.tree_seq()),
        ensures
            r@.len() == input.n_observations(),
            forall|j: int|
                0 <= j < r@.len() ==> #[trigger] r@[j].model() == forest_votes(
                    input.fresh_aggregator(),
                    forest.tree_seq(),
                    *input,
                    j as usize,
                    forest.tree_seq().len(),
                ),
    {
        let n = input.observation_count();
        let on = Mask::new_all(n);
        let mut mask_cache = MaskCache::new();
        let mut onto: Vec<I::VoteAggregator> = Vec::new();
        let mut i: usize = 0;
        while i < n
            invariant
                i <= n,
                onto@.len() == i,
                forall|j: int| 0 <= j < i ==> #[trigger] onto@[j].model() == input.fresh_aggregator(),
            decreases n - i,
        {
            onto.push(input.new_aggregator());
            i = i + 1;
        }
        proof {
            lemma_all_once(on@, n);
        }
        match &forest.trees {
            MaybeVec::Vector(ts) => {
                proof {
                    assert(ts@ == forest.tree_seq());
                    assert forall|j: int| 0 <= j < n implies #[trigger] onto@[j].model() == forest_votes(
                        input.fresh_aggregator(),
                        ts@,
                        *input,
                        j as usize,
                        0,
                    ) by {}
                }
                let mut k: usize = 0;
                while k < ts.len()
                    invariant
                        k <= ts@.len(),
                        ts@ == forest.tree_seq(),
                        n == input.n_observations(),
                        on@ == Seq::new(n as nat, |x: int| x as usize),
                        forall|x: int| 0 <= x < n ==> #[trigger] occurrences(on@, x as usize) == 1,
                        onto@.len() == n,
                        votes_accepted(*input, ts@),
                        forall|j: int|
                            0 <= j < n ==> #[trigger] onto@[j].model() == forest_votes(
                                input.fresh_aggregator(),
                                ts@,
                                *input,
                                j as usize,
                                k as nat,
                            ),
                    decreases ts@.len() - k,
                {
                    proof {
                        assert forall|j: int|
                            0 <= j < onto@.len() && occurrences(on@, j as usize) > 0 implies I::VoteAggregator::accepts(
                                #[trigger] onto@[j].model(),
                                route(ts@[k as int], *input, j as usize),
                            ) by {
                            lemma_forest_votes_keep_acceptance(*input, ts@, j as usize, k as nat);
                        }
                    }
                    let ghost before = onto@;
                    ts[k].cast_votes(input, &on, &mut onto, &mut mask_cache);
                    proof {
                        assert forall|j: int| 0 <= j < n implies #[trigger] onto@[j].model() == forest_votes(
                            input.fresh_aggregator(),
                            ts@,
                            *input,
                            j as usize,
                            (k + 1) as nat,
                        ) by {
                            assert(occurrences(on@, j as usize) == 1);
                            let v = route(ts@[k as int], *input, j as usize);
                            let w = I::VoteAggregator::ingested(before[j].model(), v);
                            assert(ingest_n::<I::VoteAggregator, I::Vote>(w, v, 0) == w);
                        }
                    }
                    k = k + 1;
                }
            },
            MaybeVec::JustLength(_) => {},
        }
        Prediction(onto)
    }

    /// The aggregators, one per observation, in observation order.
    pub fn predictions(&self) -> (r: &[I::VoteAggregator])
        ensures
            r@ == self@,
    {
        self.0.as_slice()
    }
}

/// Every index of `0..n` occurs once in `0..n`.
proof fn lemma_all_once(s: Seq<usize>, n: usize)
    requires
        s == Seq::new(n as nat, |i: int| i as usize),
    ensures
        forall|x: int| 0 <= x < n ==> #[trigger] occurrences(s, x as usize) == 1,
{
    assert forall|x: int| 0 <= x < n implies #[trigger] occurrences(s, x as usize) == 1 by {
        lemma_range_occurrences(n as nat, x as usize);
    }
}

proof fn lemma_range_occurrences(k: nat, x: usize)
    requires
        k <= usize::MAX + 1,
    ensures
        occurrences(Seq::new(k, |i: int| i as usize), x) == if (x as int) < k {
            1nat
        } else {
            0nat
        },
    decreases k,
{
    if k > 0 {
        let s = Seq::new(k, |i: int| i as usize);
        assert(s.drop_last() =~= Seq::new((k - 1) as nat, |i: int| i as usize));
        lemma_range_occurrences((k - 1) as nat, x);
    }
}

/// Forest walk law: a forest rebuilt from the walk of a forest that holds at
/// least one tree has the same trees.
pub proof fn lemma_forest_from_own_walk<I: RfInput>(ts: Seq<Tree<I>>)
    requires
        ts.len() > 0,
    ensures
        parse_forest(forest_walk(ts), 0) == Some(ts),
{
    let s = forest_walk(ts);
    assert(s.subrange(0, s.len() as int) =~= s);
    lemma_forest_round_trip(ts, s, 0);
}

} // verus!
