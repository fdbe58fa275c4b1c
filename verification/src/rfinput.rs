use vstd::prelude::*;

use crate::mask::Mask;
use crate::rng::RfRng;

verus! {

/// Aggregator of votes coming from different trees; represents the result
/// collected over the whole forest for one observation. Its behaviour is
/// described over an abstract model of its state; a vote must be one it
/// `accepts`, and every merge is accepted. (The default spec functions leave everything unspecified, for
/// implementations whose behaviour is not modelled.)
pub trait VoteAggregator<V>: Sized {
    /// The abstract state the contracts speak of.
    type Model;

    /// The abstract state of the aggregator.
    open spec fn model(&self) -> Self::Model {
        arbitrary()
    }

    /// The state after counting vote `v`.
    open spec fn ingested(state: Self::Model, v: V) -> Self::Model {
        arbitrary()
    }

    /// The state after merging `other` in.
    open spec fn merged(state: Self::Model, other: Self::Model) -> Self::Model {
        arbitrary()
    }

    /// Whether an aggregator in state `state` can count vote `v` (by default,
    /// every vote can be counted).
    open spec fn accepts(state: Self::Model, v: V) -> bool {
        true
    }

    /// Add the next vote to the aggregator.
    fn ingest_vote(&mut self, v: V)
        requires
            Self::accepts(old(self).model(), v),
        ensures
            final(self).model() == Self::ingested(old(self).model(), v),
    ;

    /// Merge in everything `other` ingested.
    fn merge(&mut self, other: &Self)
        ensures
            final(self).model() == Self::merged(old(self).model(), other.model()),
    ;
}

/// Collector of the votes a tree casts while some feature is permuted: it is
/// told, for each group of observations reaching a leaf, which feature was
/// permuted on the way (if any) and the leaf's vote.
pub trait AccuracyDecreaseAggregator<F, V>: Sized {
    /// The abstract state the contracts speak of.
    type Model;

    /// The abstract state of the collector.
    open spec fn model(&self) -> Self::Model {
        arbitrary()
    }

    /// The state after the observations `on` reached a leaf voting `vote`
    /// with `permuted` permuted upstream.
    open spec fn ingested(state: Self::Model, permuted: Option<F>, on: Seq<usize>, vote: V) -> Self::Model {
        arbitrary()
    }

    /// The vote observation `e` received with nothing permuted.
    open spec fn direct_vote(state: Self::Model, e: usize) -> V {
        arbitrary()
    }

    /// Records the vote cast on the observations of `on`.
    fn ingest(&mut self, permuted: Option<F>, on: &Mask, vote: &V)
        ensures
            final(self).model() == Self::ingested(old(self).model(), permuted, on@, *vote),
    ;

    /// The vote observation `e` received with nothing permuted.
    fn get_direct_vote(&self, e: usize) -> (r: V)
        ensures
            r == Self::direct_vote(self.model(), e),
    ;
}

/// A generator of random features for training, described over an abstract
/// model of its state (the default spec functions leave everything
/// unspecified).
pub trait FeatureSampler<F>: Sized {
    /// The abstract state the contracts speak of.
    type Model;

    /// The abstract state of the sampler.
    open spec fn model(&self) -> Self::Model {
        arbitrary()
    }

    /// How many features can still be drawn before the next reload.
    open spec fn available(&self) -> nat {
        arbitrary()
    }

    /// Total number of features.
    open spec fn total(&self) -> nat {
        arbitrary()
    }

    /// The feature drawn from state `m` with the generator in state `state` on
    /// stream `hop`, the sampler's state after it, and the generator state after it.
    open spec fn drawn(m: Self::Model, state: u64, hop: u64) -> (F, Self::Model, u64) {
        arbitrary()
    }

    /// The state after a reload from state `m`.
    open spec fn reloaded(m: Self::Model) -> Self::Model {
        arbitrary()
    }

    /// The state after a reset of a sampler over `total` features; it depends
    /// on nothing else.
    open spec fn restarted(total: nat) -> Self::Model {
        arbitrary()
    }

    /// Draw a feature to try for a split; at most one feature stops being
    /// available.
    fn random_feature(&mut self, rng: &mut RfRng) -> (r: F)
        requires
            old(self).available() > 0,
        ensures
            (r, final(self).model(), final(rng).state()) == Self::drawn(
                old(self).model(),
                old(rng).state(),
                old(rng).hop(),
            ),
            final(rng).hop() == old(rng).hop(),
            final(self).available() + 1 >= old(self).available(),
            final(self).total() == old(self).total(),
    ;

    /// Called before each tree level: all features become available again.
    fn reload(&mut self)
        ensures
            final(self).model() == Self::reloaded(old(self).model()),
            final(self).available() == old(self).total(),
            final(self).total() == old(self).total(),
    ;

    /// Called before each tree: like `reload`, but the stream of features after
    /// it does not depend on the sampler's history.
    fn reset(&mut self)
        ensures
            final(self).model() == Self::restarted(old(self).total()),
            final(self).available() == old(self).total(),
            final(self).total() == old(self).total(),
    ;
}

/// Whether counting a vote an aggregator accepts never changes which votes it
/// accepts.
pub open spec fn acceptance_kept<A: VoteAggregator<V>, V>() -> bool {
    forall|m: A::Model, v: V, w: V|
        A::accepts(m, v) ==> #[trigger] A::accepts(A::ingested(m, v), w) == A::accepts(m, w)
}

/// An abstraction of the decision values of a group of observations (the
/// default spec functions leave everything unspecified).
pub trait DecisionSlice<Vote>: Sized {
    /// Whether the observations are pure enough to become a leaf.
    open spec fn pure(&self) -> bool {
        arbitrary()
    }

    /// Whether a leaf value can be produced.
    open spec fn can_condense(&self) -> bool {
        arbitrary()
    }

    /// The leaf value produced with the generator in state `state` on stream
    /// `hop`, and the generator state after it.
    open spec fn condensed(&self, state: u64, hop: u64) -> (Vote, u64) {
        arbitrary()
    }

    /// Whether the observations are pure enough to become a leaf.
    fn is_pure(&self) -> (r: bool)
        ensures
            r == self.pure(),
    ;

    /// The value of the leaf made from these observations.
    fn condense(&self, rng: &mut RfRng) -> (r: Vote)
        requires
            self.can_condense(),
        ensures
            (r, final(rng).state()) == self.condensed(old(rng).state(), old(rng).hop()),
            final(rng).hop() == old(rng).hop(),
    ;
}

/// A data set a forest can be grown on and applied to: observations are
/// numbered `0..observation_count()`, and a pivot on a feature sends each
/// observation left or right. The spec functions describe an implementation
/// for the contracts; their defaults leave everything unspecified, and
/// nothing is proved of implementations that keep them.
pub trait RfInput: Sized {
    /// Id of a feature, usually a column in a data frame.
    type FeatureId: Copy;
    /// Criterion applied in a branch of a decision tree.
    type Pivot: Copy;
    /// Content of the leaves of a decision tree.
    type Vote: Copy;
    /// Aggregator for votes.
    type VoteAggregator: VoteAggregator<Self::Vote>;
    /// Decision values of the observations of a mask.
    type DecisionSlice: DecisionSlice<Self::Vote>;
    /// Collector of the votes cast on permuted data.
    type AccuracyDecreaseAggregator: AccuracyDecreaseAggregator<Self::FeatureId, Self::Vote>;
    /// A generator of random features for training.
    type FeatureSampler: FeatureSampler<Self::FeatureId>;

    /// Whether pivot `by` on feature `using` sends observation `e` left.
    open spec fn goes_left(&self, e: usize, using: Self::FeatureId, by: Self::Pivot) -> bool {
        arbitrary()
    }

    /// A fresh aggregator for one observation of this data set.
    open spec fn fresh_aggregator(&self) -> <Self::VoteAggregator as VoteAggregator<Self::Vote>>::Model {
        arbitrary()
    }

    /// Whether the decision values of the observations of `mask` are pure.
    open spec fn pure_on(&self, mask: Seq<usize>) -> bool {
        arbitrary()
    }

    /// Whether `new_split` finds a split of the observations of `mask` on
    /// feature `using`.
    open spec fn splittable(&self, mask: Seq<usize>, using: Self::FeatureId) -> bool {
        arbitrary()
    }

    /// Whether leaves can be made from the decision values of any mask.
    open spec fn condensable(&self) -> bool {
        arbitrary()
    }

    /// The split `new_split` finds on feature `using` for the observations
    /// `mask` with the generator in state `state` on stream `hop` (a pivot and its
    /// score, larger being better, or `None`), and the generator state after it.
    open spec fn split_of(&self, mask: Seq<usize>, using: Self::FeatureId, state: u64, hop: u64) -> (Option<(Self::Pivot, u64)>, u64) {
        arbitrary()
    }

    /// The value of a leaf made from the observations `mask` with the generator
    /// in state `state` on stream `hop`, and the generator state after it.
    open spec fn leaf_of(&self, mask: Seq<usize>, state: u64, hop: u64) -> (Self::Vote, u64) {
        arbitrary()
    }

    /// A fresh collector of permuted votes for the observations `on`.
    open spec fn fresh_da_aggregator(&self, on: Seq<usize>) -> <Self::AccuracyDecreaseAggregator as AccuracyDecreaseAggregator<Self::FeatureId, Self::Vote>>::Model {
        arbitrary()
    }

    /// Creates a fresh vote aggregator suited to this data set.
    fn new_aggregator(&self) -> (r: Self::VoteAggregator)
        ensures
            r.model() == self.fresh_aggregator(),
    ;

    /// Creates a fresh collector of permuted votes for the observations of `on`,
    /// out of `n` observations.
    fn new_da_aggregator(&self, on: &Mask, n: usize) -> (r: Self::AccuracyDecreaseAggregator)
        ensures
            r.model() == self.fresh_da_aggregator(on@),
    ;

    /// Number of observations.
    open spec fn n_observations(&self) -> nat {
        arbitrary()
    }

    /// Number of observations.
    fn observation_count(&self) -> (r: usize)
        ensures
            r == self.n_observations(),
    ;

    /// Number of features.
    open spec fn n_features(&self) -> nat {
        arbitrary()
    }

    /// Number of features.
    fn feature_count(&self) -> (r: usize)
        ensures
            r == self.n_features(),
    ;

    /// Whether two feature ids name the same feature.
    fn same_feature(a: Self::FeatureId, b: Self::FeatureId) -> (r: bool)
        ensures
            r == (a == b),
    ;

    /// The decision values of the observations of `mask`.
    fn decision_slice(&self, mask: &Mask) -> (r: Self::DecisionSlice)
        ensures
            r.pure() == self.pure_on(mask@),
            self.condensable() ==> r.can_condense(),
            forall|state: u64, hop: u64| #[trigger] r.condensed(state, hop) == self.leaf_of(mask@, state, hop),
    ;

    /// A sampler over all the features of this data set.
    fn feature_sampler(&self) -> (r: Self::FeatureSampler)
        ensures
            r.total() == self.n_features(),
    ;

    /// The best pivot found on feature `using` for the observations of `on`,
    /// with its score (larger is better), or `None` when no split exists.
    fn new_split(&self, on: &Mask, using: Self::FeatureId, y: &Self::DecisionSlice, rng: &mut RfRng) -> (r: Option<(Self::Pivot, u64)>)
        ensures
            r is Some == self.splittable(on@, using),
            (r, final(rng).state()) == self.split_of(on@, using, old(rng).state(), old(rng).hop()),
            final(rng).hop() == old(rng).hop(),
    ;

    /// Application of a pivot to the observations of a mask: for each entry,
    /// `true` sends it left and `false` right.
    fn split_iter(&self, on: &Mask, using: Self::FeatureId, by: &Self::Pivot) -> (r: Vec<bool>)
        ensures
            r@.len() == on@.len(),
            forall|k: int| 0 <= k < on@.len() ==> #[trigger] r@[k] == self.goes_left(on@[k], using, *by),
    ;
}

} // verus!
