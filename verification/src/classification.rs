use vstd::prelude::*;

use crate::fair_best::fair_run;
use crate::importance::{
    collect_events, direct_covers, lemma_direct_reports_cover, lemma_direct_reports_route, perm_events,
    reports_sound,
};
use crate::rfinput::RfInput;
use crate::tree::{route, Tree};
use crate::forest::{oob_vote, oob_votes_of, tree_growth, tree_of, tree_sample, AggView};
use crate::mask::{lemma_bag_oob_partition, occurrences, shuffle_from, swap_at, Mask};
use crate::rng::{lcg_iter, up_to_spec};
use crate::rfinput::{AccuracyDecreaseAggregator, DecisionSlice as DecisionSliceTrait, VoteAggregator};
use std::collections::HashMap;
use crate::rng::RfRng;
use crate::votes::{positive_count, vote_items, Votes};

verus! {

/// Number of entries of `s` equal to `c`.
pub open spec fn count_of(s: Seq<u32>, c: u32) -> nat
    decreases s.len(),
{
    if s.len() == 0 {
        0
    } else {
        count_of(s.drop_last(), c) + if s.last() == c {
            1nat
        } else {
            0nat
        }
    }
}

/// Per-class counts of the class labels `vals`, for `ncat` classes.
pub open spec fn tally(vals: Seq<u32>, ncat: nat) -> Seq<u32> {
    Seq::new(ncat, |c: int| count_of(vals, c as u32) as u32)
}

/// The class labels of the observations of a mask, with their per-class counts.
pub struct DecisionSlice {
    values: Vec<u32>,
    ncat: u32,
    summary: Votes,
}

impl DecisionSlice {
    /// Labels of the observations, in mask order.
    pub closed spec fn labels(&self) -> Seq<u32> {
        self.values@
    }

    /// Number of classes.
    pub closed spec fn classes(&self) -> u32 {
        self.ncat
    }

    /// Per-class counts of the labels.
    pub closed spec fn counts(&self) -> Seq<u32> {
        self.summary@
    }

    /// Collects the labels `values[e]` of the observations `e` of `mask` and
    /// counts them per class.
    pub fn new(mask: &Mask, values: &[u32], ncat: u32) -> (r: Self)
        requires
            mask@.len() < u32::MAX,
            forall|k: int| 0 <= k < mask@.len() ==> #[trigger] mask@[k] < values@.len(),
            forall|k: int| 0 <= k < mask@.len() ==> #[trigger] values@[mask@[k] as int] < ncat,
        ensures
            r.labels() == Seq::new(mask@.len(), |k: int| values@[mask@[k] as int]),
            r.classes() == ncat,
            r.counts() == tally(r.labels(), ncat as nat),
    {
        let mut summary = Votes::new(ncat);
        let mut labels: Vec<u32> = Vec::new();
        let n = mask.len();
        let mut k: usize = 0;
        proof {
            assert(summary@ =~= tally(labels@, ncat as nat));
        }
        while k < n
            invariant
                n == mask@.len(),
                n < u32::MAX,
                k <= n,
                forall|q: int| 0 <= q < mask@.len() ==> #[trigger] mask@[q] < values@.len(),
                forall|q: int| 0 <= q < mask@.len() ==> #[trigger] values@[mask@[q] as int] < ncat,
                labels@ == Seq::new(k as nat, |q: int| values@[mask@[q] as int]),
                summary@ == tally(labels@, ncat as nat),
            decreases n - k,
        {
            let e = mask.get(k);
            let y = values[e];
            proof {
                lemma_count_le_len(labels@, y);
            }
            summary.ingest_vote(y);
            let ghost prev = labels@;
            labels.push(y);
            proof {
                assert(labels@.drop_last() =~= prev);
                assert(labels@ =~= Seq::new((k + 1) as nat, |q: int| values@[mask@[q] as int]));
                assert(summary@ =~= tally(labels@, ncat as nat));
            }
            k = k + 1;
        }
        DecisionSlice { values: labels, ncat, summary }
    }
}

proof fn lemma_count_le_len(s: Seq<u32>, c: u32)
    ensures
        count_of(s, c) <= s.len(),
    decreases s.len(),
{
    if s.len() > 0 {
        lemma_count_le_len(s.drop_last(), c);
    }
}

impl DecisionSlice {
    /// The labels of the observations, in mask order.
    pub fn values(&self) -> (r: &[u32])
        ensures
            r@ == self.labels(),
    {
        self.values.as_slice()
    }

    /// Number of classes.
    pub fn ncat(&self) -> (r: u32)
        ensures
            r == self.classes(),
    {
        self.ncat
    }

    /// Per-class counts of the labels.
    pub fn summary(&self) -> (r: &Votes)
        ensures
            r@ == self.counts(),
    {
        &self.summary
    }
}

impl DecisionSliceTrait<u32> for DecisionSlice {
    open spec fn pure(&self) -> bool {
        positive_count(self.counts()) <= 1
    }

    open spec fn can_condense(&self) -> bool {
        self.classes() > 0
    }

    /// The class kept by a fair majority run over the per-class counts.
    open spec fn condensed(&self, state: u64, hop: u64) -> (u32, u64) {
        let (b, next) = fair_run(vote_items(self.counts()), state, hop);
        (
            match b {
                Some((_, _, c)) => c as u32,
                None => 0u32,
            },
            next,
        )
    }

    /// True when at most one class occurs among the labels.
    fn is_pure(&self) -> (r: bool)
        ensures
            r == (positive_count(self.counts()) <= 1),
    {
        self.summary.is_pure()
    }

    /// Majority class among the labels, ties (including no label at all)
    /// broken fairly by `rng`.
    fn condense(&self, rng: &mut RfRng) -> (r: u32)
        ensures
            fair_run(vote_items(self.counts()), old(rng).state(), old(rng).hop()).0 matches Some((_, _, c))
                && r == c,
            r < self.classes(),
            forall|i: int| 0 <= i < self.counts().len() ==> #[trigger] self.counts()[i] <= self.counts()[r as int],
            final(rng).state() == fair_run(vote_items(self.counts()), old(rng).state(), old(rng).hop()).1,
    {
        proof {
            use_type_invariant(self);
        }
        self.summary.collapse_empty_random(rng)
    }
}

impl DecisionSlice {
    #[verifier::type_invariant]
    spec fn summary_sized(self) -> bool {
        self.summary@.len() == self.ncat
    }
}


/// Whether observation `e` is listed in `on`.
pub open spec fn listed(on: Seq<usize>, e: int) -> bool {
    exists|k: int| 0 <= k < on.len() && on[k] as int == e
}

/// The direct votes after the observations `on` received `vote`.
pub open spec fn record_direct(direct: Seq<Option<u32>>, on: Seq<usize>, vote: u32) -> Seq<Option<u32>> {
    Seq::new(direct.len(), |e: int| if listed(on, e) { Some(vote) } else { direct[e] })
}

/// Change of the correct-vote count of observation `e` when, with a feature
/// permuted, it votes `vote`: 1 when its direct vote was right and this one is
/// wrong, -1 when the other way round, 0 otherwise (also when it has no direct
/// vote or no known class).
pub open spec fn drop_of(direct: Seq<Option<u32>>, truth: Seq<u32>, e: usize, vote: u32) -> int {
    if e < direct.len() && e < truth.len() {
        match direct[e as int] {
            Some(d) => if d == vote {
                0
            } else if truth[e as int] == vote {
                -1
            } else if truth[e as int] == d {
                1
            } else {
                0
            },
            None => 0,
        }
    } else {
        0
    }
}

/// Sum of `drop_of` over the entries of `on`.
pub open spec fn drop_sum(direct: Seq<Option<u32>>, truth: Seq<u32>, on: Seq<usize>, vote: u32) -> int
    decreases on.len(),
{
    if on.len() == 0 {
        0
    } else {
        drop_sum(direct, truth, on.drop_last(), vote) + drop_of(direct, truth, on.last(), vote)
    }
}

proof fn lemma_drop_sum_bound(direct: Seq<Option<u32>>, truth: Seq<u32>, on: Seq<usize>, vote: u32)
    ensures
        -(on.len() as int) <= drop_sum(direct, truth, on, vote) <= on.len(),
    decreases on.len(),
{
    if on.len() > 0 {
        lemma_drop_sum_bound(direct, truth, on.drop_last(), vote);
    }
}

/// Accuracy-decrease collector for classification: the direct vote of every
/// observation, the true classes, and per permuted feature the total change of
/// the number of correctly classified observations (direct minus permuted).
pub struct ClsDaAggregator {
    direct: Vec<Option<u32>>,
    drops: HashMap<usize, i64>,
    n: usize,
    true_decision: Vec<u32>,
}

impl View for ClsDaAggregator {
    /// Direct votes, accuracy drops per feature, true classes, and the number
    /// of observations the pass runs on.
    type V = (Seq<Option<u32>>, Map<usize, i64>, Seq<u32>, usize);

    closed spec fn view(&self) -> Self::V {
        (self.direct@, self.drops@, self.true_decision@, self.n)
    }
}

impl ClsDaAggregator {
    /// A collector for a pass over `on_len` observations out of `n`, whose true
    /// classes are `true_decision`: no direct vote and no drop yet.
    pub fn new(true_decision: &[u32], on_len: usize, n: usize) -> (r: Self)
        ensures
            r@.0 == Seq::new(n as nat, |e: int| None::<u32>),
            r@.1 == Map::<usize, i64>::empty(),
            r@.2 == true_decision@,
            r@.3 == on_len,
    {
        let mut direct: Vec<Option<u32>> = Vec::new();
        let mut i: usize = 0;
        while i < n
            invariant
                i <= n,
                direct@ == Seq::new(i as nat, |e: int| None::<u32>),
            decreases n - i,
        {
            direct.push(None);
            i = i + 1;
        }
        let mut truth: Vec<u32> = Vec::new();
        let mut k: usize = 0;
        while k < true_decision.len()
            invariant
                k <= true_decision@.len(),
                truth@ == true_decision@.take(k as int),
            decreases true_decision@.len() - k,
        {
            truth.push(true_decision[k]);
            proof {
                assert(true_decision@.take(k + 1) =~= true_decision@.take(k as int).push(true_decision@[k as int]));
            }
            k = k + 1;
        }
        proof {
            assert(true_decision@.take(true_decision@.len() as int) =~= true_decision@);
        }
        ClsDaAggregator { direct, drops: HashMap::new(), n: on_len, true_decision: truth }
    }

    /// Number of observations the pass runs on.
    pub fn observations(&self) -> (r: usize)
        ensures
            r == self@.3,
    {
        self.n
    }

    /// The accuracy drop recorded for each permuted feature.
    pub fn drops(&self) -> (r: &HashMap<usize, i64>)
        ensures
            r@ == self@.1,
    {
        &self.drops
    }
}

impl AccuracyDecreaseAggregator<usize, u32> for ClsDaAggregator {
    type Model = (Seq<Option<u32>>, Map<usize, i64>, Seq<u32>, usize);

    open spec fn model(&self) -> Self::Model {
        self@
    }

    /// With nothing permuted, the observations of `on` get `vote` as their
    /// direct vote; with feature `f` permuted, the drop of `f` grows by the
    /// change of correct votes over `on` (wrapping around at 64 bits).
    open spec fn ingested(state: Self::Model, permuted: Option<usize>, on: Seq<usize>, vote: u32) -> Self::Model {
        match permuted {
            None => (record_direct(state.0, on, vote), state.1, state.2, state.3),
            Some(f) => {
                let before: int = if state.1.contains_key(f) {
                    state.1[f] as int
                } else {
                    0
                };
                (state.0, state.1.insert(f, (before + drop_sum(state.0, state.2, on, vote)) as i64), state.2, state.3)
            },
        }
    }

    /// The direct vote of `e`, or `u32::MAX` when it has none.
    open spec fn direct_vote(state: Self::Model, e: usize) -> u32 {
        if e < state.0.len() {
            match state.0[e as int] {
                Some(d) => d,
                None => u32::MAX,
            }
        } else {
            u32::MAX
        }
    }

    fn ingest(&mut self, permuted: Option<usize>, on: &Mask, vote: &u32) {
        broadcast use vstd::std_specs::hash::group_hash_axioms;
        let ghost st = self@;
        match permuted {
            Some(f) => {
                let mut diff: i128 = 0;
                let total = on.len();
                let mut k: usize = 0;
                while k < total
                    invariant
                        total == on@.len(),
                        k <= on@.len(),
                        self@ == st,
                        diff == drop_sum(st.0, st.2, on@.take(k as int), *vote),
                    decreases on@.len() - k,
                {
                    let e = on.get(k);
                    proof {
                        assert(on@.take(k + 1).drop_last() =~= on@.take(k as int));
                        lemma_drop_sum_bound(st.0, st.2, on@.take(k as int), *vote);
                    }
                    if e < self.direct.len() && e < self.true_decision.len() {
                        match self.direct[e] {
                            Some(d) => {
                                if d != *vote {
                                    let tru = self.true_decision[e];
                                    if tru == *vote {
                                        diff = diff - 1;
                                    } else if tru == d {
                                        diff = diff + 1;
                                    }
                                }
                            },
                            None => {},
                        }
                    }
                    k = k + 1;
                }
                proof {
                    assert(on@.take(on@.len() as int) =~= on@);
                    lemma_drop_sum_bound(st.0, st.2, on@, *vote);
                }
                let before: i128 = match self.drops.get(&f) {
                    Some(x) => *x as i128,
                    None => 0,
                };
                let next = #[verifier::truncate] ((before + diff) as i64);
                self.drops.insert(f, next);
            },
            None => {
                let mut k: usize = 0;
                while k < on.len()
                    invariant
                        k <= on@.len(),
                        self@.1 == st.1,
                        self@.2 == st.2,
                        self@.3 == st.3,
                        self@.0 == record_direct(st.0, on@.take(k as int), *vote),
                    decreases on@.len() - k,
                {
                    let e = on.get(k);
                    let ghost prev = self.direct@;
                    if e < self.direct.len() {
                        self.direct.set(e, Some(*vote));
                    }
                    proof {
                        let t = on@.take(k as int);
                        let t1 = on@.take(k + 1);
                        assert(t1 =~= t.push(e));
                        assert forall|x: int| 0 <= x < st.0.len() implies #[trigger] self.direct@[x] == record_direct(st.0, t1, *vote)[x] by {
                            if x == e as int {
                                assert(t1[k as int] == e);
                            } else if listed(t1, x) {
                                let w = choose|w: int| 0 <= w < t1.len() && t1[w] as int == x;
                                assert(t[w] == t1[w]);
                            } else {
                                assert forall|w: int| 0 <= w < t.len() implies t[w] as int != x by {
                                    assert(t1[w] == t[w]);
                                }
                            }
                        }
                        assert(self.direct@ =~= record_direct(st.0, t1, *vote));
                    }
                    k = k + 1;
                }
                proof {
                    assert(on@.take(on@.len() as int) =~= on@);
                }
            },
        }
    }

    fn get_direct_vote(&self, e: usize) -> (r: u32) {
        if e < self.direct.len() {
            match self.direct[e] {
                Some(d) => d,
                None => u32::MAX,
            }
        } else {
            u32::MAX
        }
    }
}


/// The abstract state of a classification accuracy-decrease collector.
pub type DaModel = (Seq<Option<u32>>, Map<usize, i64>, Seq<u32>, usize);

#[verifier::spinoff_prover]
proof fn lemma_direct_after_events<I: RfInput<FeatureId = usize, Vote = u32>>(
    input: I,
    t: Tree<I>,
    on: Seq<usize>,
    ev: Seq<(Option<usize>, Seq<usize>, u32)>,
    a: DaModel,
)
    requires
        reports_sound(input, t, on, None, ev),
        a.0.len() <= usize::MAX,
    ensures
        ({
            let r = collect_events::<usize, u32, ClsDaAggregator>(a, ev);
            &&& r.0.len() == a.0.len()
            &&& forall|e: int|
                0 <= e < a.0.len() ==> (#[trigger] r.0[e] == a.0[e] || r.0[e] == Some(route(t, input, e as usize)))
            &&& forall|e: int, k: int|
                0 <= e < a.0.len() && 0 <= k < ev.len() && ev[k].0 is None && (#[trigger] ev[k]).1.contains(e as usize)
                    ==> #[trigger] r.0[e] == Some(route(t, input, e as usize))
        }),
    decreases ev.len(),
{
    if ev.len() > 0 {
        let prev_ev = ev.drop_last();
        assert forall|k: int| 0 <= k < prev_ev.len() implies {
            &&& (forall|x: int| 0 <= x < (#[trigger] prev_ev[k]).1.len() ==> on.contains(prev_ev[k].1[x]))
            &&& (None::<usize> is Some ==> prev_ev[k].0 == None::<usize>)
            &&& (prev_ev[k].0 is None ==> forall|x: int|
                0 <= x < prev_ev[k].1.len() ==> prev_ev[k].2 == route(t, input, prev_ev[k].1[x]))
        } by {
            assert(prev_ev[k] == ev[k]);
        }
        lemma_direct_after_events(input, t, on, prev_ev, a);
        let p = collect_events::<usize, u32, ClsDaAggregator>(a, prev_ev);
        let r = collect_events::<usize, u32, ClsDaAggregator>(a, ev);
        let last = ev.last();
        assert(ev[ev.len() - 1] == last);
        assert forall|e: int| 0 <= e < a.0.len() implies (#[trigger] r.0[e] == a.0[e] || r.0[e] == Some(route(t, input, e as usize))) by {
            if last.0 is None && listed(last.1, e) {
                let x = choose|x: int| 0 <= x < last.1.len() && last.1[x] as int == e;
                assert(last.2 == route(t, input, last.1[x]));
            }
        }
        assert forall|e: int, k: int|
            0 <= e < a.0.len() && 0 <= k < ev.len() && ev[k].0 is None && (#[trigger] ev[k]).1.contains(e as usize)
                implies #[trigger] r.0[e] == Some(route(t, input, e as usize)) by {
            if last.0 is None && listed(last.1, e) {
                let x = choose|x: int| 0 <= x < last.1.len() && last.1[x] as int == e;
                assert(last.2 == route(t, input, last.1[x]));
            } else if k == ev.len() - 1 {
                assert(last.1.contains(e as usize));
                let x = choose|x: int| 0 <= x < last.1.len() && last.1[x] == e as usize;
                assert(last.1[x] as int == e);
                assert(listed(last.1, e));
            } else {
                assert(prev_ev[k] == ev[k]);
                assert(p.0[e] == Some(route(t, input, e as usize)));
            }
        }
    }
}

/// Direct-vote law for classification: after a permuted cast of `t` on `on`
/// started with nothing permuted, every observation of `on` has as its direct
/// vote the vote of the leaf it reaches in `t`, the vote an ordinary cast
/// gives it; so out-of-bag votes are the same whether importance is computed
/// or not.
#[verifier::spinoff_prover]
pub proof fn lemma_cls_direct_votes<I: RfInput<FeatureId = usize, Vote = u32>>(
    input: I,
    t: Tree<I>,
    on: Seq<usize>,
    perm: Seq<usize>,
    used: Seq<usize>,
    a: DaModel,
)
    requires
        on.len() == perm.len(),
        a.0.len() <= usize::MAX,
        forall|x: int| 0 <= x < on.len() ==> #[trigger] on[x] < a.0.len(),
    ensures
        forall|x: int|
            0 <= x < on.len() ==> <ClsDaAggregator as AccuracyDecreaseAggregator<usize, u32>>::direct_vote(
                collect_events::<usize, u32, ClsDaAggregator>(a, perm_events(input, t, on, perm, None, used)),
                #[trigger] on[x],
            ) == route(t, input, on[x]),
{
    let ev = perm_events(input, t, on, perm, None, used);
    lemma_direct_reports_route(input, t, on, perm, None, used);
    lemma_direct_reports_cover(input, t, on, perm, used);
    lemma_direct_after_events(input, t, on, ev, a);
    let r = collect_events::<usize, u32, ClsDaAggregator>(a, ev);
    assert forall|x: int| 0 <= x < on.len() implies <ClsDaAggregator as AccuracyDecreaseAggregator<usize, u32>>::direct_vote(
        r,
        #[trigger] on[x],
    ) == route(t, input, on[x]) by {
        assert(direct_covers::<I>(on, ev));
        let k = choose|k: int| 0 <= k < ev.len() && (#[trigger] ev[k]).0 is None && ev[k].1.contains(on[x]);
        assert(r.0[on[x] as int] == Some(route(t, input, on[x])));
    }
}

proof fn lemma_shuffle_len(s: Seq<usize>, e: nat, state: u64, hop: u64)
    ensures
        shuffle_from(s, e, state, hop).0.len() == s.len(),
    decreases s.len() - e,
{
    if e + 1 < s.len() {
        let (k, next) = up_to_spec(state, hop, #[verifier::truncate] ((s.len() - e) as usize));
        lemma_shuffle_len(swap_at(s, e as int, e + k), e + 1, next, hop);
    }
}

proof fn lemma_occurrence_listed(s: Seq<usize>, x: usize)
    requires
        occurrences(s, x) > 0,
    ensures
        exists|k: int| 0 <= k < s.len() && s[k] == x,
    decreases s.len(),
{
    let prev = s.drop_last();
    if s.last() == x {
        assert(s[s.len() - 1] == x);
    } else {
        lemma_occurrence_listed(prev, x);
        let k = choose|k: int| 0 <= k < prev.len() && prev[k] == x;
        assert(s[k] == prev[k]);
    }
}

/// Out-of-bag law for classification: when the data set's fresh collectors
/// have a direct-vote slot for every observation, the out-of-bag aggregators of
/// a forest are the same whether permutation importance was collected or not.
pub proof fn lemma_cls_oob_independent_of_importance<
    I: RfInput<FeatureId = usize, Vote = u32, AccuracyDecreaseAggregator = ClsDaAggregator>,
>(a: AggView<I>, input: I, seed: u64, tries: nat, j: usize, k: nat)
    requires
        input.n_observations() <= usize::MAX,
        forall|on: Seq<usize>| #[trigger] input.fresh_da_aggregator(on).0.len() == input.n_observations(),
    ensures
        oob_votes_of(a, input, seed, tries, true, j, k) == oob_votes_of(a, input, seed, tries, false, j, k),
    decreases k,
{
    if k > 0 {
        let i = (k - 1) as nat;
        lemma_cls_oob_independent_of_importance(a, input, seed, tries, j, i);
        let n = input.n_observations() as usize;
        let hop = (i + 1) as u64;
        let oob = tree_sample(n, seed, i).1;
        if occurrences(oob, j) > 0 {
            lemma_occurrence_listed(oob, j);
            let x = choose|x: int| 0 <= x < oob.len() && oob[x] == j;
            lemma_bag_oob_partition(lcg_iter(seed, hop, 2), hop, n);
            let perm = shuffle_from(oob, 0, tree_growth(input, seed, i, tries).2, hop).0;
            lemma_shuffle_len(oob, 0, tree_growth(input, seed, i, tries).2, hop);
            lemma_cls_direct_votes(input, tree_of(input, seed, i, tries), oob, perm, Seq::empty(), input.fresh_da_aggregator(oob));
            assert(oob[x] == j);
            assert(oob_vote(input, seed, i, tries, true, j) == oob_vote(input, seed, i, tries, false, j));
        } else {
            assert(occurrences(oob, j) == 0);
        }
    }
}

/// Number of entries `e` of `on` whose direct vote is their true class.
pub open spec fn correct_direct(direct: Seq<Option<u32>>, truth: Seq<u32>, on: Seq<usize>) -> nat
    decreases on.len(),
{
    if on.len() == 0 {
        0
    } else {
        let e = on.last() as int;
        correct_direct(direct, truth, on.drop_last()) + if direct[e] == Some(truth[e]) {
            1nat
        } else {
            0nat
        }
    }
}

/// Number of entries `e` of `on` whose true class is `vote`.
pub open spec fn correct_votes(truth: Seq<u32>, on: Seq<usize>, vote: u32) -> nat
    decreases on.len(),
{
    if on.len() == 0 {
        0
    } else {
        correct_votes(truth, on.drop_last(), vote) + if truth[on.last() as int] == vote {
            1nat
        } else {
            0nat
        }
    }
}

proof fn lemma_drop_sum_counts(direct: Seq<Option<u32>>, truth: Seq<u32>, on: Seq<usize>, vote: u32)
    requires
        forall|k: int|
            0 <= k < on.len() ==> #[trigger] on[k] < direct.len() && on[k] < truth.len() && direct[on[k] as int] is Some,
    ensures
        drop_sum(direct, truth, on, vote) == correct_direct(direct, truth, on) - correct_votes(truth, on, vote),
    decreases on.len(),
{
    if on.len() > 0 {
        let prev = on.drop_last();
        assert forall|k: int| 0 <= k < prev.len() implies #[trigger] prev[k] < direct.len() && prev[k] < truth.len()
            && direct[prev[k] as int] is Some by {
            assert(prev[k] == on[k]);
        }
        lemma_drop_sum_counts(direct, truth, prev, vote);
        assert(on[on.len() - 1] == on.last());
    }
}

/// Accuracy-decrease law for classification: when every observation of `on`
/// has a direct vote, ingesting the votes cast on `on` with feature `f`
/// permuted adds to `f`'s drop the number of those observations whose direct
/// vote was their true class minus the number whose permuted vote `vote` is
/// their true class; an observation wrong in both casts changes nothing, and
/// the direct votes and classes are left as they were.
pub proof fn lemma_cls_drop_is_accuracy_decrease(state: DaModel, f: usize, on: Seq<usize>, vote: u32)
    requires
        forall|k: int|
            0 <= k < on.len() ==> #[trigger] on[k] < state.0.len() && on[k] < state.2.len() && state.0[on[k] as int] is Some,
        ({
            let before: int = if state.1.contains_key(f) { state.1[f] as int } else { 0 };
            i64::MIN <= before + correct_direct(state.0, state.2, on) - correct_votes(state.2, on, vote) <= i64::MAX
        }),
    ensures
        ({
            let before: int = if state.1.contains_key(f) { state.1[f] as int } else { 0 };
            let after = <ClsDaAggregator as AccuracyDecreaseAggregator<usize, u32>>::ingested(state, Some(f), on, vote);
            &&& after.1.contains_key(f)
            &&& after.1[f] == before + correct_direct(state.0, state.2, on) - correct_votes(state.2, on, vote)
            &&& after.0 == state.0
            &&& after.2 == state.2
            &&& forall|g: usize| g != f ==> after.1.contains_key(g) == state.1.contains_key(g) && (state.1.contains_key(g) ==> after.1[g] == state.1[g])
        }),
{
    lemma_drop_sum_counts(state.0, state.2, on, vote);
}

/// Direct-vote recording law: ingesting the votes cast on `on` with nothing
/// permuted makes `vote` the direct vote of every observation of `on` (within
/// the slots), leaves every other observation's direct vote, all drops and the
/// classes as they were.
pub proof fn lemma_cls_direct_recorded(state: DaModel, on: Seq<usize>, vote: u32)
    ensures
        ({
            let after = <ClsDaAggregator as AccuracyDecreaseAggregator<usize, u32>>::ingested(state, None, on, vote);
            &&& after.0.len() == state.0.len()
            &&& forall|k: int| 0 <= k < on.len() && on[k] < state.0.len() ==> #[trigger] after.0[on[k] as int] == Some(vote)
            &&& forall|e: int|
                0 <= e < state.0.len() && !on.contains(e as usize) ==> #[trigger] after.0[e] == state.0[e]
            &&& after.1 == state.1
            &&& after.2 == state.2
            &&& after.3 == state.3
        }),
{
    let after = <ClsDaAggregator as AccuracyDecreaseAggregator<usize, u32>>::ingested(state, None, on, vote);
    assert forall|k: int| 0 <= k < on.len() && on[k] < state.0.len() implies #[trigger] after.0[on[k] as int] == Some(vote) by {
        assert(listed(on, on[k] as int));
    }
    assert forall|e: int| 0 <= e < state.0.len() && !on.contains(e as usize) implies #[trigger] after.0[e] == state.0[e] by {
        if listed(on, e) {
            let k = choose|k: int| 0 <= k < on.len() && on[k] as int == e;
            assert(on[k] == e as usize);
        }
    }
}

} // verus!
