use vstd::prelude::*;

use crate::rng::{up_to_spec, RfRng};

verus! {

/// State of a fair-best accumulator: the best score seen, how many ingested
/// candidates reached it, and the candidate currently kept.
pub type BestState<T> = Option<(u64, nat, T)>;

/// One ingestion step: a better score replaces the kept candidate; a tie is
/// resolved by a reservoir draw `up_to(hits + 1)`, the newcomer winning on 0.
/// Gives the new state and the generator state after it.
pub open spec fn fair_step<T>(best: BestState<T>, score: u64, candidate: T, state: u64, hop: u64) -> (
    BestState<T>,
    u64,
) {
    match best {
        None => (Some((score, 1nat, candidate)), state),
        Some((cur_score, hits, cur_best)) => {
            if cur_score == score {
                let (k, next) = up_to_spec(state, hop, (hits + 1) as usize);
                (Some((score, hits + 1, if k == 0 { candidate } else { cur_best })), next)
            } else if score > cur_score {
                (Some((score, 1nat, candidate)), state)
            } else {
                (best, state)
            }
        },
    }
}

/// Result of ingesting `items` (score, candidate) in order into a fresh
/// accumulator, with the generator state after it.
pub open spec fn fair_run<T>(items: Seq<(u64, T)>, state: u64, hop: u64) -> (BestState<T>, u64)
    decreases items.len(),
{
    if items.len() == 0 {
        (None, state)
    } else {
        let (b, st) = fair_run(items.drop_last(), state, hop);
        fair_step(b, items.last().0, items.last().1, st, hop)
    }
}

/// Largest score among `items` (0 for none).
pub open spec fn max_score<T>(items: Seq<(u64, T)>) -> u64
    decreases items.len(),
{
    if items.len() == 0 {
        0
    } else {
        let m = max_score(items.drop_last());
        if items.len() == 1 || items.last().0 > m {
            items.last().0
        } else {
            m
        }
    }
}

/// Number of items whose score equals `s`.
pub open spec fn score_count<T>(items: Seq<(u64, T)>, s: u64) -> nat
    decreases items.len(),
{
    if items.len() == 0 {
        0
    } else {
        score_count(items.drop_last(), s) + if items.last().0 == s {
            1nat
        } else {
            0nat
        }
    }
}

/// Whether accumulator state `b` is what fair-best ingestion of `items` must
/// hold: nothing for no items, else the maximal score, the number of items that
/// reached it, and one of those items' candidates.
pub open spec fn best_of<T>(b: BestState<T>, items: Seq<(u64, T)>) -> bool {
    match b {
        None => items.len() == 0,
        Some((s, hits, c)) => {
            &&& items.len() > 0
            &&& s == max_score(items)
            &&& hits == score_count(items, s)
            &&& exists|i: int| 0 <= i < items.len() && #[trigger] items[i] == (s, c)
        },
    }
}

/// No item scores above `max_score`.
pub proof fn lemma_max_score_bound<T>(items: Seq<(u64, T)>)
    ensures
        forall|i: int| 0 <= i < items.len() ==> #[trigger] items[i].0 <= max_score(items),
    decreases items.len(),
{
    if items.len() > 0 {
        let prev = items.drop_last();
        lemma_max_score_bound(prev);
        assert forall|i: int| 0 <= i < items.len() implies #[trigger] items[i].0 <= max_score(items) by {
            if i < prev.len() {
                assert(items[i] == prev[i]);
            }
        }
    }
}

/// One fair-best step keeps the accumulator the best of the items seen.
pub proof fn lemma_fair_step_best<T>(b: BestState<T>, items: Seq<(u64, T)>, score: u64, cand: T, state: u64, hop: u64)
    requires
        best_of(b, items),
    ensures
        best_of(fair_step(b, score, cand, state, hop).0, items.push((score, cand))),
{
    let all = items.push((score, cand));
    let n = items.len() as int;
    assert(all.drop_last() =~= items);
    assert(all.last() == (score, cand));
    assert(all[n] == (score, cand));
    match b {
        None => {
            assert(score_count(items, score) == 0);
            assert(max_score(all) == score);
        },
        Some((s, h, c)) => {
            let i0 = choose|i: int| 0 <= i < items.len() && #[trigger] items[i] == (s, c);
            assert(all[i0] == items[i0]);
            if score == s {
                let (k, nx) = up_to_spec(state, hop, (h + 1) as usize);
                assert(max_score(all) == s);
                assert(score_count(all, s) == h + 1);
            } else if score > s {
                lemma_max_score_bound(items);
                assert forall|i: int| 0 <= i < items.len() implies #[trigger] items[i].0 < score by {}
                lemma_score_count_zero_above(items, score);
                assert(max_score(all) == score);
                assert(score_count(all, score) == 1);
            } else {
                assert(max_score(all) == s);
                assert(score_count(all, s) == h);
            }
        },
    }
}

/// Fair-best law: after ingesting a non-empty sequence the accumulator holds the
/// maximal score, the number of candidates that reached it, and one of those
/// candidates.
pub proof fn lemma_fair_run_is_best<T>(items: Seq<(u64, T)>, state: u64, hop: u64)
    requires
        items.len() > 0,
    ensures
        fair_run(items, state, hop).0 matches Some((s, hits, c)) && s == max_score(items) && hits
            == score_count(items, s) && exists|i: int|
            0 <= i < items.len() && #[trigger] items[i] == (s, c),
        forall|i: int| 0 <= i < items.len() ==> #[trigger] items[i].0 <= max_score(items),
{
    lemma_fair_run_best_of(items, state, hop);
    lemma_max_score_bound(items);
}

/// Successive ingestion law: a fresh accumulator stepped through `items` in
/// order (as `FairBest::ingest` steps it), with the generator state threaded
/// through, ends in the state and generator state of `fair_run`.
pub proof fn lemma_fair_steps_are_run<T>(bs: Seq<BestState<T>>, sts: Seq<u64>, items: Seq<(u64, T)>, hop: u64)
    requires
        bs.len() == items.len() + 1,
        sts.len() == items.len() + 1,
        bs[0] is None,
        forall|i: int|
            0 <= i < items.len() ==> (#[trigger] bs[i + 1], sts[i + 1]) == fair_step(
                bs[i],
                items[i].0,
                items[i].1,
                sts[i],
                hop,
            ),
    ensures
        (bs.last(), sts.last()) == fair_run(items, sts[0], hop),
    decreases items.len(),
{
    if items.len() > 0 {
        let k = items.len() as int;
        lemma_fair_steps_are_run(bs.drop_last(), sts.drop_last(), items.drop_last(), hop);
        assert(bs[k] == bs.last());
        assert(items[k - 1] == items.last());
        assert(bs.drop_last().last() == bs[k - 1]);
        assert(sts.drop_last().last() == sts[k - 1]);
    }
}

proof fn lemma_fair_run_best_of<T>(items: Seq<(u64, T)>, state: u64, hop: u64)
    ensures
        best_of(fair_run(items, state, hop).0, items),
    decreases items.len(),
{
    if items.len() > 0 {
        let prev = items.drop_last();
        lemma_fair_run_best_of(prev, state, hop);
        let (b, st) = fair_run(prev, state, hop);
        lemma_fair_step_best(b, prev, items.last().0, items.last().1, st, hop);
        assert(prev.push((items.last().0, items.last().1)) =~= items);
    }
}

proof fn lemma_score_count_zero_above<T>(items: Seq<(u64, T)>, s: u64)
    requires
        forall|i: int| 0 <= i < items.len() ==> #[trigger] items[i].0 < s,
    ensures
        score_count(items, s) == 0,
    decreases items.len(),
{
    if items.len() > 0 {
        let prev = items.drop_last();
        assert forall|i: int| 0 <= i < prev.len() implies #[trigger] prev[i].0 < s by {
            assert(prev[i] == items[i]);
        }
        lemma_score_count_zero_above(prev, s);
        assert(items[items.len() - 1] == items.last());
    }
}

/// One ingestion adds at most one to the number of tied candidates.
pub(crate) proof fn lemma_fair_step_hits<T>(
    b: BestState<T>,
    score: u64,
    cand: T,
    state: u64,
    hop: u64,
    bound: nat,
)
    requires
        b matches Some((_, h, _)) ==> h <= bound,
    ensures
        fair_step(b, score, cand, state, hop).0 matches Some((_, h, _)) && h <= bound + 1,
{
}

/// An accumulator finding the best element, with fair, random tie resolution:
/// among the candidates sharing the maximal score each is kept with equal
/// probability.
pub struct FairBest<T> {
    best: Option<(u64, usize, T)>,
}

impl<T> FairBest<T> {
    /// Abstract state of the accumulator.
    pub closed spec fn state(&self) -> BestState<T> {
        match self.best {
            None => None,
            Some((s, h, c)) => Some((s, h as nat, c)),
        }
    }

    pub fn new() -> (r: Self)
        ensures
            r.state() is None,
    {
        FairBest { best: None }
    }

    /// Ingest a new candidate: when its score is better than any seen before it
    /// is kept; on a tie `rng` is consulted so that every candidate with the
    /// maximal score is kept with equal probability.
    pub fn ingest(&mut self, score: u64, candidate: T, rng: &mut RfRng)
        requires
            old(self).state() matches Some((_, hits, _)) ==> hits < usize::MAX,
        ensures
            (final(self).state(), final(rng).state()) == fair_step(
                old(self).state(),
                score,
                candidate,
                old(rng).state(),
                old(rng).hop(),
            ),
            final(rng).hop() == old(rng).hop(),
    {
        let prev = self.best.take();
        self.best = match prev {
            Some((cur_score, hits, cur_best)) => {
                if cur_score == score {
                    let new_best = if rng.up_to(hits + 1) == 0 {
                        candidate
                    } else {
                        cur_best
                    };
                    Some((score, hits + 1, new_best))
                } else if score > cur_score {
                    Some((score, 1, candidate))
                } else {
                    Some((cur_score, hits, cur_best))
                }
            },
            None => Some((score, 1, candidate)),
        };
    }

    /// Collapses the accumulator into the pair of the best score and the kept
    /// element.
    pub fn consume(self) -> (r: Option<(u64, T)>)
        ensures
            match self.state() {
                None => r is None,
                Some((s, _, c)) => r == Some((s, c)),
            },
    {
        match self.best {
            Some((score, _, best)) => Some((score, best)),
            None => None,
        }
    }
}

impl<T> Default for FairBest<T> {
    fn default() -> (r: Self)
        ensures
            r.state() is None,
    {
        FairBest::new()
    }
}

} // verus!
