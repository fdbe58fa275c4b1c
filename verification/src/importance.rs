use vstd::prelude::*;

use crate::mask::{occurrences, select_side, zip_len, Mask, MaskCache};
use crate::rfinput::{acceptance_kept, AccuracyDecreaseAggregator, RfInput, VoteAggregator};
use crate::rng::RfRng;
use crate::mask::shuffle_from;
use crate::tree::{
    ingest_n, lemma_ingest_n_keeps_acceptance, lemma_occurrences_prefix_le, lemma_vote_step, route, sides_of, Tree,
};

verus! {

/// What a leaf reports during a permuted vote cast: the feature permuted
/// upstream (if any), the observations that reached the leaf, and its vote.
pub type PermEvent<I> = (Option<<I as RfInput>::FeatureId>, Seq<usize>, <I as RfInput>::Vote);

/// The leaf reports of a permuted vote cast of tree `t` on the observations
/// `on`, paired entry by entry with `perm` (a permutation of them), in the order
/// they are made.
///
/// At a branch on feature `f`, unless `f` is the permuted feature, the
/// observations are split normally (both `on` and `perm` follow the sides of
/// `on`), recording `f` as used on the way down. Then, unless `f` was already
/// used above or another feature is permuted, the observations are split as if
/// `f` were permuted (the sides are those of `perm`), and `f` becomes the
/// permuted feature below. Empty groups are not followed.
pub open spec fn perm_events<I: RfInput>(
    input: I,
    t: Tree<I>,
    on: Seq<usize>,
    perm: Seq<usize>,
    up: Option<I::FeatureId>,
    used: Seq<I::FeatureId>,
) -> Seq<PermEvent<I>>
    decreases t,
{
    match t {
        Tree::Leaf(v) => seq![(up, on, v)],
        Tree::Branch(f, p, l, r) => {
            let n = on.len();
            let normal = if up == Some(f) {
                Seq::empty()
            } else {
                let sides = sides_of(input, on, f, p);
                let lo = select_side(on, sides, true, n);
                let ro = select_side(on, sides, false, n);
                let below = used.push(f);
                (if lo.len() > 0 {
                    perm_events(input, *l, lo, select_side(perm, sides, true, n), up, below)
                } else {
                    Seq::empty()
                }) + (if ro.len() > 0 {
                    perm_events(input, *r, ro, select_side(perm, sides, false, n), up, below)
                } else {
                    Seq::empty()
                })
            };
            let permuted = if !used.contains(f) && (up is None || up == Some(f)) {
                let sides = sides_of(input, perm, f, p);
                let lo = select_side(on, sides, true, n);
                let ro = select_side(on, sides, false, n);
                (if lo.len() > 0 {
                    perm_events(input, *l, lo, select_side(perm, sides, true, n), Some(f), used)
                } else {
                    Seq::empty()
                }) + (if ro.len() > 0 {
                    perm_events(input, *r, ro, select_side(perm, sides, false, n), Some(f), used)
                } else {
                    Seq::empty()
                })
            } else {
                Seq::empty()
            };
            normal + permuted
        },
    }
}

/// The collector state after receiving the reports `ev` in order.
pub open spec fn collect_events<F, V, A: AccuracyDecreaseAggregator<F, V>>(
    a: A::Model,
    ev: Seq<(Option<F>, Seq<usize>, V)>,
) -> A::Model
    decreases ev.len(),
{
    if ev.len() == 0 {
        a
    } else {
        A::ingested(collect_events::<F, V, A>(a, ev.drop_last()), ev.last().0, ev.last().1, ev.last().2)
    }
}

proof fn lemma_collect_concat<F, V, A: AccuracyDecreaseAggregator<F, V>>(
    a: A::Model,
    e1: Seq<(Option<F>, Seq<usize>, V)>,
    e2: Seq<(Option<F>, Seq<usize>, V)>,
)
    ensures
        collect_events::<F, V, A>(a, e1 + e2) == collect_events::<F, V, A>(
            collect_events::<F, V, A>(a, e1),
            e2,
        ),
    decreases e2.len(),
{
    if e2.len() == 0 {
        assert(e1 + e2 =~= e1);
    } else {
        assert((e1 + e2).drop_last() =~= e1 + e2.drop_last());
        lemma_collect_concat::<F, V, A>(a, e1, e2.drop_last());
    }
}

proof fn lemma_select_side_len(a: Seq<usize>, b: Seq<usize>, sides: Seq<bool>, side: bool, k: nat)
    ensures
        select_side(a, sides, side, k).len() == select_side(b, sides, side, k).len(),
    decreases k,
{
    if k > 0 {
        lemma_select_side_len(a, b, sides, side, (k - 1) as nat);
    }
}

/// Whether the reports `ev` of a permuted cast of tree `t` on `on` are sound:
/// their observations come from `on`; with a feature permuted upstream (`up`)
/// every report names it; and a report naming no permuted feature carries,
/// for each of its observations, the vote of the leaf that observation reaches
/// in `t`.
pub open spec fn reports_sound<I: RfInput>(
    input: I,
    t: Tree<I>,
    on: Seq<usize>,
    up: Option<I::FeatureId>,
    ev: Seq<PermEvent<I>>,
) -> bool {
    forall|k: int|
        0 <= k < ev.len() ==> {
            &&& (forall|x: int| 0 <= x < (#[trigger] ev[k]).1.len() ==> on.contains(ev[k].1[x]))
            &&& (up is Some ==> ev[k].0 == up)
            &&& (ev[k].0 is None ==> forall|x: int|
                0 <= x < ev[k].1.len() ==> ev[k].2 == route(t, input, ev[k].1[x]))
        }
}

/// Every entry selected from `s` by `sides` for side `side` is an entry `s[j]`
/// whose side is `side`.
proof fn lemma_select_side_members(s: Seq<usize>, sides: Seq<bool>, side: bool, k: nat)
    requires
        k <= s.len(),
        k <= sides.len(),
    ensures
        forall|i: int|
            0 <= i < select_side(s, sides, side, k).len() ==> exists|j: int|
                0 <= j < k && sides[j] == side && #[trigger] select_side(s, sides, side, k)[i] == s[j],
    decreases k,
{
    if k > 0 {
        lemma_select_side_members(s, sides, side, (k - 1) as nat);
        let prev = select_side(s, sides, side, (k - 1) as nat);
        let cur = select_side(s, sides, side, k);
        assert forall|i: int| 0 <= i < cur.len() implies exists|j: int|
            0 <= j < k && sides[j] == side && #[trigger] cur[i] == s[j] by {
            if i < prev.len() {
                assert(cur[i] == prev[i]);
                let j = choose|j: int| 0 <= j < k - 1 && sides[j] == side && prev[i] == s[j];
                assert(cur[i] == s[j]);
            } else {
                assert(cur[i] == s[k - 1]);
            }
        }
    }
}

/// Soundness carries over from the reports of a child call to its parent: the
/// child's observations are among the parent's, the child keeps the parent's
/// permuted feature, and when the child permutes nothing, its observations all
/// go to the child's side of the parent's branch.
proof fn lemma_lift_sound<I: RfInput>(
    input: I,
    t: Tree<I>,
    child: Tree<I>,
    side: bool,
    on: Seq<usize>,
    sub: Seq<usize>,
    up: Option<I::FeatureId>,
    sub_up: Option<I::FeatureId>,
    ev: Seq<PermEvent<I>>,
)
    requires
        reports_sound(input, child, sub, sub_up, ev),
        forall|i: int| 0 <= i < sub.len() ==> on.contains(#[trigger] sub[i]),
        up is Some ==> sub_up == up,
        sub_up is None ==> up is None && (t matches Tree::Branch(f, p, l, r) && (if side {
            *l == child
        } else {
            *r == child
        }) && forall|i: int| 0 <= i < sub.len() ==> input.goes_left(#[trigger] sub[i], f, p) == side),
    ensures
        reports_sound(input, t, on, up, ev),
{
    assert forall|k: int| 0 <= k < ev.len() implies {
        &&& (forall|x: int| 0 <= x < (#[trigger] ev[k]).1.len() ==> on.contains(ev[k].1[x]))
        &&& (up is Some ==> ev[k].0 == up)
        &&& (ev[k].0 is None ==> forall|x: int|
            0 <= x < ev[k].1.len() ==> ev[k].2 == route(t, input, ev[k].1[x]))
    } by {
        assert forall|x: int| 0 <= x < ev[k].1.len() implies on.contains(ev[k].1[x]) by {
            assert(sub.contains(ev[k].1[x]));
            let i = choose|i: int| 0 <= i < sub.len() && sub[i] == ev[k].1[x];
            assert(on.contains(sub[i]));
        }
        if ev[k].0 is None {
            assert(sub_up is None);
            assert forall|x: int| 0 <= x < ev[k].1.len() implies ev[k].2 == route(t, input, ev[k].1[x]) by {
                let e = ev[k].1[x];
                assert(sub.contains(e));
                let i = choose|i: int| 0 <= i < sub.len() && sub[i] == e;
                assert(input.goes_left(sub[i], t->Branch_0, t->Branch_1) == side);
            }
        }
    }
}

proof fn lemma_sound_concat<I: RfInput>(
    input: I,
    t: Tree<I>,
    on: Seq<usize>,
    up: Option<I::FeatureId>,
    e1: Seq<PermEvent<I>>,
    e2: Seq<PermEvent<I>>,
)
    requires
        reports_sound(input, t, on, up, e1),
        reports_sound(input, t, on, up, e2),
    ensures
        reports_sound(input, t, on, up, e1 + e2),
{
    let e = e1 + e2;
    assert forall|k: int| 0 <= k < e.len() implies {
        &&& (forall|x: int| 0 <= x < (#[trigger] e[k]).1.len() ==> on.contains(e[k].1[x]))
        &&& (up is Some ==> e[k].0 == up)
        &&& (e[k].0 is None ==> forall|x: int|
            0 <= x < e[k].1.len() ==> e[k].2 == route(t, input, e[k].1[x]))
    } by {
        if k < e1.len() {
            assert(e[k] == e1[k]);
        } else {
            assert(e[k] == e2[k - e1.len()]);
        }
    }
}

proof fn lemma_side_split_sound<I: RfInput>(
    input: I,
    t: Tree<I>,
    child: Tree<I>,
    side: bool,
    on: Seq<usize>,
    perm: Seq<usize>,
    sides: Seq<bool>,
    up: Option<I::FeatureId>,
    sub_up: Option<I::FeatureId>,
    used: Seq<I::FeatureId>,
)
    requires
        on.len() == perm.len(),
        sides.len() == on.len(),
        up is Some ==> sub_up == up,
        sub_up is None ==> up is None && (t matches Tree::Branch(f, p, l, r) && (if side {
            *l == child
        } else {
            *r == child
        }) && sides == sides_of(input, on, f, p)),
        ({
            let lo = select_side(on, sides, side, on.len());
            let lp = select_side(perm, sides, side, on.len());
            lo.len() > 0 ==> reports_sound(input, child, lo, sub_up, perm_events(input, child, lo, lp, sub_up, used))
        }),
    ensures
        ({
            let lo = select_side(on, sides, side, on.len());
            let lp = select_side(perm, sides, side, on.len());
            reports_sound(input, t, on, up, if lo.len() > 0 {
                perm_events(input, child, lo, lp, sub_up, used)
            } else {
                Seq::empty()
            })
        }),
{
    let n = on.len();
    let lo = select_side(on, sides, side, n);
    let lp = select_side(perm, sides, side, n);
    if lo.len() > 0 {
        lemma_select_side_members(on, sides, side, n);
        assert forall|i: int| 0 <= i < lo.len() implies on.contains(#[trigger] lo[i]) by {
            let j = choose|j: int| 0 <= j < n && sides[j] == side && lo[i] == on[j];
        }
        if sub_up is None {
            let f = t->Branch_0;
            let p = t->Branch_1;
            assert forall|i: int| 0 <= i < lo.len() implies input.goes_left(#[trigger] lo[i], f, p) == side by {
                let j = choose|j: int| 0 <= j < n && sides[j] == side && lo[i] == on[j];
                assert(sides[j] == input.goes_left(on[j], f, p));
            }
        }
        lemma_lift_sound(input, t, child, side, on, lo, up, sub_up, perm_events(input, child, lo, lp, sub_up, used));
    }
}

/// Direct-vote law: the reports of a permuted cast of `t` on `on` are sound
/// (see `reports_sound`); in particular, in a cast started with nothing
/// permuted, the reports that name no permuted feature give every observation
/// the vote of the leaf it reaches in `t`, the vote an ordinary cast gives.
#[verifier::spinoff_prover]
pub proof fn lemma_direct_reports_route<I: RfInput>(
    input: I,
    t: Tree<I>,
    on: Seq<usize>,
    perm: Seq<usize>,
    up: Option<I::FeatureId>,
    used: Seq<I::FeatureId>,
)
    requires
        on.len() == perm.len(),
    ensures
        reports_sound(input, t, on, up, perm_events(input, t, on, perm, up, used)),
    decreases t,
{
    match t {
        Tree::Leaf(v) => {
            let ev = perm_events(input, t, on, perm, up, used);
            assert(ev == seq![(up, on, v)]);
            assert forall|k: int| 0 <= k < ev.len() implies {
                &&& (forall|x: int| 0 <= x < (#[trigger] ev[k]).1.len() ==> on.contains(ev[k].1[x]))
                &&& (up is Some ==> ev[k].0 == up)
                &&& (ev[k].0 is None ==> forall|x: int|
                    0 <= x < ev[k].1.len() ==> ev[k].2 == route(t, input, ev[k].1[x]))
            } by {
                assert(ev[k] == (up, on, v));
                assert forall|x: int| 0 <= x < on.len() implies on.contains(on[x]) by {}
            }
        },
        Tree::Branch(f, p, l, r) => {
            let n = on.len();
            let normal: Seq<PermEvent<I>> = if up == Some(f) {
                Seq::empty()
            } else {
                let sides = sides_of(input, on, f, p);
                let lo = select_side(on, sides, true, n);
                let ro = select_side(on, sides, false, n);
                let below = used.push(f);
                let lp = select_side(perm, sides, true, n);
                let rp = select_side(perm, sides, false, n);
                lemma_select_side_len(on, perm, sides, true, n);
                lemma_select_side_len(on, perm, sides, false, n);
                if lo.len() > 0 {
                    lemma_direct_reports_route(input, *l, lo, lp, up, below);
                }
                if ro.len() > 0 {
                    lemma_direct_reports_route(input, *r, ro, rp, up, below);
                }
                lemma_side_split_sound(input, t, *l, true, on, perm, sides, up, up, below);
                lemma_side_split_sound(input, t, *r, false, on, perm, sides, up, up, below);
                let le: Seq<PermEvent<I>> = if lo.len() > 0 { perm_events(input, *l, lo, lp, up, below) } else { Seq::empty() };
                let re: Seq<PermEvent<I>> = if ro.len() > 0 { perm_events(input, *r, ro, rp, up, below) } else { Seq::empty() };
                lemma_sound_concat(input, t, on, up, le, re);
                le + re
            };
            let permuted: Seq<PermEvent<I>> = if !used.contains(f) && (up is None || up == Some(f)) {
                let sides = sides_of(input, perm, f, p);
                let lo = select_side(on, sides, true, n);
                let ro = select_side(on, sides, false, n);
                let lp = select_side(perm, sides, true, n);
                let rp = select_side(perm, sides, false, n);
                lemma_select_side_len(on, perm, sides, true, n);
                lemma_select_side_len(on, perm, sides, false, n);
                if lo.len() > 0 {
                    lemma_direct_reports_route(input, *l, lo, lp, Some(f), used);
                }
                if ro.len() > 0 {
                    lemma_direct_reports_route(input, *r, ro, rp, Some(f), used);
                }
                lemma_side_split_sound(input, t, *l, true, on, perm, sides, up, Some(f), used);
                lemma_side_split_sound(input, t, *r, false, on, perm, sides, up, Some(f), used);
                let le: Seq<PermEvent<I>> = if lo.len() > 0 { perm_events(input, *l, lo, lp, Some(f), used) } else { Seq::empty() };
                let re: Seq<PermEvent<I>> = if ro.len() > 0 { perm_events(input, *r, ro, rp, Some(f), used) } else { Seq::empty() };
                lemma_sound_concat(input, t, on, up, le, re);
                le + re
            } else {
                Seq::empty()
            };
            assert(perm_events(input, t, on, perm, up, used) == normal + permuted);
            lemma_sound_concat(input, t, on, up, normal, permuted);
        },
    }
}

/// Whether every observation of `on` is in some report of `ev` that names no
/// permuted feature.
pub open spec fn direct_covers<I: RfInput>(on: Seq<usize>, ev: Seq<PermEvent<I>>) -> bool {
    forall|x: int|
        0 <= x < on.len() ==> exists|k: int|
            0 <= k < ev.len() && (#[trigger] ev[k]).0 is None && ev[k].1.contains(#[trigger] on[x])
}

/// Every entry `s[j]` whose side is `side` is selected.
proof fn lemma_select_side_complete(s: Seq<usize>, sides: Seq<bool>, side: bool, k: nat, j: int)
    requires
        k <= s.len(),
        k <= sides.len(),
        0 <= j < k,
        sides[j] == side,
    ensures
        select_side(s, sides, side, k).contains(s[j]),
    decreases k,
{
    let cur = select_side(s, sides, side, k);
    if j == k - 1 {
        assert(cur[cur.len() - 1] == s[j]);
    } else {
        lemma_select_side_complete(s, sides, side, (k - 1) as nat, j);
        let prev = select_side(s, sides, side, (k - 1) as nat);
        let i = choose|i: int| 0 <= i < prev.len() && prev[i] == s[j];
        assert(cur[i] == prev[i]);
    }
}

/// Coverage law: in a permuted cast started with nothing permuted, every
/// observation of `on` is in some report that names no permuted feature, so
/// with `lemma_direct_reports_route` every observation receives the vote an
/// ordinary cast of the tree gives it.
#[verifier::spinoff_prover]
pub proof fn lemma_direct_reports_cover<I: RfInput>(
    input: I,
    t: Tree<I>,
    on: Seq<usize>,
    perm: Seq<usize>,
    used: Seq<I::FeatureId>,
)
    requires
        on.len() == perm.len(),
    ensures
        direct_covers::<I>(on, perm_events(input, t, on, perm, None, used)),
    decreases t,
{
    let ev = perm_events(input, t, on, perm, None, used);
    match t {
        Tree::Leaf(v) => {
            assert(ev == seq![(None::<I::FeatureId>, on, v)]);
            assert forall|x: int| 0 <= x < on.len() implies exists|k: int|
                0 <= k < ev.len() && (#[trigger] ev[k]).0 is None && ev[k].1.contains(#[trigger] on[x]) by {
                assert(ev[0].1 == on);
                assert(ev[0].0 is None);
                assert(ev[0].1[x] == on[x]);
                assert(ev[0].1.contains(on[x]));
            }
        },
        Tree::Branch(f, p, l, r) => {
            let n = on.len();
            let sides = sides_of(input, on, f, p);
            let lo = select_side(on, sides, true, n);
            let ro = select_side(on, sides, false, n);
            let lp = select_side(perm, sides, true, n);
            let rp = select_side(perm, sides, false, n);
            let below = used.push(f);
            lemma_select_side_len(on, perm, sides, true, n);
            lemma_select_side_len(on, perm, sides, false, n);
            let le: Seq<PermEvent<I>> = if lo.len() > 0 { perm_events(input, *l, lo, lp, None, below) } else { Seq::empty() };
            let re: Seq<PermEvent<I>> = if ro.len() > 0 { perm_events(input, *r, ro, rp, None, below) } else { Seq::empty() };
            let permuted: Seq<PermEvent<I>> = if !used.contains(f) {
                let ps = sides_of(input, perm, f, p);
                let plo = select_side(on, ps, true, n);
                let pro = select_side(on, ps, false, n);
                (if plo.len() > 0 {
                    perm_events(input, *l, plo, select_side(perm, ps, true, n), Some(f), used)
                } else {
                    Seq::empty()
                }) + (if pro.len() > 0 {
                    perm_events(input, *r, pro, select_side(perm, ps, false, n), Some(f), used)
                } else {
                    Seq::empty()
                })
            } else {
                Seq::empty()
            };
            assert(ev == (le + re) + permuted);
            assert forall|x: int| 0 <= x < on.len() implies exists|k: int|
                0 <= k < ev.len() && (#[trigger] ev[k]).0 is None && ev[k].1.contains(#[trigger] on[x]) by {
                if sides[x] {
                    lemma_select_side_complete(on, sides, true, n, x);
                    lemma_direct_reports_cover(input, *l, lo, lp, below);
                    let i = choose|i: int| 0 <= i < lo.len() && lo[i] == on[x];
                    let k = choose|k: int| 0 <= k < le.len() && (#[trigger] le[k]).0 is None && le[k].1.contains(lo[i]);
                    assert(ev[k] == le[k]);
                } else {
                    lemma_select_side_complete(on, sides, false, n, x);
                    lemma_direct_reports_cover(input, *r, ro, rp, below);
                    let i = choose|i: int| 0 <= i < ro.len() && ro[i] == on[x];
                    let k = choose|k: int| 0 <= k < re.len() && (#[trigger] re[k]).0 is None && re[k].1.contains(ro[i]);
                    assert(ev[le.len() + k] == re[k]);
                }
            }
        },
    }
}

impl<I: RfInput> Tree<I> {
    /// Casts the votes of the tree on the observations `on` while, in turn,
    /// each feature the tree branches on is permuted: `perm` holds `on` in
    /// permuted order, and a permuted split sends each observation where its
    /// partner in `perm` would go. Every leaf reached reports to `collector`
    /// the permuted feature (`None` for the normal cast), the observations and
    /// its vote; the reports are exactly `perm_events`, in that order.
    pub fn cast_votes_permutational<C: AccuracyDecreaseAggregator<I::FeatureId, I::Vote>>(
        &self,
        input: &I,
        on: &Mask,
        perm: &Mask,
        upstream_permuted: Option<I::FeatureId>,
        upstream_used: &mut Vec<I::FeatureId>,
        mask_cache: &mut MaskCache,
        collector: &mut C,
    )
        requires
            on@.len() == perm@.len(),
        ensures
            final(collector).model() == collect_events::<I::FeatureId, I::Vote, C>(
                old(collector).model(),
                perm_events(*input, *self, on@, perm@, upstream_permuted, old(upstream_used)@),
            ),
            final(upstream_used)@ == old(upstream_used)@,
        decreases self,
    {
        let ghost c0 = collector.model();
        let ghost used0 = upstream_used@;
        match self {
            Tree::Leaf(vote) => {
                collector.ingest(upstream_permuted, on, vote);
                proof {
                    let ev = perm_events(*input, *self, on@, perm@, upstream_permuted, used0);
                    assert(ev == seq![(upstream_permuted, on@, *vote)]);
                    assert(ev.drop_last() =~= Seq::<PermEvent<I>>::empty());
                    assert(collect_events::<I::FeatureId, I::Vote, C>(c0, ev.drop_last()) == c0);
                    assert(collector.model() == collect_events::<I::FeatureId, I::Vote, C>(c0, ev));
                }
            },
            Tree::Branch(feature_id, pivot, left, right) => {
                let ghost f = *feature_id;
                let ghost p = *pivot;
                let ghost n = on@.len();
                let mut left_mask = mask_cache.provide();
                let mut right_mask = mask_cache.provide();
                let mut left_perm = mask_cache.provide();
                let mut right_perm = mask_cache.provide();
                let normal = match upstream_permuted {
                    None => true,
                    Some(x) => !I::same_feature(x, *feature_id),
                };
                let ghost normal_events: Seq<PermEvent<I>> = if normal {
                    let sides = sides_of(*input, on@, f, p);
                    let lo = select_side(on@, sides, true, n);
                    let ro = select_side(on@, sides, false, n);
                    let below = used0.push(f);
                    (if lo.len() > 0 {
                        perm_events(*input, **left, lo, select_side(perm@, sides, true, n), upstream_permuted, below)
                    } else {
                        Seq::empty()
                    }) + (if ro.len() > 0 {
                        perm_events(*input, **right, ro, select_side(perm@, sides, false, n), upstream_permuted, below)
                    } else {
                        Seq::empty()
                    })
                } else {
                    Seq::empty()
                };
                if normal {
                    upstream_used.push(*feature_id);
                    let sides = input.split_iter(on, *feature_id, pivot);
                    on.split_together_into(
                        perm,
                        sides.as_slice(),
                        &mut left_mask,
                        &mut left_perm,
                        &mut right_mask,
                        &mut right_perm,
                    );
                    proof {
                        assert(sides@ =~= sides_of(*input, on@, f, p));
                        lemma_select_side_len(on@, perm@, sides@, true, n);
                        lemma_select_side_len(on@, perm@, sides@, false, n);
                    }
                    let ghost c1 = collector.model();
                    if !left_mask.is_empty() {
                        left.cast_votes_permutational(
                            input,
                            &left_mask,
                            &left_perm,
                            upstream_permuted,
                            upstream_used,
                            mask_cache,
                            collector,
                        );
                    }
                    let ghost c2 = collector.model();
                    if !right_mask.is_empty() {
                        right.cast_votes_permutational(
                            input,
                            &right_mask,
                            &right_perm,
                            upstream_permuted,
                            upstream_used,
                            mask_cache,
                            collector,
                        );
                    }
                    proof {
                        let sides = sides_of(*input, on@, f, p);
                        let lo = select_side(on@, sides, true, n);
                        let ro = select_side(on@, sides, false, n);
                        let below = used0.push(f);
                        let le: Seq<PermEvent<I>> = if lo.len() > 0 {
                            perm_events(*input, **left, lo, select_side(perm@, sides, true, n), upstream_permuted, below)
                        } else {
                            Seq::empty()
                        };
                        let re: Seq<PermEvent<I>> = if ro.len() > 0 {
                            perm_events(*input, **right, ro, select_side(perm@, sides, false, n), upstream_permuted, below)
                        } else {
                            Seq::empty()
                        };
                        assert(c2 == collect_events::<I::FeatureId, I::Vote, C>(c1, le));
                        assert(collector.model() == collect_events::<I::FeatureId, I::Vote, C>(c2, re));
                        lemma_collect_concat::<I::FeatureId, I::Vote, C>(c1, le, re);
                    }
                    upstream_used.pop();
                    proof {
                        assert(upstream_used@ =~= used0);
                    }
                }
                let ghost c3 = collector.model();
                proof {
                    assert(c3 == collect_events::<I::FeatureId, I::Vote, C>(c0, normal_events));
                    assert(normal == (upstream_permuted != Some(f)));
                }
                let mut revisit = false;
                let mut k: usize = 0;
                while k < upstream_used.len()
                    invariant
                        upstream_used@ == used0,
                        f == *feature_id,
                        k <= used0.len(),
                        revisit == used0.take(k as int).contains(f),
                    decreases used0.len() - k,
                {
                    let same = I::same_feature(upstream_used[k], *feature_id);
                    if same {
                        revisit = true;
                    }
                    proof {
                        let t = used0.take(k as int);
                        assert(used0.take(k + 1) =~= t.push(used0[k as int]));
                        if same {
                            assert(used0.take(k + 1)[k as int] == f);
                        } else {
                            assert forall|j: int| 0 <= j < k + 1 && #[trigger] used0.take(k + 1)[j] == f implies t.contains(f) by {
                                if j < k {
                                    assert(t[j] == used0.take(k + 1)[j]);
                                } else {
                                    assert(used0.take(k + 1)[j] == used0[k as int]);
                                }
                            }
                        }
                    }
                    k = k + 1;
                }
                proof {
                    assert(used0.take(used0.len() as int) =~= used0);
                    assert(revisit == used0.contains(f));
                }
                let permuted_ok = match upstream_permuted {
                    None => true,
                    Some(x) => I::same_feature(x, *feature_id),
                };
                if !revisit && permuted_ok {
                    let sides = input.split_iter(perm, *feature_id, pivot);
                    on.split_together_into(
                        perm,
                        sides.as_slice(),
                        &mut left_mask,
                        &mut left_perm,
                        &mut right_mask,
                        &mut right_perm,
                    );
                    proof {
                        assert(sides@ =~= sides_of(*input, perm@, f, p));
                        assert(zip_len(on@, sides@) == n);
                        lemma_select_side_len(on@, perm@, sides@, true, n);
                        lemma_select_side_len(on@, perm@, sides@, false, n);
                    }
                    let ghost c4 = collector.model();
                    if !left_mask.is_empty() {
                        left.cast_votes_permutational(
                            input,
                            &left_mask,
                            &left_perm,
                            Some(*feature_id),
                            upstream_used,
                            mask_cache,
                            collector,
                        );
                    }
                    let ghost c5 = collector.model();
                    if !right_mask.is_empty() {
                        right.cast_votes_permutational(
                            input,
                            &right_mask,
                            &right_perm,
                            Some(*feature_id),
                            upstream_used,
                            mask_cache,
                            collector,
                        );
                    }
                    proof {
                        let sides = sides_of(*input, perm@, f, p);
                        let lo = select_side(on@, sides, true, n);
                        let ro = select_side(on@, sides, false, n);
                        let le: Seq<PermEvent<I>> = if lo.len() > 0 {
                            perm_events(*input, **left, lo, select_side(perm@, sides, true, n), Some(f), used0)
                        } else {
                            Seq::empty()
                        };
                        let re: Seq<PermEvent<I>> = if ro.len() > 0 {
                            perm_events(*input, **right, ro, select_side(perm@, sides, false, n), Some(f), used0)
                        } else {
                            Seq::empty()
                        };
                        lemma_collect_concat::<I::FeatureId, I::Vote, C>(c4, le, re);
                        lemma_collect_concat::<I::FeatureId, I::Vote, C>(c0, normal_events, le + re);
                        assert(perm_events(*input, *self, on@, perm@, upstream_permuted, used0)
                            == normal_events + (le + re));
                        assert(c5 == collect_events::<I::FeatureId, I::Vote, C>(c4, le));
                        assert(collector.model() == collect_events::<I::FeatureId, I::Vote, C>(c5, re));
                        assert(collector.model() == collect_events::<I::FeatureId, I::Vote, C>(c0, perm_events(*input, *self, on@, perm@, upstream_permuted, used0)));
                    }
                } else {
                    proof {
                        assert(!(!used0.contains(f) && (upstream_permuted is None || upstream_permuted == Some(f))));
                        assert(normal_events + Seq::<PermEvent<I>>::empty() =~= normal_events);
                        assert(perm_events(*input, *self, on@, perm@, upstream_permuted, used0)
                            == normal_events + Seq::<PermEvent<I>>::empty());
                        assert(collector.model() == collect_events::<I::FeatureId, I::Vote, C>(c0, perm_events(*input, *self, on@, perm@, upstream_permuted, used0)));
                    }
                }
                mask_cache.release(right_perm);
                mask_cache.release(left_perm);
                mask_cache.release(right_mask);
                mask_cache.release(left_mask);
            },
        }
    }

    /// Permutational importance pass of the tree over the observations `on`
    /// (usually its out-of-bag observations): `on` is shuffled with `rng`, the
    /// permuted vote cast reports to a fresh collector, which is returned for
    /// the importance to be read from it; when `oob_votes` holds aggregators,
    /// every entry of `on` also ingests there the direct vote of its
    /// observation.
    pub fn permutational_importance(
        &self,
        input: &I,
        on: &Mask,
        mask_cache: &mut MaskCache,
        rng: &mut RfRng,
        oob_votes: &mut Option<Vec<I::VoteAggregator>>,
    ) -> (r: I::AccuracyDecreaseAggregator)
        requires
            *old(oob_votes) matches Some(v) ==> forall|k: int| 0 <= k < on@.len() ==> #[trigger] on@[k] < v@.len(),
            *old(oob_votes) is Some ==> acceptance_kept::<I::VoteAggregator, I::Vote>(),
            *old(oob_votes) matches Some(v) ==> forall|j: int|
                0 <= j < v@.len() && occurrences(on@, j as usize) > 0 ==> I::VoteAggregator::accepts(
                    #[trigger] v@[j].model(),
                    <I::AccuracyDecreaseAggregator as AccuracyDecreaseAggregator<I::FeatureId, I::Vote>>::direct_vote(
                        collect_events::<I::FeatureId, I::Vote, I::AccuracyDecreaseAggregator>(
                            input.fresh_da_aggregator(on@),
                            perm_events(
                                *input,
                                *self,
                                on@,
                                shuffle_from(on@, 0, old(rng).state(), old(rng).hop()).0,
                                None,
                                Seq::empty(),
                            ),
                        ),
                        j as usize,
                    ),
                ),
        ensures
            ({
                let (p, st) = shuffle_from(on@, 0, old(rng).state(), old(rng).hop());
                &&& r.model() == collect_events::<I::FeatureId, I::Vote, I::AccuracyDecreaseAggregator>(
                    input.fresh_da_aggregator(on@),
                    perm_events(*input, *self, on@, p, None, Seq::empty()),
                )
                &&& final(rng).state() == st
            }),
            final(rng).hop() == old(rng).hop(),
            match *old(oob_votes) {
                None => *final(oob_votes) is None,
                Some(v) => *final(oob_votes) matches Some(w) && w@.len() == v@.len() && forall|j: int|
                    0 <= j < v@.len() ==> #[trigger] w@[j].model() == ingest_n::<I::VoteAggregator, I::Vote>(
                        v@[j].model(),
                        <I::AccuracyDecreaseAggregator as AccuracyDecreaseAggregator<I::FeatureId, I::Vote>>::direct_vote(r.model(), j as usize),
                        occurrences(on@, j as usize),
                    ),
            },
    {
        let n = input.observation_count();
        let mut ad = input.new_da_aggregator(on, n);
        let perm = on.permute(rng);
        proof {
            assert(perm@.len() == on@.len()) by {
                vstd::seq_lib::to_multiset_len(perm@);
                vstd::seq_lib::to_multiset_len(on@);
            }
        }
        let mut used: Vec<I::FeatureId> = Vec::new();
        self.cast_votes_permutational(input, on, &perm, None, &mut used, mask_cache, &mut ad);
        let taken = oob_votes.take();
        match taken {
            Some(mut votes) => {
                let ghost init = votes@;
                let slots = votes.len();
                let ghost direct = |e: usize| <I::AccuracyDecreaseAggregator as AccuracyDecreaseAggregator<I::FeatureId, I::Vote>>::direct_vote(ad.model(), e);
                let total = on.len();
                let mut k: usize = 0;
                proof {
                    assert forall|j: int| 0 <= j < init.len() implies #[trigger] votes@[j].model() == ingest_n::<I::VoteAggregator, I::Vote>(
                        init[j].model(),
                        direct(j as usize),
                        occurrences(on@.take(0), j as usize),
                    ) by {
                        assert(on@.take(0) =~= Seq::<usize>::empty());
                    }
                }
                while k < total
                    invariant
                        total == on@.len(),
                        k <= total,
                        votes@.len() == init.len(),
                        init.len() == slots,
                        forall|x: usize| #[trigger] direct(x) == <I::AccuracyDecreaseAggregator as AccuracyDecreaseAggregator<I::FeatureId, I::Vote>>::direct_vote(ad.model(), x),
                        forall|kk: int| 0 <= kk < on@.len() ==> #[trigger] on@[kk] < init.len(),
                        acceptance_kept::<I::VoteAggregator, I::Vote>(),
                        forall|j: int|
                            0 <= j < init.len() && occurrences(on@, j as usize) > 0 ==> I::VoteAggregator::accepts(
                                #[trigger] init[j].model(),
                                direct(j as usize),
                            ),
                        forall|j: int|
                            0 <= j < init.len() ==> #[trigger] votes@[j].model() == ingest_n::<I::VoteAggregator, I::Vote>(
                                init[j].model(),
                                direct(j as usize),
                                occurrences(on@.take(k as int), j as usize),
                            ),
                    decreases total - k,
                {
                    let e = on.get(k);
                    let v = ad.get_direct_vote(e);
                    proof {
                        let c = occurrences(on@.take(k as int), e);
                        lemma_occurrences_prefix_le(on@, k as nat, e);
                        lemma_ingest_n_keeps_acceptance::<I::VoteAggregator, I::Vote>(init[e as int].model(), v, c);
                        assert(I::VoteAggregator::accepts(votes@[e as int].model(), v));
                    }
                    let ghost before = votes@;
                    votes[e].ingest_vote(v);
                    proof {
                        assert(forall|j: int| 0 <= j < votes@.len() && j != e ==> votes@[j] == before[j]);
                        lemma_vote_step::<I::VoteAggregator, I::Vote>(init, before, votes@, on@, k as nat, direct);
                    }
                    k = k + 1;
                }
                proof {
                    assert(on@.take(total as int) =~= on@);
                }
                *oob_votes = Some(votes);
            },
            None => {},
        }
        ad
    }
}

} // verus!
