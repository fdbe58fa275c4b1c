use vstd::prelude::*;

use crate::rng::{up_to_spec, RfRng};

verus! {

broadcast use vstd::seq_lib::group_to_multiset_ensures;

/// Observations selected from `s` by the first `k` entries of `sides`: those
/// whose side equals `side`, in the order they have in `s`.
pub open spec fn select_side(s: Seq<usize>, sides: Seq<bool>, side: bool, k: nat) -> Seq<usize>
    decreases k,
{
    if k == 0 {
        Seq::empty()
    } else {
        let prev = select_side(s, sides, side, (k - 1) as nat);
        if sides[k - 1] == side {
            prev.push(s[k - 1])
        } else {
            prev
        }
    }
}

/// Length of the pairing of `s` with `sides` (a zip stops at the shorter one).
pub open spec fn zip_len(s: Seq<usize>, sides: Seq<bool>) -> nat {
    if s.len() <= sides.len() {
        s.len()
    } else {
        sides.len()
    }
}

/// Exchange of the entries at positions `i` and `j`.
pub open spec fn swap_at(s: Seq<usize>, i: int, j: int) -> Seq<usize> {
    Seq::new(s.len(), |x: int| if x == j { s[i] } else if x == i { s[j] } else { s[x] })
}

/// Fisher-Yates shuffle of `s` from position `e` on, drawing from the generator
/// state `state`; gives the shuffled sequence and the final generator state.
pub open spec fn shuffle_from(s: Seq<usize>, e: nat, state: u64, hop: u64) -> (Seq<usize>, u64)
    decreases s.len() - e,
{
    if e + 1 >= s.len() {
        (s, state)
    } else {
        let (k, next) = up_to_spec(state, hop, #[verifier::truncate] ((s.len() - e) as usize));
        shuffle_from(swap_at(s, e as int, e + k), e + 1, next, hop)
    }
}

/// `k` successive draws of `up_to(n)` starting from the generator state `state`,
/// with the state after them.
pub open spec fn draws(state: u64, hop: u64, n: usize, k: nat) -> (Seq<usize>, u64)
    decreases k,
{
    if k == 0 {
        (Seq::empty(), state)
    } else {
        let (d, st) = draws(state, hop, n, (k - 1) as nat);
        let (x, next) = up_to_spec(st, hop, n);
        (d.push(x), next)
    }
}

/// Number of occurrences of `x` in `s`.
pub open spec fn occurrences(s: Seq<usize>, x: usize) -> nat
    decreases s.len(),
{
    if s.len() == 0 {
        0
    } else {
        occurrences(s.drop_last(), x) + if s.last() == x {
            1nat
        } else {
            0nat
        }
    }
}

/// Histogram of the values `0..n` in `d`.
pub open spec fn histogram(d: Seq<usize>, n: nat) -> Seq<usize> {
    Seq::new(n, |e: int| occurrences(d, e as usize) as usize)
}

/// Each index `e < k` repeated `hits[e]` times, in increasing order.
pub open spec fn bag_of(hits: Seq<usize>, k: nat) -> Seq<usize>
    decreases k,
{
    if k == 0 {
        Seq::empty()
    } else {
        bag_of(hits, (k - 1) as nat) + Seq::new(hits[k - 1] as nat, |i: int| (k - 1) as usize)
    }
}

/// Indices `e < k` with `hits[e] == 0`, in increasing order.
pub open spec fn oob_of(hits: Seq<usize>, k: nat) -> Seq<usize>
    decreases k,
{
    if k == 0 {
        Seq::empty()
    } else {
        let prev = oob_of(hits, (k - 1) as nat);
        if hits[k - 1] == 0 {
            prev.push((k - 1) as usize)
        } else {
            prev
        }
    }
}

/// Bag and out-of-bag sequences that `new_bag_oob(n)` produces from the generator
/// state `state`, and the generator state after it.
pub open spec fn bag_oob_spec(state: u64, hop: u64, n: usize) -> (Seq<usize>, Seq<usize>, u64) {
    let (d, st) = draws(state, hop, n, n as nat);
    let hits = histogram(d, n as nat);
    (bag_of(hits, n as nat), oob_of(hits, n as nat), st)
}

/// Mask is the abstraction of a collection of observations (usually data frame
/// rows) numbered with `usize` indices; it is a vector of such indices.
/// Masks are not necessarily sorted and may contain an element multiple times.
#[derive(Clone)]
pub struct Mask(Vec<usize>);

impl View for Mask {
    type V = Seq<usize>;

    closed spec fn view(&self) -> Seq<usize> {
        self.0@
    }
}

impl Mask {
    /// Number of entries.
    pub fn len(&self) -> (r: usize)
        ensures
            r == self@.len(),
    {
        self.0.len()
    }

    /// True when there is no entry.
    pub fn is_empty(&self) -> (r: bool)
        ensures
            r == (self@.len() == 0),
    {
        self.0.len() == 0
    }

    /// The indices, in order.
    pub fn as_slice(&self) -> (r: &[usize])
        ensures
            r@ == self@,
    {
        self.0.as_slice()
    }

    /// Entry at position `i`.
    pub fn get(&self, i: usize) -> (r: usize)
        requires
            i < self@.len(),
        ensures
            r == self@[i as int],
    {
        self.0[i]
    }

    /// Permute the mask, i.e., put it in random order, with a Fisher-Yates
    /// shuffle driven by `rng`.
    pub fn permute(&self, rng: &mut RfRng) -> (r: Self)
        ensures
            (r@, final(rng).state()) == shuffle_from(self@, 0, old(rng).state(), old(rng).hop()),
            final(rng).hop() == old(rng).hop(),
            r@.to_multiset() == self@.to_multiset(),
    {
        let mut ans: Vec<usize> = self.0.clone();
        proof {
            assert(ans@ =~= self@);
        }
        let n = ans.len();
        if n > 0 {
            let ghost hop = rng.hop();
            let mut e: usize = 0;
            while e < n - 1
                invariant
                    n == ans@.len(),
                    n == self@.len(),
                    n > 0,
                    e <= n - 1,
                    rng.hop() == hop,
                    hop == old(rng).hop(),
                    shuffle_from(ans@, e as nat, rng.state(), hop) == shuffle_from(
                        self@,
                        0,
                        old(rng).state(),
                        hop,
                    ),
                    ans@.to_multiset() == self@.to_multiset(),
                decreases n - e,
            {
                let ghost prev = ans@;
                let k = rng.up_to(n - e);
                let ee = e + k;
                let a = ans[e];
                let b = ans[ee];
                proof {
                    lemma_swap_multiset(ans@, e as int, ee as int);
                }
                ans.set(e, b);
                ans.set(ee, a);
                proof {
                    assert(ans@ =~= swap_at(prev, e as int, ee as int));
                }
                e = e + 1;
            }
        }
        Mask(ans)
    }

    /// Creates the mask `0..n`.
    pub fn new_all(n: usize) -> (r: Self)
        ensures
            r@ == Seq::new(n as nat, |i: int| i as usize),
    {
        let mut v: Vec<usize> = Vec::with_capacity(n);
        let mut i: usize = 0;
        while i < n
            invariant
                i <= n,
                v@ == Seq::new(i as nat, |j: int| j as usize),
            decreases n - i,
        {
            v.push(i);
            i = i + 1;
        }
        Mask(v)
    }

    /// Split the mask into two parts: the mask is paired with `sides`, and every
    /// index paired with `true` goes to `left` while those paired with `false` go
    /// to `right`; pairing stops at the shorter of the two.
    /// `sides` is usually the outcome of a pivot classifying feature values.
    pub fn split_into(&self, sides: &[bool], left: &mut Mask, right: &mut Mask)
        ensures
            final(left)@ == select_side(self@, sides@, true, zip_len(self@, sides@)),
            final(right)@ == select_side(self@, sides@, false, zip_len(self@, sides@)),
    {
        left.0.clear();
        right.0.clear();
        let n = if self.0.len() <= sides.len() {
            self.0.len()
        } else {
            sides.len()
        };
        let mut i: usize = 0;
        while i < n
            invariant
                n == zip_len(self@, sides@),
                n <= self@.len(),
                n <= sides@.len(),
                i <= n,
                left@ == select_side(self@, sides@, true, i as nat),
                right@ == select_side(self@, sides@, false, i as nat),
            decreases n - i,
        {
            if sides[i] {
                left.0.push(self.0[i]);
            } else {
                right.0.push(self.0[i]);
            }
            i = i + 1;
        }
    }

    /// Same as `split_into`, but splits a pair of equally long masks into a pair
    /// of left and right sub-masks, using the same sides for both.
    pub fn split_together_into(
        &self,
        other: &Mask,
        sides: &[bool],
        left: &mut Mask,
        left_other: &mut Mask,
        right: &mut Mask,
        right_other: &mut Mask,
    )
        requires
            self@.len() == other@.len(),
        ensures
            final(left)@ == select_side(self@, sides@, true, zip_len(self@, sides@)),
            final(right)@ == select_side(self@, sides@, false, zip_len(self@, sides@)),
            final(left_other)@ == select_side(other@, sides@, true, zip_len(self@, sides@)),
            final(right_other)@ == select_side(other@, sides@, false, zip_len(self@, sides@)),
    {
        left.0.clear();
        left_other.0.clear();
        right.0.clear();
        right_other.0.clear();
        let n = if self.0.len() <= sides.len() {
            self.0.len()
        } else {
            sides.len()
        };
        let mut i: usize = 0;
        while i < n
            invariant
                n == zip_len(self@, sides@),
                n <= self@.len(),
                n <= sides@.len(),
                self@.len() == other@.len(),
                i <= n,
                left@ == select_side(self@, sides@, true, i as nat),
                right@ == select_side(self@, sides@, false, i as nat),
                left_other@ == select_side(other@, sides@, true, i as nat),
                right_other@ == select_side(other@, sides@, false, i as nat),
            decreases n - i,
        {
            if sides[i] {
                left.0.push(self.0[i]);
                left_other.0.push(other.0[i]);
            } else {
                right.0.push(self.0[i]);
                right_other.0.push(other.0[i]);
            }
            i = i + 1;
        }
    }

    /// Redistribute the observations `0..n` into a bag and an out-of-bag (OOB)
    /// mask. The bag holds `n` observations sampled with replacement (each index
    /// as many times as it was drawn, in increasing order); the OOB mask holds,
    /// in increasing order, the indices that were never drawn.
    pub fn new_bag_oob(n: usize, rng: &mut RfRng) -> (r: (Self, Self))
        ensures
            (r.0@, r.1@, final(rng).state()) == bag_oob_spec(old(rng).state(), old(rng).hop(), n),
            final(rng).hop() == old(rng).hop(),
    {
        let ghost hop = rng.hop();
        let mut hits: Vec<usize> = Vec::with_capacity(n);
        let mut i: usize = 0;
        while i < n
            invariant
                i <= n,
                hits@ == Seq::new(i as nat, |j: int| 0usize),
            decreases n - i,
        {
            hits.push(0);
            i = i + 1;
        }
        proof {
            assert(hits@ =~= histogram(Seq::empty(), n as nat));
        }
        let mut i: usize = 0;
        while i < n
            invariant
                i <= n,
                rng.hop() == hop,
                hop == old(rng).hop(),
                (draws(old(rng).state(), hop, n, i as nat).1 == rng.state()),
                hits@ == histogram(draws(old(rng).state(), hop, n, i as nat).0, n as nat),
                draws(old(rng).state(), hop, n, i as nat).0.len() == i,
            decreases n - i,
        {
            let ghost d = draws(old(rng).state(), hop, n, i as nat).0;
            let k = rng.up_to(n);
            proof {
                lemma_occurrences_le_len(d, k);
                assert(hits@[k as int] == occurrences(d, k));
            }
            let h = hits[k];
            hits.set(k, h + 1);
            proof {
                let d2 = d.push(k);
                assert(d2.drop_last() =~= d);
                assert(hits@ =~= histogram(d2, n as nat));
            }
            i = i + 1;
        }
        let ghost all_hits = hits@;
        let mut bag: Vec<usize> = Vec::with_capacity(n);
        let mut oob: Vec<usize> = Vec::new();
        let mut e: usize = 0;
        while e < n
            invariant
                e <= n,
                hits@ == all_hits,
                all_hits.len() == n,
                bag@ == bag_of(all_hits, e as nat),
                oob@ == oob_of(all_hits, e as nat),
            decreases n - e,
        {
            let h = hits[e];
            if h == 0 {
                oob.push(e);
            }
            let mut j: usize = 0;
            while j < h
                invariant
                    j <= h,
                    e < n,
                    h == all_hits[e as int],
                    bag@ == bag_of(all_hits, e as nat) + Seq::new(j as nat, |x: int| e),
                decreases h - j,
            {
                bag.push(e);
                proof {
                    assert(bag@ =~= bag_of(all_hits, e as nat) + Seq::new((j + 1) as nat, |x: int| e));
                }
                j = j + 1;
            }
            proof {
                assert(bag_of(all_hits, (e + 1) as nat) =~= bag_of(all_hits, e as nat) + Seq::new(h as nat, |x: int| e));
            }
            e = e + 1;
        }
        (Mask(bag), Mask(oob))
    }

    /// Constructor simply wrapping an index vector.
    pub fn from_vec(x: Vec<usize>) -> (r: Self)
        ensures
            r@ == x@,
    {
        Mask(x)
    }
}

proof fn lemma_occurrences_le_len(s: Seq<usize>, x: usize)
    ensures
        occurrences(s, x) <= s.len(),
    decreases s.len(),
{
    if s.len() > 0 {
        lemma_occurrences_le_len(s.drop_last(), x);
    }
}

proof fn lemma_swap_multiset(s: Seq<usize>, i: int, j: int)
    requires
        0 <= i < s.len(),
        0 <= j < s.len(),
    ensures
        swap_at(s, i, j).to_multiset() == s.to_multiset(),
{
    broadcast use vstd::seq_lib::to_multiset_update;
    broadcast use vstd::multiset::group_multiset_axioms;

    let s1 = s.update(i, s[j]);
    assert(s1[j] == s[j]);
    assert(s1.to_multiset() =~= s.to_multiset().insert(s[j]).remove(s[i]));
    assert(swap_at(s, i, j) =~= s1.update(j, s[i]));
    assert(swap_at(s, i, j).to_multiset() =~= s1.to_multiset().insert(s[i]).remove(s1[j]));
}

/// Sum of `hits[0..k]`.
pub open spec fn sum_hits(hits: Seq<usize>, k: nat) -> nat
    decreases k,
{
    if k == 0 {
        0
    } else {
        sum_hits(hits, (k - 1) as nat) + hits[k - 1] as nat
    }
}

proof fn lemma_up_to_bound(state: u64, hop: u64, n: usize)
    requires
        n > 0,
    ensures
        up_to_spec(state, hop, n).0 < n,
{
    reveal(up_to_spec);
    if n > 1 {
        crate::rng::lemma_reject_from_below(
            state,
            hop,
            n,
            crate::rng::rejection_threshold(n),
            crate::rng::REJECTION_BUDGET as nat,
        );
    }
}

proof fn lemma_draws_bound(state: u64, hop: u64, n: usize, k: nat)
    requires
        n > 0,
    ensures
        draws(state, hop, n, k).0.len() == k,
        forall|i: int| 0 <= i < k ==> #[trigger] draws(state, hop, n, k).0[i] < n,
    decreases k,
{
    if k > 0 {
        lemma_draws_bound(state, hop, n, (k - 1) as nat);
        let st = draws(state, hop, n, (k - 1) as nat).1;
        lemma_up_to_bound(st, hop, n);
    }
}

proof fn lemma_sum_hist_push(d: Seq<usize>, x: usize, n: nat, k: nat)
    requires
        k <= n,
        n <= usize::MAX + 1,
        d.len() < usize::MAX,
    ensures
        sum_hits(histogram(d.push(x), n), k) == sum_hits(histogram(d, n), k) + if (x as int) < k {
            1nat
        } else {
            0nat
        },
    decreases k,
{
    if k > 0 {
        lemma_sum_hist_push(d, x, n, (k - 1) as nat);
        let e = (k - 1) as usize;
        assert(d.push(x).drop_last() =~= d);
        lemma_occurrences_le_len(d, e);
        assert(occurrences(d.push(x), e) == occurrences(d, e) + if x == e {
            1nat
        } else {
            0nat
        });
    }
}

proof fn lemma_sum_hist(d: Seq<usize>, n: nat)
    requires
        d.len() <= usize::MAX,
        n <= usize::MAX + 1,
        forall|i: int| 0 <= i < d.len() ==> d[i] < n,
    ensures
        sum_hits(histogram(d, n), n) == d.len(),
    decreases d.len(),
{
    if d.len() == 0 {
        lemma_sum_zero(histogram(d, n), n);
    } else {
        let p = d.drop_last();
        assert(p.push(d.last()) =~= d);
        lemma_sum_hist(p, n);
        lemma_sum_hist_push(p, d.last(), n, n);
    }
}

proof fn lemma_sum_zero(hits: Seq<usize>, k: nat)
    requires
        k <= hits.len(),
        forall|i: int| 0 <= i < k ==> hits[i] == 0,
    ensures
        sum_hits(hits, k) == 0,
    decreases k,
{
    if k > 0 {
        lemma_sum_zero(hits, (k - 1) as nat);
    }
}

proof fn lemma_bag_shape(hits: Seq<usize>, k: nat)
    requires
        k <= hits.len(),
        k <= usize::MAX + 1,
    ensures
        bag_of(hits, k).len() == sum_hits(hits, k),
        forall|i: int| 0 <= i < bag_of(hits, k).len() ==> #[trigger] bag_of(hits, k)[i] < k,
        forall|i: int, j: int|
            0 <= i < j < bag_of(hits, k).len() ==> bag_of(hits, k)[i] <= bag_of(hits, k)[j],
        forall|e: usize| (e as int) < k ==> (bag_of(hits, k).contains(e) <==> hits[e as int] > 0),
    decreases k,
{
    if k > 0 {
        let km = (k - 1) as nat;
        lemma_bag_shape(hits, km);
        let prev = bag_of(hits, km);
        let tail = Seq::new(hits[km as int] as nat, |i: int| km as usize);
        let b = bag_of(hits, k);
        assert(b == prev + tail);
        assert forall|i: int| 0 <= i < prev.len() implies #[trigger] b[i] == prev[i] by {}
        assert forall|i: int| prev.len() <= i < b.len() implies #[trigger] b[i] == km by {
            assert(tail[i - prev.len()] == km);
        }
        assert forall|i: int| 0 <= i < b.len() implies #[trigger] b[i] < k by {
            if i < prev.len() {
                assert(prev[i] < km);
            }
        }
        assert forall|i: int, j: int| 0 <= i < j < b.len() implies b[i] <= b[j] by {
            if j < prev.len() {
                assert(prev[i] <= prev[j]);
            } else if i < prev.len() {
                assert(prev[i] < km);
            }
        }
        assert forall|e: usize| (e as int) < k implies (b.contains(e) <==> hits[e as int] > 0) by {
            if b.contains(e) {
                let i = choose|i: int| 0 <= i < b.len() && b[i] == e;
                if i < prev.len() {
                    assert(prev[i] == e);
                    assert(prev[i] < km);
                    assert(prev.contains(e));
                } else {
                    assert(e == km);
                }
            }
            if hits[e as int] > 0 {
                if (e as int) < km {
                    assert(prev.contains(e));
                    let i = choose|i: int| 0 <= i < prev.len() && prev[i] == e;
                    assert(b[i] == e);
                } else {
                    assert(b[prev.len() as int] == e);
                }
            }
        }
    }
}

proof fn lemma_oob_shape(hits: Seq<usize>, k: nat)
    requires
        k <= hits.len(),
        k <= usize::MAX + 1,
    ensures
        forall|i: int| 0 <= i < oob_of(hits, k).len() ==> #[trigger] oob_of(hits, k)[i] < k,
        forall|i: int, j: int|
            0 <= i < j < oob_of(hits, k).len() ==> oob_of(hits, k)[i] < oob_of(hits, k)[j],
        forall|e: usize| (e as int) < k ==> (oob_of(hits, k).contains(e) <==> hits[e as int] == 0),
    decreases k,
{
    if k > 0 {
        let km = (k - 1) as nat;
        lemma_oob_shape(hits, km);
        let prev = oob_of(hits, km);
        assert forall|e: usize| (e as int) < k implies (oob_of(hits, k).contains(e) <==> hits[e as int] == 0) by {
            if oob_of(hits, k).contains(e) {
                let i = choose|i: int| 0 <= i < oob_of(hits, k).len() && oob_of(hits, k)[i] == e;
                if i < prev.len() {
                    assert(prev[i] == e);
                }
            }
            if hits[e as int] == 0 {
                if (e as int) < km {
                    assert(prev.contains(e));
                    let i = choose|i: int| 0 <= i < prev.len() && prev[i] == e;
                    assert(oob_of(hits, k)[i] == e);
                } else {
                    assert(oob_of(hits, k)[prev.len() as int] == e);
                }
            }
        }
    }
}

/// Bagging law: the bag holds exactly `n` entries, every observation `0..n` lands
/// in exactly one of the bag and the out-of-bag mask, both masks are sorted, and
/// the out-of-bag mask holds no index twice.
pub proof fn lemma_bag_oob_partition(state: u64, hop: u64, n: usize)
    ensures
        ({
            let (bag, oob, _) = bag_oob_spec(state, hop, n);
            &&& bag.len() == n
            &&& forall|e: usize| e < n ==> (oob.contains(e) <==> !bag.contains(e))
            &&& forall|i: int| 0 <= i < bag.len() ==> #[trigger] bag[i] < n
            &&& forall|i: int| 0 <= i < oob.len() ==> #[trigger] oob[i] < n
            &&& forall|i: int, j: int| 0 <= i < j < bag.len() ==> bag[i] <= bag[j]
            &&& forall|i: int, j: int| 0 <= i < j < oob.len() ==> oob[i] < oob[j]
        }),
{
    let (d, st) = draws(state, hop, n, n as nat);
    let hits = histogram(d, n as nat);
    if n > 0 {
        lemma_draws_bound(state, hop, n, n as nat);
        lemma_sum_hist(d, n as nat);
    } else {
        lemma_sum_zero(hits, 0);
    }
    lemma_bag_shape(hits, n as nat);
    lemma_oob_shape(hits, n as nat);
}

/// Splitting law: the left and right parts together hold exactly the paired
/// prefix of the mask (as a multiset), so no observation is lost or duplicated.
pub proof fn lemma_split_partition(s: Seq<usize>, sides: Seq<bool>, k: nat)
    requires
        k <= s.len(),
        k <= sides.len(),
    ensures
        select_side(s, sides, true, k).len() + select_side(s, sides, false, k).len() == k,
        select_side(s, sides, true, k).to_multiset().add(
            select_side(s, sides, false, k).to_multiset(),
        ) == s.take(k as int).to_multiset(),
    decreases k,
{
    broadcast use vstd::multiset::group_multiset_axioms;

    if k == 0 {
        assert(s.take(0) =~= Seq::<usize>::empty());
        assert(select_side(s, sides, true, 0).to_multiset().add(
            select_side(s, sides, false, 0).to_multiset(),
        ) =~= s.take(0).to_multiset());
    } else {
        let km = (k - 1) as nat;
        lemma_split_partition(s, sides, km);
        assert(s.take(k as int) =~= s.take(km as int).push(s[km as int]));
        let l = select_side(s, sides, true, km);
        let r = select_side(s, sides, false, km);
        if sides[km as int] {
            assert(select_side(s, sides, true, k).to_multiset().add(r.to_multiset()) =~= s.take(
                k as int,
            ).to_multiset());
        } else {
            assert(l.to_multiset().add(select_side(s, sides, false, k).to_multiset()) =~= s.take(
                k as int,
            ).to_multiset());
        }
    }
}

impl std::ops::Deref for Mask {
    type Target = [usize];

    fn deref(&self) -> (r: &[usize])
        ensures
            r@ == self@,
    {
        self.0.as_slice()
    }
}

/// A simple allocation arena for masks, to lift some stress off the allocator.
pub struct MaskCache(Vec<Mask>);

impl View for MaskCache {
    type V = Seq<Seq<usize>>;

    closed spec fn view(&self) -> Seq<Seq<usize>> {
        self.0@.map_values(|m: Mask| m@)
    }
}

impl MaskCache {
    pub fn new() -> (r: Self)
        ensures
            r@ == Seq::<Seq<usize>>::empty(),
    {
        let r = MaskCache(Vec::new());
        proof {
            assert(r@ =~= Seq::<Seq<usize>>::empty());
        }
        r
    }

    /// Provide a mask: the most recently released one, or a new empty one when
    /// the cache is empty.
    pub fn provide(&mut self) -> (r: Mask)
        ensures
            old(self)@.len() == 0 ==> r@ == Seq::<usize>::empty() && final(self)@ == old(self)@,
            old(self)@.len() > 0 ==> r@ == old(self)@.last() && final(self)@ == old(
                self,
            )@.drop_last(),
    {
        let ghost before = self.0@;
        match self.0.pop() {
            Some(m) => {
                proof {
                    assert(self@ =~= old(self)@.drop_last());
                }
                m
            },
            None => Mask(Vec::new()),
        }
    }

    /// Move a mask into the cache for later use.
    pub fn release(&mut self, what: Mask)
        ensures
            final(self)@ == old(self)@.push(what@),
    {
        self.0.push(what);
        proof {
            assert(self@ =~= old(self)@.push(what@));
        }
    }
}

impl Default for MaskCache {
    fn default() -> (r: Self)
        ensures
            r@ == Seq::<Seq<usize>>::empty(),
    {
        MaskCache::new()
    }
}

} // verus!
