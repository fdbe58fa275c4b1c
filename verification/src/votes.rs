use vstd::prelude::*;

use crate::fair_best::{fair_run, lemma_fair_run_is_best, lemma_fair_step_hits, max_score, FairBest};
use crate::rfinput::{acceptance_kept, VoteAggregator};
use crate::rng::RfRng;
use crate::tree::ingest_n;

verus! {

/// Number of positive entries.
pub open spec fn positive_count(s: Seq<u32>) -> nat
    decreases s.len(),
{
    if s.len() == 0 {
        0
    } else {
        positive_count(s.drop_last()) + if s.last() > 0 {
            1nat
        } else {
            0nat
        }
    }
}

/// The (count, class) pairs a collapse feeds to the fair-best accumulator, in
/// class order.
pub open spec fn vote_items(s: Seq<u32>) -> Seq<(u64, usize)> {
    Seq::new(s.len(), |i: int| (s[i] as u64, i as usize))
}

/// Little-endian 32-bit word made of four bytes.
pub open spec fn le_word(b0: u8, b1: u8, b2: u8, b3: u8) -> u32 {
    (b0 as u32) | ((b1 as u32) << 8u32) | ((b2 as u32) << 16u32) | ((b3 as u32) << 24u32)
}

/// Little-endian bytes of a 32-bit word.
pub open spec fn le_bytes(x: u32) -> Seq<u8> {
    seq![(x & 0xff) as u8, ((x >> 8u32) & 0xff) as u8, ((x >> 16u32) & 0xff) as u8, ((x >> 24u32) & 0xff) as u8]
}

/// The words stored little-endian in the first `4 * k` bytes of `b`.
pub open spec fn words_of(b: Seq<u8>, k: nat) -> Seq<u32> {
    Seq::new(k, |e: int| le_word(b[4 * e], b[4 * e + 1], b[4 * e + 2], b[4 * e + 3]))
}

/// Little-endian encoding of a sequence of words.
pub open spec fn bytes_of(s: Seq<u32>) -> Seq<u8>
    decreases s.len(),
{
    if s.len() == 0 {
        Seq::empty()
    } else {
        bytes_of(s.drop_last()) + le_bytes(s.last())
    }
}

/// Per-class vote counts of a classification forest.
pub struct Votes(Vec<u32>);

impl View for Votes {
    type V = Seq<u32>;

    closed spec fn view(&self) -> Seq<u32> {
        self.0@
    }
}

impl Clone for Votes {
    fn clone(&self) -> (r: Self)
        ensures
            r@ == self@,
    {
        proof {
            use_type_invariant(self);
        }
        let mut v: Vec<u32> = Vec::new();
        let mut i: usize = 0;
        while i < self.0.len()
            invariant
                i <= self.0@.len(),
                v@ == self.0@.subrange(0, i as int),
            decreases self.0@.len() - i,
        {
            v.push(self.0[i]);
            i = i + 1;
        }
        Votes(v)
    }
}

impl Votes {
    #[verifier::type_invariant]
    spec fn class_count_fits(self) -> bool {
        self.0@.len() <= u32::MAX
    }

    /// True when at most one class received votes.
    pub fn is_pure(&self) -> (r: bool)
        ensures
            r == (positive_count(self@) <= 1),
    {
        let mut nonzero: usize = 0;
        let mut i: usize = 0;
        while i < self.0.len()
            invariant
                i <= self@.len(),
                nonzero == positive_count(self@.take(i as int)),
                nonzero <= i,
            decreases self@.len() - i,
        {
            proof {
                assert(self@.take(i + 1).drop_last() =~= self@.take(i as int));
            }
            if self.0[i] > 0 {
                nonzero = nonzero + 1;
            }
            i = i + 1;
        }
        proof {
            assert(self@.take(self@.len() as int) =~= self@);
        }
        nonzero <= 1
    }

    /// Zero votes for each of `ncat` classes.
    pub fn new(ncat: u32) -> (r: Self)
        ensures
            r@ == Seq::new(ncat as nat, |i: int| 0u32),
    {
        let mut v: Vec<u32> = Vec::new();
        let mut i: u32 = 0;
        while i < ncat
            invariant
                i <= ncat,
                v@ == Seq::new(i as nat, |j: int| 0u32),
            decreases ncat - i,
        {
            v.push(0);
            i = i + 1;
        }
        Votes(v)
    }

    /// Votes with the given per-class counts.
    pub fn from_counts(counts: Vec<u32>) -> (r: Self)
        requires
            counts@.len() <= u32::MAX,
        ensures
            r@ == counts@,
    {
        Votes(counts)
    }

    /// The per-class counts.
    pub fn counts(&self) -> (r: &[u32])
        ensures
            r@ == self@,
    {
        self.0.as_slice()
    }

    /// Number of classes.
    pub fn ncat(&self) -> (r: usize)
        ensures
            r == self@.len(),
    {
        self.0.len()
    }

    /// Reads `ncat` little-endian 32-bit counts from `vals`.
    pub fn from_raw(vals: &[u8], ncat: u32) -> (r: Self)
        requires
            vals@.len() >= 4 * ncat,
        ensures
            r@ == words_of(vals@, ncat as nat),
    {
        let mut v: Vec<u32> = Vec::new();
        let mut e: usize = 0;
        let n = ncat as usize;
        let total = vals.len();
        while e < n
            invariant
                total == vals@.len(),
                n == ncat,
                e <= n,
                vals@.len() >= 4 * n,
                v@ == words_of(vals@, e as nat),
            decreases n - e,
        {
            let b0 = vals[4 * e];
            let b1 = vals[4 * e + 1];
            let b2 = vals[4 * e + 2];
            let b3 = vals[4 * e + 3];
            let w = (b0 as u32) | ((b1 as u32) << 8u32) | ((b2 as u32) << 16u32) | ((b3 as u32)
                << 24u32);
            v.push(w);
            proof {
                assert(v@ =~= words_of(vals@, (e + 1) as nat));
            }
            e = e + 1;
        }
        Votes(v)
    }

    /// The counts as little-endian 32-bit words, class after class.
    pub fn into_raw(&self) -> (r: Vec<u8>)
        ensures
            r@ == bytes_of(self@),
            r@.len() == 4 * self@.len(),
    {
        let mut out: Vec<u8> = Vec::new();
        let mut i: usize = 0;
        while i < self.0.len()
            invariant
                i <= self@.len(),
                out@ == bytes_of(self@.take(i as int)),
                out@.len() == 4 * i,
            decreases self@.len() - i,
        {
            let x = self.0[i];
            out.push((x & 0xff) as u8);
            out.push(((x >> 8u32) & 0xff) as u8);
            out.push(((x >> 16u32) & 0xff) as u8);
            out.push(((x >> 24u32) & 0xff) as u8);
            proof {
                assert(self@.take(i + 1).drop_last() =~= self@.take(i as int));
                assert(out@ =~= bytes_of(self@.take(i + 1)));
            }
            i = i + 1;
        }
        proof {
            assert(self@.take(self@.len() as int) =~= self@);
        }
        out
    }

    /// Fair-best collapse: feeds the counts in class order to a fair-best
    /// accumulator and gives the generator state after it.
    fn fair_collapse(&self, rng: &mut RfRng) -> (r: Option<(u64, usize)>)
        ensures
            match fair_run(vote_items(self@), old(rng).state(), old(rng).hop()).0 {
                None => r is None,
                Some((s, _, c)) => r == Some((s, c)),
            },
            final(rng).state() == fair_run(vote_items(self@), old(rng).state(), old(rng).hop()).1,
            final(rng).hop() == old(rng).hop(),
    {
        proof {
            use_type_invariant(self);
        }
        let ghost items = vote_items(self@);
        let mut best: FairBest<usize> = FairBest::new();
        let mut cls: usize = 0;
        proof {
            assert(items.take(0) =~= Seq::<(u64, usize)>::empty());
        }
        while cls < self.0.len()
            invariant
                cls <= self@.len(),
                self@.len() <= u32::MAX,
                items == vote_items(self@),
                rng.hop() == old(rng).hop(),
                (best.state(), rng.state()) == fair_run(
                    items.take(cls as int),
                    old(rng).state(),
                    old(rng).hop(),
                ),
                best.state() matches Some((_, hits, _)) ==> hits <= cls,
            decreases self@.len() - cls,
        {
            proof {
                assert(items.take(cls + 1).drop_last() =~= items.take(cls as int));
                assert(items.take(cls + 1).last() == (self@[cls as int] as u64, cls));
            }
            best.ingest(self.0[cls] as u64, cls, rng);
            proof {
                lemma_fair_step_hits(
                    fair_run(items.take(cls as int), old(rng).state(), old(rng).hop()).0,
                    self@[cls as int] as u64,
                    cls,
                    fair_run(items.take(cls as int), old(rng).state(), old(rng).hop()).1,
                    old(rng).hop(),
                    cls as nat,
                );
            }
            cls = cls + 1;
        }
        proof {
            assert(items.take(self@.len() as int) =~= items);
        }
        best.consume()
    }

    /// Majority class, ties broken fairly by `rng`; when no class has any vote
    /// the result is `u32::MAX` (a missing value marker).
    pub fn collapse_empty_na(&self, rng: &mut RfRng) -> (r: u32)
        ensures
            match fair_run(vote_items(self@), old(rng).state(), old(rng).hop()).0 {
                Some((s, _, c)) => if s > 0 {
                    r == c
                } else {
                    r == u32::MAX
                },
                None => r == u32::MAX,
            },
            r == u32::MAX <==> (self@.len() == 0 || forall|i: int| 0 <= i < self@.len() ==> #[trigger] self@[i] == 0),
            r != u32::MAX ==> r < self@.len() && forall|i: int| 0 <= i < self@.len() ==> #[trigger] self@[i] <= self@[r as int],
            final(rng).state() == fair_run(vote_items(self@), old(rng).state(), old(rng).hop()).1,
            final(rng).hop() == old(rng).hop(),
    {
        proof {
            use_type_invariant(self);
        }
        let res = self.fair_collapse(rng);
        proof {
            self.lemma_collapse_is_majority(old(rng).state(), old(rng).hop());
        }
        match res {
            Some((score, class)) => {
                if score > 0 {
                    class as u32
                } else {
                    u32::MAX
                }
            },
            None => u32::MAX,
        }
    }

    /// Majority class, ties broken fairly by `rng`; there must be at least one
    /// class.
    pub fn collapse_empty_random(&self, rng: &mut RfRng) -> (r: u32)
        requires
            self@.len() > 0,
        ensures
            fair_run(vote_items(self@), old(rng).state(), old(rng).hop()).0 matches Some((_, _, c))
                && r == c,
            r < self@.len(),
            forall|i: int| 0 <= i < self@.len() ==> #[trigger] self@[i] <= self@[r as int],
            final(rng).state() == fair_run(vote_items(self@), old(rng).state(), old(rng).hop()).1,
            final(rng).hop() == old(rng).hop(),
    {
        proof {
            use_type_invariant(self);
        }
        let res = self.fair_collapse(rng);
        proof {
            self.lemma_collapse_is_majority(old(rng).state(), old(rng).hop());
        }
        match res {
            Some((_, class)) => class as u32,
            None => 0,
        }
    }

    /// Majority law: the class a collapse keeps has the largest count.
    pub proof fn lemma_collapse_is_majority(&self, state: u64, hop: u64)
        requires
            self@.len() <= u32::MAX,
        ensures
            self@.len() == 0 ==> fair_run(vote_items(self@), state, hop).0 is None,
            self@.len() > 0 ==> (fair_run(vote_items(self@), state, hop).0 matches Some((s, _, c))
                && c < self@.len() && s == self@[c as int] && (forall|i: int|
                0 <= i < self@.len() ==> #[trigger] self@[i] <= self@[c as int])),
    {
        let items = vote_items(self@);
        if self@.len() > 0 {
            lemma_fair_run_is_best(items, state, hop);
            let (s, h, c) = fair_run(items, state, hop).0.unwrap();
            let w = choose|i: int| 0 <= i < items.len() && #[trigger] items[i] == (s, c);
            assert(items[w] == (self@[w] as u64, w as usize));
            assert forall|i: int| 0 <= i < self@.len() implies #[trigger] self@[i] <= self@[c as int] by {
                assert(items[i].0 <= max_score(items));
            }
        } else {
            assert(items.len() == 0);
        }
    }

}

/// A count after one more vote, wrapping around at `u32::MAX`.
pub open spec fn bump(c: u32) -> u32 {
    if c == u32::MAX {
        0
    } else {
        (c + 1) as u32
    }
}

/// Sum of two counts, wrapping around at `u32::MAX`.
pub open spec fn wrapped_sum(a: u32, b: u32) -> u32 {
    if a + b > u32::MAX {
        (a + b - 0x1_0000_0000int) as u32
    } else {
        (a + b) as u32
    }
}

impl VoteAggregator<u32> for Votes {
    type Model = Seq<u32>;

    open spec fn model(&self) -> Seq<u32> {
        self@
    }

    /// Only a vote for one of the classes can be counted.
    open spec fn accepts(state: Seq<u32>, v: u32) -> bool {
        v < state.len()
    }

    /// A vote for class `v` adds one to its count (`ingest_vote` takes only
    /// votes for one of the classes; this state is left unchanged otherwise).
    open spec fn ingested(state: Seq<u32>, v: u32) -> Seq<u32> {
        if v < state.len() {
            state.update(v as int, bump(state[v as int]))
        } else {
            state
        }
    }

    /// Counts are added class by class, over the classes both have.
    open spec fn merged(state: Seq<u32>, other: Seq<u32>) -> Seq<u32> {
        Seq::new(
            state.len(),
            |i: int|
                if i < other.len() {
                    wrapped_sum(state[i], other[i])
                } else {
                    state[i]
                },
        )
    }

    /// Counts one vote for class `v`.
    fn ingest_vote(&mut self, v: u32) {
        proof {
            use_type_invariant(&*self);
        }
        let i = v as usize;
        let mut counts: Vec<u32> = Vec::new();
        std::mem::swap(&mut counts, &mut self.0);
        let c = counts[i];
        let next = if c == u32::MAX {
            0
        } else {
            c + 1
        };
        counts.set(i, next);
        self.0 = counts;
    }

    /// Adds the counts of `other`, class by class (over the classes both have).
    fn merge(&mut self, other: &Self) {
        proof {
            use_type_invariant(&*self);
        }
        let n = if self.0.len() <= other.0.len() {
            self.0.len()
        } else {
            other.0.len()
        };
        let mut counts: Vec<u32> = Vec::new();
        std::mem::swap(&mut counts, &mut self.0);
        let mut i: usize = 0;
        while i < n
            invariant
                n <= old(self)@.len(),
                n <= other@.len(),
                n == old(self)@.len() || n == other@.len(),
                i <= n,
                counts@.len() == old(self)@.len(),
                counts@.len() <= u32::MAX,
                forall|j: int|
                    0 <= j < old(self)@.len() ==> #[trigger] counts@[j] == if j < i {
                        wrapped_sum(old(self)@[j], other@[j])
                    } else {
                        old(self)@[j]
                    },
            decreases n - i,
        {
            let c = counts[i].wrapping_add(other.0[i]);
            counts.set(i, c);
            i = i + 1;
        }
        self.0 = counts;
        proof {
            assert(self@ =~= Self::merged(old(self)@, other@));
        }
    }
}


/// Order law: counting two votes gives the same counts in either order.
pub proof fn lemma_ingest_commutes(s: Seq<u32>, v: u32, w: u32)
    ensures
        <Votes as VoteAggregator<u32>>::ingested(<Votes as VoteAggregator<u32>>::ingested(s, v), w)
            == <Votes as VoteAggregator<u32>>::ingested(<Votes as VoteAggregator<u32>>::ingested(s, w), v),
{
    let a = <Votes as VoteAggregator<u32>>::ingested(<Votes as VoteAggregator<u32>>::ingested(s, v), w);
    let b = <Votes as VoteAggregator<u32>>::ingested(<Votes as VoteAggregator<u32>>::ingested(s, w), v);
    assert(a =~= b);
}

/// Merge law: merging in counts that received one more vote is the same as
/// merging first and counting that vote afterwards (for counts over the same
/// classes): a merge works as if all the votes of the other aggregator had
/// been ingested.
pub proof fn lemma_merge_ingested(a: Seq<u32>, b: Seq<u32>, v: u32)
    requires
        a.len() == b.len(),
    ensures
        <Votes as VoteAggregator<u32>>::merged(a, <Votes as VoteAggregator<u32>>::ingested(b, v))
            == <Votes as VoteAggregator<u32>>::ingested(<Votes as VoteAggregator<u32>>::merged(a, b), v),
{
    let x = <Votes as VoteAggregator<u32>>::merged(a, <Votes as VoteAggregator<u32>>::ingested(b, v));
    let y = <Votes as VoteAggregator<u32>>::ingested(<Votes as VoteAggregator<u32>>::merged(a, b), v);
    assert forall|i: int| 0 <= i < a.len() implies x[i] == y[i] by {
        if i == v as int {
            assert(wrapped_sum(a[i], bump(b[i])) == bump(wrapped_sum(a[i], b[i])));
        }
    }
    assert(x =~= y);
}

/// Merging in the counts of a fresh aggregator changes nothing.
pub proof fn lemma_merge_fresh(a: Seq<u32>)
    ensures
        <Votes as VoteAggregator<u32>>::merged(a, Seq::new(a.len(), |i: int| 0u32)) == a,
{
    assert(<Votes as VoteAggregator<u32>>::merged(a, Seq::new(a.len(), |i: int| 0u32)) =~= a);
}

/// Counts after each `(vote, times)` pair of `items` was ingested `times`
/// times, in order, starting from `a`.
pub open spec fn ingest_all(a: Seq<u32>, items: Seq<(u32, nat)>) -> Seq<u32>
    decreases items.len(),
{
    if items.len() == 0 {
        a
    } else {
        ingest_n::<Votes, u32>(ingest_all(a, items.drop_last()), items.last().0, items.last().1)
    }
}

/// Number of votes for class `c` in `items`.
pub open spec fn vote_total(items: Seq<(u32, nat)>, c: int) -> nat
    decreases items.len(),
{
    if items.len() == 0 {
        0
    } else {
        vote_total(items.drop_last(), c) + if items.last().0 as int == c {
            items.last().1
        } else {
            0nat
        }
    }
}

proof fn lemma_ingest_n_counts(s: Seq<u32>, v: u32, n: nat)
    ensures
        ingest_n::<Votes, u32>(s, v, n).len() == s.len(),
        forall|c: int|
            0 <= c < s.len() ==> #[trigger] ingest_n::<Votes, u32>(s, v, n)[c] == (s[c] + if v as int
                == c {
                n as int
            } else {
                0int
            }) % 0x1_0000_0000int,
    decreases n,
{
    if n > 0 {
        let t = <Votes as VoteAggregator<u32>>::ingested(s, v);
        lemma_ingest_n_counts(t, v, (n - 1) as nat);
        assert forall|c: int| 0 <= c < s.len() implies #[trigger] ingest_n::<Votes, u32>(s, v, n)[c] == (s[c] + if v as int == c {
            n as int
        } else {
            0int
        }) % 0x1_0000_0000int by {
            assert(ingest_n::<Votes, u32>(s, v, n) == ingest_n::<Votes, u32>(t, v, (n - 1) as nat));
            if v as int == c {
                assert(t[c] == bump(s[c]));
                vstd::arithmetic::div_mod::lemma_add_mod_noop(t[c] as int, (n - 1) as int, 0x1_0000_0000int);
                vstd::arithmetic::div_mod::lemma_add_mod_noop(s[c] + 1, (n - 1) as int, 0x1_0000_0000int);
                assert((t[c] as int) == (s[c] + 1) % 0x1_0000_0000int);
                vstd::arithmetic::div_mod::lemma_mod_twice(s[c] + 1, 0x1_0000_0000int);
            } else {
                assert(t[c] == s[c]);
                vstd::arithmetic::div_mod::lemma_small_mod(s[c] as nat, 0x1_0000_0000nat);
            }
        }
    } else {
        assert forall|c: int| 0 <= c < s.len() implies #[trigger] ingest_n::<Votes, u32>(s, v, n)[c] == (s[c] + if v as int == c {
            n as int
        } else {
            0int
        }) % 0x1_0000_0000int by {
            vstd::arithmetic::div_mod::lemma_small_mod(s[c] as nat, 0x1_0000_0000nat);
        }
    }
}

proof fn lemma_ingest_all_counts(a: Seq<u32>, items: Seq<(u32, nat)>)
    ensures
        ingest_all(a, items).len() == a.len(),
        forall|c: int|
            0 <= c < a.len() ==> #[trigger] ingest_all(a, items)[c] == (a[c] + vote_total(items, c))
                % 0x1_0000_0000int,
    decreases items.len(),
{
    if items.len() == 0 {
        assert forall|c: int| 0 <= c < a.len() implies #[trigger] ingest_all(a, items)[c] == (a[c] + vote_total(items, c)) % 0x1_0000_0000int by {
            vstd::arithmetic::div_mod::lemma_small_mod(a[c] as nat, 0x1_0000_0000nat);
        }
    } else {
        let prev = ingest_all(a, items.drop_last());
        lemma_ingest_all_counts(a, items.drop_last());
        let (v, n) = items.last();
        lemma_ingest_n_counts(prev, v, n);
        assert forall|c: int| 0 <= c < a.len() implies #[trigger] ingest_all(a, items)[c] == (a[c] + vote_total(items, c)) % 0x1_0000_0000int by {
            let extra: int = if v as int == c { n as int } else { 0int };
            assert(ingest_all(a, items)[c] == (prev[c] + extra) % 0x1_0000_0000int);
            vstd::arithmetic::div_mod::lemma_add_mod_noop(a[c] + vote_total(items.drop_last(), c), extra, 0x1_0000_0000int);
            vstd::arithmetic::div_mod::lemma_mod_twice(extra, 0x1_0000_0000int);
            vstd::arithmetic::div_mod::lemma_add_mod_noop(prev[c] as int, extra, 0x1_0000_0000int);
            vstd::arithmetic::div_mod::lemma_mod_twice(a[c] + vote_total(items.drop_last(), c), 0x1_0000_0000int);
        }
    }
}

proof fn lemma_vote_total_concat(x: Seq<(u32, nat)>, y: Seq<(u32, nat)>, c: int)
    ensures
        vote_total(x + y, c) == vote_total(x, c) + vote_total(y, c),
    decreases y.len(),
{
    if y.len() == 0 {
        assert(x + y =~= x);
    } else {
        assert((x + y).drop_last() =~= x + y.drop_last());
        lemma_vote_total_concat(x, y.drop_last(), c);
    }
}

/// Parallel voting law: votes counted in two separate aggregators and merged
/// give the counts of one aggregator that received all of them, in either
/// order; so out-of-bag counts do not depend on how trees are shared between
/// threads.
pub proof fn lemma_parallel_votes(ncat: nat, x: Seq<(u32, nat)>, y: Seq<(u32, nat)>)
    ensures
        ({
            let fresh = Seq::new(ncat, |i: int| 0u32);
            &&& <Votes as VoteAggregator<u32>>::merged(ingest_all(fresh, x), ingest_all(fresh, y))
                == ingest_all(fresh, x + y)
            &&& ingest_all(fresh, x + y) == ingest_all(fresh, y + x)
        }),
{
    let fresh = Seq::new(ncat, |i: int| 0u32);
    lemma_ingest_all_counts(fresh, x);
    lemma_ingest_all_counts(fresh, y);
    lemma_ingest_all_counts(fresh, x + y);
    lemma_ingest_all_counts(fresh, y + x);
    let m = <Votes as VoteAggregator<u32>>::merged(ingest_all(fresh, x), ingest_all(fresh, y));
    assert forall|c: int| 0 <= c < ncat implies m[c] == #[trigger] ingest_all(fresh, x + y)[c] by {
        lemma_vote_total_concat(x, y, c);
        let tx = vote_total(x, c) as int;
        let ty = vote_total(y, c) as int;
        vstd::arithmetic::div_mod::lemma_add_mod_noop(tx, ty, 0x1_0000_0000int);
        assert(ingest_all(fresh, x)[c] == tx % 0x1_0000_0000int);
        assert(ingest_all(fresh, y)[c] == ty % 0x1_0000_0000int);
        let sx = ingest_all(fresh, x)[c];
        let sy = ingest_all(fresh, y)[c];
        assert(m[c] == wrapped_sum(sx, sy));
        if sx + sy > u32::MAX {
            vstd::arithmetic::div_mod::lemma_mod_sub_multiples_vanish(sx + sy, 0x1_0000_0000int);
            vstd::arithmetic::div_mod::lemma_small_mod((sx + sy - 0x1_0000_0000int) as nat, 0x1_0000_0000nat);
        } else {
            vstd::arithmetic::div_mod::lemma_small_mod((sx + sy) as nat, 0x1_0000_0000nat);
        }
    }
    assert(m =~= ingest_all(fresh, x + y));
    assert forall|c: int| 0 <= c < ncat implies #[trigger] ingest_all(fresh, x + y)[c] == ingest_all(fresh, y + x)[c] by {
        lemma_vote_total_concat(x, y, c);
        lemma_vote_total_concat(y, x, c);
    }
    assert(ingest_all(fresh, x + y) =~= ingest_all(fresh, y + x));
}

/// Encoding law: reading back the little-endian encoding of the counts gives
/// the counts again.
pub proof fn lemma_raw_round_trip(s: Seq<u32>)
    ensures
        bytes_of(s).len() == 4 * s.len(),
        words_of(bytes_of(s), s.len()) == s,
    decreases s.len(),
{
    if s.len() > 0 {
        let p = s.drop_last();
        lemma_raw_round_trip(p);
        let x = s.last();
        let b = bytes_of(s);
        assert(b == bytes_of(p) + le_bytes(x));
        lemma_le_word_of_bytes(x);
        let w = words_of(b, s.len());
        assert forall|e: int| 0 <= e < s.len() implies #[trigger] w[e] == s[e] by {
            if e < p.len() {
                assert(b[4 * e] == bytes_of(p)[4 * e]);
                assert(b[4 * e + 1] == bytes_of(p)[4 * e + 1]);
                assert(b[4 * e + 2] == bytes_of(p)[4 * e + 2]);
                assert(b[4 * e + 3] == bytes_of(p)[4 * e + 3]);
                assert(words_of(bytes_of(p), p.len())[e] == p[e]);
            } else {
                assert(b[4 * e] == le_bytes(x)[0]);
                assert(b[4 * e + 1] == le_bytes(x)[1]);
                assert(b[4 * e + 2] == le_bytes(x)[2]);
                assert(b[4 * e + 3] == le_bytes(x)[3]);
            }
        }
        assert(w =~= s);
    } else {
        assert(words_of(bytes_of(s), 0) =~= s);
    }
}

proof fn lemma_le_word_of_bytes(x: u32)
    ensures
        le_word(le_bytes(x)[0], le_bytes(x)[1], le_bytes(x)[2], le_bytes(x)[3]) == x,
{
    let b0 = (x & 0xff) as u8;
    let b1 = ((x >> 8u32) & 0xff) as u8;
    let b2 = ((x >> 16u32) & 0xff) as u8;
    let b3 = ((x >> 24u32) & 0xff) as u8;
    assert((b0 as u32) | ((b1 as u32) << 8u32) | ((b2 as u32) << 16u32) | ((b3 as u32) << 24u32)
        == x) by (bit_vector)
        requires
            b0 == (x & 0xff) as u8,
            b1 == ((x >> 8u32) & 0xff) as u8,
            b2 == ((x >> 16u32) & 0xff) as u8,
            b3 == ((x >> 24u32) & 0xff) as u8,
    ;
}

/// Counting a class vote never changes which votes a class-vote aggregator
/// accepts: the number of classes stays.
pub proof fn lemma_votes_keep_acceptance()
    ensures
        acceptance_kept::<Votes, u32>(),
{
}

} // verus!
