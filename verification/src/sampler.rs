use vstd::prelude::*;

use crate::mask::swap_at;
use crate::rfinput::{FeatureSampler, RfInput};
use crate::rng::{up_to_spec, RfRng};

verus! {

/// Fisher-Yates feature sampler: draws features without replacement until the
/// next reload.
pub struct FYSampler {
    mixed: Vec<usize>,
    left: usize,
}

impl FYSampler {
    #[verifier::type_invariant]
    spec fn is_permutation(self) -> bool {
        &&& self.left <= self.mixed@.len()
        &&& forall|i: int| 0 <= i < self.mixed@.len() ==> #[trigger] self.mixed@[i] < self.mixed@.len()
        &&& forall|i: int, j: int|
            0 <= i < j < self.mixed@.len() ==> self.mixed@[i] != self.mixed@[j]
    }

    /// Current arrangement of the features; those at positions `left()..` were
    /// drawn since the last reload, the latest first.
    pub closed spec fn order(&self) -> Seq<usize> {
        self.mixed@
    }

    /// Number of features that can still be drawn before the next reload.
    pub closed spec fn left(&self) -> nat {
        self.left as nat
    }

    /// A sampler over the features `0..input.feature_count()`, all available.
    pub fn new<I: RfInput>(input: &I) -> (r: Self)
        ensures
            r.order() == Seq::new(input.n_features(), |i: int| i as usize),
            r.left() == input.n_features(),
    {
        let n = input.feature_count();
        let mixed = identity(n);
        FYSampler { mixed, left: n }
    }

    /// Draws one of the features still available: the one at a position picked
    /// by `rng.up_to(left)`, which is then swapped to the end of the available
    /// range and leaves it.
    pub fn random_feature(&mut self, rng: &mut RfRng) -> (r: usize)
        requires
            old(self).left() > 0,
        ensures
            ({
                let (sel, next) = up_to_spec(old(rng).state(), old(rng).hop(), old(self).left() as usize);
                &&& r == old(self).order()[sel as int]
                &&& final(self).order() == swap_at(old(self).order(), sel as int, old(self).left() - 1)
                &&& final(rng).state() == next
            }),
            final(rng).hop() == old(rng).hop(),
            final(self).left() == old(self).left() - 1,
            final(self).order()[final(self).left() as int] == r,
            forall|i: int|
                final(self).left() < i < final(self).order().len() ==> #[trigger] final(self).order()[i]
                    != r,
            final(self).order().subrange(old(self).left() as int, old(self).order().len() as int)
                == old(self).order().subrange(old(self).left() as int, old(self).order().len() as int),
    {
        proof {
            use_type_invariant(&*self);
        }
        let sel = rng.up_to(self.left);
        let ans = self.mixed[sel];
        let last = self.left - 1;
        let other = self.mixed[last];
        let mut taken = FYSampler { mixed: Vec::new(), left: 0 };
        std::mem::swap(&mut taken, self);
        let FYSampler { mixed: mut mixed, left: _ } = taken;
        let ghost before = mixed@;
        mixed.set(sel, other);
        mixed.set(last, ans);
        proof {
            assert(mixed@ =~= swap_at(before, sel as int, last as int));
            assert forall|i: int, j: int| 0 <= i < j < mixed@.len() implies mixed@[i] != mixed@[j] by {
                let bi = if i == last as int { sel as int } else if i == sel as int { last as int } else { i };
                let bj = if j == last as int { sel as int } else if j == sel as int { last as int } else { j };
                assert(mixed@[i] == before[bi]);
                assert(mixed@[j] == before[bj]);
            }
            assert forall|i: int| 0 <= i < mixed@.len() implies #[trigger] mixed@[i] < mixed@.len() by {
                let bi = if i == last as int { sel as int } else if i == sel as int { last as int } else { i };
                assert(mixed@[i] == before[bi]);
            }
            assert(mixed@.subrange(last + 1, before.len() as int) =~= before.subrange(
                last + 1,
                before.len() as int,
            ));
        }
        *self = FYSampler { mixed, left: last };
        ans
    }

    /// Makes all features available again.
    pub fn reload(&mut self)
        ensures
            final(self).order() == old(self).order(),
            final(self).left() == old(self).order().len(),
    {
        proof {
            use_type_invariant(&*self);
        }
        self.left = self.mixed.len();
    }

    /// Restores the initial arrangement `0..n` and makes all features available.
    pub fn reset(&mut self)
        ensures
            final(self).order() == Seq::new(old(self).order().len(), |i: int| i as usize),
            final(self).left() == old(self).order().len(),
    {
        let n = self.mixed.len();
        let mixed = identity(n);
        *self = FYSampler { mixed, left: n };
    }
}

/// The vector `0..n`.
fn identity(n: usize) -> (r: Vec<usize>)
    ensures
        r@ == Seq::new(n as nat, |i: int| i as usize),
        forall|i: int| 0 <= i < r@.len() ==> #[trigger] r@[i] < r@.len(),
        forall|i: int, j: int| 0 <= i < j < r@.len() ==> r@[i] != r@[j],
{
    let mut v: Vec<usize> = Vec::with_capacity(n);
    let mut i: usize = 0;
    while i < n
        invariant
            i <= n,
            v@ == Seq::new(i as nat, |j: int| j as usize),
        decreases n - i,
    {
        v.push(i);
        i = i + 1;
    }
    v
}

impl FeatureSampler<usize> for FYSampler {
    /// The arrangement of the features and how many are still available.
    type Model = (Seq<usize>, nat);

    closed spec fn model(&self) -> (Seq<usize>, nat) {
        (self.order(), self.left())
    }

    closed spec fn available(&self) -> nat {
        self.left as nat
    }

    closed spec fn total(&self) -> nat {
        self.mixed@.len()
    }

    open spec fn drawn(m: (Seq<usize>, nat), state: u64, hop: u64) -> (usize, (Seq<usize>, nat), u64) {
        let (sel, next) = up_to_spec(state, hop, m.1 as usize);
        (m.0[sel as int], (swap_at(m.0, sel as int, m.1 - 1), (m.1 - 1) as nat), next)
    }

    open spec fn reloaded(m: (Seq<usize>, nat)) -> (Seq<usize>, nat) {
        (m.0, m.0.len())
    }

    open spec fn restarted(total: nat) -> (Seq<usize>, nat) {
        (Seq::new(total, |i: int| i as usize), total)
    }

    /// Draws the feature at the position picked by `rng.up_to(left)`, which
    /// is then swapped to the end of the available range and leaves it.
    fn random_feature(&mut self, rng: &mut RfRng) -> (r: usize) {
        FYSampler::random_feature(self, rng)
    }

    fn reload(&mut self) {
        FYSampler::reload(self)
    }

    fn reset(&mut self) {
        FYSampler::reset(self)
    }
}

} // verus!
