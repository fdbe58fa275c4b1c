use vstd::prelude::*;
use vstd::arithmetic::div_mod::{lemma_add_mod_noop, lemma_mod_twice, lemma_small_mod};

verus! {

/// Multiplier of the 64-bit linear congruential state transition.
pub const PCG_MULTIPLIER: u64 = 6364136223846793005u64;

/// Number of rejected draws after which `up_to` accepts the next draw anyway;
/// at one draw per nanosecond reaching it takes centuries.
pub const REJECTION_BUDGET: u64 = 0xffff_ffff_ffff_ffffu64;

/// One step of the generator state: `state * PCG_MULTIPLIER + hop` modulo 2^64.
pub open spec fn lcg_next(state: u64, hop: u64) -> u64 {
    ((state as int * PCG_MULTIPLIER as int + hop as int) % 0x1_0000_0000_0000_0000int) as u64
}

/// Right rotation of a 32-bit word by `r < 32` bits.
pub open spec fn rotr32(x: u32, r: u32) -> u32 {
    if r == 0 {
        x
    } else {
        (x >> r) | (x << ((32 - r) as u32))
    }
}

/// The 32-bit output the generator derives from the state it is about to leave.
pub open spec fn pcg_output(prv: u64) -> u32 {
    rotr32((((prv >> 18u64) ^ prv) >> 27u64) as u32, (prv >> 59u64) as u32)
}

/// State after `k` steps.
pub open spec fn lcg_iter(state: u64, hop: u64, k: nat) -> u64
    decreases k,
{
    if k == 0 {
        state
    } else {
        lcg_next(lcg_iter(state, hop, (k - 1) as nat), hop)
    }
}

/// Rejection threshold used by `up_to`: `2^BITS mod n`, computed as `(0 - n) mod n`
/// in the machine word.
pub open spec fn rejection_threshold(n: usize) -> usize {
    (vstd::wrapping::usize_specs::wrapping_sub(0usize, n) % n) as usize
}

/// One draw of `up_to` for the bound `n`: a single 32-bit output, or, when `n`
/// exceeds `u32::MAX`, two consecutive outputs joined into a 64-bit value with the
/// first one as the high half; paired with the state after the draw.
pub open spec fn draw(state: u64, hop: u64, n: usize) -> (int, u64) {
    if n > u32::MAX {
        (
            pcg_output(state) as int * 0x1_0000_0000int + pcg_output(lcg_next(state, hop)) as int,
            lcg_next(lcg_next(state, hop), hop),
        )
    } else {
        (pcg_output(state) as int, lcg_next(state, hop))
    }
}

/// Rejection sampling from `state`: the first draw not below `th` (or the draw at
/// which the budget runs out) reduced modulo `n`, together with the state after it.
pub open spec fn reject_from(state: u64, hop: u64, n: usize, th: usize, budget: nat) -> (usize, u64)
    decreases budget,
{
    let (p, next) = draw(state, hop, n);
    if p >= th || budget == 0 {
        ((p % n as int) as usize, next)
    } else {
        reject_from(next, hop, n, th, (budget - 1) as nat)
    }
}

/// Whatever the state, rejection sampling gives a value below `n`.
pub proof fn lemma_reject_from_below(state: u64, hop: u64, n: usize, th: usize, budget: nat)
    requires
        n > 0,
    ensures
        reject_from(state, hop, n, th, budget).0 < n,
    decreases budget,
{
    let (p, next) = draw(state, hop, n);
    if !(p >= th || budget == 0) {
        lemma_reject_from_below(next, hop, n, th, (budget - 1) as nat);
    }
}

/// Value and next state produced by `up_to(n)` from the given generator state.
#[verifier::opaque]
pub open spec fn up_to_spec(state: u64, hop: u64, n: usize) -> (usize, u64) {
    if n == 1 {
        (0usize, state)
    } else {
        reject_from(state, hop, n, rejection_threshold(n), REJECTION_BUDGET as nat)
    }
}

/// Built-in pseudo-random generator: a 64-bit-state PCG with 32-bit output.
///
/// `hop` is the stream number (the increment of the state transition); it is
/// never zero.
pub struct RfRng {
    state: u64,
    hop: u64,
}

impl RfRng {
    #[verifier::type_invariant]
    spec fn hop_nonzero(self) -> bool {
        self.hop > 0
    }

    /// Current generator state.
    pub closed spec fn state(&self) -> u64 {
        self.state
    }

    /// Stream number of the generator.
    pub closed spec fn hop(&self) -> u64 {
        self.hop
    }

    /// Get a random u32.
    pub fn get_u32(&mut self) -> (r: u32)
        ensures
            r == pcg_output(old(self).state()),
            final(self).state() == lcg_next(old(self).state(), old(self).hop()),
            final(self).hop() == old(self).hop(),
    {
        proof {
            use_type_invariant(&*self);
        }
        let prv = self.state;
        let next = prv.wrapping_mul(PCG_MULTIPLIER).wrapping_add(self.hop);
        proof {
            lemma_lcg_step(prv, self.hop);
        }
        self.state = next;
        let xorshifted = (((prv >> 18u64) ^ prv) >> 27u64) as u32;
        let rot = (prv >> 59u64) as u32;
        proof {
            assert((prv >> 59u64) < 32) by (bit_vector);
        }
        rotate_right_u32(xorshifted, rot)
    }

    /// Get a random u64 made of two consecutive 32-bit draws, the first one
    /// giving the high half.
    pub fn get_u64(&mut self) -> (r: u64)
        ensures
            r == pcg_output(old(self).state()) as int * 0x1_0000_0000int + pcg_output(
                lcg_next(old(self).state(), old(self).hop()),
            ) as int,
            final(self).state() == lcg_iter(old(self).state(), old(self).hop(), 2),
            final(self).hop() == old(self).hop(),
    {
        let hi = self.get_u32();
        let lo = self.get_u32();
        proof {
            assert(lcg_iter(old(self).state(), old(self).hop(), 2) == lcg_next(
                lcg_next(old(self).state(), old(self).hop()),
                old(self).hop(),
            )) by {
                reveal_with_fuel(lcg_iter, 3);
            }
            assert(((hi as u64) << 32u64) == hi as int * 0x1_0000_0000int) by (bit_vector);
        }
        ((hi as u64) << 32u64) + (lo as u64)
    }

    /// Get an integer value from `[0; up_to)` by rejection sampling; a bound above
    /// `u32::MAX` is served from 64-bit draws made of two 32-bit outputs.
    pub fn up_to(&mut self, up_to: usize) -> (r: usize)
        requires
            up_to > 0,
        ensures
            r < up_to,
            (r, final(self).state()) == up_to_spec(old(self).state(), old(self).hop(), up_to),
            final(self).hop() == old(self).hop(),
    {
        proof {
            reveal(up_to_spec);
        }
        if up_to == 1 {
            0
        } else {
            let thresh = 0usize.wrapping_sub(up_to) % up_to;
            let mut budget: u64 = REJECTION_BUDGET;
            let ghost hop = self.hop();
            let ghost th = rejection_threshold(up_to);
            loop
                invariant
                    self.hop() == hop,
                    hop == old(self).hop(),
                    thresh == th,
                    up_to > 1,
                    reject_from(self.state(), hop, up_to, th, budget as nat) == up_to_spec(
                        old(self).state(),
                        hop,
                        up_to,
                    ),
                decreases budget,
            {
                let ghost before = self.state();
                let hi = self.get_u32();
                let p: usize = if (up_to as u64) > 0xffff_ffffu64 {
                    let lo = self.get_u32();
                    proof {
                        assert(usize::MAX as int == 0xffff_ffff_ffff_ffffint);
                    }
                    ((hi as u64) * 0x1_0000_0000u64 + lo as u64) as usize
                } else {
                    hi as usize
                };
                assert((p as int, self.state()) == draw(before, hop, up_to));
                if p >= thresh || budget == 0 {
                    return p % up_to;
                }
                budget = budget - 1;
                proof {
                    assert(reject_from(before, hop, up_to, th, (budget + 1) as nat) == reject_from(
                        self.state(),
                        hop,
                        up_to,
                        th,
                        budget as nat,
                    ));
                }
            }
        }
    }

    /// Create the generator from a seed and a stream number (`hop`, non-zero);
    /// the state is advanced twice before the generator is handed out.
    pub fn from_seed(seed: u64, hop: u64) -> (r: Self)
        requires
            hop > 0,
        ensures
            r.state() == lcg_iter(seed, hop, 2),
            r.hop() == hop,
    {
        let mut ans = RfRng { state: seed, hop };
        ans.get_u32();
        ans.get_u32();
        proof {
            reveal_with_fuel(lcg_iter, 3);
        }
        ans
    }
}

/// Reproducibility law: generators created from the same seed and stream
/// number are the same value, so every sequence of calls on them gives the same
/// results (each call's result and next state are fixed by the state and
/// stream number).
pub proof fn lemma_same_seed_same_generator(a: RfRng, b: RfRng, seed: u64, hop: u64)
    requires
        a.state() == lcg_iter(seed, hop, 2),
        a.hop() == hop,
        b.state() == lcg_iter(seed, hop, 2),
        b.hop() == hop,
    ensures
        a == b,
{
}

proof fn lemma_offsets_differ(x: int, h1: int, h2: int)
    requires
        0 <= h1 < 0x8000_0000_0000_0000int,
        0 <= h2 < 0x8000_0000_0000_0000int,
        h1 != h2,
    ensures
        (x + h1 * 6364136223846793006int) % 0x1_0000_0000_0000_0000int != (x + h2 * 6364136223846793006int)
            % 0x1_0000_0000_0000_0000int,
{
    let n: int = 0x1_0000_0000_0000_0000int;
    let p: int = 0x8000_0000_0000_0000int;
    let o: int = 3182068111923396503int;
    let inv: int = 13130172722378420263int;
    let r: int = 2264958182158202593int;
    let k: int = 6364136223846793006int;
    if (x + h1 * k) % n == (x + h2 * k) % n {
        let d: int = h1 - h2;
        vstd::arithmetic::div_mod::lemma_mod_equivalence(x + h1 * k, x + h2 * k, n);
        assert((x + h1 * k) - (x + h2 * k) == d * k) by (nonlinear_arith)
            requires
                d == h1 - h2,
        ;
        assert((d * k) % n == 0);
        vstd::arithmetic::div_mod::lemma_fundamental_div_mod(d * k, n);
        let q: int = (d * k) / n;
        assert(d * k == n * q);
        assert(d * o == q * p) by (nonlinear_arith)
            requires
                d * k == n * q,
                k == 2 * o,
                n == 2 * p,
        ;
        assert(o * inv == 1 + r * n);
        assert(d == (q * inv - 2 * d * r) * p) by (nonlinear_arith)
            requires
                d * o == q * p,
                o * inv == 1 + r * n,
                n == 2 * p,
        ;
        let t: int = q * inv - 2 * d * r;
        assert(t == 0) by (nonlinear_arith)
            requires
                d == t * p,
                -p < d < p,
                p > 0,
        ;
        assert(false);
    }
}

proof fn lemma_two_steps(seed: u64, hop: u64)
    ensures
        lcg_iter(seed, hop, 2) as int == ((seed as int * PCG_MULTIPLIER as int * PCG_MULTIPLIER as int)
            % 0x1_0000_0000_0000_0000int + hop as int * 6364136223846793006int) % 0x1_0000_0000_0000_0000int,
{
    let n: int = 0x1_0000_0000_0000_0000int;
    let m: int = PCG_MULTIPLIER as int;
    let h: int = hop as int;
    let s: int = seed as int;
    reveal_with_fuel(lcg_iter, 3);
    let y: int = (s * m + h) % n;
    assert(lcg_iter(seed, hop, 2) as int == (y * m + h) % n);
    vstd::arithmetic::div_mod::lemma_mul_mod_noop_left(s * m + h, m, n);
    vstd::arithmetic::div_mod::lemma_add_mod_noop(y * m, h, n);
    vstd::arithmetic::div_mod::lemma_add_mod_noop((s * m + h) * m, h, n);
    vstd::arithmetic::div_mod::lemma_mod_twice(h, n);
    assert((y * m + h) % n == ((s * m + h) * m + h) % n);
    assert((s * m + h) * m + h == s * m * m + h * 6364136223846793006int) by (nonlinear_arith)
        requires
            m == 6364136223846793005int,
    ;
    vstd::arithmetic::div_mod::lemma_add_mod_noop(s * m * m, h * 6364136223846793006int, n);
    vstd::arithmetic::div_mod::lemma_add_mod_noop((s * m * m) % n, h * 6364136223846793006int, n);
    vstd::arithmetic::div_mod::lemma_mod_twice(s * m * m, n);
}

/// Stream-separation law: two generators seeded alike on different streams
/// below 2^63 (as `from_seed` makes them) start in different states.
pub proof fn lemma_streams_start_apart(seed: u64, h1: u64, h2: u64)
    requires
        h1 < 0x8000_0000_0000_0000u64,
        h2 < 0x8000_0000_0000_0000u64,
        h1 != h2,
    ensures
        lcg_iter(seed, h1, 2) != lcg_iter(seed, h2, 2),
{
    let n: int = 0x1_0000_0000_0000_0000int;
    let a: int = (seed as int * PCG_MULTIPLIER as int * PCG_MULTIPLIER as int) % n;
    assert(0 <= a < n) by {
        vstd::arithmetic::div_mod::lemma_mod_bound(seed as int * PCG_MULTIPLIER as int * PCG_MULTIPLIER as int, n);
    }
    lemma_two_steps(seed, h1);
    lemma_two_steps(seed, h2);
    lemma_offsets_differ(a, h1 as int, h2 as int);
}

/// Rotate a 32-bit word right by `r < 32` bits.
fn rotate_right_u32(x: u32, r: u32) -> (res: u32)
    requires
        r < 32,
    ensures
        res == rotr32(x, r),
{
    if r == 0 {
        x
    } else {
        (x >> r) | (x << (32 - r))
    }
}

proof fn lemma_lcg_step(state: u64, hop: u64)
    ensures
        vstd::wrapping::u64_specs::wrapping_add(
            vstd::wrapping::u64_specs::wrapping_mul(state, PCG_MULTIPLIER),
            hop,
        ) == lcg_next(state, hop),
{
    let m: int = 0x1_0000_0000_0000_0000int;
    let prod: int = state as int * PCG_MULTIPLIER as int;
    let x: int = prod % m;
    assert(0 <= x < m);
    lemma_add_mod_noop(prod, hop as int, m);
    lemma_small_mod(hop as nat, m as nat);
    lemma_mod_twice(prod, m);
    assert((x + hop as int) % m == (prod + hop as int) % m);
    if x + hop as int >= m {
        assert((x + hop as int - m) % m == (x + hop as int) % m) by {
            vstd::arithmetic::div_mod::lemma_mod_sub_multiples_vanish(x + hop as int, m);
        }
        lemma_small_mod((x + hop as int - m) as nat, m as nat);
    } else {
        lemma_small_mod((x + hop as int) as nat, m as nat);
    }
}

} // verus!
