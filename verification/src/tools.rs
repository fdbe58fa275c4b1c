use vstd::prelude::*;

verus! {

/// Floor of the mean of two 32-bit integers, computed without overflow.
pub open spec fn floor_mean(a: int, b: int) -> int {
    (a + b) / 2
}


/// Midpoint of two integers rounded towards negative infinity, i.e.
/// `floor((a + b) / 2)`; this is the threshold used for integer pivots.
pub fn midpoint(a: i32, b: i32) -> (r: i32)
    ensures
        r == floor_mean(a as int, b as int),
{
    proof {
        lemma_midpoint_i32(a, b);
    }
    ((a ^ b) >> 1u32) + (a & b)
}

/// Integer types with a midpoint threshold: the mean of two values rounded
/// towards negative infinity, computed without intermediate overflow.
pub trait MidpointThreshold: Sized {
    fn midpoint_threshold(self, b: Self) -> Self;
}

proof fn lemma_midpoint_i8(a: i8, b: i8)
    by (bit_vector)
    ensures
        ((a ^ b) >> 1u32) + (a & b) == (a + b) / 2,
        i8::MIN <= ((a ^ b) >> 1u32) + (a & b) <= i8::MAX,
{
}

impl MidpointThreshold for i8 {
    fn midpoint_threshold(self, b: i8) -> (r: i8)
        ensures
            r == floor_mean(self as int, b as int),
    {
        proof {
            lemma_midpoint_i8(self, b);
        }
        ((self ^ b) >> 1u32) + (self & b)
    }
}

proof fn lemma_midpoint_i16(a: i16, b: i16)
    by (bit_vector)
    ensures
        ((a ^ b) >> 1u32) + (a & b) == (a + b) / 2,
        i16::MIN <= ((a ^ b) >> 1u32) + (a & b) <= i16::MAX,
{
}

impl MidpointThreshold for i16 {
    fn midpoint_threshold(self, b: i16) -> (r: i16)
        ensures
            r == floor_mean(self as int, b as int),
    {
        proof {
            lemma_midpoint_i16(self, b);
        }
        ((self ^ b) >> 1u32) + (self & b)
    }
}

proof fn lemma_midpoint_i32(a: i32, b: i32)
    by (bit_vector)
    ensures
        ((a ^ b) >> 1u32) + (a & b) == (a + b) / 2,
        i32::MIN <= ((a ^ b) >> 1u32) + (a & b) <= i32::MAX,
{
}

impl MidpointThreshold for i32 {
    fn midpoint_threshold(self, b: i32) -> (r: i32)
        ensures
            r == floor_mean(self as int, b as int),
    {
        proof {
            lemma_midpoint_i32(self, b);
        }
        ((self ^ b) >> 1u32) + (self & b)
    }
}

proof fn lemma_midpoint_i64(a: i64, b: i64)
    by (bit_vector)
    ensures
        ((a ^ b) >> 1u32) + (a & b) == (a + b) / 2,
        i64::MIN <= ((a ^ b) >> 1u32) + (a & b) <= i64::MAX,
{
}

impl MidpointThreshold for i64 {
    fn midpoint_threshold(self, b: i64) -> (r: i64)
        ensures
            r == floor_mean(self as int, b as int),
    {
        proof {
            lemma_midpoint_i64(self, b);
        }
        ((self ^ b) >> 1u32) + (self & b)
    }
}

proof fn lemma_midpoint_u8(a: u8, b: u8)
    by (bit_vector)
    ensures
        ((a ^ b) >> 1u32) + (a & b) == (a + b) / 2,
        u8::MIN <= ((a ^ b) >> 1u32) + (a & b) <= u8::MAX,
{
}

impl MidpointThreshold for u8 {
    fn midpoint_threshold(self, b: u8) -> (r: u8)
        ensures
            r == floor_mean(self as int, b as int),
    {
        proof {
            lemma_midpoint_u8(self, b);
        }
        ((self ^ b) >> 1u32) + (self & b)
    }
}

proof fn lemma_midpoint_u16(a: u16, b: u16)
    by (bit_vector)
    ensures
        ((a ^ b) >> 1u32) + (a & b) == (a + b) / 2,
        u16::MIN <= ((a ^ b) >> 1u32) + (a & b) <= u16::MAX,
{
}

impl MidpointThreshold for u16 {
    fn midpoint_threshold(self, b: u16) -> (r: u16)
        ensures
            r == floor_mean(self as int, b as int),
    {
        proof {
            lemma_midpoint_u16(self, b);
        }
        ((self ^ b) >> 1u32) + (self & b)
    }
}

proof fn lemma_midpoint_u32(a: u32, b: u32)
    by (bit_vector)
    ensures
        ((a ^ b) >> 1u32) + (a & b) == (a + b) / 2,
        u32::MIN <= ((a ^ b) >> 1u32) + (a & b) <= u32::MAX,
{
}

impl MidpointThreshold for u32 {
    fn midpoint_threshold(self, b: u32) -> (r: u32)
        ensures
            r == floor_mean(self as int, b as int),
    {
        proof {
            lemma_midpoint_u32(self, b);
        }
        ((self ^ b) >> 1u32) + (self & b)
    }
}

proof fn lemma_midpoint_u64(a: u64, b: u64)
    by (bit_vector)
    ensures
        ((a ^ b) >> 1u32) + (a & b) == (a + b) / 2,
        u64::MIN <= ((a ^ b) >> 1u32) + (a & b) <= u64::MAX,
{
}

impl MidpointThreshold for u64 {
    fn midpoint_threshold(self, b: u64) -> (r: u64)
        ensures
            r == floor_mean(self as int, b as int),
    {
        proof {
            lemma_midpoint_u64(self, b);
        }
        ((self ^ b) >> 1u32) + (self & b)
    }
}

/// Whether the pairs are in increasing order of their first component.
pub open spec fn sorted_by_key(s: Seq<(i32, u32)>) -> bool {
    forall|i: int, j: int| 0 <= i < j < s.len() ==> s[i].0 <= s[j].0
}

/// Sorts the pairs with `slice::sort_unstable`, whose documentation promises
/// that the slice ends up in ascending order (pairs compare by their first,
/// then their second component) holding the same elements; this contract
/// claims that result, ordered by the first component.
#[verifier::external_body]
fn sort_pairs(v: &mut Vec<(i32, u32)>)
    ensures
        final(v)@.to_multiset() == old(v)@.to_multiset(),
        sorted_by_key(final(v)@),
{
    v.sort_unstable();
}

/// The positions `0..x.len()` ordered by the values they hold (positions
/// holding equal values in any order).
pub fn ordering_vector(x: &[i32]) -> (r: Vec<u32>)
    requires
        x@.len() <= u32::MAX,
    ensures
        r@.len() == x@.len(),
        forall|i: int| 0 <= i < r@.len() ==> #[trigger] r@[i] < x@.len(),
        forall|p: int| 0 <= p < x@.len() ==> #[trigger] r@.contains(p as u32),
        forall|i: int, j: int| 0 <= i < j < r@.len() ==> x@[r@[i] as int] <= x@[r@[j] as int],
{
    let n = x.len();
    let mut pairs: Vec<(i32, u32)> = Vec::with_capacity(n);
    let mut i: usize = 0;
    while i < n
        invariant
            i <= n,
            n == x@.len(),
            n <= u32::MAX,
            pairs@ == Seq::new(i as nat, |k: int| (x@[k], k as u32)),
        decreases n - i,
    {
        pairs.push((x[i], i as u32));
        i = i + 1;
    }
    let ghost before = pairs@;
    sort_pairs(&mut pairs);
    let mut out: Vec<u32> = Vec::with_capacity(n);
    let mut k: usize = 0;
    proof {
        vstd::seq_lib::to_multiset_len(pairs@);
        vstd::seq_lib::to_multiset_len(before);
    }
    while k < n
        invariant
            k <= n,
            n == x@.len(),
            pairs@.len() == n,
            out@ == pairs@.take(k as int).map_values(|p: (i32, u32)| p.1),
        decreases n - k,
    {
        out.push(pairs[k].1);
        proof {
            assert(pairs@.take(k + 1).map_values(|p: (i32, u32)| p.1) =~= pairs@.take(k as int).map_values(|p: (i32, u32)| p.1).push(pairs@[k as int].1));
        }
        k = k + 1;
    }
    proof {
        assert(pairs@.take(n as int) =~= pairs@);
        lemma_pairs_index(before, pairs@, x@);
        assert forall|p: int| 0 <= p < x@.len() implies #[trigger] out@.contains(p as u32) by {
            let e = (x@[p], p as u32);
            assert(before[p] == e);
            vstd::seq_lib::to_multiset_contains(before, e);
            vstd::seq_lib::to_multiset_contains(pairs@, e);
            let i = choose|i: int| 0 <= i < pairs@.len() && pairs@[i] == e;
            assert(out@[i] == p as u32);
        }
    }
    out
}

/// Each sorted pair holds a position and the value at it.
proof fn lemma_pairs_index(before: Seq<(i32, u32)>, after: Seq<(i32, u32)>, x: Seq<i32>)
    requires
        before == Seq::new(x.len(), |k: int| (x[k], k as u32)),
        x.len() <= u32::MAX,
        after.to_multiset() == before.to_multiset(),
    ensures
        forall|i: int| 0 <= i < after.len() ==> (#[trigger] after[i]).1 < x.len() && after[i].0 == x[after[i].1 as int],
{
    assert forall|i: int| 0 <= i < after.len() implies (#[trigger] after[i]).1 < x.len() && after[i].0 == x[after[i].1 as int] by {
        vstd::seq_lib::to_multiset_contains(after, after[i]);
        assert(after.to_multiset().count(after[i]) > 0);
        assert(before.to_multiset().count(after[i]) > 0);
        vstd::seq_lib::to_multiset_contains(before, after[i]);
        let k = choose|k: int| 0 <= k < before.len() && before[k] == after[i];
    }
}


} // verus!
