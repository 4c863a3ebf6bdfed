//! Deterministic xorshift128+ generator seeded through splitmix64, with unbiased
//! bounded draws and sampling without replacement.
use vstd::prelude::*;
use vstd::wrapping::u64_specs::{wrapping_add, wrapping_mul};
use crate::order::{sort_u32, sorted_u32, lemma_sorted_distinct};

verus! {

/// Generator state.
pub struct Rng {
    s0: u64,
    s1: u64,
}

impl View for Rng {
    type V = (u64, u64);

    closed spec fn view(&self) -> (u64, u64) {
        (self.s0, self.s1)
    }
}

pub open spec fn golden() -> u64 {
    0x9E3779B97F4A7C15u64
}

/// The splitmix64 output function.
pub open spec fn mix(z: u64) -> u64 {
    let x1 = wrapping_mul(z ^ (z >> 30u64), 0xBF58476D1CE4E5B9u64);
    let x2 = wrapping_mul(x1 ^ (x1 >> 27u64), 0x94D049BB133111EBu64);
    x2 ^ (x2 >> 31u64)
}

/// The state a seed gives: the first two splitmix64 outputs after the seed is
/// advanced once.
pub open spec fn seeded(seed: u64) -> (u64, u64) {
    let z0 = wrapping_add(seed, golden());
    let z1 = wrapping_add(z0, golden());
    let z2 = wrapping_add(z1, golden());
    (mix(z1), mix(z2))
}

/// One xorshift128+ step: the next state and the output.
pub open spec fn step(s: (u64, u64)) -> ((u64, u64), u64) {
    let y = s.1;
    let x = s.0 ^ (s.0 << 23u64);
    let n1 = x ^ y ^ (x >> 17u64) ^ (y >> 26u64);
    ((y, n1), wrapping_add(n1, y))
}

/// Outputs at or above this value are rejected when drawing below `n`.
pub open spec fn zone(n: u64) -> u64 {
    (u64::MAX - u64::MAX % n) as u64
}

/// Rejection sampling with at most `fuel` further redraws: a draw below `zone(n)` is
/// reduced modulo `n`; when no redraw is left the last draw is reduced as it is.
pub open spec fn below_from(s: (u64, u64), n: u64, fuel: nat) -> ((u64, u64), u64)
    decreases fuel,
{
    let (s2, r) = step(s);
    if r < zone(n) || fuel == 0 {
        (s2, r % n)
    } else {
        below_from(s2, n, (fuel - 1) as nat)
    }
}

/// A uniform draw from `0..n`: rejection sampling, giving up after `u64::MAX`
/// redraws (which needs `u64::MAX` consecutive outputs among the top `u64::MAX % n + 1`
/// values).
pub open spec fn below_spec(s: (u64, u64), n: u64) -> ((u64, u64), u64) {
    below_from(s, n, u64::MAX as nat)
}

/// `(1..=hi)` as a sequence.
pub open spec fn one_to(hi: u32) -> Seq<u32> {
    Seq::new(hi as nat, |i: int| (i + 1) as u32)
}

/// Partial Fisher-Yates from position `i` up to `k`.
pub open spec fn shuffle_from(s: (u64, u64), pool: Seq<u32>, i: nat, k: nat, hi: u32) -> (
    (u64, u64),
    Seq<u32>,
)
    decreases k - i,
{
    if i >= k || i >= hi {
        (s, pool)
    } else {
        let (s2, r) = below_spec(s, (hi - i) as u64);
        let j = i + r;
        let swapped = pool.update(i as int, pool[j as int]).update(j as int, pool[i as int]);
        shuffle_from(s2, swapped, i + 1, k, hi)
    }
}

/// `k` distinct numbers from `1..=hi` in ascending order, and the state afterwards.
pub open spec fn sample_spec(s: (u64, u64), hi: u32, k: u32) -> ((u64, u64), Seq<u32>) {
    let (s2, pool) = shuffle_from(s, one_to(hi), 0, k as nat, hi);
    (s2, sorted_u32(pool.take(k as int)))
}

/// `p` holds each of `1..=hi` exactly once.
pub open spec fn is_pool(p: Seq<u32>, hi: u32) -> bool {
    &&& p.len() == hi
    &&& p.no_duplicates()
    &&& forall|i: int| 0 <= i < p.len() ==> 1 <= #[trigger] p[i] <= hi
}

proof fn lemma_below_lt(s: (u64, u64), n: u64, fuel: nat)
    requires
        n > 0,
    ensures
        below_from(s, n, fuel).1 < n,
    decreases fuel,
{
    let (s2, r) = step(s);
    if !(r < zone(n) || fuel == 0) {
        lemma_below_lt(s2, n, (fuel - 1) as nat);
    }
}

proof fn lemma_shuffle_keeps_pool(s: (u64, u64), pool: Seq<u32>, i: nat, k: nat, hi: u32)
    requires
        is_pool(pool, hi),
    ensures
        is_pool(shuffle_from(s, pool, i, k, hi).1, hi),
    decreases k - i,
{
    if !(i >= k || i >= hi) {
        let (s2, r) = below_spec(s, (hi - i) as u64);
        lemma_below_lt(s, (hi - i) as u64, u64::MAX as nat);
        let j = i + r;
        let swapped = pool.update(i as int, pool[j as int]).update(j as int, pool[i as int]);
        assert forall|a: int| 0 <= a < swapped.len() implies #[trigger] swapped[a] == pool[
            if a == j { i as int } else if a == i { j as int } else { a }
        ] by {}
        assert forall|a: int, b: int| 0 <= a < swapped.len() && 0 <= b < swapped.len() && a != b
            implies swapped[a] != swapped[b] by {
            let pa = if a == j { i as int } else if a == i { j as int } else { a };
            let pb = if b == j { i as int } else if b == i { j as int } else { b };
            assert(swapped[a] == pool[pa]);
            assert(swapped[b] == pool[pb]);
        }
        assert forall|a: int| 0 <= a < swapped.len() implies 1 <= #[trigger] swapped[a] <= hi by {
            let pa = if a == j { i as int } else if a == i { j as int } else { a };
            assert(swapped[a] == pool[pa]);
        }
        lemma_shuffle_keeps_pool(s2, swapped, i + 1, k, hi);
    }
}

/// What `sample` returns is `k` distinct numbers of `1..=hi` in strictly ascending
/// order, whatever the generator state.
pub proof fn lemma_sample_distinct_ascending(s: (u64, u64), hi: u32, k: u32)
    requires
        k <= hi,
    ensures
        sample_spec(s, hi, k).1.len() == k,
        forall|i: int, j: int| 0 <= i < j < k ==> sample_spec(s, hi, k).1[i] < sample_spec(s, hi, k).1[j],
        forall|i: int| 0 <= i < k ==> 1 <= #[trigger] sample_spec(s, hi, k).1[i] <= hi,
{
    let start = one_to(hi);
    assert(is_pool(start, hi));
    lemma_shuffle_keeps_pool(s, start, 0, k as nat, hi);
    let pool = shuffle_from(s, start, 0, k as nat, hi).1;
    let t = pool.take(k as int);
    assert(t.no_duplicates());
    let v = sorted_u32(t);
    lemma_sorted_distinct(t);
    assert forall|i: int| 0 <= i < k implies 1 <= #[trigger] v[i] <= hi by {
        assert(t.contains(v[i]));
        let q = choose|q: int| 0 <= q < t.len() && t[q] == v[i];
        assert(pool[q] == v[i]);
    }
}

impl Rng {
    /// A generator seeded with `seed` (same seed, same sequence).
    pub fn new(seed: u64) -> (r: Rng)
        ensures
            r@ == seeded(seed),
    {
        let z0 = seed.wrapping_add(0x9E3779B97F4A7C15);
        let z1 = z0.wrapping_add(0x9E3779B97F4A7C15);
        let a = Self::mix_exec(z1);
        let z2 = z1.wrapping_add(0x9E3779B97F4A7C15);
        let b = Self::mix_exec(z2);
        Rng { s0: a, s1: b }
    }

    fn mix_exec(z: u64) -> (x: u64)
        ensures
            x == mix(z),
    {
        let mut x = z;
        x = (x ^ (x >> 30)).wrapping_mul(0xBF58476D1CE4E5B9);
        x = (x ^ (x >> 27)).wrapping_mul(0x94D049BB133111EB);
        x ^ (x >> 31)
    }

    /// The next 64-bit output.
    pub fn next_u64(&mut self) -> (r: u64)
        ensures
            (final(self)@, r) == step(old(self)@),
    {
        let mut x = self.s0;
        let y = self.s1;
        self.s0 = y;
        x ^= x << 23;
        self.s1 = x ^ y ^ (x >> 17) ^ (y >> 26);
        self.s1.wrapping_add(y)
    }

    /// A uniform number in `0..n` (rejection sampling, no modulo bias).
    pub fn below(&mut self, n: u64) -> (r: u64)
        requires
            n > 0,
        ensures
            (final(self)@, r) == below_spec(old(self)@, n),
            r < n,
    {
        let limit = u64::MAX - u64::MAX % n;
        let mut tries: u64 = 0;
        loop
            invariant
                n > 0,
                limit == zone(n),
                below_spec(old(self)@, n) == below_from(self@, n, (u64::MAX - tries) as nat),
            decreases u64::MAX - tries,
        {
            let r = self.next_u64();
            if r < limit || tries == u64::MAX {
                return r % n;
            }
            tries = tries + 1;
        }
    }

    /// `k` distinct numbers from `1..=hi`, ascending (partial Fisher-Yates).
    pub fn sample(&mut self, hi: u32, k: u32) -> (out: Vec<u32>)
        requires
            k <= hi,
        ensures
            (final(self)@, out@) == sample_spec(old(self)@, hi, k),
            out@.len() == k,
            forall|i: int, j: int| 0 <= i < j < k ==> out@[i] < out@[j],
            forall|i: int| 0 <= i < k ==> 1 <= #[trigger] out@[i] <= hi,
    {
        proof {
            lemma_sample_distinct_ascending(self@, hi, k);
        }
        let mut pool: Vec<u32> = Vec::new();
        let mut v: u32 = 0;
        while v < hi
            invariant
                v <= hi,
                pool@ == one_to(hi).take(v as int),
            decreases hi - v,
        {
            pool.push(v + 1);
            assert(pool@ =~= one_to(hi).take(v + 1));
            v = v + 1;
        }
        assert(pool@ =~= one_to(hi));
        let mut i: usize = 0;
        while i < k as usize
            invariant
                k <= hi,
                pool@.len() == hi,
                i <= k,
                shuffle_from(old(self)@, one_to(hi), 0, k as nat, hi) == shuffle_from(
                    self@,
                    pool@,
                    i as nat,
                    k as nat,
                    hi,
                ),
            decreases k - i,
        {
            let r = self.below((hi as usize - i) as u64);
            let j = i + r as usize;
            let a = pool[i];
            let b = pool[j];
            pool.set(i, b);
            pool.set(j, a);
            i = i + 1;
        }
        let mut out: Vec<u32> = Vec::new();
        let mut t: usize = 0;
        while t < k as usize
            invariant
                pool@.len() == hi,
                k <= hi,
                t <= k,
                out@ == pool@.take(t as int),
            decreases k - t,
        {
            out.push(pool[t]);
            assert(out@ =~= pool@.take(t + 1));
            t = t + 1;
        }
        sort_u32(&out)
    }
}

} // verus!
