//! Simulated draws: the counting parts of the randomness experiments. Each
//! experiment runs the generator from a given state; its outcome is stated as a
//! function of that state.
use vstd::prelude::*;
use crate::rng::{Rng, below_spec, sample_spec, lemma_sample_distinct_ascending};
use crate::ssq::after_absent;

verus! {

/// How often `x` occurs in `v`.
pub open spec fn count_of(v: Seq<u32>, x: int) -> nat
    decreases v.len(),
{
    if v.len() == 0 {
        0
    } else {
        count_of(v.drop_last(), x) + if v.last() == x { 1nat } else { 0nat }
    }
}

proof fn lemma_count_of_le(v: Seq<u32>, x: int)
    ensures
        count_of(v, x) <= v.len(),
    decreases v.len(),
{
    if v.len() > 0 {
        lemma_count_of_le(v.drop_last(), x);
    }
}

/// `n` samples of `pick` numbers from `1..=hi`, from generator state `s`: the state
/// afterwards, and how often each of `0..=hi` was drawn.
pub open spec fn sim_freq(s: (u64, u64), n: nat, hi: u32, pick: u32) -> ((u64, u64), Seq<nat>)
    decreases n,
{
    if n == 0 {
        (s, Seq::new(hi as nat + 1, |k: int| 0nat))
    } else {
        let (s1, f) = sim_freq(s, (n - 1) as nat, hi, pick);
        let (s2, v) = sample_spec(s1, hi, pick);
        (s2, Seq::new(hi as nat + 1, |k: int| f[k] + count_of(v, k)))
    }
}

proof fn lemma_sim_freq_bound(s: (u64, u64), n: nat, hi: u32, pick: u32)
    requires
        pick <= hi,
    ensures
        sim_freq(s, n, hi, pick).1.len() == hi + 1,
        forall|k: int| 0 <= k <= hi ==> #[trigger] sim_freq(s, n, hi, pick).1[k] <= n * pick,
    decreases n,
{
    if n > 0 {
        lemma_sim_freq_bound(s, (n - 1) as nat, hi, pick);
        let (s1, f) = sim_freq(s, (n - 1) as nat, hi, pick);
        let (s2, v) = sample_spec(s1, hi, pick);
        lemma_sample_distinct_ascending(s1, hi, pick);
        assert forall|k: int| 0 <= k <= hi implies #[trigger] sim_freq(s, n, hi, pick).1[k] <= n * pick by {
            lemma_count_of_le(v, k);
            assert(f[k] + count_of(v, k) <= (n - 1) * pick + pick);
            assert((n - 1) * pick + pick == n * pick) by (nonlinear_arith);
        }
    }
}

/// Whether `x` occurs in `v`.
pub fn contains_u32(v: &Vec<u32>, x: u32) -> (b: bool)
    ensures
        b == v@.contains(x),
{
    let mut j: usize = 0;
    while j < v.len()
        invariant
            j <= v@.len(),
            forall|q: int| 0 <= q < j ==> v@[q] != x,
        decreases v@.len() - j,
    {
        if v[j] == x {
            assert(v@[j as int] == x);
            return true;
        }
        j = j + 1;
    }
    false
}

/// Draws `draws` samples of `pick` from `1..=hi` and counts how often each number
/// comes up (index `k` for number `k`; index 0 stays 0).
pub fn simulate_frequencies(rng: &mut Rng, draws: u32, hi: u32, pick: u32) -> (freq: Vec<u64>)
    requires
        pick <= hi < u32::MAX,
    ensures
        final(rng)@ == sim_freq(old(rng)@, draws as nat, hi, pick).0,
        freq@.len() == hi + 1,
        forall|k: int| 0 <= k <= hi ==> freq@[k] == #[trigger] sim_freq(old(rng)@, draws as nat, hi, pick).1[k],
{
    let ghost s0 = old(rng)@;
    let len: usize = hi as usize + 1;
    let mut freq: Vec<u64> = Vec::new();
    let mut z: usize = 0;
    while z < len
        invariant
            z <= len,
            len == hi + 1,
            freq@.len() == z,
            forall|k: int| 0 <= k < z ==> freq@[k] == 0,
        decreases len - z,
    {
        freq.push(0);
        z = z + 1;
    }
    let mut t: u32 = 0;
    while t < draws
        invariant
            t <= draws,
            pick <= hi < u32::MAX,
            len == hi + 1,
            freq@.len() == len,
            rng@ == sim_freq(s0, t as nat, hi, pick).0,
            forall|k: int| 0 <= k <= hi ==> freq@[k] == #[trigger] sim_freq(s0, t as nat, hi, pick).1[k],
        decreases draws - t,
    {
        let ghost s1 = rng@;
        let ghost f = sim_freq(s0, t as nat, hi, pick).1;
        proof {
            lemma_sim_freq_bound(s0, t as nat, hi, pick);
        }
        let v = rng.sample(hi, pick);
        let mut j: usize = 0;
        while j < v.len()
            invariant
                j <= v@.len(),
                v@.len() == pick,
                t < draws,
                pick <= hi < u32::MAX,
                len == hi + 1,
                freq@.len() == len,
                forall|q: int| 0 <= q < pick ==> 1 <= #[trigger] v@[q] <= hi,
                f.len() == hi + 1,
                forall|k: int| 0 <= k <= hi ==> #[trigger] f[k] <= t * pick,
                forall|k: int| 0 <= k <= hi ==> freq@[k] == f[k] + #[trigger] count_of(v@.take(j as int), k),
            decreases v@.len() - j,
        {
            let b = v[j] as usize;
            proof {
                assert forall|k: int| 0 <= k <= hi implies count_of(v@.take(j + 1), k)
                    == count_of(v@.take(j as int), k) + if v@[j as int] == k { 1nat } else { 0nat } by {
                    assert(v@.take(j + 1).drop_last() =~= v@.take(j as int));
                }
                lemma_count_of_le(v@.take(j as int), b as int);
                assert(t * pick + j < u64::MAX) by (nonlinear_arith)
                    requires t < draws, draws <= u32::MAX, pick <= u32::MAX, j < pick;
            }
            let ghost before = freq@;
            freq.set(b, freq[b] + 1);
            proof {
                assert forall|k: int| 0 <= k <= hi implies freq@[k] == f[k] + #[trigger] count_of(v@.take(j + 1), k) by {
                    assert(count_of(v@.take(j + 1), k) == count_of(v@.take(j as int), k)
                        + if v@[j as int] == k { 1nat } else { 0nat });
                    if k == b as int {
                        assert(freq@[k] == before[k] + 1);
                    } else {
                        assert(freq@[k] == before[k]);
                    }
                }
            }
            j = j + 1;
        }
        proof {
            assert(v@.take(v@.len() as int) =~= v@);
            assert forall|k: int| 0 <= k <= hi implies freq@[k] == #[trigger] sim_freq(s0, (t + 1) as nat, hi, pick).1[k] by {}
        }
        t = t + 1;
    }
    freq
}

/// `n` samples of `pick` from `1..=hi` from state `s`: the state afterwards, and for
/// each sample whether `target` was among its numbers.
pub open spec fn sim_presence(s: (u64, u64), n: nat, hi: u32, pick: u32, target: u32) -> (
    (u64, u64),
    Seq<bool>,
)
    decreases n,
{
    if n == 0 {
        (s, Seq::empty())
    } else {
        let (s1, p) = sim_presence(s, (n - 1) as nat, hi, pick, target);
        let (s2, v) = sample_spec(s1, hi, pick);
        (s2, p.push(v.contains(target)))
    }
}

proof fn lemma_sim_presence_len(s: (u64, u64), n: nat, hi: u32, pick: u32, target: u32)
    ensures
        sim_presence(s, n, hi, pick, target).1.len() == n,
    decreases n,
{
    if n > 0 {
        lemma_sim_presence_len(s, (n - 1) as nat, hi, pick, target);
    }
}

/// Whether `target` comes up in each of `n` simulated samples (the 0/1 sequence of
/// the runs test).
pub fn simulate_presence(rng: &mut Rng, n: usize, hi: u32, pick: u32, target: u32) -> (seq: Vec<bool>)
    requires
        pick <= hi,
    ensures
        (final(rng)@, seq@) == sim_presence(old(rng)@, n as nat, hi, pick, target),
{
    let ghost s0 = old(rng)@;
    let mut seq: Vec<bool> = Vec::new();
    let mut t: usize = 0;
    while t < n
        invariant
            t <= n,
            pick <= hi,
            (rng@, seq@) == sim_presence(s0, t as nat, hi, pick, target),
        decreases n - t,
    {
        let v = rng.sample(hi, pick);
        let b = contains_u32(&v, target);
        seq.push(b);
        t = t + 1;
    }
    seq
}

/// Simulates `trials` samples and, over the samples that follow one without `target`,
/// counts `[with target, without]` (the counting part of the gambler's-fallacy
/// experiment).
pub fn simulate_gap_hits(rng: &mut Rng, trials: u32, hi: u32, pick: u32, target: u32) -> (gap: [u64; 2])
    requires
        pick <= hi,
    ensures
        final(rng)@ == sim_presence(old(rng)@, trials as nat, hi, pick, target).0,
        gap@[0] == after_absent(sim_presence(old(rng)@, trials as nat, hi, pick, target).1).0,
        gap@[1] == after_absent(sim_presence(old(rng)@, trials as nat, hi, pick, target).1).1,
{
    let ghost s0 = old(rng)@;
    let mut gap: [u64; 2] = [0u64; 2];
    let mut prev_absent = false;
    let mut t: u32 = 0;
    while t < trials
        invariant
            t <= trials,
            pick <= hi,
            rng@ == sim_presence(s0, t as nat, hi, pick, target).0,
            gap@[0] == after_absent(sim_presence(s0, t as nat, hi, pick, target).1).0,
            gap@[1] == after_absent(sim_presence(s0, t as nat, hi, pick, target).1).1,
            gap@[0] + gap@[1] <= t,
            prev_absent == (t > 0 && !sim_presence(s0, t as nat, hi, pick, target).1.last()),
        decreases trials - t,
    {
        let ghost p = sim_presence(s0, t as nat, hi, pick, target).1;
        let v = rng.sample(hi, pick);
        let hit = contains_u32(&v, target);
        proof {
            lemma_sim_presence_len(s0, t as nat, hi, pick, target);
            let q = sim_presence(s0, (t + 1) as nat, hi, pick, target).1;
            assert(q == p.push(hit));
            assert(q.drop_last() =~= p);
            if t > 0 {
                assert(q[q.len() - 2] == p.last());
            }
        }
        if prev_absent {
            if hit {
                gap[0] = gap[0] + 1;
            } else {
                gap[1] = gap[1] + 1;
            }
        }
        prev_absent = !hit;
        t = t + 1;
    }
    gap
}

/// `n` bets, each a draw from `0..space` that wins when it equals `lucky`, from state
/// `s`: the state afterwards and the number of wins.
pub open spec fn sim_wins(s: (u64, u64), n: nat, space: u64, lucky: u64) -> ((u64, u64), nat)
    decreases n,
{
    if n == 0 {
        (s, 0)
    } else {
        let (s1, w) = sim_wins(s, (n - 1) as nat, space, lucky);
        let (s2, r) = below_spec(s1, space);
        (s2, w + if r == lucky { 1nat } else { 0nat })
    }
}

proof fn lemma_sim_wins_le(s: (u64, u64), n: nat, space: u64, lucky: u64)
    ensures
        sim_wins(s, n, space, lucky).1 <= n,
    decreases n,
{
    if n > 0 {
        lemma_sim_wins_le(s, (n - 1) as nat, space, lucky);
    }
}

/// How many of `marks` have been reached after bet `n`: marks are taken in order, each
/// when the bet number equals it.
pub open spec fn marks_reached(marks: Seq<u32>, n: nat) -> nat
    decreases n,
{
    if n == 0 {
        0
    } else {
        let c = marks_reached(marks, (n - 1) as nat);
        if c < marks.len() && marks[c as int] == n {
            c + 1
        } else {
            c
        }
    }
}

proof fn lemma_marks_reached_le(marks: Seq<u32>, n: nat)
    ensures
        marks_reached(marks, n) <= marks.len(),
    decreases n,
{
    if n > 0 {
        lemma_marks_reached_le(marks, (n - 1) as nat);
    }
}

/// With marks in strictly increasing order from 1 on, the marks reached after bet `n`
/// are exactly the marks up to `n`.
proof fn lemma_marks_reached_prefix(marks: Seq<u32>, n: nat)
    requires
        marks.len() > 0 ==> marks[0] >= 1,
        forall|a: int, b: int| 0 <= a < b < marks.len() ==> marks[a] < marks[b],
    ensures
        marks_reached(marks, n) <= marks.len(),
        forall|m: int| 0 <= m < marks_reached(marks, n) ==> marks[m] <= n,
        marks_reached(marks, n) < marks.len() ==> marks[marks_reached(marks, n) as int] > n,
    decreases n,
{
    if n > 0 {
        lemma_marks_reached_prefix(marks, (n - 1) as nat);
    }
}

/// Every mark is recorded when the marks ascend strictly from 1 and the last is at
/// most the number of bets.
pub proof fn lemma_all_marks_reached(marks: Seq<u32>, bets: nat)
    requires
        marks.len() > 0 ==> marks[0] >= 1,
        forall|a: int, b: int| 0 <= a < b < marks.len() ==> marks[a] < marks[b],
        forall|m: int| 0 <= m < marks.len() ==> marks[m] <= bets,
    ensures
        marks_reached(marks, bets) == marks.len(),
{
    lemma_marks_reached_prefix(marks, bets);
}

/// Places `bets` bets (each a draw from `0..space`, won when it equals `lucky`) and
/// records `(bet number, wins so far)` whenever the bet number reaches the next of
/// `marks`; also returns the total number of wins (the counting part of the long-run
/// betting experiment: the balance is `wins * prize - bets * cost`).
pub fn bet_wins(rng: &mut Rng, bets: u32, space: u64, lucky: u64, marks: &[u32]) -> (r: (Vec<(u32, u32)>, u32))
    requires
        space > 0,
    ensures
        final(rng)@ == sim_wins(old(rng)@, bets as nat, space, lucky).0,
        r.1 == sim_wins(old(rng)@, bets as nat, space, lucky).1,
        r.0@.len() == marks_reached(marks@, bets as nat),
        forall|m: int| 0 <= m < r.0@.len() ==> (#[trigger] r.0@[m]).0 == marks@[m] && r.0@[m].1
            == sim_wins(old(rng)@, marks@[m] as nat, space, lucky).1,
{
    let ghost s0 = old(rng)@;
    let mut rows: Vec<(u32, u32)> = Vec::new();
    let mut wins: u32 = 0;
    let mut ci: usize = 0;
    let mut i: u32 = 0;
    while i < bets
        invariant
            i <= bets,
            space > 0,
            rng@ == sim_wins(s0, i as nat, space, lucky).0,
            wins == sim_wins(s0, i as nat, space, lucky).1,
            ci == marks_reached(marks@, i as nat),
            rows@.len() == ci,
            forall|m: int| 0 <= m < rows@.len() ==> (#[trigger] rows@[m]).0 == marks@[m] && rows@[m].1
                == sim_wins(s0, marks@[m] as nat, space, lucky).1,
        decreases bets - i,
    {
        i = i + 1;
        proof {
            lemma_sim_wins_le(s0, (i - 1) as nat, space, lucky);
            lemma_marks_reached_le(marks@, (i - 1) as nat);
        }
        let r = rng.below(space);
        if r == lucky {
            wins = wins + 1;
        }
        if ci < marks.len() && i == marks[ci] {
            rows.push((i, wins));
            ci = ci + 1;
        }
    }
    (rows, wins)
}

/// Sum of `count_of(v, k)` over `k < m`.
pub open spec fn count_sum(v: Seq<u32>, m: int) -> int
    decreases m,
{
    if m <= 0 {
        0
    } else {
        count_sum(v, m - 1) + count_of(v, m - 1)
    }
}

proof fn lemma_count_sum_empty(v: Seq<u32>, m: int)
    requires
        v.len() == 0,
    ensures
        count_sum(v, m) == 0,
    decreases m,
{
    if m > 0 {
        lemma_count_sum_empty(v, m - 1);
    }
}

proof fn lemma_count_sum_split(v: Seq<u32>, m: int)
    requires
        v.len() > 0,
        0 <= m,
    ensures
        count_sum(v, m) == count_sum(v.drop_last(), m) + if v.last() < m { 1int } else { 0int },
    decreases m,
{
    if m > 0 {
        lemma_count_sum_split(v, m - 1);
    }
}

/// Values below `m` are each counted once among the counts of `0..m`.
pub proof fn lemma_count_sum_total(v: Seq<u32>, m: int)
    requires
        0 <= m,
        forall|p: int| 0 <= p < v.len() ==> #[trigger] v[p] < m,
    ensures
        count_sum(v, m) == v.len(),
    decreases v.len(),
{
    if v.len() > 0 {
        let init = v.drop_last();
        assert forall|p: int| 0 <= p < init.len() implies #[trigger] init[p] < m by {
            assert(init[p] == v[p]);
        }
        lemma_count_sum_total(init, m);
        lemma_count_sum_split(v, m);
        assert(v.last() == v[v.len() - 1]);
    } else {
        lemma_count_sum_empty(v, m);
    }
}

/// Sum of the first `m` entries of `f`.
pub open spec fn prefix_sum(f: Seq<nat>, m: int) -> int
    decreases m,
{
    if m <= 0 {
        0
    } else {
        prefix_sum(f, m - 1) + f[m - 1]
    }
}

/// Every sampled number is counted once: the frequencies of `0..=hi` after `n` samples
/// of `pick` add up to `n * pick`.
pub proof fn lemma_sim_freq_total(s: (u64, u64), n: nat, hi: u32, pick: u32)
    requires
        pick <= hi,
    ensures
        prefix_sum(sim_freq(s, n, hi, pick).1, hi + 1) == n * pick,
    decreases n,
{
    if n == 0 {
        lemma_prefix_sum_zero(sim_freq(s, n, hi, pick).1, hi + 1);
    } else {
        lemma_sim_freq_total(s, (n - 1) as nat, hi, pick);
        let (s1, f) = sim_freq(s, (n - 1) as nat, hi, pick);
        let (s2, v) = sample_spec(s1, hi, pick);
        lemma_sample_distinct_ascending(s1, hi, pick);
        lemma_sim_freq_bound(s, (n - 1) as nat, hi, pick);
        assert forall|p: int| 0 <= p < v.len() implies #[trigger] v[p] < hi + 1 by {}
        lemma_count_sum_total(v, hi + 1);
        lemma_prefix_sum_add(f, v, hi + 1, sim_freq(s, n, hi, pick).1);
        assert((n - 1) * pick + pick == n * pick) by (nonlinear_arith);
    }
}

proof fn lemma_prefix_sum_zero(f: Seq<nat>, m: int)
    requires
        m <= f.len(),
        forall|k: int| 0 <= k < f.len() ==> f[k] == 0,
    ensures
        prefix_sum(f, m) == 0,
    decreases m,
{
    if m > 0 {
        lemma_prefix_sum_zero(f, m - 1);
    }
}

proof fn lemma_prefix_sum_add(f: Seq<nat>, v: Seq<u32>, m: int, g: Seq<nat>)
    requires
        0 <= m <= f.len(),
        m <= g.len(),
        forall|k: int| 0 <= k < m ==> g[k] == f[k] + count_of(v, k),
    ensures
        prefix_sum(g, m) == prefix_sum(f, m) + count_sum(v, m),
    decreases m,
{
    if m > 0 {
        lemma_prefix_sum_add(f, v, m - 1, g);
    }
}

} // verus!
