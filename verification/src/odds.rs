//! Exact jackpot combination counts: binomial coefficients by Pascal's rule.
use vstd::prelude::*;
use vstd::arithmetic::power2::{lemma2_to64_rest, lemma_pow2_adds, lemma_pow2_pos, lemma_pow2_strictly_increases, lemma_pow2_unfold, pow2};

verus! {

/// The number of ways to choose `k` of `n` things (Pascal's rule).
pub open spec fn comb_count(n: nat, k: nat) -> nat
    decreases n,
{
    if k == 0 {
        1
    } else if n == 0 {
        0
    } else {
        comb_count((n - 1) as nat, (k - 1) as nat) + comb_count((n - 1) as nat, k)
    }
}

/// There are at most `2^n` ways to choose from `n` things.
proof fn lemma_comb_count_le_pow2(n: nat, k: nat)
    ensures
        comb_count(n, k) <= pow2(n),
    decreases n,
{
    lemma_pow2_pos(n);
    if k > 0 && n > 0 {
        lemma_comb_count_le_pow2((n - 1) as nat, (k - 1) as nat);
        lemma_comb_count_le_pow2((n - 1) as nat, k);
        lemma_pow2_unfold(n);
    }
}

/// There is no way to choose more than `n` of `n` things.
proof fn lemma_comb_count_above(n: nat, k: nat)
    requires
        k > n,
    ensures
        comb_count(n, k) == 0,
    decreases n,
{
    if n > 0 {
        lemma_comb_count_above((n - 1) as nat, (k - 1) as nat);
        lemma_comb_count_above((n - 1) as nat, k);
    }
}

/// `2^m` for `m <= 127` is at most `2^127`.
proof fn lemma_pow2_fits(m: nat)
    requires
        m <= 127,
    ensures
        pow2(m) <= 0x8000_0000_0000_0000_0000_0000_0000_0000,
{
    lemma2_to64_rest();
    lemma_pow2_adds(63, 64);
    if m < 127 {
        lemma_pow2_strictly_increases(m, 127);
    }
}

/// The binomial coefficient `C(n, k)`, exactly: the rows of Pascal's triangle up to
/// row `n`, kept up to column `k`.
pub fn binomial(n: u32, k: u32) -> (r: u128)
    requires
        n <= 127,
    ensures
        r == comb_count(n as nat, k as nat),
{
    if k > n {
        proof {
            lemma_comb_count_above(n as nat, k as nat);
        }
        return 0;
    }
    let kk = k as usize;
    let mut row: Vec<u128> = Vec::new();
    row.push(1);
    while row.len() <= kk
        invariant
            kk == k,
            k <= n <= 127,
            1 <= row@.len() <= kk + 1,
            forall|i: int| 0 <= i < row@.len() ==> #[trigger] row@[i] == comb_count(0, i as nat),
        decreases kk + 1 - row@.len(),
    {
        row.push(0);
    }
    let mut m: u32 = 0;
    while m < n
        invariant
            kk == k,
            m <= n <= 127,
            k <= n,
            row@.len() == kk + 1,
            forall|i: int| 0 <= i <= kk ==> #[trigger] row@[i] == comb_count(m as nat, i as nat),
        decreases n - m,
    {
        let mut j: usize = kk;
        while j > 0
            invariant
                kk == k,
                m < n <= 127,
                j <= kk,
                row@.len() == kk + 1,
                forall|i: int| 0 <= i <= j ==> #[trigger] row@[i] == comb_count(m as nat, i as nat),
                forall|i: int| j < i <= kk ==> #[trigger] row@[i] == comb_count((m + 1) as nat, i as nat),
            decreases j,
        {
            proof {
                lemma_comb_count_le_pow2((m + 1) as nat, j as nat);
                lemma_pow2_fits((m + 1) as nat);
                assert(comb_count((m + 1) as nat, j as nat) == comb_count(m as nat, (j - 1) as nat) + comb_count(m as nat, j as nat));
            }
            let v = row[j] + row[j - 1];
            row.set(j, v);
            j = j - 1;
        }
        m = m + 1;
    }
    row[kk]
}

/// Jackpot combination counts of the report's games, as exact fractions (numerator,
/// denominator), in the report's order: 双色球 C(33,6)·16, 超级大乐透 C(35,5)·C(12,2),
/// 福彩3D and 排列3 1000, 排列5 100000, 7星彩 10^6·15, 7乐彩 C(30,7), and 快乐8's
/// pick-ten-hit-ten C(80,10)/C(20,10).
pub open spec fn jackpot_spec() -> Seq<(nat, nat)> {
    seq![
        (comb_count(33, 6) * 16, 1nat),
        (comb_count(35, 5) * comb_count(12, 2), 1nat),
        (1000nat, 1nat),
        (1000nat, 1nat),
        (100000nat, 1nat),
        (15000000nat, 1nat),
        (comb_count(30, 7), 1nat),
        (comb_count(80, 10), comb_count(20, 10)),
    ]
}

/// The jackpot combination counts of `jackpot_spec`.
pub fn jackpot_combos() -> (r: Vec<(u128, u128)>)
    ensures
        r@.len() == 8,
        forall|i: int| 0 <= i < 8 ==> #[trigger] r@[i].0 == jackpot_spec()[i].0 && r@[i].1 == jackpot_spec()[i].1,
{
    let a = binomial(33, 6);
    let b = binomial(35, 5);
    let c = binomial(12, 2);
    proof {
        lemma_comb_count_le_pow2(33, 6);
        lemma_comb_count_le_pow2(35, 5);
        lemma_comb_count_le_pow2(12, 2);
        lemma2_to64_rest();
        vstd::arithmetic::power2::lemma2_to64();
        assert(a <= 0x800000000 && b <= 0x800000000 && c <= 0x1000);
        assert(b * c <= 0x800000000 * 0x1000) by (nonlinear_arith)
            requires
                b <= 0x800000000,
                c <= 0x1000,
        ;
    }
    let mut r: Vec<(u128, u128)> = Vec::new();
    r.push((a * 16, 1));
    r.push((b * c, 1));
    r.push((1000, 1));
    r.push((1000, 1));
    r.push((100000, 1));
    r.push((15000000, 1));
    r.push((binomial(30, 7), 1));
    r.push((binomial(80, 10), binomial(20, 10)));
    r
}

} // verus!
