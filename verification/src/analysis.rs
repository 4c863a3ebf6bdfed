//! Counting core of the analysis of any game: number tallies per component,
//! tracked target numbers, ranked picks and their hits.
use vstd::prelude::*;
use crate::game_spec::{comp_width, is_game_table, spec_field_count, widths_sum, Component, GameSpec};
use crate::realdata::{DrawRecord, RecordView, record_fits, records_view, seg_fits, segs_view};
use crate::text::push_str;
use crate::rng::{below_spec, sample_spec, Rng};
use crate::sim::{count_of, count_sum, lemma_count_sum_total};
use crate::ssq::{after_absent, ranks_before};

verus! {

// ------------------------------------------------------------------ tallies

/// How often number `k` occurs in segment `ci` over the records.
pub open spec fn seg_tally(rs: Seq<RecordView>, ci: int, k: int) -> nat
    decreases rs.len(),
{
    if rs.len() == 0 {
        0
    } else {
        seg_tally(rs.drop_last(), ci, k) + count_of(rs.last().components[ci], k)
    }
}

/// Number of values in segment `ci` over the records.
pub open spec fn seg_total(rs: Seq<RecordView>, ci: int) -> nat
    decreases rs.len(),
{
    if rs.len() == 0 {
        0
    } else {
        seg_total(rs.drop_last(), ci) + rs.last().components[ci].len()
    }
}

/// How many records hold value `k` at position `pos` of segment `ci`.
pub open spec fn digit_tally(rs: Seq<RecordView>, ci: int, pos: int, k: int) -> nat
    decreases rs.len(),
{
    if rs.len() == 0 {
        0
    } else {
        digit_tally(rs.drop_last(), ci, pos, k) + if rs.last().components[ci][pos] == k {
            1nat
        } else {
            0nat
        }
    }
}

proof fn lemma_count_of_le(v: Seq<u32>, x: int)
    ensures
        count_of(v, x) <= v.len(),
    decreases v.len(),
{
    if v.len() > 0 {
        lemma_count_of_le(v.drop_last(), x);
    }
}

proof fn lemma_seg_tally_le(rs: Seq<RecordView>, ci: int, k: int)
    ensures
        seg_tally(rs, ci, k) <= seg_total(rs, ci),
    decreases rs.len(),
{
    if rs.len() > 0 {
        lemma_seg_tally_le(rs.drop_last(), ci, k);
        lemma_count_of_le(rs.last().components[ci], k);
    }
}

proof fn lemma_seg_total_mono(rs: Seq<RecordView>, ci: int, i: int, j: int)
    requires
        0 <= i <= j <= rs.len(),
    ensures
        seg_total(rs.take(i), ci) <= seg_total(rs.take(j), ci),
    decreases j - i,
{
    if i < j {
        lemma_seg_total_mono(rs, ci, i, j - 1);
        assert(rs.take(j).drop_last() =~= rs.take(j - 1));
    }
}

proof fn lemma_digit_tally_le(rs: Seq<RecordView>, ci: int, pos: int, k: int)
    ensures
        digit_tally(rs, ci, pos, k) <= rs.len(),
    decreases rs.len(),
{
    if rs.len() > 0 {
        lemma_digit_tally_le(rs.drop_last(), ci, pos, k);
    }
}

/// Every record has a segment `ci` whose values are at most `size`.
pub open spec fn pool_segments_within(rs: Seq<RecordView>, ci: int, size: u32) -> bool {
    forall|d: int| 0 <= d < rs.len() ==> {
        &&& ci < (#[trigger] rs[d]).components.len()
        &&& forall|p: int| 0 <= p < rs[d].components[ci].len() ==> rs[d].components[ci][p] <= size
    }
}

/// Counts how often each number of pool segment `ci` occurs over the draws; index `k`
/// holds the count of number `k` (`0..=size`).
pub fn pool_counts(draws: &[DrawRecord], comp_idx: usize, size: u32) -> (c: Vec<u64>)
    requires
        size < u32::MAX,
        pool_segments_within(records_view(draws@), comp_idx as int, size),
        seg_total(records_view(draws@), comp_idx as int) <= u64::MAX,
    ensures
        c@.len() == size + 1,
        forall|k: int| 0 <= k <= size ==> c@[k] == #[trigger] seg_tally(records_view(draws@), comp_idx as int, k),
{
    let ghost rs = records_view(draws@);
    let ghost ci = comp_idx as int;
    let len: usize = size as usize + 1;
    let mut c: Vec<u64> = Vec::new();
    let mut z: usize = 0;
    while z < len
        invariant
            z <= len,
            len == size + 1,
            c@.len() == z,
            forall|k: int| 0 <= k < z ==> c@[k] == 0,
        decreases len - z,
    {
        c.push(0);
        z = z + 1;
    }
    let mut d: usize = 0;
    assert(rs.take(0) =~= Seq::<RecordView>::empty());
    while d < draws.len()
        invariant
            d <= draws@.len(),
            rs == records_view(draws@),
            ci == comp_idx,
            len == size + 1,
            c@.len() == len,
            pool_segments_within(rs, ci, size),
            seg_total(rs, ci) <= u64::MAX,
            forall|k: int| 0 <= k <= size ==> c@[k] == #[trigger] seg_tally(rs.take(d as int), ci, k),
        decreases draws@.len() - d,
    {
        let ghost done = rs.take(d as int);
        assert(rs[d as int] == draws@[d as int]@);
        assert(ci < rs[d as int].components.len());
        let seg = &draws[d].components[comp_idx];
        assert(seg@ == rs[d as int].components[ci]);
        proof {
            lemma_seg_total_mono(rs, ci, d + 1, rs.len() as int);
            assert(rs.take(d + 1).drop_last() =~= done);
            assert(rs.take(rs.len() as int) =~= rs);
        }
        let mut p: usize = 0;
        while p < seg.len()
            invariant
                d < draws@.len(),
                p <= seg@.len(),
                len == size + 1,
                c@.len() == len,
                seg@ == rs[d as int].components[ci],
                forall|q: int| 0 <= q < seg@.len() ==> seg@[q] <= size,
                seg_total(done, ci) + seg@.len() <= u64::MAX,
                forall|k: int| 0 <= k <= size ==> c@[k] == seg_tally(done, ci, k) + #[trigger] count_of(seg@.take(p as int), k),
            decreases seg@.len() - p,
        {
            let b = seg[p] as usize;
            let ghost before = c@;
            proof {
                assert(seg@.take(p + 1).drop_last() =~= seg@.take(p as int));
                lemma_seg_tally_le(done, ci, b as int);
                lemma_count_of_le(seg@.take(p as int), b as int);
            }
            c.set(b, c[b] + 1);
            proof {
                assert forall|k: int| 0 <= k <= size implies c@[k] == seg_tally(done, ci, k) + #[trigger] count_of(seg@.take(p + 1), k) by {
                    assert(count_of(seg@.take(p + 1), k) == count_of(seg@.take(p as int), k)
                        + if seg@[p as int] == k { 1nat } else { 0nat });
                    if k == b as int {
                        assert(c@[k] == before[k] + 1);
                    } else {
                        assert(c@[k] == before[k]);
                    }
                }
            }
            p = p + 1;
        }
        proof {
            assert(seg@.take(seg@.len() as int) =~= seg@);
            assert(rs.take(d + 1).last() == rs[d as int]);
        }
        d = d + 1;
    }
    assert(rs.take(draws@.len() as int) =~= rs);
    c
}

/// Every record has a segment `ci` with a position `pos` whose value is below `base`.
pub open spec fn digit_positions_within(rs: Seq<RecordView>, ci: int, pos: int, base: u32) -> bool {
    forall|d: int| 0 <= d < rs.len() ==> {
        &&& ci < (#[trigger] rs[d]).components.len()
        &&& pos < rs[d].components[ci].len()
        &&& rs[d].components[ci][pos] < base
    }
}

/// Counts how often each value occurs at position `pos` of digit segment `ci`; index
/// `k` holds the count of value `k` (`0..base`).
pub fn digit_counts(draws: &[DrawRecord], comp_idx: usize, pos: usize, base: u32) -> (c: Vec<u64>)
    requires
        digit_positions_within(records_view(draws@), comp_idx as int, pos as int, base),
    ensures
        c@.len() == base,
        forall|k: int| 0 <= k < base ==> c@[k] == #[trigger] digit_tally(records_view(draws@), comp_idx as int, pos as int, k),
{
    let ghost rs = records_view(draws@);
    let len: usize = base as usize;
    let mut c: Vec<u64> = Vec::new();
    let mut z: usize = 0;
    while z < len
        invariant
            z <= len,
            len == base,
            c@.len() == z,
            forall|k: int| 0 <= k < z ==> c@[k] == 0,
        decreases len - z,
    {
        c.push(0);
        z = z + 1;
    }
    let mut d: usize = 0;
    while d < draws.len()
        invariant
            d <= draws@.len(),
            rs == records_view(draws@),
            len == base,
            c@.len() == len,
            digit_positions_within(rs, comp_idx as int, pos as int, base),
            forall|k: int| 0 <= k < base ==> c@[k] == #[trigger] digit_tally(rs.take(d as int), comp_idx as int, pos as int, k),
        decreases draws@.len() - d,
    {
        assert(rs[d as int] == draws@[d as int]@);
        assert(comp_idx < rs[d as int].components.len());
        assert(draws@[d as int].components@[comp_idx as int]@ == rs[d as int].components[comp_idx as int]);
        let v = draws[d].components[comp_idx][pos] as usize;
        let ghost before = c@;
        proof {
            assert(rs.take(d + 1).drop_last() =~= rs.take(d as int));
            assert(rs.take(d + 1).last() == rs[d as int]);
            lemma_digit_tally_le(rs.take(d as int), comp_idx as int, pos as int, v as int);
        }
        c.set(v, c[v] + 1);
        proof {
            assert forall|k: int| 0 <= k < base implies c@[k] == #[trigger] digit_tally(rs.take(d + 1), comp_idx as int, pos as int, k) by {
                let t = rs.take(d + 1);
                assert(t.drop_last() =~= rs.take(d as int));
                assert(digit_tally(t, comp_idx as int, pos as int, k) == digit_tally(t.drop_last(), comp_idx as int, pos as int, k)
                    + if t.last().components[comp_idx as int][pos as int] == k { 1nat } else { 0nat });
                if k == v as int {
                    assert(c@[k] == before[k] + 1);
                } else {
                    assert(c@[k] == before[k]);
                }
            }
        }
        d = d + 1;
    }
    assert(rs.take(draws@.len() as int) =~= rs);
    c
}

/// Sum of `seg_tally(rs, ci, k)` over `k < m`.
pub open spec fn seg_tally_sum(rs: Seq<RecordView>, ci: int, m: int) -> int
    decreases m,
{
    if m <= 0 {
        0
    } else {
        seg_tally_sum(rs, ci, m - 1) + seg_tally(rs, ci, m - 1)
    }
}

/// Sum of `digit_tally(rs, ci, pos, k)` over `k < m`.
pub open spec fn digit_tally_sum(rs: Seq<RecordView>, ci: int, pos: int, m: int) -> int
    decreases m,
{
    if m <= 0 {
        0
    } else {
        digit_tally_sum(rs, ci, pos, m - 1) + digit_tally(rs, ci, pos, m - 1)
    }
}

proof fn lemma_seg_tally_sum_step(rs: Seq<RecordView>, ci: int, m: int)
    requires
        rs.len() > 0,
    ensures
        seg_tally_sum(rs, ci, m) == seg_tally_sum(rs.drop_last(), ci, m) + count_sum(rs.last().components[ci], m),
    decreases m,
{
    if m > 0 {
        lemma_seg_tally_sum_step(rs, ci, m - 1);
    }
}

proof fn lemma_seg_tally_sum_empty(rs: Seq<RecordView>, ci: int, m: int)
    requires
        rs.len() == 0,
    ensures
        seg_tally_sum(rs, ci, m) == 0,
    decreases m,
{
    if m > 0 {
        lemma_seg_tally_sum_empty(rs, ci, m - 1);
    }
}

proof fn lemma_digit_tally_sum_step(rs: Seq<RecordView>, ci: int, pos: int, m: int)
    requires
        rs.len() > 0,
        0 <= m,
    ensures
        digit_tally_sum(rs, ci, pos, m) == digit_tally_sum(rs.drop_last(), ci, pos, m) + if rs.last().components[ci][pos] < m {
            1int
        } else {
            0int
        },
    decreases m,
{
    if m > 0 {
        lemma_digit_tally_sum_step(rs, ci, pos, m - 1);
    }
}

proof fn lemma_digit_tally_sum_empty(rs: Seq<RecordView>, ci: int, pos: int, m: int)
    requires
        rs.len() == 0,
    ensures
        digit_tally_sum(rs, ci, pos, m) == 0,
    decreases m,
{
    if m > 0 {
        lemma_digit_tally_sum_empty(rs, ci, pos, m - 1);
    }
}

/// Pool counts account for every drawn number: over records that fit the game, the
/// counts of `0..=size` add up to `pick` per record.
pub proof fn lemma_pool_tally_total(g: GameSpec, rs: Seq<RecordView>, ci: int)
    requires
        all_fit(g, rs),
        0 <= ci < g.components@.len(),
        g.components@[ci] is Pool,
    ensures
        seg_tally_sum(rs, ci, g.components@[ci]->Pool_size + 1) == rs.len() * g.components@[ci]->Pool_pick,
    decreases rs.len(),
{
    let size = g.components@[ci]->Pool_size;
    let pick = g.components@[ci]->Pool_pick;
    if rs.len() == 0 {
        lemma_seg_tally_sum_empty(rs, ci, size + 1);
    } else {
        let init = rs.drop_last();
        assert forall|d: int| 0 <= d < init.len() implies record_fits(g, #[trigger] init[d]) by {
            assert(init[d] == rs[d]);
        }
        lemma_pool_tally_total(g, init, ci);
        lemma_seg_tally_sum_step(rs, ci, size + 1);
        let last = rs[rs.len() - 1];
        assert(record_fits(g, last));
        let seg = last.components[ci];
        assert(seg_fits(g.components@[ci], seg));
        assert forall|p: int| 0 <= p < seg.len() implies #[trigger] seg[p] < size + 1 by {}
        lemma_count_sum_total(seg, size + 1);
        assert(init.len() * pick + pick == rs.len() * pick) by (nonlinear_arith)
            requires init.len() + 1 == rs.len();
    }
}

/// Digit counts account for every record: over records that fit the game, the counts
/// of `0..base` at one position add up to the number of records.
pub proof fn lemma_digit_tally_total(g: GameSpec, rs: Seq<RecordView>, ci: int, pos: int)
    requires
        all_fit(g, rs),
        0 <= ci < g.components@.len(),
        g.components@[ci] is Digits,
        0 <= pos < g.components@[ci]->Digits_bases@.len(),
    ensures
        digit_tally_sum(rs, ci, pos, g.components@[ci]->Digits_bases@[pos] as int) == rs.len(),
    decreases rs.len(),
{
    let base = g.components@[ci]->Digits_bases@[pos];
    if rs.len() == 0 {
        lemma_digit_tally_sum_empty(rs, ci, pos, base as int);
    } else {
        let init = rs.drop_last();
        assert forall|d: int| 0 <= d < init.len() implies record_fits(g, #[trigger] init[d]) by {
            assert(init[d] == rs[d]);
        }
        lemma_digit_tally_total(g, init, ci, pos);
        lemma_digit_tally_sum_step(rs, ci, pos, base as int);
        let last = rs[rs.len() - 1];
        assert(record_fits(g, last));
        assert(seg_fits(g.components@[ci], last.components[ci]));
    }
}

// ------------------------------------------------------------------ tracked number

/// The number whose appearances a check follows: a pool number, or a value at one
/// digit position.
#[derive(Debug, Clone, Copy, PartialEq, Eq, Structural)]
pub enum TargetKind {
    PoolBall(u32),
    DigitAt { pos: usize, digit: u32 },
}

/// The fixed number each component is checked with: pool number `min(size, 7)`, or
/// value `min(base - 1, 7)` at the first digit position.
pub open spec fn default_target_spec(c: Component) -> TargetKind {
    match c {
        Component::Pool { size, .. } => TargetKind::PoolBall(if size < 7 { size } else { 7 }),
        Component::Digits { bases, .. } => TargetKind::DigitAt {
            pos: 0,
            digit: if bases@[0] - 1 < 7 { (bases@[0] - 1) as u32 } else { 7 },
        },
    }
}

/// The tracked number of a component (a digit component needs a first position with
/// a base of at least one).
pub fn default_target(comp: &Component) -> (t: TargetKind)
    requires
        comp matches Component::Digits { bases, .. } ==> bases@.len() > 0 && bases@[0] >= 1,
    ensures
        t == default_target_spec(*comp),
{
    match comp {
        Component::Pool { size, .. } => TargetKind::PoolBall(if *size < 7 { *size } else { 7 }),
        Component::Digits { bases, .. } => {
            let top = bases[0] - 1;
            TargetKind::DigitAt { pos: 0, digit: if top < 7 { top } else { 7 } }
        },
    }
}

/// Whether the tracked number appears in segment `ci` of a record.
pub open spec fn target_hit_spec(r: RecordView, ci: int, t: TargetKind) -> bool {
    match t {
        TargetKind::PoolBall(b) => r.components[ci].contains(b),
        TargetKind::DigitAt { pos, digit } => r.components[ci][pos as int] == digit,
    }
}

/// Segment `ci` exists, and has the position a digit target looks at.
pub open spec fn target_fits(r: RecordView, ci: int, t: TargetKind) -> bool {
    &&& 0 <= ci < r.components.len()
    &&& t matches TargetKind::DigitAt { pos, .. } ==> pos < r.components[ci].len()
}

/// Whether the tracked number appears in segment `comp_idx` of `rec`.
pub fn target_hit(rec: &DrawRecord, comp_idx: usize, target: &TargetKind) -> (b: bool)
    requires
        target_fits(rec@, comp_idx as int, *target),
    ensures
        b == target_hit_spec(rec@, comp_idx as int, *target),
{
    let seg = &rec.components[comp_idx];
    assert(seg@ == rec@.components[comp_idx as int]);
    match target {
        TargetKind::PoolBall(ball) => {
            assert(*target == TargetKind::PoolBall(*ball));
            let mut j: usize = 0;
            while j < seg.len()
                invariant
                    j <= seg@.len(),
                    seg@ == rec@.components[comp_idx as int],
                    *target == TargetKind::PoolBall(*ball),
                    forall|q: int| 0 <= q < j ==> seg@[q] != *ball,
                decreases seg@.len() - j,
            {
                if seg[j] == *ball {
                    assert(seg@[j as int] == *ball);
                    assert(seg@.contains(*ball));
                    return true;
                }
                j = j + 1;
            }
            false
        },
        TargetKind::DigitAt { pos, digit } => seg[*pos] == *digit,
    }
}

/// Whether the tracked number appears in each record, in order.
pub open spec fn target_presence_spec(rs: Seq<RecordView>, ci: int, t: TargetKind) -> Seq<bool> {
    Seq::new(rs.len(), |i: int| target_hit_spec(rs[i], ci, t))
}

/// Every record has what the target looks at.
pub open spec fn targets_fit(rs: Seq<RecordView>, ci: int, t: TargetKind) -> bool {
    forall|d: int| 0 <= d < rs.len() ==> target_fits(#[trigger] rs[d], ci, t)
}

/// The 0/1 sequence of the runs test for one component's tracked number.
pub fn target_presence(draws: &[DrawRecord], comp_idx: usize, target: &TargetKind) -> (r: Vec<bool>)
    requires
        targets_fit(records_view(draws@), comp_idx as int, *target),
    ensures
        r@ == target_presence_spec(records_view(draws@), comp_idx as int, *target),
{
    let ghost rs = records_view(draws@);
    let mut r: Vec<bool> = Vec::new();
    let mut i: usize = 0;
    while i < draws.len()
        invariant
            i <= draws@.len(),
            rs == records_view(draws@),
            targets_fit(rs, comp_idx as int, *target),
            r@ == target_presence_spec(rs, comp_idx as int, *target).take(i as int),
        decreases draws@.len() - i,
    {
        assert(rs[i as int] == draws@[i as int]@);
        let b = target_hit(&draws[i], comp_idx, target);
        r.push(b);
        assert(r@ =~= target_presence_spec(rs, comp_idx as int, *target).take(i + 1));
        i = i + 1;
    }
    assert(r@ =~= target_presence_spec(rs, comp_idx as int, *target));
    r
}

/// Over the draws that follow one without the tracked number: `[with it, without]`
/// (the counting part of the gambler's-fallacy check of one component).
pub fn target_gap_hits(draws: &[DrawRecord], comp_idx: usize, target: &TargetKind) -> (r: [u64; 2])
    requires
        targets_fit(records_view(draws@), comp_idx as int, *target),
    ensures
        r@[0] == after_absent(target_presence_spec(records_view(draws@), comp_idx as int, *target)).0,
        r@[1] == after_absent(target_presence_spec(records_view(draws@), comp_idx as int, *target)).1,
{
    let ghost rs = records_view(draws@);
    let ghost p = target_presence_spec(rs, comp_idx as int, *target);
    let mut gap: [u64; 2] = [0u64; 2];
    let mut prev_absent = false;
    let mut i: usize = 0;
    while i < draws.len()
        invariant
            i <= draws@.len(),
            rs == records_view(draws@),
            p == target_presence_spec(rs, comp_idx as int, *target),
            targets_fit(rs, comp_idx as int, *target),
            gap@[0] == after_absent(p.take(i as int)).0,
            gap@[1] == after_absent(p.take(i as int)).1,
            gap@[0] + gap@[1] <= i,
            prev_absent == (i > 0 && !p[i - 1]),
        decreases draws@.len() - i,
    {
        assert(rs[i as int] == draws@[i as int]@);
        let hit = target_hit(&draws[i], comp_idx, target);
        proof {
            let t = p.take(i + 1);
            assert(t.drop_last() =~= p.take(i as int));
            assert(t.last() == hit);
            if i > 0 {
                assert(t[t.len() - 2] == p[i - 1]);
            }
        }
        if prev_absent {
            if hit {
                gap[0] = gap[0] + 1;
            } else {
                gap[1] = gap[1] + 1;
            }
        }
        prev_absent = !hit;
        i = i + 1;
    }
    assert(p.take(draws@.len() as int) =~= p);
    gap
}

// ------------------------------------------------------------------ ranked picks

/// `out` lists the `k` best-ranked numbers of `lo..=hi`, best first (by count, most
/// first when `hot`, fewest first otherwise; ties to the smaller number).
pub open spec fn is_top(c: Seq<u64>, lo: int, hi: int, k: int, hot: bool, out: Seq<u32>) -> bool {
    &&& out.len() == k
    &&& forall|i: int| 0 <= i < k ==> lo <= #[trigger] out[i] <= hi
    &&& forall|i: int, j: int| 0 <= i < j < k ==> ranks_before(c, hot, out[i] as int, out[j] as int)
    &&& k > 0 ==> forall|x: int| lo <= x <= hi && !out.contains(x as u32) ==> #[trigger] ranks_before(c, hot, out.last() as int, x)
}

/// The pick that `is_top` describes (there is exactly one).
pub open spec fn top(c: Seq<u64>, lo: int, hi: int, k: int, hot: bool) -> Seq<u32> {
    choose|out: Seq<u32>| is_top(c, lo, hi, k, hot, out)
}

proof fn lemma_not_first(c: Seq<u64>, lo: int, hi: int, k: int, hot: bool, a: Seq<u32>, b: Seq<u32>, i: int)
    requires
        0 <= lo,
        hi <= u32::MAX,
        is_top(c, lo, hi, k, hot, a),
        is_top(c, lo, hi, k, hot, b),
        0 <= i < k,
        forall|j: int| 0 <= j < i ==> a[j] == b[j],
        a[i] != b[i],
    ensures
        !ranks_before(c, hot, a[i] as int, b[i] as int),
{
    if ranks_before(c, hot, a[i] as int, b[i] as int) {
        if b.contains(a[i]) {
            let j = choose|j: int| 0 <= j < b.len() && b[j] == a[i];
            if j < i {
                assert(a[j] == a[i]);
                assert(ranks_before(c, hot, a[j] as int, a[i] as int));
            } else {
                assert(j > i);
                assert(ranks_before(c, hot, b[i] as int, b[j] as int));
            }
        } else {
            assert(lo <= a[i] <= hi);
            assert((a[i] as int) as u32 == a[i]);
            assert(ranks_before(c, hot, b.last() as int, a[i] as int));
            if i < k - 1 {
                assert(ranks_before(c, hot, b[i] as int, b[k - 1] as int));
            }
        }
    }
}

proof fn lemma_top_prefix(c: Seq<u64>, lo: int, hi: int, k: int, hot: bool, a: Seq<u32>, b: Seq<u32>, i: int)
    requires
        0 <= lo,
        hi <= u32::MAX,
        is_top(c, lo, hi, k, hot, a),
        is_top(c, lo, hi, k, hot, b),
        0 <= i <= k,
    ensures
        forall|j: int| 0 <= j < i ==> a[j] == b[j],
    decreases i,
{
    if i > 0 {
        lemma_top_prefix(c, lo, hi, k, hot, a, b, i - 1);
        let m = i - 1;
        if a[m] != b[m] {
            lemma_not_first(c, lo, hi, k, hot, a, b, m);
            lemma_not_first(c, lo, hi, k, hot, b, a, m);
        }
    }
}

/// The ranking leaves no choice: two lists of the `k` best-ranked numbers in rank
/// order are the same list.
pub proof fn lemma_top_unique(c: Seq<u64>, lo: int, hi: int, k: int, hot: bool, a: Seq<u32>, b: Seq<u32>)
    requires
        0 <= lo,
        hi <= u32::MAX,
        is_top(c, lo, hi, k, hot, a),
        is_top(c, lo, hi, k, hot, b),
    ensures
        a == b,
{
    lemma_top_prefix(c, lo, hi, k, hot, a, b, k);
    assert(a =~= b);
}

/// Fewer chosen numbers than candidates: some candidate is not chosen.
proof fn lemma_pigeon_u32(chosen: Seq<u32>, cands: Seq<u32>)
    requires
        chosen.len() < cands.len(),
        cands.no_duplicates(),
    ensures
        exists|i: int| 0 <= i < cands.len() && !chosen.contains(#[trigger] cands[i]),
{
    if forall|i: int| 0 <= i < cands.len() ==> chosen.contains(#[trigger] cands[i]) {
        let cs = cands.to_set();
        let ch = chosen.to_set();
        cands.unique_seq_to_set();
        assert(cs.subset_of(ch));
        vstd::set_lib::lemma_len_subset(cs, ch);
        chosen.lemma_cardinality_of_set();
    }
}

/// The `k` best-ranked numbers of `lo..=hi` by the counts `c` (`c[x]` for number `x`),
/// best first; ties go to the smaller number.
#[verifier::loop_isolation(false)]
pub fn pick_top(c: &[u64], lo: usize, hi: usize, k: usize, hot: bool) -> (out: Vec<u32>)
    requires
        lo <= hi + 1,
        hi < c@.len(),
        hi <= u32::MAX,
        k <= hi + 1 - lo,
    ensures
        is_top(c@, lo as int, hi as int, k as int, hot, out@),
        out@ == top(c@, lo as int, hi as int, k as int, hot),
{
    let ghost cs = c@;
    let mut taken: Vec<bool> = Vec::new();
    let mut z: usize = 0;
    while z < c.len()
        invariant
            z <= c@.len(),
            taken@.len() == z,
            forall|x: int| 0 <= x < z ==> !taken@[x],
        decreases c@.len() - z,
    {
        taken.push(false);
        z = z + 1;
    }
    let mut chosen: Vec<u32> = Vec::new();
    let mut s: usize = 0;
    while s < k
        invariant
            s <= k,
            cs == c@,
            taken@.len() == c@.len(),
            chosen@.len() == s,
            forall|i: int| 0 <= i < s ==> lo <= #[trigger] chosen@[i] <= hi,
            forall|x: int| lo <= x <= hi ==> (#[trigger] taken@[x] <==> chosen@.contains(x as u32)),
            forall|i: int, j: int| 0 <= i < j < s ==> ranks_before(cs, hot, chosen@[i] as int, chosen@[j] as int),
            s > 0 ==> forall|x: int| lo <= x <= hi && !taken@[x] ==> ranks_before(cs, hot, chosen@[s - 1] as int, x),
        decreases k - s,
    {
        let mut best: usize = 0;
        let mut found = false;
        let mut x: usize = lo;
        while x <= hi
            invariant
                lo <= x <= hi + 1,
                found ==> lo <= best < x && !taken@[best as int],
                !found ==> forall|y: int| lo <= y < x ==> taken@[y],
                found ==> forall|y: int| lo <= y < x && !taken@[y] && y != best ==> ranks_before(cs, hot, best as int, y),
            decreases hi + 1 - x,
        {
            if !taken[x] {
                if !found {
                    best = x;
                    found = true;
                } else {
                    let cb = c[best];
                    let cx = c[x];
                    let better = if cx == cb { false } else if hot { cx > cb } else { cx < cb };
                    if better {
                        assert forall|y: int| lo <= y < x + 1 && !taken@[y] && y != x implies ranks_before(cs, hot, x as int, y) by {
                            if y != best {
                                assert(ranks_before(cs, hot, best as int, y));
                            }
                        }
                        best = x;
                    }
                }
            }
            x = x + 1;
        }
        proof {
            if !found {
                let cands = Seq::new((hi + 1 - lo) as nat, |i: int| (lo + i) as u32);
                assert(cands.no_duplicates());
                lemma_pigeon_u32(chosen@, cands);
                let i = choose|i: int| 0 <= i < cands.len() && !chosen@.contains(#[trigger] cands[i]);
                assert(taken@[lo + i]);
                assert(((lo + i) as int) as u32 == cands[i]);
            }
        }
        let ghost prev = chosen@;
        taken.set(best, true);
        chosen.push(best as u32);
        proof {
            assert forall|y: int| lo <= y <= hi implies (#[trigger] taken@[y] <==> chosen@.contains(y as u32)) by {
                if y == best {
                    assert(chosen@[s as int] == best as u32);
                } else {
                    assert((y as u32) as int == y);
                    if chosen@.contains(y as u32) {
                        let i = choose|i: int| 0 <= i < chosen@.len() && chosen@[i] == y as u32;
                        assert(i < s);
                        assert(prev.contains(y as u32));
                    }
                    if prev.contains(y as u32) {
                        let i = choose|i: int| 0 <= i < prev.len() && prev[i] == y as u32;
                        assert(chosen@[i] == y as u32);
                    }
                }
            }
            assert forall|i: int, j: int| 0 <= i < j < s + 1 implies ranks_before(cs, hot, chosen@[i] as int, chosen@[j] as int) by {
                if j == s {
                    assert(ranks_before(cs, hot, prev[s - 1] as int, best as int));
                    if i < s - 1 {
                        assert(ranks_before(cs, hot, prev[i] as int, prev[s - 1] as int));
                    }
                } else {
                    assert(prev[i] == chosen@[i] && prev[j] == chosen@[j]);
                }
            }
        }
        s = s + 1;
    }
    assert forall|x: int| lo <= x <= hi && !chosen@.contains(x as u32) && k > 0 implies #[trigger] ranks_before(cs, hot, chosen@.last() as int, x) by {
        assert(!taken@[x]);
    }
    proof {
        assert(is_top(cs, lo as int, hi as int, k as int, hot, chosen@));
        lemma_top_unique(cs, lo as int, hi as int, k as int, hot, chosen@, top(cs, lo as int, hi as int, k as int, hot));
    }
    chosen
}

/// The first and the last number of `lo..=hi` when ordered by count, ties kept in
/// ascending order (as a stable sort by count leaves them): the fewest-count number
/// (smallest among ties) and the most-count number (largest among ties).
pub fn extremes(c: &[u64], lo: usize, hi: usize) -> (r: (usize, usize))
    requires
        lo <= hi < c@.len(),
    ensures
        lo <= r.0 <= hi,
        lo <= r.1 <= hi,
        forall|x: int| lo <= x <= hi ==> c@[r.0 as int] < #[trigger] c@[x] || (c@[r.0 as int] == c@[x] && r.0 <= x),
        forall|x: int| lo <= x <= hi ==> #[trigger] c@[x] < c@[r.1 as int] || (c@[x] == c@[r.1 as int] && x <= r.1),
{
    let n = c.len();
    let mut cold: usize = lo;
    let mut hot: usize = lo;
    let mut x: usize = lo + 1;
    while x <= hi
        invariant
            lo < x <= hi + 1,
            hi < c@.len(),
            n == c@.len(),
            lo <= cold < x,
            lo <= hot < x,
            forall|y: int| lo <= y < x ==> c@[cold as int] < #[trigger] c@[y] || (c@[cold as int] == c@[y] && cold <= y),
            forall|y: int| lo <= y < x ==> #[trigger] c@[y] < c@[hot as int] || (c@[y] == c@[hot as int] && y <= hot),
        decreases hi + 1 - x,
    {
        if c[x] < c[cold] {
            cold = x;
        }
        if c[x] >= c[hot] {
            hot = x;
        }
        x = x + 1;
    }
    (cold, hot)
}

/// The `pick` best-ranked numbers of `1..=size` by window counts (all of them when
/// `pick > size`): the cold pick when `want_hot` is false, the hot pick otherwise.
pub fn pick_pool(wc: &[u64], size: u32, pick: u32, want_hot: bool) -> (out: Vec<u32>)
    requires
        size < wc@.len(),
    ensures
        out@ == top(wc@, 1, size as int, if pick <= size { pick as int } else { size as int }, want_hot),
        out@.len() == if pick <= size { pick as int } else { size as int },
        forall|i: int| 0 <= i < out@.len() ==> 1 <= #[trigger] out@[i] <= size,
{
    let k: u32 = if pick <= size { pick } else { size };
    pick_top(wc, 1, size as usize, k as usize, want_hot)
}

/// The best-ranked value of `0..wc.len()`: the least frequent when `want_hot` is false,
/// the most frequent otherwise, ties to the smaller value.
pub fn pick_digit(wc: &[u64], want_hot: bool) -> (d: u32)
    requires
        1 <= wc@.len() <= u32::MAX + 1,
    ensures
        d == top(wc@, 0, wc@.len() - 1, 1, want_hot)[0],
        d < wc@.len(),
{
    let v = pick_top(wc, 0, wc.len() - 1, 1, want_hot);
    v[0]
}

/// How many of `pred` occur in `actual`.
pub open spec fn overlap_spec(pred: Seq<u32>, actual: Seq<u32>) -> nat
    decreases pred.len(),
{
    if pred.len() == 0 {
        0
    } else {
        overlap_spec(pred.drop_last(), actual) + if actual.contains(pred.last()) { 1nat } else { 0nat }
    }
}

pub proof fn lemma_overlap_le(pred: Seq<u32>, actual: Seq<u32>)
    ensures
        overlap_spec(pred, actual) <= pred.len(),
    decreases pred.len(),
{
    if pred.len() > 0 {
        lemma_overlap_le(pred.drop_last(), actual);
    }
}

/// How many of the predicted numbers are among the actual ones.
pub fn overlap(pred: &[u32], actual: &[u32]) -> (n: u64)
    ensures
        n == overlap_spec(pred@, actual@),
{
    let mut n: u64 = 0;
    let mut i: usize = 0;
    while i < pred.len()
        invariant
            i <= pred@.len(),
            n == overlap_spec(pred@.take(i as int), actual@),
        decreases pred@.len() - i,
    {
        let x = pred[i];
        let mut found = false;
        let mut j: usize = 0;
        while j < actual.len()
            invariant
                j <= actual@.len(),
                found <==> exists|q: int| 0 <= q < j && actual@[q] == x,
            decreases actual@.len() - j,
        {
            if actual[j] == x {
                found = true;
            }
            j = j + 1;
        }
        proof {
            assert(pred@.take(i + 1).drop_last() =~= pred@.take(i as int));
            lemma_overlap_le(pred@.take(i as int), actual@);
            if found {
                let q = choose|q: int| 0 <= q < actual@.len() && actual@[q] == x;
                assert(actual@.contains(x));
            }
        }
        if found {
            n = n + 1;
        }
        i = i + 1;
    }
    assert(pred@.take(pred@.len() as int) =~= pred@);
    n
}

// ------------------------------------------------------------------ backtest

/// Every component can be drawn: a pool draws at most its size (below `u32::MAX`), and
/// every digit position has a base of at least one.
pub open spec fn comp_ok(c: Component) -> bool {
    match c {
        Component::Pool { size, pick, .. } => pick <= size < u32::MAX,
        Component::Digits { bases, .. } => forall|p: int| 0 <= p < bases@.len() ==> #[trigger] bases@[p] >= 1,
    }
}

pub open spec fn game_ok(g: GameSpec) -> bool {
    forall|k: int| 0 <= k < g.components@.len() ==> comp_ok(#[trigger] g.components@[k])
}

/// Every game of the table can be analysed: pools draw at most their size and every
/// digit base is at least one.
pub proof fn lemma_table_games_ok(gs: Seq<GameSpec>)
    requires
        is_game_table(gs),
    ensures
        forall|i: int| 0 <= i < gs.len() ==> game_ok(#[trigger] gs[i]),
{
    assert forall|i: int| 0 <= i < gs.len() implies game_ok(#[trigger] gs[i]) by {
        assert forall|k: int| 0 <= k < gs[i].components@.len() implies comp_ok(#[trigger] gs[i].components@[k]) by {
            let c = gs[i].components@[k];
            match c {
                Component::Digits { bases, .. } => {
                    assert forall|p: int| 0 <= p < bases@.len() implies #[trigger] bases@[p] >= 1 by {
                        if i == 5 {
                            assert(bases@ == seq![10u32, 10u32, 10u32, 10u32, 10u32, 10u32, 15u32]);
                        } else if i == 4 {
                            assert(bases@ == seq![10u32, 10u32, 10u32, 10u32, 10u32]);
                        } else {
                            assert(bases@ == seq![10u32, 10u32, 10u32]);
                        }
                    }
                },
                Component::Pool { .. } => {},
            }
        }
    }
}

/// Every record fits the game.
pub open spec fn all_fit(g: GameSpec, rs: Seq<RecordView>) -> bool {
    forall|d: int| 0 <= d < rs.len() ==> record_fits(g, #[trigger] rs[d])
}

/// Window counts of pool segment `ci` over records `lo..hi` (index `k` for number `k`).
pub open spec fn pool_window(rs: Seq<RecordView>, ci: int, size: u32, lo: int, hi: int) -> Seq<u64> {
    Seq::new(size as nat + 1, |k: int| seg_tally(rs.subrange(lo, hi), ci, k) as u64)
}

/// Window counts of position `pos` of digit segment `ci` over records `lo..hi`.
pub open spec fn digit_window(rs: Seq<RecordView>, ci: int, pos: int, base: u32, lo: int, hi: int) -> Seq<u64> {
    Seq::new(base as nat, |k: int| digit_tally(rs.subrange(lo, hi), ci, pos, k) as u64)
}

/// How many numbers a pool pick holds.
pub open spec fn pool_k(size: u32, pick: u32) -> int {
    if pick <= size { pick as int } else { size as int }
}

pub open spec fn add3(a: (nat, nat, nat), b: (nat, nat, nat)) -> (nat, nat, nat) {
    (a.0 + b.0, a.1 + b.1, a.2 + b.2)
}

pub open spec fn one_if(b: bool) -> nat {
    if b { 1 } else { 0 }
}

/// Cold, hot and random hits at positions `p..` of digit segment `ci` of record `i`,
/// each position guessed from the `w` records before; the random guess is a draw below
/// the position's base from state `s`. Also the state afterwards.
pub open spec fn digit_hits(rs: Seq<RecordView>, w: int, i: int, ci: int, bases: Seq<u32>, p: int, s: (u64, u64)) -> (
    (u64, u64),
    (nat, nat, nat),
)
    decreases bases.len() - p,
{
    if p < 0 || p >= bases.len() {
        (s, (0, 0, 0))
    } else {
        let wc = digit_window(rs, ci, p, bases[p], i - w, i);
        let a = rs[i].components[ci][p];
        let cold = top(wc, 0, bases[p] - 1, 1, false)[0];
        let hot = top(wc, 0, bases[p] - 1, 1, true)[0];
        let (s1, r) = below_spec(s, bases[p] as u64);
        let (s2, t) = digit_hits(rs, w, i, ci, bases, p + 1, s1);
        (s2, add3((one_if(cold == a), one_if(hot == a), one_if(r == a)), t))
    }
}

/// Cold, hot and random hits of component `c` (segment `ci`) at record `i`, predicted
/// from the `w` records before; the random pick uses the generator from state `s`.
pub open spec fn comp_hits(rs: Seq<RecordView>, w: int, i: int, ci: int, c: Component, s: (u64, u64)) -> (
    (u64, u64),
    (nat, nat, nat),
) {
    match c {
        Component::Pool { size, pick, .. } => {
            let wc = pool_window(rs, ci, size, i - w, i);
            let a = rs[i].components[ci];
            let (s1, v) = sample_spec(s, size, pick);
            (
                s1,
                (
                    overlap_spec(top(wc, 1, size as int, pool_k(size, pick), false), a),
                    overlap_spec(top(wc, 1, size as int, pool_k(size, pick), true), a),
                    overlap_spec(v, a),
                ),
            )
        },
        Component::Digits { bases, .. } => digit_hits(rs, w, i, ci, bases@, 0, s),
    }
}

/// Per-component hit totals of the backtest from record `i`, component `ci` on, in the
/// order records then components; also the generator state afterwards.
pub open spec fn pred_from(rs: Seq<RecordView>, w: int, cs: Seq<Component>, i: int, ci: int, s: (u64, u64)) -> (
    (u64, u64),
    Seq<(nat, nat, nat)>,
)
    decreases rs.len() - i, cs.len() - ci,
{
    if i < 0 || i >= rs.len() {
        (s, Seq::new(cs.len(), |j: int| (0nat, 0nat, 0nat)))
    } else if ci < 0 || ci >= cs.len() {
        pred_from(rs, w, cs, i + 1, 0, s)
    } else {
        let (s1, h) = comp_hits(rs, w, i, ci, cs[ci], s);
        let (s2, tot) = pred_from(rs, w, cs, i, ci + 1, s1);
        (s2, tot.update(ci, add3(tot[ci], h)))
    }
}

proof fn lemma_pred_from_len(rs: Seq<RecordView>, w: int, cs: Seq<Component>, i: int, ci: int, s: (u64, u64))
    ensures
        pred_from(rs, w, cs, i, ci, s).1.len() == cs.len(),
    decreases rs.len() - i, cs.len() - ci,
{
    if i < 0 || i >= rs.len() {
    } else if ci < 0 || ci >= cs.len() {
        lemma_pred_from_len(rs, w, cs, i + 1, 0, s);
    } else {
        let (s1, h) = comp_hits(rs, w, i, ci, cs[ci], s);
        lemma_pred_from_len(rs, w, cs, i, ci + 1, s1);
    }
}

proof fn lemma_width_le_sum(cs: Seq<Component>, k: int)
    requires
        0 <= k < cs.len(),
    ensures
        comp_width(cs[k]) <= widths_sum(cs),
    decreases cs.len(),
{
    if k < cs.len() - 1 {
        lemma_width_le_sum(cs.drop_last(), k);
        assert(cs.drop_last()[k] == cs[k]);
    }
}

proof fn lemma_seg_total_fit(g: GameSpec, rs: Seq<RecordView>, ci: int)
    requires
        all_fit(g, rs),
        0 <= ci < g.components@.len(),
    ensures
        seg_total(rs, ci) == rs.len() * comp_width(g.components@[ci]),
    decreases rs.len(),
{
    if rs.len() > 0 {
        let init = rs.drop_last();
        assert forall|d: int| 0 <= d < init.len() implies record_fits(g, #[trigger] init[d]) by {
            assert(init[d] == rs[d]);
        }
        lemma_seg_total_fit(g, init, ci);
        assert(record_fits(g, rs[rs.len() - 1]));
        assert(seg_fits(g.components@[ci], rs.last().components[ci]));
        let wd = comp_width(g.components@[ci]);
        assert(init.len() * wd + wd == rs.len() * wd) by (nonlinear_arith)
            requires init.len() + 1 == rs.len();
    }
}

proof fn lemma_sub_fit(g: GameSpec, rs: Seq<RecordView>, lo: int, hi: int)
    requires
        all_fit(g, rs),
        0 <= lo <= hi <= rs.len(),
    ensures
        all_fit(g, rs.subrange(lo, hi)),
{
    assert forall|d: int| 0 <= d < hi - lo implies record_fits(g, #[trigger] rs.subrange(lo, hi)[d]) by {
        assert(rs.subrange(lo, hi)[d] == rs[lo + d]);
    }
}

/// Pool window counts of `draws[lo..hi]`.
fn pool_window_counts(draws: &[DrawRecord], lo: usize, hi: usize, ci: usize, size: u32, Ghost(g): Ghost<GameSpec>) -> (c: Vec<u64>)
    requires
        lo <= hi <= draws@.len(),
        all_fit(g, records_view(draws@)),
        ci < g.components@.len(),
        g.components@[ci as int] matches Component::Pool { size: sz, .. } && sz == size,
        size < u32::MAX,
        draws@.len() * spec_field_count(g) <= u64::MAX,
    ensures
        c@ == pool_window(records_view(draws@), ci as int, size, lo as int, hi as int),
{
    let ghost rs = records_view(draws@);
    let sub = vstd::slice::slice_subrange(draws, lo, hi);
    let ghost sv = records_view(sub@);
    proof {
        assert(sv =~= rs.subrange(lo as int, hi as int));
        lemma_sub_fit(g, rs, lo as int, hi as int);
        lemma_seg_total_fit(g, sv, ci as int);
        lemma_width_le_sum(g.components@, ci as int);
        let wd = comp_width(g.components@[ci as int]);
        assert(sv.len() * wd <= draws@.len() * spec_field_count(g)) by (nonlinear_arith)
            requires sv.len() <= draws@.len(), wd <= spec_field_count(g);
        assert forall|d: int| 0 <= d < sv.len() implies {
            &&& ci < (#[trigger] sv[d]).components.len()
            &&& forall|p: int| 0 <= p < sv[d].components[ci as int].len() ==> sv[d].components[ci as int][p] <= size
        } by {
            assert(record_fits(g, sv[d]));
            assert(seg_fits(g.components@[ci as int], sv[d].components[ci as int]));
        }
    }
    let c = pool_counts(sub, ci, size);
    proof {
        assert forall|k: int| 0 <= k <= size implies #[trigger] seg_tally(sv, ci as int, k) <= u64::MAX by {
            lemma_seg_tally_le(sv, ci as int, k);
        }
        assert(c@ =~= pool_window(rs, ci as int, size, lo as int, hi as int));
    }
    c
}

/// Digit window counts of `draws[lo..hi]` at position `pos` of segment `ci`.
fn digit_window_counts(draws: &[DrawRecord], lo: usize, hi: usize, ci: usize, pos: usize, base: u32, Ghost(g): Ghost<GameSpec>) -> (c: Vec<u64>)
    requires
        lo <= hi <= draws@.len(),
        all_fit(g, records_view(draws@)),
        ci < g.components@.len(),
        g.components@[ci as int] matches Component::Digits { bases, .. } && pos < bases@.len() && bases@[pos as int] == base,
    ensures
        c@ == digit_window(records_view(draws@), ci as int, pos as int, base, lo as int, hi as int),
{
    let ghost rs = records_view(draws@);
    let sub = vstd::slice::slice_subrange(draws, lo, hi);
    let ghost sv = records_view(sub@);
    proof {
        assert(sv =~= rs.subrange(lo as int, hi as int));
        lemma_sub_fit(g, rs, lo as int, hi as int);
        assert forall|d: int| 0 <= d < sv.len() implies {
            &&& ci < (#[trigger] sv[d]).components.len()
            &&& pos < sv[d].components[ci as int].len()
            &&& sv[d].components[ci as int][pos as int] < base
        } by {
            assert(record_fits(g, sv[d]));
            assert(seg_fits(g.components@[ci as int], sv[d].components[ci as int]));
        }
    }
    let c = digit_counts(sub, ci, pos, base);
    proof {
        assert forall|k: int| 0 <= k < base implies #[trigger] digit_tally(sv, ci as int, pos as int, k) <= u64::MAX by {
            lemma_digit_tally_le(sv, ci as int, pos as int, k);
        }
        assert(c@ =~= digit_window(rs, ci as int, pos as int, base, lo as int, hi as int));
    }
    c
}

/// From record `window` on, predicts every component of each record from the `window`
/// records before it with the cold, hot and random strategies and adds up the hits per
/// component (`[cold, hot, random]`); also returns the number of backtested records
/// (the counting part of the backtest; averages are these totals divided by it).
pub fn prediction_totals(spec: &GameSpec, draws: &[DrawRecord], window: usize, rng: &mut Rng) -> (r: (u64, Vec<[u64; 3]>))
    requires
        game_ok(*spec),
        all_fit(*spec, records_view(draws@)),
        draws@.len() * spec_field_count(*spec) <= u64::MAX,
    ensures
        draws@.len() <= window ==> r.0 == 0 && r.1@.len() == 0 && final(rng)@ == old(rng)@,
        draws@.len() > window ==> {
            let pf = pred_from(records_view(draws@), window as int, spec.components@, window as int, 0, old(rng)@);
            &&& r.0 == draws@.len() - window
            &&& final(rng)@ == pf.0
            &&& r.1@.len() == spec.components@.len()
            &&& forall|c: int| 0 <= c < r.1@.len() ==> (#[trigger] r.1@[c])[0] == pf.1[c].0 && r.1@[c][1] == pf.1[c].1
                && r.1@[c][2] == pf.1[c].2
        },
{
    if draws.len() <= window {
        return (0, Vec::new());
    }
    let ghost g = *spec;
    let ghost rs = records_view(draws@);
    let ghost cs = spec.components@;
    let ghost w = window as int;
    let ghost s0 = rng@;
    let ghost fc = spec_field_count(g);
    let ncomp = spec.components.len();
    let mut sums: Vec<[u64; 3]> = Vec::new();
    let mut z: usize = 0;
    while z < ncomp
        invariant
            z <= ncomp,
            ncomp == cs.len(),
            sums@.len() == z,
            forall|c: int| 0 <= c < z ==> (#[trigger] sums@[c])[0] == 0 && sums@[c][1] == 0 && sums@[c][2] == 0,
        decreases ncomp - z,
    {
        sums.push([0u64, 0u64, 0u64]);
        z = z + 1;
    }
    proof {
        lemma_pred_from_len(rs, w, cs, w, 0, s0);
    }
    let mut n: u64 = 0;
    let mut i: usize = window;
    while i < draws.len()
        invariant
            g == *spec,
            rs == records_view(draws@),
            cs == spec.components@,
            w == window,
            fc == spec_field_count(g),
            ncomp == cs.len(),
            window <= i <= draws@.len(),
            game_ok(g),
            all_fit(g, rs),
            draws@.len() * fc <= u64::MAX,
            n == i - window,
            sums@.len() == ncomp,
            pred_from(rs, w, cs, w, 0, s0).0 == pred_from(rs, w, cs, i as int, 0, rng@).0,
            forall|c: int| 0 <= c < ncomp ==> {
                let tot = pred_from(rs, w, cs, w, 0, s0).1[c];
                let rest = pred_from(rs, w, cs, i as int, 0, rng@).1[c];
                &&& tot.0 == (#[trigger] sums@[c])[0] + rest.0
                &&& tot.1 == sums@[c][1] + rest.1
                &&& tot.2 == sums@[c][2] + rest.2
            },
            forall|c: int, j: int| 0 <= c < ncomp && 0 <= j < 3 ==> #[trigger] sums@[c][j] <= (i - w) * fc,
        decreases draws@.len() - i,
    {
        let mut ci: usize = 0;
        proof {
            assert(draws@.len() * fc >= (i - w + 1) * fc) by (nonlinear_arith)
                requires i < draws@.len(), w >= 0, fc >= 0;
        }
        while ci < ncomp
            invariant
                g == *spec,
                rs == records_view(draws@),
                cs == spec.components@,
                w == window,
                fc == spec_field_count(g),
                ncomp == cs.len(),
                window <= i < draws@.len(),
                ci <= ncomp,
                game_ok(g),
                all_fit(g, rs),
                draws@.len() * fc <= u64::MAX,
                (i - w + 1) * fc <= u64::MAX,
                sums@.len() == ncomp,
                pred_from(rs, w, cs, w, 0, s0).0 == pred_from(rs, w, cs, i as int, ci as int, rng@).0,
                forall|c: int| 0 <= c < ncomp ==> {
                    let tot = pred_from(rs, w, cs, w, 0, s0).1[c];
                    let rest = pred_from(rs, w, cs, i as int, ci as int, rng@).1[c];
                    &&& tot.0 == (#[trigger] sums@[c])[0] + rest.0
                    &&& tot.1 == sums@[c][1] + rest.1
                    &&& tot.2 == sums@[c][2] + rest.2
                },
                forall|c: int, j: int| 0 <= c < ncomp && 0 <= j < 3 ==> #[trigger] sums@[c][j]
                    <= (i - w) * fc + if c < ci { fc } else { 0 },
            decreases ncomp - ci,
        {
            let ghost s1 = rng@;
            let ghost before = sums@;
            let ghost ch = comp_hits(rs, w, i as int, ci as int, cs[ci as int], s1);
            let ghost wd = comp_width(cs[ci as int]);
            proof {
                lemma_pred_from_len(rs, w, cs, i as int, ci + 1, ch.0);
                lemma_width_le_sum(cs, ci as int);
                assert(record_fits(g, rs[i as int]));
                assert(seg_fits(cs[ci as int], rs[i as int].components[ci as int]));
                assert(comp_ok(cs[ci as int]));
                assert(rs[i as int] == draws@[i as int]@);
                assert(draws@[i as int].components@[ci as int]@ == rs[i as int].components[ci as int]);
            }
            let actual = &draws[i].components[ci];
            let mut h: [u64; 3] = [0u64; 3];
            match &spec.components[ci] {
                Component::Pool { size, pick, .. } => {
                    let wc = pool_window_counts(draws, i - window, i, ci, *size, Ghost(g));
                    let cold = pick_pool(&wc, *size, *pick, false);
                    let hot = pick_pool(&wc, *size, *pick, true);
                    let rnd = rng.sample(*size, *pick);
                    let h0 = overlap(&cold, actual);
                    let h1 = overlap(&hot, actual);
                    let h2 = overlap(&rnd, actual);
                    proof {
                        lemma_overlap_le(cold@, actual@);
                        lemma_overlap_le(hot@, actual@);
                        lemma_overlap_le(rnd@, actual@);
                    }
                    h = [h0, h1, h2];
                    assert(ch.0 == rng@);
                    assert(h[0] <= wd && h[1] <= wd && h[2] <= wd);
                },
                Component::Digits { bases, .. } => {
                    let mut pos: usize = 0;
                    while pos < bases.len()
                        invariant
                            rs == records_view(draws@),
                            w == window,
                            window <= i < draws@.len(),
                            ci < ncomp,
                            cs[ci as int] matches Component::Digits { bases: bs, .. } && bs@ == bases@,
                            all_fit(g, rs),
                            ci < g.components@.len(),
                            g.components@[ci as int] == cs[ci as int],
                            comp_ok(cs[ci as int]),
                            actual@ == rs[i as int].components[ci as int],
                            actual@.len() == bases@.len(),
                            pos <= bases@.len(),
                            h[0] <= pos && h[1] <= pos && h[2] <= pos,
                            ch == comp_hits(rs, w, i as int, ci as int, cs[ci as int], s1),
                            ch.0 == digit_hits(rs, w, i as int, ci as int, bases@, pos as int, rng@).0,
                            ch.1 == add3((h[0] as nat, h[1] as nat, h[2] as nat), digit_hits(rs, w, i as int, ci as int, bases@, pos as int, rng@).1),
                        decreases bases@.len() - pos,
                    {
                        let base = bases[pos];
                        assert(base >= 1);
                        let wc = digit_window_counts(draws, i - window, i, ci, pos, base, Ghost(g));
                        let cold = pick_digit(&wc, false);
                        let hot = pick_digit(&wc, true);
                        let rnd = rng.below(base as u64);
                        let a = actual[pos];
                        if cold == a {
                            h[0] = h[0] + 1;
                        }
                        if hot == a {
                            h[1] = h[1] + 1;
                        }
                        if rnd == a as u64 {
                            h[2] = h[2] + 1;
                        }
                        pos = pos + 1;
                    }
                    assert(ch.0 == rng@);
                    assert(h[0] <= wd && h[1] <= wd && h[2] <= wd);
                },
            }
            proof {
                assert(h[0] <= wd && h[1] <= wd && h[2] <= wd);
                assert((i - w) * fc + fc == (i - w + 1) * fc) by (nonlinear_arith);
            }
            sums.set(ci, [sums[ci][0] + h[0], sums[ci][1] + h[1], sums[ci][2] + h[2]]);
            proof {
                let tot = pred_from(rs, w, cs, i as int, ci + 1, rng@).1;
                assert(pred_from(rs, w, cs, i as int, ci as int, s1).1 == tot.update(ci as int, add3(tot[ci as int], ch.1)));
                assert forall|c: int| 0 <= c < ncomp implies {
                    let tt = pred_from(rs, w, cs, w, 0, s0).1[c];
                    let rest = pred_from(rs, w, cs, i as int, ci + 1, rng@).1[c];
                    &&& tt.0 == (#[trigger] sums@[c])[0] + rest.0
                    &&& tt.1 == sums@[c][1] + rest.1
                    &&& tt.2 == sums@[c][2] + rest.2
                } by {
                    if c != ci {
                        assert(sums@[c] == before[c]);
                    }
                }
                assert forall|c: int, j: int| 0 <= c < ncomp && 0 <= j < 3 implies #[trigger] sums@[c][j]
                    <= (i - w) * fc + if c < ci + 1 { fc } else { 0 } by {
                    if c != ci {
                        assert(sums@[c] == before[c]);
                    }
                }
            }
            ci = ci + 1;
        }
        proof {
            assert(pred_from(rs, w, cs, i as int, ncomp as int, rng@) == pred_from(rs, w, cs, i + 1, 0, rng@));
            assert((i - w) * fc + fc == (i + 1 - w) * fc) by (nonlinear_arith);
        }
        n = n + 1;
        i = i + 1;
    }
    proof {
        assert forall|c: int| 0 <= c < ncomp implies pred_from(rs, w, cs, i as int, 0, rng@).1[c] == (0nat, 0nat, 0nat) by {}
    }
    (n, sums)
}

// ------------------------------------------------------------------ strategy tickets

/// One segment picked from full-history counts: the `pick` coldest (or hottest) pool
/// numbers, or the coldest (or hottest) value at each digit position.
pub open spec fn ranked_segment(rs: Seq<RecordView>, ci: int, c: Component, hot: bool) -> Seq<u32> {
    match c {
        Component::Pool { size, pick, .. } => top(
            pool_window(rs, ci, size, 0, rs.len() as int),
            1,
            size as int,
            pool_k(size, pick),
            hot,
        ),
        Component::Digits { bases, .. } => Seq::new(
            bases@.len(),
            |p: int| top(digit_window(rs, ci, p, bases@[p], 0, rs.len() as int), 0, bases@[p] - 1, 1, hot)[0],
        ),
    }
}

/// The cold (or hot) ticket: one ranked segment per component.
pub open spec fn ranked_ticket(rs: Seq<RecordView>, cs: Seq<Component>, hot: bool) -> Seq<Seq<u32>> {
    Seq::new(cs.len(), |ci: int| ranked_segment(rs, ci, cs[ci], hot))
}

/// Random values for digit positions `p..`, one draw below each base, from state `s`.
pub open spec fn random_digits(bases: Seq<u32>, p: int, s: (u64, u64)) -> ((u64, u64), Seq<u32>)
    decreases bases.len() - p,
{
    if p < 0 || p >= bases.len() {
        (s, Seq::empty())
    } else {
        let (s1, r) = below_spec(s, bases[p] as u64);
        let (s2, rest) = random_digits(bases, p + 1, s1);
        (s2, seq![r as u32] + rest)
    }
}

/// A random segment: a sample of the pool, or one draw per digit position.
pub open spec fn random_segment(c: Component, s: (u64, u64)) -> ((u64, u64), Seq<u32>) {
    match c {
        Component::Pool { size, pick, .. } => sample_spec(s, size, pick),
        Component::Digits { bases, .. } => random_digits(bases@, 0, s),
    }
}

/// The random ticket for components `ci..`, from state `s`, and the state afterwards.
pub open spec fn random_ticket(cs: Seq<Component>, ci: int, s: (u64, u64)) -> ((u64, u64), Seq<Seq<u32>>)
    decreases cs.len() - ci,
{
    if ci < 0 || ci >= cs.len() {
        (s, Seq::empty())
    } else {
        let (s1, seg) = random_segment(cs[ci], s);
        let (s2, rest) = random_ticket(cs, ci + 1, s1);
        (s2, seq![seg] + rest)
    }
}

/// The cold (`hot == false`) or hot ticket of a game from all its draws.
fn ranked_ticket_exec(spec: &GameSpec, draws: &[DrawRecord], hot: bool) -> (t: Vec<Vec<u32>>)
    requires
        game_ok(*spec),
        all_fit(*spec, records_view(draws@)),
        draws@.len() * spec_field_count(*spec) <= u64::MAX,
    ensures
        segs_view(t@) == ranked_ticket(records_view(draws@), spec.components@, hot),
{
    let ghost g = *spec;
    let ghost rs = records_view(draws@);
    let ghost cs = spec.components@;
    let len = draws.len();
    let mut t: Vec<Vec<u32>> = Vec::new();
    let mut ci: usize = 0;
    while ci < spec.components.len()
        invariant
            g == *spec,
            rs == records_view(draws@),
            cs == spec.components@,
            len == draws@.len(),
            ci <= cs.len(),
            game_ok(g),
            all_fit(g, rs),
            draws@.len() * spec_field_count(g) <= u64::MAX,
            segs_view(t@) == ranked_ticket(rs, cs, hot).take(ci as int),
        decreases cs.len() - ci,
    {
        assert(comp_ok(cs[ci as int]));
        let ghost prev = segs_view(t@);
        match &spec.components[ci] {
            Component::Pool { size, pick, .. } => {
                let wc = pool_window_counts(draws, 0, len, ci, *size, Ghost(g));
                let seg = pick_pool(&wc, *size, *pick, hot);
                assert(seg@ == ranked_segment(rs, ci as int, cs[ci as int], hot));
                t.push(seg);
                assert(segs_view(t@) =~= prev.push(seg@));
            },
            Component::Digits { bases, .. } => {
                let mut seg: Vec<u32> = Vec::new();
                let mut pos: usize = 0;
                while pos < bases.len()
                    invariant
                        rs == records_view(draws@),
                        len == draws@.len(),
                        ci < cs.len(),
                        cs[ci as int] matches Component::Digits { bases: bs, .. } && bs@ == bases@,
                        all_fit(g, rs),
                        ci < g.components@.len(),
                        g.components@[ci as int] == cs[ci as int],
                        comp_ok(cs[ci as int]),
                        pos <= bases@.len(),
                        seg@ == ranked_segment(rs, ci as int, cs[ci as int], hot).take(pos as int),
                    decreases bases@.len() - pos,
                {
                    let base = bases[pos];
                    assert(base >= 1);
                    let wc = digit_window_counts(draws, 0, len, ci, pos, base, Ghost(g));
                    let d = pick_digit(&wc, hot);
                    seg.push(d);
                    assert(seg@ =~= ranked_segment(rs, ci as int, cs[ci as int], hot).take(pos + 1));
                    pos = pos + 1;
                }
                assert(seg@ =~= ranked_segment(rs, ci as int, cs[ci as int], hot));
                t.push(seg);
                assert(segs_view(t@) =~= prev.push(seg@));
            },
        }
        assert(segs_view(t@) =~= ranked_ticket(rs, cs, hot).take(ci + 1));
        ci = ci + 1;
    }
    assert(ranked_ticket(rs, cs, hot).take(cs.len() as int) =~= ranked_ticket(rs, cs, hot));
    t
}

/// A random ticket: a sample per pool, one draw per digit position, components in order.
fn random_ticket_exec(spec: &GameSpec, rng: &mut Rng) -> (t: Vec<Vec<u32>>)
    requires
        game_ok(*spec),
    ensures
        (final(rng)@, segs_view(t@)) == random_ticket(spec.components@, 0, old(rng)@),
{
    let ghost cs = spec.components@;
    let ghost s0 = old(rng)@;
    let mut t: Vec<Vec<u32>> = Vec::new();
    let mut ci: usize = 0;
    while ci < spec.components.len()
        invariant
            cs == spec.components@,
            ci <= cs.len(),
            game_ok(*spec),
            random_ticket(cs, 0, s0).0 == random_ticket(cs, ci as int, rng@).0,
            random_ticket(cs, 0, s0).1 == segs_view(t@) + random_ticket(cs, ci as int, rng@).1,
        decreases cs.len() - ci,
    {
        assert(comp_ok(cs[ci as int]));
        let ghost s1 = rng@;
        let ghost prev = segs_view(t@);
        match &spec.components[ci] {
            Component::Pool { size, pick, .. } => {
                let seg = rng.sample(*size, *pick);
                t.push(seg);
            },
            Component::Digits { bases, .. } => {
                let mut seg: Vec<u32> = Vec::new();
                let mut pos: usize = 0;
                while pos < bases.len()
                    invariant
                        ci < cs.len(),
                        cs[ci as int] matches Component::Digits { bases: bs, .. } && bs@ == bases@,
                        comp_ok(cs[ci as int]),
                        pos <= bases@.len(),
                        random_digits(bases@, 0, s1).0 == random_digits(bases@, pos as int, rng@).0,
                        random_digits(bases@, 0, s1).1 == seg@ + random_digits(bases@, pos as int, rng@).1,
                    decreases bases@.len() - pos,
                {
                    let base = bases[pos];
                    assert(base >= 1);
                    let ghost before = seg@;
                    let ghost sp = rng@;
                    let r = rng.below(base as u64);
                    seg.push(r as u32);
                    proof {
                        let rest = random_digits(bases@, pos + 1, rng@).1;
                        assert(random_digits(bases@, pos as int, sp).1 == seq![r as u32] + rest);
                        assert(before + (seq![r as u32] + rest) =~= seg@ + rest);
                    }
                    pos = pos + 1;
                }
                assert(seg@ + Seq::<u32>::empty() =~= seg@);
                t.push(seg);
            },
        }
        proof {
            let seg_v = random_segment(cs[ci as int], s1).1;
            let rest = random_ticket(cs, ci + 1, rng@).1;
            assert(segs_view(t@) =~= prev.push(seg_v));
            assert(prev + (seq![seg_v] + rest) =~= segs_view(t@) + rest);
        }
        ci = ci + 1;
    }
    assert(segs_view(t@) + Seq::<Seq<u32>>::empty() =~= segs_view(t@));
    t
}

/// One demonstration ticket: the strategy's name, why it is chosen, and the numbers
/// (one segment per component).
pub struct StrategyPick {
    pub strategy: String,
    pub why: String,
    pub ticket: Vec<Vec<u32>>,
}

fn text(s: &str) -> (r: String)
    ensures
        r@ == s@,
{
    let mut r = String::new();
    push_str(&mut r, s);
    r
}

/// The three demonstration tickets: cold numbers, hot numbers (both by full-history
/// counts) and a random ticket; none of them wins more often than any other ticket.
pub fn strategy_picks(spec: &GameSpec, draws: &[DrawRecord], rng: &mut Rng) -> (r: Vec<StrategyPick>)
    requires
        game_ok(*spec),
        all_fit(*spec, records_view(draws@)),
        draws@.len() * spec_field_count(*spec) <= u64::MAX,
    ensures
        r@.len() == 3,
        r@[0].strategy@ == "冷号"@,
        r@[0].why@ == "赌'冷号该回补了'——但历史遗漏不改变下期概率,无效。"@,
        segs_view(r@[0].ticket@) == ranked_ticket(records_view(draws@), spec.components@, false),
        r@[1].strategy@ == "热号"@,
        r@[1].why@ == "赌'热号继续走强'——但开奖独立同分布,无效。"@,
        segs_view(r@[1].ticket@) == ranked_ticket(records_view(draws@), spec.components@, true),
        r@[2].strategy@ == "机选"@,
        r@[2].why@ == "完全不依赖历史,随机一注。"@,
        (final(rng)@, segs_view(r@[2].ticket@)) == random_ticket(spec.components@, 0, old(rng)@),
{
    let cold = ranked_ticket_exec(spec, draws, false);
    let hot = ranked_ticket_exec(spec, draws, true);
    let rnd = random_ticket_exec(spec, rng);
    let mut out: Vec<StrategyPick> = Vec::new();
    out.push(StrategyPick { strategy: text("冷号"), why: text("赌'冷号该回补了'——但历史遗漏不改变下期概率,无效。"), ticket: cold });
    out.push(StrategyPick { strategy: text("热号"), why: text("赌'热号继续走强'——但开奖独立同分布,无效。"), ticket: hot });
    out.push(StrategyPick { strategy: text("机选"), why: text("完全不依赖历史,随机一注。"), ticket: rnd });
    out
}

// ------------------------------------------------------------------ coverage

/// First and last draw of a history, how many draws, and the last draw's numbers.
pub struct Coverage {
    pub first_issue: String,
    pub first_date: String,
    pub last_issue: String,
    pub last_date: String,
    pub count: usize,
    pub latest: Vec<Vec<u32>>,
}

/// What a history covers (at least one draw).
pub fn coverage(draws: &[DrawRecord]) -> (c: Coverage)
    requires
        draws@.len() >= 1,
    ensures
        c.first_issue@ == draws@[0].issue@,
        c.first_date@ == draws@[0].date@,
        c.last_issue@ == draws@[draws@.len() - 1].issue@,
        c.last_date@ == draws@[draws@.len() - 1].date@,
        c.count == draws@.len(),
        segs_view(c.latest@) == draws@[draws@.len() - 1]@.components,
{
    let first = &draws[0];
    let last = &draws[draws.len() - 1];
    let mut latest: Vec<Vec<u32>> = Vec::new();
    let mut k: usize = 0;
    while k < last.components.len()
        invariant
            k <= last.components@.len(),
            segs_view(latest@) == segs_view(last.components@).take(k as int),
        decreases last.components@.len() - k,
    {
        let src = &last.components[k];
        let mut seg: Vec<u32> = Vec::new();
        let mut p: usize = 0;
        while p < src.len()
            invariant
                p <= src@.len(),
                seg@ == src@.take(p as int),
            decreases src@.len() - p,
        {
            seg.push(src[p]);
            assert(seg@ =~= src@.take(p + 1));
            p = p + 1;
        }
        assert(seg@ =~= src@);
        let ghost prev = segs_view(latest@);
        latest.push(seg);
        assert(segs_view(latest@) =~= prev.push(seg@));
        assert(segs_view(last.components@)[k as int] == src@);
        assert(segs_view(latest@) =~= segs_view(last.components@).take(k + 1));
        k = k + 1;
    }
    assert(segs_view(last.components@).take(last.components@.len() as int) =~= segs_view(last.components@));
    Coverage {
        first_issue: first.issue.clone(),
        first_date: first.date.clone(),
        last_issue: last.issue.clone(),
        last_date: last.date.clone(),
        count: draws.len(),
        latest,
    }
}

// ------------------------------------------------------------------ whole game

/// Every digit component has at least one position (its tracked number looks at the
/// first one).
pub open spec fn has_first_positions(g: GameSpec) -> bool {
    forall|k: int| 0 <= k < g.components@.len() ==> (#[trigger] g.components@[k] matches Component::Digits {
        bases,
        ..
    } ==> bases@.len() > 0)
}

/// A history that the whole analysis can run on: the game can be drawn and tracked,
/// every record fits it, there is at least one record, and the counts fit in `u64`.
pub open spec fn analysable(g: GameSpec, rs: Seq<RecordView>) -> bool {
    &&& game_ok(g)
    &&& has_first_positions(g)
    &&& all_fit(g, rs)
    &&& rs.len() >= 1
    &&& rs.len() * spec_field_count(g) <= u64::MAX
}

#[verifier::loop_isolation(false)]
fn comp_is_ok(c: &Component) -> (b: bool)
    ensures
        b == (comp_ok(*c) && (*c matches Component::Digits { bases, .. } ==> bases@.len() > 0)),
{
    match c {
        Component::Pool { size, pick, .. } => *pick <= *size && *size < u32::MAX,
        Component::Digits { bases, .. } => {
            if bases.len() == 0 {
                return false;
            }
            let mut p: usize = 0;
            while p < bases.len()
                invariant
                    p <= bases@.len(),
                    forall|q: int| 0 <= q < p ==> #[trigger] bases@[q] >= 1,
                decreases bases@.len() - p,
            {
                if bases[p] == 0 {
                    assert(!(bases@[p as int] >= 1));
                    return false;
                }
                p = p + 1;
            }
            true
        },
    }
}

#[verifier::loop_isolation(false)]
fn segment_fits(c: &Component, seg: &Vec<u32>) -> (b: bool)
    ensures
        b == seg_fits(*c, seg@),
{
    match c {
        Component::Pool { size, pick, .. } => {
            if seg.len() != *pick as usize {
                return false;
            }
            let mut i: usize = 0;
            while i < seg.len()
                invariant
                    i <= seg@.len(),
                    forall|q: int| 0 <= q < i ==> 1 <= #[trigger] seg@[q] <= *size,
                    forall|a: int, b: int| 0 <= a < b < i ==> seg@[a] < seg@[b],
                decreases seg@.len() - i,
            {
                if seg[i] < 1 || seg[i] > *size {
                    assert(!(1 <= seg@[i as int] <= *size));
                    return false;
                }
                if i > 0 && seg[i - 1] >= seg[i] {
                    assert(!(seg@[i - 1] < seg@[i as int]));
                    return false;
                }
                proof {
                    assert forall|a: int, b: int| 0 <= a < b < i + 1 implies seg@[a] < seg@[b] by {
                        if b == i && a < i - 1 {
                            assert(seg@[a] < seg@[i - 1]);
                        }
                    }
                }
                i = i + 1;
            }
            true
        },
        Component::Digits { bases, .. } => {
            if seg.len() != bases.len() {
                return false;
            }
            let mut i: usize = 0;
            while i < seg.len()
                invariant
                    i <= seg@.len(),
                    seg@.len() == bases@.len(),
                    forall|q: int| 0 <= q < i ==> #[trigger] seg@[q] < bases@[q],
                decreases seg@.len() - i,
            {
                if seg[i] >= bases[i] {
                    assert(!(seg@[i as int] < bases@[i as int]));
                    return false;
                }
                i = i + 1;
            }
            true
        },
    }
}

/// Total number fields of a game row, when it fits in `u64`.
fn field_count_checked(spec: &GameSpec) -> (r: Option<u64>)
    ensures
        r matches Some(n) ==> n == spec_field_count(*spec),
        r is None ==> spec_field_count(*spec) > u64::MAX,
{
    let ghost cs = spec.components@;
    let mut total: u64 = 2;
    let mut i: usize = 0;
    while i < spec.components.len()
        invariant
            cs == spec.components@,
            i <= cs.len(),
            total == 2 + widths_sum(cs.take(i as int)),
        decreases cs.len() - i,
    {
        proof {
            assert(cs.take(i + 1).drop_last() =~= cs.take(i as int));
        }
        let w = spec.components[i].width() as u64;
        match total.checked_add(w) {
            Some(t) => total = t,
            None => {
                proof {
                    crate::game_spec::lemma_widths_sum_take_mono(cs, (i + 1) as int, cs.len() as int);
                    assert(cs.take(cs.len() as int) =~= cs);
                }
                return None;
            },
        }
        i = i + 1;
    }
    assert(cs.take(cs.len() as int) =~= cs);
    Some(total)
}

/// Whether the whole analysis can run on `draws` for the game `spec`.
#[verifier::loop_isolation(false)]
pub fn analysis_ready(spec: &GameSpec, draws: &[DrawRecord]) -> (b: bool)
    ensures
        b == analysable(*spec, records_view(draws@)),
{
    let ghost g = *spec;
    let ghost rs = records_view(draws@);
    let ghost cs = spec.components@;
    let mut k: usize = 0;
    while k < spec.components.len()
        invariant
            cs == spec.components@,
            k <= cs.len(),
            forall|j: int| 0 <= j < k ==> comp_ok(#[trigger] cs[j]) && (cs[j] matches Component::Digits { bases, .. } ==> bases@.len() > 0),
        decreases cs.len() - k,
    {
        if !comp_is_ok(&spec.components[k]) {
            return false;
        }
        k = k + 1;
    }
    assert(game_ok(g) && has_first_positions(g));
    if draws.len() == 0 {
        return false;
    }
    let mut d: usize = 0;
    while d < draws.len()
        invariant
            rs == records_view(draws@),
            cs == spec.components@,
            d <= draws@.len(),
            forall|e: int| 0 <= e < d ==> record_fits(g, #[trigger] rs[e]),
        decreases draws@.len() - d,
    {
        let rec = &draws[d];
        assert(rs[d as int] == rec@);
        if rec.components.len() != spec.components.len() {
            assert(!record_fits(g, rs[d as int]));
            return false;
        }
        let mut c: usize = 0;
        while c < rec.components.len()
            invariant
                c <= rec.components@.len(),
                rec.components@.len() == cs.len(),
                cs == spec.components@,
                rs[d as int] == rec@,
                forall|j: int| 0 <= j < c ==> seg_fits(cs[j], #[trigger] rec@.components[j]),
            decreases rec.components@.len() - c,
        {
            assert(rec@.components[c as int] == rec.components@[c as int]@);
            if !segment_fits(&spec.components[c], &rec.components[c]) {
                assert(!record_fits(g, rs[d as int]));
                return false;
            }
            c = c + 1;
        }
        d = d + 1;
    }
    assert(all_fit(g, rs));
    match field_count_checked(spec) {
        None => {
            assert(rs.len() * spec_field_count(g) > u64::MAX) by (nonlinear_arith)
                requires rs.len() >= 1, spec_field_count(g) > u64::MAX;
            false
        },
        Some(fc) => {
            let n = draws.len() as u64;
            match n.checked_mul(fc) {
                Some(_) => true,
                None => false,
            }
        },
    }
}

/// Tallies and tracked-number counts of one component.
pub struct ComponentCounts {
    /// A pool: one tally, index `k` for number `k` (`0..=size`). Digits: one tally per
    /// position, index `k` for value `k` (`0..base`).
    pub tallies: Vec<Vec<u64>>,
    pub target: TargetKind,
    /// `[with the target, without]` over the draws that follow one without it.
    pub gap: [u64; 2],
    /// Whether the target appears in each draw.
    pub presence: Vec<bool>,
}

/// The tallies of a component over the records.
pub open spec fn tallies_spec(rs: Seq<RecordView>, ci: int, c: Component) -> Seq<Seq<u64>> {
    match c {
        Component::Pool { size, .. } => seq![Seq::new(size as nat + 1, |k: int| seg_tally(rs, ci, k) as u64)],
        Component::Digits { bases, .. } => Seq::new(
            bases@.len(),
            |p: int| Seq::new(bases@[p] as nat, |k: int| digit_tally(rs, ci, p, k) as u64),
        ),
    }
}

pub open spec fn tallies_view(v: Seq<Vec<u64>>) -> Seq<Seq<u64>> {
    v.map_values(|t: Vec<u64>| t@)
}

/// Everything the analysis of one game counts, before any averaging.
pub struct GameCounts {
    pub coverage: Coverage,
    pub components: Vec<ComponentCounts>,
    pub pred_n: u64,
    pub pred: Vec<[u64; 3]>,
    pub picks: Vec<StrategyPick>,
}

/// Counts of one component.
fn component_counts(spec: &GameSpec, draws: &[DrawRecord], ci: usize) -> (r: ComponentCounts)
    requires
        analysable(*spec, records_view(draws@)),
        ci < spec.components@.len(),
    ensures
        tallies_view(r.tallies@) == tallies_spec(records_view(draws@), ci as int, spec.components@[ci as int]),
        r.target == default_target_spec(spec.components@[ci as int]),
        r.gap@[0] == after_absent(target_presence_spec(records_view(draws@), ci as int, r.target)).0,
        r.gap@[1] == after_absent(target_presence_spec(records_view(draws@), ci as int, r.target)).1,
        r.presence@ == target_presence_spec(records_view(draws@), ci as int, r.target),
{
    let ghost g = *spec;
    let ghost rs = records_view(draws@);
    let ghost cs = spec.components@;
    let len = draws.len();
    let comp = &spec.components[ci];
    assert(comp_ok(cs[ci as int]));
    let mut tallies: Vec<Vec<u64>> = Vec::new();
    match comp {
        Component::Pool { size, .. } => {
            let c = pool_window_counts(draws, 0, len, ci, *size, Ghost(g));
            proof {
                assert(rs.subrange(0, rs.len() as int) =~= rs);
            }
            tallies.push(c);
            assert(tallies_view(tallies@) =~= tallies_spec(rs, ci as int, cs[ci as int]));
        },
        Component::Digits { bases, .. } => {
            let mut pos: usize = 0;
            while pos < bases.len()
                invariant
                    rs == records_view(draws@),
                    len == draws@.len(),
                    ci < cs.len(),
                    cs[ci as int] matches Component::Digits { bases: bs, .. } && bs@ == bases@,
                    analysable(g, rs),
                    g.components@ == cs,
                    comp_ok(cs[ci as int]),
                    pos <= bases@.len(),
                    tallies_view(tallies@) == tallies_spec(rs, ci as int, cs[ci as int]).take(pos as int),
                decreases bases@.len() - pos,
            {
                let base = bases[pos];
                assert(base >= 1);
                let c = digit_window_counts(draws, 0, len, ci, pos, base, Ghost(g));
                proof {
                    assert(rs.subrange(0, rs.len() as int) =~= rs);
                }
                let ghost prev = tallies_view(tallies@);
                assert(c@ =~= tallies_spec(rs, ci as int, cs[ci as int])[pos as int]);
                tallies.push(c);
                assert(tallies_view(tallies@) =~= prev.push(c@));
                assert(tallies_view(tallies@) =~= tallies_spec(rs, ci as int, cs[ci as int]).take(pos + 1));
                pos = pos + 1;
            }
            assert(tallies_view(tallies@) =~= tallies_spec(rs, ci as int, cs[ci as int]));
        },
    }
    assert(has_first_positions(g) ==> (cs[ci as int] matches Component::Digits { bases, .. } ==> bases@.len() > 0));
    let target = default_target(comp);
    proof {
        assert forall|d: int| 0 <= d < rs.len() implies target_fits(#[trigger] rs[d], ci as int, target) by {
            assert(record_fits(g, rs[d]));
            assert(seg_fits(cs[ci as int], rs[d].components[ci as int]));
        }
    }
    let gap = target_gap_hits(draws, ci, &target);
    let presence = target_presence(draws, ci, &target);
    ComponentCounts { tallies, target, gap, presence }
}

/// Runs every count of the analysis of one game: coverage, per-component tallies and
/// tracked-number counts, the backtest totals with a 30-draw window, and the three
/// demonstration tickets (the backtest uses the generator first, the random ticket
/// after it).
pub fn game_counts(spec: &GameSpec, draws: &[DrawRecord], rng: &mut Rng) -> (r: GameCounts)
    requires
        analysable(*spec, records_view(draws@)),
    ensures
        r.coverage.count == draws@.len(),
        r.coverage.first_issue@ == draws@[0].issue@,
        r.coverage.first_date@ == draws@[0].date@,
        r.coverage.last_issue@ == draws@[draws@.len() - 1].issue@,
        r.coverage.last_date@ == draws@[draws@.len() - 1].date@,
        segs_view(r.coverage.latest@) == draws@[draws@.len() - 1]@.components,
        r.components@.len() == spec.components@.len(),
        forall|ci: int| 0 <= ci < r.components@.len() ==> {
            let cc = #[trigger] r.components@[ci];
            &&& tallies_view(cc.tallies@) == tallies_spec(records_view(draws@), ci, spec.components@[ci])
            &&& cc.target == default_target_spec(spec.components@[ci])
            &&& cc.gap@[0] == after_absent(target_presence_spec(records_view(draws@), ci, cc.target)).0
            &&& cc.gap@[1] == after_absent(target_presence_spec(records_view(draws@), ci, cc.target)).1
            &&& cc.presence@ == target_presence_spec(records_view(draws@), ci, cc.target)
        },
        draws@.len() <= 30 ==> r.pred_n == 0 && r.pred@.len() == 0,
        draws@.len() > 30 ==> {
            let pf = pred_from(records_view(draws@), 30, spec.components@, 30, 0, old(rng)@);
            &&& r.pred_n == draws@.len() - 30
            &&& r.pred@.len() == spec.components@.len()
            &&& forall|c: int| 0 <= c < r.pred@.len() ==> (#[trigger] r.pred@[c])[0] == pf.1[c].0 && r.pred@[c][1] == pf.1[c].1
                && r.pred@[c][2] == pf.1[c].2
        },
        r.picks@.len() == 3,
        r.picks@[0].strategy@ == "冷号"@,
        r.picks@[1].strategy@ == "热号"@,
        r.picks@[2].strategy@ == "机选"@,
        segs_view(r.picks@[0].ticket@) == ranked_ticket(records_view(draws@), spec.components@, false),
        segs_view(r.picks@[1].ticket@) == ranked_ticket(records_view(draws@), spec.components@, true),
        ({
            let after_pred = if draws@.len() > 30 {
                pred_from(records_view(draws@), 30, spec.components@, 30, 0, old(rng)@).0
            } else {
                old(rng)@
            };
            (final(rng)@, segs_view(r.picks@[2].ticket@)) == random_ticket(spec.components@, 0, after_pred)
        }),
{
    let ghost rs = records_view(draws@);
    let cov = coverage(draws);
    let mut comps: Vec<ComponentCounts> = Vec::new();
    let mut ci: usize = 0;
    while ci < spec.components.len()
        invariant
            rs == records_view(draws@),
            analysable(*spec, rs),
            ci <= spec.components@.len(),
            comps@.len() == ci,
            forall|c: int| 0 <= c < ci ==> {
                let cc = #[trigger] comps@[c];
                &&& tallies_view(cc.tallies@) == tallies_spec(rs, c, spec.components@[c])
                &&& cc.target == default_target_spec(spec.components@[c])
                &&& cc.gap@[0] == after_absent(target_presence_spec(rs, c, cc.target)).0
                &&& cc.gap@[1] == after_absent(target_presence_spec(rs, c, cc.target)).1
                &&& cc.presence@ == target_presence_spec(rs, c, cc.target)
            },
        decreases spec.components@.len() - ci,
    {
        let cc = component_counts(spec, draws, ci);
        comps.push(cc);
        ci = ci + 1;
    }
    let (pred_n, pred) = prediction_totals(spec, draws, 30, rng);
    let picks = strategy_picks(spec, draws, rng);
    GameCounts { coverage: cov, components: comps, pred_n, pred, picks }
}

// ------------------------------------------------------------------ laws of the counts

/// The pool tallies of a component count every record of the history: with no
/// records every count is zero, and one more record adds, for each number, how often
/// that record's segment holds it. (`lemma_pool_tally_total` adds that the counts sum
/// to `pick` per record.)
pub proof fn lemma_pool_tallies_count_all(rs: Seq<RecordView>, r: RecordView, ci: int, c: Component, k: int)
    requires
        c is Pool,
        0 <= k <= c->Pool_size,
        seg_tally(rs.push(r), ci, k) <= u64::MAX,
    ensures
        tallies_spec(Seq::<RecordView>::empty(), ci, c).len() == 1,
        tallies_spec(Seq::<RecordView>::empty(), ci, c)[0][k] == 0,
        tallies_spec(rs, ci, c).len() == 1,
        tallies_spec(rs, ci, c)[0].len() == c->Pool_size + 1,
        tallies_spec(rs.push(r), ci, c)[0][k] == tallies_spec(rs, ci, c)[0][k] + count_of(r.components[ci], k),
{
    assert(rs.push(r).drop_last() =~= rs);
    assert(rs.push(r).last() == r);
}

/// The cold and hot demonstration tickets rank the full-history tallies: a pool
/// segment is the top of the tallies that the analysis reports for that component, and
/// each digit is the top value of that position's tallies.
pub proof fn lemma_ticket_ranks_full_tallies(rs: Seq<RecordView>, ci: int, c: Component, hot: bool)
    ensures
        c matches Component::Pool { size, pick, .. } ==> ranked_segment(rs, ci, c, hot) == top(
            tallies_spec(rs, ci, c)[0],
            1,
            size as int,
            pool_k(size, pick),
            hot,
        ),
        c matches Component::Digits { bases, .. } ==> ranked_segment(rs, ci, c, hot).len() == bases@.len() && forall|p: int|
            0 <= p < bases@.len() ==> #[trigger] ranked_segment(rs, ci, c, hot)[p] == top(
                tallies_spec(rs, ci, c)[p],
                0,
                bases@[p] - 1,
                1,
                hot,
            )[0],
{
    assert(rs.subrange(0, rs.len() as int) =~= rs);
    match c {
        Component::Pool { size, pick, .. } => {
            assert(pool_window(rs, ci, size, 0, rs.len() as int) =~= tallies_spec(rs, ci, c)[0]);
        },
        Component::Digits { bases, .. } => {
            assert forall|p: int| 0 <= p < bases@.len() implies #[trigger] ranked_segment(rs, ci, c, hot)[p] == top(
                tallies_spec(rs, ci, c)[p],
                0,
                bases@[p] - 1,
                1,
                hot,
            )[0] by {
                assert(digit_window(rs, ci, p, bases@[p], 0, rs.len() as int) =~= tallies_spec(rs, ci, c)[p]);
            }
        },
    }
}

/// The digit hits at record `i` are the same on any prefix that holds record `i`.
proof fn lemma_digit_hits_prefix(
    rs: Seq<RecordView>,
    w: int,
    i: int,
    m: int,
    ci: int,
    bases: Seq<u32>,
    p: int,
    s: (u64, u64),
)
    requires
        0 <= w <= i < m <= rs.len(),
    ensures
        digit_hits(rs.take(m), w, i, ci, bases, p, s) == digit_hits(rs, w, i, ci, bases, p, s),
    decreases bases.len() - p,
{
    assert(rs.take(m).subrange(i - w, i) =~= rs.subrange(i - w, i));
    if 0 <= p < bases.len() {
        assert(digit_window(rs.take(m), ci, p, bases[p], i - w, i) =~= digit_window(rs, ci, p, bases[p], i - w, i));
        let (s1, r) = below_spec(s, bases[p] as u64);
        lemma_digit_hits_prefix(rs, w, i, m, ci, bases, p + 1, s1);
    }
}

/// A component's hits at record `i` are the same on any prefix that holds record `i`.
proof fn lemma_comp_hits_prefix(rs: Seq<RecordView>, w: int, i: int, m: int, ci: int, c: Component, s: (u64, u64))
    requires
        0 <= w <= i < m <= rs.len(),
    ensures
        comp_hits(rs.take(m), w, i, ci, c, s) == comp_hits(rs, w, i, ci, c, s),
{
    assert(rs.take(m).subrange(i - w, i) =~= rs.subrange(i - w, i));
    match c {
        Component::Pool { size, .. } => {
            assert(pool_window(rs.take(m), ci, size, i - w, i) =~= pool_window(rs, ci, size, i - w, i));
        },
        Component::Digits { bases, .. } => {
            lemma_digit_hits_prefix(rs, w, i, m, ci, bases@, 0, s);
        },
    }
}

/// Cold (`hot == false`) or hot hits of pool component `c` at record `m`, picked from
/// the tallies of records `m - w .. m - 1`.
spec fn pool_step(rs: Seq<RecordView>, w: int, m: int, c: int, comp: Component, hot: bool) -> nat {
    overlap_spec(
        top(tallies_spec(rs.subrange(m - w, m), c, comp)[0], 1, comp->Pool_size as int, pool_k(comp->Pool_size, comp->Pool_pick), hot),
        rs[m].components[c],
    )
}

/// Backtesting one more record adds its pool hits to the totals from `(i, ci)` on.
proof fn lemma_pred_from_extend(
    rs: Seq<RecordView>,
    w: int,
    cs: Seq<Component>,
    i: int,
    ci: int,
    s: (u64, u64),
    m: int,
    c: int,
)
    requires
        0 <= w <= i <= m < rs.len(),
        0 <= ci <= cs.len(),
        0 <= c < cs.len(),
        cs[c] is Pool,
    ensures
        pred_from(rs.take(m + 1), w, cs, i, ci, s).1[c].0 == pred_from(rs.take(m), w, cs, i, ci, s).1[c].0 + if i < m
            || c >= ci {
            pool_step(rs, w, m, c, cs[c], false)
        } else {
            0
        },
        pred_from(rs.take(m + 1), w, cs, i, ci, s).1[c].1 == pred_from(rs.take(m), w, cs, i, ci, s).1[c].1 + if i < m
            || c >= ci {
            pool_step(rs, w, m, c, cs[c], true)
        } else {
            0
        },
    decreases m - i, cs.len() - ci,
{
    let a = rs.take(m + 1);
    let b = rs.take(m);
    lemma_pred_from_len(a, w, cs, i, ci, s);
    lemma_pred_from_len(b, w, cs, i, ci, s);
    assert(pred_from(b, w, cs, m, ci, s) == (s, Seq::new(cs.len(), |j: int| (0nat, 0nat, 0nat))));
    if ci >= cs.len() {
        if i < m {
            lemma_pred_from_extend(rs, w, cs, i + 1, 0, s, m, c);
        } else {
            assert(pred_from(a, w, cs, m, ci, s) == pred_from(a, w, cs, m + 1, 0, s));
            assert(pred_from(a, w, cs, m + 1, 0, s) == (s, Seq::new(cs.len(), |j: int| (0nat, 0nat, 0nat))));
        }
    } else {
        let (s1, h) = comp_hits(a, w, i, ci, cs[ci], s);
        lemma_pred_from_extend(rs, w, cs, i, ci + 1, s1, m, c);
        lemma_pred_from_len(a, w, cs, i, ci + 1, s1);
        lemma_pred_from_len(b, w, cs, i, ci + 1, s1);
        let ta = pred_from(a, w, cs, i, ci + 1, s1).1;
        assert(pred_from(a, w, cs, i, ci, s).1 == ta.update(ci, add3(ta[ci], h)));
        if i < m {
            lemma_comp_hits_prefix(rs, w, i, m + 1, ci, cs[ci], s);
            lemma_comp_hits_prefix(rs, w, i, m, ci, cs[ci], s);
            let tb = pred_from(b, w, cs, i, ci + 1, s1).1;
            assert(pred_from(b, w, cs, i, ci, s).1 == tb.update(ci, add3(tb[ci], h)));
        } else {
            assert(pred_from(b, w, cs, m, ci + 1, s1) == (s1, Seq::new(cs.len(), |j: int| (0nat, 0nat, 0nat))));
            if c == ci {
                let size = cs[c]->Pool_size;
                assert(a.subrange(m - w, m) =~= rs.subrange(m - w, m));
                assert(pool_window(a, c, size, m - w, m) =~= tallies_spec(rs.subrange(m - w, m), c, cs[c])[0]);
                assert(a[m] == rs[m]);
                assert(h.0 == pool_step(rs, w, m, c, cs[c], false));
                assert(h.1 == pool_step(rs, w, m, c, cs[c], true));
            }
        }
    }
}

/// The backtest credits each record with what the picks made from the records before
/// it alone score: for a pool component, backtesting the first `m + 1` records adds to
/// the cold (and hot) totals of the first `m` records exactly the overlap of record
/// `m`'s segment with the coldest (hottest) numbers of the tallies over records
/// `m - window .. m - 1`; backtesting the first `window` records gives nothing. Record
/// `m` and the records after it never shape the pick for record `m`.
pub proof fn lemma_backtest_pool_step(rs: Seq<RecordView>, window: int, cs: Seq<Component>, m: int, c: int, s: (u64, u64))
    requires
        0 <= window <= m < rs.len(),
        0 <= c < cs.len(),
        cs[c] is Pool,
    ensures
        pred_from(rs.take(window), window, cs, window, 0, s).1[c] == (0nat, 0nat, 0nat),
        pred_from(rs.take(m + 1), window, cs, window, 0, s).1[c].0 == pred_from(rs.take(m), window, cs, window, 0, s).1[c].0
            + overlap_spec(
            top(
                tallies_spec(rs.subrange(m - window, m), c, cs[c])[0],
                1,
                cs[c]->Pool_size as int,
                pool_k(cs[c]->Pool_size, cs[c]->Pool_pick),
                false,
            ),
            rs[m].components[c],
        ),
        pred_from(rs.take(m + 1), window, cs, window, 0, s).1[c].1 == pred_from(rs.take(m), window, cs, window, 0, s).1[c].1
            + overlap_spec(
            top(
                tallies_spec(rs.subrange(m - window, m), c, cs[c])[0],
                1,
                cs[c]->Pool_size as int,
                pool_k(cs[c]->Pool_size, cs[c]->Pool_pick),
                true,
            ),
            rs[m].components[c],
        ),
{
    lemma_pred_from_extend(rs, window, cs, window, 0, s, m, c);
}

} // verus!
