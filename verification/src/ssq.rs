//! Double-colour-ball (6 red of 33, 1 blue of 16) history: row parsing, tallies,
//! and window-based number picks.
use vstd::prelude::*;
use crate::order::{le_u8, le_u32, lemma_le_u8_total, lemma_le_u32_total, lemma_sorted_distinct, lemma_sorted_distinct_u8, sort_u8, sorted_u32, sorted_u8};
use crate::realdata::{
    bad_int_at, check_component, check_components, dup_at, first_bad_int, first_out_of_pool, lemma_first_from, out_of_pool_at,
    record_of, repeats_later, seg_values, u32_of, RecordView,
};
use crate::game_spec::{comp_width, is_game_table, spec_field_count, widths_sum, Component, GameSpec};
use crate::rng::{Rng, sample_spec};
use crate::realdata::{all_ascii_digits, fields_of, first_from, is_data_line, lemma_first_is, lemma_first_none, line_fields, chars_texts, field_texts};
use crate::text::{line_bounds, lines_of, pieces, trimmed_range, chars_of, dec, parse_uint, parse_unsigned, push_dec, push_range, push_str, string_of, trim, trimmed_chars};

verus! {

/// One draw: issue, date, the six red balls in ascending order, and the blue ball.
pub struct Draw {
    pub issue: String,
    pub date: String,
    pub reds: [u8; 6],
    pub blue: u8,
}

/// A data line that was not accepted, with its 1-based line number.
pub struct SkipInfo {
    pub line: usize,
    pub reason: String,
}

pub struct DrawView {
    pub issue: Seq<char>,
    pub date: Seq<char>,
    pub reds: Seq<u8>,
    pub blue: u8,
}

impl View for Draw {
    type V = DrawView;

    open spec fn view(&self) -> DrawView {
        DrawView { issue: self.issue@, date: self.date@, reds: self.reds@, blue: self.blue }
    }
}

/// The value of a token as `str::parse::<u8>` reads it.
pub open spec fn u8_of(t: Seq<char>) -> Option<nat> {
    parse_unsigned(t, 255)
}

/// Red ball `i` (field `2 + i`) is not an integer or lies outside `1..=33`.
pub open spec fn red_bad_at(ts: Seq<Seq<char>>) -> spec_fn(int) -> bool {
    |i: int|
        match u8_of(trim(ts[2 + i])) {
            None => true,
            Some(v) => v < 1 || v > 33,
        }
}

/// The six red values of a row whose red fields are all valid.
pub open spec fn red_vals(ts: Seq<Seq<char>>) -> Seq<u8> {
    Seq::new(6, |i: int| u8_of(trim(ts[2 + i]))->Some_0 as u8)
}

/// `vals[i]` occurs again later.
pub open spec fn repeats_later_u8(vals: Seq<u8>, i: int) -> bool {
    exists|j: int| i < j < vals.len() && vals[j] == vals[i]
}

pub open spec fn dup_at_u8(vals: Seq<u8>) -> spec_fn(int) -> bool {
    |i: int| repeats_later_u8(vals, i)
}

pub open spec fn msg_count9(got: nat) -> Seq<char> {
    "字段数应为 9,实际 "@ + dec(got)
}

pub open spec fn msg_red_int(raw: Seq<char>) -> Seq<char> {
    "红球 '"@ + raw + "' 非法整数"@
}

pub open spec fn msg_red_range(v: nat) -> Seq<char> {
    "红球 "@ + dec(v) + " 超出 1-33"@
}

pub open spec fn msg_red_dup(v: nat) -> Seq<char> {
    "红球重复:"@ + dec(v)
}

pub open spec fn msg_blue_int(raw: Seq<char>) -> Seq<char> {
    "蓝球 '"@ + raw + "' 非法整数"@
}

pub open spec fn msg_blue_range(v: nat) -> Seq<char> {
    "蓝球 "@ + dec(v) + " 超出 1-16"@
}

/// The draw that nine fields describe, or the reason they are refused. Red balls are
/// read one by one, each checked for its range as soon as it is read; then repeats;
/// then the blue ball. Messages quote a bad token as it was given (untrimmed).
pub open spec fn draw_of(ts: Seq<Seq<char>>) -> Result<DrawView, Seq<char>> {
    if ts.len() != 9 {
        Err(msg_count9(ts.len()))
    } else {
        match first_from(6, red_bad_at(ts), 0) {
            Some(i) => match u8_of(trim(ts[2 + i])) {
                None => Err(msg_red_int(ts[2 + i])),
                Some(v) => Err(msg_red_range(v)),
            },
            None => {
                let vals = red_vals(ts);
                match first_from(6, dup_at_u8(vals), 0) {
                    Some(i) => Err(msg_red_dup(vals[i] as nat)),
                    None => match u8_of(trim(ts[8])) {
                        None => Err(msg_blue_int(ts[8])),
                        Some(b) => if b < 1 || b > 16 {
                            Err(msg_blue_range(b))
                        } else {
                            Ok(
                                DrawView {
                                    issue: trim(ts[0]),
                                    date: trim(ts[1]),
                                    reds: sorted_u8(vals),
                                    blue: b as u8,
                                },
                            )
                        },
                    },
                }
            },
        }
    }
}

fn msg_with_dec(a: &str, n: u64, b: &str) -> (m: String)
    ensures
        m@ == a@ + dec(n as nat) + b@,
{
    let mut m = String::new();
    push_str(&mut m, a);
    push_dec(&mut m, n);
    push_str(&mut m, b);
    assert(m@ =~= a@ + dec(n as nat) + b@);
    m
}

fn msg_then_dec(a: &str, n: u64) -> (m: String)
    ensures
        m@ == a@ + dec(n as nat),
{
    let mut m = String::new();
    push_str(&mut m, a);
    push_dec(&mut m, n);
    assert(m@ =~= a@ + dec(n as nat));
    m
}

fn msg_with_text(a: &str, t: &[char], b: &str) -> (m: String)
    ensures
        m@ == a@ + t@ + b@,
{
    let mut m = String::new();
    push_str(&mut m, a);
    push_range(&mut m, t, 0, t.len());
    push_str(&mut m, b);
    assert(t@.subrange(0, t@.len() as int) =~= t@);
    assert(m@ =~= a@ + t@ + b@);
    m
}

/// `parse_draw_fields` on fields given as characters.
#[verifier::loop_isolation(false)]
pub fn parse_draw_chars(fields: &[Vec<char>]) -> (r: Result<Draw, String>)
    ensures
        match draw_of(chars_texts(fields@)) {
            Ok(v) => r matches Ok(d) && d@ == v,
            Err(e) => r matches Err(m) && m@ == e,
        },
{
    let ghost ts = chars_texts(fields@);
    if fields.len() != 9 {
        let m = msg_then_dec("字段数应为 9,实际 ", fields.len() as u64);
        assert(m@ =~= msg_count9(ts.len()));
        return Err(m);
    }
    let mut reds: Vec<u8> = Vec::new();
    let mut i: usize = 0;
    while i < 6
        invariant
            i <= 6,
            reds@.len() == i,
            forall|j: int| 0 <= j < i ==> !#[trigger] red_bad_at(ts)(j),
            forall|j: int| 0 <= j < i ==> reds@[j] == #[trigger] red_vals(ts)[j],
        decreases 6 - i,
    {
        let t = trimmed_chars(&fields[2 + i]);
        assert(t@.subrange(0, t@.len() as int) =~= t@);
        match parse_uint(&t, 0, t.len(), 255) {
            None => {
                proof {
                    lemma_first_is(6, red_bad_at(ts), i as int);
                }
                return Err(msg_with_text("红球 '", &fields[2 + i], "' 非法整数"));
            },
            Some(v) => {
                if v < 1 || v > 33 {
                    proof {
                        lemma_first_is(6, red_bad_at(ts), i as int);
                    }
                    let m = msg_with_dec("红球 ", v, " 超出 1-33");
                    assert(m@ =~= msg_red_range(v as nat));
                    return Err(m);
                }
                reds.push(v as u8);
            },
        }
        i = i + 1;
    }
    proof {
        lemma_first_none(6, red_bad_at(ts));
        assert(reds@ =~= red_vals(ts));
    }
    let ghost vals = reds@;
    let mut i: usize = 0;
    while i < 6
        invariant
            reds@ == vals,
            i <= 6,
            forall|j: int| 0 <= j < i ==> !#[trigger] dup_at_u8(vals)(j),
        decreases 6 - i,
    {
        let mut j: usize = i + 1;
        while j < 6
            invariant
                i < 6,
                i + 1 <= j <= 6,
                forall|q: int| i < q < j ==> vals[q] != vals[i as int],
            decreases 6 - j,
        {
            if reds[i] == reds[j] {
                proof {
                    assert(dup_at_u8(vals)(i as int));
                    lemma_first_is(6, dup_at_u8(vals), i as int);
                }
                let m = msg_then_dec("红球重复:", reds[i] as u64);
                assert(m@ =~= msg_red_dup(vals[i as int] as nat));
                return Err(m);
            }
            j = j + 1;
        }
        assert(!dup_at_u8(vals)(i as int));
        i = i + 1;
    }
    proof {
        lemma_first_none(6, dup_at_u8(vals));
    }
    let sorted = sort_u8(&reds);
    let t = trimmed_chars(&fields[8]);
    assert(t@.subrange(0, t@.len() as int) =~= t@);
    let blue = match parse_uint(&t, 0, t.len(), 255) {
        None => {
            return Err(msg_with_text("蓝球 '", &fields[8], "' 非法整数"));
        },
        Some(b) => b,
    };
    if blue < 1 || blue > 16 {
        let m = msg_with_dec("蓝球 ", blue, " 超出 1-16");
        assert(m@ =~= msg_blue_range(blue as nat));
        return Err(m);
    }
    let t0 = trimmed_chars(&fields[0]);
    let t1 = trimmed_chars(&fields[1]);
    let reds6: [u8; 6] = [sorted[0], sorted[1], sorted[2], sorted[3], sorted[4], sorted[5]];
    assert(reds6@ =~= sorted@);
    Ok(Draw { issue: string_of(&t0), date: string_of(&t1), reds: reds6, blue: blue as u8 })
}


/// Parses the nine fields of one row: issue, date, six red balls, one blue ball.
pub fn parse_draw_fields(fields: &[&str]) -> (r: Result<Draw, String>)
    ensures
        match draw_of(field_texts(fields@)) {
            Ok(v) => r matches Ok(d) && d@ == v,
            Err(e) => r matches Err(m) && m@ == e,
        },
{
    let mut fs: Vec<Vec<char>> = Vec::new();
    let mut i: usize = 0;
    while i < fields.len()
        invariant
            i <= fields@.len(),
            fs@.len() == i,
            chars_texts(fs@) == field_texts(fields@).take(i as int),
        decreases fields@.len() - i,
    {
        let v = chars_of(fields[i]);
        let ghost before = fs@;
        fs.push(v);
        assert forall|j: int| 0 <= j < i + 1 implies chars_texts(fs@)[j] == field_texts(fields@).take(i + 1)[j] by {
            if j < i {
                assert(chars_texts(before)[j] == field_texts(fields@).take(i as int)[j]);
            }
        }
        assert(chars_texts(fs@) =~= field_texts(fields@).take(i + 1));
        i = i + 1;
    }
    assert(field_texts(fields@).take(i as int) =~= field_texts(fields@));
    parse_draw_chars(&fs)
}

/// Draws and skipped lines (1-based line number, reason) for a list of lines.
pub open spec fn parse_lines_spec(lines: Seq<Seq<char>>) -> (Seq<DrawView>, Seq<(nat, Seq<char>)>)
    decreases lines.len(),
{
    if lines.len() == 0 {
        (Seq::empty(), Seq::empty())
    } else {
        let prev = parse_lines_spec(lines.drop_last());
        let l = lines.last();
        if !is_data_line(l) {
            prev
        } else {
            match draw_of(line_fields(l)) {
                Ok(d) => (prev.0.push(d), prev.1),
                Err(e) => (prev.0, prev.1.push((lines.len() as nat, e))),
            }
        }
    }
}

pub open spec fn draws_view(v: Seq<Draw>) -> Seq<DrawView> {
    v.map_values(|d: Draw| d@)
}

pub open spec fn skips_view(v: Seq<SkipInfo>) -> Seq<(nat, Seq<char>)> {
    v.map_values(|s: SkipInfo| (s.line as nat, s.reason@))
}

/// Parses a double-colour-ball data file: blank lines, `#` comments and lines whose
/// first field is not a run of digits are ignored; bad rows are recorded with their
/// line numbers.
#[verifier::loop_isolation(false)]
pub fn parse_lines(content: &str) -> (r: (Vec<Draw>, Vec<SkipInfo>))
    ensures
        (draws_view(r.0@), skips_view(r.1@)) == parse_lines_spec(lines_of(content@)),
{
    let v = chars_of(content);
    let ls = line_bounds(&v);
    let ghost lines = lines_of(v@);
    let mut draws: Vec<Draw> = Vec::new();
    let mut skips: Vec<SkipInfo> = Vec::new();
    let mut i: usize = 0;
    proof {
        assert(draws_view(draws@) =~= Seq::<DrawView>::empty());
        assert(skips_view(skips@) =~= Seq::<(nat, Seq<char>)>::empty());
        assert(lines.take(0) =~= Seq::<Seq<char>>::empty());
    }
    while i < ls.len()
        invariant
            i <= ls@.len(),
            pieces(v@, ls@) == lines,
            (draws_view(draws@), skips_view(skips@)) == parse_lines_spec(lines.take(i as int)),
        decreases ls@.len() - i,
    {
        let (a, b) = ls[i];
        let ghost l = v@.subrange(a as int, b as int);
        proof {
            assert(pieces(v@, ls@)[i as int] == l);
            assert(lines.take(i + 1).drop_last() =~= lines.take(i as int));
            assert(lines.take(i + 1).last() == l);
        }
        let t = trimmed_range(&v, a, b);
        if t.len() == 0 || t[0] == '#' {
            i = i + 1;
            continue;
        }
        let fields = fields_of(&v, a, b);
        if !all_ascii_digits(&fields[0]) {
            i = i + 1;
            continue;
        }
        let ghost dv = draws_view(draws@);
        let ghost sv = skips_view(skips@);
        match parse_draw_chars(&fields) {
            Ok(d) => {
                draws.push(d);
                assert(draws_view(draws@) =~= dv.push(d@));
            },
            Err(reason) => {
                skips.push(SkipInfo { line: i + 1, reason });
                assert(skips_view(skips@) =~= sv.push(((i + 1) as nat, reason@)));
            },
        }
        i = i + 1;
    }
    assert(lines.take(ls@.len() as int) =~= lines);
    (draws, skips)
}

/// How often `k` occurs in `s`.
pub open spec fn occurrences(s: Seq<u8>, k: int) -> nat
    decreases s.len(),
{
    if s.len() == 0 {
        0
    } else {
        occurrences(s.drop_last(), k) + if s.last() == k { 1nat } else { 0nat }
    }
}

/// How often `k` occurs among the red balls of `ds`.
pub open spec fn red_tally(ds: Seq<Draw>, k: int) -> nat
    decreases ds.len(),
{
    if ds.len() == 0 {
        0
    } else {
        red_tally(ds.drop_last(), k) + occurrences(ds.last().reds@, k)
    }
}

proof fn lemma_occurrences_le(s: Seq<u8>, k: int)
    ensures
        occurrences(s, k) <= s.len(),
    decreases s.len(),
{
    if s.len() > 0 {
        lemma_occurrences_le(s.drop_last(), k);
    }
}

proof fn lemma_red_tally_le(ds: Seq<Draw>, k: int)
    ensures
        red_tally(ds, k) <= 6 * ds.len(),
    decreases ds.len(),
{
    if ds.len() > 0 {
        lemma_red_tally_le(ds.drop_last(), k);
        lemma_occurrences_le(ds.last().reds@, k);
    }
}

/// Red-ball counts over `draws[lo..hi]`; index `k` holds the count of ball `k`.
fn tally_range(draws: &[Draw], lo: usize, hi: usize) -> (c: [u64; 34])
    requires
        lo <= hi <= draws@.len(),
        (hi - lo) * 6 <= u64::MAX,
        forall|d: int, p: int| 0 <= d < draws@.len() && 0 <= p < 6 ==> #[trigger] draws@[d].reds@[p] < 34,
    ensures
        forall|k: int| 0 <= k < 34 ==> c@[k] == red_tally(draws@.subrange(lo as int, hi as int), k),
{
    let mut c: [u64; 34] = [0u64; 34];
    let mut d: usize = lo;
    assert(draws@.subrange(lo as int, lo as int) =~= Seq::<Draw>::empty());
    while d < hi
        invariant
            lo <= d <= hi <= draws@.len(),
            (hi - lo) * 6 <= u64::MAX,
            forall|d: int, p: int| 0 <= d < draws@.len() && 0 <= p < 6 ==> #[trigger] draws@[d].reds@[p] < 34,
            forall|k: int| 0 <= k < 34 ==> c@[k] == red_tally(draws@.subrange(lo as int, d as int), k),
        decreases hi - d,
    {
        let reds = draws[d].reds;
        let ghost done = draws@.subrange(lo as int, d as int);
        let mut p: usize = 0;
        while p < 6
            invariant
                lo <= d < hi <= draws@.len(),
                (hi - lo) * 6 <= u64::MAX,
                done == draws@.subrange(lo as int, d as int),
                reds@ == draws@[d as int].reds@,
                forall|p: int| 0 <= p < 6 ==> #[trigger] reds@[p] < 34,
                p <= 6,
                forall|k: int| 0 <= k < 34 ==> c@[k] == red_tally(done, k)
                    + occurrences(reds@.take(p as int), k),
            decreases 6 - p,
        {
            let r = reds[p] as usize;
            proof {
                assert forall|k: int| 0 <= k < 34 implies occurrences(reds@.take(p + 1), k)
                    == occurrences(reds@.take(p as int), k) + if reds@[p as int] == k { 1nat } else { 0nat } by {
                    assert(reds@.take(p + 1).drop_last() =~= reds@.take(p as int));
                }
                lemma_red_tally_le(done, r as int);
                lemma_occurrences_le(reds@.take(p as int), r as int);
                assert(c@[r as int] <= 6 * (d - lo) + p);
                assert(6 * (d - lo) + p < u64::MAX) by (nonlinear_arith)
                    requires d < hi, (hi - lo) * 6 <= u64::MAX, p < 6, lo <= d;
            }
            c[r] = c[r] + 1;
            p = p + 1;
        }
        proof {
            assert(reds@.take(6) =~= reds@);
            assert(draws@.subrange(lo as int, d + 1).drop_last() =~= done);
        }
        d = d + 1;
    }
    c
}

/// Counts how often each red ball occurs; index `k` holds the count of ball `k`
/// (index 0 is unused).
pub fn red_counts(draws: &[Draw]) -> (c: [u64; 34])
    requires
        draws@.len() * 6 <= u64::MAX,
        forall|d: int, p: int| 0 <= d < draws@.len() && 0 <= p < 6 ==> #[trigger] draws@[d].reds@[p] < 34,
    ensures
        forall|k: int| 0 <= k < 34 ==> c@[k] == red_tally(draws@, k),
{
    let c = tally_range(draws, 0, draws.len());
    assert(draws@.subrange(0, draws@.len() as int) =~= draws@);
    c
}

/// Every red ball is counted once: the counts of balls `0..34` add up to six per draw.
pub proof fn lemma_red_tally_total(ds: Seq<Draw>)
    requires
        forall|d: int, p: int| 0 <= d < ds.len() && 0 <= p < 6 ==> #[trigger] ds[d].reds@[p] < 34,
    ensures
        tally_sum(ds, 34) == 6 * ds.len(),
    decreases ds.len(),
{
    if ds.len() > 0 {
        let init = ds.drop_last();
        assert forall|d: int, p: int| 0 <= d < init.len() && 0 <= p < 6 implies #[trigger] init[d].reds@[p] < 34 by {
            assert(init[d] == ds[d]);
        }
        lemma_red_tally_total(init);
        lemma_tally_sum_step(ds, 34);
        let last = ds[ds.len() - 1].reds@;
        assert forall|p: int| 0 <= p < last.len() implies #[trigger] last[p] < 34 by {
            assert(ds[ds.len() - 1].reds@[p] < 34);
        }
        lemma_occurrences_sum(last, 34);
    } else {
        lemma_tally_sum_empty(ds, 34);
    }
}

/// Sum of `red_tally(ds, k)` over `k < m`.
pub open spec fn tally_sum(ds: Seq<Draw>, m: int) -> int
    decreases m,
{
    if m <= 0 {
        0
    } else {
        tally_sum(ds, m - 1) + red_tally(ds, m - 1)
    }
}

/// Sum of `occurrences(s, k)` over `k < m`.
pub open spec fn occ_sum(s: Seq<u8>, m: int) -> int
    decreases m,
{
    if m <= 0 {
        0
    } else {
        occ_sum(s, m - 1) + occurrences(s, m - 1)
    }
}

proof fn lemma_tally_sum_step(ds: Seq<Draw>, m: int)
    requires
        ds.len() > 0,
    ensures
        tally_sum(ds, m) == tally_sum(ds.drop_last(), m) + occ_sum(ds.last().reds@, m),
    decreases m,
{
    if m > 0 {
        lemma_tally_sum_step(ds, m - 1);
    }
}

proof fn lemma_occurrences_sum(s: Seq<u8>, m: int)
    requires
        0 <= m,
        forall|p: int| 0 <= p < s.len() ==> #[trigger] s[p] < m,
    ensures
        occ_sum(s, m) == s.len(),
    decreases s.len(),
{
    if s.len() > 0 {
        let init = s.drop_last();
        assert forall|p: int| 0 <= p < init.len() implies #[trigger] init[p] < m by {
            assert(init[p] == s[p]);
        }
        lemma_occurrences_sum(init, m);
        lemma_occ_sum_split(s, m);
        assert(s.last() == s[s.len() - 1]);
    } else {
        lemma_occ_sum_empty(s, m);
    }
}

proof fn lemma_occ_sum_empty(s: Seq<u8>, m: int)
    requires
        s.len() == 0,
    ensures
        occ_sum(s, m) == 0,
    decreases m,
{
    if m > 0 {
        lemma_occ_sum_empty(s, m - 1);
    }
}

proof fn lemma_tally_sum_empty(ds: Seq<Draw>, m: int)
    requires
        ds.len() == 0,
    ensures
        tally_sum(ds, m) == 0,
    decreases m,
{
    if m > 0 {
        lemma_tally_sum_empty(ds, m - 1);
    }
}

proof fn lemma_occ_sum_split(s: Seq<u8>, m: int)
    requires
        s.len() > 0,
        0 <= m,
    ensures
        occ_sum(s, m) == occ_sum(s.drop_last(), m) + if s.last() < m { 1int } else { 0int },
    decreases m,
{
    if m > 0 {
        lemma_occ_sum_split(s, m - 1);
    }
}

/// Ball `a` ranks before ball `b`: by count (most first when `hot`, fewest first
/// otherwise), ties by the smaller number.
pub open spec fn ranks_before(c: Seq<u64>, hot: bool, a: int, b: int) -> bool {
    if c[a] == c[b] {
        a < b
    } else if hot {
        c[a] > c[b]
    } else {
        c[a] < c[b]
    }
}

/// `out` is the six best-ranked balls of `1..=33`, best first.
pub open spec fn is_top_six(c: Seq<u64>, hot: bool, out: Seq<u8>) -> bool {
    &&& out.len() == 6
    &&& forall|i: int| 0 <= i < 6 ==> 1 <= #[trigger] out[i] <= 33
    &&& forall|i: int, j: int| 0 <= i < j < 6 ==> ranks_before(c, hot, out[i] as int, out[j] as int)
    &&& forall|x: int| 1 <= x <= 33 && !out.contains(x as u8) ==> ranks_before(c, hot, out[5] as int, x)
}

/// The six balls that `is_top_six` describes (there is exactly one such sequence).
pub open spec fn top_six(c: Seq<u64>, hot: bool) -> Seq<u8> {
    choose|out: Seq<u8>| is_top_six(c, hot, out)
}

proof fn lemma_not_ranked_first(c: Seq<u64>, hot: bool, a: Seq<u8>, b: Seq<u8>, i: int)
    requires
        is_top_six(c, hot, a),
        is_top_six(c, hot, b),
        0 <= i < 6,
        forall|j: int| 0 <= j < i ==> a[j] == b[j],
        a[i] != b[i],
    ensures
        !ranks_before(c, hot, a[i] as int, b[i] as int),
{
    if ranks_before(c, hot, a[i] as int, b[i] as int) {
        if b.contains(a[i]) {
            let j = choose|j: int| 0 <= j < b.len() && b[j] == a[i];
            if j < i {
                assert(a[j] == a[i]);
                assert(ranks_before(c, hot, a[j] as int, a[i] as int));
            } else {
                assert(j > i);
                assert(ranks_before(c, hot, b[i] as int, b[j] as int));
            }
        } else {
            assert(1 <= a[i] <= 33);
            assert(ranks_before(c, hot, b[5] as int, a[i] as int));
            if i < 5 {
                assert(ranks_before(c, hot, b[i] as int, b[5] as int));
            }
        }
    }
}

proof fn lemma_same_prefix(c: Seq<u64>, hot: bool, a: Seq<u8>, b: Seq<u8>, i: int)
    requires
        is_top_six(c, hot, a),
        is_top_six(c, hot, b),
        0 <= i <= 6,
    ensures
        forall|j: int| 0 <= j < i ==> a[j] == b[j],
    decreases i,
{
    if i > 0 {
        lemma_same_prefix(c, hot, a, b, i - 1);
        let k = i - 1;
        if a[k] != b[k] {
            lemma_not_ranked_first(c, hot, a, b, k);
            lemma_not_ranked_first(c, hot, b, a, k);
            assert(1 <= a[k] <= 33 && 1 <= b[k] <= 33);
        }
    }
}

/// The ranking leaves no choice: two sequences that both list the six best-ranked
/// balls in rank order are the same.
pub proof fn lemma_top_six_unique(c: Seq<u64>, hot: bool, a: Seq<u8>, b: Seq<u8>)
    requires
        is_top_six(c, hot, a),
        is_top_six(c, hot, b),
    ensures
        a == b,
{
    lemma_same_prefix(c, hot, a, b, 6);
    assert(a =~= b);
}

/// Picks six red balls from window counts (`window_counts[k]` for ball `k`): the most
/// frequent when `want_hot`, else the least frequent; ties go to the smaller number.
#[verifier::loop_isolation(false)]
pub fn pick_by_window(window_counts: &[u64; 34], want_hot: bool) -> (out: [u8; 6])
    ensures
        is_top_six(window_counts@, want_hot, out@),
        out@ == top_six(window_counts@, want_hot),
{
    let ghost c = window_counts@;
    let mut taken: Vec<bool> = vec![false; 34];
    let mut chosen: Vec<u8> = Vec::new();
    let mut s: usize = 0;
    while s < 6
        invariant
            s <= 6,
            c == window_counts@,
            taken@.len() == 34,
            chosen@.len() == s,
            forall|i: int| 0 <= i < s ==> 1 <= #[trigger] chosen@[i] <= 33,
            forall|x: int| 0 <= x < 34 ==> (#[trigger] taken@[x] <==> chosen@.contains(x as u8)),
            forall|i: int, j: int| 0 <= i < j < s ==> ranks_before(c, want_hot, chosen@[i] as int, chosen@[j] as int),
            s > 0 ==> forall|x: int| 1 <= x <= 33 && !taken@[x] ==> ranks_before(c, want_hot, chosen@[s - 1] as int, x),
        decreases 6 - s,
    {
        // find the best ball not yet taken
        let mut best: usize = 0;
        let mut x: usize = 1;
        while x <= 33
            invariant
                1 <= x <= 34,
                best == 0 || (1 <= best < x && !taken@[best as int]),
                best == 0 ==> forall|y: int| 1 <= y < x ==> taken@[y],
                best != 0 ==> forall|y: int| 1 <= y < x && !taken@[y] && y != best ==> ranks_before(c, want_hot, best as int, y),
            decreases 34 - x,
        {
            if !taken[x] {
                if best == 0 {
                    best = x;
                } else {
                    let cb = window_counts[best];
                    let cx = window_counts[x];
                    let better = if cx == cb { false } else if want_hot { cx > cb } else { cx < cb };
                    if better {
                        assert forall|y: int| 1 <= y < x + 1 && !taken@[y] && y != x implies ranks_before(c, want_hot, x as int, y) by {
                            if y != best {
                                assert(ranks_before(c, want_hot, best as int, y));
                            }
                        }
                        best = x;
                    }
                }
            }
            x = x + 1;
        }
        proof {
            if best == 0 {
                // fewer than six taken, so some ball is free
                lemma_some_free(chosen@);
                let free = choose|y: int| 1 <= y <= 33 && !#[trigger] chosen@.contains(y as u8);
                assert(taken@[free]);
            }
        }
        let ghost prev = chosen@;
        taken.set(best, true);
        chosen.push(best as u8);
        proof {
            assert forall|y: int| 0 <= y < 34 implies (#[trigger] taken@[y] <==> chosen@.contains(y as u8)) by {
                if y == best {
                    assert(chosen@[s as int] == best as u8);
                } else {
                    if chosen@.contains(y as u8) {
                        let i = choose|i: int| 0 <= i < chosen@.len() && chosen@[i] == y as u8;
                        assert(i < s);
                        assert(prev.contains(y as u8));
                    }
                    if prev.contains(y as u8) {
                        let i = choose|i: int| 0 <= i < prev.len() && prev[i] == y as u8;
                        assert(chosen@[i] == y as u8);
                    }
                }
            }
            assert forall|i: int, j: int| 0 <= i < j < s + 1 implies ranks_before(c, want_hot, chosen@[i] as int, chosen@[j] as int) by {
                if j == s {
                    assert(ranks_before(c, want_hot, prev[s - 1] as int, best as int));
                    if i < s - 1 {
                        assert(ranks_before(c, want_hot, prev[i] as int, prev[s - 1] as int));
                    }
                } else {
                    assert(prev[i] == chosen@[i] && prev[j] == chosen@[j]);
                }
            }
        }
        s = s + 1;
    }
    let out: [u8; 6] = [chosen[0], chosen[1], chosen[2], chosen[3], chosen[4], chosen[5]];
    assert(out@ =~= chosen@);
    assert forall|x: int| 1 <= x <= 33 && !out@.contains(x as u8) implies ranks_before(c, want_hot, out@[5] as int, x) by {
        assert(!taken@[x]);
    }
    proof {
        lemma_top_six_unique(c, want_hot, out@, top_six(c, want_hot));
    }
    out
}

proof fn lemma_some_free(chosen: Seq<u8>)
    requires
        chosen.len() < 6,
    ensures
        exists|y: int| 1 <= y <= 33 && !#[trigger] chosen.contains(y as u8),
{
    let cands = Seq::new(6, |i: int| (i + 1) as u8);
    lemma_pigeon(chosen, cands);
    let i = choose|i: int| 0 <= i < cands.len() && !chosen.contains(#[trigger] cands[i]);
    assert(!chosen.contains((i + 1) as u8));
}

/// More candidates than chosen values: some candidate is not chosen.
proof fn lemma_pigeon(chosen: Seq<u8>, cands: Seq<u8>)
    requires
        chosen.len() < cands.len(),
        cands.no_duplicates(),
    ensures
        exists|i: int| 0 <= i < cands.len() && !chosen.contains(#[trigger] cands[i]),
{
    if forall|i: int| 0 <= i < cands.len() ==> chosen.contains(#[trigger] cands[i]) {
        let cs = cands.to_set();
        let ch = chosen.to_set();
        cands.unique_seq_to_set();
        assert(cs.subset_of(ch));
        vstd::set_lib::lemma_len_subset(cs, ch);
        chosen.lemma_cardinality_of_set();
    }
}

/// How many of `pred` occur among `reds`.
pub open spec fn hits_spec(pred: Seq<u8>, reds: Seq<u8>) -> nat
    decreases pred.len(),
{
    if pred.len() == 0 {
        0
    } else {
        hits_spec(pred.drop_last(), reds) + if reds.contains(pred.last()) { 1nat } else { 0nat }
    }
}

proof fn lemma_hits_le(pred: Seq<u8>, reds: Seq<u8>)
    ensures
        hits_spec(pred, reds) <= pred.len(),
    decreases pred.len(),
{
    if pred.len() > 0 {
        lemma_hits_le(pred.drop_last(), reds);
    }
}

/// How many predicted balls are among the draw's red balls.
pub fn hits(pred: &[u8; 6], actual: &Draw) -> (n: u32)
    ensures
        n == hits_spec(pred@, actual.reds@),
{
    let mut n: u32 = 0;
    let mut i: usize = 0;
    while i < 6
        invariant
            i <= 6,
            n == hits_spec(pred@.take(i as int), actual.reds@),
        decreases 6 - i,
    {
        let x = pred[i];
        let mut found = false;
        let mut j: usize = 0;
        while j < 6
            invariant
                j <= 6,
                found <==> exists|q: int| 0 <= q < j && actual.reds@[q] == x,
            decreases 6 - j,
        {
            if actual.reds[j] == x {
                found = true;
            }
            j = j + 1;
        }
        proof {
            assert(pred@.take(i + 1).drop_last() =~= pred@.take(i as int));
            lemma_hits_le(pred@.take(i as int), actual.reds@);
            if found {
                let q = choose|q: int| 0 <= q < 6 && actual.reds@[q] == x;
                assert(actual.reds@.contains(x));
            }
        }
        if found {
            n = n + 1;
        }
        i = i + 1;
    }
    assert(pred@.take(6) =~= pred@);
    n
}

/// Whether `target` is among the red balls of `d`.
pub fn has_red(d: &Draw, target: u8) -> (b: bool)
    ensures
        b == d.reds@.contains(target),
{
    let mut j: usize = 0;
    while j < 6
        invariant
            j <= 6,
            forall|q: int| 0 <= q < j ==> d.reds@[q] != target,
        decreases 6 - j,
    {
        if d.reds[j] == target {
            assert(d.reds@[j as int] == target);
            return true;
        }
        j = j + 1;
    }
    false
}

/// For each draw, whether `target` is among its red balls.
pub open spec fn presence_spec(ds: Seq<Draw>, target: u8) -> Seq<bool> {
    Seq::new(ds.len(), |i: int| ds[i].reds@.contains(target))
}

/// The 0/1 sequence of the runs test: whether each draw has red ball `target`.
pub fn presence(draws: &[Draw], target: u8) -> (r: Vec<bool>)
    ensures
        r@ == presence_spec(draws@, target),
{
    let mut r: Vec<bool> = Vec::new();
    let mut i: usize = 0;
    while i < draws.len()
        invariant
            i <= draws@.len(),
            r@ == presence_spec(draws@, target).take(i as int),
        decreases draws@.len() - i,
    {
        let b = has_red(&draws[i], target);
        r.push(b);
        assert(r@ =~= presence_spec(draws@, target).take(i + 1));
        i = i + 1;
    }
    assert(r@ =~= presence_spec(draws@, target));
    r
}

/// Over the positions that follow a `false`: how many hold `true` and how many `false`.
pub open spec fn after_absent(p: Seq<bool>) -> (nat, nat)
    decreases p.len(),
{
    if p.len() < 2 {
        (0, 0)
    } else {
        let (h, m) = after_absent(p.drop_last());
        if p[p.len() - 2] {
            (h, m)
        } else if p.last() {
            (h + 1, m)
        } else {
            (h, m + 1)
        }
    }
}

/// Number of `false` values in `p`.
pub open spec fn count_false(p: Seq<bool>) -> nat
    decreases p.len(),
{
    if p.len() == 0 {
        0
    } else {
        count_false(p.drop_last()) + if p.last() { 0nat } else { 1nat }
    }
}

/// Every draw without the ball, except a last one, is followed by exactly one draw
/// that is counted: the two counts add up to the `false` values before the last position.
pub proof fn lemma_after_absent_total(p: Seq<bool>)
    requires
        p.len() > 0,
    ensures
        after_absent(p).0 + after_absent(p).1 == count_false(p.drop_last()),
    decreases p.len(),
{
    if p.len() >= 2 {
        lemma_after_absent_total(p.drop_last());
        assert(p.drop_last().drop_last() =~= p.drop_last().drop_last());
        assert(p.drop_last().last() == p[p.len() - 2]);
    } else {
        assert(p.drop_last() =~= Seq::<bool>::empty());
    }
}

proof fn lemma_count_false_le(p: Seq<bool>)
    ensures
        count_false(p) <= p.len(),
    decreases p.len(),
{
    if p.len() > 0 {
        lemma_count_false_le(p.drop_last());
    }
}

/// Among the draws that follow a draw without red ball `target`: `[with target, without]`
/// (the counting part of the gambler's-fallacy check).
pub fn gap_hits(draws: &[Draw], target: u8) -> (r: [u64; 2])
    ensures
        r@[0] == after_absent(presence_spec(draws@, target)).0,
        r@[1] == after_absent(presence_spec(draws@, target)).1,
{
    let ghost p = presence_spec(draws@, target);
    let mut gap: [u64; 2] = [0u64; 2];
    let mut prev_absent = false;
    let mut i: usize = 0;
    while i < draws.len()
        invariant
            i <= draws@.len(),
            p == presence_spec(draws@, target),
            gap@[0] == after_absent(p.take(i as int)).0,
            gap@[1] == after_absent(p.take(i as int)).1,
            prev_absent == (i > 0 && !p[i - 1]),
        decreases draws@.len() - i,
    {
        let hit = has_red(&draws[i], target);
        proof {
            let t = p.take(i + 1);
            assert(t.drop_last() =~= p.take(i as int));
            if i > 0 {
                lemma_after_absent_total(p.take(i as int));
                lemma_count_false_le(p.take(i as int).drop_last());
            }
        }
        if prev_absent {
            if hit {
                gap[0] = gap[0] + 1;
            } else {
                gap[1] = gap[1] + 1;
            }
        }
        prev_absent = !hit;
        i = i + 1;
    }
    assert(p.take(draws@.len() as int) =~= p);
    gap
}

/// Ball `b` has the fewest occurrences among `1..=33`, and is the smallest such ball.
pub open spec fn is_coldest(c: Seq<u64>, b: int) -> bool {
    &&& 1 <= b <= 33
    &&& forall|x: int| 1 <= x <= 33 ==> c[b] < #[trigger] c[x] || (c[b] == c[x] && b <= x)
}

/// Ball `b` has the most occurrences among `1..=33`, and is the largest such ball.
pub open spec fn is_hottest(c: Seq<u64>, b: int) -> bool {
    &&& 1 <= b <= 33
    &&& forall|x: int| 1 <= x <= 33 ==> #[trigger] c[x] < c[b] || (c[x] == c[b] && x <= b)
}

/// The first and the last ball when `1..=33` is ordered by count, ties kept in
/// ascending order (as a stable sort by count leaves them).
pub fn coldest_hottest(counts: &[u64; 34]) -> (r: (usize, usize))
    ensures
        is_coldest(counts@, r.0 as int),
        is_hottest(counts@, r.1 as int),
{
    let mut cold: usize = 1;
    let mut hot: usize = 1;
    let mut x: usize = 2;
    while x <= 33
        invariant
            2 <= x <= 34,
            1 <= cold < x,
            1 <= hot < x,
            forall|y: int| 1 <= y < x ==> counts@[cold as int] < #[trigger] counts@[y] || (counts@[cold as int] == counts@[y] && cold <= y),
            forall|y: int| 1 <= y < x ==> #[trigger] counts@[y] < counts@[hot as int] || (counts@[y] == counts@[hot as int] && y <= hot),
        decreases 34 - x,
    {
        if counts[x] < counts[cold] {
            cold = x;
        }
        if counts[x] >= counts[hot] {
            hot = x;
        }
        x = x + 1;
    }
    (cold, hot)
}

/// Window counts of draws `lo..hi`.
pub open spec fn window_counts(ds: Seq<Draw>, lo: int, hi: int) -> Seq<u64> {
    Seq::new(34, |k: int| red_tally(ds.subrange(lo, hi), k) as u64)
}

/// Hits of the cold (`hot == false`) or hot pick made from the `w` draws before draw `i`.
pub open spec fn strategy_hits(ds: Seq<Draw>, w: int, i: int, hot: bool) -> nat {
    hits_spec(top_six(window_counts(ds, i - w, i), hot), ds[i].reds@)
}

/// Total hits of a window strategy over draws `i..`.
pub open spec fn strategy_total(ds: Seq<Draw>, w: int, i: int, hot: bool) -> nat
    decreases ds.len() - i,
{
    if i < 0 || i >= ds.len() {
        0
    } else {
        strategy_hits(ds, w, i, hot) + strategy_total(ds, w, i + 1, hot)
    }
}

/// A sample of red balls as ball numbers.
pub open spec fn as_balls(v: Seq<u32>) -> Seq<u8> {
    v.map_values(|x: u32| x as u8)
}

/// Total hits of random picks over draws `i..`, one fresh sample of six from `1..=33`
/// per draw, starting from generator state `s`; also the state afterwards.
pub open spec fn random_total(ds: Seq<Draw>, i: int, s: (u64, u64)) -> ((u64, u64), nat)
    decreases ds.len() - i,
{
    if i < 0 || i >= ds.len() {
        (s, 0)
    } else {
        let (s2, v) = sample_spec(s, 33, 6);
        let (s3, t) = random_total(ds, i + 1, s2);
        (s3, hits_spec(as_balls(v), ds[i].reds@) + t)
    }
}

/// Hit totals of the three strategies over the backtested draws, and their number.
pub struct PredSums {
    pub cold: u64,
    pub hot: u64,
    pub random: u64,
    pub n: u64,
}

proof fn lemma_strategy_total_step(ds: Seq<Draw>, w: int, i: int, hot: bool)
    requires
        0 <= i < ds.len(),
    ensures
        strategy_total(ds, w, i, hot) == strategy_hits(ds, w, i, hot) + strategy_total(ds, w, i + 1, hot),
{
}

/// On a prefix of the draws, the strategy hits at a draw before its end are those on
/// the whole sequence.
proof fn lemma_strategy_hits_prefix(ds: Seq<Draw>, w: int, i: int, m: int, hot: bool)
    requires
        0 <= w <= i < m <= ds.len(),
    ensures
        strategy_hits(ds.take(m), w, i, hot) == strategy_hits(ds, w, i, hot),
{
    assert(ds.take(m).subrange(i - w, i) =~= ds.subrange(i - w, i));
    assert(window_counts(ds.take(m), i - w, i) =~= window_counts(ds, i - w, i));
}

/// Adding draw `m` to a prefix of `m` draws adds its hits to the totals from `i` on.
proof fn lemma_strategy_total_extend(ds: Seq<Draw>, w: int, i: int, m: int, hot: bool)
    requires
        0 <= w <= i <= m < ds.len(),
    ensures
        strategy_total(ds.take(m + 1), w, i, hot) == strategy_total(ds.take(m), w, i, hot) + strategy_hits(ds, w, m, hot),
    decreases m - i,
{
    if i == m {
        lemma_strategy_hits_prefix(ds, w, m, m + 1, hot);
        assert(strategy_total(ds.take(m + 1), w, m + 1, hot) == 0);
        assert(strategy_total(ds.take(m), w, m, hot) == 0);
    } else {
        lemma_strategy_total_extend(ds, w, i + 1, m, hot);
        lemma_strategy_hits_prefix(ds, w, i, m + 1, hot);
        lemma_strategy_hits_prefix(ds, w, i, m, hot);
    }
}

/// The backtest credits each draw with what the pick made from the draws before it
/// alone scores: backtesting the first `m + 1` draws adds to the totals of the first
/// `m` draws exactly the hits, on draw `m`'s red balls, of the six coldest (or hottest)
/// balls of the red-ball tallies over draws `m - window .. m - 1` (each tally the
/// number of those draws holding the ball). Backtesting the first `window` draws gives
/// nothing. So draw `m` and the draws after it never shape the pick for draw `m`.
pub proof fn lemma_backtest_uses_earlier_draws(ds: Seq<Draw>, window: int, m: int, hot: bool)
    requires
        0 <= window <= m < ds.len(),
    ensures
        strategy_total(ds.take(window), window, window, hot) == 0,
        strategy_total(ds.take(m + 1), window, window, hot) == strategy_total(ds.take(m), window, window, hot)
            + hits_spec(
            top_six(Seq::new(34, |k: int| red_tally(ds.subrange(m - window, m), k) as u64), hot),
            ds[m].reds@,
        ),
{
    lemma_strategy_total_extend(ds, window, window, m, hot);
    assert(window_counts(ds, m - window, m) =~= Seq::new(34, |k: int| red_tally(ds.subrange(m - window, m), k) as u64));
}

/// From draw `window` on, predicts each draw from the `window` draws before it with the
/// cold, hot and random strategies and adds up the hits (the counting part of the
/// backtest; averages are these totals divided by `n`).
pub fn prediction_sums(draws: &[Draw], window: usize, rng: &mut Rng) -> (r: PredSums)
    requires
        draws@.len() * 6 <= u64::MAX,
        forall|d: int, p: int| 0 <= d < draws@.len() && 0 <= p < 6 ==> #[trigger] draws@[d].reds@[p] < 34,
    ensures
        r.n == if draws@.len() > window { draws@.len() - window } else { 0 },
        r.cold == strategy_total(draws@, window as int, window as int, false),
        r.hot == strategy_total(draws@, window as int, window as int, true),
        (final(rng)@, r.random as nat) == random_total(draws@, window as int, old(rng)@),
{
    let ghost ds = draws@;
    let ghost w = window as int;
    if draws.len() <= window {
        return PredSums { cold: 0, hot: 0, random: 0, n: 0 };
    }
    let mut cold_sum: u64 = 0;
    let mut hot_sum: u64 = 0;
    let mut rand_sum: u64 = 0;
    let mut n: u64 = 0;
    let mut i: usize = window;
    while i < draws.len()
        invariant
            ds == draws@,
            w == window,
            window <= i <= ds.len(),
            ds.len() * 6 <= u64::MAX,
            forall|d: int, p: int| 0 <= d < ds.len() && 0 <= p < 6 ==> #[trigger] ds[d].reds@[p] < 34,
            n == i - window,
            cold_sum <= 6 * n,
            hot_sum <= 6 * n,
            rand_sum <= 6 * n,
            cold_sum + strategy_total(ds, w, i as int, false) == strategy_total(ds, w, w, false),
            hot_sum + strategy_total(ds, w, i as int, true) == strategy_total(ds, w, w, true),
            random_total(ds, w, old(rng)@).0 == random_total(ds, i as int, rng@).0,
            random_total(ds, w, old(rng)@).1 == rand_sum + random_total(ds, i as int, rng@).1,
        decreases ds.len() - i,
    {
        assert(window * 6 <= u64::MAX) by (nonlinear_arith)
            requires window < ds.len(), ds.len() * 6 <= u64::MAX;
        let wc = tally_range(draws, i - window, i);
        proof {
            assert forall|k: int| 0 <= k < 34 implies #[trigger] red_tally(ds.subrange(i - w, i as int), k) <= u64::MAX by {
                lemma_red_tally_le(ds.subrange(i - w, i as int), k);
            }
            assert(wc@ =~= window_counts(ds, i - w, i as int));
        }
        let cold_pred = pick_by_window(&wc, false);
        let hot_pred = pick_by_window(&wc, true);
        let v = rng.sample(33, 6);
        let rand_pred: [u8; 6] = [v[0] as u8, v[1] as u8, v[2] as u8, v[3] as u8, v[4] as u8, v[5] as u8];
        assert(rand_pred@ =~= as_balls(v@));
        let hc = hits(&cold_pred, &draws[i]);
        let hh = hits(&hot_pred, &draws[i]);
        let hr = hits(&rand_pred, &draws[i]);
        proof {
            lemma_hits_le(cold_pred@, ds[i as int].reds@);
            lemma_hits_le(hot_pred@, ds[i as int].reds@);
            lemma_hits_le(rand_pred@, ds[i as int].reds@);
            lemma_strategy_total_step(ds, w, i as int, false);
            lemma_strategy_total_step(ds, w, i as int, true);
            assert(6 * n + 6 <= 6 * ds.len()) by (nonlinear_arith)
                requires n == i - window, i < ds.len();
        }
        cold_sum = cold_sum + hc as u64;
        hot_sum = hot_sum + hh as u64;
        rand_sum = rand_sum + hr as u64;
        n = n + 1;
        i = i + 1;
    }
    PredSums { cold: cold_sum, hot: hot_sum, random: rand_sum, n }
}

/// An accepted draw has six distinct red balls of `1..=33` in ascending order and a
/// blue ball of `1..=16`.
pub open spec fn valid_draw(d: DrawView) -> bool {
    &&& d.reds.len() == 6
    &&& forall|i: int| 0 <= i < 6 ==> 1 <= #[trigger] d.reds[i] <= 33
    &&& forall|i: int, j: int| 0 <= i < j < 6 ==> d.reds[i] < d.reds[j]
    &&& 1 <= d.blue <= 16
}

/// What `parse_draw_fields` accepts is a valid draw.
pub proof fn lemma_accepted_draw_valid(ts: Seq<Seq<char>>)
    requires
        draw_of(ts) is Ok,
    ensures
        valid_draw(draw_of(ts)->Ok_0),
{
    let vals = red_vals(ts);
    crate::realdata::lemma_first_from(6, red_bad_at(ts), 0);
    crate::realdata::lemma_first_from(6, dup_at_u8(vals), 0);
    assert forall|i: int| 0 <= i < 6 implies 1 <= #[trigger] vals[i] <= 33 by {
        assert(!red_bad_at(ts)(i));
    }
    assert forall|i: int, j: int| 0 <= i < vals.len() && 0 <= j < vals.len() && i != j implies vals[i] != vals[j] by {
        if i < j {
            assert(!dup_at_u8(vals)(i));
            assert(!repeats_later_u8(vals, i));
        } else {
            assert(!dup_at_u8(vals)(j));
            assert(!repeats_later_u8(vals, j));
        }
    }
    assert(vals.no_duplicates());
    crate::order::lemma_sorted_distinct_u8(vals);
    let v = sorted_u8(vals);
    assert forall|i: int| 0 <= i < 6 implies 1 <= #[trigger] v[i] <= 33 by {
        assert(vals.contains(v[i]));
    }
}

/// Number of data lines among `lines`.
pub open spec fn data_lines(lines: Seq<Seq<char>>) -> nat
    decreases lines.len(),
{
    if lines.len() == 0 {
        0
    } else {
        data_lines(lines.drop_last()) + if is_data_line(lines.last()) { 1nat } else { 0nat }
    }
}

/// Every data line becomes a draw or a skipped line, and every kept draw is valid
/// (so its red balls index the tallies).
pub proof fn lemma_ssq_lines_partition(lines: Seq<Seq<char>>)
    ensures
        parse_lines_spec(lines).0.len() + parse_lines_spec(lines).1.len() == data_lines(lines),
        forall|i: int| 0 <= i < parse_lines_spec(lines).0.len() ==> valid_draw(#[trigger] parse_lines_spec(lines).0[i]),
    decreases lines.len(),
{
    if lines.len() > 0 {
        lemma_ssq_lines_partition(lines.drop_last());
        let l = lines.last();
        if is_data_line(l) {
            if draw_of(line_fields(l)) is Ok {
                lemma_accepted_draw_valid(line_fields(l));
            }
        }
    }
}

// ------------------------------------------------------------------ both parsers

/// Byte values widened to `u32`.
pub open spec fn widen(s: Seq<u8>) -> Seq<u32> {
    Seq::new(s.len(), |i: int| s[i] as u32)
}

/// Two strictly ascending sequences with the same elements are equal.
proof fn lemma_ascending_unique(a: Seq<u32>, b: Seq<u32>)
    requires
        forall|i: int, j: int| 0 <= i < j < a.len() ==> a[i] < a[j],
        forall|i: int, j: int| 0 <= i < j < b.len() ==> b[i] < b[j],
        forall|x: u32| a.contains(x) <==> b.contains(x),
    ensures
        a == b,
    decreases a.len(),
{
    if a.len() == 0 {
        if b.len() > 0 {
            assert(b.contains(b[0]));
        }
        assert(a =~= b);
    } else {
        assert(a.contains(a[0]));
        if b.len() == 0 {
            assert(false);
        }
        assert(b.contains(b[0]));
        let j = choose|j: int| 0 <= j < b.len() && b[j] == a[0];
        let i = choose|i: int| 0 <= i < a.len() && a[i] == b[0];
        if i > 0 {
            assert(a[0] < a[i]);
        }
        if j > 0 {
            assert(b[0] < b[j]);
        }
        assert(a[0] == b[0]);
        let a1 = a.drop_first();
        let b1 = b.drop_first();
        assert forall|x: u32| a1.contains(x) <==> b1.contains(x) by {
            if a1.contains(x) {
                let k = choose|k: int| 0 <= k < a1.len() && a1[k] == x;
                assert(a[k + 1] == x && a[0] < a[k + 1]);
                assert(a.contains(x));
                let m = choose|m: int| 0 <= m < b.len() && b[m] == x;
                assert(m != 0);
                assert(b1[m - 1] == x);
            }
            if b1.contains(x) {
                let k = choose|k: int| 0 <= k < b1.len() && b1[k] == x;
                assert(b[k + 1] == x && b[0] < b[k + 1]);
                assert(b.contains(x));
                let m = choose|m: int| 0 <= m < a.len() && a[m] == x;
                assert(m != 0);
                assert(a1[m - 1] == x);
            }
        }
        lemma_ascending_unique(a1, b1);
        assert(a =~= seq![a[0]] + a1);
        assert(b =~= seq![b[0]] + b1);
    }
}

/// Sorting distinct bytes, then widening them, is widening them, then sorting.
proof fn lemma_sort_widen(vals: Seq<u8>)
    requires
        vals.no_duplicates(),
    ensures
        sorted_u32(widen(vals)) == widen(sorted_u8(vals)),
{
    broadcast use vstd::seq_lib::group_to_multiset_ensures;

    let w = widen(vals);
    assert(w.no_duplicates()) by {
        assert forall|i: int, j: int| 0 <= i < w.len() && 0 <= j < w.len() && i != j implies w[i] != w[j] by {
            assert(vals[i] != vals[j]);
        }
    }
    lemma_sorted_distinct_u8(vals);
    lemma_sorted_distinct(w);
    lemma_le_u8_total();
    lemma_le_u32_total();
    vals.lemma_sort_by_ensures(le_u8());
    w.lemma_sort_by_ensures(le_u32());
    let v8 = sorted_u8(vals);
    let s32 = sorted_u32(w);
    let wv = widen(v8);
    assert forall|x: u32| s32.contains(x) <==> wv.contains(x) by {
        if s32.contains(x) {
            assert(s32.to_multiset().count(x) > 0);
            assert(w.contains(x));
            let k = choose|k: int| 0 <= k < w.len() && w[k] == x;
            assert(vals.contains(vals[k]));
            assert(vals.to_multiset().count(vals[k]) > 0);
            assert(v8.to_multiset().count(vals[k]) > 0);
            assert(v8.contains(vals[k]));
            let m = choose|m: int| 0 <= m < v8.len() && v8[m] == vals[k];
            assert(wv[m] == x);
        }
        if wv.contains(x) {
            let m = choose|m: int| 0 <= m < wv.len() && wv[m] == x;
            assert(vals.contains(v8[m]));
            let k = choose|k: int| 0 <= k < vals.len() && vals[k] == v8[m];
            assert(w[k] == x);
            assert(w.contains(x));
            assert(w.to_multiset().count(x) > 0);
            assert(s32.to_multiset().count(x) > 0);
        }
    }
    assert forall|i: int, j: int| 0 <= i < j < wv.len() implies wv[i] < wv[j] by {
        assert(v8[i] < v8[j]);
    }
    lemma_ascending_unique(s32, wv);
}

/// A token reads as the same number as `u8` and as `u32`, when that number is at
/// most 255.
spec fn same_reading(t: Seq<char>) -> bool {
    &&& (u8_of(t) is Some ==> u32_of(t) == u8_of(t))
    &&& (u32_of(t) matches Some(v) && v <= 255 ==> u8_of(t) == u32_of(t))
}

proof fn lemma_token(t: Seq<char>)
    ensures
        same_reading(t),
{
}

/// The six red fields, checked as the red pool of size 33, are accepted exactly when
/// the ssq parser accepts its red balls, and then give them ascending.
proof fn lemma_red_component(c: Component, ts: Seq<Seq<char>>)
    requires
        ts.len() == 9,
        c matches Component::Pool { size, .. } && size == 33,
    ensures
        (check_component(c, ts.skip(2).take(6)) is Ok) == (first_from(6, red_bad_at(ts), 0) is None
            && first_from(6, dup_at_u8(red_vals(ts)), 0) is None),
        check_component(c, ts.skip(2).take(6)) is Ok ==> check_component(c, ts.skip(2).take(6))->Ok_0
            == widen(sorted_u8(red_vals(ts))),
{
    let r = ts.skip(2).take(6);
    let vals = red_vals(ts);
    let seg = seg_values(r);
    lemma_first_from(6, red_bad_at(ts), 0);
    lemma_first_from(6, bad_int_at(r), 0);
    lemma_first_from(6, out_of_pool_at(seg, 33), 0);
    assert forall|i: int| 0 <= i < 6 implies #[trigger] r[i] == ts[2 + i] by {}
    assert forall|i: int| 0 <= i < 6 implies same_reading(#[trigger] trim(ts[2 + i])) by {
        lemma_token(trim(ts[2 + i]));
    }
    let ok_all = first_from(6, red_bad_at(ts), 0) is None;
    let gen_all = first_bad_int(r) is None && first_out_of_pool(seg, 33) is None;
    if ok_all {
        assert forall|i: int| 0 <= i < 6 implies !#[trigger] bad_int_at(r)(i) by {
            assert(!red_bad_at(ts)(i));
            assert(same_reading(trim(ts[2 + i])));
        }
        assert forall|i: int| 0 <= i < 6 implies !#[trigger] out_of_pool_at(seg, 33)(i) by {
            assert(!red_bad_at(ts)(i));
            assert(same_reading(trim(ts[2 + i])));
        }
        lemma_first_none(6, bad_int_at(r));
        lemma_first_none(6, out_of_pool_at(seg, 33));
        assert(gen_all);
    }
    if gen_all {
        assert forall|i: int| 0 <= i < 6 implies !#[trigger] red_bad_at(ts)(i) by {
            assert(!bad_int_at(r)(i));
            assert(!out_of_pool_at(seg, 33)(i));
            assert(same_reading(trim(ts[2 + i])));
        }
        lemma_first_none(6, red_bad_at(ts));
    }
    if ok_all {
        assert forall|i: int| 0 <= i < 6 implies seg[i] == #[trigger] widen(vals)[i] by {
            assert(!red_bad_at(ts)(i));
            assert(same_reading(trim(ts[2 + i])));
        }
        assert(seg =~= widen(vals));
        lemma_first_from(6, dup_at_u8(vals), 0);
        lemma_first_from(6, dup_at(seg), 0);
        assert forall|i: int| 0 <= i < 6 implies (dup_at(seg)(i) == #[trigger] dup_at_u8(vals)(i)) by {
            if repeats_later(seg, i) {
                let j = choose|j: int| i < j < seg.len() && seg[j] == seg[i];
                assert(vals[j] == vals[i]);
            }
            if repeats_later_u8(vals, i) {
                let j = choose|j: int| i < j < vals.len() && vals[j] == vals[i];
                assert(seg[j] == seg[i]);
            }
        }
        if first_from(6, dup_at_u8(vals), 0) is None {
            assert forall|i: int| 0 <= i < 6 implies !#[trigger] dup_at(seg)(i) by {
                assert(!dup_at_u8(vals)(i));
            }
            lemma_first_none(6, dup_at(seg));
            assert(vals.no_duplicates()) by {
                assert forall|i: int, j: int| 0 <= i < vals.len() && 0 <= j < vals.len() && i != j implies vals[i] != vals[j] by {
                    if i < j {
                        assert(!dup_at_u8(vals)(i));
                    } else {
                        assert(!dup_at_u8(vals)(j));
                    }
                }
            }
            lemma_sort_widen(vals);
        } else {
            let i = first_from(6, dup_at_u8(vals), 0)->Some_0;
            assert(dup_at(seg)(i));
        }
    }
}


/// The blue field, checked as the blue pool of size 16, is accepted exactly when the
/// ssq parser accepts the blue ball, and then gives it.
proof fn lemma_blue_component(c: Component, t: Seq<Seq<char>>)
    requires
        t.len() == 1,
        c matches Component::Pool { size, .. } && size == 16,
    ensures
        (check_component(c, t) is Ok) == (u8_of(trim(t[0])) matches Some(b) && 1 <= b <= 16),
        check_component(c, t) is Ok ==> check_component(c, t)->Ok_0 == seq![u8_of(trim(t[0]))->Some_0 as u32],
{
    lemma_token(trim(t[0]));
    let seg = seg_values(t);
    lemma_first_from(1, bad_int_at(t), 0);
    lemma_first_from(1, out_of_pool_at(seg, 16), 0);
    lemma_first_from(1, dup_at(seg), 0);
    if u32_of(trim(t[0])) is Some {
        assert(!bad_int_at(t)(0));
        lemma_first_none(1, bad_int_at(t));
        if !out_of_pool_at(seg, 16)(0) {
            lemma_first_none(1, out_of_pool_at(seg, 16));
            assert(!repeats_later(seg, 0));
            lemma_first_none(1, dup_at(seg));
            assert(seg.no_duplicates());
            lemma_sorted_distinct(seg);
            assert(seg.contains(sorted_u32(seg)[0]));
            assert(sorted_u32(seg) =~= seg);
        }
    }
}

/// The ssq parser and the generic parser on the ssq entry of the game table agree on
/// every row: one accepts it exactly when the other does, and then both give the same
/// issue and date, the same red balls in ascending order and the same blue ball.
pub proof fn lemma_ssq_parsers_agree(gs: Seq<GameSpec>, ts: Seq<Seq<char>>)
    requires
        is_game_table(gs),
    ensures
        (draw_of(ts) is Ok) == (record_of(gs[0], ts) is Ok),
        draw_of(ts) is Ok ==> record_of(gs[0], ts)->Ok_0 == (RecordView {
            issue: draw_of(ts)->Ok_0.issue,
            date: draw_of(ts)->Ok_0.date,
            components: seq![widen(draw_of(ts)->Ok_0.reds), seq![draw_of(ts)->Ok_0.blue as u32]],
        }),
{
    let g = gs[0];
    let cs = g.components@;
    assert(cs.drop_last() =~= seq![cs[0]]);
    assert(seq![cs[0]].drop_last() =~= Seq::<Component>::empty());
    assert(widths_sum(Seq::<Component>::empty()) == 0);
    assert(seq![cs[0]].last() == cs[0]);
    assert(comp_width(cs[0]) == 6);
    assert(widths_sum(seq![cs[0]]) == 6);
    assert(comp_width(cs[1]) == 1);
    assert(spec_field_count(g) == 9);
    if ts.len() == 9 {
        let rest = ts.skip(2);
        let cs1 = cs.drop_first();
        assert(cs1[0] == cs[1]);
        assert(cs1.drop_first() =~= Seq::<Component>::empty());
        let bt = rest.skip(6).take(1);
        assert(bt[0] == ts[8]);
        lemma_red_component(cs[0], ts);
        lemma_blue_component(cs[1], bt);
        assert(rest.take(6) =~= ts.skip(2).take(6));
        let tail = check_components(cs1, rest.skip(6));
        assert(tail == match check_component(cs1[0], rest.skip(6).take(1)) {
            Err(e) => Err(e),
            Ok(seg) => match check_components(cs1.drop_first(), rest.skip(6).skip(1)) {
                Err(e) => Err(e),
                Ok(more) => Ok(seq![seg] + more),
            },
        });
        assert(check_components(cs1.drop_first(), rest.skip(6).skip(1)) == Ok::<Seq<Seq<u32>>, Seq<char>>(Seq::empty()));
        assert(check_components(cs, rest) == match check_component(cs[0], rest.take(6)) {
            Err(e) => Err(e),
            Ok(seg) => match tail {
                Err(e) => Err(e),
                Ok(more) => Ok(seq![seg] + more),
            },
        });
        if draw_of(ts) is Ok {
            let d = draw_of(ts)->Ok_0;
            let comps = seq![widen(d.reds), seq![d.blue as u32]];
            assert(check_component(cs[0], rest.take(6)) == Ok::<Seq<u32>, Seq<char>>(widen(d.reds)));
            assert(check_component(cs1[0], bt) == Ok::<Seq<u32>, Seq<char>>(seq![d.blue as u32]));
            assert(tail == Ok::<Seq<Seq<u32>>, Seq<char>>(seq![seq![d.blue as u32]]));
            assert(seq![widen(d.reds)] + seq![seq![d.blue as u32]] =~= comps);
            assert(check_components(cs, rest) == Ok::<Seq<Seq<u32>>, Seq<char>>(comps));
        }
    }
}

} // verus!
