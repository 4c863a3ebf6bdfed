//! Parsing of real draw rows for any game described by a `GameSpec`.
use vstd::prelude::*;
use crate::game_spec::{comp_width, is_game_table, spec_field_count, widths_sum, Component, GameSpec};
use crate::order::{sort_u32, sorted_u32};
use crate::text::{all_digits, trim_start, bounds_within, is_digit, line_bounds, lines_of, lemma_split_on_nonempty, pieces, split_bounds, split_on, trimmed_range, dec, parse_uint, parse_unsigned, push_dec, push_range, push_str, string_of, trim, trimmed_chars, chars_of};

verus! {

/// One parsed draw: issue, date, and one number segment per component.
pub struct DrawRecord {
    pub issue: String,
    pub date: String,
    pub components: Vec<Vec<u32>>,
}

/// A data line that was not accepted, with its 1-based line number.
pub struct SkipInfo {
    pub line: usize,
    pub reason: String,
}

pub struct RecordView {
    pub issue: Seq<char>,
    pub date: Seq<char>,
    pub components: Seq<Seq<u32>>,
}

impl View for DrawRecord {
    type V = RecordView;

    open spec fn view(&self) -> RecordView {
        RecordView {
            issue: self.issue@,
            date: self.date@,
            components: self.components@.map_values(|c: Vec<u32>| c@),
        }
    }
}

/// The text of each field.
pub open spec fn field_texts(fields: Seq<&str>) -> Seq<Seq<char>> {
    fields.map_values(|f: &str| f@)
}

/// The characters of each field.
pub open spec fn chars_texts(fields: Seq<Vec<char>>) -> Seq<Seq<char>> {
    fields.map_values(|f: Vec<char>| f@)
}

/// Every digit position has a base of at least one.
pub open spec fn spec_wf(g: GameSpec) -> bool {
    forall|k: int|
        0 <= k < g.components@.len() ==> (#[trigger] g.components@[k] matches Component::Digits {
            bases,
            ..
        } ==> forall|p: int| 0 <= p < bases@.len() ==> bases@[p] >= 1)
}

/// The first index in `k..n` where `p` holds.
pub open spec fn first_from(n: int, p: spec_fn(int) -> bool, k: int) -> Option<int>
    decreases n - k,
{
    if k < 0 || k >= n {
        None
    } else if p(k) {
        Some(k)
    } else {
        first_from(n, p, k + 1)
    }
}

pub proof fn lemma_first_from(n: int, p: spec_fn(int) -> bool, k: int)
    requires
        0 <= k,
    ensures
        first_from(n, p, k) matches Some(i) ==> k <= i < n && p(i) && forall|j: int|
            k <= j < i ==> !#[trigger] p(j),
        first_from(n, p, k) is None ==> forall|j: int| k <= j < n ==> !#[trigger] p(j),
    decreases n - k,
{
    if k < n && !p(k) {
        lemma_first_from(n, p, k + 1);
    }
}

/// `k` is the first index where `p` holds.
pub proof fn lemma_first_is(n: int, p: spec_fn(int) -> bool, k: int)
    requires
        0 <= k < n,
        p(k),
        forall|j: int| 0 <= j < k ==> !#[trigger] p(j),
    ensures
        first_from(n, p, 0) == Some(k),
{
    lemma_first_is_from(n, p, 0, k);
}

/// `k` is the first index at or after `m` where `p` holds.
pub proof fn lemma_first_is_from(n: int, p: spec_fn(int) -> bool, m: int, k: int)
    requires
        0 <= m <= k < n,
        p(k),
        forall|j: int| m <= j < k ==> !#[trigger] p(j),
    ensures
        first_from(n, p, m) == Some(k),
    decreases k - m,
{
    if m < k {
        assert(!p(m));
        lemma_first_is_from(n, p, m + 1, k);
    }
}

/// `p` holds nowhere below `n`.
pub proof fn lemma_first_none(n: int, p: spec_fn(int) -> bool)
    requires
        forall|j: int| 0 <= j < n ==> !#[trigger] p(j),
    ensures
        first_from(n, p, 0) is None,
{
    lemma_first_none_from(n, p, 0);
}

/// `p` holds nowhere in `m..n`.
pub proof fn lemma_first_none_from(n: int, p: spec_fn(int) -> bool, m: int)
    requires
        0 <= m,
        forall|j: int| m <= j < n ==> !#[trigger] p(j),
    ensures
        first_from(n, p, m) is None,
    decreases n - m,
{
    if m < n {
        assert(!p(m));
        lemma_first_none_from(n, p, m + 1);
    }
}

/// The value of a token as `str::parse::<u32>` reads it.
pub open spec fn u32_of(t: Seq<char>) -> Option<nat> {
    parse_unsigned(t, u32::MAX as nat)
}

/// The values of tokens that all read as `u32`.
pub open spec fn seg_values(ts: Seq<Seq<char>>) -> Seq<u32> {
    Seq::new(ts.len(), |i: int| u32_of(trim(ts[i]))->Some_0 as u32)
}

pub open spec fn msg_field_count(want: nat, got: nat) -> Seq<char> {
    "字段数应为 "@ + dec(want) + ",实际 "@ + dec(got)
}

pub open spec fn msg_bad_int(t: Seq<char>) -> Seq<char> {
    "'"@ + t + "' 非法整数"@
}

pub open spec fn msg_pool_range(v: nat, size: nat) -> Seq<char> {
    "号 "@ + dec(v) + " 超出 1-"@ + dec(size)
}

pub open spec fn msg_dup(v: nat) -> Seq<char> {
    "号重复:"@ + dec(v)
}

pub open spec fn msg_digit_range(pos1: nat, v: nat, top: nat) -> Seq<char> {
    "第 "@ + dec(pos1) + " 位值 "@ + dec(v) + " 超出 0-"@ + dec(top)
}

/// Index of the first token that does not read as `u32`.
pub open spec fn bad_int_at(ts: Seq<Seq<char>>) -> spec_fn(int) -> bool {
    |i: int| u32_of(trim(ts[i])) is None
}

pub open spec fn first_bad_int(ts: Seq<Seq<char>>) -> Option<int> {
    first_from(ts.len() as int, bad_int_at(ts), 0)
}

/// Index of the first value outside `1..=size`.
pub open spec fn out_of_pool_at(vals: Seq<u32>, size: u32) -> spec_fn(int) -> bool {
    |i: int| vals[i] < 1 || vals[i] > size
}

pub open spec fn first_out_of_pool(vals: Seq<u32>, size: u32) -> Option<int> {
    first_from(vals.len() as int, out_of_pool_at(vals, size), 0)
}

/// `vals[i]` occurs again later.
pub open spec fn repeats_later(vals: Seq<u32>, i: int) -> bool {
    exists|j: int| i < j < vals.len() && vals[j] == vals[i]
}

/// Index of the first value that occurs again later.
pub open spec fn dup_at(vals: Seq<u32>) -> spec_fn(int) -> bool {
    |i: int| repeats_later(vals, i)
}

pub open spec fn first_dup(vals: Seq<u32>) -> Option<int> {
    first_from(vals.len() as int, dup_at(vals), 0)
}

/// Index of the first digit that is not below its base.
pub open spec fn digit_over_at(vals: Seq<u32>, bases: Seq<u32>) -> spec_fn(int) -> bool {
    |i: int| vals[i] >= bases[i]
}

pub open spec fn first_digit_over(vals: Seq<u32>, bases: Seq<u32>) -> Option<int> {
    first_from(vals.len() as int, digit_over_at(vals, bases), 0)
}

/// Checks one component's tokens in order: all integers, then the range (and, for a
/// pool, no repeats). A pool segment comes back in ascending order, a digit segment
/// in its positions.
pub open spec fn check_component(c: Component, ts: Seq<Seq<char>>) -> Result<Seq<u32>, Seq<char>> {
    match first_bad_int(ts) {
        Some(k) => Err(msg_bad_int(trim(ts[k]))),
        None => {
            let vals = seg_values(ts);
            match c {
                Component::Pool { size, .. } => match first_out_of_pool(vals, size) {
                    Some(i) => Err(msg_pool_range(vals[i] as nat, size as nat)),
                    None => match first_dup(vals) {
                        Some(i) => Err(msg_dup(vals[i] as nat)),
                        None => Ok(sorted_u32(vals)),
                    },
                },
                Component::Digits { bases, .. } => match first_digit_over(vals, bases@) {
                    Some(i) => Err(
                        msg_digit_range((i + 1) as nat, vals[i] as nat, (bases@[i] - 1) as nat),
                    ),
                    None => Ok(vals),
                },
            }
        },
    }
}

/// Checks the components one after another on consecutive runs of tokens; the first
/// failure is the answer.
pub open spec fn check_components(cs: Seq<Component>, ts: Seq<Seq<char>>) -> Result<
    Seq<Seq<u32>>,
    Seq<char>,
>
    decreases cs.len(),
{
    if cs.len() == 0 {
        Ok(Seq::empty())
    } else {
        let w = comp_width(cs[0]) as int;
        match check_component(cs[0], ts.take(w)) {
            Err(e) => Err(e),
            Ok(seg) => match check_components(cs.drop_first(), ts.skip(w)) {
                Err(e) => Err(e),
                Ok(rest) => Ok(seq![seg] + rest),
            },
        }
    }
}

/// The record that one row's fields describe, or the reason it is refused.
pub open spec fn record_of(g: GameSpec, ts: Seq<Seq<char>>) -> Result<RecordView, Seq<char>> {
    if ts.len() != spec_field_count(g) {
        Err(msg_field_count(spec_field_count(g), ts.len()))
    } else {
        match check_components(g.components@, ts.skip(2)) {
            Err(e) => Err(e),
            Ok(cs) => Ok(RecordView { issue: trim(ts[0]), date: trim(ts[1]), components: cs }),
        }
    }
}

pub open spec fn prepend_ok(acc: Seq<Seq<u32>>, r: Result<Seq<Seq<u32>>, Seq<char>>) -> Result<
    Seq<Seq<u32>>,
    Seq<char>,
> {
    match r {
        Err(e) => Err(e),
        Ok(rest) => Ok(acc + rest),
    }
}


fn bad_int_message(t: &[char]) -> (m: String)
    ensures
        m@ == msg_bad_int(t@),
{
    let mut m = String::new();
    push_str(&mut m, "'");
    push_range(&mut m, t, 0, t.len());
    push_str(&mut m, "' 非法整数");
    assert(t@.subrange(0, t@.len() as int) =~= t@);
    assert(m@ =~= msg_bad_int(t@));
    m
}

fn field_count_message(want: usize, got: usize) -> (m: String)
    ensures
        m@ == msg_field_count(want as nat, got as nat),
{
    let mut m = String::new();
    push_str(&mut m, "字段数应为 ");
    push_dec(&mut m, want as u64);
    push_str(&mut m, ",实际 ");
    push_dec(&mut m, got as u64);
    assert(m@ =~= msg_field_count(want as nat, got as nat));
    m
}

fn pool_range_message(v: u32, size: u32) -> (m: String)
    ensures
        m@ == msg_pool_range(v as nat, size as nat),
{
    let mut m = String::new();
    push_str(&mut m, "号 ");
    push_dec(&mut m, v as u64);
    push_str(&mut m, " 超出 1-");
    push_dec(&mut m, size as u64);
    assert(m@ =~= msg_pool_range(v as nat, size as nat));
    m
}

fn dup_message(v: u32) -> (m: String)
    ensures
        m@ == msg_dup(v as nat),
{
    let mut m = String::new();
    push_str(&mut m, "号重复:");
    push_dec(&mut m, v as u64);
    assert(m@ =~= msg_dup(v as nat));
    m
}

fn digit_range_message(pos1: usize, v: u32, top: u32) -> (m: String)
    ensures
        m@ == msg_digit_range(pos1 as nat, v as nat, top as nat),
{
    let mut m = String::new();
    push_str(&mut m, "第 ");
    push_dec(&mut m, pos1 as u64);
    push_str(&mut m, " 位值 ");
    push_dec(&mut m, v as u64);
    push_str(&mut m, " 超出 0-");
    push_dec(&mut m, top as u64);
    assert(m@ =~= msg_digit_range(pos1 as nat, v as nat, top as nat));
    m
}

/// The digit bases of a component are all at least one.
pub open spec fn comp_wf(c: Component) -> bool {
    c matches Component::Digits { bases, .. } ==> forall|p: int|
        0 <= p < bases@.len() ==> bases@[p] >= 1
}

/// Checks the fields `fields[idx..idx + width]` of one component.
#[verifier::loop_isolation(false)]
fn check_segment(c: &Component, fields: &[Vec<char>], idx: usize) -> (r: Result<Vec<u32>, String>)
    requires
        idx + comp_width(*c) <= fields@.len(),
        comp_wf(*c),
    ensures
        match check_component(
            *c,
            chars_texts(fields@).subrange(idx as int, idx + comp_width(*c)),
        ) {
            Ok(s) => r matches Ok(v) && v@ == s,
            Err(e) => r matches Err(m) && m@ == e,
        },
{
    let w = c.width();
    let n = fields.len();
    let ghost ts = chars_texts(fields@).subrange(idx as int, idx + w);
    let mut seg: Vec<u32> = Vec::new();
    let mut k: usize = 0;
    while k < w
        invariant
            w == comp_width(*c),
            idx + w <= n,
            n == fields@.len(),
            ts == chars_texts(fields@).subrange(idx as int, idx + w),
            k <= w,
            seg@.len() == k,
            forall|j: int| 0 <= j < k ==> !#[trigger] bad_int_at(ts)(j),
            forall|j: int| 0 <= j < k ==> seg@[j] == #[trigger] seg_values(ts)[j],
        decreases w - k,
    {
        let t = trimmed_chars(&fields[idx + k]);
        assert(ts[k as int] == fields@[idx + k]@);
        match parse_uint(&t, 0, t.len(), 0xffff_ffffu64) {
            None => {
                assert(t@.subrange(0, t@.len() as int) =~= t@);
                proof {
                    lemma_first_is(ts.len() as int, bad_int_at(ts), k as int);
                }
                return Err(bad_int_message(&t));
            },
            Some(x) => {
                assert(t@.subrange(0, t@.len() as int) =~= t@);
                seg.push(x as u32);
            },
        }
        k = k + 1;
    }
    proof {
        lemma_first_none(ts.len() as int, bad_int_at(ts));
        assert(seg@ =~= seg_values(ts));
    }
    let ghost vals = seg@;
    match c {
        Component::Pool { size, .. } => {
            let size = *size;
            let mut i: usize = 0;
            while i < w
                invariant
                    w == seg@.len(),
                    vals == seg@,
                    i <= w,
                    forall|j: int| 0 <= j < i ==> !#[trigger] out_of_pool_at(vals, size)(j),
                decreases w - i,
            {
                let v = seg[i];
                if v < 1 || v > size {
                    proof {
                        lemma_first_is(w as int, out_of_pool_at(vals, size), i as int);
                    }
                    return Err(pool_range_message(v, size));
                }
                i = i + 1;
            }
            proof {
                lemma_first_none(w as int, out_of_pool_at(vals, size));
            }
            let mut i: usize = 0;
            while i < w
                invariant
                    w == seg@.len(),
                    vals == seg@,
                    i <= w,
                    forall|j: int| 0 <= j < i ==> !#[trigger] dup_at(vals)(j),
                decreases w - i,
            {
                let mut j: usize = i + 1;
                while j < w
                    invariant
                        w == seg@.len(),
                        vals == seg@,
                        i < w,
                        i + 1 <= j <= w,
                        forall|q: int| i < q < j ==> vals[q] != vals[i as int],
                    decreases w - j,
                {
                    if seg[i] == seg[j] {
                        proof {
                            assert(dup_at(vals)(i as int));
                            lemma_first_is(w as int, dup_at(vals), i as int);
                        }
                        return Err(dup_message(seg[i]));
                    }
                    j = j + 1;
                }
                assert(!dup_at(vals)(i as int));
                i = i + 1;
            }
            proof {
                lemma_first_none(w as int, dup_at(vals));
            }
            Ok(sort_u32(&seg))
        },
        Component::Digits { bases, .. } => {
            let mut i: usize = 0;
            while i < w
                invariant
                    w == seg@.len(),
                    w == bases@.len(),
                    vals == seg@,
                    comp_wf(*c),
                    *c matches Component::Digits { bases: b, .. } && b@ == bases@,
                    i <= w,
                    forall|j: int| 0 <= j < i ==> !#[trigger] digit_over_at(vals, bases@)(j),
                decreases w - i,
            {
                let v = seg[i];
                if v >= bases[i] {
                    proof {
                        lemma_first_is(w as int, digit_over_at(vals, bases@), i as int);
                    }
                    return Err(digit_range_message(i + 1, v, bases[i] - 1));
                }
                i = i + 1;
            }
            proof {
                lemma_first_none(w as int, digit_over_at(vals, bases@));
            }
            Ok(seg)
        },
    }
}


pub open spec fn segs_view(v: Seq<Vec<u32>>) -> Seq<Seq<u32>> {
    v.map_values(|c: Vec<u32>| c@)
}

/// `parse_record` on fields given as characters.
#[verifier::loop_isolation(false)]
pub fn parse_record_chars(spec: &GameSpec, fields: &[Vec<char>]) -> (r: Result<DrawRecord, String>)
    requires
        spec_field_count(*spec) <= usize::MAX,
        spec_wf(*spec),
    ensures
        match record_of(*spec, chars_texts(fields@)) {
            Ok(v) => r matches Ok(d) && d@ == v,
            Err(e) => r matches Err(m) && m@ == e,
        },
{
    let want = spec.field_count();
    let n = fields.len();
    if n != want {
        return Err(field_count_message(want, n));
    }
    let ghost ts = chars_texts(fields@);
    let ghost cs = spec.components@;
    let mut comps: Vec<Vec<u32>> = Vec::new();
    let mut idx: usize = 2;
    let mut k: usize = 0;
    proof {
        assert(cs.skip(0) =~= cs);
        assert(segs_view(comps@) =~= Seq::<Seq<u32>>::empty());
        assert(cs.take(0) =~= Seq::<Component>::empty());
        assert(cs.take(cs.len() as int) =~= cs);
    }
    while k < spec.components.len()
        invariant
            k <= cs.len(),
            idx == 2 + widths_sum(cs.take(k as int)),
            check_components(cs, ts.skip(2)) == prepend_ok(
                segs_view(comps@),
                check_components(cs.skip(k as int), ts.skip(idx as int)),
            ),
        decreases cs.len() - k,
    {
        let comp = &spec.components[k];
        let ghost w = comp_width(cs[k as int]);
        proof {
            crate::game_spec::lemma_widths_sum_take_mono(cs, (k + 1) as int, cs.len() as int);
            assert(cs.take(k + 1).drop_last() =~= cs.take(k as int));
            assert(cs.skip(k as int)[0] == cs[k as int]);
            assert(cs.skip(k as int).drop_first() =~= cs.skip(k + 1));
            assert(ts.skip(idx as int).take(w as int) =~= ts.subrange(idx as int, idx + w));
            assert(ts.skip(idx as int).skip(w as int) =~= ts.skip(idx + w));
            assert(comp_wf(cs[k as int]));
        }
        match check_segment(comp, fields, idx) {
            Err(e) => {
                return Err(e);
            },
            Ok(seg) => {
                let ghost before = segs_view(comps@);
                comps.push(seg);
                proof {
                    assert(segs_view(comps@) =~= before.push(seg@));
                    match check_components(cs.skip(k + 1), ts.skip(idx + w)) {
                        Ok(rest) => {
                            assert(before + (seq![seg@] + rest) =~= before.push(seg@) + rest);
                        },
                        Err(_) => {},
                    }
                }
                idx = idx + comp.width();
            },
        }
        k = k + 1;
    }
    proof {
        assert(cs.skip(k as int) =~= Seq::<Component>::empty());
        assert(segs_view(comps@) + Seq::<Seq<u32>>::empty() =~= segs_view(comps@));
    }
    let t0 = trimmed_chars(&fields[0]);
    let t1 = trimmed_chars(&fields[1]);
    Ok(DrawRecord { issue: string_of(&t0), date: string_of(&t1), components: comps })
}


/// Parses one row's fields (issue, date, numbers) for the game `spec`.
/// Any violation is refused with its reason; pool segments are stored in ascending
/// order, digit segments in their positions.
pub fn parse_record(spec: &GameSpec, fields: &[&str]) -> (r: Result<DrawRecord, String>)
    requires
        spec_field_count(*spec) <= usize::MAX,
        spec_wf(*spec),
    ensures
        match record_of(*spec, field_texts(fields@)) {
            Ok(v) => r matches Ok(d) && d@ == v,
            Err(e) => r matches Err(m) && m@ == e,
        },
{
    let mut fs: Vec<Vec<char>> = Vec::new();
    let mut i: usize = 0;
    while i < fields.len()
        invariant
            i <= fields@.len(),
            fs@.len() == i,
            chars_texts(fs@) == field_texts(fields@).take(i as int),
        decreases fields@.len() - i,
    {
        let v = chars_of(fields[i]);
        let ghost before = fs@;
        fs.push(v);
        assert(fs@ == before.push(v));
        assert forall|j: int| 0 <= j < i + 1 implies chars_texts(fs@)[j] == field_texts(fields@).take(i + 1)[j] by {
            if j < i {
                assert(chars_texts(before)[j] == field_texts(fields@).take(i as int)[j]);
            }
        }
        assert(chars_texts(fs@) =~= field_texts(fields@).take(i + 1));
        i = i + 1;
    }
    assert(field_texts(fields@).take(i as int) =~= field_texts(fields@));
    parse_record_chars(spec, &fs)
}


/// The trimmed comma-separated fields of a line.
pub open spec fn line_fields(line: Seq<char>) -> Seq<Seq<char>> {
    split_on(trim(line), ',').map_values(|f: Seq<char>| trim(f))
}

/// A line that holds data: not blank, not a `#` comment, and its first field is a
/// non-empty run of ASCII digits (so a header row is not data).
pub open spec fn is_data_line(line: Seq<char>) -> bool {
    let t = trim(line);
    &&& t.len() > 0
    &&& t[0] != '#'
    &&& line_fields(line)[0].len() > 0
    &&& all_digits(line_fields(line)[0])
}

/// Records and skipped lines (1-based line number, reason) for a list of lines.
pub open spec fn parse_lines_spec(g: GameSpec, lines: Seq<Seq<char>>) -> (
    Seq<RecordView>,
    Seq<(nat, Seq<char>)>,
)
    decreases lines.len(),
{
    if lines.len() == 0 {
        (Seq::empty(), Seq::empty())
    } else {
        let prev = parse_lines_spec(g, lines.drop_last());
        let l = lines.last();
        if !is_data_line(l) {
            prev
        } else {
            match record_of(g, line_fields(l)) {
                Ok(r) => (prev.0.push(r), prev.1),
                Err(e) => (prev.0, prev.1.push((lines.len() as nat, e))),
            }
        }
    }
}

pub open spec fn records_view(v: Seq<DrawRecord>) -> Seq<RecordView> {
    v.map_values(|d: DrawRecord| d@)
}

pub open spec fn skips_view(v: Seq<SkipInfo>) -> Seq<(nat, Seq<char>)> {
    v.map_values(|s: SkipInfo| (s.line as nat, s.reason@))
}

/// The trimmed fields of `v[lo..hi]` split at commas.
pub fn fields_of(v: &[char], lo: usize, hi: usize) -> (fs: Vec<Vec<char>>)
    requires
        lo <= hi <= v@.len(),
    ensures
        chars_texts(fs@) == line_fields(v@.subrange(lo as int, hi as int)),
        fs@.len() >= 1,
{
    let t = trimmed_range(v, lo, hi);
    let bs = split_bounds(&t, 0, t.len(), ',');
    assert(t@.subrange(0, t@.len() as int) =~= t@);
    let ghost parts = split_on(t@, ',');
    proof {
        lemma_split_on_nonempty(t@, ',');
    }
    let mut fs: Vec<Vec<char>> = Vec::new();
    let mut i: usize = 0;
    while i < bs.len()
        invariant
            i <= bs@.len(),
            fs@.len() == i,
            pieces(t@, bs@) == parts,
            bounds_within(bs@, 0, t@.len() as int),
            forall|j: int| 0 <= j < i ==> #[trigger] chars_texts(fs@)[j] == trim(parts[j]),
        decreases bs@.len() - i,
    {
        let (a, b) = bs[i];
        assert(pieces(t@, bs@)[i as int] == t@.subrange(a as int, b as int));
        let f = trimmed_range(&t, a, b);
        let ghost before = fs@;
        fs.push(f);
        assert forall|j: int| 0 <= j < i + 1 implies #[trigger] chars_texts(fs@)[j] == trim(parts[j]) by {
            if j < i {
                assert(chars_texts(before)[j] == trim(parts[j]));
                assert(fs@[j] == before[j]);
            }
        }
        i = i + 1;
    }
    assert(chars_texts(fs@) =~= line_fields(v@.subrange(lo as int, hi as int)));
    fs
}

/// Whether a field is a non-empty run of ASCII digits.
pub fn all_ascii_digits(f: &[char]) -> (b: bool)
    ensures
        b == (f@.len() > 0 && all_digits(f@)),
{
    if f.len() == 0 {
        return false;
    }
    let mut i: usize = 0;
    while i < f.len()
        invariant
            i <= f@.len(),
            forall|j: int| 0 <= j < i ==> #[trigger] is_digit(f@[j]),
        decreases f@.len() - i,
    {
        if !('0' <= f[i] && f[i] <= '9') {
            assert(!is_digit(f@[i as int]));
            return false;
        }
        i = i + 1;
    }
    true
}

/// Parses a whole data file: blank lines, `#` comments and non-data lines (such as a
/// header) are ignored; each data line becomes a record, or a skip entry with its
/// line number and reason.
#[verifier::loop_isolation(false)]
pub fn parse_lines(spec: &GameSpec, content: &str) -> (r: (Vec<DrawRecord>, Vec<SkipInfo>))
    requires
        spec_field_count(*spec) <= usize::MAX,
        spec_wf(*spec),
    ensures
        (records_view(r.0@), skips_view(r.1@)) == parse_lines_spec(*spec, lines_of(content@)),
{
    let v = chars_of(content);
    let ls = line_bounds(&v);
    let ghost lines = lines_of(v@);
    let mut draws: Vec<DrawRecord> = Vec::new();
    let mut skips: Vec<SkipInfo> = Vec::new();
    let mut i: usize = 0;
    proof {
        assert(records_view(draws@) =~= Seq::<RecordView>::empty());
        assert(skips_view(skips@) =~= Seq::<(nat, Seq<char>)>::empty());
        assert(lines.take(0) =~= Seq::<Seq<char>>::empty());
    }
    while i < ls.len()
        invariant
            i <= ls@.len(),
            pieces(v@, ls@) == lines,
            (records_view(draws@), skips_view(skips@)) == parse_lines_spec(*spec, lines.take(i as int)),
        decreases ls@.len() - i,
    {
        let (a, b) = ls[i];
        let ghost l = v@.subrange(a as int, b as int);
        proof {
            assert(pieces(v@, ls@)[i as int] == l);
            assert(lines.take(i + 1).drop_last() =~= lines.take(i as int));
            assert(lines.take(i + 1).last() == l);
        }
        let t = trimmed_range(&v, a, b);
        if t.len() == 0 || t[0] == '#' {
            i = i + 1;
            continue;
        }
        let fields = fields_of(&v, a, b);
        if !all_ascii_digits(&fields[0]) {
            i = i + 1;
            continue;
        }
        let ghost dv = records_view(draws@);
        let ghost sv = skips_view(skips@);
        match parse_record_chars(spec, &fields) {
            Ok(d) => {
                draws.push(d);
                assert(records_view(draws@) =~= dv.push(d@));
            },
            Err(reason) => {
                skips.push(SkipInfo { line: i + 1, reason });
                assert(skips_view(skips@) =~= sv.push(((i + 1) as nat, reason@)));
            },
        }
        i = i + 1;
    }
    assert(lines.take(ls@.len() as int) =~= lines);
    (draws, skips)
}


/// Every game of the table has digit bases of at least one and a short row.
pub proof fn lemma_table_wf(gs: Seq<GameSpec>)
    requires
        is_game_table(gs),
    ensures
        forall|i: int| 0 <= i < gs.len() ==> spec_wf(#[trigger] gs[i]) && spec_field_count(gs[i]) <= 100,
{
    reveal_with_fuel(widths_sum, 3);
    assert forall|i: int| 0 <= i < gs.len() implies spec_wf(#[trigger] gs[i]) && spec_field_count(gs[i]) <= 100 by {
        let cs = gs[i].components@;
        assert(cs.len() <= 2);
        if cs.len() == 2 {
            assert(cs.drop_last().drop_last() =~= Seq::<Component>::empty());
            assert(cs.drop_last().last() == cs[0]);
        } else {
            assert(cs.drop_last() =~= Seq::<Component>::empty());
        }
    }
}

/// A segment fits its component: a pool segment is `pick` numbers of `1..=size` in
/// strictly ascending order; a digit segment holds one value below each base, in order.
pub open spec fn seg_fits(c: Component, seg: Seq<u32>) -> bool {
    match c {
        Component::Pool { size, pick, .. } => {
            &&& seg.len() == pick
            &&& forall|i: int| 0 <= i < seg.len() ==> 1 <= #[trigger] seg[i] <= size
            &&& forall|i: int, j: int| 0 <= i < j < seg.len() ==> seg[i] < seg[j]
        },
        Component::Digits { bases, .. } => {
            &&& seg.len() == bases@.len()
            &&& forall|i: int| 0 <= i < seg.len() ==> #[trigger] seg[i] < bases@[i]
        },
    }
}

/// A record fits a game: one fitting segment per component, in order.
pub open spec fn record_fits(g: GameSpec, r: RecordView) -> bool {
    &&& r.components.len() == g.components@.len()
    &&& forall|k: int| 0 <= k < r.components.len() ==> seg_fits(g.components@[k], #[trigger] r.components[k])
}

pub proof fn lemma_widths_front(cs: Seq<Component>)
    requires
        cs.len() > 0,
    ensures
        widths_sum(cs) == comp_width(cs[0]) + widths_sum(cs.drop_first()),
    decreases cs.len(),
{
    if cs.len() > 1 {
        lemma_widths_front(cs.drop_last());
        assert(cs.drop_last().drop_first() =~= cs.drop_first().drop_last());
        assert(cs.drop_last()[0] == cs[0]);
        assert(cs.drop_first().last() == cs.last());
    } else {
        assert(cs.drop_first() =~= Seq::<Component>::empty());
        assert(cs.drop_last() =~= Seq::<Component>::empty());
    }
}

proof fn lemma_component_fits(c: Component, ts: Seq<Seq<char>>)
    requires
        ts.len() == comp_width(c),
        check_component(c, ts) is Ok,
    ensures
        seg_fits(c, check_component(c, ts)->Ok_0),
{
    let vals = seg_values(ts);
    match c {
        Component::Pool { size, pick, .. } => {
            lemma_first_from(vals.len() as int, out_of_pool_at(vals, size), 0);
            lemma_first_from(vals.len() as int, dup_at(vals), 0);
            assert forall|i: int| 0 <= i < vals.len() implies 1 <= #[trigger] vals[i] <= size by {
                assert(!out_of_pool_at(vals, size)(i));
            }
            assert forall|i: int, j: int| 0 <= i < vals.len() && 0 <= j < vals.len() && i != j
                implies vals[i] != vals[j] by {
                if i < j {
                    assert(!dup_at(vals)(i));
                    assert(!repeats_later(vals, i));
                } else {
                    assert(!dup_at(vals)(j));
                    assert(!repeats_later(vals, j));
                }
            }
            assert(vals.no_duplicates());
            crate::order::lemma_sorted_distinct(vals);
            let v = sorted_u32(vals);
            assert forall|i: int| 0 <= i < v.len() implies 1 <= #[trigger] v[i] <= size by {
                assert(vals.contains(v[i]));
            }
        },
        Component::Digits { bases, .. } => {
            lemma_first_from(vals.len() as int, digit_over_at(vals, bases@), 0);
            assert forall|i: int| 0 <= i < vals.len() implies #[trigger] vals[i] < bases@[i] by {
                assert(!digit_over_at(vals, bases@)(i));
            }
        },
    }
}

proof fn lemma_components_fit(cs: Seq<Component>, ts: Seq<Seq<char>>)
    requires
        ts.len() == widths_sum(cs),
        check_components(cs, ts) is Ok,
    ensures
        check_components(cs, ts)->Ok_0.len() == cs.len(),
        forall|k: int| 0 <= k < cs.len() ==> seg_fits(cs[k], #[trigger] check_components(cs, ts)->Ok_0[k]),
    decreases cs.len(),
{
    if cs.len() > 0 {
        lemma_widths_front(cs);
        let w = comp_width(cs[0]) as int;
        lemma_component_fits(cs[0], ts.take(w));
        lemma_components_fit(cs.drop_first(), ts.skip(w));
        let seg = check_component(cs[0], ts.take(w))->Ok_0;
        let rest = check_components(cs.drop_first(), ts.skip(w))->Ok_0;
        assert forall|k: int| 0 <= k < cs.len() implies seg_fits(cs[k], #[trigger] check_components(cs, ts)->Ok_0[k]) by {
            if k > 0 {
                assert(cs[k] == cs.drop_first()[k - 1]);
                assert(check_components(cs, ts)->Ok_0[k] == rest[k - 1]);
            }
        }
    }
}

/// What `parse_record` accepts fits the game: each pool segment is `pick` distinct
/// numbers of `1..=size` in ascending order, each digit segment has one value below
/// each base, and there is one segment per component.
pub proof fn lemma_accepted_record_fits(g: GameSpec, ts: Seq<Seq<char>>)
    requires
        record_of(g, ts) is Ok,
    ensures
        record_fits(g, record_of(g, ts)->Ok_0),
{
    lemma_components_fit(g.components@, ts.skip(2));
}

/// Number of data lines among `lines`.
pub open spec fn data_line_count(lines: Seq<Seq<char>>) -> nat
    decreases lines.len(),
{
    if lines.len() == 0 {
        0
    } else {
        data_line_count(lines.drop_last()) + if is_data_line(lines.last()) { 1nat } else { 0nat }
    }
}

/// Line parsing loses and invents nothing: every data line becomes either a record or a
/// skipped line, every kept record fits the game, and its issue is the line's first
/// field, a non-empty run of digits.
pub proof fn lemma_parse_lines_partition(g: GameSpec, lines: Seq<Seq<char>>)
    ensures
        parse_lines_spec(g, lines).0.len() + parse_lines_spec(g, lines).1.len() == data_line_count(lines),
        forall|i: int| 0 <= i < parse_lines_spec(g, lines).0.len() ==> record_fits(g, #[trigger] parse_lines_spec(g, lines).0[i]),
        forall|i: int| 0 <= i < parse_lines_spec(g, lines).0.len() ==> {
            let t = (#[trigger] parse_lines_spec(g, lines).0[i]).issue;
            t.len() > 0 && all_digits(t)
        },
        forall|i: int| 0 <= i < parse_lines_spec(g, lines).1.len() ==> 1 <= (#[trigger] parse_lines_spec(g, lines).1[i]).0 <= lines.len(),
    decreases lines.len(),
{
    if lines.len() > 0 {
        let init = lines.drop_last();
        lemma_parse_lines_partition(g, init);
        let l = lines.last();
        if is_data_line(l) {
            let ts = line_fields(l);
            match record_of(g, ts) {
                Ok(r) => {
                    lemma_accepted_record_fits(g, ts);
                    lemma_trim_digits(ts[0]);
                },
                Err(e) => {},
            }
        }
    }
}

/// A non-empty run of digits has no surrounding whitespace.
proof fn lemma_trim_digits(t: Seq<char>)
    requires
        t.len() > 0,
        all_digits(t),
    ensures
        trim(t) == t,
{
    assert(is_digit(t[0]));
    assert(is_digit(t[t.len() - 1]));
    assert(trim_start(t) == t);
}

} // verus!
