//! Draw-notice JSON from the welfare-lottery site: extraction of each issue's
//! code, date and numbers, and mapping of an issue to a data row.
use vstd::prelude::*;
use vstd::string::StringExecFns;
use crate::game_spec::{spec_field_count, GameSpec};
use crate::realdata::{
    chars_texts, first_from, lemma_first_is, lemma_first_none, parse_record_chars, record_of,
    spec_wf,
};
use crate::text::{
    chars_of, dec, find_char_in, find_from, find_in, head_count, head_spec, is_digit, match_at,
    opt_int, parse_i64, parse_signed, parse_unsigned, parse_uint, push_char, push_dec, push_range, push_sdec, push_str, sdec,
    string_of, string_of_range, trim, trim_bounds, trim_start, trim_start_count, split_on,
    split_bounds, pieces, bounds_within, trimmed_range, copy_chars,
};

verus! {

/// One issue as the notice lists it.
pub struct Entry {
    pub code: String,
    pub date: String,
    pub red: String,
    pub blue: String,
}

pub struct EntryView {
    pub code: Seq<char>,
    pub date: Seq<char>,
    pub red: Seq<char>,
    pub blue: Seq<char>,
}

impl View for Entry {
    type V = EntryView;

    open spec fn view(&self) -> EntryView {
        EntryView { code: self.code@, date: self.date@, red: self.red@, blue: self.blue@ }
    }
}

/// A date without its weekday suffix: the part before `(`, trimmed.
pub open spec fn clean_date_spec(s: Seq<char>) -> Seq<char> {
    match find_from(s, seq!['('], 0) {
        Some(i) => trim(s.take(i)),
        None => trim(s),
    }
}

/// Removes the weekday suffix of a date: `"2024-01-02(二)"` becomes `"2024-01-02"`.
pub fn clean_date(s: &str) -> (r: String)
    ensures
        r@ == clean_date_spec(s@),
{
    let v = chars_of(s);
    let end = match find_char_in(&v, 0, v.len(), '(', 0) {
        Some(i) => i,
        None => v.len(),
    };
    assert(v@.subrange(0, v@.len() as int) =~= v@);
    assert(v@.subrange(0, end as int) =~= v@.take(end as int));
    let (a, b) = trim_bounds(&v, 0, end);
    let r = string_of_range(&v, a, b);
    proof {
        if end == v@.len() {
            assert(v@.take(end as int) =~= v@);
        }
    }
    r
}

/// The text before the first character that is neither an ASCII digit nor `-`.
pub open spec fn number_prefix(a: Seq<char>) -> Seq<char> {
    match first_from(a.len() as int, |i: int| !(is_digit(a[i]) || a[i] == '-'), 0) {
        Some(i) => a.take(i),
        None => a,
    }
}

pub open spec fn state_key() -> Seq<char> {
    "\"state\""@
}

/// The integer after the first `"state"` key and its colon, as `str::parse::<i64>`
/// reads the leading run of digits and minus signs.
pub open spec fn read_state_spec(j: Seq<char>) -> Option<int> {
    match find_from(j, state_key(), 0) {
        None => None,
        Some(i) => {
            let rest = j.skip(i + state_key().len());
            match find_from(rest, seq![':'], 0) {
                None => None,
                Some(c) => {
                    let after = trim_start(rest.skip(c + 1));
                    parse_signed(number_prefix(after), i64::MIN as int, i64::MAX as int)
                },
            }
        },
    }
}

pub open spec fn number_end_at(a: Seq<char>) -> spec_fn(int) -> bool {
    |i: int| !(is_digit(a[i]) || a[i] == '-')
}

/// Reads the top-level `"state"` integer.
fn read_state(v: &[char]) -> (r: Option<i64>)
    ensures
        opt_i64(r) == read_state_spec(v@),
{
    let key = chars_of("\"state\"");
    let n = v.len();
    assert(v@.subrange(0, n as int) =~= v@);
    let i = match find_in(v, 0, n, &key, 0) {
        Some(i) => i,
        None => return None,
    };
    let rs = i + key.len();
    assert(v@.subrange(rs as int, n as int) =~= v@.skip(i + state_key().len()));
    let c = match find_char_in(v, rs, n, ':', 0) {
        Some(c) => c,
        None => return None,
    };
    let ghost rest = v@.skip(i + state_key().len());
    assert(v@.subrange(rs + c + 1, n as int) =~= rest.skip(c + 1));
    let a = trim_start_count(v, rs + c + 1, n);
    let ghost after = v@.subrange(a as int, n as int);
    let mut e = a;
    while e < n && (('0' <= v[e] && v[e] <= '9') || v[e] == '-')
        invariant
            a <= e <= n,
            n == v@.len(),
            after == v@.subrange(a as int, n as int),
            forall|q: int| 0 <= q < e - a ==> !#[trigger] number_end_at(after)(q),
        decreases n - e,
    {
        e = e + 1;
    }
    proof {
        if e < n {
            lemma_first_is(after.len() as int, number_end_at(after), e - a);
        } else {
            lemma_first_none(after.len() as int, number_end_at(after));
            assert(after.take(e - a) =~= after);
        }
        assert(after.take(e - a) =~= v@.subrange(a as int, e as int));
    }
    parse_i64(v, a, e)
}

pub open spec fn opt_i64(r: Option<i64>) -> Option<int> {
    match r {
        Some(x) => Some(x as int),
        None => None,
    }
}

/// `"key":"`
pub open spec fn field_pattern(key: Seq<char>) -> Seq<char> {
    seq!['"'] + key + seq!['"', ':', '"']
}

/// The value of the first `"key":"value"` in `w`.
pub open spec fn field_spec(w: Seq<char>, key: Seq<char>) -> Option<Seq<char>> {
    let pat = field_pattern(key);
    match find_from(w, pat, 0) {
        None => None,
        Some(i) => {
            let rest = w.skip(i + pat.len());
            match find_from(rest, seq!['"'], 0) {
                None => None,
                Some(e) => Some(rest.take(e)),
            }
        },
    }
}

/// The value of the first `"key":"value"` in `v[lo..hi]`.
fn field(v: &[char], lo: usize, hi: usize, key: &str) -> (r: Option<String>)
    requires
        lo <= hi <= v@.len(),
    ensures
        match field_spec(v@.subrange(lo as int, hi as int), key@) {
            Some(s) => r matches Some(x) && x@ == s,
            None => r is None,
        },
{
    let ghost w = v@.subrange(lo as int, hi as int);
    let k = chars_of(key);
    let mut pat: Vec<char> = Vec::new();
    pat.push('"');
    let mut t: usize = 0;
    while t < k.len()
        invariant
            t <= k@.len(),
            pat@ == seq!['"'] + k@.take(t as int),
        decreases k@.len() - t,
    {
        pat.push(k[t]);
        assert(pat@ =~= seq!['"'] + k@.take(t + 1));
        t = t + 1;
    }
    pat.push('"');
    pat.push(':');
    pat.push('"');
    assert(k@.take(k@.len() as int) =~= k@);
    assert(pat@ =~= field_pattern(key@));
    let i = match find_in(v, lo, hi, &pat, 0) {
        Some(i) => i,
        None => return None,
    };
    let rs = lo + i + pat.len();
    assert(v@.subrange(rs as int, hi as int) =~= w.skip(i + pat@.len()));
    let e = match find_char_in(v, rs, hi, '"', 0) {
        Some(e) => e,
        None => return None,
    };
    let r = string_of_range(v, rs, rs + e);
    assert(v@.subrange(rs as int, rs + e) =~= w.skip(i + pat@.len()).take(e as int));
    Some(r)
}

/// Start of each record: the non-overlapping occurrences of `p` in `j` from `from` on,
/// left to right (`str::match_indices`).
pub open spec fn starts_from(j: Seq<char>, p: Seq<char>, from: int) -> Seq<int>
    decreases j.len() + 1 - from,
{
    if from < 0 || p.len() == 0 || from + p.len() > j.len() {
        Seq::empty()
    } else if match_at(j, p, from) {
        seq![from] + starts_from(j, p, from + p.len())
    } else {
        starts_from(j, p, from + 1)
    }
}

pub open spec fn code_key() -> Seq<char> {
    "\"code\":\""@
}

/// The text of record `k`: from its start to the next record's start (or the end).
pub open spec fn window(j: Seq<char>, st: Seq<int>, k: int) -> Seq<char> {
    j.subrange(st[k], if k + 1 < st.len() { st[k + 1] } else { j.len() as int })
}

pub open spec fn or_empty(o: Option<Seq<char>>) -> Seq<char> {
    match o {
        Some(s) => s,
        None => Seq::empty(),
    }
}

/// The entry that a record window describes.
pub open spec fn entry_of(w: Seq<char>) -> EntryView {
    EntryView {
        code: or_empty(field_spec(w, "code"@)),
        date: clean_date_spec(or_empty(field_spec(w, "date"@))),
        red: or_empty(field_spec(w, "red"@)),
        blue: or_empty(field_spec(w, "blue"@)),
    }
}

pub open spec fn missing_code_at(j: Seq<char>, st: Seq<int>) -> spec_fn(int) -> bool {
    |k: int| field_spec(window(j, st, k), "code"@) is None
}

pub open spec fn msg_state(s: int, j: Seq<char>) -> Seq<char> {
    "接口返回 state="@ + sdec(s) + "(非成功):"@ + head_spec(j, 200)
}

pub open spec fn msg_no_state(j: Seq<char>) -> Seq<char> {
    "响应无法识别(缺 state):"@ + head_spec(j, 200)
}

/// What the notice JSON yields: it must carry `"state"` 0, at least one record, and a
/// code in every record; date, red and blue default to empty.
pub open spec fn entries_spec(j: Seq<char>) -> Result<Seq<EntryView>, Seq<char>> {
    match read_state_spec(j) {
        None => Err(msg_no_state(j)),
        Some(s) => if s != 0 {
            Err(msg_state(s, j))
        } else {
            let st = starts_from(j, code_key(), 0);
            if st.len() == 0 {
                Err("未找到任何开奖记录(result 为空?)"@)
            } else {
                match first_from(st.len() as int, missing_code_at(j, st), 0) {
                    Some(_) => Err("记录缺 code 字段"@),
                    None => Ok(Seq::new(st.len(), |k: int| entry_of(window(j, st, k)))),
                }
            }
        },
    }
}

pub open spec fn entries_view(v: Seq<Entry>) -> Seq<EntryView> {
    v.map_values(|e: Entry| e@)
}

/// Record starts of `v`, as `usize` offsets.
#[verifier::loop_isolation(false)]
fn record_starts(v: &[char], p: &[char]) -> (st: Vec<usize>)
    requires
        p@.len() > 0,
    ensures
        st@.len() == starts_from(v@, p@, 0).len(),
        forall|k: int| 0 <= k < st@.len() ==> st@[k] as int == #[trigger] starts_from(v@, p@, 0)[k],
        forall|k: int| 0 <= k < st@.len() ==> st@[k] + p@.len() <= v@.len(),
        forall|k: int, m: int| 0 <= k < m < st@.len() ==> st@[k] + p@.len() <= st@[m],
{
    let n = v.len();
    let mut st: Vec<usize> = Vec::new();
    let mut pos: usize = 0;
    assert(v@.subrange(0, n as int) =~= v@);
    loop
        invariant
            n == v@.len(),
            p@.len() > 0,
            pos <= n + 1,
            starts_from(v@, p@, 0) == st@.map_values(|x: usize| x as int) + starts_from(v@, p@, pos as int),
            forall|k: int| 0 <= k < st@.len() ==> st@[k] + p@.len() <= pos,
            forall|k: int| 0 <= k < st@.len() ==> st@[k] + p@.len() <= n,
            forall|k: int, m: int| 0 <= k < m < st@.len() ==> st@[k] + p@.len() <= st@[m],
        decreases n + 1 - pos,
    {
        if pos > n || p.len() > n - pos {
            assert(starts_from(v@, p@, pos as int) =~= Seq::<int>::empty());
            break;
        }
        let ghost before = st@;
        if matches_here(v, p, pos) {
            st.push(pos);
            assert(st@.map_values(|x: usize| x as int) =~= before.map_values(|x: usize| x as int).push(pos as int));
            assert(starts_from(v@, p@, pos as int) =~= seq![pos as int] + starts_from(v@, p@, pos + p@.len()));
            pos = pos + p.len();
        } else {
            pos = pos + 1;
        }
    }
    proof {
        assert(starts_from(v@, p@, 0) =~= st@.map_values(|x: usize| x as int));
    }
    st
}

fn matches_here(v: &[char], p: &[char], pos: usize) -> (b: bool)
    requires
        pos + p@.len() <= v@.len(),
    ensures
        b == match_at(v@, p@, pos as int),
{
    let n = v.len();
    let mut j: usize = 0;
    while j < p.len()
        invariant
            n == v@.len(),
            pos + p@.len() <= n,
            j <= p@.len(),
            forall|k: int| 0 <= k < j ==> v@[pos + k] == p@[k],
        decreases p@.len() - j,
    {
        if v[pos + j] != p[j] {
            assert(v@.subrange(pos as int, pos + p@.len())[j as int] != p@[j as int]);
            return false;
        }
        j = j + 1;
    }
    assert(v@.subrange(pos as int, pos + p@.len()) =~= p@);
    true
}


fn head_message(prefix: &str, v: &[char]) -> (m: String)
    ensures
        m@ == prefix@ + head_spec(v@, 200),
{
    let mut m = String::new();
    push_str(&mut m, prefix);
    let h = head_count(v, 200);
    push_range(&mut m, v, 0, h);
    assert(v@.subrange(0, h as int) =~= v@.take(h as int));
    assert(m@ =~= prefix@ + head_spec(v@, 200));
    m
}

/// Extracts every issue's code, date (weekday removed), red and blue numbers from the
/// draw-notice JSON. The response must report `"state"` 0 and hold at least one record;
/// each record runs from its `"code":"` to the next one.
#[verifier::loop_isolation(false)]
pub fn parse_result_entries(json: &str) -> (r: Result<Vec<Entry>, String>)
    ensures
        match entries_spec(json@) {
            Ok(es) => r matches Ok(x) && entries_view(x@) == es,
            Err(e) => r matches Err(m) && m@ == e,
        },
{
    let v = chars_of(json);
    match read_state(&v) {
        None => {
            return Err(head_message("响应无法识别(缺 state):", &v));
        },
        Some(s) => {
            if s != 0 {
                let mut m = String::new();
                push_str(&mut m, "接口返回 state=");
                push_sdec(&mut m, s);
                let tail = head_message("(非成功):", &v);
                push_str(&mut m, tail.as_str());
                assert(m@ =~= msg_state(s as int, v@));
                return Err(m);
            }
        },
    }
    let key = chars_of("\"code\":\"");
    proof {
        reveal_strlit("\"code\":\"");
    }
    assert(key@.len() > 0);
    let st = record_starts(&v, &key);
    let ghost sts = starts_from(v@, code_key(), 0);
    if st.len() == 0 {
        return Err(String::from_str("未找到任何开奖记录(result 为空?)"));
    }
    let n = v.len();
    let mut entries: Vec<Entry> = Vec::new();
    let mut k: usize = 0;
    while k < st.len()
        invariant
            k <= st@.len(),
            entries@.len() == k,
            forall|q: int| 0 <= q < k ==> !#[trigger] missing_code_at(v@, sts)(q),
            forall|q: int| 0 <= q < k ==> #[trigger] entries_view(entries@)[q] == entry_of(window(v@, sts, q)),
        decreases st@.len() - k,
    {
        let lo = st[k];
        let hi = if k + 1 < st.len() { st[k + 1] } else { n };
        assert(window(v@, sts, k as int) == v@.subrange(lo as int, hi as int));
        let code = match field(&v, lo, hi, "code") {
            Some(c) => c,
            None => {
                proof {
                    lemma_first_is(sts.len() as int, missing_code_at(v@, sts), k as int);
                }
                return Err(String::from_str("记录缺 code 字段"));
            },
        };
        let date_raw = match field(&v, lo, hi, "date") {
            Some(d) => d,
            None => String::new(),
        };
        let date = clean_date(date_raw.as_str());
        let red = match field(&v, lo, hi, "red") {
            Some(x) => x,
            None => String::new(),
        };
        let blue = match field(&v, lo, hi, "blue") {
            Some(x) => x,
            None => String::new(),
        };
        let ghost before = entries@;
        entries.push(Entry { code, date, red, blue });
        proof {
            assert forall|q: int| 0 <= q < k + 1 implies #[trigger] entries_view(entries@)[q] == entry_of(window(v@, sts, q)) by {
                if q < k {
                    assert(entries@[q] == before[q]);
                    assert(entries_view(before)[q] == entry_of(window(v@, sts, q)));
                }
            }
        }
        k = k + 1;
    }
    proof {
        lemma_first_none(sts.len() as int, missing_code_at(v@, sts));
        assert(entries_view(entries@) =~= Seq::new(sts.len(), |q: int| entry_of(window(v@, sts, q))));
    }
    Ok(entries)
}

pub open spec fn url_spec(name: Seq<char>, count: nat) -> Seq<char> {
    "https://www.cwl.gov.cn/cwl_admin/front/cwlkj/search/kjxx/findDrawNotice?name="@ + name
        + "&issueCount="@ + dec(count)
}

/// The draw-notice request for a game's `name` parameter and the number of issues.
pub fn build_url(name_param: &str, count: u32) -> (r: String)
    ensures
        r@ == url_spec(name_param@, count as nat),
{
    let mut r = String::new();
    push_str(&mut r, "https://www.cwl.gov.cn/cwl_admin/front/cwlkj/search/kjxx/findDrawNotice?name=");
    push_str(&mut r, name_param);
    push_str(&mut r, "&issueCount=");
    push_dec(&mut r, count as u64);
    assert(r@ =~= url_spec(name_param@, count as nat));
    r
}


/// The trimmed pieces that are not empty, in order.
pub open spec fn nonempty_trimmed(ps: Seq<Seq<char>>) -> Seq<Seq<char>>
    decreases ps.len(),
{
    if ps.len() == 0 {
        Seq::empty()
    } else {
        let r = nonempty_trimmed(ps.drop_last());
        let t = trim(ps.last());
        if t.len() > 0 {
            r.push(t)
        } else {
            r
        }
    }
}

proof fn lemma_nonempty_trimmed_concat(a: Seq<Seq<char>>, b: Seq<Seq<char>>)
    ensures
        nonempty_trimmed(a + b) == nonempty_trimmed(a) + nonempty_trimmed(b),
    decreases b.len(),
{
    if b.len() == 0 {
        assert(a + b =~= a);
        assert(nonempty_trimmed(a) + nonempty_trimmed(b) =~= nonempty_trimmed(a));
    } else {
        lemma_nonempty_trimmed_concat(a, b.drop_last());
        assert((a + b).drop_last() =~= a + b.drop_last());
        assert((a + b).last() == b.last());
        let t = trim(b.last());
        if t.len() > 0 {
            assert(nonempty_trimmed(a) + nonempty_trimmed(b.drop_last()).push(t) =~= (
            nonempty_trimmed(a) + nonempty_trimmed(b.drop_last())).push(t));
        }
    }
}

/// The number tokens of an entry: its red then its blue numbers, split at commas,
/// trimmed, empty ones left out.
pub open spec fn number_tokens(e: EntryView) -> Seq<Seq<char>> {
    nonempty_trimmed(split_on(e.red, ',') + split_on(e.blue, ','))
}

pub open spec fn msg_short(name: Seq<char>, code: Seq<char>, have: nat, want: nat) -> Seq<char> {
    name + " 期号 "@ + code + ":号码数不足("@ + dec(have) + " < "@ + dec(want) + ")"@
}

pub open spec fn msg_rejected(name: Seq<char>, code: Seq<char>, err: Seq<char>) -> Seq<char> {
    name + " 期号 "@ + code + ":"@ + err
}

/// The data row for an entry: `[code, date, numbers...]` with as many numbers as the
/// game's row holds (extra ones, such as a special ball, dropped), accepted only if
/// `parse_record` accepts it.
pub open spec fn map_entry_spec(g: GameSpec, e: EntryView) -> Result<Seq<Seq<char>>, Seq<char>> {
    let width = (spec_field_count(g) - 2) as nat;
    let nums = number_tokens(e);
    if nums.len() < width {
        Err(msg_short(g.name@, e.code, nums.len(), width))
    } else {
        let fields = seq![e.code, e.date] + nums.take(width as int);
        match record_of(g, fields) {
            Err(err) => Err(msg_rejected(g.name@, e.code, err)),
            Ok(_) => Ok(fields),
        }
    }
}

pub open spec fn strings_view(v: Seq<String>) -> Seq<Seq<char>> {
    v.map_values(|s: String| s@)
}

/// Appends the non-empty trimmed comma-separated pieces of `v`.
fn push_tokens(nums: &mut Vec<Vec<char>>, v: &[char])
    ensures
        chars_texts(final(nums)@) == chars_texts(old(nums)@) + nonempty_trimmed(split_on(v@, ',')),
{
    let bs = split_bounds(v, 0, v.len(), ',');
    assert(v@.subrange(0, v@.len() as int) =~= v@);
    let ghost parts = split_on(v@, ',');
    let ghost start = chars_texts(nums@);
    let mut k: usize = 0;
    assert(parts.take(0) =~= Seq::<Seq<char>>::empty());
    assert(start + nonempty_trimmed(parts.take(0)) =~= start);
    while k < bs.len()
        invariant
            k <= bs@.len(),
            pieces(v@, bs@) == parts,
            bounds_within(bs@, 0, v@.len() as int),
            chars_texts(nums@) == start + nonempty_trimmed(parts.take(k as int)),
        decreases bs@.len() - k,
    {
        let (a, b) = bs[k];
        assert(pieces(v@, bs@)[k as int] == v@.subrange(a as int, b as int));
        let t = trimmed_range(v, a, b);
        assert(parts.take(k + 1).drop_last() =~= parts.take(k as int));
        let ghost before = chars_texts(nums@);
        if t.len() > 0 {
            nums.push(t);
            assert(chars_texts(nums@) =~= before.push(t@));
        }
        k = k + 1;
    }
    assert(parts.take(bs@.len() as int) =~= parts);
}

/// Maps one entry to a data row for `spec` and validates it with `parse_record`.
pub fn map_entry(spec: &GameSpec, e: &Entry) -> (r: Result<Vec<String>, String>)
    requires
        spec_field_count(*spec) <= usize::MAX,
        spec_wf(*spec),
    ensures
        match map_entry_spec(*spec, e@) {
            Ok(fs) => r matches Ok(x) && strings_view(x@) == fs,
            Err(m) => r matches Err(x) && x@ == m,
        },
{
    let width = spec.field_count() - 2;
    let red = chars_of(e.red.as_str());
    let blue = chars_of(e.blue.as_str());
    let mut nums: Vec<Vec<char>> = Vec::new();
    push_tokens(&mut nums, &red);
    push_tokens(&mut nums, &blue);
    proof {
        lemma_nonempty_trimmed_concat(split_on(red@, ','), split_on(blue@, ','));
        assert(chars_texts(nums@) =~= number_tokens(e@));
    }
    if nums.len() < width {
        let mut m = String::new();
        push_str(&mut m, spec.name);
        push_str(&mut m, " 期号 ");
        push_str(&mut m, e.code.as_str());
        push_str(&mut m, ":号码数不足(");
        push_dec(&mut m, nums.len() as u64);
        push_str(&mut m, " < ");
        push_dec(&mut m, width as u64);
        push_str(&mut m, ")");
        assert(m@ =~= msg_short(spec.name@, e.code@, nums@.len() as nat, width as nat));
        return Err(m);
    }
    let mut fields: Vec<Vec<char>> = Vec::new();
    fields.push(chars_of(e.code.as_str()));
    fields.push(chars_of(e.date.as_str()));
    let mut k: usize = 0;
    while k < width
        invariant
            k <= width <= nums@.len(),
            fields@.len() == k + 2,
            chars_texts(fields@) == seq![e.code@, e.date@] + chars_texts(nums@).take(k as int),
        decreases width - k,
    {
        let ghost fb = fields@;
        let c = copy_chars(&nums[k]);
        fields.push(c);
        assert(fields@ == fb.push(c));
        assert forall|j: int| 0 <= j < k + 3 implies #[trigger] chars_texts(fields@)[j] == (seq![e.code@, e.date@] + chars_texts(nums@).take(k + 1))[j] by {
            if j < k + 2 {
                assert(chars_texts(fields@)[j] == chars_texts(fb)[j]);
                assert(chars_texts(fb)[j] == (seq![e.code@, e.date@] + chars_texts(nums@).take(k as int))[j]);
            }
        }
        assert(chars_texts(fields@) =~= seq![e.code@, e.date@] + chars_texts(nums@).take(k + 1));
        k = k + 1;
    }
    match parse_record_chars(spec, &fields) {
        Err(err) => {
            let mut m = String::new();
            push_str(&mut m, spec.name);
            push_str(&mut m, " 期号 ");
            push_str(&mut m, e.code.as_str());
            push_str(&mut m, ":");
            push_str(&mut m, err.as_str());
            assert(m@ =~= msg_rejected(spec.name@, e.code@, err@));
            Err(m)
        },
        Ok(_) => {
            let mut out: Vec<String> = Vec::new();
            let mut i: usize = 0;
            while i < fields.len()
                invariant
                    i <= fields@.len(),
                    out@.len() == i,
                    strings_view(out@) == chars_texts(fields@).take(i as int),
                decreases fields@.len() - i,
            {
                let s = string_of(&fields[i]);
                out.push(s);
                assert(strings_view(out@) =~= chars_texts(fields@).take(i + 1));
                i = i + 1;
            }
            assert(chars_texts(fields@).take(fields@.len() as int) =~= chars_texts(fields@));
            Ok(out)
        },
    }
}


/// The issue number of a row for ordering: its code read as `u64`, or 0.
pub open spec fn code_num(code: Seq<char>) -> nat {
    match parse_unsigned(code, u64::MAX as nat) {
        Some(v) => v,
        None => 0,
    }
}

/// Strict lexicographic order of texts by character code (the order of `String`s).
pub open spec fn text_lt(a: Seq<char>, b: Seq<char>) -> bool
    decreases a.len(),
{
    if b.len() == 0 {
        false
    } else if a.len() == 0 {
        true
    } else if a[0] != b[0] {
        (a[0] as u32) < (b[0] as u32)
    } else {
        text_lt(a.drop_first(), b.drop_first())
    }
}

/// Row `a` sorts strictly before row `b`: by issue number, then by code text.
pub open spec fn row_before(a: Seq<Seq<char>>, b: Seq<Seq<char>>) -> bool {
    code_num(a[0]) < code_num(b[0]) || (code_num(a[0]) == code_num(b[0]) && text_lt(a[0], b[0]))
}

pub open spec fn after_at(s: Seq<Seq<Seq<char>>>, x: Seq<Seq<char>>) -> spec_fn(int) -> bool {
    |i: int| row_before(x, s[i])
}

/// Where a stable insertion puts `x` into the sorted `s`: before the first row that
/// `x` sorts strictly before.
pub open spec fn insert_pos(s: Seq<Seq<Seq<char>>>, x: Seq<Seq<char>>) -> int {
    match first_from(s.len() as int, after_at(s, x), 0) {
        Some(i) => i,
        None => s.len() as int,
    }
}

/// The rows in ascending issue order, rows with equal keys kept in their order
/// (what the stable `sort_by` gives).
pub open spec fn sort_rows(rows: Seq<Seq<Seq<char>>>) -> Seq<Seq<Seq<char>>>
    decreases rows.len(),
{
    if rows.len() == 0 {
        Seq::empty()
    } else {
        let s = sort_rows(rows.drop_last());
        s.insert(insert_pos(s, rows.last()), rows.last())
    }
}

/// The rows that the entries map to, in order; entries that fail are left out.
pub open spec fn mapped_rows(g: GameSpec, es: Seq<EntryView>) -> Seq<Seq<Seq<char>>>
    decreases es.len(),
{
    if es.len() == 0 {
        Seq::empty()
    } else {
        let r = mapped_rows(g, es.drop_last());
        match map_entry_spec(g, es.last()) {
            Ok(f) => r.push(f),
            Err(_) => r,
        }
    }
}

/// Fields joined with commas.
pub open spec fn join_comma(fs: Seq<Seq<char>>) -> Seq<char>
    decreases fs.len(),
{
    if fs.len() == 0 {
        Seq::empty()
    } else if fs.len() == 1 {
        fs[0]
    } else {
        join_comma(fs.drop_last()) + seq![','] + fs.last()
    }
}

/// One line per row.
pub open spec fn csv_rows(rows: Seq<Seq<Seq<char>>>) -> Seq<char>
    decreases rows.len(),
{
    if rows.len() == 0 {
        Seq::empty()
    } else {
        csv_rows(rows.drop_last()) + join_comma(rows.last()) + seq!['\n']
    }
}

pub open spec fn csv_spec(g: GameSpec, rows: Seq<Seq<Seq<char>>>) -> Seq<char> {
    "# "@ + g.name@ + " "@ + dec(rows.len()) + " 期  期号,日期,号码...\n"@ + csv_rows(rows)
}

pub open spec fn report_spec(rows: Seq<Seq<Seq<char>>>, dropped: nat) -> Seq<char> {
    "解析 "@ + dec(rows.len()) + " 期(丢弃 "@ + dec(dropped) + " 条),期号 "@ + rows[0][0] + " → "@
        + rows[rows.len() - 1][0]
}

pub open spec fn msg_none_valid(total: nat) -> Seq<char> {
    "解析到 0 条有效记录(共 "@ + dec(total) + " 条,均校验失败)。"@
}

/// The data file a notice turns into, and a one-line report; refused when the notice
/// is refused or no entry maps to a valid row.
pub open spec fn build_csv_spec(g: GameSpec, body: Seq<char>) -> Result<(Seq<char>, Seq<char>), Seq<char>> {
    match entries_spec(body) {
        Err(e) => Err(e),
        Ok(es) => {
            let rows = mapped_rows(g, es);
            if rows.len() == 0 {
                Err(msg_none_valid(es.len()))
            } else {
                let sorted = sort_rows(rows);
                Ok((csv_spec(g, sorted), report_spec(sorted, (es.len() - rows.len()) as nat)))
            }
        },
    }
}


pub open spec fn rows_view(v: Seq<Vec<String>>) -> Seq<Seq<Seq<char>>> {
    v.map_values(|r: Vec<String>| strings_view(r@))
}

fn text_less(a: &[char], b: &[char]) -> (r: bool)
    ensures
        r == text_lt(a@, b@),
{
    let mut i: usize = 0;
    assert(a@.skip(0) =~= a@);
    assert(b@.skip(0) =~= b@);
    while i < a.len() && i < b.len() && a[i] == b[i]
        invariant
            i <= a@.len(),
            i <= b@.len(),
            text_lt(a@, b@) == text_lt(a@.skip(i as int), b@.skip(i as int)),
        decreases a@.len() - i,
    {
        assert(a@.skip(i as int).drop_first() =~= a@.skip(i + 1));
        assert(b@.skip(i as int).drop_first() =~= b@.skip(i + 1));
        i = i + 1;
    }
    if i == b.len() {
        false
    } else if i == a.len() {
        true
    } else {
        (a[i] as u32) < (b[i] as u32)
    }
}

fn code_number(code: &[char]) -> (n: u64)
    ensures
        n == code_num(code@),
{
    assert(code@.subrange(0, code@.len() as int) =~= code@);
    match parse_uint(code, 0, code.len(), u64::MAX) {
        Some(v) => v,
        None => 0,
    }
}

fn row_less(a: &Vec<String>, b: &Vec<String>) -> (r: bool)
    requires
        a@.len() > 0,
        b@.len() > 0,
    ensures
        r == row_before(strings_view(a@), strings_view(b@)),
{
    let ca = chars_of(a[0].as_str());
    let cb = chars_of(b[0].as_str());
    let na = code_number(&ca);
    let nb = code_number(&cb);
    na < nb || (na == nb && text_less(&ca, &cb))
}

/// Inserts `x` into `out` at its stable sorted position.
#[verifier::loop_isolation(false)]
fn insert_row(out: &mut Vec<Vec<String>>, x: Vec<String>)
    requires
        x@.len() > 0,
        forall|j: int| 0 <= j < old(out)@.len() ==> (#[trigger] old(out)@[j])@.len() > 0,
    ensures
        rows_view(final(out)@) == rows_view(old(out)@).insert(
            insert_pos(rows_view(old(out)@), strings_view(x@)),
            strings_view(x@),
        ),
        final(out)@.len() == old(out)@.len() + 1,
        forall|j: int| 0 <= j < final(out)@.len() ==> (#[trigger] final(out)@[j])@.len() > 0,
{
    let ghost s = rows_view(out@);
    let ghost xv = strings_view(x@);
    let mut p: usize = 0;
    while p < out.len() && !row_less(&x, &out[p])
        invariant
            p <= out@.len(),
            s == rows_view(out@),
            forall|j: int| 0 <= j < p ==> !#[trigger] after_at(s, xv)(j),
        decreases out@.len() - p,
    {
        assert(s[p as int] == strings_view(out@[p as int]@));
        p = p + 1;
    }
    proof {
        if p < out@.len() {
            assert(s[p as int] == strings_view(out@[p as int]@));
            lemma_first_is(s.len() as int, after_at(s, xv), p as int);
        } else {
            lemma_first_none(s.len() as int, after_at(s, xv));
        }
    }
    let ghost before = out@;
    out.insert(p, x);
    proof {
        assert(out@ == before.insert(p as int, x));
        assert(rows_view(out@) =~= s.insert(p as int, xv));
    }
}

/// Maps each entry and sorts the valid rows; also counts the dropped entries.
#[verifier::loop_isolation(false)]
fn collect_rows(spec: &GameSpec, entries: &Vec<Entry>) -> (r: (Vec<Vec<String>>, usize))
    requires
        spec_field_count(*spec) <= usize::MAX,
        spec_wf(*spec),
    ensures
        rows_view(r.0@) == sort_rows(mapped_rows(*spec, entries_view(entries@))),
        r.0@.len() == mapped_rows(*spec, entries_view(entries@)).len(),
        r.0@.len() + r.1 == entries@.len(),
        forall|j: int| 0 <= j < r.0@.len() ==> (#[trigger] r.0@[j])@.len() > 0,
{
    let ghost es = entries_view(entries@);
    let mut sorted: Vec<Vec<String>> = Vec::new();
    let mut dropped: usize = 0;
    let mut i: usize = 0;
    while i < entries.len()
        invariant
            i <= entries@.len(),
            es == entries_view(entries@),
            rows_view(sorted@) == sort_rows(mapped_rows(*spec, es.take(i as int))),
            sorted@.len() == mapped_rows(*spec, es.take(i as int)).len(),
            sorted@.len() + dropped == i,
            forall|j: int| 0 <= j < sorted@.len() ==> (#[trigger] sorted@[j])@.len() > 0,
        decreases entries@.len() - i,
    {
        let ghost prev = mapped_rows(*spec, es.take(i as int));
        proof {
            assert(es.take(i + 1).drop_last() =~= es.take(i as int));
            assert(es.take(i + 1).last() == entries@[i as int]@);
        }
        match map_entry(spec, &entries[i]) {
            Ok(f) => {
                assert(strings_view(f@).len() >= 2);
                let ghost fv = strings_view(f@);
                assert(mapped_rows(*spec, es.take(i + 1)) == prev.push(fv));
                insert_row(&mut sorted, f);
                assert(prev.push(fv).drop_last() =~= prev);
                assert(prev.push(fv).last() == fv);
                assert(sort_rows(prev.push(fv)) == sort_rows(prev).insert(
                    insert_pos(sort_rows(prev), fv),
                    fv,
                ));
            },
            Err(_) => {
                assert(mapped_rows(*spec, es.take(i + 1)) == prev);
                dropped = dropped + 1;
            },
        }
        i = i + 1;
    }
    proof {
        assert(es.take(entries@.len() as int) =~= es);
    }
    (sorted, dropped)
}

/// One row's fields joined by commas, appended to `csv`.
fn push_row(csv: &mut String, row: &Vec<String>)
    ensures
        final(csv)@ == old(csv)@ + join_comma(strings_view(row@)),
{
    let ghost rv = strings_view(row@);
    let mut f: usize = 0;
    assert(rv.take(0) =~= Seq::<Seq<char>>::empty());
    assert(old(csv)@ + join_comma(rv.take(0)) =~= old(csv)@);
    while f < row.len()
        invariant
            f <= row@.len(),
            rv == strings_view(row@),
            csv@ == old(csv)@ + join_comma(rv.take(f as int)),
        decreases row@.len() - f,
    {
        let ghost before = csv@;
        if f > 0 {
            push_char(csv, ',');
        }
        push_str(csv, row[f].as_str());
        proof {
            assert(rv.take(f + 1).drop_last() =~= rv.take(f as int));
            assert(rv.take(f + 1).last() == row@[f as int]@);
            if f == 0 {
                assert(rv.take(1) =~= seq![rv[0]]);
                assert(csv@ =~= old(csv)@ + join_comma(rv.take(1)));
            } else {
                assert(csv@ =~= old(csv)@ + join_comma(rv.take(f + 1)));
            }
        }
        f = f + 1;
    }
    assert(rv.take(row@.len() as int) =~= rv);
}

/// The data file text for sorted rows.
fn csv_text(spec: &GameSpec, sorted: &Vec<Vec<String>>) -> (csv: String)
    ensures
        csv@ == csv_spec(*spec, rows_view(sorted@)),
{
    let ghost rows = rows_view(sorted@);
    let mut csv = String::new();
    push_str(&mut csv, "# ");
    push_str(&mut csv, spec.name);
    push_str(&mut csv, " ");
    push_dec(&mut csv, sorted.len() as u64);
    push_str(&mut csv, " 期  期号,日期,号码...\n");
    let ghost head = csv@;
    assert(head + csv_rows(rows.take(0)) =~= head);
    let mut k: usize = 0;
    while k < sorted.len()
        invariant
            k <= sorted@.len(),
            rows == rows_view(sorted@),
            csv@ == head + csv_rows(rows.take(k as int)),
        decreases sorted@.len() - k,
    {
        push_row(&mut csv, &sorted[k]);
        push_char(&mut csv, '\n');
        proof {
            assert(rows.take(k + 1).drop_last() =~= rows.take(k as int));
            assert(rows.take(k + 1).last() == strings_view(sorted@[k as int]@));
            assert(csv@ =~= head + csv_rows(rows.take(k + 1)));
        }
        k = k + 1;
    }
    proof {
        assert(rows.take(rows.len() as int) =~= rows);
        assert(csv@ =~= csv_spec(*spec, rows));
    }
    csv
}

/// The report line for sorted rows and a dropped count.
fn report_text(sorted: &Vec<Vec<String>>, dropped: usize) -> (r: String)
    requires
        sorted@.len() > 0,
        forall|j: int| 0 <= j < sorted@.len() ==> (#[trigger] sorted@[j])@.len() > 0,
    ensures
        r@ == report_spec(rows_view(sorted@), dropped as nat),
{
    let ghost rows = rows_view(sorted@);
    let mut report = String::new();
    push_str(&mut report, "解析 ");
    push_dec(&mut report, sorted.len() as u64);
    push_str(&mut report, " 期(丢弃 ");
    push_dec(&mut report, dropped as u64);
    push_str(&mut report, " 条),期号 ");
    push_str(&mut report, sorted[0][0].as_str());
    push_str(&mut report, " → ");
    push_str(&mut report, sorted[sorted.len() - 1][0].as_str());
    proof {
        assert(rows[0][0] == sorted@[0]@[0]@);
        assert(rows[rows.len() - 1][0] == sorted@[rows.len() - 1]@[0]@);
        assert(report@ =~= report_spec(rows, dropped as nat));
    }
    report
}

/// Turns draw-notice JSON into the data file for `spec` (header comment, then one row
/// per valid issue in ascending issue order) and a report of how many issues were
/// kept and dropped. Refused when the notice is refused or nothing valid remains.
pub fn build_csv(spec: &GameSpec, body: &str) -> (r: Result<(String, String), String>)
    requires
        spec_field_count(*spec) <= usize::MAX,
        spec_wf(*spec),
    ensures
        match build_csv_spec(*spec, body@) {
            Ok((csv, report)) => r matches Ok((c, p)) && c@ == csv && p@ == report,
            Err(e) => r matches Err(m) && m@ == e,
        },
{
    let entries = match parse_result_entries(body) {
        Ok(es) => es,
        Err(e) => return Err(e),
    };
    let (sorted, dropped) = collect_rows(spec, &entries);
    if sorted.len() == 0 {
        let mut m = String::new();
        push_str(&mut m, "解析到 0 条有效记录(共 ");
        push_dec(&mut m, entries.len() as u64);
        push_str(&mut m, " 条,均校验失败)。");
        assert(m@ =~= msg_none_valid(entries_view(entries@).len()));
        return Err(m);
    }
    let csv = csv_text(spec, &sorted);
    let report = report_text(&sorted, dropped);
    Ok((csv, report))
}

} // verus!
