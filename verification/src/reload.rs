//! Reading back what the import writes: a data file made from a draw notice parses
//! into exactly its rows.
use vstd::prelude::*;
use crate::fetch::{
    after_at, build_csv_spec, code_key, code_num, row_before, text_lt, csv_rows, csv_spec, entries_spec, entry_of, field_spec, insert_pos, join_comma,
    map_entry_spec, mapped_rows, nonempty_trimmed, number_tokens, or_empty, sort_rows, starts_from, window, EntryView,
};
use crate::game_spec::{comp_width, spec_field_count, widths_sum, Component, GameSpec};
use crate::realdata::{
    bad_int_at, check_component, check_components, is_data_line, lemma_first_from, lemma_widths_front, line_fields,
    parse_lines_spec, record_of, u32_of, RecordView,
};
use crate::text::{
    all_digits, dec, find_from, is_digit, is_ws, lines_of, parse_unsigned, split_on, strip_cr, trim, trim_end, trim_start,
    unsigned_body,
};

verus! {

// ------------------------------------------------------------------ trimming

proof fn lemma_trim_start_skip(s: Seq<char>)
    ensures
        exists|k: int| 0 <= k <= s.len() && trim_start(s) == s.skip(k),
        trim_start(s).len() > 0 ==> !is_ws(trim_start(s)[0]),
    decreases s.len(),
{
    if s.len() > 0 && is_ws(s[0]) {
        lemma_trim_start_skip(s.drop_first());
        let k = choose|k: int| 0 <= k <= s.drop_first().len() && trim_start(s.drop_first()) == s.drop_first().skip(k);
        assert(s.drop_first().skip(k) =~= s.skip(k + 1));
    } else {
        assert(s.skip(0) =~= s);
    }
}

proof fn lemma_trim_end_take(s: Seq<char>)
    ensures
        exists|k: int| 0 <= k <= s.len() && trim_end(s) == s.take(k),
        trim_end(s).len() > 0 ==> !is_ws(trim_end(s).last()),
    decreases s.len(),
{
    if s.len() > 0 && is_ws(s.last()) {
        lemma_trim_end_take(s.drop_last());
        let k = choose|k: int| 0 <= k <= s.drop_last().len() && trim_end(s.drop_last()) == s.drop_last().take(k);
        assert(s.drop_last().take(k) =~= s.take(k));
    } else {
        assert(s.take(s.len() as int) =~= s);
    }
}

/// A text that neither starts nor ends with whitespace is its own trim.
pub proof fn lemma_trim_fixed(s: Seq<char>)
    requires
        s.len() > 0 ==> !is_ws(s[0]) && !is_ws(s.last()),
    ensures
        trim(s) == s,
{
    assert(trim_start(s) == s);
}

/// Trimming twice is trimming once, and a trim only keeps characters of the text.
pub proof fn lemma_trim_idempotent(s: Seq<char>)
    ensures
        trim(trim(s)) == trim(s),
        forall|c: char| trim(s).contains(c) ==> s.contains(c),
{
    let u = trim_start(s);
    lemma_trim_start_skip(s);
    lemma_trim_end_take(u);
    let t = trim_end(u);
    let a = choose|k: int| 0 <= k <= s.len() && u == s.skip(k);
    let b = choose|k: int| 0 <= k <= u.len() && t == u.take(k);
    if t.len() > 0 {
        assert(t[0] == u[0]);
        lemma_trim_fixed(t);
    } else {
        assert(trim(t) =~= t);
    }
    assert forall|c: char| t.contains(c) implies s.contains(c) by {
        let i = choose|i: int| 0 <= i < t.len() && t[i] == c;
        assert(s[a + i] == c);
    }
}

/// Digits are not whitespace, so a non-empty digit run is its own trim.
pub proof fn lemma_digit_run_trimmed(t: Seq<char>)
    requires
        t.len() > 0,
        all_digits(t),
    ensures
        trim(t) == t,
{
    assert(is_digit(t[0]));
    assert(is_digit(t[t.len() - 1]));
    lemma_trim_fixed(t);
}

// ------------------------------------------------------------------ splitting

proof fn lemma_split_len(s: Seq<char>, sep: char)
    ensures
        split_on(s, sep).len() >= 1,
    decreases s.len(),
{
    if s.len() > 0 {
        lemma_split_len(s.drop_last(), sep);
    }
}

/// Appending text without the separator extends the last piece.
pub proof fn lemma_split_append(s: Seq<char>, x: Seq<char>, sep: char)
    requires
        !x.contains(sep),
    ensures
        split_on(s + x, sep) == split_on(s, sep).update(
            split_on(s, sep).len() - 1,
            split_on(s, sep).last() + x,
        ),
    decreases x.len(),
{
    lemma_split_len(s, sep);
    if x.len() == 0 {
        assert(s + x =~= s);
        assert(split_on(s, sep).last() + x =~= split_on(s, sep).last());
        assert(split_on(s, sep).update(split_on(s, sep).len() - 1, split_on(s, sep).last()) =~= split_on(s, sep));
    } else {
        let y = x.drop_last();
        assert(!y.contains(sep)) by {
            if y.contains(sep) {
                let i = choose|i: int| 0 <= i < y.len() && y[i] == sep;
                assert(x[i] == sep);
            }
        }
        lemma_split_append(s, y, sep);
        assert((s + x).drop_last() =~= s + y);
        assert((s + x).last() == x.last());
        assert(x.last() != sep) by {
            assert(x[x.len() - 1] == x.last());
        }
        lemma_split_len(s + y, sep);
        let r = split_on(s + y, sep);
        assert(r.last() == split_on(s, sep).last() + y);
        assert(split_on(s + x, sep) == r.update(r.len() - 1, r.last().push(x.last())));
        assert((split_on(s, sep).last() + y).push(x.last()) =~= split_on(s, sep).last() + x);
        assert(split_on(s + x, sep) =~= split_on(s, sep).update(split_on(s, sep).len() - 1, split_on(s, sep).last() + x));
    }
}

/// Appending the separator starts a new, empty piece.
pub proof fn lemma_split_sep(s: Seq<char>, sep: char)
    ensures
        split_on(s.push(sep), sep) == split_on(s, sep).push(Seq::<char>::empty()),
{
    assert(s.push(sep).drop_last() =~= s);
}

/// No piece of a split holds the separator.
pub proof fn lemma_split_pieces_clean(s: Seq<char>, sep: char)
    ensures
        forall|k: int| 0 <= k < split_on(s, sep).len() ==> !(#[trigger] split_on(s, sep)[k]).contains(sep),
    decreases s.len(),
{
    if s.len() > 0 {
        let init = s.drop_last();
        lemma_split_pieces_clean(init, sep);
        lemma_split_len(init, sep);
        let r = split_on(init, sep);
        if s.last() != sep {
            assert forall|k: int| 0 <= k < split_on(s, sep).len() implies !(#[trigger] split_on(s, sep)[k]).contains(sep) by {
                if k == r.len() - 1 {
                    let p = r.last().push(s.last());
                    assert(split_on(s, sep)[k] == p);
                    if p.contains(sep) {
                        let i = choose|i: int| 0 <= i < p.len() && p[i] == sep;
                        if i < r.last().len() {
                            assert(r.last()[i] == sep);
                            assert(r[r.len() - 1].contains(sep));
                        }
                    }
                } else {
                    assert(split_on(s, sep)[k] == r[k]);
                }
            }
        } else {
            assert forall|k: int| 0 <= k < split_on(s, sep).len() implies !(#[trigger] split_on(s, sep)[k]).contains(sep) by {
                if k < r.len() {
                    assert(split_on(s, sep)[k] == r[k]);
                } else {
                    assert(split_on(s, sep)[k] =~= Seq::<char>::empty());
                }
            }
        }
    }
}

// ------------------------------------------------------------------ lines

/// Each line followed by a line break.
pub open spec fn lines_text(ls: Seq<Seq<char>>) -> Seq<char>
    decreases ls.len(),
{
    if ls.len() == 0 {
        Seq::empty()
    } else {
        lines_text(ls.drop_last()) + ls.last() + seq!['\n']
    }
}

proof fn lemma_split_lines_text(ls: Seq<Seq<char>>)
    requires
        forall|k: int| 0 <= k < ls.len() ==> !(#[trigger] ls[k]).contains('\n'),
    ensures
        split_on(lines_text(ls), '\n') == ls.push(Seq::<char>::empty()),
    decreases ls.len(),
{
    if ls.len() == 0 {
        assert(split_on(Seq::<char>::empty(), '\n') =~= seq![Seq::<char>::empty()]);
        assert(ls.push(Seq::<char>::empty()) =~= seq![Seq::<char>::empty()]);
    } else {
        let init = ls.drop_last();
        assert forall|k: int| 0 <= k < init.len() implies !(#[trigger] init[k]).contains('\n') by {
            assert(init[k] == ls[k]);
        }
        lemma_split_lines_text(init);
        let t = lines_text(init);
        assert(!ls.last().contains('\n')) by {
            assert(ls[ls.len() - 1] == ls.last());
        }
        lemma_split_append(t, ls.last(), '\n');
        let p = init.push(Seq::<char>::empty());
        assert(p.update(p.len() - 1, p.last() + ls.last()) =~= ls);
        lemma_split_sep(t + ls.last(), '\n');
        assert(lines_text(ls) =~= (t + ls.last()).push('\n'));
    }
}

/// Lines without line breaks that do not end in `\r` are read back as they were
/// written.
pub proof fn lemma_lines_of_text(ls: Seq<Seq<char>>)
    requires
        forall|k: int| 0 <= k < ls.len() ==> !(#[trigger] ls[k]).contains('\n'),
        forall|k: int| 0 <= k < ls.len() ==> (#[trigger] ls[k]).len() > 0 && ls[k].last() != '\r',
    ensures
        lines_of(lines_text(ls)) == ls,
{
    lemma_split_lines_text(ls);
    let parts = split_on(lines_text(ls), '\n');
    assert(parts.len() - 1 == ls.len());
    assert forall|k: int| 0 <= k < ls.len() implies strip_cr(parts[k]) == ls[k] by {
        assert(parts[k] == ls[k]);
    }
    assert(lines_of(lines_text(ls)) =~= ls);
}

// ------------------------------------------------------------------ rows

/// Trimmed text neither starts nor ends with whitespace.
pub proof fn lemma_trim_ends(s: Seq<char>)
    ensures
        trim(s).len() > 0 ==> !is_ws(trim(s)[0]) && !is_ws(trim(s).last()),
{
    let u = trim_start(s);
    lemma_trim_start_skip(s);
    lemma_trim_end_take(u);
    if trim(s).len() > 0 {
        assert(trim(s)[0] == u[0]);
    }
}

proof fn lemma_join_shape(fs: Seq<Seq<char>>)
    requires
        fs.len() >= 1,
    ensures
        join_comma(fs).len() >= fs[0].len(),
        join_comma(fs).take(fs[0].len() as int) == fs[0],
        fs.last().len() > 0 ==> join_comma(fs).last() == fs.last().last(),
        fs.last().len() == 0 && fs.len() >= 2 ==> join_comma(fs).last() == ',',
        forall|c: char| join_comma(fs).contains(c) ==> c == ',' || exists|k: int| 0 <= k < fs.len() && (#[trigger] fs[k]).contains(c),
    decreases fs.len(),
{
    if fs.len() == 1 {
        assert(fs[0].take(fs[0].len() as int) =~= fs[0]);
        assert forall|c: char| join_comma(fs).contains(c) implies c == ',' || exists|k: int| 0 <= k < fs.len() && (#[trigger] fs[k]).contains(c) by {
            assert(fs[0].contains(c));
        }
    } else {
        let init = fs.drop_last();
        lemma_join_shape(init);
        let j = join_comma(init);
        assert(join_comma(fs) == j + seq![','] + fs.last());
        assert((j + seq![','] + fs.last()).take(fs[0].len() as int) =~= j.take(fs[0].len() as int));
        assert(init[0] == fs[0]);
        assert forall|c: char| join_comma(fs).contains(c) implies c == ',' || exists|k: int| 0 <= k < fs.len() && (#[trigger] fs[k]).contains(c) by {
            let i = choose|i: int| 0 <= i < join_comma(fs).len() && join_comma(fs)[i] == c;
            if i < j.len() {
                assert(j[i] == c);
                assert(j.contains(c));
                if c != ',' {
                    let k = choose|k: int| 0 <= k < init.len() && (#[trigger] init[k]).contains(c);
                    assert(fs[k] == init[k]);
                }
            } else if i > j.len() {
                assert(fs.last()[i - j.len() - 1] == c);
                assert(fs[fs.len() - 1].contains(c));
            }
        }
        if fs.last().len() > 0 {
            assert(join_comma(fs).last() == fs.last()[fs.last().len() - 1]);
        }
    }
}

/// Comma-joined fields without commas split back into the same fields.
proof fn lemma_split_join(fs: Seq<Seq<char>>)
    requires
        fs.len() >= 1,
        forall|k: int| 0 <= k < fs.len() ==> !(#[trigger] fs[k]).contains(','),
    ensures
        split_on(join_comma(fs), ',') == fs,
    decreases fs.len(),
{
    if fs.len() == 1 {
        lemma_split_append(Seq::<char>::empty(), fs[0], ',');
        assert(Seq::<char>::empty() + fs[0] =~= fs[0]);
        assert(split_on(Seq::<char>::empty(), ',') =~= seq![Seq::<char>::empty()]);
        assert(seq![Seq::<char>::empty()].update(0, Seq::<char>::empty() + fs[0]) =~= fs);
    } else {
        let init = fs.drop_last();
        assert forall|k: int| 0 <= k < init.len() implies !(#[trigger] init[k]).contains(',') by {
            assert(init[k] == fs[k]);
        }
        lemma_split_join(init);
        let j = join_comma(init);
        assert(!fs.last().contains(',')) by {
            assert(fs[fs.len() - 1] == fs.last());
        }
        lemma_split_sep(j, ',');
        lemma_split_append(j.push(','), fs.last(), ',');
        assert(join_comma(fs) =~= j.push(',') + fs.last());
        let p = init.push(Seq::<char>::empty());
        assert(p.update(p.len() - 1, p.last() + fs.last()) =~= fs);
    }
}

/// A field that a write and a read leave as it is: no comma, no line break, no
/// surrounding whitespace.
pub open spec fn plain_field(f: Seq<char>) -> bool {
    &&& !f.contains(',')
    &&& !f.contains('\n')
    &&& trim(f) == f
}

/// A row that a data file gives back unchanged: a non-empty digit issue and plain fields.
pub open spec fn plain_row(r: Seq<Seq<char>>) -> bool {
    &&& r.len() >= 1
    &&& r[0].len() > 0
    &&& all_digits(r[0])
    &&& forall|k: int| 0 <= k < r.len() ==> plain_field(#[trigger] r[k])
}

/// The line of a plain row is a data line whose fields are the row.
proof fn lemma_plain_row_line(r: Seq<Seq<char>>)
    requires
        plain_row(r),
    ensures
        line_fields(join_comma(r)) == r,
        is_data_line(join_comma(r)),
        !join_comma(r).contains('\n'),
        join_comma(r).len() > 0,
        join_comma(r).last() != '\r',
{
    let line = join_comma(r);
    lemma_join_shape(r);
    assert(line[0] == r[0][0]) by {
        assert(line.take(r[0].len() as int)[0] == line[0]);
    }
    assert(is_digit(r[0][0]));
    let last = r.last();
    assert(plain_field(r[r.len() - 1]));
    if last.len() > 0 {
        lemma_trim_ends(last);
        assert(line.last() == last.last());
    } else if r.len() == 1 {
        assert(false);
    }
    lemma_trim_fixed(line);
    assert forall|k: int| 0 <= k < r.len() implies !(#[trigger] r[k]).contains(',') by {
        assert(plain_field(r[k]));
    }
    lemma_split_join(r);
    assert forall|k: int| 0 <= k < r.len() implies trim(#[trigger] r[k]) == r[k] by {
        assert(plain_field(r[k]));
    }
    assert(split_on(line, ',').map_values(|f: Seq<char>| trim(f)) =~= r);
    assert(!line.contains('\n')) by {
        if line.contains('\n') {
            let k = choose|k: int| 0 <= k < r.len() && (#[trigger] r[k]).contains('\n');
            assert(plain_field(r[k]));
        }
    }
}

// ------------------------------------------------------------------ data file

pub proof fn lemma_dec_digits(n: nat)
    ensures
        all_digits(dec(n)),
        dec(n).len() > 0,
    decreases n,
{
    if n >= 10 {
        lemma_dec_digits(n / 10);
    }
}

/// The header line of a data file.
pub open spec fn header_line(g: GameSpec, n: nat) -> Seq<char> {
    "# "@ + g.name@ + " "@ + dec(n) + " 期  期号,日期,号码..."@
}

proof fn lemma_header_line(g: GameSpec, n: nat)
    requires
        !g.name@.contains('\n'),
    ensures
        !header_line(g, n).contains('\n'),
        header_line(g, n).len() > 0,
        header_line(g, n).last() != '\r',
        !is_data_line(header_line(g, n)),
{
    reveal_strlit("# ");
    reveal_strlit(" ");
    reveal_strlit(" 期  期号,日期,号码...");
    let h = header_line(g, n);
    let a = "# "@ + g.name@ + " "@;
    let tail = " 期  期号,日期,号码..."@;
    lemma_dec_digits(n);
    assert(h == a + dec(n) + tail);
    assert(h[0] == '#');
    assert(h.last() == '.');
    lemma_trim_fixed(h);
    assert(!h.contains('\n')) by {
        if h.contains('\n') {
            let i = choose|i: int| 0 <= i < h.len() && h[i] == '\n';
            if i < 2 {
            } else if i < 2 + g.name@.len() {
                assert(g.name@[i - 2] == '\n');
                assert(g.name@.contains('\n'));
            } else if i < a.len() {
            } else if i < a.len() + dec(n).len() {
                assert(is_digit(dec(n)[i - a.len()]));
            } else {
                assert(tail[i - a.len() - dec(n).len()] == '\n');
            }
        }
    }
}

proof fn lemma_csv_rows_text(rows: Seq<Seq<Seq<char>>>)
    ensures
        csv_rows(rows) == lines_text(rows.map_values(|r: Seq<Seq<char>>| join_comma(r))),
    decreases rows.len(),
{
    if rows.len() > 0 {
        lemma_csv_rows_text(rows.drop_last());
        assert(rows.map_values(|r: Seq<Seq<char>>| join_comma(r)).drop_last() =~= rows.drop_last().map_values(
            |r: Seq<Seq<char>>| join_comma(r),
        ));
    }
}

proof fn lemma_lines_text_prepend(h: Seq<char>, ls: Seq<Seq<char>>)
    ensures
        lines_text(seq![h] + ls) == h + seq!['\n'] + lines_text(ls),
    decreases ls.len(),
{
    if ls.len() == 0 {
        assert(seq![h] + ls =~= seq![h]);
        assert(seq![h].drop_last() =~= Seq::<Seq<char>>::empty());
        assert(h + seq!['\n'] + lines_text(ls) =~= lines_text(Seq::<Seq<char>>::empty()) + h + seq!['\n']);
    } else {
        lemma_lines_text_prepend(h, ls.drop_last());
        assert((seq![h] + ls).drop_last() =~= seq![h] + ls.drop_last());
        assert((seq![h] + ls).last() == ls.last());
        assert(h + seq!['\n'] + lines_text(ls) =~= (h + seq!['\n'] + lines_text(ls.drop_last())) + ls.last() + seq!['\n']);
    }
}

proof fn lemma_parse_plain_lines(g: GameSpec, h: Seq<char>, rows: Seq<Seq<Seq<char>>>)
    requires
        !is_data_line(h),
        forall|i: int| 0 <= i < rows.len() ==> plain_row(#[trigger] rows[i]) && record_of(g, rows[i]) is Ok,
    ensures
        parse_lines_spec(g, seq![h] + rows.map_values(|r: Seq<Seq<char>>| join_comma(r))) == (
            Seq::new(rows.len(), |i: int| record_of(g, rows[i])->Ok_0),
            Seq::<(nat, Seq<char>)>::empty(),
        ),
    decreases rows.len(),
{
    let ls = seq![h] + rows.map_values(|r: Seq<Seq<char>>| join_comma(r));
    if rows.len() == 0 {
        assert(ls =~= seq![h]);
        assert(seq![h].drop_last() =~= Seq::<Seq<char>>::empty());
        assert(parse_lines_spec(g, Seq::<Seq<char>>::empty()) == (Seq::<RecordView>::empty(), Seq::<(nat, Seq<char>)>::empty()));
        assert(seq![h].last() == h);
        assert(parse_lines_spec(g, seq![h]) == parse_lines_spec(g, Seq::<Seq<char>>::empty()));
        assert(Seq::new(0, |i: int| record_of(g, rows[i])->Ok_0) =~= Seq::<RecordView>::empty());
    } else {
        let init = rows.drop_last();
        assert forall|i: int| 0 <= i < init.len() implies plain_row(#[trigger] init[i]) && record_of(g, init[i]) is Ok by {
            assert(init[i] == rows[i]);
        }
        lemma_parse_plain_lines(g, h, init);
        assert(ls.drop_last() =~= seq![h] + init.map_values(|r: Seq<Seq<char>>| join_comma(r)));
        let last = rows[rows.len() - 1];
        assert(ls.last() == join_comma(last));
        lemma_plain_row_line(last);
        let prev = parse_lines_spec(g, ls.drop_last());
        assert(line_fields(ls.last()) == last);
        assert(parse_lines_spec(g, ls) == (prev.0.push(record_of(g, last)->Ok_0), prev.1));
        assert(Seq::new(rows.len(), |i: int| record_of(g, rows[i])->Ok_0) =~= Seq::new(
            init.len(),
            |i: int| record_of(g, init[i])->Ok_0,
        ).push(record_of(g, last)->Ok_0));
    }
}

/// A data file written from plain rows that the game accepts reads back as exactly
/// those rows, in order, with nothing skipped.
pub proof fn lemma_data_file_reads_back(g: GameSpec, rows: Seq<Seq<Seq<char>>>)
    requires
        !g.name@.contains('\n'),
        forall|i: int| 0 <= i < rows.len() ==> plain_row(#[trigger] rows[i]) && record_of(g, rows[i]) is Ok,
    ensures
        parse_lines_spec(g, lines_of(csv_spec(g, rows))) == (
            Seq::new(rows.len(), |i: int| record_of(g, rows[i])->Ok_0),
            Seq::<(nat, Seq<char>)>::empty(),
        ),
{
    let h = header_line(g, rows.len());
    let joined = rows.map_values(|r: Seq<Seq<char>>| join_comma(r));
    let ls = seq![h] + joined;
    lemma_header_line(g, rows.len());
    lemma_csv_rows_text(rows);
    lemma_lines_text_prepend(h, joined);
    reveal_strlit("# ");
    reveal_strlit(" ");
    reveal_strlit(" 期  期号,日期,号码...");
    reveal_strlit(" 期  期号,日期,号码...\n");
    assert(csv_spec(g, rows) =~= h + seq!['\n'] + csv_rows(rows));
    assert forall|k: int| 0 <= k < ls.len() implies !(#[trigger] ls[k]).contains('\n') && ls[k].len() > 0
        && ls[k].last() != '\r' by {
        if k > 0 {
            assert(ls[k] == join_comma(rows[k - 1]));
            lemma_plain_row_line(rows[k - 1]);
        }
    }
    lemma_lines_of_text(ls);
    lemma_parse_plain_lines(g, h, rows);
}

// ------------------------------------------------------------------ imported rows

proof fn lemma_component_numbers(c: Component, ts: Seq<Seq<char>>)
    requires
        check_component(c, ts) is Ok,
    ensures
        forall|j: int| 0 <= j < ts.len() ==> u32_of(trim(#[trigger] ts[j])) is Some,
{
    lemma_first_from(ts.len() as int, bad_int_at(ts), 0);
    assert forall|j: int| 0 <= j < ts.len() implies u32_of(trim(#[trigger] ts[j])) is Some by {
        assert(!bad_int_at(ts)(j));
    }
}

proof fn lemma_components_numbers(cs: Seq<Component>, ts: Seq<Seq<char>>)
    requires
        ts.len() == widths_sum(cs),
        check_components(cs, ts) is Ok,
    ensures
        forall|j: int| 0 <= j < ts.len() ==> u32_of(trim(#[trigger] ts[j])) is Some,
    decreases cs.len(),
{
    if cs.len() > 0 {
        lemma_widths_front(cs);
        let w = comp_width(cs[0]) as int;
        lemma_component_numbers(cs[0], ts.take(w));
        lemma_components_numbers(cs.drop_first(), ts.skip(w));
        assert forall|j: int| 0 <= j < ts.len() implies u32_of(trim(#[trigger] ts[j])) is Some by {
            if j < w {
                assert(ts.take(w)[j] == ts[j]);
            } else {
                assert(ts.skip(w)[j - w] == ts[j]);
            }
        }
    } else {
        assert(ts.len() == 0);
    }
}

/// Every number field of an accepted row reads as a `u32`.
proof fn lemma_accepted_numbers(g: GameSpec, ts: Seq<Seq<char>>)
    requires
        record_of(g, ts) is Ok,
    ensures
        forall|j: int| 2 <= j < ts.len() ==> u32_of(trim(#[trigger] ts[j])) is Some,
{
    lemma_components_numbers(g.components@, ts.skip(2));
    assert forall|j: int| 2 <= j < ts.len() implies u32_of(trim(#[trigger] ts[j])) is Some by {
        assert(ts.skip(2)[j - 2] == ts[j]);
    }
}

/// A number that reads as `u32` holds no comma and no line break.
proof fn lemma_number_plain(t: Seq<char>)
    requires
        parse_unsigned(t, u32::MAX as nat) is Some,
    ensures
        !t.contains(','),
        !t.contains('\n'),
{
    let d = unsigned_body(t);
    assert forall|c: char| #[trigger] t.contains(c) implies c == '+' || is_digit(c) by {
        let i = choose|i: int| 0 <= i < t.len() && t[i] == c;
        if t[0] == '+' {
            if i > 0 {
                assert(d[i - 1] == c);
            }
        } else {
            assert(d[i] == c);
        }
    }
    if t.contains(',') {
        assert(',' == '+' || is_digit(','));
    }
    if t.contains('\n') {
        assert('\n' == '+' || is_digit('\n'));
    }
}

/// Each token that `nonempty_trimmed` keeps is the trim of one of the pieces.
proof fn lemma_tokens_from_pieces(ps: Seq<Seq<char>>)
    ensures
        forall|t: int| 0 <= t < nonempty_trimmed(ps).len() ==> exists|k: int| 0 <= k < ps.len()
            && #[trigger] nonempty_trimmed(ps)[t] == trim(ps[k]),
    decreases ps.len(),
{
    if ps.len() > 0 {
        let init = ps.drop_last();
        lemma_tokens_from_pieces(init);
        let r = nonempty_trimmed(init);
        assert forall|t: int| 0 <= t < nonempty_trimmed(ps).len() implies exists|k: int| 0 <= k < ps.len()
            && #[trigger] nonempty_trimmed(ps)[t] == trim(ps[k]) by {
            if t < r.len() {
                assert(nonempty_trimmed(ps)[t] == r[t]);
                let k = choose|k: int| 0 <= k < init.len() && r[t] == trim(init[k]);
                assert(init[k] == ps[k]);
            } else {
                assert(nonempty_trimmed(ps)[t] == trim(ps[ps.len() - 1]));
            }
        }
    }
}

/// The issue is a non-empty digit run and the date has no comma and no line break.
pub open spec fn plain_entry(e: EntryView) -> bool {
    &&& e.code.len() > 0
    &&& all_digits(e.code)
    &&& !e.date.contains(',')
    &&& !e.date.contains('\n')
}

/// The row a plain entry maps to is plain.
proof fn lemma_mapped_row_plain(g: GameSpec, e: EntryView)
    requires
        plain_entry(e),
        trim(e.date) == e.date,
        map_entry_spec(g, e) is Ok,
    ensures
        plain_row(map_entry_spec(g, e)->Ok_0),
        record_of(g, map_entry_spec(g, e)->Ok_0) is Ok,
{
    let width = (spec_field_count(g) - 2) as nat;
    let nums = number_tokens(e);
    let row = map_entry_spec(g, e)->Ok_0;
    assert(row == seq![e.code, e.date] + nums.take(width as int));
    lemma_accepted_numbers(g, row);
    let ps = split_on(e.red, ',') + split_on(e.blue, ',');
    lemma_tokens_from_pieces(ps);
    lemma_split_pieces_clean(e.red, ',');
    lemma_split_pieces_clean(e.blue, ',');
    lemma_digit_run_trimmed(e.code);
    assert forall|k: int| 0 <= k < row.len() implies plain_field(#[trigger] row[k]) by {
        if k == 0 {
            assert(row[0] == e.code);
            assert(!e.code.contains(',') && !e.code.contains('\n')) by {
                if e.code.contains(',') {
                    let i = choose|i: int| 0 <= i < e.code.len() && e.code[i] == ',';
                    assert(is_digit(e.code[i]));
                }
                if e.code.contains('\n') {
                    let i = choose|i: int| 0 <= i < e.code.len() && e.code[i] == '\n';
                    assert(is_digit(e.code[i]));
                }
            }
        } else if k == 1 {
            assert(row[1] == e.date);
        } else {
            let t = row[k];
            assert(t == nums[k - 2]);
            let q = choose|q: int| 0 <= q < ps.len() && #[trigger] nonempty_trimmed(ps)[k - 2] == trim(ps[q]);
            let piece = ps[q];
            assert(!piece.contains(',')) by {
                if q < split_on(e.red, ',').len() {
                    assert(piece == split_on(e.red, ',')[q]);
                } else {
                    assert(piece == split_on(e.blue, ',')[q - split_on(e.red, ',').len()]);
                }
            }
            lemma_trim_idempotent(piece);
            assert(t == trim(piece));
            assert(!t.contains(','));
            assert(u32_of(trim(row[k])) is Some);
            lemma_number_plain(t);
        }
    }
}

proof fn lemma_mapped_rows_plain(g: GameSpec, es: Seq<EntryView>)
    requires
        forall|k: int| 0 <= k < es.len() ==> plain_entry(#[trigger] es[k]) && trim(es[k].date) == es[k].date,
    ensures
        forall|i: int| 0 <= i < mapped_rows(g, es).len() ==> plain_row(#[trigger] mapped_rows(g, es)[i]) && record_of(
            g,
            mapped_rows(g, es)[i],
        ) is Ok,
    decreases es.len(),
{
    if es.len() > 0 {
        let init = es.drop_last();
        assert forall|k: int| 0 <= k < init.len() implies plain_entry(#[trigger] init[k]) && trim(init[k].date) == init[k].date by {
            assert(init[k] == es[k]);
        }
        lemma_mapped_rows_plain(g, init);
        let e = es[es.len() - 1];
        assert(es.last() == e);
        if map_entry_spec(g, e) is Ok {
            lemma_mapped_row_plain(g, e);
        }
    }
}

/// Sorting keeps the rows: same number, each one of the given rows.
pub proof fn lemma_sort_rows_members(rows: Seq<Seq<Seq<char>>>)
    ensures
        sort_rows(rows).len() == rows.len(),
        forall|i: int| 0 <= i < sort_rows(rows).len() ==> rows.contains(#[trigger] sort_rows(rows)[i]),
    decreases rows.len(),
{
    if rows.len() > 0 {
        let init = rows.drop_last();
        lemma_sort_rows_members(init);
        let s = sort_rows(init);
        let x = rows.last();
        let p = insert_pos(s, x);
        lemma_first_from(s.len() as int, after_at(s, x), 0);
        assert(0 <= p <= s.len());
        assert forall|i: int| 0 <= i < sort_rows(rows).len() implies rows.contains(#[trigger] sort_rows(rows)[i]) by {
            let v = sort_rows(rows)[i];
            if i < p {
                assert(v == s[i]);
                assert(init.contains(v));
                let j = choose|j: int| 0 <= j < init.len() && init[j] == v;
                assert(rows[j] == v);
            } else if i == p {
                assert(v == x);
                assert(rows[rows.len() - 1] == x);
            } else {
                assert(v == s[i - 1]);
                assert(init.contains(v));
                let j = choose|j: int| 0 <= j < init.len() && init[j] == v;
                assert(rows[j] == v);
            }
        }
    }
}

/// The data file that an import writes reads back as exactly its rows (sorted by
/// issue), with nothing skipped, when every record of the notice has a digit issue and a
/// date without commas or line breaks.
pub proof fn lemma_import_reads_back(g: GameSpec, body: Seq<char>)
    requires
        !g.name@.contains('\n'),
        build_csv_spec(g, body) is Ok,
        forall|k: int| 0 <= k < entries_spec(body)->Ok_0.len() ==> plain_entry(#[trigger] entries_spec(body)->Ok_0[k]),
    ensures
        ({
            let rows = sort_rows(mapped_rows(g, entries_spec(body)->Ok_0));
            parse_lines_spec(g, lines_of(build_csv_spec(g, body)->Ok_0.0)) == (
                Seq::new(rows.len(), |i: int| record_of(g, rows[i])->Ok_0),
                Seq::<(nat, Seq<char>)>::empty(),
            )
        }),
{
    let es = entries_spec(body)->Ok_0;
    let st = starts_from(body, code_key(), 0);
    assert forall|k: int| 0 <= k < es.len() implies plain_entry(#[trigger] es[k]) && trim(es[k].date) == es[k].date by {
        assert(es[k] == entry_of(window(body, st, k)));
        let raw = or_empty(field_spec(window(body, st, k), "date"@));
        match find_from(raw, seq!['('], 0) {
            Some(i) => lemma_trim_idempotent(raw.take(i)),
            None => lemma_trim_idempotent(raw),
        }
    }
    let rows = mapped_rows(g, es);
    lemma_mapped_rows_plain(g, es);
    let sorted = sort_rows(rows);
    lemma_sort_rows_members(rows);
    assert forall|i: int| 0 <= i < sorted.len() implies plain_row(#[trigger] sorted[i]) && record_of(g, sorted[i]) is Ok by {
        assert(rows.contains(sorted[i]));
        let j = choose|j: int| 0 <= j < rows.len() && rows[j] == sorted[i];
        assert(plain_row(rows[j]));
    }
    lemma_data_file_reads_back(g, sorted);
}

// ------------------------------------------------------------------ row order

proof fn lemma_text_lt_irreflexive(a: Seq<char>)
    ensures
        !text_lt(a, a),
    decreases a.len(),
{
    if a.len() > 0 {
        lemma_text_lt_irreflexive(a.drop_first());
    }
}

proof fn lemma_text_lt_transitive(a: Seq<char>, b: Seq<char>, c: Seq<char>)
    requires
        text_lt(a, b),
        text_lt(b, c),
    ensures
        text_lt(a, c),
    decreases a.len(),
{
    if a.len() > 0 && a[0] == b[0] && b[0] == c[0] {
        lemma_text_lt_transitive(a.drop_first(), b.drop_first(), c.drop_first());
    }
}

/// The rows ascend: no row sorts strictly before an earlier one.
pub open spec fn rows_sorted(s: Seq<Seq<Seq<char>>>) -> bool {
    forall|i: int, j: int| 0 <= i < j < s.len() ==> !row_before(#[trigger] s[j], #[trigger] s[i])
}

proof fn lemma_row_before_transitive(a: Seq<Seq<char>>, b: Seq<Seq<char>>, c: Seq<Seq<char>>)
    requires
        row_before(a, b),
        row_before(b, c),
    ensures
        row_before(a, c),
{
    if code_num(a[0]) == code_num(b[0]) && code_num(b[0]) == code_num(c[0]) {
        lemma_text_lt_transitive(a[0], b[0], c[0]);
    }
}

/// The import sorts its rows by issue number (ties by issue text, rows with equal keys
/// in the order they came in) and keeps every row: the result ascends and holds the same
/// rows, each as often.
pub proof fn lemma_sort_rows_sorted(rows: Seq<Seq<Seq<char>>>)
    ensures
        rows_sorted(sort_rows(rows)),
        sort_rows(rows).to_multiset() == rows.to_multiset(),
    decreases rows.len(),
{
    broadcast use vstd::seq_lib::group_to_multiset_ensures;
    if rows.len() == 0 {
        assert(rows =~= Seq::<Seq<Seq<char>>>::empty());
    } else {
        let init = rows.drop_last();
        lemma_sort_rows_sorted(init);
        let s = sort_rows(init);
        let x = rows.last();
        let p = insert_pos(s, x);
        lemma_first_from(s.len() as int, after_at(s, x), 0);
        let r = s.insert(p, x);
        assert(sort_rows(rows) == r);
        assert forall|i: int, j: int| 0 <= i < j < r.len() implies !row_before(#[trigger] r[j], #[trigger] r[i]) by {
            if j < p {
                assert(r[i] == s[i] && r[j] == s[j]);
            } else if i > p {
                assert(r[i] == s[i - 1] && r[j] == s[j - 1]);
            } else if j == p {
                assert(r[j] == x && r[i] == s[i]);
                assert(!after_at(s, x)(i));
            } else if i == p {
                assert(r[i] == x && r[j] == s[j - 1]);
                assert(p < s.len());
                assert(after_at(s, x)(p));
                assert(row_before(x, s[p]));
                if row_before(s[j - 1], x) {
                    lemma_row_before_transitive(s[j - 1], x, s[p]);
                    if j - 1 == p {
                        lemma_text_lt_irreflexive(s[p][0]);
                    } else {
                        assert(!row_before(s[j - 1], s[p]));
                    }
                }
            } else {
                assert(i < p && p < j);
                assert(r[i] == s[i] && r[j] == s[j - 1]);
            }
        }
        vstd::seq_lib::to_multiset_insert(s, p, x);
        assert(rows == init.push(x));
        vstd::seq_lib::to_multiset_build(init, x);
    }
}

} // verus!
