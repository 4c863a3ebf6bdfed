//! Integer parts of the statistics: run counts and thousands grouping.
use vstd::prelude::*;
use crate::text::{all_digits, chars_of, dec, dec_string, is_digit, push_char};

verus! {

/// Number of positions `1 <= i < n` where `s` changes value.
pub open spec fn changes(s: Seq<bool>) -> nat
    decreases s.len(),
{
    if s.len() <= 1 {
        0
    } else {
        changes(s.drop_last()) + if s.last() != s[s.len() - 2] { 1nat } else { 0nat }
    }
}

/// Number of runs (maximal blocks of equal values) of `s`.
pub open spec fn runs_spec(s: Seq<bool>) -> nat {
    if s.len() == 0 {
        0
    } else {
        1 + changes(s)
    }
}

/// Number of `true` values.
pub open spec fn count_true(s: Seq<bool>) -> nat
    decreases s.len(),
{
    if s.len() == 0 {
        0
    } else {
        count_true(s.drop_last()) + if s.last() { 1nat } else { 0nat }
    }
}

proof fn lemma_changes_le(s: Seq<bool>)
    ensures
        changes(s) + 1 <= s.len() || s.len() == 0,
    decreases s.len(),
{
    if s.len() > 1 {
        lemma_changes_le(s.drop_last());
    }
}

proof fn lemma_count_true_le(s: Seq<bool>)
    ensures
        count_true(s) <= s.len(),
    decreases s.len(),
{
    if s.len() > 0 {
        lemma_count_true_le(s.drop_last());
    }
}

/// The run count and the number of `true` values of a 0/1 sequence (the counting part
/// of the runs test).
pub fn count_runs(seq: &[bool]) -> (r: (u64, u64))
    requires
        seq@.len() <= u64::MAX,
    ensures
        r.0 == runs_spec(seq@),
        r.1 == count_true(seq@),
{
    let n = seq.len();
    if n == 0 {
        return (0, 0);
    }
    let mut runs: u64 = 1;
    let mut ones: u64 = if seq[0] { 1 } else { 0 };
    let mut i: usize = 1;
    proof {
        let t = seq@.take(1);
        assert(t.drop_last() =~= Seq::<bool>::empty());
        assert(t.last() == seq@[0]);
        assert(count_true(t) == count_true(t.drop_last()) + if t.last() { 1nat } else { 0nat });
    }
    while i < n
        invariant
            1 <= i <= n,
            n == seq@.len(),
            n <= u64::MAX,
            runs == 1 + changes(seq@.take(i as int)),
            ones == count_true(seq@.take(i as int)),
        decreases n - i,
    {
        proof {
            assert(seq@.take(i + 1).drop_last() =~= seq@.take(i as int));
            lemma_changes_le(seq@.take(i as int));
            lemma_count_true_le(seq@.take(i as int));
        }
        if seq[i] != seq[i - 1] {
            runs = runs + 1;
        }
        if seq[i] {
            ones = ones + 1;
        }
        i = i + 1;
    }
    assert(seq@.take(n as int) =~= seq@);
    (runs, ones)
}

/// Decimal digits with a comma before every group of three counted from the right.
pub open spec fn group_digits(d: Seq<char>, i: int) -> Seq<char>
    decreases i,
{
    if i <= 0 {
        Seq::empty()
    } else {
        group_digits(d, i - 1) + if i - 1 > 0 && (d.len() - (i - 1)) % 3 == 0 {
            seq![',', d[i - 1]]
        } else {
            seq![d[i - 1]]
        }
    }
}

/// `n` in decimal with thousands separators (`17721088` gives `17,721,088`).
pub open spec fn grouped(n: nat) -> Seq<char> {
    group_digits(dec(n), dec(n).len() as int)
}

/// Writes `n` with thousands separators (the grouping part of `format_int`).
pub fn group_thousands(n: u64) -> (r: String)
    ensures
        r@ == grouped(n as nat),
{
    let s = dec_string(n);
    let d = chars_of(s.as_str());
    let len = d.len();
    let mut out = String::new();
    let mut i: usize = 0;
    while i < len
        invariant
            i <= len,
            len == d@.len(),
            d@ == dec(n as nat),
            out@ == group_digits(d@, i as int),
        decreases len - i,
    {
        if i > 0 && (len - i) % 3 == 0 {
            push_char(&mut out, ',');
        }
        push_char(&mut out, d[i]);
        proof {
            if i > 0 && (len - i) % 3 == 0 {
                assert(out@ =~= group_digits(d@, i as int) + seq![',', d@[i as int]]);
            } else {
                assert(out@ =~= group_digits(d@, i as int) + seq![d@[i as int]]);
            }
        }
        i = i + 1;
    }
    out
}

/// `s` with its commas removed.
pub open spec fn drop_commas(s: Seq<char>) -> Seq<char>
    decreases s.len(),
{
    if s.len() == 0 {
        Seq::empty()
    } else {
        drop_commas(s.drop_last()) + if s.last() == ',' { Seq::<char>::empty() } else { seq![s.last()] }
    }
}

proof fn lemma_drop_commas_add(a: Seq<char>, b: Seq<char>)
    ensures
        drop_commas(a + b) == drop_commas(a) + drop_commas(b),
    decreases b.len(),
{
    if b.len() == 0 {
        assert(a + b =~= a);
        assert(drop_commas(a) + drop_commas(b) =~= drop_commas(a));
    } else {
        lemma_drop_commas_add(a, b.drop_last());
        assert((a + b).drop_last() =~= a + b.drop_last());
        assert((a + b).last() == b.last());
        let t = if b.last() == ',' { Seq::<char>::empty() } else { seq![b.last()] };
        assert(drop_commas(a) + drop_commas(b.drop_last()) + t =~= drop_commas(a) + (drop_commas(b.drop_last()) + t));
    }
}

proof fn lemma_group_digits_plain(d: Seq<char>, i: int)
    requires
        0 <= i <= d.len(),
        all_digits(d),
    ensures
        drop_commas(group_digits(d, i)) == d.take(i),
    decreases i,
{
    if i > 0 {
        lemma_group_digits_plain(d, i - 1);
        let x = d[i - 1];
        assert(is_digit(x));
        let t = if i - 1 > 0 && (d.len() - (i - 1)) % 3 == 0 { seq![',', x] } else { seq![x] };
        lemma_drop_commas_add(group_digits(d, i - 1), t);
        assert(seq![',', x].drop_last() =~= seq![',']);
        assert(seq![','].drop_last() =~= Seq::<char>::empty());
        assert(seq![x].drop_last() =~= Seq::<char>::empty());
        assert(x != ',');
        assert(drop_commas(Seq::<char>::empty()) == Seq::<char>::empty());
        assert(drop_commas(seq![',']) == drop_commas(Seq::<char>::empty()) + Seq::<char>::empty());
        assert(drop_commas(seq![',']) =~= Seq::<char>::empty());
        assert(drop_commas(seq![x]) == drop_commas(Seq::<char>::empty()) + seq![x]);
        assert(drop_commas(seq![x]) =~= seq![x]);
        assert(seq![',', x].last() == x);
        assert(drop_commas(seq![',', x]) == drop_commas(seq![',']) + seq![x]);
        assert(drop_commas(t) =~= seq![x]);
        assert(d.take(i - 1).push(x) =~= d.take(i));
    } else {
        assert(d.take(0) =~= Seq::<char>::empty());
    }
}

/// Grouping only adds separators: without its commas the grouped text is the plain
/// decimal.
pub proof fn lemma_grouped_is_decimal(n: nat)
    ensures
        drop_commas(grouped(n)) == dec(n),
{
    crate::reload::lemma_dec_digits(n);
    lemma_group_digits_plain(dec(n), dec(n).len() as int);
    assert(dec(n).take(dec(n).len() as int) =~= dec(n));
}

} // verus!
