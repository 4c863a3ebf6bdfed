//! Character-level text handling shared by the parsers: whitespace, trimming,
//! splitting, decimal numbers, and building `String`s.
use vstd::prelude::*;
use vstd::utf8::{encode_scalar, encode_utf8};

verus! {

/// Copies the characters of `s` into a vector.
pub fn chars_of(s: &str) -> (v: Vec<char>)
    ensures
        v@ == s@,
{
    let mut v: Vec<char> = Vec::new();
    for c in it: s.chars()
        invariant
            v@ == it.seq().take(it.index() as int),
            it.seq() == s@,
    {
        v.push(c);
    }
    v
}


/// Appends one character (std `String::push`).
#[verifier::external_body]
pub(crate) fn push_char(s: &mut String, c: char)
    ensures
        final(s)@ == old(s)@.push(c),
{
    s.push(c);
}

/// Appends the characters `v[lo..hi]`.
pub fn push_range(s: &mut String, v: &[char], lo: usize, hi: usize)
    requires
        lo <= hi <= v@.len(),
    ensures
        final(s)@ == old(s)@ + v@.subrange(lo as int, hi as int),
{
    let mut i = lo;
    while i < hi
        invariant
            lo <= i <= hi <= v@.len(),
            s@ == old(s)@ + v@.subrange(lo as int, i as int),
        decreases hi - i,
    {
        push_char(s, v[i]);
        assert(v@.subrange(lo as int, i + 1) =~= v@.subrange(lo as int, i as int).push(v@[i as int]));
        i = i + 1;
    }
}

/// A new string holding `v[lo..hi]`.
pub fn string_of_range(v: &[char], lo: usize, hi: usize) -> (s: String)
    requires
        lo <= hi <= v@.len(),
    ensures
        s@ == v@.subrange(lo as int, hi as int),
{
    let mut s = String::new();
    push_range(&mut s, v, lo, hi);
    assert(Seq::<char>::empty() + v@.subrange(lo as int, hi as int) =~= v@.subrange(lo as int, hi as int));
    s
}

/// A new string holding all of `v`.
pub fn string_of(v: &[char]) -> (s: String)
    ensures
        s@ == v@,
{
    let s = string_of_range(v, 0, v.len());
    assert(v@.subrange(0, v@.len() as int) =~= v@);
    s
}

/// Appends `t`.
pub fn push_str(s: &mut String, t: &str)
    ensures
        final(s)@ == old(s)@ + t@,
{
    s.append(t);
}

// ---------------------------------------------------------------- whitespace

/// Unicode `White_Space`, as `char::is_whitespace` decides it.
pub open spec fn is_ws(c: char) -> bool {
    ||| '\t' <= c <= '\r'
    ||| c == ' '
    ||| c == '\u{85}'
    ||| c == '\u{A0}'
    ||| c == '\u{1680}'
    ||| '\u{2000}' <= c <= '\u{200A}'
    ||| c == '\u{2028}'
    ||| c == '\u{2029}'
    ||| c == '\u{202F}'
    ||| c == '\u{205F}'
    ||| c == '\u{3000}'
}

pub fn is_whitespace(c: char) -> (b: bool)
    ensures
        b == is_ws(c),
{
    ('\t' <= c && c <= '\r') || c == ' ' || c == '\u{85}' || c == '\u{A0}' || c == '\u{1680}'
        || ('\u{2000}' <= c && c <= '\u{200A}') || c == '\u{2028}' || c == '\u{2029}'
        || c == '\u{202F}' || c == '\u{205F}' || c == '\u{3000}'
}

/// `s` without its leading whitespace.
pub open spec fn trim_start(s: Seq<char>) -> Seq<char>
    decreases s.len(),
{
    if s.len() > 0 && is_ws(s[0]) {
        trim_start(s.drop_first())
    } else {
        s
    }
}

/// `s` without its trailing whitespace.
pub open spec fn trim_end(s: Seq<char>) -> Seq<char>
    decreases s.len(),
{
    if s.len() > 0 && is_ws(s.last()) {
        trim_end(s.drop_last())
    } else {
        s
    }
}

/// `s` without leading and trailing whitespace (`str::trim`).
pub open spec fn trim(s: Seq<char>) -> Seq<char> {
    trim_end(trim_start(s))
}

/// Bounds of the trimmed part of `v[lo..hi]`.
pub fn trim_bounds(v: &[char], lo: usize, hi: usize) -> (r: (usize, usize))
    requires
        lo <= hi <= v@.len(),
    ensures
        lo <= r.0 <= r.1 <= hi,
        v@.subrange(r.0 as int, r.1 as int) == trim(v@.subrange(lo as int, hi as int)),
{
    let ghost s = v@.subrange(lo as int, hi as int);
    let mut a = lo;
    while a < hi && is_whitespace(v[a])
        invariant
            lo <= a <= hi <= v@.len(),
            s == v@.subrange(lo as int, hi as int),
            trim_start(s) == trim_start(v@.subrange(a as int, hi as int)),
        decreases hi - a,
    {
        assert(v@.subrange(a as int, hi as int).drop_first() =~= v@.subrange(a + 1, hi as int));
        a = a + 1;
    }
    assert(trim_start(s) == v@.subrange(a as int, hi as int));
    let mut b = hi;
    while b > a && is_whitespace(v[b - 1])
        invariant
            lo <= a <= b <= hi <= v@.len(),
            trim(s) == trim_end(v@.subrange(a as int, b as int)),
        decreases b - a,
    {
        assert(v@.subrange(a as int, b as int).drop_last() =~= v@.subrange(a as int, b - 1));
        b = b - 1;
    }
    (a, b)
}

/// The trimmed characters of `v[lo..hi]`.
pub fn trimmed_range(v: &[char], lo: usize, hi: usize) -> (r: Vec<char>)
    requires
        lo <= hi <= v@.len(),
    ensures
        r@ == trim(v@.subrange(lo as int, hi as int)),
{
    let (a, b) = trim_bounds(v, lo, hi);
    let mut r: Vec<char> = Vec::new();
    let mut i = a;
    while i < b
        invariant
            a <= i <= b <= v@.len(),
            r@ == v@.subrange(a as int, i as int),
        decreases b - i,
    {
        r.push(v[i]);
        assert(v@.subrange(a as int, i + 1) =~= v@.subrange(a as int, i as int).push(v@[i as int]));
        i = i + 1;
    }
    r
}

/// A copy of `v`.
pub fn copy_chars(v: &[char]) -> (r: Vec<char>)
    ensures
        r@ == v@,
{
    assert(v@.subrange(0, v@.len() as int) =~= v@);
    let mut r: Vec<char> = Vec::new();
    let mut i: usize = 0;
    while i < v.len()
        invariant
            i <= v@.len(),
            r@ == v@.take(i as int),
        decreases v@.len() - i,
    {
        r.push(v[i]);
        assert(r@ =~= v@.take(i + 1));
        i = i + 1;
    }
    assert(v@.take(v@.len() as int) =~= v@);
    r
}

/// The trimmed characters of `v`.
pub fn trimmed_chars(v: &[char]) -> (r: Vec<char>)
    ensures
        r@ == trim(v@),
{
    assert(v@.subrange(0, v@.len() as int) =~= v@);
    trimmed_range(v, 0, v.len())
}

/// The trimmed characters of `s` (`str::trim`).
pub fn trimmed(s: &str) -> (r: Vec<char>)
    ensures
        r@ == trim(s@),
{
    let v = chars_of(s);
    trimmed_chars(&v)
}

// ---------------------------------------------------------------- decimal numbers

/// The decimal digit character for `d < 10`.
pub open spec fn digit_char(d: nat) -> char {
    (d + 48) as char
}

/// Decimal representation of `n` without leading zeros (as `{}` prints it).
pub open spec fn dec(n: nat) -> Seq<char>
    decreases n,
{
    if n < 10 {
        seq![digit_char(n)]
    } else {
        dec(n / 10).push(digit_char(n % 10))
    }
}

/// Decimal representation of a signed integer.
pub open spec fn sdec(n: int) -> Seq<char> {
    if n < 0 {
        seq!['-'] + dec((-n) as nat)
    } else {
        dec(n as nat)
    }
}

fn digit_of(d: u64) -> (c: char)
    requires
        d < 10,
    ensures
        c == digit_char(d as nat),
{
    let b: u8 = d as u8 + 48;
    b as char
}

/// Appends the decimal representation of `n`.
pub fn push_dec(s: &mut String, n: u64)
    ensures
        final(s)@ == old(s)@ + dec(n as nat),
    decreases n,
{
    if n >= 10 {
        push_dec(s, n / 10);
    }
    push_char(s, digit_of(n % 10));
    proof {
        if n >= 10 {
            assert(old(s)@ + dec(n as nat) =~= old(s)@ + dec((n / 10) as nat) + seq![digit_char((n % 10) as nat)]);
        }
    }
}

/// Appends the decimal representation of a signed `n`.
pub fn push_sdec(s: &mut String, n: i64)
    ensures
        final(s)@ == old(s)@ + sdec(n as int),
{
    if n < 0 {
        push_char(s, '-');
        let m: u64 = (-(n + 1)) as u64 + 1;
        push_dec(s, m);
        assert(old(s)@ + sdec(n as int) =~= old(s)@.push('-') + dec(m as nat));
    } else {
        push_dec(s, n as u64);
    }
}

/// Decimal representation of `n` as a new string.
pub fn dec_string(n: u64) -> (s: String)
    ensures
        s@ == dec(n as nat),
{
    let mut s = String::new();
    push_dec(&mut s, n);
    assert(Seq::<char>::empty() + dec(n as nat) =~= dec(n as nat));
    s
}

pub open spec fn is_digit(c: char) -> bool {
    '0' <= c <= '9'
}

pub open spec fn all_digits(s: Seq<char>) -> bool {
    forall|i: int| 0 <= i < s.len() ==> #[trigger] is_digit(s[i])
}

/// Value of a string of decimal digits.
pub open spec fn digits_value(s: Seq<char>) -> nat
    decreases s.len(),
{
    if s.len() == 0 {
        0
    } else {
        digits_value(s.drop_last()) * 10 + (s.last() as nat - 48) as nat
    }
}

/// The digit part of an unsigned number: one leading `+` is allowed.
pub open spec fn unsigned_body(s: Seq<char>) -> Seq<char> {
    if s.len() > 0 && s[0] == '+' {
        s.drop_first()
    } else {
        s
    }
}

/// What `str::parse` gives for an unsigned integer type whose largest value is `max`:
/// an optional `+`, then at least one decimal digit and nothing else, with a value
/// that fits.
pub open spec fn parse_unsigned(s: Seq<char>, max: nat) -> Option<nat> {
    let d = unsigned_body(s);
    if d.len() > 0 && all_digits(d) && digits_value(d) <= max {
        Some(digits_value(d))
    } else {
        None
    }
}

/// What `str::parse` gives for a signed integer type with range `min..=max`:
/// an optional sign, then at least one decimal digit and nothing else.
pub open spec fn parse_signed(s: Seq<char>, min: int, max: int) -> Option<int> {
    if s.len() > 0 && s[0] == '-' {
        let d = s.drop_first();
        if d.len() > 0 && all_digits(d) && min <= -(digits_value(d) as int) {
            Some(-(digits_value(d) as int))
        } else {
            None
        }
    } else {
        match parse_unsigned(s, max as nat) {
            Some(v) => if max >= 0 { Some(v as int) } else { None },
            None => None,
        }
    }
}

proof fn lemma_digits_value_take(s: Seq<char>, k: int)
    requires
        0 <= k < s.len(),
    ensures
        digits_value(s.take(k + 1)) == digits_value(s.take(k)) * 10 + (s[k] as nat - 48) as nat,
{
    assert(s.take(k + 1).drop_last() =~= s.take(k));
}

/// Parses the digits `v[lo..hi]` as a decimal number no larger than `max`.
fn digits_bounded(v: &[char], lo: usize, hi: usize, max: u64) -> (r: Option<u64>)
    requires
        lo <= hi <= v@.len(),
    ensures
        ({
            let d = v@.subrange(lo as int, hi as int);
            match r {
                Some(x) => all_digits(d) && digits_value(d) <= max && x == digits_value(d),
                None => !all_digits(d) || digits_value(d) > max,
            }
        }),
{
    let ghost d = v@.subrange(lo as int, hi as int);
    let mut acc: u64 = 0;
    let mut over = false;
    let mut i = lo;
    while i < hi
        invariant
            lo <= i <= hi <= v@.len(),
            d == v@.subrange(lo as int, hi as int),
            all_digits(d.take(i - lo)),
            !over ==> acc == digits_value(d.take(i - lo)) && acc <= max,
            over ==> digits_value(d.take(i - lo)) > max,
        decreases hi - i,
    {
        let c = v[i];
        if !('0' <= c && c <= '9') {
            assert(!is_digit(d[i - lo]));
            return None;
        }
        let dg: u64 = (c as u32 - 48) as u64;
        proof {
            lemma_digits_value_take(d, i - lo);
            assert(d[i - lo] == c);
        }
        if !over {
            if acc > max / 10 || (acc == max / 10 && dg > max % 10) {
                over = true;
                assert(acc * 10 + dg > max) by (nonlinear_arith)
                    requires
                        acc > max / 10 || (acc == max / 10 && dg > max % 10),
                ;
            } else {
                let q = max / 10;
                let rm = max % 10;
                assert(max == q * 10 + rm) by (nonlinear_arith)
                    requires q == max / 10, rm == max % 10;
                assert(acc * 10 + dg <= max) by (nonlinear_arith)
                    requires
                        max == q * 10 + rm,
                        dg < 10,
                        acc <= q,
                        acc == q ==> dg <= rm,
                        q == max / 10, rm == max % 10,
                        acc == max / 10 ==> dg <= max % 10,
                ;
                acc = acc * 10 + dg;
            }
        } else {
            assert(digits_value(d.take(i - lo)) * 10 + dg > max) by (nonlinear_arith)
                requires
                    digits_value(d.take(i - lo)) > max,
            ;
        }
        assert forall|j: int| 0 <= j < i + 1 - lo implies #[trigger] is_digit(d.take(i + 1 - lo)[j]) by {
            if j < i - lo {
                assert(d.take(i + 1 - lo)[j] == d.take(i - lo)[j]);
            }
        }
        i = i + 1;
    }
    assert(d.take(hi - lo) =~= d);
    if over {
        None
    } else {
        Some(acc)
    }
}

/// `str::parse` for an unsigned type with largest value `max`, on `v[lo..hi]`.
pub fn parse_uint(v: &[char], lo: usize, hi: usize, max: u64) -> (r: Option<u64>)
    requires
        lo <= hi <= v@.len(),
    ensures
        match parse_unsigned(v@.subrange(lo as int, hi as int), max as nat) {
            Some(x) => r == Some(x as u64),
            None => r is None,
        },
{
    let ghost s = v@.subrange(lo as int, hi as int);
    let mut a = lo;
    if lo < hi && v[lo] == '+' {
        a = lo + 1;
        assert(s.drop_first() =~= v@.subrange(a as int, hi as int));
    }
    assert(unsigned_body(s) =~= v@.subrange(a as int, hi as int));
    if a == hi {
        return None;
    }
    digits_bounded(v, a, hi, max)
}

/// `str::parse::<i64>` on `v[lo..hi]`.
pub fn parse_i64(v: &[char], lo: usize, hi: usize) -> (r: Option<i64>)
    requires
        lo <= hi <= v@.len(),
    ensures
        match parse_signed(v@.subrange(lo as int, hi as int), i64::MIN as int, i64::MAX as int) {
            Some(x) => r == Some(x as i64),
            None => r is None,
        },
{
    let ghost s = v@.subrange(lo as int, hi as int);
    if lo < hi && v[lo] == '-' {
        assert(s.drop_first() =~= v@.subrange(lo + 1, hi as int));
        if lo + 1 == hi {
            return None;
        }
        match digits_bounded(v, lo + 1, hi, 0x8000_0000_0000_0000u64) {
            Some(m) => {
                if m == 0x8000_0000_0000_0000u64 {
                    Some(i64::MIN)
                } else {
                    Some(-(m as i64))
                }
            },
            None => None,
        }
    } else {
        match parse_uint(v, lo, hi, i64::MAX as u64) {
            Some(x) => Some(x as i64),
            None => None,
        }
    }
}


// ---------------------------------------------------------------- splitting and searching

/// The pieces of `s` between occurrences of `sep` (`str::split` with a `char`).
pub open spec fn split_on(s: Seq<char>, sep: char) -> Seq<Seq<char>>
    decreases s.len(),
{
    if s.len() == 0 {
        seq![Seq::<char>::empty()]
    } else {
        let r = split_on(s.drop_last(), sep);
        if s.last() == sep {
            r.push(Seq::<char>::empty())
        } else {
            r.update(r.len() - 1, r.last().push(s.last()))
        }
    }
}

pub proof fn lemma_split_on_nonempty(s: Seq<char>, sep: char)
    ensures
        split_on(s, sep).len() >= 1,
    decreases s.len(),
{
    if s.len() > 0 {
        lemma_split_on_nonempty(s.drop_last(), sep);
    }
}

/// The substrings of `v` that a list of bounds designates.
pub open spec fn pieces(v: Seq<char>, rs: Seq<(usize, usize)>) -> Seq<Seq<char>> {
    Seq::new(rs.len(), |k: int| v.subrange(rs[k].0 as int, rs[k].1 as int))
}

pub open spec fn bounds_within(rs: Seq<(usize, usize)>, lo: int, hi: int) -> bool {
    forall|k: int| 0 <= k < rs.len() ==> lo <= #[trigger] rs[k].0 <= rs[k].1 <= hi
}

/// Bounds of the pieces of `v[lo..hi]` between occurrences of `sep`.
pub fn split_bounds(v: &[char], lo: usize, hi: usize, sep: char) -> (rs: Vec<(usize, usize)>)
    requires
        lo <= hi <= v@.len(),
    ensures
        bounds_within(rs@, lo as int, hi as int),
        pieces(v@, rs@) == split_on(v@.subrange(lo as int, hi as int), sep),
{
    let mut rs: Vec<(usize, usize)> = Vec::new();
    let mut start = lo;
    let mut i = lo;
    assert(v@.subrange(lo as int, lo as int) =~= Seq::<char>::empty());
    assert(pieces(v@, rs@).push(v@.subrange(lo as int, lo as int)) =~= split_on(
        v@.subrange(lo as int, lo as int),
        sep,
    ));
    while i < hi
        invariant
            lo <= start <= i <= hi <= v@.len(),
            bounds_within(rs@, lo as int, start as int),
            pieces(v@, rs@).push(v@.subrange(start as int, i as int)) == split_on(
                v@.subrange(lo as int, i as int),
                sep,
            ),
        decreases hi - i,
    {
        let ghost prev = v@.subrange(lo as int, i as int);
        let ghost r = split_on(prev, sep);
        proof {
            lemma_split_on_nonempty(prev, sep);
            assert(v@.subrange(lo as int, i + 1).drop_last() =~= prev);
            assert(v@.subrange(lo as int, i + 1).last() == v@[i as int]);
        }
        if v[i] == sep {
            rs.push((start, i));
            start = i + 1;
            assert(pieces(v@, rs@) =~= r);
            assert(v@.subrange(start as int, i + 1) =~= Seq::<char>::empty());
            assert(pieces(v@, rs@).push(v@.subrange(start as int, i + 1)) =~= r.push(Seq::<char>::empty()));
        } else {
            assert(v@.subrange(start as int, i + 1) =~= v@.subrange(start as int, i as int).push(v@[i as int]));
            assert(pieces(v@, rs@).push(v@.subrange(start as int, i + 1)) =~= r.update(
                r.len() - 1,
                r.last().push(v@[i as int]),
            ));
        }
        i = i + 1;
    }
    rs.push((start, hi));
    assert(pieces(v@, rs@) =~= split_on(v@.subrange(lo as int, hi as int), sep));
    rs
}

/// `p` occurs in `s` at index `i`.
pub open spec fn match_at(s: Seq<char>, p: Seq<char>, i: int) -> bool {
    0 <= i && i + p.len() <= s.len() && s.subrange(i, i + p.len()) == p
}

/// First index at or after `from` where `p` occurs in `s` (`str::find`).
pub open spec fn find_from(s: Seq<char>, p: Seq<char>, from: int) -> Option<int>
    decreases s.len() + 1 - from,
{
    if from < 0 || from + p.len() > s.len() {
        None
    } else if match_at(s, p, from) {
        Some(from)
    } else {
        find_from(s, p, from + 1)
    }
}

pub open spec fn opt_int(r: Option<usize>) -> Option<int> {
    match r {
        Some(x) => Some(x as int),
        None => None,
    }
}

pub proof fn lemma_find_from_bounds(s: Seq<char>, p: Seq<char>, from: int)
    requires
        from >= 0,
    ensures
        find_from(s, p, from) matches Some(i) ==> from <= i && match_at(s, p, i)
            && forall|j: int| from <= j < i ==> !match_at(s, p, j),
        find_from(s, p, from) is None ==> forall|j: int| from <= j ==> !match_at(s, p, j),
    decreases s.len() + 1 - from,
{
    if from < 0 || from + p.len() > s.len() {
        assert forall|j: int| from <= j implies !match_at(s, p, j) by {}
    } else if match_at(s, p, from) {
    } else {
        lemma_find_from_bounds(s, p, from + 1);
    }
}

/// Whether `p` occurs in `v[lo..hi]` at offset `i`.
fn matches_at(v: &[char], lo: usize, hi: usize, p: &[char], i: usize) -> (b: bool)
    requires
        lo <= hi <= v@.len(),
    ensures
        b == match_at(v@.subrange(lo as int, hi as int), p@, i as int),
{
    let ghost s = v@.subrange(lo as int, hi as int);
    if i > hi - lo || p.len() > hi - lo - i {
        return false;
    }
    let mut j: usize = 0;
    while j < p.len()
        invariant
            lo <= hi <= v@.len(),
            s == v@.subrange(lo as int, hi as int),
            i + p@.len() <= hi - lo,
            j <= p@.len(),
            forall|k: int| 0 <= k < j ==> s[i + k] == p@[k],
        decreases p@.len() - j,
    {
        if v[lo + i + j] != p[j] {
            assert(s.subrange(i as int, i + p@.len())[j as int] != p@[j as int]);
            return false;
        }
        j = j + 1;
    }
    assert(s.subrange(i as int, i + p@.len()) =~= p@);
    true
}

/// First offset at or after `from` where `p` occurs in `v[lo..hi]`.
pub fn find_in(v: &[char], lo: usize, hi: usize, p: &[char], from: usize) -> (r: Option<usize>)
    requires
        lo <= hi <= v@.len(),
    ensures
        opt_int(r) == find_from(v@.subrange(lo as int, hi as int), p@, from as int),
        r matches Some(i) ==> i + p@.len() <= hi - lo,
{
    let ghost s = v@.subrange(lo as int, hi as int);
    let n = hi - lo;
    if from > n || p.len() > n - from {
        return None;
    }
    let last = n - p.len();
    let mut i = from;
    loop
        invariant
            lo <= hi <= v@.len(),
            n == hi - lo,
            s == v@.subrange(lo as int, hi as int),
            from <= i <= last,
            last + p@.len() == n,
            find_from(s, p@, from as int) == find_from(s, p@, i as int),
        decreases last - i,
    {
        if matches_at(v, lo, hi, p, i) {
            return Some(i);
        }
        if i == last {
            assert(find_from(s, p@, i + 1) is None);
            return None;
        }
        i = i + 1;
    }
}

/// First offset at or after `from` where the character `c` occurs in `v[lo..hi]`.
pub fn find_char_in(v: &[char], lo: usize, hi: usize, c: char, from: usize) -> (r: Option<usize>)
    requires
        lo <= hi <= v@.len(),
    ensures
        opt_int(r) == find_from(v@.subrange(lo as int, hi as int), seq![c], from as int),
        r matches Some(i) ==> i < hi - lo,
{
    let p = vec![c];
    assert(p@ =~= seq![c]);
    find_in(v, lo, hi, &p, from)
}

/// A line without the carriage return that precedes its newline.
pub open spec fn strip_cr(l: Seq<char>) -> Seq<char> {
    if l.len() > 0 && l.last() == '\r' {
        l.drop_last()
    } else {
        l
    }
}

/// The lines of `s` as `str::lines` yields them: split at `\n`, a `\r` right before a
/// `\n` removed, and no empty line after a final `\n`.
pub open spec fn lines_of(s: Seq<char>) -> Seq<Seq<char>> {
    let parts = split_on(s, '\n');
    let n = parts.len() - 1;
    let ended = Seq::new(n as nat, |k: int| strip_cr(parts[k]));
    if parts[n].len() == 0 {
        ended
    } else {
        ended.push(parts[n])
    }
}

/// Bounds of the lines of `v`.
pub fn line_bounds(v: &[char]) -> (rs: Vec<(usize, usize)>)
    ensures
        bounds_within(rs@, 0, v@.len() as int),
        pieces(v@, rs@) == lines_of(v@),
{
    let parts = split_bounds(v, 0, v.len(), '\n');
    let ghost ps = split_on(v@, '\n');
    proof {
        assert(v@.subrange(0, v@.len() as int) =~= v@);
        lemma_split_on_nonempty(v@, '\n');
    }
    let n = parts.len() - 1;
    let mut rs: Vec<(usize, usize)> = Vec::new();
    let mut k: usize = 0;
    while k < n
        invariant
            n + 1 == parts@.len(),
            parts@.len() == ps.len(),
            pieces(v@, parts@) == ps,
            bounds_within(parts@, 0, v@.len() as int),
            k <= n,
            rs@.len() == k,
            bounds_within(rs@, 0, v@.len() as int),
            forall|j: int| 0 <= j < k ==> pieces(v@, rs@)[j] == strip_cr(#[trigger] ps[j]),
        decreases n - k,
    {
        let (a, b) = parts[k];
        assert(pieces(v@, parts@)[k as int] == v@.subrange(a as int, b as int));
        if b > a && v[b - 1] == '\r' {
            assert(v@.subrange(a as int, b as int).drop_last() =~= v@.subrange(a as int, b - 1));
            rs.push((a, b - 1));
        } else {
            rs.push((a, b));
        }
        assert(pieces(v@, rs@)[k as int] == strip_cr(ps[k as int]));
        k = k + 1;
    }
    let (a, b) = parts[n];
    assert(pieces(v@, parts@)[n as int] == v@.subrange(a as int, b as int));
    if a < b {
        rs.push((a, b));
    }
    assert(pieces(v@, rs@) =~= lines_of(v@));
    rs
}


// ---------------------------------------------------------------- UTF-8 sizes

/// Number of bytes of the UTF-8 encoding of `s` (what `str::len` counts).
pub open spec fn utf8_len(s: Seq<char>) -> nat {
    encode_utf8(s).len()
}

/// Number of UTF-8 bytes of one character.
pub open spec fn char_width(c: char) -> nat {
    encode_scalar(c as u32).len()
}

pub proof fn lemma_utf8_len_push(s: Seq<char>, c: char)
    ensures
        utf8_len(s.push(c)) == utf8_len(s) + char_width(c),
    decreases s.len(),
{
    if s.len() == 0 {
        assert(s.push(c).drop_first() =~= Seq::<char>::empty());
        assert(encode_utf8(Seq::<char>::empty()) =~= Seq::<u8>::empty());
    } else {
        lemma_utf8_len_push(s.drop_first(), c);
        assert(s.push(c).drop_first() =~= s.drop_first().push(c));
    }
}

/// Bytes that `c` takes in UTF-8.
pub fn width_of(c: char) -> (w: usize)
    ensures
        w == char_width(c),
        1 <= w <= 4,
{
    let v = c as u32;
    if v <= 0x7F {
        1
    } else if v <= 0x7FF {
        2
    } else if v <= 0xFFFF {
        3
    } else {
        4
    }
}

/// The longest prefix of `s` whose UTF-8 encoding has at most `max` bytes (a prefix
/// cut back to a character boundary).
pub open spec fn head_spec(s: Seq<char>, max: nat) -> Seq<char>
    decreases s.len(),
{
    if utf8_len(s) <= max || s.len() == 0 {
        s
    } else {
        head_spec(s.drop_last(), max)
    }
}

/// A byte-limited head is a whole-character prefix within the limit: it never cuts a
/// character.
pub proof fn lemma_head_is_prefix(s: Seq<char>, max: nat)
    ensures
        exists|k: int| 0 <= k <= s.len() && head_spec(s, max) == s.take(k),
        utf8_len(head_spec(s, max)) <= max,
        utf8_len(s) <= max ==> head_spec(s, max) == s,
    decreases s.len(),
{
    if utf8_len(s) <= max || s.len() == 0 {
        assert(s.take(s.len() as int) =~= s);
        if s.len() == 0 {
            assert(utf8_len(s) == 0);
        }
    } else {
        lemma_head_is_prefix(s.drop_last(), max);
        let k = choose|k: int| 0 <= k <= s.drop_last().len() && head_spec(s.drop_last(), max) == s.drop_last().take(k);
        assert(s.drop_last().take(k) =~= s.take(k));
    }
}

/// Bytes of the first `k` characters are at most the bytes of the first `m >= k`.
pub proof fn lemma_utf8_len_take_mono(s: Seq<char>, k: int, m: int)
    requires
        0 <= k <= m <= s.len(),
    ensures
        utf8_len(s.take(k)) <= utf8_len(s.take(m)),
    decreases m - k,
{
    if k < m {
        lemma_utf8_len_take_mono(s, k, m - 1);
        lemma_utf8_len_push(s.take(m - 1), s[m - 1]);
        assert(s.take(m - 1).push(s[m - 1]) =~= s.take(m));
    }
}

proof fn lemma_head_take(s: Seq<char>, max: nat, m: int)
    requires
        0 <= m <= s.len(),
        forall|k: int| m < k <= s.len() ==> utf8_len(#[trigger] s.take(k)) > max,
    ensures
        head_spec(s, max) == head_spec(s.take(m), max),
    decreases s.len() - m,
{
    if m < s.len() {
        assert(utf8_len(s.take(s.len() as int)) > max);
        assert(s.take(s.len() as int) =~= s);
        assert(s.drop_last() =~= s.take(s.len() - 1));
        assert forall|k: int| m < k <= s.drop_last().len() implies utf8_len(#[trigger] s.drop_last().take(k)) > max by {
            assert(s.drop_last().take(k) =~= s.take(k));
        }
        lemma_head_take(s.drop_last(), max, m);
        assert(s.drop_last().take(m) =~= s.take(m));
    } else {
        assert(s.take(m) =~= s);
    }
}

/// Number of leading characters of `v` that `head_spec` keeps.
#[verifier::loop_isolation(false)]
pub fn head_count(v: &[char], max: usize) -> (n: usize)
    ensures
        n <= v@.len(),
        v@.take(n as int) == head_spec(v@, max as nat),
{
    // longest prefix within the byte limit
    let mut n: usize = 0;
    let mut bytes: usize = 0;
    while n < v.len()
        invariant
            n <= v@.len(),
            bytes == utf8_len(v@.take(n as int)),
            bytes <= max,
        decreases v@.len() - n,
    {
        let w = width_of(v[n]);
        proof {
            lemma_utf8_len_push(v@.take(n as int), v@[n as int]);
            assert(v@.take(n as int).push(v@[n as int]) =~= v@.take(n + 1));
        }
        if w > max - bytes {
            break;
        }
        bytes = bytes + w;
        n = n + 1;
    }
    proof {
        if n < v@.len() {
            assert(utf8_len(v@.take(n + 1)) > max);
            assert forall|k: int| n < k <= v@.len() implies utf8_len(#[trigger] v@.take(k)) > max by {
                lemma_utf8_len_take_mono(v@, n + 1, k);
            }
            lemma_head_take(v@, max as nat, n as int);
        } else {
            assert(v@.take(n as int) =~= v@);
        }
        // the kept prefix fits
        assert(head_spec(v@.take(n as int), max as nat) == v@.take(n as int));
    }
    n
}

/// Offset of the first character of `v[lo..hi]` that is not whitespace (or `hi - lo`).
pub fn trim_start_count(v: &[char], lo: usize, hi: usize) -> (a: usize)
    requires
        lo <= hi <= v@.len(),
    ensures
        lo <= a <= hi,
        v@.subrange(a as int, hi as int) == trim_start(v@.subrange(lo as int, hi as int)),
{
    let mut a = lo;
    while a < hi && is_whitespace(v[a])
        invariant
            lo <= a <= hi <= v@.len(),
            trim_start(v@.subrange(lo as int, hi as int)) == trim_start(v@.subrange(a as int, hi as int)),
        decreases hi - a,
    {
        assert(v@.subrange(a as int, hi as int).drop_first() =~= v@.subrange(a + 1, hi as int));
        a = a + 1;
    }
    a
}

} // verus!
