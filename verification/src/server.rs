//! The local web page's request handling: request-line parsing, query decoding,
//! JSON string escaping, responses and routing.
use vstd::prelude::*;
use crate::fetch::{build_csv, build_csv_spec, join_comma};
use crate::game_spec::{is_game_table, real_data_games, spec_field_count, GameSpec};
use crate::realdata::{
    first_from, lemma_first_is, lemma_first_is_from, lemma_first_none, lemma_first_none_from, lemma_table_wf, parse_lines, parse_lines_spec,
    records_view, spec_wf, DrawRecord,
};
use vstd::string::StringExecFns;
use vstd::utf8::{decode_utf8, encode_scalar, encode_utf8, valid_utf8};
use vstd::slice::slice_to_vec;
use crate::text::{
    bounds_within, split_bounds, split_on, dec, push_dec, utf8_len, opt_int, trim, trim_bounds,
    parse_uint, parse_unsigned,
    chars_of, find_char_in, find_from, is_whitespace, is_ws, line_bounds, lines_of, pieces,
    push_char, push_str, string_of_range,
};

verus! {

/// A hexadecimal digit character (lower case) for `d < 16`.
pub open spec fn hex_lower(d: nat) -> char {
    if d < 10 {
        (d + 48) as char
    } else {
        (d + 87) as char
    }
}

/// How one character is written inside a JSON string literal.
pub open spec fn esc_char(c: char) -> Seq<char> {
    if c == '"' {
        seq!['\\', '"']
    } else if c == '\\' {
        seq!['\\', '\\']
    } else if c == '\n' {
        seq!['\\', 'n']
    } else if c == '\r' {
        seq!['\\', 'r']
    } else if c == '\t' {
        seq!['\\', 't']
    } else if (c as u32) < 0x20 {
        seq!['\\', 'u', '0', '0', hex_lower((c as u32 / 16) as nat), hex_lower((c as u32 % 16) as nat)]
    } else {
        seq![c]
    }
}

/// `s` escaped for use inside a JSON string literal.
pub open spec fn jesc_spec(s: Seq<char>) -> Seq<char>
    decreases s.len(),
{
    if s.len() == 0 {
        Seq::empty()
    } else {
        jesc_spec(s.drop_last()) + esc_char(s.last())
    }
}

/// An escaped text holds no control character, so it can stand on one line inside a
/// JSON string; and escaping adds characters only, never drops one.
pub proof fn lemma_jesc_no_controls(s: Seq<char>)
    ensures
        forall|i: int| 0 <= i < jesc_spec(s).len() ==> (#[trigger] jesc_spec(s)[i]) as u32 >= 0x20,
        jesc_spec(s).len() >= s.len(),
    decreases s.len(),
{
    if s.len() > 0 {
        lemma_jesc_no_controls(s.drop_last());
        let a = jesc_spec(s.drop_last());
        let c = s.last();
        let e = esc_char(c);
        assert forall|i: int| 0 <= i < e.len() implies (#[trigger] e[i]) as u32 >= 0x20 by {
            if (c as u32) < 0x20 && c != '\n' && c != '\r' && c != '\t' && c != '"' && c != '\\' {
                let h1 = hex_lower((c as u32 / 16) as nat);
                let h2 = hex_lower((c as u32 % 16) as nat);
                assert(h1 as u32 >= 0x20);
                assert(h2 as u32 >= 0x20);
            }
        }
        assert forall|i: int| 0 <= i < jesc_spec(s).len() implies (#[trigger] jesc_spec(s)[i]) as u32 >= 0x20 by {
            if i < a.len() {
                assert(jesc_spec(s)[i] == a[i]);
            } else {
                assert(jesc_spec(s)[i] == e[i - a.len()]);
            }
        }
    }
}

fn hex_digit(d: u32) -> (c: char)
    requires
        d < 16,
    ensures
        c == hex_lower(d as nat),
{
    if d < 10 {
        let b: u8 = d as u8 + 48;
        b as char
    } else {
        let b: u8 = d as u8 + 87;
        b as char
    }
}

/// Escapes quotes, backslashes and control characters for a JSON string.
pub fn jesc(s: &str) -> (r: String)
    ensures
        r@ == jesc_spec(s@),
{
    let v = chars_of(s);
    let mut o = String::new();
    let mut i: usize = 0;
    while i < v.len()
        invariant
            i <= v@.len(),
            o@ == jesc_spec(v@.take(i as int)),
        decreases v@.len() - i,
    {
        let c = v[i];
        let ghost before = o@;
        if c == '"' {
            push_char(&mut o, '\\');
            push_char(&mut o, '"');
        } else if c == '\\' {
            push_char(&mut o, '\\');
            push_char(&mut o, '\\');
        } else if c == '\n' {
            push_char(&mut o, '\\');
            push_char(&mut o, 'n');
        } else if c == '\r' {
            push_char(&mut o, '\\');
            push_char(&mut o, 'r');
        } else if c == '\t' {
            push_char(&mut o, '\\');
            push_char(&mut o, 't');
        } else if (c as u32) < 0x20 {
            push_char(&mut o, '\\');
            push_char(&mut o, 'u');
            push_char(&mut o, '0');
            push_char(&mut o, '0');
            push_char(&mut o, hex_digit(c as u32 / 16));
            push_char(&mut o, hex_digit(c as u32 % 16));
        } else {
            push_char(&mut o, c);
        }
        proof {
            assert(v@.take(i + 1).drop_last() =~= v@.take(i as int));
            assert(o@ =~= before + esc_char(c));
        }
        i = i + 1;
    }
    assert(v@.take(v@.len() as int) =~= v@);
    o
}

/// An HTTP request as the handler sees it.
pub struct Request {
    pub method: String,
    pub path: String,
    pub query: String,
    pub body: String,
}

pub struct RequestView {
    pub method: Seq<char>,
    pub path: Seq<char>,
    pub query: Seq<char>,
    pub body: Seq<char>,
}

impl View for Request {
    type V = RequestView;

    open spec fn view(&self) -> RequestView {
        RequestView { method: self.method@, path: self.path@, query: self.query@, body: self.body@ }
    }
}

pub open spec fn not_ws_at(s: Seq<char>) -> spec_fn(int) -> bool {
    |j: int| !is_ws(s[j])
}

pub open spec fn ws_at(s: Seq<char>) -> spec_fn(int) -> bool {
    |j: int| is_ws(s[j])
}

/// Bounds of the first whitespace-separated token at or after `i`
/// (what `split_whitespace` yields next).
pub open spec fn next_token(s: Seq<char>, i: int) -> Option<(int, int)> {
    match first_from(s.len() as int, not_ws_at(s), i) {
        None => None,
        Some(a) => Some(
            (
                a,
                match first_from(s.len() as int, ws_at(s), a) {
                    Some(b) => b,
                    None => s.len() as int,
                },
            ),
        ),
    }
}

/// The request line: method, then target split at its first `?` into path and query;
/// `None` when the head has no line or the line has fewer than two tokens.
pub open spec fn request_spec(head: Seq<char>, body: Seq<char>) -> Option<RequestView> {
    let ls = lines_of(head);
    if ls.len() == 0 {
        None
    } else {
        let first = ls[0];
        match next_token(first, 0) {
            None => None,
            Some((a, b)) => match next_token(first, b) {
                None => None,
                Some((c, d)) => {
                    let target = first.subrange(c, d);
                    Some(
                        match find_from(target, seq!['?'], 0) {
                            Some(q) => RequestView {
                                method: first.subrange(a, b),
                                path: target.take(q),
                                query: target.skip(q + 1),
                                body,
                            },
                            None => RequestView {
                                method: first.subrange(a, b),
                                path: target,
                                query: Seq::empty(),
                                body,
                            },
                        },
                    )
                },
            },
        }
    }
}

/// Bounds of the next token of `v[lo..hi]` at or after offset `i`.
#[verifier::loop_isolation(false)]
fn token_after(v: &[char], lo: usize, hi: usize, i: usize) -> (r: Option<(usize, usize)>)
    requires
        lo <= hi <= v@.len(),
        i <= hi - lo,
    ensures
        match next_token(v@.subrange(lo as int, hi as int), i as int) {
            None => r is None,
            Some((a, b)) => r matches Some((x, y)) && x == a && y == b && i <= a <= b <= hi - lo,
        },
{
    let ghost s = v@.subrange(lo as int, hi as int);
    let n = hi - lo;
    let mut a = i;
    while a < n && is_whitespace(v[lo + a])
        invariant
            i <= a <= n,
            forall|j: int| i <= j < a ==> !#[trigger] not_ws_at(s)(j),
        decreases n - a,
    {
        a = a + 1;
    }
    proof {
        crate::realdata::lemma_first_from(n as int, not_ws_at(s), i as int);
    }
    if a == n {
        proof {
            assert forall|j: int| i <= j < n implies !#[trigger] not_ws_at(s)(j) by {}
            lemma_first_none_from(n as int, not_ws_at(s), i as int);
        }
        return None;
    }
    let mut b = a;
    while b < n && !is_whitespace(v[lo + b])
        invariant
            a <= b <= n,
            forall|j: int| a <= j < b ==> !#[trigger] ws_at(s)(j),
        decreases n - b,
    {
        b = b + 1;
    }
    proof {
        lemma_first_is_from(n as int, not_ws_at(s), i as int, a as int);
        if b < n {
            lemma_first_is_from(n as int, ws_at(s), a as int, b as int);
        } else {
            lemma_first_none_from(n as int, ws_at(s), a as int);
        }
    }
    Some((a, b))
}

/// Reads method, path and query from the request head's first line; the body is kept
/// as given. `None` when the first line has fewer than two tokens.
pub fn parse_request(head: &str, body: &str) -> (r: Option<Request>)
    ensures
        match request_spec(head@, body@) {
            Some(rv) => r matches Some(q) && q@ == rv,
            None => r is None,
        },
{
    let v = chars_of(head);
    let ls = line_bounds(&v);
    if ls.len() == 0 {
        return None;
    }
    let (lo, hi) = ls[0];
    assert(pieces(v@, ls@)[0] == v@.subrange(lo as int, hi as int));
    let ghost first = v@.subrange(lo as int, hi as int);
    let (a, b) = match token_after(&v, lo, hi, 0) {
        None => return None,
        Some(t) => t,
    };
    let (c, d) = match token_after(&v, lo, hi, b) {
        None => return None,
        Some(t) => t,
    };
    let method = string_of_range(&v, lo + a, lo + b);
    assert(v@.subrange(lo + a, lo + b) =~= first.subrange(a as int, b as int));
    let ghost target = first.subrange(c as int, d as int);
    assert(v@.subrange(lo + c, lo + d) =~= target);
    let mut bs = String::new();
    push_str(&mut bs, body);
    assert(bs@ =~= body@);
    match find_char_in(&v, lo + c, lo + d, '?', 0) {
        Some(q) => {
            let path = string_of_range(&v, lo + c, lo + c + q);
            let query = string_of_range(&v, lo + c + q + 1, lo + d);
            assert(v@.subrange(lo + c, lo + c + q) =~= target.take(q as int));
            assert(v@.subrange(lo + c + q + 1, lo + d) =~= target.skip(q + 1));
            Some(Request { method, path, query, body: bs })
        },
        None => {
            let path = string_of_range(&v, lo + c, lo + d);
            Some(Request { method, path, query: String::new(), body: bs })
        },
    }
}


/// What `char::to_digit(16)` gives for the character of a byte.
pub open spec fn hex_val(b: u8) -> Option<nat> {
    if 48 <= b <= 57 {
        Some((b - 48) as nat)
    } else if 97 <= b <= 102 {
        Some((b - 87) as nat)
    } else if 65 <= b <= 70 {
        Some((b - 55) as nat)
    } else {
        None
    }
}

fn hex_value(b: u8) -> (r: Option<u32>)
    ensures
        match hex_val(b) {
            Some(x) => r == Some(x as u32),
            None => r is None,
        },
{
    if 48 <= b && b <= 57 {
        Some((b - 48) as u32)
    } else if 97 <= b && b <= 102 {
        Some((b - 87) as u32)
    } else if 65 <= b && b <= 70 {
        Some((b - 55) as u32)
    } else {
        None
    }
}

/// Percent-decoding of bytes, left to right: `+` becomes a space; a `%` followed by two
/// hex digits becomes the byte they spell; any other byte is kept.
pub open spec fn url_bytes(b: Seq<u8>) -> Seq<u8>
    decreases b.len(),
{
    if b.len() == 0 {
        Seq::empty()
    } else if b[0] == 43 {
        seq![32u8] + url_bytes(b.drop_first())
    } else if b[0] == 37 && 2 < b.len() && hex_val(b[1]) is Some && hex_val(b[2]) is Some {
        seq![(hex_val(b[1])->Some_0 * 16 + hex_val(b[2])->Some_0) as u8] + url_bytes(b.skip(3))
    } else {
        seq![b[0]] + url_bytes(b.drop_first())
    }
}

/// The text `String::from_utf8_lossy` makes of a byte sequence.
pub uninterp spec fn utf8_lossy(b: Seq<u8>) -> Seq<char>;

/// std `String::from_utf8_lossy` (then `to_string`): the bytes decoded as UTF-8, each
/// invalid sequence replaced by U+FFFD. Stated: the result is `utf8_lossy` of the
/// bytes, valid UTF-8 decodes to exactly its characters, and a single byte at or above
/// 0x80 (never valid alone) becomes one U+FFFD. Which replacement characters a longer
/// invalid input gets is not stated.
#[verifier::external_body]
fn lossy_string(b: &[u8]) -> (r: String)
    ensures
        r@ == utf8_lossy(b@),
        valid_utf8(b@) ==> r@ == decode_utf8(b@),
        b@.len() == 1 && b@[0] >= 0x80 ==> r@ == seq!['\u{FFFD}'],
{
    String::from_utf8_lossy(b).to_string()
}

/// `url_decode` of a text: its UTF-8 bytes percent-decoded, then read back lossily:
/// valid UTF-8 gives exactly its characters, a lone byte at or above 0x80 gives one
/// U+FFFD, and other invalid bytes give `utf8_lossy` of them.
pub open spec fn url_decode_spec(s: Seq<char>) -> Seq<char> {
    let b = url_bytes(encode_utf8(s));
    if valid_utf8(b) {
        decode_utf8(b)
    } else if b.len() == 1 && b[0] >= 0x80 {
        seq!['\u{FFFD}']
    } else {
        utf8_lossy(b)
    }
}

/// Decodes `+` and `%XX` escapes of a query value.
pub fn url_decode(s: &str) -> (r: String)
    ensures
        r@ == url_decode_spec(s@),
{
    let b = s.as_bytes();
    let n = b.len();
    let mut out: Vec<u8> = Vec::new();
    let mut i: usize = 0;
    assert(b@.skip(0) =~= b@);
    while i < n
        invariant
            n == b@.len(),
            i <= n,
            url_bytes(b@) == out@ + url_bytes(b@.skip(i as int)),
        decreases n - i,
    {
        let ghost rest = b@.skip(i as int);
        let ghost before = out@;
        let c = b[i];
        if c == 43 {
            out.push(32);
            assert(rest.drop_first() =~= b@.skip(i + 1));
            assert(out@ + url_bytes(b@.skip(i + 1)) =~= before + url_bytes(rest));
            i = i + 1;
        } else if c == 37 && n - i > 2 {
            match (hex_value(b[i + 1]), hex_value(b[i + 2])) {
                (Some(x), Some(y)) => {
                    out.push((x * 16 + y) as u8);
                    assert(rest.skip(3) =~= b@.skip(i + 3));
                    assert(out@ + url_bytes(b@.skip(i + 3)) =~= before + url_bytes(rest));
                    i = i + 3;
                },
                _ => {
                    out.push(37);
                    assert(rest.drop_first() =~= b@.skip(i + 1));
                    assert(out@ + url_bytes(b@.skip(i + 1)) =~= before + url_bytes(rest));
                    i = i + 1;
                },
            }
        } else {
            out.push(c);
            assert(rest.drop_first() =~= b@.skip(i + 1));
            assert(out@ + url_bytes(b@.skip(i + 1)) =~= before + url_bytes(rest));
            i = i + 1;
        }
    }
    assert(out@ + url_bytes(b@.skip(n as int)) =~= out@);
    lossy_string(&out)
}

/// The value of the first `key=value` pair of a query whose key is `key`, decoded.
pub open spec fn query_get_spec(query: Seq<char>, key: Seq<char>) -> Option<Seq<char>> {
    let pairs = split_on(query, '&');
    match first_from(pairs.len() as int, key_at(pairs, key), 0) {
        Some(p) => Some(url_decode_spec(pairs[p].skip(find_from(pairs[p], seq!['='], 0)->Some_0 + 1))),
        None => None,
    }
}

/// Pair `p` has an `=` and the text before the first `=` is `key`.
pub open spec fn key_at(pairs: Seq<Seq<char>>, key: Seq<char>) -> spec_fn(int) -> bool {
    |p: int|
        match find_from(pairs[p], seq!['='], 0) {
            Some(e) => pairs[p].take(e) == key,
            None => false,
        }
}

/// Looks up `key` in an `a=1&b=2` query string.
#[verifier::loop_isolation(false)]
pub fn query_get(query: &str, key: &str) -> (r: Option<String>)
    ensures
        match query_get_spec(query@, key@) {
            Some(v) => r matches Some(x) && x@ == v,
            None => r is None,
        },
{
    let v = chars_of(query);
    let k = chars_of(key);
    let bs = split_bounds(&v, 0, v.len(), '&');
    assert(v@.subrange(0, v@.len() as int) =~= v@);
    let ghost pairs = split_on(v@, '&');
    let mut p: usize = 0;
    while p < bs.len()
        invariant
            p <= bs@.len(),
            pieces(v@, bs@) == pairs,
            bounds_within(bs@, 0, v@.len() as int),
            forall|j: int| 0 <= j < p ==> !#[trigger] key_at(pairs, key@)(j),
        decreases bs@.len() - p,
    {
        let (a, b) = bs[p];
        assert(pieces(v@, bs@)[p as int] == v@.subrange(a as int, b as int));
        let ghost pair = pairs[p as int];
        match find_char_in(&v, a, b, '=', 0) {
            Some(e) => {
                let same = same_chars(&v, a, a + e, &k);
                assert(v@.subrange(a as int, a + e) =~= pair.take(e as int));
                if same {
                    proof {
                        lemma_first_is(pairs.len() as int, key_at(pairs, key@), p as int);
                    }
                    let val = string_of_range(&v, a + e + 1, b);
                    assert(v@.subrange(a + e + 1, b as int) =~= pair.skip(e + 1));
                    return Some(url_decode(val.as_str()));
                }
            },
            None => {},
        }
        p = p + 1;
    }
    proof {
        lemma_first_none(pairs.len() as int, key_at(pairs, key@));
    }
    None
}

/// Whether `v[lo..hi]` equals `k`.
pub fn same_chars(v: &[char], lo: usize, hi: usize, k: &[char]) -> (b: bool)
    requires
        lo <= hi <= v@.len(),
    ensures
        b == (v@.subrange(lo as int, hi as int) == k@),
{
    if hi - lo != k.len() {
        return false;
    }
    let mut i: usize = 0;
    while i < k.len()
        invariant
            hi - lo == k@.len(),
            lo <= hi <= v@.len(),
            i <= k@.len(),
            forall|j: int| 0 <= j < i ==> v@[lo + j] == k@[j],
        decreases k@.len() - i,
    {
        if v[lo + i] != k[i] {
            assert(v@.subrange(lo as int, hi as int)[i as int] != k@[i as int]);
            return false;
        }
        i = i + 1;
    }
    assert(v@.subrange(lo as int, hi as int) =~= k@);
    true
}


/// An HTTP response: status code, content type and body text.
pub struct Response {
    pub status: u16,
    pub content_type: &'static str,
    pub body: String,
}

pub struct ResponseView {
    pub status: u16,
    pub content_type: Seq<char>,
    pub body: Seq<char>,
}

impl View for Response {
    type V = ResponseView;

    open spec fn view(&self) -> ResponseView {
        ResponseView { status: self.status, content_type: self.content_type@, body: self.body@ }
    }
}

pub open spec fn json_type() -> Seq<char> {
    "application/json; charset=utf-8"@
}

pub open spec fn html_type() -> Seq<char> {
    "text/html; charset=utf-8"@
}

/// The reason phrase sent with a status code.
pub open spec fn reason_of(status: u16) -> Seq<char> {
    if status == 200 {
        "OK"@
    } else if status == 400 {
        "Bad Request"@
    } else if status == 404 {
        "Not Found"@
    } else if status == 405 {
        "Method Not Allowed"@
    } else {
        "OK"@
    }
}

/// The full response text: status line, content type, body length in bytes,
/// `Connection: close`, blank line, body.
pub open spec fn response_text(r: ResponseView) -> Seq<char> {
    "HTTP/1.1 "@ + dec(r.status as nat) + " "@ + reason_of(r.status) + "\r\nContent-Type: "@
        + r.content_type + "\r\nContent-Length: "@ + dec(utf8_len(r.body))
        + "\r\nConnection: close\r\n\r\n"@ + r.body
}

pub proof fn lemma_encode_utf8_concat(a: Seq<char>, b: Seq<char>)
    ensures
        encode_utf8(a + b) == encode_utf8(a) + encode_utf8(b),
    decreases a.len(),
{
    if a.len() == 0 {
        assert(a + b =~= b);
        assert(encode_utf8(a) =~= Seq::<u8>::empty());
        assert(encode_utf8(a) + encode_utf8(b) =~= encode_utf8(b));
    } else {
        lemma_encode_utf8_concat(a.drop_first(), b);
        assert((a + b).drop_first() =~= a.drop_first() + b);
        assert((a + b)[0] == a[0]);
        assert(encode_scalar(a[0] as u32) + (encode_utf8(a.drop_first()) + encode_utf8(b)) =~= (
        encode_scalar(a[0] as u32) + encode_utf8(a.drop_first())) + encode_utf8(b));
    }
}

impl Response {
    /// A JSON response.
    pub fn json(status: u16, body: String) -> (r: Response)
        ensures
            r.status == status,
            r.content_type@ == json_type(),
            r.body == body,
    {
        Response { status, content_type: "application/json; charset=utf-8", body }
    }

    /// A 200 HTML response.
    pub fn html(body: String) -> (r: Response)
        ensures
            r.status == 200,
            r.content_type@ == html_type(),
            r.body == body,
    {
        Response { status: 200, content_type: "text/html; charset=utf-8", body }
    }

    /// The response as bytes on the wire (UTF-8).
    pub fn to_bytes(&self) -> (b: Vec<u8>)
        ensures
            b@ == encode_utf8(response_text(self@)),
    {
        let reason = if self.status == 200 {
            "OK"
        } else if self.status == 400 {
            "Bad Request"
        } else if self.status == 404 {
            "Not Found"
        } else if self.status == 405 {
            "Method Not Allowed"
        } else {
            "OK"
        };
        let blen = self.body.as_str().len();
        let mut head = String::new();
        push_str(&mut head, "HTTP/1.1 ");
        push_dec(&mut head, self.status as u64);
        push_str(&mut head, " ");
        push_str(&mut head, reason);
        push_str(&mut head, "\r\nContent-Type: ");
        push_str(&mut head, self.content_type);
        push_str(&mut head, "\r\nContent-Length: ");
        push_dec(&mut head, blen as u64);
        push_str(&mut head, "\r\nConnection: close\r\n\r\n");
        let ghost h = head@;
        let mut v = slice_to_vec(head.as_str().as_bytes());
        let body_bytes = self.body.as_str().as_bytes();
        let mut i: usize = 0;
        let ghost start = v@;
        while i < body_bytes.len()
            invariant
                i <= body_bytes@.len(),
                v@ == start + body_bytes@.take(i as int),
            decreases body_bytes@.len() - i,
        {
            v.push(body_bytes[i]);
            assert(v@ =~= start + body_bytes@.take(i + 1));
            i = i + 1;
        }
        proof {
            assert(body_bytes@.take(body_bytes@.len() as int) =~= body_bytes@);
            assert(h =~= response_text(self@).subrange(0, h.len() as int));
            assert(response_text(self@) =~= h + self.body@);
            lemma_encode_utf8_concat(h, self.body@);
        }
        v
    }
}

/// `needle` occurs in `hay` at `i`.
pub open spec fn bytes_at(hay: Seq<u8>, needle: Seq<u8>) -> spec_fn(int) -> bool {
    |i: int| hay.subrange(i, i + needle.len()) == needle
}

/// First position of a non-empty `needle` in `hay`.
pub open spec fn find_bytes(hay: Seq<u8>, needle: Seq<u8>) -> Option<int> {
    if needle.len() == 0 || hay.len() < needle.len() {
        None
    } else {
        first_from(hay.len() - needle.len() + 1, bytes_at(hay, needle), 0)
    }
}

/// First position of `needle` in `hay` (`None` for an empty needle).
#[verifier::loop_isolation(false)]
pub fn find_subslice(hay: &[u8], needle: &[u8]) -> (r: Option<usize>)
    ensures
        opt_int(r) == find_bytes(hay@, needle@),
{
    if needle.len() == 0 || hay.len() < needle.len() {
        return None;
    }
    let last = hay.len() - needle.len();
    let ghost p = bytes_at(hay@, needle@);
    let mut i: usize = 0;
    loop
        invariant
            i <= last,
            last + needle@.len() == hay@.len(),
            forall|j: int| 0 <= j < i ==> !#[trigger] p(j),
        decreases last - i,
    {
        let mut k: usize = 0;
        let mut same = true;
        while k < needle.len()
            invariant
                k <= needle@.len(),
                same <==> forall|q: int| 0 <= q < k ==> hay@[i + q] == needle@[q],
            decreases needle@.len() - k,
        {
            if hay[i + k] != needle[k] {
                same = false;
            }
            k = k + 1;
        }
        if same {
            assert(hay@.subrange(i as int, i + needle@.len()) =~= needle@);
            proof {
                lemma_first_is((last + 1) as int, p, i as int);
            }
            return Some(i);
        } else {
            proof {
                let q = choose|q: int| 0 <= q < needle@.len() && hay@[i + q] != needle@[q];
                assert(hay@.subrange(i as int, i + needle@.len())[q] != needle@[q]);
            }
        }
        if i == last {
            proof {
                lemma_first_none((last + 1) as int, p);
            }
            return None;
        }
        i = i + 1;
    }
}

/// `c` with ASCII upper case turned to lower case.
pub open spec fn ascii_lower(c: char) -> char {
    if 'A' <= c <= 'Z' {
        ((c as u32) + 32) as char
    } else {
        c
    }
}

/// `k` spells `content-length` in any mix of ASCII case.
pub open spec fn is_content_length_key(k: Seq<char>) -> bool {
    let t = "content-length"@;
    &&& k.len() == t.len()
    &&& forall|i: int| 0 <= i < k.len() ==> ascii_lower(#[trigger] k[i]) == t[i]
}

/// Line `l` is a `Content-Length` header.
pub open spec fn length_header_at(ls: Seq<Seq<char>>) -> spec_fn(int) -> bool {
    |l: int|
        match find_from(ls[l], seq![':'], 0) {
            Some(c) => is_content_length_key(trim(ls[l].take(c))),
            None => false,
        }
}

/// The value of the first `Content-Length` header (0 when absent or not a number).
pub open spec fn content_length_spec(head: Seq<char>) -> nat {
    let ls = lines_of(head);
    match first_from(ls.len() as int, length_header_at(ls), 0) {
        Some(l) => {
            let line = ls[l];
            let c = find_from(line, seq![':'], 0)->Some_0;
            match parse_unsigned(trim(line.skip(c + 1)), usize::MAX as nat) {
                Some(v) => v,
                None => 0,
            }
        },
        None => 0,
    }
}

fn is_length_key(v: &[char], lo: usize, hi: usize) -> (b: bool)
    requires
        lo <= hi <= v@.len(),
    ensures
        b == is_content_length_key(v@.subrange(lo as int, hi as int)),
{
    let t = chars_of("content-length");
    proof {
        reveal_strlit("content-length");
    }
    let ghost k = v@.subrange(lo as int, hi as int);
    if hi - lo != t.len() {
        return false;
    }
    let mut i: usize = 0;
    while i < t.len()
        invariant
            hi - lo == t@.len(),
            lo <= hi <= v@.len(),
            k == v@.subrange(lo as int, hi as int),
            t@ == "content-length"@,
            i <= t@.len(),
            forall|j: int| 0 <= j < i ==> ascii_lower(#[trigger] k[j]) == t@[j],
        decreases t@.len() - i,
    {
        let c = v[lo + i];
        let lower = if 'A' <= c && c <= 'Z' {
            ((c as u8) + 32) as char
        } else {
            c
        };
        assert(lower == ascii_lower(k[i as int]));
        if lower != t[i] {
            return false;
        }
        i = i + 1;
    }
    true
}

/// Reads the `Content-Length` header of a request head; 0 when there is none or its
/// value is not a number.
#[verifier::loop_isolation(false)]
pub fn parse_content_length(head: &str) -> (n: usize)
    ensures
        n == content_length_spec(head@),
{
    let v = chars_of(head);
    let ls = line_bounds(&v);
    let ghost lines = lines_of(v@);
    let mut l: usize = 0;
    while l < ls.len()
        invariant
            l <= ls@.len(),
            pieces(v@, ls@) == lines,
            bounds_within(ls@, 0, v@.len() as int),
            forall|j: int| 0 <= j < l ==> !#[trigger] length_header_at(lines)(j),
        decreases ls@.len() - l,
    {
        let (a, b) = ls[l];
        assert(pieces(v@, ls@)[l as int] == v@.subrange(a as int, b as int));
        let ghost line = lines[l as int];
        match find_char_in(&v, a, b, ':', 0) {
            Some(c) => {
                let (ka, kb) = trim_bounds(&v, a, a + c);
                assert(v@.subrange(a as int, a + c) =~= line.take(c as int));
                if is_length_key(&v, ka, kb) {
                    proof {
                        lemma_first_is(lines.len() as int, length_header_at(lines), l as int);
                    }
                    let (va, vb) = trim_bounds(&v, a + c + 1, b);
                    assert(v@.subrange(a + c + 1, b as int) =~= line.skip(c + 1));
                    return match parse_uint(&v, va, vb, usize::MAX as u64) {
                        Some(x) => x as usize,
                        None => 0,
                    };
                }
            },
            None => {},
        }
        l = l + 1;
    }
    proof {
        lemma_first_none(lines.len() as int, length_header_at(lines));
    }
    0
}

/// The single page served at `/`.
pub const INDEX_HTML: &'static str = r##"<!doctype html>
<html lang=zh><head><meta charset=utf-8>
<meta name=viewport content="width=device-width,initial-scale=1">
<title>彩票随机性分析</title>
<style>
:root{--bg:#0f1420;--card:#182135;--line:#2a3550;--fg:#e6ebf5;--mut:#93a1c0;--ok:#4ade80;--warn:#fbbf24;--accent:#6ea8ff}
*{box-sizing:border-box}body{margin:0;font:14px/1.6 "Microsoft YaHei",system-ui,sans-serif;background:var(--bg);color:var(--fg)}
header{display:flex;align-items:center;gap:16px;padding:16px 24px;border-bottom:1px solid var(--line);background:var(--card)}
header h1{font-size:18px;margin:0}select{background:#0f1420;color:var(--fg);border:1px solid var(--line);border-radius:6px;padding:6px 10px;font-size:14px}
main{max-width:920px;margin:0 auto;padding:24px}
.card{background:var(--card);border:1px solid var(--line);border-radius:10px;padding:16px 20px;margin-bottom:18px}
.card h2{font-size:15px;margin:0 0 12px;color:var(--accent)}
.row{padding:8px 0;border-bottom:1px dashed var(--line)}.row:last-child{border:0}
.lab{color:var(--mut)}.ok{color:var(--ok)}.warn{color:var(--warn)}
textarea{width:100%;height:90px;background:#0f1420;color:var(--fg);border:1px solid var(--line);border-radius:6px;padding:8px;font:12px monospace}
button{background:var(--accent);color:#0b1020;border:0;border-radius:6px;padding:8px 16px;font-size:14px;cursor:pointer;margin-top:8px}
a{color:var(--accent)}code{background:#0f1420;padding:1px 5px;border-radius:4px}
details{margin:6px 0}summary{cursor:pointer;color:var(--accent)}
.muted{color:var(--mut);font-size:13px}
</style></head>
<body>
<header><h1>彩票随机性分析</h1>
<label class=lab>彩种 <select id="game"></select></label>
<span id="status" class=muted></span></header>
<main>
<div class=card><h2>数据同步(粘贴接口 JSON)</h2>
<p class=muted>在浏览器打开接口(下方链接),复制返回的 JSON 粘贴到这里,点"同步"即可。仅福彩 ssq/3d/kl8/qlc 支持。</p>
<p id="apilink" class=muted></p>
<textarea id="json" placeholder="把接口返回的 JSON 粘贴到这里…"></textarea>
<div><button id="sync">同步</button> <span id="syncmsg" class=muted></span></div></div>

<div class=card id="picks"><h2>策略选号(仅演示)</h2>
<p class=warn>⚠ 这三注中奖概率与任意号码完全相同(1/1772万),本演示只为展示"策略"长什么样。</p>
<div id="pickbody" class=muted>加载中…</div>
<p class=muted>下方「预测打脸实验」显示这三策略历史平均命中数都≈理论值——并不比机选更优。</p></div>

<div class=card id="analysis"><h2>分析结果</h2><div id="body" class=muted>加载中…</div></div>

<div class=card><h2>方法与策略说明</h2>
<details open><summary>头奖概率与期望值</summary><p class=muted>头奖概率完全由组合数决定(如双色球 C(33,6)×16 ≈ 1772 万分之一),与选号方式无关。每种玩法返奖率恒 &lt; 100%,期望值恒为负——买得越多,长期越确定地亏损(大数定律)。</p></details>
<details><summary>卡方均匀性检验</summary><p class=muted>统计每个号码/每位数字的历史出现频次,用卡方检验判断是否偏离"均匀分布"。p&gt;0.05 表示无法拒绝均匀假设——号码确实均匀随机,没有可利用的"冷热规律"。真实期数少时统计功效低,已在结果中注明。</p></details>
<details><summary>赌徒谬误检验</summary><p class=muted>验证"某号上期没出,下期更容易出"是否成立。对比"上期没出→本期出"的条件概率与无条件概率,两者≈相等,证明历史遗漏对下期毫无影响——"冷号该回补"是幻觉。</p></details>
<details><summary>游程检验(独立性)</summary><p class=muted>把某号"逐期是否出现"编码成 0/1 序列,用 Wald–Wolfowitz 游程检验其是否独立。p&gt;0.05 表示序列无自相关——前后期之间没有可预测的规律。</p></details>
<details><summary>预测"打脸"实验:冷/热/随机三策略</summary><p class=muted>用历史走势预测下一期,三种策略同台:冷号策略(选最少出现的)、热号策略(选最多出现的)、随机基线。统计平均命中数,三者都会贴着纯运气的理论期望,彼此无显著差异——实证任何选号策略都不优于瞎蒙。需 &gt;30 期数据才会运行。</p></details>
</div>
</main>
<script>
const $=s=>document.querySelector(s);
const API_BASE="https://www.cwl.gov.cn/cwl_admin/front/cwlkj/search/kjxx/findDrawNotice";
let games=[];
async function loadGames(){
  const r=await fetch("/api/games");const d=await r.json();games=d.games;
  const sel=$("#game");sel.innerHTML="";
  games.forEach(g=>{const o=document.createElement("option");o.value=g.key;o.textContent=g.name+(g.hasData?"":"(无数据)");sel.appendChild(o);});
  onChange();
}
function apiUrlFor(g){return g&&g.fetchable?`${API_BASE}?name=${g.key==="d3"?"3d":g.key}&issueCount=100`:null;}
function onChange(){
  const key=$("#game").value;const g=games.find(x=>x.key===key);
  const url=apiUrlFor(g);
  $("#apilink").innerHTML=url?`接口链接:<a href="${url}" target="_blank">${url}</a>`:"该彩种(体彩)暂不支持导入。";
  $("#sync").disabled=!url;
  loadAnalysis(key);
}
async function loadAnalysis(key){
  $("#body").textContent="加载中…";$("#pickbody").textContent="加载中…";
  const r=await fetch("/api/analysis?game="+encodeURIComponent(key));const a=await r.json();
  if(!a.available){$("#body").innerHTML=`<span class=warn>${a.reason||"无数据"}</span>`;$("#pickbody").innerHTML=`<span class=warn>${a.reason||"无数据"}</span>`;$("#status").textContent="";return;}
  renderPicks(a.picks||[]);
  $("#status").textContent=`${a.coverage.count} 期 ${a.coverage.firstIssue}→${a.coverage.lastIssue}`;
  let h="";
  h+="<div class=row><b>卡方均匀性</b></div>";
  a.uniformity.forEach(u=>{h+=`<div class=row><span class=lab>${u.label}</span> χ²=${u.chi2.toFixed(2)} p=${u.p.toFixed(4)} <span class="${u.uniform?'ok':'warn'}">${u.uniform?'均匀':'本样本偏离'}</span>`+(u.cold!==undefined?` <span class=muted>冷${u.cold}(${u.coldN}) 热${u.hot}(${u.hotN})</span>`:"")+"</div>";});
  h+="<div class=row><b>赌徒谬误</b></div>";
  a.gambler.forEach(g=>{h+=`<div class=row><span class=lab>${g.label}</span> `+(g.enough?`无条件 ${g.baseP.toFixed(4)} vs 条件 ${g.condP.toFixed(4)}(样本${g.samples})差 ${g.diff.toFixed(4)} <span class=ok>历史无影响</span>`:`<span class=warn>样本不足</span>`)+"</div>";});
  h+="<div class=row><b>游程检验</b></div>";
  a.runs.forEach(g=>{h+=`<div class=row><span class=lab>${g.label}</span> Z=${g.z.toFixed(3)} p=${g.p.toFixed(4)} <span class="${g.independent?'ok':'warn'}">${g.independent?'序列独立':'偶然显著'}</span></div>`;});
  h+="<div class=row><b>预测打脸实验</b></div>";
  if(a.predN===0){h+=`<div class=row class=muted>真实期数不足(需 &gt;30 期),跳过。</div>`;}
  else{a.pred.forEach(p=>{h+=`<div class=row><span class=lab>${p.label}</span> 冷 ${p.cold.toFixed(3)} / 热 ${p.hot.toFixed(3)} / 随机 ${p.random.toFixed(3)} <span class=muted>理论 ${p.expected.toFixed(3)}</span></div>`;});
    h+=`<div class=row class=muted>三策略都贴着理论期望 → 没有策略优于随机。</div>`;}
  $("#body").innerHTML=h;
}
function renderPicks(picks){
  let h="";
  picks.forEach(p=>{const nums=p.ticket.map(seg=>seg.map(n=>String(n).padStart(2,"0")).join(" ")).join(" | ");
    h+=`<div class=row><b>${p.strategy}</b> <code>${nums}</code><div class=muted>为什么:${p.why}</div></div>`;});
  $("#pickbody").innerHTML=h||`<span class=warn>无数据</span>`;
}
async function doSync(){
  const key=$("#game").value;const body=$("#json").value.trim();
  if(!body){$("#syncmsg").textContent="请先粘贴 JSON";return;}
  $("#syncmsg").textContent="同步中…";
  const r=await fetch("/api/import?game="+encodeURIComponent(key),{method:"POST",body});
  const d=await r.json();
  $("#syncmsg").innerHTML=d.ok?`<span class=ok>${d.message}</span>`:`<span class=warn>${d.message}</span>`;
  if(d.ok){$("#json").value="";loadGames();}
}
$("#game").addEventListener("change",onChange);
$("#sync").addEventListener("click",doSync);
loadGames();
</script>
</body></html>"##;

/// What the request handler needs done: a finished reply, or outside work (reading or
/// writing data files) followed by a call that completes the reply.
pub enum Handled {
    /// A finished response.
    Reply(Response),
    /// List the games: read every game's data file, then call `games_reply`.
    ListGames,
    /// Analyse game `i` of `real_data_games()`: read its data file, then call
    /// `analysis_reply`.
    Analyze(usize),
    /// Import into game `i`: write the data file text (first string) to its file,
    /// then call `import_reply` with the report (second string).
    Import(usize, String, String),
}

pub enum HandledView {
    Reply(ResponseView),
    ListGames,
    Analyze(int),
    Import(int, Seq<char>, Seq<char>),
}

impl View for Handled {
    type V = HandledView;

    open spec fn view(&self) -> HandledView {
        match self {
            Handled::Reply(r) => HandledView::Reply(r@),
            Handled::ListGames => HandledView::ListGames,
            Handled::Analyze(i) => HandledView::Analyze(*i as int),
            Handled::Import(i, c, p) => HandledView::Import(*i as int, c@, p@),
        }
    }
}

pub open spec fn json_reply(status: u16, body: Seq<char>) -> HandledView {
    HandledView::Reply(ResponseView { status, content_type: json_type(), body })
}

/// Index of the game whose key is `key`.
pub open spec fn game_index(gs: Seq<GameSpec>, key: Seq<char>) -> Option<int> {
    first_from(gs.len() as int, key_is(gs, key), 0)
}

pub open spec fn key_is(gs: Seq<GameSpec>, key: Seq<char>) -> spec_fn(int) -> bool {
    |i: int| gs[i].key@ == key
}

/// The `game` query value, or empty.
pub open spec fn game_param(query: Seq<char>) -> Seq<char> {
    match query_get_spec(query, "game"@) {
        Some(g) => g,
        None => Seq::empty(),
    }
}

pub open spec fn import_spec(gs: Seq<GameSpec>, game: Seq<char>, body: Seq<char>) -> HandledView {
    match game_index(gs, game) {
        None => json_reply(400, "{\"ok\":false,\"message\":\"未知彩种\"}"@),
        Some(i) => if gs[i].fetch is None {
            json_reply(400, "{\"ok\":false,\"message\":\"该彩种非福彩JSON格式,import仅支持ssq/d3/kl8/qlc\"}"@)
        } else if utf8_len(body) > 2_000_000 {
            json_reply(400, "{\"ok\":false,\"message\":\"数据过大\"}"@)
        } else {
            match build_csv_spec(gs[i], body) {
                Err(e) => json_reply(200, "{\"ok\":false,\"message\":\""@ + jesc_spec(e) + "\"}"@),
                Ok((csv, report)) => HandledView::Import(i, csv, report),
            }
        },
    }
}

/// Routing: the page, the game list, an analysis, an import; other methods on these
/// paths get 405, anything else 404.
pub open spec fn handle_spec(
    gs: Seq<GameSpec>,
    method: Seq<char>,
    path: Seq<char>,
    query: Seq<char>,
    body: Seq<char>,
) -> HandledView {
    if method == "GET"@ && path == "/"@ {
        HandledView::Reply(ResponseView { status: 200, content_type: html_type(), body: INDEX_HTML@ })
    } else if method == "GET"@ && path == "/api/games"@ {
        HandledView::ListGames
    } else if method == "GET"@ && path == "/api/analysis"@ {
        match game_index(gs, game_param(query)) {
            None => json_reply(404, "{\"available\":false,\"reason\":\"未知彩种\"}"@),
            Some(i) => HandledView::Analyze(i),
        }
    } else if method == "POST"@ && path == "/api/import"@ {
        import_spec(gs, game_param(query), body)
    } else if path == "/api/games"@ || path == "/api/analysis"@ || path == "/api/import"@ || path == "/"@ {
        json_reply(405, "{\"error\":\"method not allowed\"}"@)
    } else {
        json_reply(404, "{\"error\":\"not found\"}"@)
    }
}

/// The handler asks for a data file to be written only for a POST to `/api/import` for
/// a game with a notice source, and only with the file that `build_csv` made of an
/// accepted notice: a refused or oversized notice never overwrites a file.
pub proof fn lemma_import_writes_only_accepted(
    gs: Seq<GameSpec>,
    method: Seq<char>,
    path: Seq<char>,
    query: Seq<char>,
    body: Seq<char>,
)
    ensures
        handle_spec(gs, method, path, query, body) matches HandledView::Import(i, csv, report) ==> {
            &&& method == "POST"@
            &&& path == "/api/import"@
            &&& game_index(gs, game_param(query)) == Some(i)
            &&& gs[i].fetch is Some
            &&& utf8_len(body) <= 2_000_000
            &&& build_csv_spec(gs[i], body) == Ok::<(Seq<char>, Seq<char>), Seq<char>>((csv, report))
        },
{
}

/// Routes are a whitelist: the only files the handler asks to read or write are those
/// of a game in the table, picked by its exact key, so no URL reaches any other file.
pub proof fn lemma_routes_stay_in_table(
    gs: Seq<GameSpec>,
    method: Seq<char>,
    path: Seq<char>,
    query: Seq<char>,
    body: Seq<char>,
)
    ensures
        handle_spec(gs, method, path, query, body) matches HandledView::Analyze(i) ==> 0 <= i < gs.len()
            && gs[i].key@ == game_param(query),
        handle_spec(gs, method, path, query, body) matches HandledView::Import(i, _, _) ==> 0 <= i < gs.len()
            && gs[i].key@ == game_param(query),
{
    crate::realdata::lemma_first_from(gs.len() as int, key_is(gs, game_param(query)), 0);
}

/// Whether `s` is the text `lit`.
fn text_is(s: &str, lit: &str) -> (b: bool)
    ensures
        b == (s@ == lit@),
{
    let a = chars_of(s);
    let l = chars_of(lit);
    assert(a@.subrange(0, a@.len() as int) =~= a@);
    same_chars(&a, 0, a.len(), &l)
}

/// Index of the game with key `key`.
fn find_game(games: &Vec<GameSpec>, key: &str) -> (r: Option<usize>)
    ensures
        opt_int(r) == game_index(games@, key@),
        r matches Some(i) ==> i < games@.len(),
{
    let mut i: usize = 0;
    while i < games.len()
        invariant
            i <= games@.len(),
            forall|j: int| 0 <= j < i ==> !#[trigger] key_is(games@, key@)(j),
        decreases games@.len() - i,
    {
        if text_is(games[i].key, key) {
            proof {
                lemma_first_is(games@.len() as int, key_is(games@, key@), i as int);
            }
            return Some(i);
        }
        i = i + 1;
    }
    proof {
        lemma_first_none(games@.len() as int, key_is(games@, key@));
    }
    None
}

fn json_text(status: u16, text: &str) -> (r: Response)
    ensures
        r@ == (ResponseView { status, content_type: json_type(), body: text@ }),
{
    Response::json(status, String::from_str(text))
}

fn game_query(query: &str) -> (g: String)
    ensures
        g@ == game_param(query@),
{
    match query_get(query, "game") {
        Some(g) => g,
        None => String::new(),
    }
}

fn import_response(games: &Vec<GameSpec>, game: &str, body: &str) -> (r: Handled)
    requires
        is_game_table(games@),
    ensures
        r@ == import_spec(games@, game@, body@),
{
    proof {
        lemma_table_wf(games@);
    }
    let i = match find_game(games, game) {
        None => return Handled::Reply(json_text(400, "{\"ok\":false,\"message\":\"未知彩种\"}")),
        Some(i) => i,
    };
    let spec = &games[i];
    assert(spec_wf(games@[i as int]) && spec_field_count(games@[i as int]) <= 100);
    if spec.fetch.is_none() {
        return Handled::Reply(
            json_text(400, "{\"ok\":false,\"message\":\"该彩种非福彩JSON格式,import仅支持ssq/d3/kl8/qlc\"}"),
        );
    }
    if body.as_bytes().len() > 2_000_000 {
        return Handled::Reply(json_text(400, "{\"ok\":false,\"message\":\"数据过大\"}"));
    }
    match build_csv(spec, body) {
        Err(e) => {
            let mut m = String::new();
            push_str(&mut m, "{\"ok\":false,\"message\":\"");
            let esc = jesc(e.as_str());
            push_str(&mut m, esc.as_str());
            push_str(&mut m, "\"}");
            assert(m@ =~= "{\"ok\":false,\"message\":\""@ + jesc_spec(e@) + "\"}"@);
            Handled::Reply(Response::json(200, m))
        },
        Ok((csv, report)) => Handled::Import(i, csv, report),
    }
}

/// Routes a request (method, path, query string, body) to its reply or to the outside
/// work it needs.
pub fn handle(method: &str, path: &str, query: &str, body: &str) -> (r: Handled)
    ensures
        exists|gs: Seq<GameSpec>| is_game_table(gs) && r@ == handle_spec(gs, method@, path@, query@, body@),
{
    let games = real_data_games();
    let get = text_is(method, "GET");
    let post = text_is(method, "POST");
    let root = text_is(path, "/");
    let p_games = text_is(path, "/api/games");
    let p_analysis = text_is(path, "/api/analysis");
    let p_import = text_is(path, "/api/import");
    let r = if get && root {
        let mut page = String::new();
        push_str(&mut page, INDEX_HTML);
        assert(page@ =~= INDEX_HTML@);
        Handled::Reply(Response::html(page))
    } else if get && p_games {
        Handled::ListGames
    } else if get && p_analysis {
        let game = game_query(query);
        match find_game(&games, game.as_str()) {
            None => Handled::Reply(json_text(404, "{\"available\":false,\"reason\":\"未知彩种\"}")),
            Some(i) => Handled::Analyze(i),
        }
    } else if post && p_import {
        let game = game_query(query);
        import_response(&games, game.as_str(), body)
    } else if p_games || p_analysis || p_import || root {
        Handled::Reply(json_text(405, "{\"error\":\"method not allowed\"}"))
    } else {
        Handled::Reply(json_text(404, "{\"error\":\"not found\"}"))
    };
    assert(r@ == handle_spec(games@, method@, path@, query@, body@));
    r
}


pub open spec fn bool_text(b: bool) -> Seq<char> {
    if b {
        "true"@
    } else {
        "false"@
    }
}

/// A game has data when its file's contents parse to at least two draws.
pub open spec fn has_data(g: GameSpec, c: Option<Seq<char>>) -> bool {
    match c {
        Some(t) => parse_lines_spec(g, lines_of(t)).0.len() >= 2,
        None => false,
    }
}

pub open spec fn game_item(g: GameSpec, has: bool) -> Seq<char> {
    "{\"key\":\""@ + jesc_spec(g.key@) + "\",\"name\":\""@ + jesc_spec(g.name@) + "\",\"fetchable\":"@
        + bool_text(g.fetch is Some) + ",\"hasData\":"@ + bool_text(has) + "}"@
}

pub open spec fn contents_view(cs: Seq<Option<String>>) -> Seq<Option<Seq<char>>> {
    cs.map_values(|c: Option<String>| match c {
        Some(s) => Some(s@),
        None => None,
    })
}

/// The game list: key, name, whether notices can be imported, and whether its data
/// file (contents given per game, `None` when unreadable) holds at least two draws.
pub open spec fn games_json_spec(gs: Seq<GameSpec>, cs: Seq<Option<Seq<char>>>) -> Seq<char> {
    "{\"games\":["@ + join_comma(Seq::new(gs.len(), |i: int| game_item(gs[i], has_data(gs[i], cs[i]))))
        + "]}"@
}

fn push_bool(s: &mut String, b: bool)
    ensures
        final(s)@ == old(s)@ + bool_text(b),
{
    if b {
        push_str(s, "true");
    } else {
        push_str(s, "false");
    }
}

fn game_has_data(g: &GameSpec, c: &Option<String>) -> (b: bool)
    requires
        spec_wf(*g),
        spec_field_count(*g) <= 100,
    ensures
        b == has_data(
            *g,
            match c {
                Some(s) => Some(s@),
                None => None,
            },
        ),
{
    match c {
        Some(t) => {
            let (d, _) = parse_lines(g, t.as_str());
            d.len() >= 2
        },
        None => false,
    }
}

fn push_game_item(out: &mut String, g: &GameSpec, has: bool)
    ensures
        final(out)@ == old(out)@ + game_item(*g, has),
{
    push_str(out, "{\"key\":\"");
    let k = jesc(g.key);
    push_str(out, k.as_str());
    push_str(out, "\",\"name\":\"");
    let n = jesc(g.name);
    push_str(out, n.as_str());
    push_str(out, "\",\"fetchable\":");
    push_bool(out, g.fetch.is_some());
    push_str(out, ",\"hasData\":");
    push_bool(out, has);
    push_str(out, "}");
    assert(final(out)@ =~= old(out)@ + game_item(*g, has));
}

/// The `/api/games` body, from the contents of each game's data file.
#[verifier::loop_isolation(false)]
pub fn games_json(contents: &[Option<String>]) -> (r: String)
    requires
        contents@.len() == 8,
    ensures
        exists|gs: Seq<GameSpec>| is_game_table(gs) && r@ == games_json_spec(gs, contents_view(contents@)),
{
    let games = real_data_games();
    proof {
        lemma_table_wf(games@);
    }
    let ghost cs = contents_view(contents@);
    let ghost items = Seq::new(games@.len(), |i: int| game_item(games@[i], has_data(games@[i], cs[i])));
    let mut out = String::new();
    push_str(&mut out, "{\"games\":[");
    let ghost start = out@;
    let mut i: usize = 0;
    assert(start + join_comma(items.take(0)) =~= start);
    while i < games.len()
        invariant
            i <= games@.len(),
            games@.len() == 8,
            out@ == start + join_comma(items.take(i as int)),
        decreases games@.len() - i,
    {
        let g = &games[i];
        assert(spec_wf(games@[i as int]) && spec_field_count(games@[i as int]) <= 100);
        let has = game_has_data(g, &contents[i]);
        if i > 0 {
            push_char(&mut out, ',');
        }
        push_game_item(&mut out, g, has);
        proof {
            assert(items.take(i + 1).drop_last() =~= items.take(i as int));
            assert(items.take(i + 1).last() == items[i as int]);
            if i == 0 {
                assert(items.take(1) =~= seq![items[0]]);
                assert(out@ =~= start + join_comma(items.take(1)));
            } else {
                assert(out@ =~= start + join_comma(items.take(i + 1)));
            }
        }
        i = i + 1;
    }
    push_str(&mut out, "]}");
    assert(items.take(8) =~= items);
    assert(out@ =~= games_json_spec(games@, cs));
    out
}

/// The `/api/games` reply: 200, JSON, the game list made from the contents of each
/// game's data file.
pub fn games_reply(contents: &[Option<String>]) -> (r: Response)
    requires
        contents@.len() == 8,
    ensures
        r.status == 200,
        r.content_type@ == json_type(),
        exists|gs: Seq<GameSpec>| is_game_table(gs) && r.body@ == games_json_spec(gs, contents_view(contents@)),
{
    Response::json(200, games_json(contents))
}

/// The next step of an analysis request once the data file was read.
pub enum Analysis {
    /// A finished response.
    Reply(Response),
    /// Enough draws: analyse them.
    Ready(Vec<DrawRecord>),
}

/// `/api/analysis` for game `game` given its file's contents (`None` when it could not
/// be read): no file and fewer than two draws are answered here; otherwise the draws
/// go on to the analysis.
pub fn analysis_reply(game: usize, content: Option<String>) -> (r: Analysis)
    requires
        game < 8,
    ensures
        exists|gs: Seq<GameSpec>|
            is_game_table(gs) && match content {
                None => r matches Analysis::Reply(x) && x@ == (ResponseView {
                    status: 200,
                    content_type: json_type(),
                    body: "{\"available\":false,\"reason\":\"未找到数据文件 "@ + jesc_spec(gs[game as int].file@)
                        + "\"}"@,
                }),
                Some(t) => {
                    let d = parse_lines_spec(gs[game as int], lines_of(t@)).0;
                    if d.len() < 2 {
                        r matches Analysis::Reply(x) && x@ == (ResponseView {
                            status: 200,
                            content_type: json_type(),
                            body: "{\"available\":false,\"reason\":\"有效数据不足(<2 期)\"}"@,
                        })
                    } else {
                        r matches Analysis::Ready(v) && records_view(v@) == d
                    }
                },
            },
{
    let games = real_data_games();
    proof {
        lemma_table_wf(games@);
    }
    let g = &games[game];
    assert(spec_wf(games@[game as int]) && spec_field_count(games@[game as int]) <= 100);
    match content {
        None => {
            let mut m = String::new();
            push_str(&mut m, "{\"available\":false,\"reason\":\"未找到数据文件 ");
            let f = jesc(g.file);
            push_str(&mut m, f.as_str());
            push_str(&mut m, "\"}");
            assert(m@ =~= "{\"available\":false,\"reason\":\"未找到数据文件 "@ + jesc_spec(games@[game as int].file@) + "\"}"@);
            Analysis::Reply(Response::json(200, m))
        },
        Some(t) => {
            let (d, _) = parse_lines(g, t.as_str());
            if d.len() < 2 {
                Analysis::Reply(json_text(200, "{\"available\":false,\"reason\":\"有效数据不足(<2 期)\"}"))
            } else {
                Analysis::Ready(d)
            }
        },
    }
}

/// The `/api/import` reply after the data file for game `game` was written
/// (`write_error` is `None`) or could not be written (the error text).
pub fn import_reply(game: usize, report: &str, write_error: Option<String>) -> (r: Response)
    requires
        game < 8,
    ensures
        exists|gs: Seq<GameSpec>|
            is_game_table(gs) && r@ == (ResponseView {
                status: 200,
                content_type: json_type(),
                body: match write_error {
                    None => "{\"ok\":true,\"message\":\""@ + jesc_spec(
                        gs[game as int].name@ + ":"@ + report@ + ",已写入 "@ + gs[game as int].file@,
                    ) + "\"}"@,
                    Some(e) => "{\"ok\":false,\"message\":\""@ + jesc_spec(
                        "写入 "@ + gs[game as int].file@ + " 失败:"@ + e@,
                    ) + "\"}"@,
                },
            }),
{
    let games = real_data_games();
    let g = &games[game];
    let mut msg = String::new();
    let mut body = String::new();
    match &write_error {
        None => {
            push_str(&mut msg, g.name);
            push_str(&mut msg, ":");
            push_str(&mut msg, report);
            push_str(&mut msg, ",已写入 ");
            push_str(&mut msg, g.file);
            push_str(&mut body, "{\"ok\":true,\"message\":\"");
        },
        Some(e) => {
            push_str(&mut msg, "写入 ");
            push_str(&mut msg, g.file);
            push_str(&mut msg, " 失败:");
            push_str(&mut msg, e.as_str());
            push_str(&mut body, "{\"ok\":false,\"message\":\"");
        },
    }
    let esc = jesc(msg.as_str());
    push_str(&mut body, esc.as_str());
    push_str(&mut body, "\"}");
    proof {
        match write_error {
            None => {
                assert(msg@ =~= games@[game as int].name@ + ":"@ + report@ + ",已写入 "@ + games@[game as int].file@);
                assert(body@ =~= "{\"ok\":true,\"message\":\""@ + jesc_spec(msg@) + "\"}"@);
            },
            Some(e) => {
                assert(msg@ =~= "写入 "@ + games@[game as int].file@ + " 失败:"@ + e@);
                assert(body@ =~= "{\"ok\":false,\"message\":\""@ + jesc_spec(msg@) + "\"}"@);
            },
        }
    }
    Response::json(200, body)
}

/// What a connection's bytes so far amount to: read more, refuse, or a whole request.
pub enum Framing {
    NeedMore,
    Bad(Response),
    Ready(Request),
}

pub enum FramingView {
    NeedMore,
    Bad(ResponseView),
    Ready(RequestView),
}

impl View for Framing {
    type V = FramingView;

    open spec fn view(&self) -> FramingView {
        match self {
            Framing::NeedMore => FramingView::NeedMore,
            Framing::Bad(r) => FramingView::Bad(r@),
            Framing::Ready(q) => FramingView::Ready(q@),
        }
    }
}

/// Most bytes read while waiting for the end of the headers or the body.
pub open spec fn read_cap() -> nat {
    2_000_000
}

/// The 400 reply to a malformed request.
pub open spec fn bad_request() -> ResponseView {
    ResponseView { status: 400, content_type: json_type(), body: "{\"error\":\"bad request\"}"@ }
}

/// The blank line that ends the headers.
pub open spec fn header_end() -> Seq<u8> {
    seq![13u8, 10u8, 13u8, 10u8]
}

/// Framing of a request from the bytes read so far (`at_eof`: the peer has closed).
/// Until the blank line after the headers arrives, read on, unless the peer closed or
/// more than the cap was read (then 400). Once it has, read on while the body is
/// shorter than its `Content-Length`, the peer is open and the cap is not passed;
/// then parse the headers (read lossily) with the body (as much of it as arrived).
pub open spec fn framing_spec(buf: Seq<u8>, at_eof: bool) -> FramingView {
    match find_bytes(buf, header_end()) {
        None => if at_eof || buf.len() > read_cap() {
            FramingView::Bad(bad_request())
        } else {
            FramingView::NeedMore
        },
        Some(p) => {
            let head = utf8_lossy(buf.take(p));
            let want = content_length_spec(head);
            if buf.len() < p + 4 + want && !at_eof && buf.len() <= read_cap() {
                FramingView::NeedMore
            } else {
                let end = if p + 4 + want < buf.len() { p + 4 + want } else { buf.len() as int };
                match request_spec(head, utf8_lossy(buf.subrange(p + 4, end))) {
                    Some(r) => FramingView::Ready(r),
                    None => FramingView::Bad(bad_request()),
                }
            }
        },
    }
}

/// Decides, from the bytes of a connection read so far, whether to read more, to
/// answer 400, or to hand on the request.
pub fn frame_request(buf: &[u8], at_eof: bool) -> (f: Framing)
    ensures
        f@ == framing_spec(buf@, at_eof),
{
    let needle: [u8; 4] = [13u8, 10u8, 13u8, 10u8];
    assert(needle@ =~= header_end());
    let n = buf.len();
    match find_subslice(buf, &needle) {
        None => {
            if at_eof || n > 2_000_000 {
                Framing::Bad(json_text(400, "{\"error\":\"bad request\"}"))
            } else {
                Framing::NeedMore
            }
        },
        Some(p) => {
            proof {
                crate::realdata::lemma_first_from(buf@.len() - 4 + 1, bytes_at(buf@, header_end()), 0);
            }
            let head_bytes = vstd::slice::slice_subrange(buf, 0, p);
            assert(head_bytes@ =~= buf@.take(p as int));
            let head = lossy_string(head_bytes);
            let want = parse_content_length(head.as_str());
            let start = p + 4;
            let short = want > n - start;
            if short && !at_eof && n <= 2_000_000 {
                return Framing::NeedMore;
            }
            let end = if short { n } else { start + want };
            let body_bytes = vstd::slice::slice_subrange(buf, start, end);
            let body = lossy_string(body_bytes);
            match parse_request(head.as_str(), body.as_str()) {
                Some(r) => Framing::Ready(r),
                None => Framing::Bad(json_text(400, "{\"error\":\"bad request\"}")),
            }
        },
    }
}

} // verus!
