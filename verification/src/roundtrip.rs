//! Round trips of the web layer: percent-encoded text decodes back, escaped JSON text
//! unescapes back, and a response's headers and body are read back from its bytes.
use vstd::prelude::*;
use vstd::utf8::{decode_utf8, encode_scalar, encode_utf8, valid_utf8};
use crate::server::{game_param, key_at, query_get_spec, url_decode_spec, bytes_at, esc_char, find_bytes, header_end, hex_lower, hex_val, jesc_spec, url_bytes};
use crate::realdata::lemma_first_is;
use crate::reload::{lemma_digit_run_trimmed, lemma_split_append, lemma_split_sep, lemma_trim_fixed};
use crate::server::{ascii_lower, content_length_spec, lemma_encode_utf8_concat, is_content_length_key, length_header_at, reason_of, response_text, ResponseView};
use crate::text::{
    dec, digit_char, digits_value, find_from, is_digit, is_ws, lemma_find_from_bounds, lines_of, match_at, split_on, strip_cr, trim, trim_start,
    unsigned_body, utf8_len,
};

verus! {

// ------------------------------------------------------------------ percent-encoding

/// The hex digit of `d < 16`, upper case (`A`-`F`) or lower case.
pub open spec fn hex_digit_byte(d: nat, lower: bool) -> u8 {
    if d < 10 {
        (d + 48) as u8
    } else if lower {
        (d + 87) as u8
    } else {
        (d + 55) as u8
    }
}

/// Every byte written as `%XY`.
pub open spec fn pct_bytes(b: Seq<u8>, lower: bool) -> Seq<u8>
    decreases b.len(),
{
    if b.len() == 0 {
        Seq::empty()
    } else {
        seq![37u8, hex_digit_byte((b[0] / 16) as nat, lower), hex_digit_byte((b[0] % 16) as nat, lower)]
            + pct_bytes(b.drop_first(), lower)
    }
}

/// Bytes read as characters one for one (what percent-encoded text is).
pub open spec fn ascii_text(b: Seq<u8>) -> Seq<char> {
    b.map_values(|x: u8| x as char)
}

/// The text that percent-encodes every UTF-8 byte of `s`.
pub open spec fn pct_text(s: Seq<char>, lower: bool) -> Seq<char> {
    ascii_text(pct_bytes(encode_utf8(s), lower))
}

proof fn lemma_hex_digit(d: nat, lower: bool)
    requires
        d < 16,
    ensures
        hex_val(hex_digit_byte(d, lower)) == Some(d),
        hex_digit_byte(d, lower) < 0x80,
{
}

proof fn lemma_url_bytes_pct(b: Seq<u8>, lower: bool)
    ensures
        url_bytes(pct_bytes(b, lower)) == b,
    decreases b.len(),
{
    if b.len() > 0 {
        let x = b[0];
        let hi = (x / 16) as nat;
        let lo = (x % 16) as nat;
        lemma_hex_digit(hi, lower);
        lemma_hex_digit(lo, lower);
        let t = pct_bytes(b, lower);
        let rest = pct_bytes(b.drop_first(), lower);
        assert(t.skip(3) =~= rest);
        lemma_url_bytes_pct(b.drop_first(), lower);
        assert(hi * 16 + lo == x);
        assert(((hi * 16 + lo) as u8) == x);
        assert(url_bytes(t) == seq![x] + url_bytes(rest));
        assert(seq![x] + b.drop_first() =~= b);
    }
}

proof fn lemma_pct_ascii(b: Seq<u8>, lower: bool)
    ensures
        forall|i: int| 0 <= i < pct_bytes(b, lower).len() ==> #[trigger] pct_bytes(b, lower)[i] < 0x80,
    decreases b.len(),
{
    if b.len() > 0 {
        lemma_pct_ascii(b.drop_first(), lower);
        lemma_hex_digit((b[0] / 16) as nat, lower);
        lemma_hex_digit((b[0] % 16) as nat, lower);
        let h = seq![37u8, hex_digit_byte((b[0] / 16) as nat, lower), hex_digit_byte((b[0] % 16) as nat, lower)];
        let r = pct_bytes(b.drop_first(), lower);
        assert forall|i: int| 0 <= i < pct_bytes(b, lower).len() implies #[trigger] pct_bytes(b, lower)[i] < 0x80 by {
            if i >= 3 {
                assert(pct_bytes(b, lower)[i] == r[i - 3]);
            }
        }
    }
}

proof fn lemma_ascii_byte(x: u8)
    requires
        x < 0x80,
    ensures
        encode_scalar((x as char) as u32) == seq![x],
{
    assert(((x as char) as u32) == x as u32);
    let v = x as u32;
    assert((v & 0x7F) as u8 == x) by (bit_vector)
        requires
            v == x as u32,
            x < 0x80,
    ;
}

/// ASCII text encodes to its own bytes.
proof fn lemma_encode_ascii(b: Seq<u8>)
    requires
        forall|i: int| 0 <= i < b.len() ==> #[trigger] b[i] < 0x80,
    ensures
        encode_utf8(ascii_text(b)) == b,
    decreases b.len(),
{
    if b.len() > 0 {
        let t = ascii_text(b);
        assert(t.drop_first() =~= ascii_text(b.drop_first()));
        lemma_encode_ascii(b.drop_first());
        lemma_ascii_byte(b[0]);
        assert(seq![b[0]] + b.drop_first() =~= b);
    } else {
        assert(ascii_text(b) =~= Seq::<char>::empty());
    }
}

/// Bytes with no `%` and no `+` are kept as they are.
proof fn lemma_url_bytes_plain(b: Seq<u8>)
    requires
        forall|i: int| 0 <= i < b.len() ==> #[trigger] b[i] != 37 && b[i] != 43,
    ensures
        url_bytes(b) == b,
    decreases b.len(),
{
    if b.len() > 0 {
        lemma_url_bytes_plain(b.drop_first());
        assert(seq![b[0]] + b.drop_first() =~= b);
    }
}

/// The UTF-8 bytes of a character other than the ASCII character `x` never equal `x`:
/// an ASCII character is its own byte, any other character has only bytes of 0x80 and
/// above.
proof fn lemma_scalar_avoids(c: char, x: char)
    requires
        (x as u32) < 0x80,
        c != x,
    ensures
        forall|i: int| 0 <= i < encode_scalar(c as u32).len() ==> #[trigger] encode_scalar(c as u32)[i] != x as u32,
{
    let v = c as u32;
    assert(v != x as u32);
    if v <= 0x7F {
        assert((v & 0x7F) as u8 == v) by (bit_vector)
            requires
                v <= 0x7F,
        ;
    } else {
        assert(forall|y: u8| #[trigger] (0x80u8 | y) >= 0x80) by (bit_vector);
        assert(forall|y: u8| #[trigger] (0xC0u8 | y) >= 0x80) by (bit_vector);
        assert(forall|y: u8| #[trigger] (0xE0u8 | y) >= 0x80) by (bit_vector);
        assert(forall|y: u8| #[trigger] (0xF0u8 | y) >= 0x80) by (bit_vector);
    }
}

/// A text without the ASCII character `x` has no byte `x` in its UTF-8 encoding.
proof fn lemma_encode_avoids(s: Seq<char>, x: char)
    requires
        (x as u32) < 0x80,
        !s.contains(x),
    ensures
        forall|i: int| 0 <= i < encode_utf8(s).len() ==> #[trigger] encode_utf8(s)[i] != x as u32,
    decreases s.len(),
{
    if s.len() > 0 {
        let r = s.drop_first();
        assert(!r.contains(x)) by {
            if r.contains(x) {
                let i = choose|i: int| 0 <= i < r.len() && r[i] == x;
                assert(s[i + 1] == x);
            }
        }
        assert(s[0] != x) by {
            assert(s.contains(s[0]));
        }
        lemma_encode_avoids(r, x);
        lemma_scalar_avoids(s[0], x);
        let e = encode_scalar(s[0] as u32);
        assert forall|i: int| 0 <= i < encode_utf8(s).len() implies #[trigger] encode_utf8(s)[i] != x as u32 by {
            if i < e.len() {
                assert(encode_utf8(s)[i] == e[i]);
            } else {
                assert(encode_utf8(s)[i] == encode_utf8(r)[i - e.len()]);
            }
        }
    }
}

proof fn lemma_encode_plain(s: Seq<char>)
    requires
        !s.contains('%'),
        !s.contains('+'),
    ensures
        forall|i: int| 0 <= i < encode_utf8(s).len() ==> #[trigger] encode_utf8(s)[i] != 37 && encode_utf8(s)[i] != 43,
{
    lemma_encode_avoids(s, '%');
    lemma_encode_avoids(s, '+');
}

/// Percent-encoding every UTF-8 byte of a text (with upper- or lower-case hex) decodes
/// back to the text, and a text without `%` and `+` decodes to itself.
pub proof fn lemma_url_decode_round_trip(s: Seq<char>, lower: bool)
    ensures
        url_decode_spec(pct_text(s, lower)) == s,
        !s.contains('%') && !s.contains('+') ==> url_decode_spec(s) == s,
        url_bytes(encode_utf8(pct_text(s, lower))) == encode_utf8(s),
        valid_utf8(url_bytes(encode_utf8(pct_text(s, lower)))),
        decode_utf8(url_bytes(encode_utf8(pct_text(s, lower)))) == s,
        !s.contains('%') && !s.contains('+') ==> url_bytes(encode_utf8(s)) == encode_utf8(s) && decode_utf8(
            url_bytes(encode_utf8(s)),
        ) == s,
{
    broadcast use vstd::utf8::encode_utf8_valid_utf8, vstd::utf8::encode_utf8_decode_utf8;

    let b = encode_utf8(s);
    lemma_pct_ascii(b, lower);
    lemma_encode_ascii(pct_bytes(b, lower));
    lemma_url_bytes_pct(b, lower);
    if !s.contains('%') && !s.contains('+') {
        lemma_encode_plain(s);
        lemma_url_bytes_plain(b);
    }
}

// ------------------------------------------------------------------ JSON strings

/// Value of a hex digit character, either case.
pub open spec fn hex_char_val(c: char) -> Option<nat> {
    if '0' <= c <= '9' {
        Some((c as u32 - 48) as nat)
    } else if 'a' <= c <= 'f' {
        Some((c as u32 - 87) as nat)
    } else if 'A' <= c <= 'F' {
        Some((c as u32 - 55) as nat)
    } else {
        None
    }
}

/// Value of four hex digit characters.
pub open spec fn hex4(t: Seq<char>) -> Option<nat> {
    if t.len() == 4 && hex_char_val(t[0]) is Some && hex_char_val(t[1]) is Some && hex_char_val(t[2]) is Some
        && hex_char_val(t[3]) is Some {
        Some(
            ((hex_char_val(t[0])->Some_0 * 16 + hex_char_val(t[1])->Some_0) * 16 + hex_char_val(t[2])->Some_0) * 16
                + hex_char_val(t[3])->Some_0,
        )
    } else {
        None
    }
}

/// The character a one-letter escape `\e` stands for.
pub open spec fn simple_escape(e: char) -> Option<char> {
    if e == '"' {
        Some('"')
    } else if e == '\\' {
        Some('\\')
    } else if e == '/' {
        Some('/')
    } else if e == 'b' {
        Some('\u{8}')
    } else if e == 'f' {
        Some('\u{c}')
    } else if e == 'n' {
        Some('\n')
    } else if e == 'r' {
        Some('\r')
    } else if e == 't' {
        Some('\t')
    } else {
        None
    }
}

pub open spec fn prepend(c: char, r: Option<Seq<char>>) -> Option<Seq<char>> {
    match r {
        Some(t) => Some(seq![c] + t),
        None => None,
    }
}

/// The text that the body of a JSON string literal (what stands between its quotes)
/// denotes, or `None` when it is not a valid body: a raw `"` or control character,
/// an unknown escape, or a lone surrogate escape.
pub open spec fn json_string_value(t: Seq<char>) -> Option<Seq<char>>
    decreases t.len(),
{
    if t.len() == 0 {
        Some(Seq::empty())
    } else if t[0] == '\\' {
        if t.len() < 2 {
            None
        } else {
            match simple_escape(t[1]) {
                Some(c) => prepend(c, json_string_value(t.skip(2))),
                None => if t[1] == 'u' && t.len() >= 6 && hex4(t.subrange(2, 6)) is Some {
                    let v = hex4(t.subrange(2, 6))->Some_0;
                    if 0xD800 <= v < 0xDC00 {
                        if t.len() >= 12 && t[6] == '\\' && t[7] == 'u' && hex4(t.subrange(8, 12)) is Some
                            && 0xDC00 <= hex4(t.subrange(8, 12))->Some_0 < 0xE000 {
                            let lo = hex4(t.subrange(8, 12))->Some_0;
                            prepend(
                                (0x10000 + (v - 0xD800) * 0x400 + (lo - 0xDC00)) as char,
                                json_string_value(t.skip(12)),
                            )
                        } else {
                            None
                        }
                    } else if 0xDC00 <= v < 0xE000 {
                        None
                    } else {
                        prepend(v as char, json_string_value(t.skip(6)))
                    }
                } else {
                    None
                },
            }
        }
    } else if t[0] == '"' || (t[0] as u32) < 0x20 {
        None
    } else {
        prepend(t[0], json_string_value(t.drop_first()))
    }
}

proof fn lemma_jesc_front(s: Seq<char>)
    requires
        s.len() > 0,
    ensures
        jesc_spec(s) == esc_char(s[0]) + jesc_spec(s.drop_first()),
    decreases s.len(),
{
    if s.len() == 1 {
        assert(s.drop_last() =~= Seq::<char>::empty());
        assert(s.drop_first() =~= Seq::<char>::empty());
        assert(esc_char(s[0]) + Seq::<char>::empty() =~= esc_char(s[0]));
        assert(Seq::<char>::empty() + esc_char(s.last()) =~= esc_char(s.last()));
    } else {
        lemma_jesc_front(s.drop_last());
        assert(s.drop_last().drop_first() =~= s.drop_first().drop_last());
        assert(s.drop_first().last() == s.last());
        assert(s.drop_last()[0] == s[0]);
        assert(esc_char(s[0]) + jesc_spec(s.drop_first().drop_last()) + esc_char(s.last()) =~= esc_char(s[0]) + (
        jesc_spec(s.drop_first().drop_last()) + esc_char(s.last())));
    }
}

proof fn lemma_hex_lower_val(d: nat)
    requires
        d < 16,
    ensures
        hex_char_val(hex_lower(d)) == Some(d),
{
}

proof fn lemma_unescape_one(c: char, rest: Seq<char>)
    ensures
        json_string_value(esc_char(c) + rest) == prepend(c, json_string_value(rest)),
{
    let t = esc_char(c) + rest;
    let v = c as u32;
    if c == '"' || c == '\\' || c == '\n' || c == '\r' || c == '\t' {
        assert(t.skip(2) =~= rest);
    } else if v < 0x20 {
        let h1 = hex_lower((v / 16) as nat);
        let h2 = hex_lower((v % 16) as nat);
        lemma_hex_lower_val((v / 16) as nat);
        lemma_hex_lower_val((v % 16) as nat);
        assert(t.subrange(2, 6) =~= seq!['0', '0', h1, h2]);
        assert(hex4(t.subrange(2, 6)) == Some(v as nat));
        assert(t.skip(6) =~= rest);
        assert((v as nat) as char == c);
    } else {
        assert(t.drop_first() =~= rest);
    }
}

/// Escaping is undone by reading the escaped text as the body of a JSON string literal:
/// the text comes back exactly; and a text without `"`, `\` and control characters is
/// escaped to itself.
pub proof fn lemma_jesc_round_trip(s: Seq<char>)
    ensures
        json_string_value(jesc_spec(s)) == Some(s),
        (forall|i: int| 0 <= i < s.len() ==> #[trigger] s[i] != '"' && s[i] != '\\' && (s[i] as u32) >= 0x20)
            ==> jesc_spec(s) == s,
    decreases s.len(),
{
    if s.len() == 0 {
        assert(jesc_spec(s) =~= Seq::<char>::empty());
    } else {
        let r = s.drop_first();
        lemma_jesc_round_trip(r);
        lemma_jesc_front(s);
        lemma_unescape_one(s[0], jesc_spec(r));
        assert(seq![s[0]] + r =~= s);
        if forall|i: int| 0 <= i < s.len() ==> #[trigger] s[i] != '"' && s[i] != '\\' && (s[i] as u32) >= 0x20 {
            assert forall|i: int| 0 <= i < r.len() implies #[trigger] r[i] != '"' && r[i] != '\\' && (r[i] as u32) >= 0x20 by {
                assert(r[i] == s[i + 1]);
            }
            assert(s[0] != '"' && s[0] != '\\' && (s[0] as u32) >= 0x20);
            assert(esc_char(s[0]) == seq![s[0]]);
        }
    }
}


// ------------------------------------------------------------------ response framing

/// The bytes of `\r\n`.
pub open spec fn crlf_bytes() -> Seq<u8> {
    seq![13u8, 10u8]
}

/// In `x \r\n y1 \r\n y2 \r\n y3 \r\n\r\n rest`, with no carriage return in `x` and
/// the `y`s and none of the `y`s empty, the first blank line is the one after `y3`.
proof fn lemma_first_blank(x: Seq<u8>, y1: Seq<u8>, y2: Seq<u8>, y3: Seq<u8>, rest: Seq<u8>)
    requires
        forall|i: int| 0 <= i < x.len() ==> #[trigger] x[i] != 13,
        forall|i: int| 0 <= i < y1.len() ==> #[trigger] y1[i] != 13,
        forall|i: int| 0 <= i < y2.len() ==> #[trigger] y2[i] != 13,
        forall|i: int| 0 <= i < y3.len() ==> #[trigger] y3[i] != 13,
        y1.len() > 0,
        y2.len() > 0,
        y3.len() > 0,
    ensures
        find_bytes(
            x + crlf_bytes() + y1 + crlf_bytes() + y2 + crlf_bytes() + y3 + header_end() + rest,
            header_end(),
        ) == Some(x.len() + y1.len() + y2.len() + y3.len() + 6int),
{
    let b = x + crlf_bytes() + y1 + crlf_bytes() + y2 + crlf_bytes() + y3 + header_end() + rest;
    let k: int = x.len() + y1.len() + y2.len() + y3.len() + 6int;
    let p1 = x.len() as int;
    let p2 = p1 + 2 + y1.len();
    let p3 = p2 + 2 + y2.len();
    let he = header_end();
    assert forall|j: int| 0 <= j < k && b[j] == 13 implies j == p1 || j == p2 || j == p3 by {
        if j < p1 {
            assert(b[j] == x[j]);
        } else if j == p1 + 1 {
            assert(b[j] == 10);
        } else if p1 + 2 <= j < p2 {
            assert(b[j] == y1[j - p1 - 2]);
        } else if j == p2 + 1 {
            assert(b[j] == 10);
        } else if p2 + 2 <= j < p3 {
            assert(b[j] == y2[j - p2 - 2]);
        } else if j == p3 + 1 {
            assert(b[j] == 10);
        } else if p3 + 2 <= j < k {
            assert(b[j] == y3[j - p3 - 2]);
        }
    }
    assert(b[p1 + 2] == y1[0]);
    assert(b[p2 + 2] == y2[0]);
    assert(b[p3 + 2] == y3[0]);
    assert(b.subrange(k, k + 4) =~= he);
    assert forall|j: int| 0 <= j < k implies !#[trigger] bytes_at(b, he)(j) by {
        if b.subrange(j, j + 4) == he {
            assert(b.subrange(j, j + 4)[0] == b[j]);
            assert(b.subrange(j, j + 4)[2] == b[j + 2]);
        }
    }
    lemma_first_is(b.len() - 4 + 1, bytes_at(b, he), k);
}


/// The two characters `\r\n`.
pub open spec fn crlf() -> Seq<char> {
    seq!['\r', '\n']
}

/// The status line of a response, such as `HTTP/1.1 200 OK`.
pub open spec fn status_line(r: ResponseView) -> Seq<char> {
    "HTTP/1.1 "@ + dec(r.status as nat) + " "@ + reason_of(r.status)
}

/// The `Content-Type` header line.
pub open spec fn type_line(r: ResponseView) -> Seq<char> {
    "Content-Type: "@ + r.content_type
}

/// The `Content-Length` header line.
pub open spec fn length_line(r: ResponseView) -> Seq<char> {
    "Content-Length: "@ + dec(utf8_len(r.body))
}

/// The last header line.
pub open spec fn close_line() -> Seq<char> {
    "Connection: close"@
}

/// The status line and the headers, without the blank line that ends them.
pub open spec fn response_head(r: ResponseView) -> Seq<char> {
    status_line(r) + crlf() + type_line(r) + crlf() + length_line(r) + crlf() + close_line()
}

/// Value of the decimal text of `n`.
proof fn lemma_dec_value(n: nat)
    ensures
        digits_value(dec(n)) == n,
    decreases n,
{
    let d = n % 10;
    assert(digit_char(d) as nat == d + 48);
    if n < 10 {
        assert(dec(n).drop_last() =~= Seq::<char>::empty());
        assert(digits_value(Seq::<char>::empty()) == 0);
        assert(digits_value(dec(n)) == digits_value(dec(n).drop_last()) * 10 + (dec(n).last() as nat - 48) as nat);
    } else {
        lemma_dec_value(n / 10);
        assert(dec(n).drop_last() =~= dec(n / 10));
        assert(dec(n).last() == digit_char(d));
        assert(digits_value(dec(n)) == digits_value(dec(n).drop_last()) * 10 + (dec(n).last() as nat - 48) as nat);
        assert((n / 10) * 10 + d == n);
    }
}

/// The response text is the head, a blank line, then the body.
proof fn lemma_text_is_head(r: ResponseView)
    ensures
        response_text(r) == response_head(r) + crlf() + crlf() + r.body,
{
    reveal_strlit("HTTP/1.1 ");
    reveal_strlit(" ");
    reveal_strlit("\r\nContent-Type: ");
    reveal_strlit("\r\nContent-Length: ");
    reveal_strlit("\r\nConnection: close\r\n\r\n");
    reveal_strlit("Content-Type: ");
    reveal_strlit("Content-Length: ");
    reveal_strlit("Connection: close");
    assert(response_text(r) =~= response_head(r) + crlf() + crlf() + r.body);
}

/// The status line holds no line break and no colon.
proof fn lemma_status_line_plain(r: ResponseView)
    ensures
        !status_line(r).contains('\r'),
        !status_line(r).contains('\n'),
        !status_line(r).contains(':'),
        status_line(r).len() > 0,
{
    reveal_strlit("HTTP/1.1 ");
    reveal_strlit(" ");
    reveal_strlit("OK");
    reveal_strlit("Bad Request");
    reveal_strlit("Not Found");
    reveal_strlit("Method Not Allowed");
    let d = dec(r.status as nat);
    crate::reload::lemma_dec_digits(r.status as nat);
    let a = "HTTP/1.1 "@;
    let m = " "@;
    let why = reason_of(r.status);
    let s = status_line(r);
    assert forall|i: int| 0 <= i < s.len() implies s[i] != '\r' && s[i] != '\n' && s[i] != ':' by {
        if i < a.len() {
            assert(s[i] == a[i]);
        } else if i < a.len() + d.len() {
            assert(s[i] == d[i - a.len()]);
            assert(is_digit(d[i - a.len()]));
        } else if i < a.len() + d.len() + 1 {
            assert(s[i] == ' ');
        } else {
            assert(s[i] == why[i - a.len() - d.len() - 1]);
        }
    }
}

/// A header line made of a literal name and a value without line breaks holds no line
/// break.
proof fn lemma_header_plain(name: Seq<char>, value: Seq<char>)
    requires
        !name.contains('\r'),
        !name.contains('\n'),
        !value.contains('\r'),
        !value.contains('\n'),
    ensures
        !(name + value).contains('\r'),
        !(name + value).contains('\n'),
{
    let s = name + value;
    assert forall|i: int| 0 <= i < s.len() implies s[i] != '\r' && s[i] != '\n' by {
        if i < name.len() {
            assert(s[i] == name[i]);
            assert(name.contains(name[i]));
        } else {
            assert(s[i] == value[i - name.len()]);
            assert(value.contains(value[i - name.len()]));
        }
    }
}

/// No header line of a response holds a line break, when its content type holds none.
proof fn lemma_lines_plain(r: ResponseView)
    requires
        !r.content_type.contains('\r'),
        !r.content_type.contains('\n'),
    ensures
        !status_line(r).contains('\r') && !status_line(r).contains('\n'),
        !type_line(r).contains('\r') && !type_line(r).contains('\n'),
        !length_line(r).contains('\r') && !length_line(r).contains('\n'),
        !close_line().contains('\r') && !close_line().contains('\n'),
        status_line(r).len() > 0 && type_line(r).len() > 0 && length_line(r).len() > 0 && close_line().len() > 0,
{
    reveal_strlit("Content-Type: ");
    reveal_strlit("Content-Length: ");
    reveal_strlit("Connection: close");
    lemma_status_line_plain(r);
    let d = dec(utf8_len(r.body));
    crate::reload::lemma_dec_digits(utf8_len(r.body));
    assert(!d.contains('\r') && !d.contains('\n')) by {
        if d.contains('\r') || d.contains('\n') {
            let i = choose|i: int| 0 <= i < d.len() && (d[i] == '\r' || d[i] == '\n');
            assert(is_digit(d[i]));
        }
    }
    lemma_header_plain("Content-Type: "@, r.content_type);
    lemma_header_plain("Content-Length: "@, d);
    lemma_header_plain("Connection: close"@, Seq::<char>::empty());
    assert("Connection: close"@ + Seq::<char>::empty() =~= close_line());
}

proof fn lemma_push_cr_plain(l: Seq<char>)
    requires
        !l.contains('\n'),
    ensures
        !l.push('\r').contains('\n'),
{
    if l.push('\r').contains('\n') {
        let i = choose|i: int| 0 <= i < l.push('\r').len() && l.push('\r')[i] == '\n';
        assert(l[i] == '\n');
    }
}

/// The lines of a response head are its status line and its three header lines.
proof fn lemma_head_lines(r: ResponseView)
    requires
        !r.content_type.contains('\r'),
        !r.content_type.contains('\n'),
    ensures
        lines_of(response_head(r)) == seq![status_line(r), type_line(r), length_line(r), close_line()],
{
    lemma_lines_plain(r);
    let x = status_line(r).push('\r');
    let y1 = type_line(r).push('\r');
    let y2 = length_line(r).push('\r');
    let y3 = close_line();
    let e = Seq::<char>::empty();
    lemma_push_cr_plain(status_line(r));
    lemma_push_cr_plain(type_line(r));
    lemma_push_cr_plain(length_line(r));
    lemma_split_append(e, x, '\n');
    assert(e + x =~= x);
    assert(split_on(x, '\n') =~= seq![x]);
    lemma_split_sep(x, '\n');
    let s1 = x.push('\n');
    lemma_split_append(s1, y1, '\n');
    assert(split_on(s1 + y1, '\n') =~= seq![x, y1]);
    let s2 = (s1 + y1).push('\n');
    lemma_split_sep(s1 + y1, '\n');
    lemma_split_append(s2, y2, '\n');
    assert(split_on(s2 + y2, '\n') =~= seq![x, y1, y2]);
    let s3 = (s2 + y2).push('\n');
    lemma_split_sep(s2 + y2, '\n');
    lemma_split_append(s3, y3, '\n');
    assert(split_on(s3 + y3, '\n') =~= seq![x, y1, y2, y3]);
    assert(response_head(r) =~= s3 + y3);
    assert(strip_cr(x) =~= status_line(r));
    assert(strip_cr(y1) =~= type_line(r));
    assert(strip_cr(y2) =~= length_line(r));
    assert(lines_of(response_head(r)) =~= seq![status_line(r), type_line(r), length_line(r), close_line()]);
}

/// The first occurrence of the character `c` in `s` is at `i`.
proof fn lemma_find_char_at(s: Seq<char>, c: char, i: int)
    requires
        0 <= i < s.len(),
        s[i] == c,
        forall|j: int| 0 <= j < i ==> s[j] != c,
    ensures
        find_from(s, seq![c], 0) == Some(i),
{
    lemma_find_from_bounds(s, seq![c], 0);
    assert(s.subrange(i, i + 1) =~= seq![c]);
    assert(match_at(s, seq![c], i));
    match find_from(s, seq![c], 0) {
        Some(j) => {
            assert(s.subrange(j, j + 1)[0] == s[j]);
        },
        None => {},
    }
}

/// A text without the character `c` has no occurrence of it.
proof fn lemma_find_char_none(s: Seq<char>, c: char)
    requires
        !s.contains(c),
    ensures
        find_from(s, seq![c], 0) is None,
{
    lemma_find_from_bounds(s, seq![c], 0);
    match find_from(s, seq![c], 0) {
        Some(j) => {
            assert(s.subrange(j, j + 1)[0] == s[j]);
            assert(s.contains(s[j]));
        },
        None => {},
    }
}

/// The `Content-Length` header of a response head is the body's length in bytes.
proof fn lemma_head_length(r: ResponseView)
    requires
        !r.content_type.contains('\r'),
        !r.content_type.contains('\n'),
        utf8_len(r.body) <= usize::MAX,
    ensures
        content_length_spec(response_head(r)) == utf8_len(r.body),
{
    reveal_strlit("Content-Type: ");
    reveal_strlit("Content-Length: ");
    reveal_strlit("content-length");
    lemma_head_lines(r);
    lemma_status_line_plain(r);
    let ls = lines_of(response_head(r));
    let p = length_header_at(ls);
    let n = utf8_len(r.body);
    let d = dec(n);
    crate::reload::lemma_dec_digits(n);
    // the status line has no colon
    lemma_find_char_none(status_line(r), ':');
    assert(!p(0));
    // the type line's name is not `content-length`
    let y1 = type_line(r);
    lemma_find_char_at(y1, ':', 12);
    let k1 = y1.take(12);
    lemma_trim_fixed(k1);
    assert(!p(1));
    // the length line's name is `content-length`
    let y2 = length_line(r);
    lemma_find_char_at(y2, ':', 14);
    let k = y2.take(14);
    lemma_trim_fixed(k);
    let t = "content-length"@;
    assert forall|i: int| 0 <= i < k.len() implies ascii_lower(#[trigger] k[i]) == t[i] by {
        if i == 0 {
            assert(ascii_lower(k[0]) == t[0]);
        } else if i == 1 {
            assert(ascii_lower(k[1]) == t[1]);
        } else if i == 2 {
            assert(ascii_lower(k[2]) == t[2]);
        } else if i == 3 {
            assert(ascii_lower(k[3]) == t[3]);
        } else if i == 4 {
            assert(ascii_lower(k[4]) == t[4]);
        } else if i == 5 {
            assert(ascii_lower(k[5]) == t[5]);
        } else if i == 6 {
            assert(ascii_lower(k[6]) == t[6]);
        } else if i == 7 {
            assert(ascii_lower(k[7]) == t[7]);
        } else if i == 8 {
            assert(ascii_lower(k[8]) == t[8]);
        } else if i == 9 {
            assert(ascii_lower(k[9]) == t[9]);
        } else if i == 10 {
            assert(ascii_lower(k[10]) == t[10]);
        } else if i == 11 {
            assert(ascii_lower(k[11]) == t[11]);
        } else if i == 12 {
            assert(ascii_lower(k[12]) == t[12]);
        } else if i == 13 {
            assert(ascii_lower(k[13]) == t[13]);
        }
    }
    assert(is_content_length_key(trim(k)));
    assert(p(2));
    lemma_first_is(ls.len() as int, p, 2);
    // its value is the body's length
    let v = y2.skip(15);
    assert(v =~= seq![' '] + d);
    assert(v.drop_first() =~= d);
    assert(is_ws(v[0]));
    assert(trim_start(v) == trim_start(d));
    lemma_digit_run_trimmed(d);
    assert(trim(v) == d);
    assert(is_digit(d[0]));
    assert(unsigned_body(d) == d);
    lemma_dec_value(n);
}


proof fn lemma_crlf_bytes()
    ensures
        encode_utf8(crlf()) == crlf_bytes(),
        encode_utf8(crlf() + crlf()) == header_end(),
{
    let cr: u32 = 13;
    let lf: u32 = 10;
    assert((cr & 0x7F) as u8 == 13u8 && (lf & 0x7F) as u8 == 10u8) by (bit_vector)
        requires
            cr == 13,
            lf == 10,
    ;
    assert('\r' as u32 == cr && '\n' as u32 == lf);
    let c = seq!['\r'];
    let l = seq!['\n'];
    assert(c.drop_first() =~= Seq::<char>::empty());
    assert(l.drop_first() =~= Seq::<char>::empty());
    assert(encode_utf8(Seq::<char>::empty()) =~= Seq::<u8>::empty());
    assert(encode_scalar(cr) =~= seq![13u8]);
    assert(encode_scalar(lf) =~= seq![10u8]);
    assert(c[0] as u32 == cr);
    assert(l[0] as u32 == lf);
    assert(encode_utf8(c) =~= seq![13u8]);
    assert(encode_utf8(l) =~= seq![10u8]);
    assert(crlf() =~= c + l);
    lemma_encode_utf8_concat(c, l);
    assert(encode_utf8(crlf()) =~= crlf_bytes());
    lemma_encode_utf8_concat(crlf(), crlf());
    assert(encode_utf8(crlf() + crlf()) =~= header_end());
}

proof fn lemma_encode_nonempty(s: Seq<char>)
    requires
        s.len() > 0,
    ensures
        encode_utf8(s).len() > 0,
{
    assert(encode_scalar(s[0] as u32).len() > 0);
}

/// No byte of the UTF-8 encoding of a text without `\r` is a carriage return.
proof fn lemma_no_cr_bytes(s: Seq<char>)
    requires
        !s.contains('\r'),
    ensures
        forall|i: int| 0 <= i < encode_utf8(s).len() ==> #[trigger] encode_utf8(s)[i] != 13,
{
    lemma_encode_avoids(s, '\r');
    assert('\r' as u32 == 13);
}

/// The bytes of a response: those of each head line with `\r\n` between them, the
/// blank line, then the body's bytes.
proof fn lemma_response_bytes(r: ResponseView)
    ensures
        encode_utf8(response_head(r)) == encode_utf8(status_line(r)) + crlf_bytes() + encode_utf8(type_line(r))
            + crlf_bytes() + encode_utf8(length_line(r)) + crlf_bytes() + encode_utf8(close_line()),
        encode_utf8(response_text(r)) == encode_utf8(response_head(r)) + header_end() + encode_utf8(r.body),
        encode_utf8(response_head(r)).take(encode_utf8(status_line(r) + crlf()).len() as int) == encode_utf8(
            status_line(r) + crlf(),
        ),
{
    lemma_text_is_head(r);
    lemma_crlf_bytes();
    let x = status_line(r);
    let y1 = type_line(r);
    let y2 = length_line(r);
    let y3 = close_line();
    let c = crlf();
    let cb = crlf_bytes();
    let h1 = x + c;
    let h2 = h1 + y1;
    let h3 = h2 + c;
    let h4 = h3 + y2;
    let h5 = h4 + c;
    let head = h5 + y3;
    assert(head == response_head(r));
    lemma_encode_utf8_concat(x, c);
    lemma_encode_utf8_concat(h1, y1);
    lemma_encode_utf8_concat(h2, c);
    lemma_encode_utf8_concat(h3, y2);
    lemma_encode_utf8_concat(h4, c);
    lemma_encode_utf8_concat(h5, y3);
    let eh = encode_utf8(head);
    assert(eh =~= encode_utf8(x) + cb + encode_utf8(y1) + cb + encode_utf8(y2) + cb + encode_utf8(y3));
    let cc = c + c;
    assert(response_text(r) =~= head + (cc + r.body));
    lemma_encode_utf8_concat(head, cc + r.body);
    lemma_encode_utf8_concat(cc, r.body);
    assert(encode_utf8(response_text(r)) =~= eh + header_end() + encode_utf8(r.body));
    let e1 = encode_utf8(h1);
    assert(eh =~= e1 + (encode_utf8(y1) + cb + encode_utf8(y2) + cb + encode_utf8(y3)));
    assert(eh.take(e1.len() as int) =~= e1);
}

/// A response read back from its bytes: the first blank line ends the headers, and
/// what comes before it is exactly the bytes of the head, which are valid UTF-8 and
/// decode to the head; after the blank line come exactly the body's bytes; the head's
/// `Content-Length` is the body's length in bytes; and the bytes start with the status
/// line. The content type must hold no line break (one would end the headers early),
/// and the body's length must fit in `usize` (the largest `Content-Length` read).
pub proof fn lemma_response_reads_back(r: ResponseView)
    requires
        !r.content_type.contains('\r'),
        !r.content_type.contains('\n'),
        utf8_len(r.body) <= usize::MAX,
    ensures
        find_bytes(encode_utf8(response_text(r)), header_end()) == Some(encode_utf8(response_head(r)).len() as int),
        encode_utf8(response_text(r)).take(encode_utf8(response_head(r)).len() as int) == encode_utf8(response_head(r)),
        encode_utf8(response_text(r)).skip(encode_utf8(response_head(r)).len() + 4int) == encode_utf8(r.body),
        valid_utf8(encode_utf8(response_head(r))),
        decode_utf8(encode_utf8(response_head(r))) == response_head(r),
        content_length_spec(response_head(r)) == utf8_len(r.body),
        encode_utf8(response_text(r)).take(encode_utf8(status_line(r) + crlf()).len() as int) == encode_utf8(
            status_line(r) + crlf(),
        ),
{
    vstd::utf8::encode_utf8_valid_utf8(response_head(r));
    vstd::utf8::encode_utf8_decode_utf8(response_head(r));
    lemma_lines_plain(r);
    lemma_head_length(r);
    lemma_response_bytes(r);
    let ex = encode_utf8(status_line(r));
    let e1 = encode_utf8(type_line(r));
    let e2 = encode_utf8(length_line(r));
    let e3 = encode_utf8(close_line());
    lemma_no_cr_bytes(status_line(r));
    lemma_no_cr_bytes(type_line(r));
    lemma_no_cr_bytes(length_line(r));
    lemma_no_cr_bytes(close_line());
    lemma_encode_nonempty(type_line(r));
    lemma_encode_nonempty(length_line(r));
    lemma_encode_nonempty(close_line());
    let eh = encode_utf8(response_head(r));
    let eb = encode_utf8(r.body);
    let b = encode_utf8(response_text(r));
    lemma_first_blank(ex, e1, e2, e3, eb);
    assert(b =~= ex + crlf_bytes() + e1 + crlf_bytes() + e2 + crlf_bytes() + e3 + header_end() + eb);
    assert(b.take(eh.len() as int) =~= eh);
    assert(b.skip(eh.len() + 4int) =~= eb);
    lemma_crlf_bytes();
    lemma_encode_utf8_concat(status_line(r), crlf());
    let k = encode_utf8(status_line(r) + crlf()).len() as int;
    assert(k <= eh.len());
    assert(b.take(k) =~= eh.take(k));
}

/// A query `game=<g>` selects the game `g`, for any `g` without `&`, `%` and `+`: the
/// handler routes a plain query value by its text.
pub proof fn lemma_game_query(g: Seq<char>)
    requires
        !g.contains('&'),
        !g.contains('%'),
        !g.contains('+'),
    ensures
        query_get_spec("game="@ + g, "game"@) == Some(g),
        game_param("game="@ + g) == g,
{
    reveal_strlit("game=");
    reveal_strlit("game");
    let q = "game="@ + g;
    assert(!q.contains('&')) by {
        if q.contains('&') {
            let i = choose|i: int| 0 <= i < q.len() && q[i] == '&';
            assert(g[i - 5] == '&');
        }
    }
    let e = Seq::<char>::empty();
    lemma_split_append(e, q, '&');
    assert(e + q =~= q);
    let pairs = split_on(q, '&');
    assert(pairs =~= seq![q]);
    lemma_find_char_at(q, '=', 4);
    assert(q.take(4) =~= "game"@);
    lemma_first_is(1, key_at(pairs, "game"@), 0);
    assert(q.skip(5) =~= g);
    lemma_url_decode_round_trip(g, false);
}

} // verus!
