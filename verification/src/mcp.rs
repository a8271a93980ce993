//! The MCP server's protocol helpers: JSON-RPC error values and the percent
//! encoding of repository names in resource URIs.

use vstd::prelude::*;
use vstd::utf8::{decode_utf8, encode_utf8, is_ascii_chars, valid_utf8};
use crate::text::{chars_of, concat, push_char, string_of};

verus! {

/// The content of a protocol error.
pub struct McpErrorView {
    pub code: i64,
    pub message: Seq<char>,
}

/// A JSON-RPC error: its code and message.
#[derive(Debug)]
pub struct McpError {
    pub code: i64,
    pub message: String,
}

impl View for McpError {
    type V = McpErrorView;

    open spec fn view(&self) -> McpErrorView {
        McpErrorView { code: self.code, message: self.message@ }
    }
}

impl McpError {
    /// An "invalid params" error (-32602).
    pub fn invalid_params(message: &str) -> (r: Self)
        ensures
            r@ == (McpErrorView { code: -32602i64, message: message@ }),
    {
        McpError { code: -32602, message: message.to_owned() }
    }

    /// A "method not found" error (-32601) naming the method.
    pub fn method_not_found(method: &str) -> (r: Self)
        ensures
            r@ == (McpErrorView { code: -32601i64, message: "Method not found: "@ + method@ }),
    {
        let text = concat(&chars_of("Method not found: "), &chars_of(method));
        McpError { code: -32601, message: string_of(&text) }
    }

    /// An internal error (-32603).
    pub fn internal(message: &str) -> (r: Self)
        ensures
            r@ == (McpErrorView { code: -32603i64, message: message@ }),
    {
        McpError { code: -32603, message: message.to_owned() }
    }
}

/// A numeric tool argument: the value given (as a `usize`), else `default`,
/// clamped to `min..=max`.
pub open spec fn spec_bounded_arg(value: Option<u64>, default: usize, min: usize, max: usize) -> usize {
    let v = match value {
        Some(v) => v as usize,
        None => default,
    };
    if v < min {
        min
    } else if v > max {
        max
    } else {
        v
    }
}

/// A numeric tool argument: the value given, else `default`, clamped to
/// `min..=max`.
pub fn bounded_arg(value: Option<u64>, default: usize, min: usize, max: usize) -> (r: usize)
    requires
        min <= max,
    ensures
        r == spec_bounded_arg(value, default, min, max),
{
    let v: usize = match value {
        Some(v) => v as usize,
        None => default,
    };
    if v < min {
        min
    } else if v > max {
        max
    } else {
        v
    }
}

/// Whether a byte stands for itself in a percent-encoded text: an ASCII
/// letter or digit, or one of `-`, `_`, `.`, `~`.
pub open spec fn is_unreserved(b: u8) -> bool {
    (48 <= b <= 57) || (65 <= b <= 90) || (97 <= b <= 122) || b == 45 || b == 95 || b == 46 || b == 126
}

/// The uppercase hexadecimal digit for `d` (below 16).
pub open spec fn hex_upper(d: int) -> char {
    if d < 10 {
        (48 + d) as char
    } else {
        (55 + d) as char
    }
}

/// The text a byte becomes: itself when unreserved, else `%` and two
/// uppercase hexadecimal digits.
pub open spec fn encode_byte(b: u8) -> Seq<char> {
    if is_unreserved(b) {
        seq![b as char]
    } else {
        seq!['%', hex_upper((b / 16) as int), hex_upper((b % 16) as int)]
    }
}

/// The percent encoding of a byte sequence.
pub open spec fn percent_encode_bytes(bs: Seq<u8>) -> Seq<char>
    decreases bs.len(),
{
    if bs.len() == 0 {
        Seq::empty()
    } else {
        encode_byte(bs[0]) + percent_encode_bytes(bs.drop_first())
    }
}

/// The percent encoding of a text's UTF-8 bytes.
pub open spec fn spec_percent_encode(s: Seq<char>) -> Seq<char> {
    percent_encode_bytes(encode_utf8(s))
}

proof fn lemma_encode_concat(a: Seq<u8>, b: Seq<u8>)
    ensures
        percent_encode_bytes(a + b) == percent_encode_bytes(a) + percent_encode_bytes(b),
    decreases a.len(),
{
    if a.len() == 0 {
        assert(a + b =~= b);
    } else {
        assert((a + b).drop_first() =~= a.drop_first() + b);
        lemma_encode_concat(a.drop_first(), b);
        assert(encode_byte(a[0]) + (percent_encode_bytes(a.drop_first()) + percent_encode_bytes(b))
            =~= (encode_byte(a[0]) + percent_encode_bytes(a.drop_first())) + percent_encode_bytes(b));
    }
}

fn hex_digit_upper(d: u8) -> (r: char)
    requires
        d < 16,
    ensures
        r == hex_upper(d as int),
{
    if d < 10 {
        (48 + d) as char
    } else {
        (55 + d) as char
    }
}

/// Percent-encode a text's UTF-8 bytes: ASCII letters, digits and `-_.~`
/// stay, every other byte becomes `%XX`.
pub fn percent_encode(value: &str) -> (r: String)
    ensures
        r@ == spec_percent_encode(value@),
{
    let bytes = value.as_bytes();
    let ghost bs = encode_utf8(value@);
    let mut out = String::new();
    let mut i: usize = 0;
    assert(bytes@ == bs);
    while i < bytes.len()
        invariant
            bytes@ == bs,
            i <= bs.len(),
            out@ == percent_encode_bytes(bs.subrange(0, i as int)),
        decreases bytes.len() - i,
    {
        let byte = bytes[i];
        proof {
            assert(bs.subrange(0, i + 1) =~= bs.subrange(0, i as int) + seq![byte]);
            lemma_encode_concat(bs.subrange(0, i as int), seq![byte]);
            assert(seq![byte].drop_first() =~= Seq::<u8>::empty());
            assert(seq![byte][0] == byte);
            assert(percent_encode_bytes(Seq::<u8>::empty()) =~= Seq::<char>::empty());
            assert(encode_byte(byte) + Seq::<char>::empty() =~= encode_byte(byte));
            assert(percent_encode_bytes(seq![byte]) =~= encode_byte(byte));
        }
        if (48 <= byte && byte <= 57) || (65 <= byte && byte <= 90) || (97 <= byte && byte <= 122) || byte == 45
            || byte == 95 || byte == 46 || byte == 126 {
            push_char(&mut out, byte as char);
        } else {
            push_char(&mut out, '%');
            push_char(&mut out, hex_digit_upper(byte / 16));
            push_char(&mut out, hex_digit_upper(byte % 16));
        }
        assert(out@ =~= percent_encode_bytes(bs.subrange(0, i + 1)));
        i = i + 1;
    }
    assert(bs.subrange(0, bs.len() as int) =~= bs);
    out
}

/// The value of an ASCII hexadecimal digit (either case).
pub open spec fn hex_value(b: u8) -> Option<int> {
    if 48 <= b <= 57 {
        Some(b - 48)
    } else if 65 <= b <= 70 {
        Some(b - 55)
    } else if 97 <= b <= 102 {
        Some(b - 87)
    } else {
        None
    }
}

/// The byte that the two bytes after a `%` stand for, read as a
/// hexadecimal number (`u8::from_str_radix` with radix 16, which also takes
/// a `+` sign before a single digit).
pub open spec fn percent_pair(b1: u8, b2: u8) -> Option<u8> {
    if b1 == 43 {
        match hex_value(b2) {
            Some(v) => Some(v as u8),
            None => None,
        }
    } else {
        match (hex_value(b1), hex_value(b2)) {
            (Some(h), Some(l)) => Some((16 * h + l) as u8),
            _ => None,
        }
    }
}

/// The bytes a percent-encoded byte sequence stands for; none when a `%` is
/// not followed by two bytes that read as a hexadecimal number.
pub open spec fn percent_decode_bytes(bs: Seq<u8>) -> Option<Seq<u8>>
    decreases bs.len(),
{
    if bs.len() == 0 {
        Some(Seq::empty())
    } else if bs[0] == 37 {
        if bs.len() < 3 {
            None
        } else {
            match percent_pair(bs[1], bs[2]) {
                None => None,
                Some(v) => match percent_decode_bytes(bs.subrange(3, bs.len() as int)) {
                    Some(rest) => Some(seq![v] + rest),
                    None => None,
                },
            }
        }
    } else {
        match percent_decode_bytes(bs.drop_first()) {
            Some(rest) => Some(seq![bs[0]] + rest),
            None => None,
        }
    }
}

/// The text a percent-encoded text stands for: none when the encoding is
/// broken or the bytes it gives are not UTF-8.
pub open spec fn spec_percent_decode(v: Seq<char>) -> Option<Seq<char>> {
    match percent_decode_bytes(encode_utf8(v)) {
        Some(bs) => if valid_utf8(bs) {
            Some(decode_utf8(bs))
        } else {
            None
        },
        None => None,
    }
}

/// `String::from_utf8`: the text whose UTF-8 encoding is `bytes`, if they
/// are valid UTF-8.
#[verifier::external_body]
fn string_from_utf8(bytes: Vec<u8>) -> (r: Option<String>)
    ensures
        match r {
            Some(s) => valid_utf8(bytes@) && s@ == decode_utf8(bytes@),
            None => !valid_utf8(bytes@),
        },
{
    String::from_utf8(bytes).ok()
}

fn hex_value_exec(b: u8) -> (r: Option<u8>)
    ensures
        match r {
            Some(v) => hex_value(b) == Some(v as int),
            None => hex_value(b) is None,
        },
{
    if 48 <= b && b <= 57 {
        Some(b - 48)
    } else if 65 <= b && b <= 70 {
        Some(b - 55)
    } else if 97 <= b && b <= 102 {
        Some(b - 87)
    } else {
        None
    }
}

/// What a decoding result comes to once `prefix` is put before it.
pub open spec fn prepend(prefix: Seq<u8>, o: Option<Seq<u8>>) -> Option<Seq<u8>> {
    match o {
        Some(rest) => Some(prefix + rest),
        None => None,
    }
}

/// Decode a percent-encoded text.
pub fn percent_decode(value: &str) -> (r: Result<String, McpError>)
    ensures
        match r {
            Ok(s) => spec_percent_decode(value@) == Some(s@),
            Err(e) => spec_percent_decode(value@) is None && e@ == (McpErrorView {
                code: -32602i64,
                message: if percent_decode_bytes(encode_utf8(value@)) is None {
                    "invalid percent encoding"@
                } else {
                    "invalid UTF-8 in URI"@
                },
            }),
        },
{
    let input = value.as_bytes();
    let ghost bs = encode_utf8(value@);
    let mut bytes: Vec<u8> = Vec::new();
    let mut i: usize = 0;
    assert(input@ == bs);
    assert(bs.subrange(0, bs.len() as int) =~= bs);
    assert(bytes@ + bs =~= bs);
    while i < input.len()
        invariant
            input@ == bs,
            bs == encode_utf8(value@),
            i <= bs.len(),
            percent_decode_bytes(bs) == prepend(bytes@, percent_decode_bytes(bs.subrange(i as int, bs.len() as int))),
        decreases input.len() - i,
    {
        let ghost rest = bs.subrange(i as int, bs.len() as int);
        assert(rest[0] == input@[i as int]);
        if input[i] == 37 {
            if input.len() - i <= 2 {
                assert(percent_decode_bytes(rest) is None);
                return Err(McpError::invalid_params("invalid percent encoding"));
            }
            let b1 = input[i + 1];
            let b2 = input[i + 2];
            assert(rest[1] == b1 && rest[2] == b2);
            assert(rest.subrange(3, rest.len() as int) =~= bs.subrange(i + 3, bs.len() as int));
            let byte: u8 = if b1 == 43 {
                match hex_value_exec(b2) {
                    Some(v) => v,
                    None => {
                        assert(percent_decode_bytes(rest) is None);
                        return Err(McpError::invalid_params("invalid percent encoding"));
                    },
                }
            } else {
                match (hex_value_exec(b1), hex_value_exec(b2)) {
                    (Some(h), Some(l)) => 16 * h + l,
                    _ => {
                        assert(percent_decode_bytes(rest) is None);
                        return Err(McpError::invalid_params("invalid percent encoding"));
                    },
                }
            };
            assert(percent_pair(b1, b2) == Some(byte));
            let ghost before = bytes@;
            bytes.push(byte);
            assert(before + (seq![byte] + percent_decode_bytes(bs.subrange(i + 3, bs.len() as int))->0)
                =~= bytes@ + percent_decode_bytes(bs.subrange(i + 3, bs.len() as int))->0);
            i = i + 3;
        } else {
            let b = input[i];
            assert(rest.drop_first() =~= bs.subrange(i + 1, bs.len() as int));
            let ghost before = bytes@;
            bytes.push(b);
            assert(before + (seq![b] + percent_decode_bytes(bs.subrange(i + 1, bs.len() as int))->0)
                =~= bytes@ + percent_decode_bytes(bs.subrange(i + 1, bs.len() as int))->0);
            i = i + 1;
        }
    }
    assert(bytes@ + Seq::<u8>::empty() =~= bytes@);
    let ghost decoded = bytes@;
    match string_from_utf8(bytes) {
        Some(s) => Ok(s),
        None => Err(McpError::invalid_params("invalid UTF-8 in URI")),
    }
}

proof fn lemma_encoded_is_ascii(bs: Seq<u8>)
    ensures
        is_ascii_chars(percent_encode_bytes(bs)),
        forall|i: int| 0 <= i < percent_encode_bytes(bs).len() ==> (#[trigger] percent_encode_bytes(bs)[i]) != '+',
    decreases bs.len(),
{
    if bs.len() > 0 {
        lemma_encoded_is_ascii(bs.drop_first());
        let head = encode_byte(bs[0]);
        let tail = percent_encode_bytes(bs.drop_first());
        assert forall|i: int| 0 <= i < head.len() + tail.len() implies '\0' <= #[trigger] (head + tail)[i] <= '\u{7f}'
            && (head + tail)[i] != '+' by {
            if i < head.len() {
                if is_unreserved(bs[0]) {
                    assert((bs[0] as char) as u32 == bs[0] as u32);
                }
            } else {
                assert((head + tail)[i] == tail[i - head.len()]);
            }
        }
    }
}

proof fn lemma_decode_encoded(bs: Seq<u8>)
    ensures
        percent_decode_bytes(percent_encode_bytes(bs).map_values(|c: char| c as u8)) == Some(bs),
    decreases bs.len(),
{
    let enc = percent_encode_bytes(bs).map_values(|c: char| c as u8);
    if bs.len() == 0 {
        assert(enc =~= Seq::<u8>::empty());
    } else {
        let b = bs[0];
        lemma_decode_encoded(bs.drop_first());
        let tail = percent_encode_bytes(bs.drop_first()).map_values(|c: char| c as u8);
        let head = encode_byte(b).map_values(|c: char| c as u8);
        assert(enc =~= head + tail);
        if is_unreserved(b) {
            assert(head =~= seq![b]);
            assert(enc[0] == b);
            assert(enc.drop_first() =~= tail);
        } else {
            let hi = b / 16;
            let lo = b % 16;
            assert(head[0] == 37);
            assert(hex_value(head[1]) == Some(hi as int));
            assert(hex_value(head[2]) == Some(lo as int));
            assert(head[1] != 43);
            assert(enc[0] == 37 && enc[1] == head[1] && enc[2] == head[2]);
            assert(enc.subrange(3, enc.len() as int) =~= tail);
            assert((16 * hi + lo) as u8 == b);
        }
        assert(seq![b] + bs.drop_first() =~= bs);
    }
}

/// Percent decoding undoes percent encoding: every text comes back whole.
pub proof fn lemma_percent_roundtrip(s: Seq<char>)
    ensures
        spec_percent_decode(spec_percent_encode(s)) == Some(s),
{
    let bs = encode_utf8(s);
    let enc = percent_encode_bytes(bs);
    lemma_encoded_is_ascii(bs);
    vstd::utf8::is_ascii_chars_encode_utf8(enc);
    assert(encode_utf8(enc) =~= enc.map_values(|c: char| c as u8));
    lemma_decode_encoded(bs);
    vstd::utf8::encode_utf8_valid_utf8(s);
    vstd::utf8::encode_utf8_decode_utf8(s);
}


/// Whether `c` may stand in a percent-encoded text: an ASCII letter or
/// digit, one of `-`, `_`, `.`, `~`, or `%`.
pub open spec fn is_encoded_char(c: char) -> bool {
    ('0' <= c <= '9') || ('A' <= c <= 'Z') || ('a' <= c <= 'z') || c == '-' || c == '_' || c == '.' || c == '~' || c == '%'
}

/// Percent encoding writes only unreserved ASCII characters and `%`, and
/// each `%` is followed by two uppercase hexadecimal digits.
pub proof fn lemma_percent_encode_alphabet(s: Seq<char>)
    ensures
        forall|i: int| 0 <= i < spec_percent_encode(s).len() ==> is_encoded_char(#[trigger] spec_percent_encode(s)[i]),
        forall|i: int| 0 <= i < spec_percent_encode(s).len() && #[trigger] spec_percent_encode(s)[i] == '%' ==> i + 2
            < spec_percent_encode(s).len() && is_upper_hex(spec_percent_encode(s)[i + 1]) && is_upper_hex(
            spec_percent_encode(s)[i + 2],
        ),
{
    lemma_encoded_alphabet(encode_utf8(s));
}

/// Whether `c` is an uppercase hexadecimal digit.
pub open spec fn is_upper_hex(c: char) -> bool {
    ('0' <= c <= '9') || ('A' <= c <= 'F')
}

proof fn lemma_encoded_alphabet(bs: Seq<u8>)
    ensures
        forall|i: int| 0 <= i < percent_encode_bytes(bs).len() ==> is_encoded_char(#[trigger] percent_encode_bytes(bs)[i]),
        forall|i: int| 0 <= i < percent_encode_bytes(bs).len() && #[trigger] percent_encode_bytes(bs)[i] == '%' ==> i + 2
            < percent_encode_bytes(bs).len() && is_upper_hex(percent_encode_bytes(bs)[i + 1]) && is_upper_hex(
            percent_encode_bytes(bs)[i + 2],
        ),
    decreases bs.len(),
{
    if bs.len() > 0 {
        let b = bs[0];
        let head = encode_byte(b);
        let tail = percent_encode_bytes(bs.drop_first());
        let all = percent_encode_bytes(bs);
        lemma_encoded_alphabet(bs.drop_first());
        assert(all == head + tail);
        let hi = (b / 16) as int;
        let lo = (b % 16) as int;
        assert(is_upper_hex(hex_upper(hi)) && is_encoded_char(hex_upper(hi)));
        assert(is_upper_hex(hex_upper(lo)) && is_encoded_char(hex_upper(lo)));
        if is_unreserved(b) {
            assert(is_encoded_char(b as char) && b as char != '%');
        }
        assert forall|i: int| 0 <= i < all.len() implies is_encoded_char(#[trigger] all[i]) by {
            if i >= head.len() {
                assert(all[i] == tail[i - head.len()]);
            }
        }
        assert forall|i: int| 0 <= i < all.len() && #[trigger] all[i] == '%' implies i + 2 < all.len() && is_upper_hex(all[i + 1])
            && is_upper_hex(all[i + 2]) by {
            if i >= head.len() {
                assert(all[i] == tail[i - head.len()]);
                assert(all[i + 1] == tail[i + 1 - head.len()]);
                assert(all[i + 2] == tail[i + 2 - head.len()]);
            }
        }
    }
}

} // verus!
