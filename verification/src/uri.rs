use vstd::prelude::*;
use vstd::utf8::encode_scalar;
use crate::text::{push_char, str_chars};
use crate::value::JsValue;
use crate::global::value_is_text;

verus! {

/// The URI reserved characters `; / ? : @ & = + $ ,`.
pub open spec fn spec_is_uri_reserved(c: char) -> bool {
    c == ';' || c == '/' || c == '?' || c == ':' || c == '@' || c == '&' || c == '='
        || c == '+' || c == '$' || c == ','
}

/// ASCII letters and digits and the marks `- _ . ! ~ * ' ( )`.
pub open spec fn spec_is_uri_unreserved(c: char) -> bool {
    ('A' <= c && c <= 'Z') || ('a' <= c && c <= 'z') || ('0' <= c && c <= '9') || c == '-'
        || c == '_' || c == '.' || c == '!' || c == '~' || c == '*' || c == '\'' || c == '('
        || c == ')'
}

/// Whether `c` is one of the URI reserved characters.
pub fn is_uri_reserved(c: char) -> (r: bool)
    ensures
        r == spec_is_uri_reserved(c),
{
    c == ';' || c == '/' || c == '?' || c == ':' || c == '@' || c == '&' || c == '='
        || c == '+' || c == '$' || c == ','
}

/// Whether `c` is a character that URI encoding never escapes.
pub fn is_uri_unreserved(c: char) -> (r: bool)
    ensures
        r == spec_is_uri_unreserved(c),
{
    (c >= 'A' && c <= 'Z') || (c >= 'a' && c <= 'z') || (c >= '0' && c <= '9') || c == '-'
        || c == '_' || c == '.' || c == '!' || c == '~' || c == '*' || c == '\'' || c == '('
        || c == ')'
}

/// The value of a hexadecimal digit (either case).
pub open spec fn hex_digit_value(c: char) -> Option<u8> {
    if '0' <= c && c <= '9' {
        Some(((c as u32) - 48) as u8)
    } else if 'a' <= c && c <= 'f' {
        Some(((c as u32) - 87) as u8)
    } else if 'A' <= c && c <= 'F' {
        Some(((c as u32) - 55) as u8)
    } else {
        None
    }
}

/// The byte that the two characters after a `%` spell in base 16, read as an unsigned
/// byte is read from text: two hexadecimal digits, or a `+` sign and one digit.
pub open spec fn hex_pair_value(h1: char, h2: char) -> Option<u8> {
    match (hex_digit_value(h1), hex_digit_value(h2)) {
        (Some(a), Some(b)) => Some((a * 16 + b) as u8),
        (None, Some(b)) => if h1 == '+' {
            Some(b)
        } else {
            None
        },
        _ => None,
    }
}

/// What one complete escape `%h1h2` decodes to.
pub open spec fn decode_escape(h1: char, h2: char, component: bool) -> Seq<char> {
    match hex_pair_value(h1, h2) {
        Some(b) => if !component && spec_is_uri_reserved(b as char) {
            seq!['%', h1, h2]
        } else {
            seq![b as char]
        },
        None => seq!['%', h1, h2],
    }
}

/// URI decoding: each `%` and the two characters after it become the byte they spell,
/// as the character with that code; in URI (not component) mode an escape that spells a
/// reserved character stays as written; an escape that spells no byte stays as written;
/// a `%` with fewer than two characters after it becomes a lone `%` and ends the text.
pub open spec fn spec_decode_uri(s: Seq<char>, component: bool) -> Seq<char>
    decreases s.len(),
{
    if s.len() == 0 {
        seq![]
    } else if s[0] != '%' {
        seq![s[0]] + spec_decode_uri(s.drop_first(), component)
    } else if s.len() < 3 {
        seq!['%']
    } else {
        decode_escape(s[1], s[2], component) + spec_decode_uri(s.skip(3), component)
    }
}

/// Upper-case hexadecimal digit for a value below 16.
pub open spec fn hex_upper(n: int) -> char {
    if n < 10 {
        (n + 48) as char
    } else {
        (n + 55) as char
    }
}

/// `%XX` for one byte, upper-case, two digits.
pub open spec fn percent_byte(b: u8) -> Seq<char> {
    seq!['%', hex_upper(b as int / 16), hex_upper(b as int % 16)]
}

/// `%XX` for each byte in turn.
pub open spec fn percent_bytes(bs: Seq<u8>) -> Seq<char>
    decreases bs.len(),
{
    if bs.len() == 0 {
        seq![]
    } else {
        percent_byte(bs[0]) + percent_bytes(bs.drop_first())
    }
}

/// How URI encoding writes one character: unreserved characters as they are, and in URI
/// (not component) mode also the reserved characters and `#`; every other character as
/// the `%XX` escapes of its UTF-8 bytes.
pub open spec fn encode_char(c: char, component: bool) -> Seq<char> {
    if spec_is_uri_unreserved(c) || (!component && (spec_is_uri_reserved(c) || c == '#')) {
        seq![c]
    } else {
        percent_bytes(encode_scalar(c as u32))
    }
}

/// URI encoding of a whole text, character by character.
pub open spec fn spec_encode_uri(s: Seq<char>, component: bool) -> Seq<char>
    decreases s.len(),
{
    if s.len() == 0 {
        seq![]
    } else {
        encode_char(s[0], component) + spec_encode_uri(s.drop_first(), component)
    }
}

fn hex_digit(c: char) -> (r: Option<u8>)
    ensures
        r == hex_digit_value(c),
{
    if c >= '0' && c <= '9' {
        Some(((c as u32) - 48) as u8)
    } else if c >= 'a' && c <= 'f' {
        Some(((c as u32) - 87) as u8)
    } else if c >= 'A' && c <= 'F' {
        Some(((c as u32) - 55) as u8)
    } else {
        None
    }
}

fn hex_pair(h1: char, h2: char) -> (r: Option<u8>)
    ensures
        r == hex_pair_value(h1, h2),
{
    match (hex_digit(h1), hex_digit(h2)) {
        (Some(a), Some(b)) => Some(a * 16 + b),
        (None, Some(b)) => if h1 == '+' {
            Some(b)
        } else {
            None
        },
        _ => None,
    }
}

fn hex_upper_char(n: u8) -> (r: char)
    requires
        n < 16,
    ensures
        r == hex_upper(n as int),
{
    if n < 10 {
        (n + 48) as char
    } else {
        (n + 55) as char
    }
}

fn push_percent_byte(out: &mut String, b: u8)
    ensures
        final(out)@ == old(out)@ + percent_byte(b),
{
    push_char(out, '%');
    push_char(out, hex_upper_char(b / 16));
    push_char(out, hex_upper_char(b % 16));
    assert(final(out)@ =~= old(out)@ + percent_byte(b));
}

/// The UTF-8 bytes of one character.
pub fn utf8_bytes(c: char) -> (r: Vec<u8>)
    ensures
        r@ == encode_scalar(c as u32),
{
    let v = c as u32;
    if v <= 0x7F {
        vec![(v & 0x7F) as u8]
    } else if v <= 0x7FF {
        vec![0xC0 | ((v >> 6) & 0x1F) as u8, 0x80 | (v & 0x3F) as u8]
    } else if v <= 0xFFFF {
        vec![0xE0 | ((v >> 12) & 0x0F) as u8, 0x80 | ((v >> 6) & 0x3F) as u8, 0x80 | (v & 0x3F) as u8]
    } else {
        vec![
            0xF0 | ((v >> 18) & 0x7) as u8,
            0x80 | ((v >> 12) & 0x3F) as u8,
            0x80 | ((v >> 6) & 0x3F) as u8,
            0x80 | (v & 0x3F) as u8,
        ]
    }
}

fn push_encoded_char(out: &mut String, c: char, component: bool)
    ensures
        final(out)@ == old(out)@ + encode_char(c, component),
{
    if is_uri_unreserved(c) {
        push_char(out, c);
    } else if !component && (is_uri_reserved(c) || c == '#') {
        push_char(out, c);
    } else {
        let bytes = utf8_bytes(c);
        let ghost start = out@;
        let mut j: usize = 0;
        assert(bytes@.skip(0) =~= bytes@);
        assert(out@ + percent_bytes(bytes@) =~= start + percent_bytes(bytes@));
        while j < bytes.len()
            invariant
                j <= bytes.len(),
                out@ + percent_bytes(bytes@.skip(j as int)) == start + percent_bytes(bytes@),
            decreases bytes.len() - j,
        {
            assert(bytes@.skip(j as int).drop_first() =~= bytes@.skip(j as int + 1));
            push_percent_byte(out, bytes[j]);
            j = j + 1;
        }
        assert(percent_bytes(bytes@.skip(j as int)) =~= Seq::<char>::empty());
    }
}

/// Encodes `input` as URI text (`is_component == false`) or as a URI component.
pub fn encode_uri_helper(input: &str, is_component: bool) -> (r: String)
    ensures
        r@ == spec_encode_uri(input@, is_component),
{
    let cs = str_chars(input);
    let mut out = String::new();
    let mut i: usize = 0;
    assert(cs@.skip(0) =~= cs@);
    assert(out@ + spec_encode_uri(cs@, is_component) =~= spec_encode_uri(cs@, is_component));
    while i < cs.len()
        invariant
            i <= cs.len(),
            cs@ == input@,
            out@ + spec_encode_uri(cs@.skip(i as int), is_component) == spec_encode_uri(
                input@,
                is_component,
            ),
        decreases cs.len() - i,
    {
        assert(cs@.skip(i as int).drop_first() =~= cs@.skip(i as int + 1));
        let ghost before = out@;
        push_encoded_char(&mut out, cs[i], is_component);
        assert(out@ + spec_encode_uri(cs@.skip(i as int + 1), is_component) =~= before
            + spec_encode_uri(cs@.skip(i as int), is_component));
        i = i + 1;
    }
    assert(out@ =~= out@ + spec_encode_uri(cs@.skip(i as int), is_component));
    out
}

/// Decodes `input` as URI text (`is_component == false`) or as a URI component.
pub fn decode_uri_helper(input: &str, is_component: bool) -> (r: String)
    ensures
        r@ == spec_decode_uri(input@, is_component),
{
    let cs = str_chars(input);
    let n = cs.len();
    let mut out = String::new();
    let mut i: usize = 0;
    assert(cs@.skip(0) =~= cs@);
    assert(out@ + spec_decode_uri(cs@, is_component) =~= spec_decode_uri(cs@, is_component));
    while i < n
        invariant
            i <= n,
            n == cs@.len(),
            cs@ == input@,
            out@ + spec_decode_uri(cs@.skip(i as int), is_component) == spec_decode_uri(
                input@,
                is_component,
            ),
        decreases n - i,
    {
        let ghost rest = cs@.skip(i as int);
        let ghost before = out@;
        let c = cs[i];
        if c == '%' {
            if n - i >= 3 {
                let h1 = cs[i + 1];
                let h2 = cs[i + 2];
                match hex_pair(h1, h2) {
                    Some(b) => {
                        if !is_component && is_uri_reserved(b as char) {
                            push_char(&mut out, '%');
                            push_char(&mut out, h1);
                            push_char(&mut out, h2);
                        } else {
                            push_char(&mut out, b as char);
                        }
                    },
                    None => {
                        push_char(&mut out, '%');
                        push_char(&mut out, h1);
                        push_char(&mut out, h2);
                    },
                }
                assert(rest.skip(3) =~= cs@.skip(i as int + 3));
                assert(out@ =~= before + decode_escape(h1, h2, is_component));
                i = i + 3;
            } else {
                push_char(&mut out, '%');
                assert(out@ =~= before + seq!['%']);
                assert(cs@.skip(n as int) =~= Seq::<char>::empty());
                i = n;
            }
        } else {
            push_char(&mut out, c);
            assert(rest.drop_first() =~= cs@.skip(i as int + 1));
            assert(out@ =~= before + seq![c]);
            i = i + 1;
        }
    }
    assert(cs@.skip(i as int) =~= Seq::<char>::empty());
    out
}

} // verus!

verus! {

/// Whether every character of a text is ASCII.
pub open spec fn all_ascii(s: Seq<char>) -> bool {
    forall|i: int| 0 <= i < s.len() ==> (s[i] as u32) < 128
}

proof fn lemma_hex_upper_round_trip(b: u8)
    ensures
        hex_pair_value(hex_upper(b as int / 16), hex_upper(b as int % 16)) == Some(b),
{
    let hi = b as int / 16;
    let lo = b as int % 16;
    assert(0 <= hi < 16 && 0 <= lo < 16);
    assert(hex_digit_value(hex_upper(hi)) == Some(hi as u8));
    assert(hex_digit_value(hex_upper(lo)) == Some(lo as u8));
    assert(hi * 16 + lo == b);
}

proof fn lemma_decode_encoded_char(c: char, t: Seq<char>, component: bool)
    requires
        (c as u32) < 128,
    ensures
        spec_decode_uri(encode_char(c, component) + t, component) == seq![c] + spec_decode_uri(
            t,
            component,
        ),
{
    let e = encode_char(c, component);
    let s = e + t;
    if spec_is_uri_unreserved(c) || (!component && (spec_is_uri_reserved(c) || c == '#')) {
        assert(s.drop_first() =~= t);
    } else {
        let v = c as u32;
        assert((v & 0x7F) == v) by (bit_vector)
            requires
                v < 128,
        ;
        let b = (v & 0x7F) as u8;
        assert(encode_scalar(v) == seq![b]);
        assert(percent_bytes(seq![b]) =~= percent_byte(b) + percent_bytes(seq![b].drop_first()));
        assert(percent_bytes(seq![b].drop_first()) =~= Seq::<char>::empty());
        assert(e =~= percent_byte(b));
        lemma_hex_upper_round_trip(b);
        assert(s[0] == '%');
        assert(s.skip(3) =~= t);
        assert((b as char) == c);
        assert(decode_escape(s[1], s[2], component) =~= seq![c]);
    }
}

/// Decoding undoes encoding on ASCII text, in both modes: `decodeURI(encodeURI(s)) == s` and
/// `decodeURIComponent(encodeURIComponent(s)) == s` for every ASCII `s`.
pub proof fn law_decode_encode_ascii(s: Seq<char>, component: bool)
    requires
        all_ascii(s),
    ensures
        spec_decode_uri(spec_encode_uri(s, component), component) == s,
    decreases s.len(),
{
    if s.len() > 0 {
        let rest = s.drop_first();
        assert(all_ascii(rest)) by {
            assert forall|i: int| 0 <= i < rest.len() implies (rest[i] as u32) < 128 by {
                assert(rest[i] == s[i + 1]);
            }
        }
        law_decode_encode_ascii(rest, component);
        assert((s[0] as u32) < 128);
        lemma_decode_encoded_char(s[0], spec_encode_uri(rest, component), component);
        assert(seq![s[0]] + rest =~= s);
    }
}

} // verus!

verus! {

/// The text a missing argument converts to.
pub const UNDEFINED_TEXT: &'static str = "undefined";

/// The text `f` gives for the argument text `input`, or `undefined` when there is no argument.
pub open spec fn uri_function_text(input: Option<Seq<char>>, f: spec_fn(Seq<char>) -> Seq<char>) -> Seq<char> {
    match input {
        Some(s) => f(s),
        None => UNDEFINED_TEXT@,
    }
}

/// `decodeURI`: decodes the argument text, keeping escapes of reserved characters;
/// `"undefined"` without an argument.
pub fn global_decode_uri(input: Option<&str>) -> (r: JsValue)
    ensures
        value_is_text(r, uri_function_text(opt_text(input), |s: Seq<char>| spec_decode_uri(s, false))),
{
    match input {
        Some(s) => JsValue::String(decode_uri_helper(s, false)),
        None => JsValue::String(UNDEFINED_TEXT.to_owned()),
    }
}

/// `decodeURIComponent`: decodes every escape of the argument text; `"undefined"` without
/// an argument.
pub fn global_decode_uri_component(input: Option<&str>) -> (r: JsValue)
    ensures
        value_is_text(r, uri_function_text(opt_text(input), |s: Seq<char>| spec_decode_uri(s, true))),
{
    match input {
        Some(s) => JsValue::String(decode_uri_helper(s, true)),
        None => JsValue::String(UNDEFINED_TEXT.to_owned()),
    }
}

/// `encodeURI`: escapes the argument text, keeping reserved characters; `"undefined"`
/// without an argument.
pub fn global_encode_uri(input: Option<&str>) -> (r: JsValue)
    ensures
        value_is_text(r, uri_function_text(opt_text(input), |s: Seq<char>| spec_encode_uri(s, false))),
{
    match input {
        Some(s) => JsValue::String(encode_uri_helper(s, false)),
        None => JsValue::String(UNDEFINED_TEXT.to_owned()),
    }
}

/// `encodeURIComponent`: escapes every character of the argument text but the unreserved
/// ones; `"undefined"` without an argument.
pub fn global_encode_uri_component(input: Option<&str>) -> (r: JsValue)
    ensures
        value_is_text(r, uri_function_text(opt_text(input), |s: Seq<char>| spec_encode_uri(s, true))),
{
    match input {
        Some(s) => JsValue::String(encode_uri_helper(s, true)),
        None => JsValue::String(UNDEFINED_TEXT.to_owned()),
    }
}

/// The text of an optional argument.
pub open spec fn opt_text(input: Option<&str>) -> Option<Seq<char>> {
    match input {
        Some(s) => Some(s@),
        None => None,
    }
}

} // verus!

verus! {

proof fn lemma_ascii_concat(a: Seq<char>, b: Seq<char>)
    requires
        all_ascii(a),
        all_ascii(b),
    ensures
        all_ascii(a + b),
{
    assert forall|i: int| 0 <= i < (a + b).len() implies ((a + b)[i] as u32) < 128 by {
        if i < a.len() {
            assert((a + b)[i] == a[i]);
        } else {
            assert((a + b)[i] == b[i - a.len()]);
        }
    }
}

proof fn lemma_percent_bytes_ascii(bs: Seq<u8>)
    ensures
        all_ascii(percent_bytes(bs)),
    decreases bs.len(),
{
    if bs.len() > 0 {
        lemma_percent_bytes_ascii(bs.drop_first());
        let p = percent_byte(bs[0]);
        assert(all_ascii(p)) by {
            let hi = bs[0] as int / 16;
            let lo = bs[0] as int % 16;
            assert((hex_upper(hi) as u32) < 128);
            assert((hex_upper(lo) as u32) < 128);
            assert(p[0] == '%' && p[1] == hex_upper(hi) && p[2] == hex_upper(lo));
        }
        lemma_ascii_concat(p, percent_bytes(bs.drop_first()));
    }
}

/// Law: URI encoding writes only ASCII characters.
pub proof fn law_encode_uri_ascii(s: Seq<char>, component: bool)
    ensures
        all_ascii(spec_encode_uri(s, component)),
    decreases s.len(),
{
    if s.len() > 0 {
        law_encode_uri_ascii(s.drop_first(), component);
        let c = s[0];
        assert(all_ascii(encode_char(c, component))) by {
            if spec_is_uri_unreserved(c) || (!component && (spec_is_uri_reserved(c) || c == '#')) {
                assert(encode_char(c, component) == seq![c]);
                assert((c as u32) < 128);
            } else {
                lemma_percent_bytes_ascii(encode_scalar(c as u32));
            }
        }
        lemma_ascii_concat(encode_char(c, component), spec_encode_uri(s.drop_first(), component));
    }
}

} // verus!

verus! {

/// Lower-case hexadecimal digit for a value below 16.
pub open spec fn hex_lower(n: int) -> char {
    if n < 10 {
        (n + 48) as char
    } else {
        (n + 87) as char
    }
}

proof fn lemma_hex_lower_round_trip(b: u8)
    ensures
        hex_pair_value(hex_lower(b as int / 16), hex_lower(b as int % 16)) == Some(b),
{
    let hi = b as int / 16;
    let lo = b as int % 16;
    assert(0 <= hi < 16 && 0 <= lo < 16);
    assert(hex_digit_value(hex_lower(hi)) == Some(hi as u8));
    assert(hex_digit_value(hex_lower(lo)) == Some(lo as u8));
    assert(hi * 16 + lo == b);
}

/// Law: decoding reads hexadecimal digits in either case. For every byte `b` and every
/// rest `t`, `%` followed by the two-digit form of `b`, lower-case or upper-case, decodes
/// to the character with code `b`; only in URI (not component) mode an escape of a
/// reserved character stays as it was written.
pub proof fn law_decode_hex_either_case(b: u8, t: Seq<char>, component: bool)
    ensures
        spec_decode_uri(seq!['%', hex_lower(b as int / 16), hex_lower(b as int % 16)] + t, component)
            == (if !component && spec_is_uri_reserved(b as char) {
            seq!['%', hex_lower(b as int / 16), hex_lower(b as int % 16)]
        } else {
            seq![b as char]
        }) + spec_decode_uri(t, component),
        spec_decode_uri(seq!['%', hex_upper(b as int / 16), hex_upper(b as int % 16)] + t, component)
            == (if !component && spec_is_uri_reserved(b as char) {
            seq!['%', hex_upper(b as int / 16), hex_upper(b as int % 16)]
        } else {
            seq![b as char]
        }) + spec_decode_uri(t, component),
{
    let lower = seq!['%', hex_lower(b as int / 16), hex_lower(b as int % 16)] + t;
    let upper = seq!['%', hex_upper(b as int / 16), hex_upper(b as int % 16)] + t;
    lemma_hex_lower_round_trip(b);
    lemma_hex_upper_round_trip(b);
    assert(lower[0] == '%' && upper[0] == '%');
    assert(lower[1] == hex_lower(b as int / 16) && lower[2] == hex_lower(b as int % 16));
    assert(upper[1] == hex_upper(b as int / 16) && upper[2] == hex_upper(b as int % 16));
    assert(lower.skip(3) =~= t);
    assert(upper.skip(3) =~= t);
}

/// Law: encoding leaves the letters `A`-`Z` and `a`-`z`, the digits `0`-`9` and the marks
/// `- _ . ! ~ * ' ( )` as they are, in both modes: a text made only of these characters
/// encodes to itself.
pub proof fn law_encode_keeps_unreserved(s: Seq<char>, component: bool)
    requires
        forall|i: int|
            0 <= i < s.len() ==> {
                let c = #[trigger] s[i];
                ('A' <= c && c <= 'Z') || ('a' <= c && c <= 'z') || ('0' <= c && c <= '9')
                    || c == '-' || c == '_' || c == '.' || c == '!' || c == '~' || c == '*'
                    || c == '\'' || c == '(' || c == ')'
            },
    ensures
        spec_encode_uri(s, component) == s,
    decreases s.len(),
{
    if s.len() > 0 {
        let rest = s.drop_first();
        assert forall|i: int| 0 <= i < rest.len() implies {
            let c = #[trigger] rest[i];
            ('A' <= c && c <= 'Z') || ('a' <= c && c <= 'z') || ('0' <= c && c <= '9')
                || c == '-' || c == '_' || c == '.' || c == '!' || c == '~' || c == '*'
                || c == '\'' || c == '(' || c == ')'
        } by {
            assert(rest[i] == s[i + 1]);
        }
        law_encode_keeps_unreserved(rest, component);
        let c0 = s[0];
        assert(spec_is_uri_unreserved(c0));
        assert(encode_char(c0, component) == seq![c0]);
        assert(seq![c0] + rest =~= s);
    }
}

} // verus!
