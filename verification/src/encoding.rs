//! Byte encodings used by the OAuth helpers: percent-encoding of query
//! components (RFC 3986 unreserved set, upper-case hex), its decoding (which
//! also maps `+` to a space), and unpadded base64url (RFC 4648 §5).
use vstd::prelude::*;
use vstd::string::StringSliceAdditionalSpecFns;
use vstd::utf8::*;

use crate::text::{decimal, push_char, push_decimal};

verus! {

broadcast use {vstd::utf8::encode_utf8_valid_utf8, vstd::utf8::encode_utf8_decode_utf8};

// ---------------------------------------------------------------------------
// Percent-encoding
// ---------------------------------------------------------------------------

/// The bytes that percent-encoding leaves as they are: `A-Z a-z 0-9 - _ . ~`.
pub open spec fn is_unreserved(b: u8) -> bool {
    ||| (65 <= b && b <= 90)
    ||| (97 <= b && b <= 122)
    ||| (48 <= b && b <= 57)
    ||| b == 45
    ||| b == 95
    ||| b == 46
    ||| b == 126
}

/// The upper-case hexadecimal digit for `d < 16`.
pub open spec fn hex_upper(d: nat) -> char {
    if d < 10 {
        ((48 + d) as u32) as char
    } else {
        ((55 + d) as u32) as char
    }
}

/// The encoding of one byte: the byte itself when unreserved, else `%XY`.
pub open spec fn encode_byte(b: u8) -> Seq<char> {
    if is_unreserved(b) {
        seq![b as char]
    } else {
        seq!['%', hex_upper((b / 16) as nat), hex_upper((b % 16) as nat)]
    }
}

/// The percent-encoding of a byte sequence.
pub open spec fn percent_encode_bytes(bs: Seq<u8>) -> Seq<char>
    decreases bs.len(),
{
    if bs.len() == 0 {
        Seq::empty()
    } else {
        encode_byte(bs[0]) + percent_encode_bytes(bs.drop_first())
    }
}

/// The percent-encoding of a string: of its UTF-8 bytes.
pub open spec fn percent_encode_str(s: Seq<char>) -> Seq<char> {
    percent_encode_bytes(encode_utf8(s))
}

fn hex_upper_exec(d: u8) -> (c: char)
    requires
        d < 16,
    ensures
        c == hex_upper(d as nat),
{
    if d < 10 {
        (48u8 + d) as char
    } else {
        (55u8 + d) as char
    }
}

fn is_unreserved_exec(b: u8) -> (r: bool)
    ensures
        r == is_unreserved(b),
{
    (65 <= b && b <= 90) || (97 <= b && b <= 122) || (48 <= b && b <= 57) || b == 45 || b == 95
        || b == 46 || b == 126
}

/// Percent-encodes the UTF-8 bytes of `value`.
pub fn percent_encode(value: &str) -> (r: String)
    ensures
        r@ == percent_encode_str(value@),
{
    let bytes = value.as_bytes();
    let ghost bs = bytes@;
    let mut encoded = String::new();
    let mut i: usize = 0;
    assert(bs.skip(0) =~= bs);
    while i < bytes.len()
        invariant
            bs == bytes@,
            bs == value.spec_bytes(),
            i <= bs.len(),
            percent_encode_bytes(bs) == encoded@ + percent_encode_bytes(bs.skip(i as int)),
        decreases bs.len() - i,
    {
        let byte = bytes[i];
        let ghost before = encoded@;
        assert(bs.skip(i as int).drop_first() =~= bs.skip(i + 1));
        assert(bs.skip(i as int)[0] == byte);
        if is_unreserved_exec(byte) {
            push_char(&mut encoded, byte as char);
        } else {
            push_char(&mut encoded, '%');
            push_char(&mut encoded, hex_upper_exec(byte / 16));
            push_char(&mut encoded, hex_upper_exec(byte % 16));
        }
        assert(encoded@ =~= before + encode_byte(byte));
        i = i + 1;
    }
    assert(bs.skip(bs.len() as int) =~= Seq::<u8>::empty());
    assert(encoded@ =~= encoded@ + Seq::<char>::empty());
    encoded
}

// ---------------------------------------------------------------------------
// Percent-decoding
// ---------------------------------------------------------------------------

/// The value of a hexadecimal digit byte (either case).
pub open spec fn hex_value(b: u8) -> Option<u8> {
    if 48 <= b && b <= 57 {
        Some((b - 48) as u8)
    } else if 97 <= b && b <= 102 {
        Some((b - 87) as u8)
    } else if 65 <= b && b <= 70 {
        Some((b - 55) as u8)
    } else {
        None
    }
}

/// Puts `prefix` in front of a decoded sequence, passing errors through.
pub open spec fn prepend(prefix: Seq<u8>, r: Result<Seq<u8>, u8>) -> Result<Seq<u8>, u8> {
    match r {
        Ok(rest) => Ok(prefix + rest),
        Err(b) => Err(b),
    }
}

/// Decodes percent-escapes and `+`: `%XY` with both digits valid becomes the
/// byte `0xXY` when two bytes follow the `%`; an invalid digit is an error
/// naming that byte; `+` becomes a space; every other byte (a `%` too close
/// to the end among them) stands for itself.
pub open spec fn percent_decode_bytes(bs: Seq<u8>) -> Result<Seq<u8>, u8>
    decreases bs.len(),
{
    if bs.len() == 0 {
        Ok(Seq::empty())
    } else if bs[0] == 37 && 2 < bs.len() {
        match hex_value(bs[1]) {
            None => Err(bs[1]),
            Some(hi) => match hex_value(bs[2]) {
                None => Err(bs[2]),
                Some(lo) => prepend(seq![(hi * 16 + lo) as u8], percent_decode_bytes(bs.skip(3))),
            },
        }
    } else if bs[0] == 43 {
        prepend(seq![32u8], percent_decode_bytes(bs.drop_first()))
    } else {
        prepend(seq![bs[0]], percent_decode_bytes(bs.drop_first()))
    }
}

/// The message `String::from_utf8` gives for bytes that are not UTF-8.
pub uninterp spec fn utf8_error_text(bytes: Seq<u8>) -> Seq<char>;

/// The decoding of a string: of its UTF-8 bytes, then read back as UTF-8.
/// An error is the message that says why: the byte after a `%` that is no
/// hex digit, or the UTF-8 error of the decoded bytes.
pub open spec fn percent_decode_str(s: Seq<char>) -> Result<Seq<char>, Seq<char>> {
    match percent_decode_bytes(encode_utf8(s)) {
        Err(b) => Err(invalid_hex_message(b)),
        Ok(bytes) => if valid_utf8(bytes) {
            Ok(decode_utf8(bytes))
        } else {
            Err(utf8_error_text(bytes))
        },
    }
}

/// The message for a byte that is no hex digit after `%`.
pub open spec fn invalid_hex_message(b: u8) -> Seq<char> {
    "invalid percent byte: "@ + decimal(b as nat)
}

/// `String::from_utf8`: succeeds exactly on valid UTF-8, giving the decoded
/// characters; otherwise its error, rendered as text, is
/// `utf8_error_text` of the bytes.
#[verifier::external_body]
fn string_from_utf8(bytes: Vec<u8>) -> (r: Result<String, String>)
    ensures
        r is Ok <==> valid_utf8(bytes@),
        r matches Ok(s) ==> s@ == decode_utf8(bytes@),
        r matches Err(m) ==> m@ == utf8_error_text(bytes@),
{
    match String::from_utf8(bytes) {
        Ok(text) => Ok(text),
        Err(error) => Err(error.to_string()),
    }
}

fn hex_value_exec(b: u8) -> (r: Option<u8>)
    ensures
        r == hex_value(b),
{
    if 48 <= b && b <= 57 {
        Some(b - 48)
    } else if 97 <= b && b <= 102 {
        Some(b - 87)
    } else if 65 <= b && b <= 70 {
        Some(b - 55)
    } else {
        None
    }
}

proof fn lemma_prepend_assoc(p: Seq<u8>, q: Seq<u8>, r: Result<Seq<u8>, u8>)
    ensures
        prepend(p, prepend(q, r)) == prepend(p + q, r),
{
    if let Ok(rest) = r {
        assert(p + (q + rest) =~= (p + q) + rest);
    }
}

/// Decodes percent-escapes in a byte slice; `Err(b)` names the first byte
/// after a `%` that is no hex digit.
pub fn percent_decode_slice(bytes: &[u8]) -> (r: Result<Vec<u8>, u8>)
    ensures
        match r {
            Ok(v) => percent_decode_bytes(bytes@) == Ok::<Seq<u8>, u8>(v@),
            Err(b) => percent_decode_bytes(bytes@) == Err::<Seq<u8>, u8>(b),
        },
{
    let ghost bs = bytes@;
    let mut decoded: Vec<u8> = Vec::new();
    let mut index: usize = 0;
    assert(bs.skip(0) =~= bs);
    assert(decoded@ + Seq::<u8>::empty() =~= decoded@);
    assert(prepend(decoded@, percent_decode_bytes(bs)) =~= percent_decode_bytes(bs)) by {
        if let Ok(rest) = percent_decode_bytes(bs) {
            assert(decoded@ + rest =~= rest);
        }
    }
    while index < bytes.len()
        invariant
            bs == bytes@,
            index <= bs.len(),
            percent_decode_bytes(bs) == prepend(decoded@, percent_decode_bytes(bs.skip(index as int))),
        decreases bs.len() - index,
    {
        let ghost rest = bs.skip(index as int);
        let ghost before = decoded@;
        if bytes[index] == 37 && bytes.len() - index > 2 {
            let hi = match hex_value_exec(bytes[index + 1]) {
                Some(v) => v,
                None => {
                    assert(rest[1] == bytes@[index + 1]);
                    return Err(bytes[index + 1]);
                },
            };
            let lo = match hex_value_exec(bytes[index + 2]) {
                Some(v) => v,
                None => {
                    assert(rest[1] == bytes@[index + 1]);
                    assert(rest[2] == bytes@[index + 2]);
                    return Err(bytes[index + 2]);
                },
            };
            assert(rest[1] == bytes@[index + 1]);
            assert(rest[2] == bytes@[index + 2]);
            decoded.push(hi * 16 + lo);
            assert(rest.skip(3) =~= bs.skip(index + 3));
            proof {
                lemma_prepend_assoc(before, seq![(hi * 16 + lo) as u8], percent_decode_bytes(rest.skip(3)));
                assert(decoded@ =~= before + seq![(hi * 16 + lo) as u8]);
            }
            index = index + 3;
        } else if bytes[index] == 43 {
            decoded.push(32);
            assert(rest.drop_first() =~= bs.skip(index + 1));
            proof {
                lemma_prepend_assoc(before, seq![32u8], percent_decode_bytes(rest.drop_first()));
                assert(decoded@ =~= before + seq![32u8]);
            }
            index = index + 1;
        } else {
            let b = bytes[index];
            decoded.push(b);
            assert(rest.drop_first() =~= bs.skip(index + 1));
            proof {
                lemma_prepend_assoc(before, seq![b], percent_decode_bytes(rest.drop_first()));
                assert(decoded@ =~= before + seq![b]);
            }
            index = index + 1;
        }
    }
    assert(bs.skip(index as int) =~= Seq::<u8>::empty());
    assert(decoded@ + Seq::<u8>::empty() =~= decoded@);
    Ok(decoded)
}

/// Decodes a percent-encoded query component into text.
pub fn percent_decode(value: &str) -> (r: Result<String, String>)
    ensures
        match percent_decode_str(value@) {
            Ok(text) => r matches Ok(s) && s@ == text,
            Err(message) => r matches Err(m) && m@ == message,
        },
{
    match percent_decode_slice(value.as_bytes()) {
        Ok(bytes) => string_from_utf8(bytes),
        Err(b) => Err(invalid_hex_byte_message(b)),
    }
}

/// `format!("invalid percent byte: {byte}")`.
pub fn invalid_hex_byte_message(b: u8) -> (m: String)
    ensures
        m@ == invalid_hex_message(b),
{
    let mut m = String::from_str("invalid percent byte: ");
    push_decimal(&mut m, b as u64);
    m
}

// ---------------------------------------------------------------------------
// Round trip
// ---------------------------------------------------------------------------

/// The bytes of an ASCII character sequence.
pub open spec fn ascii_bytes(s: Seq<char>) -> Seq<u8> {
    s.map_values(|c: char| c as u8)
}

proof fn lemma_encode_byte_shape(b: u8)
    ensures
        is_ascii_chars(encode_byte(b)),
        ascii_bytes(encode_byte(b)).len() > 0,
        is_unreserved(b) ==> ascii_bytes(encode_byte(b)) == seq![b],
        !is_unreserved(b) ==> ascii_bytes(encode_byte(b)) == seq![
            37u8,
            hex_upper((b / 16) as nat) as u8,
            hex_upper((b % 16) as nat) as u8,
        ],
        !is_unreserved(b) ==> hex_value(hex_upper((b / 16) as nat) as u8) == Some((b / 16) as u8),
        !is_unreserved(b) ==> hex_value(hex_upper((b % 16) as nat) as u8) == Some((b % 16) as u8),
{
    assert(ascii_bytes(encode_byte(b)) =~= if is_unreserved(b) {
        seq![b]
    } else {
        seq![37u8, hex_upper((b / 16) as nat) as u8, hex_upper((b % 16) as nat) as u8]
    });
}

proof fn lemma_encode_ascii(bs: Seq<u8>)
    ensures
        is_ascii_chars(percent_encode_bytes(bs)),
    decreases bs.len(),
{
    if bs.len() > 0 {
        lemma_encode_byte_shape(bs[0]);
        lemma_encode_ascii(bs.drop_first());
        vstd::utf8::is_ascii_chars_concat(
            percent_encode_bytes(bs),
            encode_byte(bs[0]),
            percent_encode_bytes(bs.drop_first()),
        );
    }
}

proof fn lemma_bytes_roundtrip(bs: Seq<u8>)
    ensures
        percent_decode_bytes(ascii_bytes(percent_encode_bytes(bs))) == Ok::<Seq<u8>, u8>(bs),
    decreases bs.len(),
{
    if bs.len() == 0 {
        assert(ascii_bytes(percent_encode_bytes(bs)) =~= Seq::<u8>::empty());
        assert(bs =~= Seq::<u8>::empty());
    } else {
        let b = bs[0];
        let tail = bs.drop_first();
        lemma_bytes_roundtrip(tail);
        lemma_encode_byte_shape(b);
        let head = ascii_bytes(encode_byte(b));
        let rest = ascii_bytes(percent_encode_bytes(tail));
        let all = ascii_bytes(percent_encode_bytes(bs));
        assert(all =~= head + rest);
        if is_unreserved(b) {
            assert(all[0] == b);
            assert(all.drop_first() =~= rest);
            assert(seq![b] + tail =~= bs);
            assert(percent_decode_bytes(all) == prepend(seq![b], percent_decode_bytes(rest)));
        } else {
            assert(all[0] == 37u8);
            assert(all[1] == hex_upper((b / 16) as nat) as u8);
            assert(all[2] == hex_upper((b % 16) as nat) as u8);
            assert(all.skip(3) =~= rest);
            assert(((b / 16) * 16 + b % 16) as u8 == b);
            assert(seq![b] + tail =~= bs);
            let hi = (b / 16) as u8;
            let lo = (b % 16) as u8;
            assert(hex_value(all[1]) == Some(hi));
            assert(hex_value(all[2]) == Some(lo));
            assert((hi * 16 + lo) as u8 == b);
            assert(percent_decode_bytes(all) == prepend(seq![b], percent_decode_bytes(rest)));
        }
    }
}

/// The ASCII byte of the hexadecimal digit `d < 16`, with the letters in
/// upper or lower case.
pub open spec fn hex_digit_byte(d: nat, upper: bool) -> u8 {
    if d < 10 {
        (48 + d) as u8
    } else if upper {
        (65 + d - 10) as u8
    } else {
        (97 + d - 10) as u8
    }
}

/// An escape `%` followed by the two hex digits of a byte, in either case,
/// decodes to that byte, and decoding goes on after it.
pub proof fn lemma_escape_decodes_in_either_case(b: u8, upper: bool, rest: Seq<u8>)
    ensures
        percent_decode_bytes(seq![37u8, hex_digit_byte((b / 16) as nat, upper), hex_digit_byte((b % 16) as nat, upper)] + rest)
            == prepend(seq![b], percent_decode_bytes(rest)),
{
    let hi = hex_digit_byte((b / 16) as nat, upper);
    let lo = hex_digit_byte((b % 16) as nat, upper);
    let bs = seq![37u8, hi, lo] + rest;
    assert(bs[0] == 37u8 && bs[1] == hi && bs[2] == lo);
    assert(hex_value(hi) == Some((b / 16) as u8));
    assert(hex_value(lo) == Some((b % 16) as u8));
    assert(bs.skip(3) =~= rest);
    assert(((b / 16) * 16 + b % 16) as u8 == b);
}

/// Percent-encoded text holds neither `&` nor `=`, the separators of a query.
pub proof fn lemma_encoded_has_no_separator(s: Seq<char>)
    ensures
        forall|i: int|
            0 <= i < percent_encode_str(s).len() ==> #[trigger] percent_encode_str(s)[i] != '&'
                && percent_encode_str(s)[i] != '=',
{
    lemma_encoded_bytes_have_no_separator(encode_utf8(s));
}

proof fn lemma_encoded_bytes_have_no_separator(bs: Seq<u8>)
    ensures
        forall|i: int|
            0 <= i < percent_encode_bytes(bs).len() ==> #[trigger] percent_encode_bytes(bs)[i] != '&'
                && percent_encode_bytes(bs)[i] != '=',
    decreases bs.len(),
{
    if bs.len() > 0 {
        let head = encode_byte(bs[0]);
        let rest = percent_encode_bytes(bs.drop_first());
        lemma_encoded_bytes_have_no_separator(bs.drop_first());
        assert forall|i: int| 0 <= i < head.len() implies #[trigger] head[i] != '&' && head[i] != '=' by {
            let b = bs[0];
            if !is_unreserved(b) && i > 0 {
                let d = if i == 1 {
                    (b / 16) as nat
                } else {
                    (b % 16) as nat
                };
                assert(head[i] == hex_upper(d));
            }
        }
        assert forall|i: int| 0 <= i < percent_encode_bytes(bs).len() implies #[trigger] percent_encode_bytes(bs)[i]
            != '&' && percent_encode_bytes(bs)[i] != '=' by {
            assert(percent_encode_bytes(bs) == head + rest);
            if i >= head.len() {
                assert(percent_encode_bytes(bs)[i] == rest[i - head.len()]);
            }
        }
    }
}

/// Decoding what `percent_encode` produced gives back the encoded text.
pub proof fn lemma_percent_roundtrip(s: Seq<char>)
    ensures
        percent_decode_str(percent_encode_str(s)) == Ok::<Seq<char>, Seq<char>>(s),
{
    let bs = encode_utf8(s);
    let enc = percent_encode_bytes(bs);
    lemma_encode_ascii(bs);
    vstd::utf8::is_ascii_chars_encode_utf8(enc);
    assert(encode_utf8(enc) =~= ascii_bytes(enc));
    lemma_bytes_roundtrip(bs);
}

// ---------------------------------------------------------------------------
// Base64url without padding
// ---------------------------------------------------------------------------

/// The base64url alphabet: `A-Z a-z 0-9 - _`.
pub open spec fn b64_char(n: nat) -> char {
    if n < 26 {
        ((65 + n) as u32) as char
    } else if n < 52 {
        ((97 + (n - 26)) as u32) as char
    } else if n < 62 {
        ((48 + (n - 52)) as u32) as char
    } else if n == 62 {
        '-'
    } else {
        '_'
    }
}

/// Unpadded base64url: each group of three bytes becomes four characters;
/// a final group of two bytes three characters, of one byte two.
pub open spec fn base64url(bs: Seq<u8>) -> Seq<char>
    decreases bs.len(),
{
    if bs.len() >= 3 {
        let a = bs[0] as nat;
        let b = bs[1] as nat;
        let c = bs[2] as nat;
        seq![
            b64_char(a / 4),
            b64_char((a % 4) * 16 + b / 16),
            b64_char((b % 16) * 4 + c / 64),
            b64_char(c % 64),
        ] + base64url(bs.skip(3))
    } else if bs.len() == 2 {
        let a = bs[0] as nat;
        let b = bs[1] as nat;
        seq![b64_char(a / 4), b64_char((a % 4) * 16 + b / 16), b64_char((b % 16) * 4)]
    } else if bs.len() == 1 {
        let a = bs[0] as nat;
        seq![b64_char(a / 4), b64_char((a % 4) * 16)]
    } else {
        Seq::empty()
    }
}

/// The length of the base64url encoding of `n` bytes.
pub proof fn lemma_base64url_len(bs: Seq<u8>)
    ensures
        base64url(bs).len() == (4 * bs.len() + 2) / 3,
    decreases bs.len(),
{
    if bs.len() >= 3 {
        lemma_base64url_len(bs.skip(3));
    }
}

fn b64_char_exec(n: u8) -> (c: char)
    requires
        n < 64,
    ensures
        c == b64_char(n as nat),
{
    if n < 26 {
        (65u8 + n) as char
    } else if n < 52 {
        (97u8 + (n - 26)) as char
    } else if n < 62 {
        (48u8 + (n - 52)) as char
    } else if n == 62 {
        '-'
    } else {
        '_'
    }
}

/// Encodes bytes as unpadded base64url.
pub fn base64url_encode(bytes: &[u8]) -> (r: String)
    ensures
        r@ == base64url(bytes@),
        r@.len() == (4 * bytes@.len() + 2) / 3,
{
    let ghost bs = bytes@;
    let mut output = String::new();
    let mut index: usize = 0;
    assert(bs.skip(0) =~= bs);
    while bytes.len() - index >= 3
        invariant
            bs == bytes@,
            index <= bs.len(),
            base64url(bs) == output@ + base64url(bs.skip(index as int)),
        decreases bs.len() - index,
    {
        let a = bytes[index];
        let b = bytes[index + 1];
        let c = bytes[index + 2];
        let ghost before = output@;
        let ghost rest = bs.skip(index as int);
        assert(rest[0] == a && rest[1] == b && rest[2] == c);
        push_char(&mut output, b64_char_exec(a / 4));
        push_char(&mut output, b64_char_exec((a % 4) * 16 + b / 16));
        push_char(&mut output, b64_char_exec((b % 16) * 4 + c / 64));
        push_char(&mut output, b64_char_exec(c % 64));
        assert(rest.skip(3) =~= bs.skip(index + 3));
        assert(output@ =~= before + seq![
            b64_char(a as nat / 4),
            b64_char((a as nat % 4) * 16 + b as nat / 16),
            b64_char((b as nat % 16) * 4 + c as nat / 64),
            b64_char(c as nat % 64),
        ]);
        index = index + 3;
    }
    let ghost before = output@;
    let ghost rest = bs.skip(index as int);
    let remaining = bytes.len() - index;
    if remaining == 1 {
        let a = bytes[index];
        assert(rest[0] == a);
        push_char(&mut output, b64_char_exec(a / 4));
        push_char(&mut output, b64_char_exec((a % 4) * 16));
        assert(output@ =~= before + base64url(rest));
    } else if remaining == 2 {
        let a = bytes[index];
        let b = bytes[index + 1];
        assert(rest[0] == a && rest[1] == b);
        push_char(&mut output, b64_char_exec(a / 4));
        push_char(&mut output, b64_char_exec((a % 4) * 16 + b / 16));
        push_char(&mut output, b64_char_exec((b % 16) * 4));
        assert(output@ =~= before + base64url(rest));
    } else {
        assert(output@ =~= before + base64url(rest));
    }
    proof {
        lemma_base64url_len(bs);
    }
    output
}

} // verus!
