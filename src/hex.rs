//! Hex text to bytes and back, and base64 text to and from bytes.
use vstd::prelude::*;
use vstd::string::StringSliceAdditionalSpecFns;
use base64::prelude::{Engine, BASE64_STANDARD};

verus! {

/// A hex digit: `0-9`, `a-f` or `A-F`.
pub open spec fn is_hex_char(c: char) -> bool {
    (48 <= c as u32 <= 57) || (97 <= c as u32 <= 102) || (65 <= c as u32 <= 70)
}

/// The value of a hex digit.
pub open spec fn hex_value(c: char) -> u8 {
    if 48 <= c as u32 <= 57 {
        (c as u32 - 48) as u8
    } else if 97 <= c as u32 <= 102 {
        (c as u32 - 87) as u8
    } else {
        (c as u32 - 55) as u8
    }
}

/// Every character of `s` is a hex digit.
pub open spec fn all_hex(s: Seq<char>) -> bool {
    forall|i: int| 0 <= i < s.len() ==> is_hex_char(#[trigger] s[i])
}

/// The bytes that hex text `s` spells: two digits per byte when `even`,
/// else one digit per byte.
pub open spec fn hex_bytes(s: Seq<char>, even: bool) -> Seq<u8> {
    if even {
        Seq::new(s.len() / 2, |i: int| (16 * hex_value(s[2 * i]) + hex_value(s[2 * i + 1])) as u8)
    } else {
        Seq::new(s.len(), |i: int| hex_value(s[i]))
    }
}

/// The lower-case hex digits, by value.
pub open spec fn hex_digits() -> Seq<char> {
    seq!['0', '1', '2', '3', '4', '5', '6', '7', '8', '9', 'a', 'b', 'c', 'd', 'e', 'f']
}

/// Two lower-case hex digits per byte of `b`, high digit first.
pub open spec fn hex_text(b: Seq<u8>) -> Seq<char>
    decreases b.len(),
{
    if b.len() == 0 {
        Seq::empty()
    } else {
        hex_text(b.drop_last()) + seq![hex_digits()[(b.last() / 16) as int], hex_digits()[(b.last() % 16) as int]]
    }
}

fn digit_value(c: char) -> (r: u8)
    requires
        is_hex_char(c),
    ensures
        r == hex_value(c),
        r < 16,
{
    let v = c as u32;
    if 48 <= v && v <= 57 {
        (v - 48) as u8
    } else if 97 <= v && v <= 102 {
        (v - 87) as u8
    } else {
        (v - 55) as u8
    }
}

/// Reads hex text: two digits per byte when `even`, else one digit per byte.
pub fn parse_hex(buf: &str, even: bool) -> (r: Vec<u8>)
    requires
        all_hex(buf@),
        even ==> buf@.len() % 2 == 0,
    ensures
        r@ == hex_bytes(buf@, even),
{
    let n = buf.unicode_len();
    let mut r: Vec<u8> = Vec::new();
    if even {
        let mut i: usize = 0;
        while i < n / 2
            invariant
                n == buf@.len(),
                n % 2 == 0,
                all_hex(buf@),
                i <= n / 2,
                r@ == hex_bytes(buf@, true).take(i as int),
            decreases n / 2 - i,
        {
            let hi = digit_value(buf.get_char(2 * i));
            let lo = digit_value(buf.get_char(2 * i + 1));
            r.push(16 * hi + lo);
            i = i + 1;
            assert(r@ =~= hex_bytes(buf@, true).take(i as int));
        }
        assert(r@ =~= hex_bytes(buf@, true));
    } else {
        let mut i: usize = 0;
        while i < n
            invariant
                n == buf@.len(),
                all_hex(buf@),
                i <= n,
                r@ == hex_bytes(buf@, false).take(i as int),
            decreases n - i,
        {
            r.push(digit_value(buf.get_char(i)));
            i = i + 1;
            assert(r@ =~= hex_bytes(buf@, false).take(i as int));
        }
        assert(r@ =~= hex_bytes(buf@, false));
    }
    r
}

fn hex_digit(d: u8) -> (r: &'static str)
    requires
        d < 16,
    ensures
        r@ == seq![hex_digits()[d as int]],
{
    let digits = "0123456789abcdef";
    proof {
        reveal_strlit("0123456789abcdef");
    }
    assert(digits@ =~= hex_digits());
    digits.substring_ascii(d as usize, d as usize + 1)
}

/// Writes the UTF-8 bytes of `buf` as lower-case hex, two digits per byte.
pub fn encode_hex(buf: &str) -> (r: String)
    ensures
        r@ == hex_text(buf.spec_bytes()),
{
    let b = buf.as_bytes_vec();
    let mut r = String::new();
    let mut i: usize = 0;
    while i < b.len()
        invariant
            b@ == buf.spec_bytes(),
            i <= b@.len(),
            r@ == hex_text(b@.take(i as int)),
        decreases b@.len() - i,
    {
        assert(b@.take(i + 1).drop_last() =~= b@.take(i as int));
        r.append(hex_digit(b[i] / 16));
        r.append(hex_digit(b[i] % 16));
        i = i + 1;
    }
    assert(b@.take(i as int) =~= b@);
    r
}

/// The standard base64 text, with `=` padding, of `b`.
pub uninterp spec fn base64_of(b: Seq<u8>) -> Seq<char>;

/// Relies on base64's `BASE64_STANDARD.encode`: the standard alphabet with
/// `=` padding, four characters for every three bytes or part of three; it
/// panics only when that length overflows.
#[verifier::external_body]
fn base64_encode(b: &[u8]) -> (r: String)
    requires
        4 * ((b@.len() + 2) / 3) <= usize::MAX,
    ensures
        r@ == base64_of(b@),
        r@.len() == 4 * ((b@.len() + 2) / 3),
{
    BASE64_STANDARD.encode(b)
}

/// Reads hex text, two digits per byte, and writes those bytes as base64.
pub fn hex_to_b64(hex_string: &str) -> (r: String)
    requires
        all_hex(hex_string@),
        hex_string@.len() % 2 == 0,
    ensures
        r@ == base64_of(hex_bytes(hex_string@, true)),
{
    let n = hex_string.unicode_len();
    let bytes = parse_hex(hex_string, true);
    assert(bytes@.len() == n / 2);
    base64_encode(&bytes)
}

/// The bytes that standard, padded base64 text `s` spells, or `None` where
/// `s` is not such text.
pub uninterp spec fn base64_decoded(s: Seq<u8>) -> Option<Seq<u8>>;

#[verifier::external_type_specification]
#[verifier::external_body]
pub struct ExDecodeError(base64::DecodeError);

/// Base64 text that does not decode.
#[derive(Clone, Copy, Debug, PartialEq, Eq, Structural)]
pub struct InvalidBase64;

/// Relies on base64's `BASE64_STANDARD.decode`: the bytes that standard,
/// padded base64 text spells, or an error where the text is not such.
#[verifier::external_body]
fn base64_decode(text: &[u8]) -> (r: Result<Vec<u8>, base64::DecodeError>)
    ensures
        match r {
            Ok(v) => base64_decoded(text@) == Some(v@),
            Err(_) => base64_decoded(text@) == Option::<Seq<u8>>::None,
        },
{
    BASE64_STANDARD.decode(text)
}

/// Reads standard, padded base64 text.
pub fn decode_b64(text: &str) -> (r: Result<Vec<u8>, InvalidBase64>)
    ensures
        match r {
            Ok(v) => base64_decoded(text.spec_bytes()) == Some(v@),
            Err(_) => base64_decoded(text.spec_bytes()) == Option::<Seq<u8>>::None,
        },
{
    let b = text.as_bytes_vec();
    match base64_decode(&b) {
        Ok(v) => Ok(v),
        Err(_) => Err(InvalidBase64),
    }
}

} // verus!
