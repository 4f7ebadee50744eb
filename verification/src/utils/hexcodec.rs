use vstd::prelude::*;

verus! {

/// Is `b` the ASCII code of a hex digit (either case)?
pub open spec fn is_hex_byte(b: u8) -> bool {
    (48 <= b <= 57) || (97 <= b <= 102) || (65 <= b <= 70)
}

/// Numeric value of the hex digit with ASCII code `b`.
pub open spec fn hex_byte_val(b: u8) -> u8 {
    if 48 <= b <= 57 {
        (b - 48) as u8
    } else if 97 <= b <= 102 {
        (b - 87) as u8
    } else if 65 <= b <= 70 {
        (b - 55) as u8
    } else {
        0
    }
}

/// ASCII code of a hex digit folded to lower case.
pub open spec fn lower_hex_byte(b: u8) -> u8 {
    if 65 <= b <= 70 {
        (b + 32) as u8
    } else {
        b
    }
}

/// ASCII code of the lower-case hex digit for a nibble value below 16.
pub open spec fn hex_byte_of_nibble(n: u8) -> u8 {
    if n < 10 {
        (48 + n) as u8
    } else {
        (87 + n) as u8
    }
}

/// The `i`-th hex digit (high nibble first) of a byte string.
pub open spec fn nibble_at(b: Seq<u8>, i: int) -> u8 {
    if i % 2 == 0 {
        b[i / 2] / 16
    } else {
        b[i / 2] % 16
    }
}

/// Lower-case hex rendering of a byte string, as ASCII codes.
pub open spec fn hex_bytes_of(b: Seq<u8>) -> Seq<u8> {
    Seq::new(2 * b.len(), |i: int| hex_byte_of_nibble(nibble_at(b, i)))
}

/// Lower-case hex rendering of a byte string, as characters.
pub open spec fn hex_chars_of(b: Seq<u8>) -> Seq<char> {
    hex_bytes_of(b).map_values(|x: u8| x as char)
}

/// Relies on hex::encode: the lower-case hex string of the bytes,
/// two digits per byte, high nibble first.
#[verifier::external_body]
pub fn hex_encode(b: &Vec<u8>) -> (r: String)
    ensures
        r@ == hex_chars_of(b@),
{
    hex::encode(b)
}

/// The byte string an even run of hex digits stands for.
pub open spec fn hex_value_seq(s: Seq<u8>) -> Seq<u8> {
    Seq::new(s.len() / 2, |i: int| (hex_byte_val(s[2 * i]) * 16 + hex_byte_val(s[2 * i + 1])) as u8)
}

/// What decoding a hex string yields: defined exactly on even-length
/// runs of hex digits, either case.
pub open spec fn spec_hex_decode(s: Seq<u8>) -> Option<Seq<u8>> {
    if s.len() % 2 == 0 && (forall|i: int| 0 <= i < s.len() ==> is_hex_byte(#[trigger] s[i])) {
        Some(hex_value_seq(s))
    } else {
        None
    }
}

/// Relies on hex::decode: succeeds exactly on even-length strings of
/// hex digits, pairing digits high nibble first; either case accepted.
#[verifier::external_body]
pub fn hex_decode(s: &Vec<u8>) -> (r: Option<Vec<u8>>)
    ensures
        (r is Some) <==> (spec_hex_decode(s@) is Some),
        r is Some ==> r->Some_0@ == spec_hex_decode(s@)->Some_0,
{
    hex::decode(s).ok()
}

/// Relies on String::from_utf8: it accepts exactly valid UTF-8 and
/// returns the string those bytes spell.
#[verifier::external_body]
pub fn utf8_to_string(b: Vec<u8>) -> (r: Option<String>)
    ensures
        (r is Some) <==> vstd::utf8::valid_utf8(b@),
        r is Some ==> r->Some_0@ == vstd::utf8::decode_utf8(b@),
{
    String::from_utf8(b).ok()
}

/// Relies on String::from_utf8: bytes below 128 are valid UTF-8 and
/// decode to the characters with the same code points.
#[verifier::external_body]
pub fn ascii_to_string(b: Vec<u8>) -> (r: String)
    requires
        forall|i: int| 0 <= i < b@.len() ==> b@[i] < 128,
    ensures
        r@ == b@.map_values(|x: u8| x as char),
{
    String::from_utf8(b).expect("ascii bytes are valid utf-8")
}

} // verus!
