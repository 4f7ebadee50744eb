use vstd::prelude::*;
use sha3::{Digest, Keccak256};
use crate::utils::hexcodec::{
    ascii_to_string, hex_decode, is_hex_byte, lower_hex_byte, nibble_at, spec_hex_decode,
};
use crate::natural::{limbs64_value, Natural};

pub mod encoding;
pub mod hexcodec;
pub mod signing;

verus! {

/// Why an address string was refused.
#[derive(Debug)]
pub enum UtilsError {
    InvalidAddress(String),
}

/// What a 256-bit digest is, to this crate: whatever Keccak-256 returns.
pub uninterp spec fn keccak_of(b: Seq<u8>) -> Seq<u8>;

/// Relies on sha3::Keccak256: a 32-byte digest that depends on the
/// input bytes alone.
#[verifier::external_body]
pub fn keccak256(b: &Vec<u8>) -> (r: Vec<u8>)
    ensures
        r@ == keccak_of(b@),
        r@.len() == 32,
{
    Keccak256::digest(b.as_slice()).to_vec()
}

/// Repeatedly drop a leading ASCII "0x" marker.
pub open spec fn strip_hex_prefix(s: Seq<u8>) -> Seq<u8>
    decreases s.len(),
{
    if s.len() >= 2 && s[0] == 48 && s[1] == 120 {
        strip_hex_prefix(s.skip(2))
    } else {
        s
    }
}

/// A bare address body: 40 hex digits.
pub open spec fn is_addr_body(s: Seq<u8>) -> bool {
    s.len() == 40 && forall|i: int| 0 <= i < s.len() ==> is_hex_byte(#[trigger] s[i])
}

/// Hex digits folded to lower case.
pub open spec fn lower_hex_seq(s: Seq<u8>) -> Seq<u8> {
    s.map_values(|b: u8| lower_hex_byte(b))
}

/// Mixed-case rendering: the letter at position `i` is upper-case
/// exactly when hex digit `i` of the hash exceeds 7.
pub open spec fn checksum_seq(low: Seq<u8>, hash: Seq<u8>) -> Seq<u8> {
    Seq::new(
        low.len(),
        |i: int|
            if 97 <= low[i] <= 102 && nibble_at(hash, i) > 7 {
                (low[i] - 32) as u8
            } else {
                low[i]
            },
    )
}

/// The checksummed form of an address given as ASCII bytes, when valid.
pub open spec fn format_addr_bytes(s: Seq<u8>) -> Option<Seq<u8>> {
    let body = strip_hex_prefix(s);
    if is_addr_body(body) {
        let low = lower_hex_seq(body);
        Some(seq![48u8, 120u8] + checksum_seq(low, keccak_of(low)))
    } else {
        None
    }
}

/// The checksummed form of an address string, when valid.
pub open spec fn format_addr_chars(s: Seq<char>) -> Option<Seq<char>> {
    if vstd::utf8::is_ascii_chars(s) {
        match format_addr_bytes(s.map_values(|c: char| c as u8)) {
            Some(b) => Some(b.map_values(|x: u8| x as char)),
            None => None,
        }
    } else {
        None
    }
}

/// EIP-55 checksummed rendering of an EVM address. Accepts 40 hex
/// digits, optionally behind "0x"; rejects anything else.
#[verifier::loop_isolation(false)]
pub fn format_evm_address(addr: String) -> (r: Result<String, UtilsError>)
    ensures
        r is Ok <==> format_addr_chars(addr@) is Some,
        r is Ok ==> r->Ok_0@ == format_addr_chars(addr@)->Some_0,
{
    broadcast use vstd::string::group_string_axioms;

    let addr_str = addr.as_str();
    if !addr_str.is_ascii() {
        return Err(UtilsError::InvalidAddress(addr));
    }
    let bytes: Vec<u8> = addr_str.as_bytes_vec();
    proof {
        assert(bytes@ =~= addr@.map_values(|c: char| c as u8));
    }
    let n: usize = bytes.len();

    // Drop leading "0x" markers.
    let mut start: usize = 0;
    proof {
        assert(bytes@.skip(0) =~= bytes@);
    }
    while n - start >= 2 && bytes[start] == 48 && bytes[start + 1] == 120
        invariant
            start <= n,
            n == bytes@.len(),
            strip_hex_prefix(bytes@.skip(start as int)) == strip_hex_prefix(bytes@),
        decreases n - start,
    {
        proof {
            assert(bytes@.skip(start as int).skip(2) =~= bytes@.skip(start + 2));
        }
        start = start + 2;
    }
    let ghost body_spec: Seq<u8> = strip_hex_prefix(bytes@);
    proof {
        assert(bytes@.skip(start as int) == body_spec);
    }

    // The body must be exactly 40 hex digits.
    if n - start != 40 {
        return Err(UtilsError::InvalidAddress(addr));
    }
    let mut low: Vec<u8> = Vec::new();
    let mut i: usize = start;
    while i < n
        invariant
            start <= i <= n,
            n == bytes@.len(),
            low@ =~= lower_hex_seq(bytes@.subrange(start as int, i as int)),
            forall|k: int| start <= k < i ==> is_hex_byte(#[trigger] bytes@[k]),
        decreases n - i,
    {
        let b: u8 = bytes[i];
        let hex: bool = (48 <= b && b <= 57) || (97 <= b && b <= 102) || (65 <= b && b <= 70);
        if !hex {
            proof {
                assert(body_spec[i - start] == bytes@[i as int]);
                assert(!is_addr_body(body_spec));
            }
            return Err(UtilsError::InvalidAddress(addr));
        }
        let folded: u8 = if 65 <= b && b <= 70 {
            b + 32
        } else {
            b
        };
        low.push(folded);
        proof {
            assert(bytes@.subrange(start as int, i + 1) =~= bytes@.subrange(
                start as int,
                i as int,
            ).push(b));
            assert(low@ =~= lower_hex_seq(bytes@.subrange(start as int, i + 1)));
        }
        i = i + 1;
    }
    proof {
        assert(bytes@.subrange(start as int, n as int) =~= bytes@.skip(start as int));
        assert(is_addr_body(body_spec));
        assert(low@ == lower_hex_seq(body_spec));
        assert forall|k: int| 0 <= k < low@.len() implies 48 <= #[trigger] low@[k] <= 102 && !(65
            <= low@[k] <= 70) by {
            assert(is_hex_byte(body_spec[k]));
            assert(low@[k] == lower_hex_byte(body_spec[k]));
        }
    }

    let hash: Vec<u8> = keccak256(&low);

    let mut out: Vec<u8> = Vec::new();
    out.push(48);
    out.push(120);
    let mut j: usize = 0;
    while j < 40
        invariant
            j <= 40,
            low@.len() == 40,
            hash@.len() == 32,
            hash@ == keccak_of(low@),
            forall|k: int| 0 <= k < low@.len() ==> 48 <= #[trigger] low@[k] <= 102 && !(65
                <= low@[k] <= 70),
            out@.len() == j + 2,
            out@[0] == 48 && out@[1] == 120,
            forall|k: int| 0 <= k < j ==> out@[k + 2] == checksum_seq(low@, keccak_of(low@))[k],
        decreases 40 - j,
    {
        let c: u8 = low[j];
        let h: u8 = hash[j / 2];
        let nib: u8 = if j % 2 == 0 {
            h / 16
        } else {
            h % 16
        };
        let up: u8 = if 97 <= c && c <= 102 && nib > 7 {
            c - 32
        } else {
            c
        };
        out.push(up);
        j = j + 1;
    }
    proof {
        assert(out@ =~= seq![48u8, 120u8] + checksum_seq(low@, keccak_of(low@)));
        assert forall|k: int| 0 <= k < out@.len() implies #[trigger] out@[k] < 128 by {
            if k >= 2 {
                assert(out@[k] == checksum_seq(low@, keccak_of(low@))[k - 2]);
            }
        }
    }
    let tail = ascii_to_string(out);
    proof {
        assert(format_addr_bytes(bytes@) is Some);
        assert(out@ == format_addr_bytes(bytes@)->Some_0);
        assert(tail@ =~= format_addr_chars(addr@)->Some_0);
    }
    Ok(tail)
}

/// Formatting an address is idempotent: feeding a checksummed address
/// back in returns it unchanged.
pub proof fn lemma_format_evm_address_idempotent(s: Seq<char>)
    requires
        format_addr_chars(s) is Some,
    ensures
        format_addr_chars(format_addr_chars(s)->Some_0) == format_addr_chars(s),
{
    let b = s.map_values(|c: char| c as u8);
    let body = strip_hex_prefix(b);
    let low = lower_hex_seq(body);
    let cs = checksum_seq(low, keccak_of(low));
    let out_b = seq![48u8, 120u8] + cs;
    let out_c = out_b.map_values(|x: u8| x as char);
    assert(format_addr_chars(s)->Some_0 == out_c);

    assert(is_addr_body(body));
    assert forall|i: int| 0 <= i < 40 implies (48 <= #[trigger] cs[i] <= 102 && is_hex_byte(cs[i])
        && cs[i] != 120) by {
        assert(is_hex_byte(body[i]));
        assert(low[i] == lower_hex_byte(body[i]));
    }
    assert forall|i: int| 0 <= i < out_b.len() implies #[trigger] out_b[i] < 128 by {
        if i >= 2 {
            assert(out_b[i] == cs[i - 2]);
        }
    }

    // The rendered address is ASCII, and its characters map back to its bytes.
    assert forall|i: int| 0 <= i < out_c.len() implies '\0' <= #[trigger] out_c[i] <= '\u{7f}' by {
        assert(out_c[i] == out_b[i] as char);
    }
    assert(vstd::utf8::is_ascii_chars(out_c));
    assert(out_c.map_values(|c: char| c as u8) =~= out_b);

    // Stripping the marker leaves exactly the 40 checksummed digits.
    assert(out_b.skip(2) =~= cs);
    assert(strip_hex_prefix(out_b) == strip_hex_prefix(cs));
    assert(strip_hex_prefix(cs) == cs) by {
        assert(cs[1] != 120);
    }
    assert(is_addr_body(cs));

    // Folding the checksummed digits back down gives the same lower form.
    assert(lower_hex_seq(cs) =~= low) by {
        assert forall|i: int| 0 <= i < 40 implies #[trigger] lower_hex_seq(cs)[i] == low[i] by {
            assert(is_hex_byte(body[i]));
            assert(low[i] == lower_hex_byte(body[i]));
            assert(cs[i] == checksum_seq(low, keccak_of(low))[i]);
        }
    }
    assert(checksum_seq(lower_hex_seq(cs), keccak_of(lower_hex_seq(cs))) == cs);
    assert(format_addr_bytes(out_b) == Some(seq![48u8, 120u8] + cs));
    assert(format_addr_chars(out_c) == Some(out_c));
}

/// The EVM address a public key owns: the last 20 bytes of the
/// Keccak-256 digest of the key's uncompressed form without its
/// leading marker byte.
pub open spec fn evm_address_of_key(key: Seq<u8>) -> Option<Seq<u8>> {
    match crate::utils::signing::uncompressed_key_of(key) {
        Some(unc) => Some(keccak_of(unc.subrange(1, 65)).subrange(12, 32)),
        None => None,
    }
}

/// Derive the EVM address behind a public key.
pub fn pubkey_to_address(key: &Vec<u8>) -> (r: Option<Vec<u8>>)
    ensures
        (r is Some) <==> (evm_address_of_key(key@) is Some),
        r is Some ==> r->Some_0@ == evm_address_of_key(key@)->Some_0,
{
    let unc = match crate::utils::signing::decompress_public_key(key) {
        Some(u) => u,
        None => {
            return None;
        },
    };
    let body = crate::utils::encoding::copy_range(&unc, 1, 65);
    let digest = keccak256(&body);
    let address = crate::utils::encoding::copy_range(&digest, 12, 32);
    proof {
        assert(address@ == evm_address_of_key(key@)->Some_0);
    }
    Some(address)
}

/// The EVM address behind a hex-rendered public key, when the string
/// is well-formed hex and the key parses.
pub open spec fn relay_address_of(pk: Seq<char>) -> Option<Seq<u8>> {
    if vstd::utf8::is_ascii_chars(pk) {
        match spec_hex_decode(pk.map_values(|c: char| c as u8)) {
            Some(key) => evm_address_of_key(key),
            None => None,
        }
    } else {
        None
    }
}

/// Derive the EVM address behind a hex-rendered public key.
pub fn address_of_pubkey_hex(pk: &String) -> (r: Option<Vec<u8>>)
    ensures
        (r is Some) <==> (relay_address_of(pk@) is Some),
        r is Some ==> r->Some_0@ == relay_address_of(pk@)->Some_0,
{
    broadcast use vstd::string::group_string_axioms;

    let pk_str = pk.as_str();
    if !pk_str.is_ascii() {
        return None;
    }
    let bytes = pk_str.as_bytes_vec();
    proof {
        assert(bytes@ =~= pk@.map_values(|c: char| c as u8));
    }
    let key = match hex_decode(&bytes) {
        Some(k) => k,
        None => {
            return None;
        },
    };
    pubkey_to_address(&key)
}

/// A 256-bit chain value, given as little-endian 64-bit limbs, as an
/// unbounded amount.
pub fn u256_to_nat(limbs: &Vec<u64>) -> (r: Natural)
    ensures
        r@ == limbs64_value(limbs@),
{
    Natural::from_u64_limbs(limbs)
}

} // verus!
