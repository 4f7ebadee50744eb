use vstd::prelude::*;

verus! {

/// What recovering a public key from a digest and a 64-byte signature
/// under recovery id 0 yields: a function of those bytes alone.
pub uninterp spec fn recovered_compressed_key(digest: Seq<u8>, sig: Seq<u8>) -> Option<Seq<u8>>;

/// Relies on libsecp256k1::recover with recovery id 0, on
/// Signature::parse_overflowing_slice for the 64 signature bytes, and
/// on PublicKey::serialize_compressed for the 33-byte form.
#[verifier::external_body]
fn recover_compressed(digest: &Vec<u8>, sig: &Vec<u8>) -> (r: Option<Vec<u8>>)
    requires
        digest@.len() == 32,
        sig@.len() == 64,
    ensures
        (r is Some) <==> (recovered_compressed_key(digest@, sig@) is Some),
        r is Some ==> r->Some_0@ == recovered_compressed_key(digest@, sig@)->Some_0
            && r->Some_0@.len() == 33,
{
    let message = libsecp256k1::Message::parse_slice(digest.as_slice()).ok()?;
    let signature = libsecp256k1::Signature::parse_overflowing_slice(sig.as_slice()).ok()?;
    let recovery_id = libsecp256k1::RecoveryId::parse(0).ok()?;
    let key = libsecp256k1::recover(&message, &signature, &recovery_id).ok()?;
    Some(key.serialize_compressed().to_vec())
}

/// What decompressing a secp256k1 public key yields: the 65-byte
/// uncompressed form, a function of the key bytes alone.
pub uninterp spec fn uncompressed_key_of(key: Seq<u8>) -> Option<Seq<u8>>;

/// Relies on libsecp256k1::PublicKey::parse_slice, which accepts the
/// compressed, uncompressed and hybrid forms, and on
/// PublicKey::serialize for the 65-byte uncompressed form.
#[verifier::external_body]
pub fn decompress_public_key(key: &Vec<u8>) -> (r: Option<Vec<u8>>)
    ensures
        (r is Some) <==> (uncompressed_key_of(key@) is Some),
        r is Some ==> r->Some_0@ == uncompressed_key_of(key@)->Some_0 && r->Some_0@.len() == 65,
{
    match libsecp256k1::PublicKey::parse_slice(key.as_slice(), None) {
        Ok(pk) => Some(pk.serialize().to_vec()),
        Err(_) => None,
    }
}

/// Byte-string equality.
pub fn bytes_eq(a: &Vec<u8>, b: &Vec<u8>) -> (r: bool)
    ensures
        r == (a@ == b@),
{
    if a.len() != b.len() {
        proof {
            assert(a@ != b@);
        }
        return false;
    }
    let mut i: usize = 0;
    while i < a.len()
        invariant
            i <= a@.len(),
            a@.len() == b@.len(),
            forall|k: int| 0 <= k < i ==> a@[k] == b@[k],
        decreases a@.len() - i,
    {
        if a[i] != b[i] {
            proof {
                assert(a@ != b@);
            }
            return false;
        }
        i = i + 1;
    }
    proof {
        assert(a@ =~= b@);
    }
    true
}

/// The recovery byte a destination chain expects under a signature:
/// 27 when recovery id 0 yields the relay's own public key, 28 when it
/// yields another key, nothing when recovery fails outright.
pub fn get_eth_v(sig: &Vec<u8>, msg: &Vec<u8>, public_key: &Vec<u8>) -> (r: Option<u8>)
    requires
        sig@.len() == 64,
        msg@.len() == 32,
    ensures
        (r is Some) <==> (recovered_compressed_key(msg@, sig@) is Some),
        r is Some ==> r->Some_0 == (if recovered_compressed_key(msg@, sig@)->Some_0
            == public_key@ {
            27u8
        } else {
            28u8
        }),
{
    match recover_compressed(msg, sig) {
        Some(recovered) => {
            if bytes_eq(&recovered, public_key) {
                Some(27)
            } else {
                Some(28)
            }
        },
        None => None,
    }
}

} // verus!
