use ccmp::natural::Natural;
use ccmp::types::evm_chains::EvmChain;
use ccmp::types::messages::{Encoding, Message};
use ccmp::utils::{address_of_pubkey_hex, format_evm_address, keccak256, u256_to_nat};

fn message(index: u64, to_chain: u64, receiver_len: usize) -> Message {
    Message {
        index,
        from_chain_id: 1,
        to_chain_id: to_chain,
        sender: vec![0xAA],
        message: vec![0xBB, 0xCC],
        receiver: vec![0x11; receiver_len],
        signature: None,
        daemon_id: 0,
    }
}

#[test]
fn eip55_checksum_of_known_address() {
    let out = format_evm_address(String::from("0x5aaeb6053f3e94c9b9a09f33669435e7ef1beaed"))
        .expect("valid address");
    assert_eq!(out, "0x5aAeb6053F3E94C9b9A09f33669435E7Ef1BeAed");
}

#[test]
fn format_evm_address_is_idempotent_on_values() {
    let once = format_evm_address(String::from("FB6916095CA1DF60BB79CE92CE3EA74C37C5D359"))
        .expect("valid address");
    let twice = format_evm_address(once.clone()).expect("still valid");
    assert_eq!(once, twice);
    assert_eq!(once, "0xfB6916095ca1df60bB79Ce92cE3Ea74c37c5d359");
}

#[test]
fn format_evm_address_rejects_bad_input() {
    assert!(format_evm_address(String::from("0x1234")).is_err());
    assert!(format_evm_address(String::from(
        "0xZZaeb6053f3e94c9b9a09f33669435e7ef1beaed"
    ))
    .is_err());
    assert!(format_evm_address(String::from("")).is_err());
}

#[test]
fn pubkey_of_unit_secret_key_owns_known_address() {
    // The address behind the public key of the smallest secret key is
    // a fixture every EVM toolchain agrees on.
    let mut sk_bytes = [0u8; 32];
    sk_bytes[31] = 1;
    let sk = libsecp256k1::SecretKey::parse(&sk_bytes).unwrap();
    let pk = libsecp256k1::PublicKey::from_secret_key(&sk);
    let pk_hex = hex::encode(pk.serialize_compressed().to_vec());
    let addr = address_of_pubkey_hex(&pk_hex).expect("key parses");
    assert_eq!(
        hex::encode(&addr),
        "7e5f4552091a69125d5dfcb7b8c2659029395bdf"
    );
}

#[test]
fn encode_packed_lays_out_words_and_raw_bytes() {
    let m = message(1, 3, 20);
    let packed = m.encode(Encoding::AbiEncodePacked).expect("receiver fits");
    let mut expected: Vec<u8> = Vec::new();
    for value in [1u64, 1, 3] {
        let mut word = vec![0u8; 24];
        word.extend_from_slice(&value.to_be_bytes());
        expected.extend_from_slice(&word);
    }
    expected.extend_from_slice(&[0xAA]);
    expected.extend_from_slice(&[0xBB, 0xCC]);
    expected.extend_from_slice(&[0x11; 20]);
    assert_eq!(packed, expected);
}

#[test]
fn encode_packed_refuses_short_receiver() {
    let m = message(1, 3, 19);
    assert!(m.encode(Encoding::AbiEncodePacked).is_err());
    assert!(m.signing_digest().is_err());
}

#[test]
fn plain_encoding_hands_back_the_payload() {
    let m = message(1, 3, 20);
    assert_eq!(m.encode(Encoding::Plain).unwrap(), vec![0xBB, 0xCC]);
}

#[test]
fn signing_digest_is_keccak_of_packed() {
    let m = message(7, 4, 20);
    let packed = m.encode(Encoding::AbiEncodePacked).unwrap();
    let digest = m.signing_digest().unwrap();
    assert_eq!(digest, keccak256(&packed));
    assert_eq!(digest.len(), 32);
}

#[test]
fn chain_id_at_the_64_bit_edge() {
    let accepted = EvmChain::new(
        String::from("edge"),
        String::from("http://localhost"),
        &vec![u64::MAX, 0, 0, 0],
    );
    assert!(accepted.is_ok());
    assert_eq!(accepted.unwrap().id, u64::MAX);

    let rejected = EvmChain::new(
        String::from("past-edge"),
        String::from("http://localhost"),
        &vec![0, 1, 0, 0],
    );
    assert!(rejected.is_err());
}

#[test]
fn natural_arithmetic_on_known_values() {
    let a = Natural::from_u64(1_200_000_000);
    let b = Natural::from_u64(21_000);
    let product = a.mul(&b);
    assert!(product.eq_u64(25_200_000_000_000));

    let sum = a.add(&b);
    assert!(sum.eq_u64(1_200_021_000));

    let diff = sum.checked_sub(&b).unwrap();
    assert!(diff.eq_u64(1_200_000_000));
    assert!(b.checked_sub(&a).is_none());

    let q = Natural::from_u64(105).div_u32(10);
    assert!(q.eq_u64(10));
    assert!(Natural::from_u64(100).lt(&Natural::from_u64(101)));
    assert!(!Natural::from_u64(101).lt(&Natural::from_u64(101)));
}

#[test]
fn natural_byte_rendering_round_trips() {
    let big = Natural::from_u64_limbs(&vec![5, 1]);
    let bytes = big.to_le_bytes();
    let back = Natural::from_le_bytes(&bytes);
    assert!(back.checked_sub(&big).unwrap().eq_u64(0));
    assert!(big.checked_sub(&back).unwrap().eq_u64(0));
}

#[test]
fn u256_limbs_become_an_amount() {
    let small = u256_to_nat(&vec![42, 0, 0, 0]);
    assert!(small.eq_u64(42));
    let carry = u256_to_nat(&vec![0, 1]);
    assert!(!carry.eq_u64(0));
    assert!(Natural::from_u64(u64::MAX).lt(&carry));
}

#[test]
fn recovery_byte_follows_the_recovery_id() {
    // Sign a real digest and check the attached 65-byte signature
    // verifies and recovers back to the signer's key.
    let mut sk_bytes = [0u8; 32];
    sk_bytes[31] = 7;
    let sk = libsecp256k1::SecretKey::parse(&sk_bytes).unwrap();
    let pk = libsecp256k1::PublicKey::from_secret_key(&sk);
    let pk_bytes = pk.serialize_compressed().to_vec();

    let m = message(9, 2, 20);
    let digest = m.signing_digest().unwrap();
    let lib_msg = libsecp256k1::Message::parse_slice(&digest).unwrap();
    let (sig, recid) = libsecp256k1::sign(&lib_msg, &sk);
    assert!(recid.serialize() <= 1);

    let signed = m
        .attach_evm_signature(sig.serialize().to_vec(), &pk_bytes)
        .expect("recovery succeeds");
    let full = signed.signature.clone().unwrap();
    assert_eq!(full.len(), 65);
    let v = full[64];
    assert_eq!(v, 27 + recid.serialize());

    // Verifying with the recovery byte reproduces the signer's key.
    assert!(libsecp256k1::verify(&lib_msg, &sig, &pk));
    let recovered = libsecp256k1::recover(
        &lib_msg,
        &sig,
        &libsecp256k1::RecoveryId::parse(v - 27).unwrap(),
    )
    .unwrap();
    assert_eq!(recovered.serialize_compressed(), pk.serialize_compressed());
}
