use vodozemac::{
    base64_decode, base64_encode, generate_key_pair, generate_signing_key_pair, random_bytes,
    sha256, sign, verify, KeyPair, UtilityError,
};

#[test]
fn sha256_known_answer() {
    // FIPS 180-2 test vector: SHA-256("abc").
    let expected: [u8; 32] = [
        0xba, 0x78, 0x16, 0xbf, 0x8f, 0x01, 0xcf, 0xea, 0x41, 0x41, 0x40, 0xde, 0x5d, 0xae, 0x22,
        0x23, 0xb0, 0x03, 0x61, 0xa3, 0x96, 0x17, 0x7a, 0x9c, 0xb4, 0x10, 0xff, 0x61, 0xf2, 0x00,
        0x15, 0xad,
    ];
    assert_eq!(sha256(b"abc"), expected.to_vec());
}

#[test]
fn sha256_is_deterministic_and_32_bytes() {
    let a = sha256(b"chain state");
    let b = sha256(b"chain state");
    assert_eq!(a, b);
    assert_eq!(a.len(), 32);
    assert_ne!(a, sha256(b"chain statf"));
}

#[test]
fn random_bytes_length() {
    assert_eq!(random_bytes(0).len(), 0);
    assert_eq!(random_bytes(32).len(), 32);
    assert_eq!(random_bytes(100).len(), 100);
}

#[test]
fn base64_round_trip() {
    let data = vec![0u8, 1, 2, 250, 251, 252, 253, 254, 255];
    let text = base64_encode(&data);
    assert_eq!(base64_decode(&text).unwrap(), data);
    let empty = base64_encode(&[]);
    assert_eq!(empty, "");
    assert_eq!(base64_decode(&empty).unwrap(), Vec::<u8>::new());
}

#[test]
fn base64_decode_rejects_garbage() {
    assert!(matches!(base64_decode("not base64 !!"), Err(UtilityError::InvalidKeyFormat)));
    assert!(matches!(base64_decode("QUJD#"), Err(UtilityError::InvalidKeyFormat)));
}

#[test]
fn key_pair_bytes_round_trip() {
    let pair = generate_key_pair().unwrap();
    let bytes = pair.to_bytes();
    let restored = KeyPair::from_bytes(&bytes).unwrap();
    assert_eq!(restored.private_key(), pair.private_key());
    assert_eq!(restored.public_key(), pair.public_key());
    assert_eq!(pair.private_key().len(), 32);
    assert_eq!(pair.public_key().len(), 32);
}

#[test]
fn key_pair_public_derived_from_private() {
    let pair = generate_signing_key_pair().unwrap();
    assert_eq!(pair.public_key(), sha256(pair.private_key()).as_slice());
}

#[test]
fn key_pair_from_bytes_rejects_short_input() {
    assert!(matches!(KeyPair::from_bytes(&[1, 2, 3]), Err(UtilityError::InvalidKeyFormat)));
    // Length prefix claims 32 private bytes but nothing follows.
    assert!(matches!(KeyPair::from_bytes(&[32, 0, 0, 0]), Err(UtilityError::InvalidKeyFormat)));
}

#[test]
fn sign_and_verify_round_trip() {
    let pair = generate_signing_key_pair().unwrap();
    let message = b"attested payload";
    let signature = sign(pair.private_key(), message).unwrap();
    assert_eq!(signature.len(), 64);
    assert!(verify(pair.public_key(), message, &signature).unwrap());
}

#[test]
fn verify_rejects_wrong_message_and_key() {
    let pair = generate_signing_key_pair().unwrap();
    let other = generate_signing_key_pair().unwrap();
    let signature = sign(pair.private_key(), b"hello").unwrap();
    assert!(verify(pair.public_key(), b"hello", &signature).unwrap());
    assert!(!verify(pair.public_key(), b"hellp", &signature).unwrap());
    assert!(!verify(other.public_key(), b"hello", &signature).unwrap());
}

#[test]
fn sign_and_verify_fail_closed_on_malformed_input() {
    assert!(matches!(sign(&[0u8; 31], b"m"), Err(UtilityError::SigningFailed(_))));
    let pair = generate_signing_key_pair().unwrap();
    let signature = sign(pair.private_key(), b"m").unwrap();
    assert!(matches!(
        verify(&[0u8; 31], b"m", &signature),
        Err(UtilityError::VerificationFailed(_))
    ));
    assert!(matches!(
        verify(pair.public_key(), b"m", &signature[..63]),
        Err(UtilityError::VerificationFailed(_))
    ));
}
