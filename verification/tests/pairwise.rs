use vodozemac::{OlmError, OlmSession, PairwiseRatchet};

#[test]
fn alice_and_bob_exchange_first_messages() {
    // Alice creates an identity and publishes one one-time key.
    let mut alice = OlmSession::create_account().unwrap();
    let alice_keys = alice.get_identity_keys().unwrap();
    let mut otks = alice.generate_one_time_keys(1).unwrap();
    assert_eq!(otks.len(), 1);
    let otk = otks.remove(0);

    // Bob opens an outbound session towards Alice.
    let mut bob = OlmSession::create_account().unwrap();
    bob.create_outbound_session(alice_keys.curve25519.as_bytes(), otk.key.as_bytes()).unwrap();

    // Bob's first message is a pre-key message.
    let first = bob.encrypt(b"hello").unwrap();
    assert_eq!(first[0], 0);

    // Alice decrypts it, which establishes her inbound session.
    let plaintext = alice.decrypt(&first[1..], first[0] as usize).unwrap();
    assert_eq!(plaintext, b"hello".to_vec());

    // Both sides derived the same session id without communicating it.
    assert_eq!(alice.session_id().unwrap(), bob.session_id().unwrap());

    // Alice replies; her message is a normal one, and Bob reads it.
    let reply = alice.encrypt(b"hi").unwrap();
    assert_eq!(reply[0], 1);
    let plaintext = bob.decrypt(&reply[1..], reply[0] as usize).unwrap();
    assert_eq!(plaintext, b"hi".to_vec());

    // The conversation continues in both directions.
    let more = bob.encrypt(b"how are you?").unwrap();
    assert_eq!(more[0], 1);
    assert_eq!(alice.decrypt(&more[1..], 1).unwrap(), b"how are you?".to_vec());
}

#[test]
fn replayed_message_fails_to_decrypt() {
    let mut alice = OlmSession::create_account().unwrap();
    let alice_keys = alice.get_identity_keys().unwrap();
    let otk = alice.generate_one_time_keys(1).unwrap().remove(0);
    let mut bob = OlmSession::create_account().unwrap();
    bob.create_outbound_session(alice_keys.curve25519.as_bytes(), otk.key.as_bytes()).unwrap();
    let first = bob.encrypt(b"once").unwrap();
    assert_eq!(alice.decrypt(&first[1..], 0).unwrap(), b"once".to_vec());
    let second = bob.encrypt(b"twice").unwrap();
    assert_eq!(bob_roundtrip(&mut alice, &second), b"twice".to_vec());
    // Replaying the same normal message fails: the message key is gone.
    assert!(matches!(
        alice.decrypt(&second[1..], second[0] as usize),
        Err(OlmError::DecryptionFailed(_))
    ));
}

fn bob_roundtrip(alice: &mut OlmSession, message: &[u8]) -> Vec<u8> {
    alice.decrypt(&message[1..], message[0] as usize).unwrap()
}

#[test]
fn one_time_key_is_consumed_exactly_once() {
    let mut alice = OlmSession::create_account().unwrap();
    let otk = alice.generate_one_time_keys(1).unwrap().remove(0);
    assert!(alice.mark_consumed(&otk.key_id).is_ok());
    assert!(matches!(alice.mark_consumed(&otk.key_id), Err(OlmError::AlreadyConsumed)));
    assert!(matches!(alice.mark_consumed("no such id"), Err(OlmError::UnknownKeyId)));
}

#[test]
fn handshake_consumes_the_one_time_key() {
    let mut alice = OlmSession::create_account().unwrap();
    let alice_keys = alice.get_identity_keys().unwrap();
    let otk = alice.generate_one_time_keys(1).unwrap().remove(0);
    let mut bob = OlmSession::create_account().unwrap();
    bob.create_outbound_session(alice_keys.curve25519.as_bytes(), otk.key.as_bytes()).unwrap();
    let first = bob.encrypt(b"hello").unwrap();
    alice.decrypt(&first[1..], 0).unwrap();
    // The pre-key handshake consumed the key in Alice's pool.
    assert!(matches!(alice.mark_consumed(&otk.key_id), Err(OlmError::AlreadyConsumed)));
    // A second pre-key message using the same key can never establish
    // another session.
    let mut eve = OlmSession::create_account().unwrap();
    eve.create_outbound_session(alice_keys.curve25519.as_bytes(), otk.key.as_bytes()).unwrap();
    let stolen = eve.encrypt(b"again").unwrap();
    assert!(matches!(
        alice.decrypt(&stolen[1..], 0),
        Err(OlmError::SessionCreationFailed(_))
    ));
}

#[test]
fn generate_one_time_keys_returns_only_new_keys() {
    let mut alice = OlmSession::create_account().unwrap();
    let first = alice.generate_one_time_keys(3).unwrap();
    let second = alice.generate_one_time_keys(2).unwrap();
    assert_eq!(first.len(), 3);
    assert_eq!(second.len(), 2);
    for a in &first {
        for b in &second {
            assert_ne!(a.key_id, b.key_id);
        }
    }
}

#[test]
fn generate_one_time_keys_rejects_id_space_overflow() {
    let mut alice = OlmSession::create_account().unwrap();
    assert!(matches!(
        alice.generate_one_time_keys(0x100_0000),
        Err(OlmError::KeyGenerationFailed(_))
    ));
}

#[test]
fn encrypt_without_session_is_an_error() {
    let mut alice = OlmSession::create_account().unwrap();
    assert!(matches!(alice.encrypt(b"x"), Err(OlmError::SessionNotFound)));
    assert!(matches!(alice.decrypt(b"x", 1), Err(OlmError::SessionNotFound)));
    assert!(matches!(alice.decrypt(b"x", 7), Err(OlmError::DecryptionFailed(_))));
    assert!(matches!(alice.session_id(), Err(OlmError::SessionNotFound)));
}

#[test]
fn create_outbound_session_rejects_malformed_keys() {
    let mut bob = OlmSession::create_account().unwrap();
    assert!(matches!(
        bob.create_outbound_session(b"!!not base64!!", b"QUJD"),
        Err(OlmError::InvalidKey(_))
    ));
    // Valid base64, but not 32 bytes of key material.
    assert!(matches!(
        bob.create_outbound_session(b"QUJD", b"QUJD"),
        Err(OlmError::InvalidKey(_))
    ));
}

#[test]
fn account_pickle_round_trip_preserves_identity_and_pool() {
    let mut alice = OlmSession::create_account().unwrap();
    let keys_before = alice.get_identity_keys().unwrap();
    let otk = alice.generate_one_time_keys(2).unwrap().remove(0);
    alice.mark_consumed(&otk.key_id).unwrap();
    let blob = alice.pickle(b"storage key").unwrap();

    let mut restored = OlmSession::unpickle(&blob, b"storage key").unwrap();
    let keys_after = restored.get_identity_keys().unwrap();
    assert_eq!(keys_before.curve25519, keys_after.curve25519);
    assert_eq!(keys_before.ed25519, keys_after.ed25519);
    // The consumed flag survived the round trip.
    assert!(matches!(restored.mark_consumed(&otk.key_id), Err(OlmError::AlreadyConsumed)));
}

#[test]
fn account_unpickle_rejects_wrong_key_and_corruption() {
    let alice = OlmSession::create_account().unwrap();
    let blob = alice.pickle(b"right key").unwrap();
    assert!(matches!(
        OlmSession::unpickle(&blob, b"wrong key"),
        Err(OlmError::CorruptPickle)
    ));
    let mut corrupt = blob.clone();
    let last = corrupt.len() - 1;
    corrupt[last] ^= 0x01;
    assert!(matches!(
        OlmSession::unpickle(&corrupt, b"right key"),
        Err(OlmError::CorruptPickle)
    ));
}

#[test]
fn ratchet_pickle_round_trip_gives_same_next_message() {
    let own_ik = vodozemac::sha256(b"alice private");
    let their_ik = vodozemac::sha256(b"bob identity");
    let their_otk = vodozemac::sha256(b"bob one-time");
    let mut original = PairwiseRatchet::new_outbound(&own_ik, &their_ik, &their_otk);
    let blob = original.pickle(b"k").unwrap();
    let mut restored = PairwiseRatchet::unpickle(&blob, b"k").unwrap();
    assert_eq!(original.session_id(), restored.session_id());
    // The restored session derives the same next message key: encrypting
    // the same plaintext yields byte-identical messages.
    let a = original.encrypt(b"payload").unwrap();
    let b = restored.encrypt(b"payload").unwrap();
    assert_eq!(a.message_type, b.message_type);
    assert_eq!(a.body, b.body);
}

#[test]
fn ratchet_unpickle_rejects_corruption() {
    let own_ik = vodozemac::sha256(b"a");
    let their_ik = vodozemac::sha256(b"b");
    let their_otk = vodozemac::sha256(b"c");
    let ratchet = PairwiseRatchet::new_outbound(&own_ik, &their_ik, &their_otk);
    let blob = ratchet.pickle(b"k").unwrap();
    let mut corrupt = blob.clone();
    corrupt[10] ^= 0xff;
    assert!(matches!(
        PairwiseRatchet::unpickle(&corrupt, b"k"),
        Err(OlmError::CorruptPickle)
    ));
}
