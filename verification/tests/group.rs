use vodozemac::{MegolmError, MegolmMessage, MegolmSession};

#[test]
fn outbound_group_session_encrypts_with_rising_indices() {
    let mut session = MegolmSession::create_outbound().unwrap();
    let m0 = session.encrypt(b"zero").unwrap();
    let m1 = session.encrypt(b"one").unwrap();
    let m2 = session.encrypt(b"two").unwrap();
    assert_eq!(m0.message_index, 0);
    assert_eq!(m1.message_index, 1);
    assert_eq!(m2.message_index, 2);
    assert_eq!(m0.algorithm, "m.megolm.v1.aes-sha2");
    assert_eq!(m0.session_id, session.session_id());
}

#[test]
fn inbound_from_late_export_rejects_earlier_indices() {
    // The outbound side sends two messages, then exports its key: the
    // export reflects index 2.
    let mut outbound = MegolmSession::create_outbound().unwrap();
    let m0 = outbound.encrypt(b"zero").unwrap();
    let m1 = outbound.encrypt(b"one").unwrap();
    let export = outbound.get_session_key().unwrap();
    let m2 = outbound.encrypt(b"two").unwrap();

    let mut inbound = MegolmSession::create_inbound(&export).unwrap();
    assert_eq!(inbound.session_id(), outbound.session_id());

    // The message at index 2 decrypts; indices 0 and 1 are gone for good.
    assert_eq!(inbound.decrypt(&m2).unwrap(), b"two".to_vec());
    assert!(matches!(inbound.decrypt(&m0), Err(MegolmError::MessageIndexTooOld)));
    assert!(matches!(inbound.decrypt(&m1), Err(MegolmError::MessageIndexTooOld)));
}

#[test]
fn inbound_from_initial_export_reads_everything_in_order() {
    let mut outbound = MegolmSession::create_outbound().unwrap();
    let export = outbound.get_session_key().unwrap();
    let m0 = outbound.encrypt(b"zero").unwrap();
    let m1 = outbound.encrypt(b"one").unwrap();
    let m2 = outbound.encrypt(b"two").unwrap();

    let mut inbound = MegolmSession::create_inbound(&export).unwrap();
    assert_eq!(inbound.decrypt(&m0).unwrap(), b"zero".to_vec());
    assert_eq!(inbound.decrypt(&m1).unwrap(), b"one".to_vec());
    assert_eq!(inbound.decrypt(&m2).unwrap(), b"two".to_vec());
    // After advancing to index 2, earlier indices fail.
    assert!(matches!(inbound.decrypt(&m0), Err(MegolmError::MessageIndexTooOld)));
}

#[test]
fn decrypt_at_current_index_succeeds_and_replay_is_idempotent() {
    let mut outbound = MegolmSession::create_outbound().unwrap();
    let export = outbound.get_session_key().unwrap();
    let m0 = outbound.encrypt(b"zero").unwrap();
    let m1 = outbound.encrypt(b"one").unwrap();

    let mut inbound = MegolmSession::create_inbound(&export).unwrap();
    // Skipping ahead advances the stored state to the message's index.
    assert_eq!(inbound.decrypt(&m1).unwrap(), b"one".to_vec());
    // Re-decrypting the same index with the same stored state succeeds and
    // does not advance further.
    assert_eq!(inbound.decrypt(&m1).unwrap(), b"one".to_vec());
    // Anything below the stored index is too old.
    assert!(matches!(inbound.decrypt(&m0), Err(MegolmError::MessageIndexTooOld)));
}

#[test]
fn decrypt_rejects_foreign_session_and_tampering() {
    let mut outbound = MegolmSession::create_outbound().unwrap();
    let export = outbound.get_session_key().unwrap();
    let m0 = outbound.encrypt(b"zero").unwrap();
    let mut inbound = MegolmSession::create_inbound(&export).unwrap();

    // A message labelled with another session's id is rejected outright.
    let foreign = MegolmMessage {
        algorithm: m0.algorithm.clone(),
        sender_key: m0.sender_key.clone(),
        session_id: String::from("somebody else"),
        ciphertext: m0.ciphertext.clone(),
        message_index: m0.message_index,
    };
    assert!(matches!(inbound.decrypt(&foreign), Err(MegolmError::SessionIdMismatch)));

    // An envelope index that disagrees with the signed payload is rejected.
    let relabelled = MegolmMessage {
        algorithm: m0.algorithm.clone(),
        sender_key: m0.sender_key.clone(),
        session_id: m0.session_id.clone(),
        ciphertext: m0.ciphertext.clone(),
        message_index: 5,
    };
    assert!(matches!(inbound.decrypt(&relabelled), Err(MegolmError::DecryptionFailed(_))));

    // A payload that decodes but is too short to carry its fields fails.
    let truncated = MegolmMessage {
        algorithm: m0.algorithm.clone(),
        sender_key: m0.sender_key.clone(),
        session_id: m0.session_id.clone(),
        ciphertext: vodozemac::base64_encode(b"short"),
        message_index: 0,
    };
    assert!(matches!(inbound.decrypt(&truncated), Err(MegolmError::DecryptionFailed(_))));

    // Flipping ciphertext bytes breaks the signature.
    let mut payload = vodozemac::base64_decode(&m0.ciphertext).unwrap();
    let last = payload.len() - 1;
    payload[last] ^= 0x01;
    let tampered = MegolmMessage {
        algorithm: m0.algorithm.clone(),
        sender_key: m0.sender_key.clone(),
        session_id: m0.session_id.clone(),
        ciphertext: vodozemac::base64_encode(&payload),
        message_index: m0.message_index,
    };
    assert!(matches!(inbound.decrypt(&tampered), Err(MegolmError::SignatureInvalid)));

    // The intact message still decrypts.
    assert_eq!(inbound.decrypt(&m0).unwrap(), b"zero".to_vec());
}

#[test]
fn inbound_sessions_cannot_encrypt_or_export() {
    let mut outbound = MegolmSession::create_outbound().unwrap();
    let export = outbound.get_session_key().unwrap();
    let mut inbound = MegolmSession::create_inbound(&export).unwrap();
    assert!(matches!(inbound.encrypt(b"x"), Err(MegolmError::NotOutboundSession)));
    assert!(matches!(inbound.get_session_key(), Err(MegolmError::NotOutboundSession)));
}

#[test]
fn create_inbound_rejects_malformed_keys() {
    assert!(matches!(
        MegolmSession::create_inbound("!!not base64!!"),
        Err(MegolmError::InvalidSessionKey(_))
    ));
    // Valid base64 of the wrong shape.
    let bogus = vodozemac::base64_encode(b"way too short");
    assert!(matches!(
        MegolmSession::create_inbound(&bogus),
        Err(MegolmError::InvalidSessionKey(_))
    ));
}

#[test]
fn group_pickle_round_trip_gives_same_next_message() {
    let mut original = MegolmSession::create_outbound().unwrap();
    original.encrypt(b"advance me").unwrap();
    let blob = original.pickle(b"cabinet").unwrap();
    let mut restored = MegolmSession::unpickle(&blob, b"cabinet").unwrap();
    assert_eq!(original.session_id(), restored.session_id());
    let a = original.encrypt(b"payload").unwrap();
    let b = restored.encrypt(b"payload").unwrap();
    assert_eq!(a.ciphertext, b.ciphertext);
    assert_eq!(a.message_index, b.message_index);
}

#[test]
fn group_pickle_round_trip_for_inbound_sessions() {
    let mut outbound = MegolmSession::create_outbound().unwrap();
    let export = outbound.get_session_key().unwrap();
    let m0 = outbound.encrypt(b"zero").unwrap();
    let inbound = MegolmSession::create_inbound(&export).unwrap();
    let blob = inbound.pickle(b"").unwrap();
    let mut restored = MegolmSession::unpickle(&blob, b"").unwrap();
    assert_eq!(restored.session_id(), outbound.session_id());
    assert_eq!(restored.decrypt(&m0).unwrap(), b"zero".to_vec());
}

#[test]
fn group_unpickle_rejects_wrong_key_and_corruption() {
    let session = MegolmSession::create_outbound().unwrap();
    let blob = session.pickle(b"right").unwrap();
    assert!(matches!(
        MegolmSession::unpickle(&blob, b"wrong"),
        Err(MegolmError::CorruptPickle)
    ));
    let mut corrupt = blob.clone();
    corrupt[0] ^= 0x80;
    assert!(matches!(
        MegolmSession::unpickle(&corrupt, b"right"),
        Err(MegolmError::CorruptPickle)
    ));
}

#[test]
fn export_is_deterministic_at_a_position() {
    let outbound = MegolmSession::create_outbound().unwrap();
    let a = outbound.get_session_key().unwrap();
    let b = outbound.get_session_key().unwrap();
    assert_eq!(a, b);
}
