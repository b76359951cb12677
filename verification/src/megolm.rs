//! Group ("Megolm"-style) ratchet sessions.
//!
//! A group session is a forward-only symmetric ratchet shared with every
//! recipient, sender-authenticated by a per-session signing key. The chain
//! state advances by one one-way derivation step per message; an exported
//! session key snapshots the current position, so a recipient can decrypt
//! messages at or after that index but never before it.
//!
//! The wire layout of an encrypted record's payload (carried base64-encoded
//! in the envelope's `ciphertext` field) is
//! `le32(index) || mac(32) || signature(64) || ciphertext`, where the
//! message key is a digest of the chain state, the ciphertext is the
//! keystream cipher's output, the mac covers the ciphertext under the
//! message key, and the signature covers session id, index, mac and
//! ciphertext. An exported session key decodes to
//! `version(1) || session id(32) || le32(index) || chain(32) || verification key(32)`.

use vstd::prelude::*;

verus! {

use crate::bytes::{append_bytes, bytes_eq, copy_range, le32_spec, le32_val, lemma_le32_complete,
    lemma_le32_round_trip, u32_from_le, u32_to_le, zeroize};
use crate::cipher::{apply_keystream, compute_mac, lemma_xor_ks_involution, mac_of, tagged_digest,
    xor_ks};
use crate::pickle::{seal, seal_spec, sealed_wf, unseal, unsealed_of, lemma_seal_round_trip};
use crate::utilities::{b64_of, base64_decode, base64_encode, digest32, h256, random_bytes, sig_of,
    verify};

/// Domain-separation tag for one chain advance step.
pub const TAG_GROUP_NEXT: u8 = 71;

/// Domain-separation tag for deriving a message key from the chain.
pub const TAG_GROUP_MSGKEY: u8 = 72;

/// Version byte of the exported session-key format.
pub const EXPORT_VERSION: u8 = 2;

/// Megolm errors.
#[derive(Debug)]
pub enum MegolmError {
    SessionCreationFailed(String),
    EncryptionFailed(String),
    DecryptionFailed(String),
    InvalidSessionKey(String),
    InvalidMessageIndex(String),
    SessionNotFound,
    /// The operation needs an outbound session but was called on an inbound
    /// one.
    NotOutboundSession,
    /// The message belongs to a different session.
    SessionIdMismatch,
    /// The message's index is below the session's ratchet index; the state
    /// needed to decrypt it has been discarded.
    MessageIndexTooOld,
    /// The record's signature does not verify under the session's
    /// verification key.
    SignatureInvalid,
    /// A pickled blob failed its integrity check or does not hold a
    /// well-formed session state.
    CorruptPickle,
}

/// Encrypted group message envelope.
pub struct MegolmMessage {
    pub algorithm: String,
    pub sender_key: String,
    pub session_id: String,
    pub ciphertext: String,
    pub message_index: u32,
}

/// One step of the one-way chain ratchet.
pub open spec fn chain_next(c: Seq<u8>) -> Seq<u8> {
    h256(c + seq![TAG_GROUP_NEXT])
}

/// The chain state `steps` one-way steps after `c`.
pub open spec fn chain_at(c: Seq<u8>, steps: nat) -> Seq<u8>
    decreases steps,
{
    if steps == 0 {
        c
    } else {
        chain_next(chain_at(c, (steps - 1) as nat))
    }
}

/// Advancing by `a` steps and then by `b` steps is advancing by `a + b`.
pub proof fn lemma_chain_at_add(c: Seq<u8>, a: nat, b: nat)
    ensures
        chain_at(chain_at(c, a), b) == chain_at(c, a + b),
    decreases b,
{
    if b > 0 {
        lemma_chain_at_add(c, a, (b - 1) as nat);
    }
}

/// The message key derived from a chain state.
pub open spec fn msg_key_of(c: Seq<u8>) -> Seq<u8> {
    h256(c + seq![TAG_GROUP_MSGKEY])
}

/// The bytes a record's signature covers.
pub open spec fn group_signed_data(sid: Seq<u8>, index: u32, mac: Seq<u8>, ct: Seq<u8>) -> Seq<u8> {
    sid + le32_spec(index) + mac + ct
}

/// The payload of a record the session with id `sid`, verification key `vk`
/// and chain state `chain` produces at `index` for plaintext `pt`.
pub open spec fn group_payload(
    sid: Seq<u8>,
    vk: Seq<u8>,
    chain: Seq<u8>,
    index: u32,
    pt: Seq<u8>,
) -> Seq<u8> {
    let mk = msg_key_of(chain);
    let ct = xor_ks(mk, pt);
    let mac = mac_of(mk, ct);
    le32_spec(index) + mac + sig_of(vk, group_signed_data(sid, index, mac, ct)) + ct
}

/// The exported session-key bytes for a session at a given position.
pub open spec fn export_bytes(sid: Seq<u8>, index: u32, chain: Seq<u8>, vk: Seq<u8>) -> Seq<u8> {
    seq![EXPORT_VERSION] + sid + le32_spec(index) + chain + vk
}

/// Whether an envelope's `ciphertext` text carries plaintext `pt` at
/// envelope index `index`, for a session whose chain stands at `base` with
/// state `chain`.
pub open spec fn group_message_valid(
    sid: Seq<u8>,
    vk: Seq<u8>,
    chain: Seq<u8>,
    base: u32,
    index: u32,
    text: Seq<char>,
    pt: Seq<u8>,
) -> bool {
    &&& index >= base
    &&& pt.len() <= 0xffff_ffff
    &&& text == b64_of(group_payload(sid, vk, chain_at(chain, (index - base) as nat), index, pt))
}

/// How the payload splits back into its parts: the four fixed-offset fields
/// and the trailing ciphertext.
pub proof fn lemma_group_payload_parts(
    sid: Seq<u8>,
    vk: Seq<u8>,
    chain: Seq<u8>,
    index: u32,
    pt: Seq<u8>,
)
    ensures
        ({
            let mk = msg_key_of(chain);
            let ct = xor_ks(mk, pt);
            let mac = mac_of(mk, ct);
            let p = group_payload(sid, vk, chain, index, pt);
            &&& p.len() == 100 + pt.len()
            &&& p.subrange(0, 4) == le32_spec(index)
            &&& p.subrange(4, 36) == mac
            &&& p.subrange(36, 100) == sig_of(vk, group_signed_data(sid, index, mac, ct))
            &&& p.subrange(100, p.len() as int) == ct
        }),
{
    let mk = msg_key_of(chain);
    let ct = xor_ks(mk, pt);
    let mac = mac_of(mk, ct);
    let p = group_payload(sid, vk, chain, index, pt);
    assert(p.subrange(0, 4) =~= le32_spec(index));
    assert(p.subrange(4, 36) =~= mac);
    assert(p.subrange(36, 100) =~= sig_of(vk, group_signed_data(sid, index, mac, ct)));
    assert(p.subrange(100, p.len() as int) =~= ct);
}

/// A group ratchet session: outbound (advances and signs) or inbound
/// (advances and verifies).
pub struct MegolmSession {
    session_id: String,
    sid_bytes: Vec<u8>,
    ratchet_index: u32,
    chain: Vec<u8>,
    signing_private: Vec<u8>,
    verification_key: Vec<u8>,
    is_outbound: bool,
}

impl MegolmSession {
    /// The raw 32 session-id bytes.
    pub closed spec fn sid_spec(self) -> Seq<u8> {
        self.sid_bytes@
    }

    /// The session id as base64 text.
    pub closed spec fn session_id_view(self) -> Seq<char> {
        self.session_id@
    }

    /// The current ratchet index.
    pub closed spec fn index_spec(self) -> u32 {
        self.ratchet_index
    }

    /// The current chain state.
    pub closed spec fn chain_spec(self) -> Seq<u8> {
        self.chain@
    }

    /// The signature verification key.
    pub closed spec fn vk_spec(self) -> Seq<u8> {
        self.verification_key@
    }

    /// The signing key (outbound sessions only).
    pub closed spec fn sk_spec(self) -> Seq<u8> {
        self.signing_private@
    }

    /// Whether this is the outbound side.
    pub closed spec fn outbound_spec(self) -> bool {
        self.is_outbound
    }

    /// Internal consistency: 32-byte state fields, session-id text matching
    /// the raw id, and on the outbound side a signing key the verification
    /// key is derived from.
    pub closed spec fn wf(self) -> bool {
        &&& self.sid_bytes@.len() == 32
        &&& self.chain@.len() == 32
        &&& self.verification_key@.len() == 32
        &&& self.session_id@ == b64_of(self.sid_bytes@)
        &&& self.is_outbound ==> self.signing_private@.len() == 32 && self.verification_key@
            == h256(self.signing_private@)
        &&& !self.is_outbound ==> self.signing_private@.len() == 0
    }

    /// Creates a fresh outbound session: a random ratchet seed, a session id
    /// derived as the digest of that initial seed, and a fresh signing key
    /// pair; the ratchet index starts at 0.
    pub fn create_outbound() -> (r: Result<Self, MegolmError>)
        ensures
            r is Ok,
            r is Ok ==> {
                let s = r->Ok_0;
                &&& s.wf()
                &&& s.outbound_spec()
                &&& s.index_spec() == 0
                &&& s.sid_spec() == h256(s.chain_spec())
            },
    {
        let chain = random_bytes(32);
        let sid_bytes = digest32(chain.as_slice());
        let session_id = base64_encode(sid_bytes.as_slice());
        let signing_private = random_bytes(32);
        let verification_key = digest32(signing_private.as_slice());
        Ok(
            MegolmSession {
                session_id,
                sid_bytes,
                ratchet_index: 0,
                chain,
                signing_private,
                verification_key,
            is_outbound: true,
            },
        )
    }

    /// Reconstructs an inbound session from an exported session key, at the
    /// index the export was taken at. Succeeds exactly on canonical export
    /// text; the inbound side carries no signing key.
    pub fn create_inbound(session_key: &str) -> (r: Result<Self, MegolmError>)
        ensures
            forall|sid: Seq<u8>, idx: u32, ch: Seq<u8>, vk: Seq<u8>|
                sid.len() == 32 && ch.len() == 32 && vk.len() == 32 && session_key@ == b64_of(
                    #[trigger] export_bytes(sid, idx, ch, vk),
                ) ==> r is Ok,
            r is Ok ==> {
                let s = r->Ok_0;
                &&& s.wf()
                &&& !s.outbound_spec()
                &&& session_key@ == b64_of(
                    export_bytes(s.sid_spec(), s.index_spec(), s.chain_spec(), s.vk_spec()),
                )
            },
            r is Err ==> r->Err_0 is InvalidSessionKey,
    {
        let decoded = match base64_decode(session_key) {
            Ok(v) => v,
            Err(_) => {
                proof {
                    assert forall|sid: Seq<u8>, idx: u32, ch: Seq<u8>, vk: Seq<u8>|
                        sid.len() == 32 && ch.len() == 32 && vk.len() == 32 && session_key@
                            == b64_of(#[trigger] export_bytes(sid, idx, ch, vk)) implies false by {};
                }
                return Err(MegolmError::InvalidSessionKey(String::new()));
            },
        };
        if decoded.len() != 101 || decoded[0] != EXPORT_VERSION {
            proof {
                assert forall|sid: Seq<u8>, idx: u32, ch: Seq<u8>, vk: Seq<u8>|
                    sid.len() == 32 && ch.len() == 32 && vk.len() == 32 && session_key@ == b64_of(
                        #[trigger] export_bytes(sid, idx, ch, vk),
                    ) implies false by {
                    assert(decoded@ == export_bytes(sid, idx, ch, vk));
                    assert(decoded@.len() == 101);
                    assert(decoded@[0] == EXPORT_VERSION);
                };
            }
            return Err(MegolmError::InvalidSessionKey(String::new()));
        }
        let sid_bytes = copy_range(decoded.as_slice(), 1, 33);
        let idx = u32_from_le(decoded[33], decoded[34], decoded[35], decoded[36]);
        let chain = copy_range(decoded.as_slice(), 37, 69);
        let verification_key = copy_range(decoded.as_slice(), 69, 101);
        let session_id = base64_encode(sid_bytes.as_slice());
        proof {
            lemma_le32_complete(decoded@.subrange(33, 37));
            assert(seq![decoded@[33], decoded@[34], decoded@[35], decoded@[36]] =~= decoded@.subrange(
                33, 37));
            assert(decoded@ =~= export_bytes(
                decoded@.subrange(1, 33),
                idx,
                decoded@.subrange(37, 69),
                decoded@.subrange(69, 101),
            ));
        }
        Ok(
            MegolmSession {
                session_id,
                sid_bytes,
                ratchet_index: idx,
                chain,
                signing_private: Vec::new(),
                verification_key,
                is_outbound: false,
            },
        )
    }

    /// The session id, as base64 text of the raw id bytes.
    pub fn session_id(&self) -> (r: &str)
        ensures
            r@ == self.session_id_view(),
    {
        self.session_id.as_str()
    }

    /// Exports the session key at the current ratchet position, for sharing
    /// with group members over a pairwise channel. Only the outbound side
    /// can export; the snapshot can never be rewound, so a recipient can
    /// decrypt this and later indices but not earlier ones.
    pub fn get_session_key(&self) -> (r: Result<String, MegolmError>)
        requires
            self.wf(),
        ensures
            r is Ok <==> self.outbound_spec(),
            r is Ok ==> r->Ok_0@ == b64_of(
                export_bytes(self.sid_spec(), self.index_spec(), self.chain_spec(), self.vk_spec()),
            ),
            r is Err ==> r->Err_0 is NotOutboundSession,
    {
        if !self.is_outbound {
            return Err(MegolmError::NotOutboundSession);
        }
        let mut out: Vec<u8> = Vec::new();
        out.push(EXPORT_VERSION);
        append_bytes(&mut out, self.sid_bytes.as_slice());
        let idx = u32_to_le(self.ratchet_index);
        append_bytes(&mut out, idx.as_slice());
        append_bytes(&mut out, self.chain.as_slice());
        append_bytes(&mut out, self.verification_key.as_slice());
        proof {
            assert(out@ =~= export_bytes(
                self.sid_spec(),
                self.index_spec(),
                self.chain_spec(),
                self.vk_spec(),
            ));
        }
        Ok(base64_encode(out.as_slice()))
    }

    /// Encrypts a message with the outbound ratchet: derives the message key
    /// at the current position, encrypts and signs, then advances the chain
    /// one one-way step and wipes the superseded state. The returned record
    /// carries the pre-advance index.
    pub fn encrypt(&mut self, plaintext: &[u8]) -> (r: Result<MegolmMessage, MegolmError>)
        requires
            old(self).wf(),
        ensures
            final(self).wf(),
            final(self).sid_spec() == old(self).sid_spec(),
            final(self).session_id_view() == old(self).session_id_view(),
            final(self).outbound_spec() == old(self).outbound_spec(),
            final(self).vk_spec() == old(self).vk_spec(),
            final(self).sk_spec() == old(self).sk_spec(),
            r is Ok <==> old(self).outbound_spec() && old(self).index_spec() < 0xffff_ffffu32
                && plaintext@.len() <= 0xffff_ffff,
            !old(self).outbound_spec() ==> r is Err && r->Err_0 is NotOutboundSession,
            r is Err ==> final(self).index_spec() == old(self).index_spec() && final(self).chain_spec() == old(self).chain_spec(),
            r is Ok ==> {
                let m = r->Ok_0;
                &&& final(self).index_spec() == old(self).index_spec() + 1
                &&& final(self).chain_spec() == chain_next(old(self).chain_spec())
                &&& m.message_index == old(self).index_spec()
                &&& m.session_id@ == old(self).session_id_view()
                &&& m.sender_key@ == b64_of(old(self).vk_spec())
                &&& m.algorithm@ == "m.megolm.v1.aes-sha2"@
                &&& m.ciphertext@ == b64_of(
                    group_payload(
                        old(self).sid_spec(),
                        old(self).vk_spec(),
                        old(self).chain_spec(),
                        old(self).index_spec(),
                        plaintext@,
                    ),
                )
            },
    {
        if !self.is_outbound {
            return Err(MegolmError::NotOutboundSession);
        }
        if self.ratchet_index == 0xffff_ffffu32 {
            return Err(MegolmError::EncryptionFailed(String::new()));
        }
        if plaintext.len() > 0xffff_ffff {
            return Err(MegolmError::EncryptionFailed(String::new()));
        }
        let mut mk = tagged_digest(self.chain.as_slice(), TAG_GROUP_MSGKEY);
        let ct = apply_keystream(mk.as_slice(), plaintext);
        let mac = compute_mac(mk.as_slice(), ct.as_slice());
        let mut signed: Vec<u8> = Vec::new();
        append_bytes(&mut signed, self.sid_bytes.as_slice());
        let idx_bytes = u32_to_le(self.ratchet_index);
        append_bytes(&mut signed, idx_bytes.as_slice());
        append_bytes(&mut signed, mac.as_slice());
        append_bytes(&mut signed, ct.as_slice());
        proof {
            assert(signed@ =~= group_signed_data(
                self.sid_spec(),
                self.index_spec(),
                mac@,
                ct@,
            ));
        }
        let sig = match crate::utilities::sign(self.signing_private.as_slice(), signed.as_slice()) {
            Ok(s) => s,
            Err(_) => {
                return Err(MegolmError::EncryptionFailed(String::new()));
            },
        };
        let mut payload: Vec<u8> = Vec::new();
        append_bytes(&mut payload, idx_bytes.as_slice());
        append_bytes(&mut payload, mac.as_slice());
        append_bytes(&mut payload, sig.as_slice());
        append_bytes(&mut payload, ct.as_slice());
        proof {
            assert(payload@ =~= group_payload(
                self.sid_spec(),
                self.vk_spec(),
                self.chain_spec(),
                self.index_spec(),
                plaintext@,
            ));
        }
        let ciphertext = base64_encode(payload.as_slice());
        let message = MegolmMessage {
            algorithm: "m.megolm.v1.aes-sha2".to_owned(),
            sender_key: base64_encode(self.verification_key.as_slice()),
            session_id: self.session_id.clone(),
            ciphertext,
            message_index: self.ratchet_index,
        };
        let next = tagged_digest(self.chain.as_slice(), TAG_GROUP_NEXT);
        zeroize(&mut self.chain);
        zeroize(&mut mk);
        self.chain = next;
        self.ratchet_index = self.ratchet_index + 1;
        Ok(message)
    }

    /// Decrypts a record. Fails with `SessionIdMismatch` for a foreign
    /// session id and with `MessageIndexTooOld` for any index below the
    /// current ratchet index; otherwise it succeeds exactly on records this
    /// session's chain and keys produce at the carried index, advancing the
    /// stored state deterministically to that index (so replaying the same
    /// index succeeds again and re-advances nothing).
    pub fn decrypt(&mut self, message: &MegolmMessage) -> (r: Result<Vec<u8>, MegolmError>)
        requires
            old(self).wf(),
        ensures
            final(self).wf(),
            final(self).sid_spec() == old(self).sid_spec(),
            final(self).session_id_view() == old(self).session_id_view(),
            final(self).outbound_spec() == old(self).outbound_spec(),
            final(self).vk_spec() == old(self).vk_spec(),
            final(self).sk_spec() == old(self).sk_spec(),
            r is Err ==> final(self).index_spec() == old(self).index_spec() && final(self).chain_spec() == old(self).chain_spec(),
            message.session_id@ != old(self).session_id_view() ==> r is Err && r->Err_0
                is SessionIdMismatch,
            message.session_id@ == old(self).session_id_view() && message.message_index < old(self).index_spec() ==> r is Err && r->Err_0 is MessageIndexTooOld,
            r is Ok <==> message.session_id@ == old(self).session_id_view() && (exists|pt: Seq<u8>|
                group_message_valid(
                    old(self).sid_spec(),
                    old(self).vk_spec(),
                    old(self).chain_spec(),
                    old(self).index_spec(),
                    message.message_index,
                    message.ciphertext@,
                    pt,
                )),
            message.session_id@ == old(self).session_id_view() ==> forall|pt: Seq<u8>|
                #[trigger] group_message_valid(
                    old(self).sid_spec(),
                    old(self).vk_spec(),
                    old(self).chain_spec(),
                    old(self).index_spec(),
                    message.message_index,
                    message.ciphertext@,
                    pt,
                ) ==> r is Ok && r->Ok_0@ == pt,
            r is Ok ==> {
                &&& final(self).index_spec() == message.message_index
                &&& final(self).chain_spec() == chain_at(
                    old(self).chain_spec(),
                    (message.message_index - old(self).index_spec()) as nat,
                )
                &&& group_message_valid(
                    old(self).sid_spec(),
                    old(self).vk_spec(),
                    old(self).chain_spec(),
                    old(self).index_spec(),
                    message.message_index,
                    message.ciphertext@,
                    r->Ok_0@,
                )
            },
    {
        let ghost sid = old(self).sid_spec();
        let ghost vk = old(self).vk_spec();
        let ghost chain0 = old(self).chain_spec();
        let ghost base = old(self).index_spec();
        let ghost text = message.ciphertext@;
        if !(message.session_id == self.session_id) {
            return Err(MegolmError::SessionIdMismatch);
        }
        if message.message_index < self.ratchet_index {
            proof {
                assert forall|pt: Seq<u8>|
                    !group_message_valid(
                        sid,
                        vk,
                        chain0,
                        base,
                        message.message_index,
                        text,
                        pt,
                    ) by {};
            }
            return Err(MegolmError::MessageIndexTooOld);
        }
        let payload = match base64_decode(message.ciphertext.as_str()) {
            Ok(v) => v,
            Err(_) => {
                proof {
                    assert forall|pt: Seq<u8>|
                        !group_message_valid(
                            sid,
                            vk,
                            chain0,
                            base,
                            message.message_index,
                            text,
                            pt,
                        ) by {};
                }
                return Err(MegolmError::DecryptionFailed(String::new()));
            },
        };
        let ghost steps = (message.message_index - base) as nat;
        let ghost chain_target = chain_at(chain0, steps);
        proof {
            assert forall|pt: Seq<u8>|
                group_message_valid(sid, vk, chain0, base, message.message_index, text, pt)
                implies payload@ == group_payload(
                    sid,
                    vk,
                    chain_target,
                    message.message_index,
                    pt,
                ) by {};
        }
        if payload.len() < 100 {
            proof {
                assert forall|pt: Seq<u8>|
                    !group_message_valid(
                        sid,
                        vk,
                        chain0,
                        base,
                        message.message_index,
                        text,
                        pt,
                    ) by {
                    if group_message_valid(sid, vk, chain0, base, message.message_index, text, pt) {
                        lemma_group_payload_parts(sid, vk, chain_target, message.message_index, pt);
                    }
                };
            }
            return Err(MegolmError::DecryptionFailed(String::new()));
        }
        let embedded = u32_from_le(payload[0], payload[1], payload[2], payload[3]);
        proof {
            assert(seq![payload@[0], payload@[1], payload@[2], payload@[3]] =~= payload@.subrange(
                0, 4));
        }
        if embedded != message.message_index {
            proof {
                assert forall|pt: Seq<u8>|
                    !group_message_valid(
                        sid,
                        vk,
                        chain0,
                        base,
                        message.message_index,
                        text,
                        pt,
                    ) by {
                    if group_message_valid(sid, vk, chain0, base, message.message_index, text, pt) {
                        lemma_group_payload_parts(sid, vk, chain_target, message.message_index, pt);
                        lemma_le32_round_trip(message.message_index);
                    }
                };
            }
            return Err(MegolmError::DecryptionFailed(String::new()));
        }
        let mac = copy_range(payload.as_slice(), 4, 36);
        let sig = copy_range(payload.as_slice(), 36, 100);
        let ct = copy_range(payload.as_slice(), 100, payload.len());
        if ct.len() > 0xffff_ffff {
            proof {
                assert forall|pt: Seq<u8>|
                    !group_message_valid(
                        sid,
                        vk,
                        chain0,
                        base,
                        message.message_index,
                        text,
                        pt,
                    ) by {
                    if group_message_valid(sid, vk, chain0, base, message.message_index, text, pt) {
                        lemma_group_payload_parts(sid, vk, chain_target, message.message_index, pt);
                    }
                };
            }
            return Err(MegolmError::DecryptionFailed(String::new()));
        }
        // Advance a working copy of the chain to the message's index.
        let steps_exec = message.message_index - self.ratchet_index;
        let mut chain_i = copy_range(self.chain.as_slice(), 0, self.chain.len());
        let mut k: u32 = 0;
        proof {
            assert(chain_i@ =~= chain0);
        }
        while k < steps_exec
            invariant
                k <= steps_exec,
                chain_i@ == chain_at(chain0, k as nat),
                chain0.len() == 32,
                chain_i@.len() == 32,
            decreases steps_exec - k,
        {
            let next = tagged_digest(chain_i.as_slice(), TAG_GROUP_NEXT);
            zeroize(&mut chain_i);
            chain_i = next;
            k += 1;
        }
        proof {
            assert(chain_i@ == chain_target);
        }
        let mut mk = tagged_digest(chain_i.as_slice(), TAG_GROUP_MSGKEY);
        // Verify the signature over session id, index, mac and ciphertext.
        let mut signed: Vec<u8> = Vec::new();
        append_bytes(&mut signed, self.sid_bytes.as_slice());
        let idx_bytes = u32_to_le(embedded);
        append_bytes(&mut signed, idx_bytes.as_slice());
        append_bytes(&mut signed, mac.as_slice());
        append_bytes(&mut signed, ct.as_slice());
        proof {
            assert(signed@ =~= group_signed_data(sid, message.message_index, mac@, ct@));
        }
        let sig_ok = match verify(self.verification_key.as_slice(), signed.as_slice(), sig.as_slice(
        )) {
            Ok(b) => b,
            Err(_) => false,
        };
        if !sig_ok {
            proof {
                assert forall|pt: Seq<u8>|
                    !group_message_valid(
                        sid,
                        vk,
                        chain0,
                        base,
                        message.message_index,
                        text,
                        pt,
                    ) by {
                    if group_message_valid(sid, vk, chain0, base, message.message_index, text, pt) {
                        lemma_group_payload_parts(sid, vk, chain_target, message.message_index, pt);
                    }
                };
            }
            return Err(MegolmError::SignatureInvalid);
        }
        let expected_mac = compute_mac(mk.as_slice(), ct.as_slice());
        if !bytes_eq(mac.as_slice(), expected_mac.as_slice()) {
            proof {
                assert forall|pt: Seq<u8>|
                    !group_message_valid(
                        sid,
                        vk,
                        chain0,
                        base,
                        message.message_index,
                        text,
                        pt,
                    ) by {
                    if group_message_valid(sid, vk, chain0, base, message.message_index, text, pt) {
                        lemma_group_payload_parts(sid, vk, chain_target, message.message_index, pt);
                    }
                };
            }
            return Err(MegolmError::DecryptionFailed(String::new()));
        }
        let pt = apply_keystream(mk.as_slice(), ct.as_slice());
        proof {
            lemma_xor_ks_involution(msg_key_of(chain_target), ct@);
            lemma_group_payload_parts(sid, vk, chain_target, message.message_index, pt@);
            lemma_le32_complete(payload@.subrange(0, 4));
            assert(payload@ =~= group_payload(sid, vk, chain_target, message.message_index, pt@));
            assert(group_message_valid(
                sid,
                vk,
                chain0,
                base,
                message.message_index,
                text,
                pt@,
            ));
            assert forall|ptx: Seq<u8>|
                group_message_valid(sid, vk, chain0, base, message.message_index, text, ptx)
                implies ptx == pt@ by {
                lemma_group_payload_parts(sid, vk, chain_target, message.message_index, ptx);
                assert(payload@.subrange(100, payload@.len() as int) == xor_ks(
                    msg_key_of(chain_target),
                    ptx,
                ));
                lemma_xor_ks_involution(msg_key_of(chain_target), ptx);
            };
        }
        zeroize(&mut mk);
        zeroize(&mut self.chain);
        self.chain = chain_i;
        self.ratchet_index = message.message_index;
        Ok(pt)
    }
}


/// The serialized state of a group session:
/// `role(1) || session id(32) || le32(index) || chain(32) ||
/// verification key(32) || signing key`, where the signing key is empty on
/// the inbound side.
pub open spec fn megolm_state_bytes(s: MegolmSession) -> Seq<u8> {
    seq![if s.outbound_spec() { 1u8 } else { 0u8 }] + s.sid_spec() + le32_spec(s.index_spec())
        + s.chain_spec() + s.vk_spec() + s.sk_spec()
}

/// Whether a payload parses back into a well-formed group session state.
pub open spec fn megolm_state_wf(p: Seq<u8>) -> bool {
    &&& p.len() >= 1
    &&& if p[0] == 1u8 {
        p.len() == 133 && p.subrange(69, 101) == h256(p.subrange(101, 133))
    } else {
        p[0] == 0u8 && p.len() == 101
    }
}

impl MegolmSession {
    /// Serializes the full session state into an integrity-protected blob
    /// under the caller's pickle key.
    pub fn pickle(&self, key: &[u8]) -> (r: Result<Vec<u8>, MegolmError>)
        requires
            self.wf(),
        ensures
            r is Ok,
            r is Ok ==> r->Ok_0@ == seal_spec(key@, megolm_state_bytes(*self)),
    {
        let mut state: Vec<u8> = Vec::new();
        if self.is_outbound {
            state.push(1u8);
        } else {
            state.push(0u8);
        }
        append_bytes(&mut state, self.sid_bytes.as_slice());
        let idx = u32_to_le(self.ratchet_index);
        append_bytes(&mut state, idx.as_slice());
        append_bytes(&mut state, self.chain.as_slice());
        append_bytes(&mut state, self.verification_key.as_slice());
        append_bytes(&mut state, self.signing_private.as_slice());
        proof {
            assert(state@ =~= megolm_state_bytes(*self));
        }
        Ok(seal(key, state.as_slice()))
    }

    /// Rebuilds a session from a pickled blob under the same key. Succeeds
    /// exactly on intact blobs whose payload is a well-formed session state;
    /// anything else is `CorruptPickle`.
    pub fn unpickle(data: &[u8], key: &[u8]) -> (r: Result<Self, MegolmError>)
        ensures
            r is Ok <==> sealed_wf(key@, data@) && megolm_state_wf(unsealed_of(key@, data@)),
            r is Ok ==> {
                let s = r->Ok_0;
                &&& s.wf()
                &&& megolm_state_bytes(s) == unsealed_of(key@, data@)
            },
            r is Err ==> r->Err_0 is CorruptPickle,
    {
        let payload = match unseal(key, data) {
            Ok(p) => p,
            Err(_) => {
                return Err(MegolmError::CorruptPickle);
            },
        };
        if payload.len() == 0 {
            return Err(MegolmError::CorruptPickle);
        }
        let role = payload[0];
        if role == 1u8 {
            if payload.len() != 133 {
                return Err(MegolmError::CorruptPickle);
            }
        } else {
            if !(role == 0u8 && payload.len() == 101) {
                return Err(MegolmError::CorruptPickle);
            }
        }
        let sid_bytes = copy_range(payload.as_slice(), 1, 33);
        let idx = u32_from_le(payload[33], payload[34], payload[35], payload[36]);
        let chain = copy_range(payload.as_slice(), 37, 69);
        let verification_key = copy_range(payload.as_slice(), 69, 101);
        let signing_private = if role == 1u8 {
            copy_range(payload.as_slice(), 101, 133)
        } else {
            Vec::new()
        };
        if role == 1u8 {
            let derived = digest32(signing_private.as_slice());
            if !bytes_eq(verification_key.as_slice(), derived.as_slice()) {
                return Err(MegolmError::CorruptPickle);
            }
        }
        let session_id = base64_encode(sid_bytes.as_slice());
        let s = MegolmSession {
            session_id,
            sid_bytes,
            ratchet_index: idx,
            chain,
            signing_private,
            verification_key,
            is_outbound: role == 1u8,
        };
        proof {
            lemma_le32_complete(payload@.subrange(33, 37));
            assert(seq![payload@[33], payload@[34], payload@[35], payload@[36]] =~= payload@.subrange(
                33, 37));
            assert(megolm_state_bytes(s) =~= payload@);
        }
        Ok(s)
    }
}

/// Pickling then unpickling under the same key reproduces the session: the
/// sealed blob opens to the exact state bytes, those bytes are well-formed,
/// and `megolm_state_bytes` pins every state field, so the restored session
/// encrypts and decrypts exactly as the original would.
pub proof fn lemma_megolm_pickle_round_trip(s: MegolmSession, key: Seq<u8>)
    requires
        s.wf(),
    ensures
        sealed_wf(key, seal_spec(key, megolm_state_bytes(s))),
        unsealed_of(key, seal_spec(key, megolm_state_bytes(s))) == megolm_state_bytes(s),
        megolm_state_wf(megolm_state_bytes(s)),
{
    let p = megolm_state_bytes(s);
    assert(p[0] == if s.outbound_spec() { 1u8 } else { 0u8 });
    lemma_seal_round_trip(key, p);
    if s.outbound_spec() {
        assert(p.len() == 133);
        assert(p.subrange(69, 101) =~= s.vk_spec());
        assert(p.subrange(101, 133) =~= s.sk_spec());
    } else {
        assert(p.len() == 101);
    }
}

/// `megolm_state_bytes` is injective on well-formed sessions: equal state
/// bytes mean equal session fields, including the session-id text.
pub proof fn lemma_megolm_state_injective(a: MegolmSession, b: MegolmSession)
    requires
        a.wf(),
        b.wf(),
        megolm_state_bytes(a) == megolm_state_bytes(b),
    ensures
        a.outbound_spec() == b.outbound_spec(),
        a.sid_spec() == b.sid_spec(),
        a.session_id_view() == b.session_id_view(),
        a.index_spec() == b.index_spec(),
        a.chain_spec() == b.chain_spec(),
        a.vk_spec() == b.vk_spec(),
        a.sk_spec() == b.sk_spec(),
{
    let pa = megolm_state_bytes(a);
    let pb = megolm_state_bytes(b);
    assert(pa[0] == if a.outbound_spec() { 1u8 } else { 0u8 });
    assert(pb[0] == if b.outbound_spec() { 1u8 } else { 0u8 });
    assert(pa[0] == pb[0]);
    assert(pa.subrange(1, 33) =~= a.sid_spec());
    assert(pb.subrange(1, 33) =~= b.sid_spec());
    assert(pa.subrange(33, 37) =~= le32_spec(a.index_spec()));
    assert(pb.subrange(33, 37) =~= le32_spec(b.index_spec()));
    lemma_le32_round_trip(a.index_spec());
    lemma_le32_round_trip(b.index_spec());
    assert(le32_val(le32_spec(a.index_spec())) == le32_val(le32_spec(b.index_spec())));
    assert(pa.subrange(37, 69) =~= a.chain_spec());
    assert(pb.subrange(37, 69) =~= b.chain_spec());
    assert(pa.subrange(69, 101) =~= a.vk_spec());
    assert(pb.subrange(69, 101) =~= b.vk_spec());
    assert(pa.subrange(101, pa.len() as int) =~= a.sk_spec());
    assert(pb.subrange(101, pb.len() as int) =~= b.sk_spec());
}

/// An inbound session created from an export taken at index K accepts a
/// message exactly when the originating session (whose chain began at
/// index 0 with state `c0`) produced it at an index at or after K: chain
/// advance composes, so the windowed chain agrees with the original.
pub proof fn lemma_export_window(
    sid: Seq<u8>,
    vk: Seq<u8>,
    c0: Seq<u8>,
    k: u32,
    i: u32,
    text: Seq<char>,
    pt: Seq<u8>,
)
    requires
        k <= i,
    ensures
        group_message_valid(sid, vk, chain_at(c0, k as nat), k, i, text, pt)
            == group_message_valid(sid, vk, c0, 0, i, text, pt),
{
    lemma_chain_at_add(c0, k as nat, (i - k) as nat);
}

} // verus!
