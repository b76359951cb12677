//! Pairwise ("Olm"-style) double-ratchet sessions and the account key store.
//!
//! An account owns one long-term identity (an agreement key pair and a
//! signing key pair) and a pool of one-time keys, each consumed at most once
//! during session establishment. A pairwise session derives a shared secret
//! from the two parties' public key material plus a fresh ephemeral value
//! carried in the first ("pre-key") message, so both sides converge on the
//! same session id without communication; per-message keys then ratchet
//! forward one-way on two symmetric chains, one per direction.
//!
//! Wire layouts, all carried base64-encoded in the message body: a normal
//! payload is `le32(index) || mac(32) || ciphertext`; a pre-key payload
//! prefixes it with `sender identity(32) || receiver identity(32) ||
//! one-time key(32) || ephemeral(32)`.

use vstd::prelude::*;

verus! {

use crate::bytes::{append_bytes, bytes_eq, copy_range, le32_spec, lemma_le32_complete,
    lemma_le32_round_trip, u32_from_le, u32_to_le, zeroize};
use crate::cipher::{apply_keystream, compute_mac, lemma_xor_ks_involution, mac_of, tagged_digest,
    xor_ks};
use crate::pickle::{lemma_seal_round_trip, seal, seal_spec, sealed_wf, unseal, unsealed_of};
use crate::utilities::{b64_of, base64_encode, digest32, h256, random_bytes};

/// Domain-separation tag for the handshake's shared secret.
pub const TAG_SHARED: u8 = 65;

/// Domain-separation tag for deriving the session id from the shared secret.
pub const TAG_SESSION_ID: u8 = 66;

/// Domain-separation tag for deriving the root key from the shared secret.
pub const TAG_ROOT: u8 = 67;

/// Domain-separation tag for the chain sending from the session creator.
pub const TAG_CHAIN_A: u8 = 68;

/// Domain-separation tag for the chain sending towards the session creator.
pub const TAG_CHAIN_B: u8 = 69;

/// Domain-separation tag for one pairwise chain advance step.
pub const TAG_PW_NEXT: u8 = 78;

/// Domain-separation tag for deriving a pairwise message key.
pub const TAG_PW_MSGKEY: u8 = 79;

/// Olm errors.
#[derive(Debug)]
pub enum OlmError {
    AccountCreationFailed(String),
    KeyGenerationFailed(String),
    SessionCreationFailed(String),
    EncryptionFailed(String),
    DecryptionFailed(String),
    InvalidKey(String),
    SessionNotFound,
    /// No one-time key with the given id exists in the pool.
    UnknownKeyId,
    /// The one-time key was already consumed; it can never be consumed again.
    AlreadyConsumed,
    /// A pickled blob failed its integrity check.
    CorruptPickle,
}

/// Identity keys of an account, as base64 text.
pub struct IdentityKeys {
    pub curve25519: String,
    pub ed25519: String,
}

/// A one-time key as handed out for publication: its id and public half,
/// both as base64 text.
pub struct OneTimeKey {
    pub key_id: String,
    pub key: String,
}

/// An encrypted pairwise message: its type (0 pre-key, 1 normal) and its
/// base64 body.
pub struct EncryptedMessage {
    pub message_type: usize,
    pub body: String,
}

/// A one-time key record in the account's pool.
pub struct OtkRecord {
    id: u32,
    private_key: Vec<u8>,
    public_key: Vec<u8>,
    consumed: bool,
}

impl OtkRecord {
    /// The numeric id.
    pub closed spec fn id_spec(self) -> u32 {
        self.id
    }

    /// The public half.
    pub closed spec fn pub_spec(self) -> Seq<u8> {
        self.public_key@
    }

    /// The private half.
    pub closed spec fn priv_spec(self) -> Seq<u8> {
        self.private_key@
    }

    /// Whether the key has been consumed.
    pub closed spec fn consumed_spec(self) -> bool {
        self.consumed
    }

    /// A generated record: bound halves of the right size.
    pub open spec fn wf(self) -> bool {
        &&& self.priv_spec().len() == 32
        &&& self.pub_spec() == h256(self.priv_spec())
    }
}

/// The published text id of a one-time key: base64 of its id's four
/// little-endian bytes.
pub open spec fn key_id_text(id: u32) -> Seq<char> {
    b64_of(le32_spec(id))
}

/// The first index in `s` whose record carries the text id `kid`, or -1.
pub open spec fn find_otk(s: Seq<OtkRecord>, kid: Seq<char>) -> int
    decreases s.len(),
{
    if s.len() == 0 {
        -1
    } else if key_id_text(s[0].id_spec()) == kid {
        0
    } else {
        let rest = find_otk(s.drop_first(), kid);
        if rest == -1 {
            -1
        } else {
            rest + 1
        }
    }
}

/// `find_otk` looks only at the records' ids, and its result is a real
/// match: it is either -1 or an index whose record carries `kid`, with no
/// earlier one doing so.
pub proof fn lemma_find_otk_props(s: Seq<OtkRecord>, kid: Seq<char>)
    ensures
        find_otk(s, kid) == -1 ==> forall|j: int|
            0 <= j < s.len() ==> key_id_text(s[j].id_spec()) != kid,
        find_otk(s, kid) != -1 ==> 0 <= find_otk(s, kid) < s.len() && key_id_text(
            s[find_otk(s, kid)].id_spec(),
        ) == kid && forall|j: int| 0 <= j < find_otk(s, kid) ==> key_id_text(s[j].id_spec()) != kid,
    decreases s.len(),
{
    if s.len() > 0 && key_id_text(s[0].id_spec()) != kid {
        lemma_find_otk_props(s.drop_first(), kid);
        assert forall|j: int| 1 <= j < s.len() implies s.drop_first()[j - 1] == s[j] by {}
    }
}

/// Two pools with the same length and ids agree on `find_otk`.
pub proof fn lemma_find_otk_same_ids(s1: Seq<OtkRecord>, s2: Seq<OtkRecord>, kid: Seq<char>)
    requires
        s1.len() == s2.len(),
        forall|j: int| 0 <= j < s1.len() ==> s1[j].id_spec() == s2[j].id_spec(),
    ensures
        find_otk(s1, kid) == find_otk(s2, kid),
    decreases s1.len(),
{
    if s1.len() > 0 {
        assert forall|j: int| 0 <= j < s1.drop_first().len() implies s1.drop_first()[j].id_spec()
            == s2.drop_first()[j].id_spec() by {
            assert(s1.drop_first()[j] == s1[j + 1]);
            assert(s2.drop_first()[j] == s2[j + 1]);
        }
        lemma_find_otk_same_ids(s1.drop_first(), s2.drop_first(), kid);
    }
}

/// The account key store: one long-term identity and the one-time key pool.
pub struct Account {
    ik_private: Vec<u8>,
    ik_public: Vec<u8>,
    sk_private: Vec<u8>,
    sk_public: Vec<u8>,
    otks: Vec<OtkRecord>,
    next_id: u32,
}

impl Account {
    /// The agreement ("identity") public key.
    pub closed spec fn ik_pub_spec(self) -> Seq<u8> {
        self.ik_public@
    }

    /// The agreement private key.
    pub closed spec fn ik_priv_spec(self) -> Seq<u8> {
        self.ik_private@
    }

    /// The signing public key.
    pub closed spec fn sk_pub_spec(self) -> Seq<u8> {
        self.sk_public@
    }

    /// The signing private key.
    pub closed spec fn sk_priv_spec(self) -> Seq<u8> {
        self.sk_private@
    }

    /// The one-time key pool.
    pub closed spec fn otks_spec(self) -> Seq<OtkRecord> {
        self.otks@
    }

    /// The id the next generated one-time key will carry.
    pub closed spec fn next_id_spec(self) -> u32 {
        self.next_id
    }

    /// Internal consistency: bound identity key pairs, a well-formed pool,
    /// and sizes that fit the pickled form.
    pub open spec fn wf(self) -> bool {
        &&& self.ik_priv_spec().len() == 32
        &&& self.ik_pub_spec() == h256(self.ik_priv_spec())
        &&& self.sk_priv_spec().len() == 32
        &&& self.sk_pub_spec() == h256(self.sk_priv_spec())
        &&& forall|j: int| 0 <= j < self.otks_spec().len() ==> (#[trigger] self.otks_spec()[j]).wf()
        &&& self.otks_spec().len() <= self.next_id_spec()
        &&& self.next_id_spec() <= 0xff_ffff
    }

    /// Creates a fresh identity: both key pairs generated, an empty pool.
    pub fn create() -> (r: Account)
        ensures
            r.wf(),
            r.otks_spec().len() == 0,
            r.next_id_spec() == 0,
    {
        let ik_private = random_bytes(32);
        let ik_public = digest32(ik_private.as_slice());
        let sk_private = random_bytes(32);
        let sk_public = digest32(sk_private.as_slice());
        Account { ik_private, ik_public, sk_private, sk_public, otks: Vec::new(), next_id: 0 }
    }

    /// The identity keys as base64 text, for publication.
    pub fn identity_keys(&self) -> (r: IdentityKeys)
        ensures
            r.curve25519@ == b64_of(self.ik_pub_spec()),
            r.ed25519@ == b64_of(self.sk_pub_spec()),
    {
        IdentityKeys {
            curve25519: base64_encode(self.ik_public.as_slice()),
            ed25519: base64_encode(self.sk_public.as_slice()),
        }
    }

    /// Appends `count` freshly generated, unconsumed keys to the pool and
    /// returns only the new ones, as publishable id/key text pairs. Fails
    /// only when the id space would overflow.
    pub fn generate_one_time_keys(&mut self, count: usize) -> (r: Result<Vec<OneTimeKey>, OlmError>)
        requires
            old(self).wf(),
        ensures
            final(self).wf(),
            final(self).ik_priv_spec() == old(self).ik_priv_spec(),
            final(self).ik_pub_spec() == old(self).ik_pub_spec(),
            final(self).sk_priv_spec() == old(self).sk_priv_spec(),
            final(self).sk_pub_spec() == old(self).sk_pub_spec(),
            r is Ok <==> count + old(self).next_id_spec() <= 0xff_ffff,
            r is Err ==> *final(self) == *old(self) && r->Err_0 is KeyGenerationFailed,
            r is Ok ==> {
                let new = r->Ok_0;
                &&& final(self).next_id_spec() == old(self).next_id_spec() + count
                &&& final(self).otks_spec().len() == old(self).otks_spec().len() + count
                &&& forall|j: int|
                    0 <= j < old(self).otks_spec().len() ==> final(self).otks_spec()[j] == old(self).otks_spec()[j]
                &&& new@.len() == count
                &&& forall|j: int|
                    0 <= j < count ==> {
                        let rec = #[trigger] final(self).otks_spec()[old(self).otks_spec().len()
                            + j];
                        &&& rec.id_spec() == old(self).next_id_spec() + j
                        &&& !rec.consumed_spec()
                        &&& new@[j].key_id@ == key_id_text(rec.id_spec())
                        &&& new@[j].key@ == b64_of(rec.pub_spec())
                    }
            },
    {
        if count > 0xff_ffffusize || 0xff_ffffusize - count < self.next_id as usize {
            return Err(OlmError::KeyGenerationFailed(String::new()));
        }
        let mut out: Vec<OneTimeKey> = Vec::new();
        let mut k: usize = 0;
        let ghost orig_len = self.otks@.len();
        let ghost orig_next = self.next_id;
        while k < count
            invariant
                old(self).wf(),
                k <= count,
                count + orig_next <= 0xff_ffff,
                self.next_id == orig_next + k,
                self.otks@.len() == orig_len + k,
                orig_len <= 0xffff_ffff,
                self.ik_private@ == old(self).ik_priv_spec(),
                self.ik_public@ == old(self).ik_pub_spec(),
                self.sk_private@ == old(self).sk_priv_spec(),
                self.sk_public@ == old(self).sk_pub_spec(),
                forall|j: int| 0 <= j < orig_len ==> self.otks@[j] == old(self).otks_spec()[j],
                forall|j: int| 0 <= j < self.otks@.len() ==> (#[trigger] self.otks@[j]).wf(),
                out@.len() == k,
                forall|j: int|
                    0 <= j < k ==> {
                        let rec = #[trigger] self.otks@[orig_len + j];
                        &&& rec.id_spec() == orig_next + j
                        &&& !rec.consumed_spec()
                        &&& out@[j].key_id@ == key_id_text(rec.id_spec())
                        &&& out@[j].key@ == b64_of(rec.pub_spec())
                    },
            decreases count - k,
        {
            let private_key = random_bytes(32);
            let public_key = digest32(private_key.as_slice());
            let id = self.next_id;
            let id_bytes = u32_to_le(id);
            let key_id = base64_encode(id_bytes.as_slice());
            let key = base64_encode(public_key.as_slice());
            out.push(OneTimeKey { key_id, key });
            self.otks.push(OtkRecord { id, private_key, public_key, consumed: false });
            self.next_id = self.next_id + 1;
            k += 1;
        }
        Ok(out)
    }

    /// Marks the one-time key with the given text id as consumed. Succeeds
    /// exactly once per key: an unknown id is `UnknownKeyId`, a repeated
    /// call on the same key is `AlreadyConsumed`, and nothing but the first
    /// matching record's `consumed` flag ever changes.
    pub fn mark_consumed(&mut self, key_id: &str) -> (r: Result<(), OlmError>)
        requires
            old(self).wf(),
        ensures
            final(self).wf(),
            final(self).ik_priv_spec() == old(self).ik_priv_spec(),
            final(self).ik_pub_spec() == old(self).ik_pub_spec(),
            final(self).sk_priv_spec() == old(self).sk_priv_spec(),
            final(self).sk_pub_spec() == old(self).sk_pub_spec(),
            final(self).next_id_spec() == old(self).next_id_spec(),
            find_otk(old(self).otks_spec(), key_id@) == -1 ==> r is Err && r->Err_0
                is UnknownKeyId && *final(self) == *old(self),
            ({
                let f = find_otk(old(self).otks_spec(), key_id@);
                f != -1 && old(self).otks_spec()[f].consumed_spec() ==> r is Err && r->Err_0
                    is AlreadyConsumed && *final(self) == *old(self)
            }),
            ({
                let f = find_otk(old(self).otks_spec(), key_id@);
                f != -1 && !old(self).otks_spec()[f].consumed_spec() ==> r is Ok && final(self).otks_spec().len() == old(self).otks_spec().len() && (forall|j: int|
                    0 <= j < old(self).otks_spec().len() && j != f ==> final(self).otks_spec()[j]
                        == old(self).otks_spec()[j]) && final(self).otks_spec()[f].id_spec() == old(self).otks_spec()[f].id_spec() && final(self).otks_spec()[f].pub_spec() == old(self).otks_spec()[f].pub_spec() && final(self).otks_spec()[f].priv_spec() == old(self).otks_spec()[f].priv_spec() && final(self).otks_spec()[f].consumed_spec()
            }),
    {
        let ghost pool = old(self).otks_spec();
        let mut i: usize = 0;
        let n = self.otks.len();
        while i < n
            invariant
                old(self).wf(),
                *self == *old(self),
                self.otks@ == pool,
                n == self.otks@.len(),
                i <= n,
                forall|j: int| 0 <= j < i ==> key_id_text(pool[j].id_spec()) != key_id@,
            decreases n - i,
        {
            let id_bytes = u32_to_le(self.otks[i].id);
            let candidate = base64_encode(id_bytes.as_slice());
            let same = bytes_eq(candidate.as_str().as_bytes(), key_id.as_bytes());
            proof {
                vstd::utf8::encode_utf8_decode_utf8(candidate@);
                vstd::utf8::encode_utf8_decode_utf8(key_id@);
                assert(same == (candidate@ == key_id@));
                assert(self.otks@ == pool);
                assert(pool[i as int].id_spec() == self.otks@[i as int].id);
                assert(candidate@ == key_id_text(pool[i as int].id_spec()));
            }
            if same {
                proof {
                    lemma_find_otk_props(pool, key_id@);
                    assert(key_id_text(pool[i as int].id_spec()) == key_id@);
                    assert(find_otk(pool, key_id@) == i);
                }
                if self.otks[i].consumed {
                    return Err(OlmError::AlreadyConsumed);
                }
                let id = self.otks[i].id;
                let plen = self.otks[i].private_key.len();
                let private_key = copy_range(self.otks[i].private_key.as_slice(), 0, plen);
                let klen = self.otks[i].public_key.len();
                let public_key = copy_range(self.otks[i].public_key.as_slice(), 0, klen);
                proof {
                    assert(private_key@ =~= pool[i as int].priv_spec());
                    assert(public_key@ =~= pool[i as int].pub_spec());
                }
                self.otks.set(i, OtkRecord { id, private_key, public_key, consumed: true });
                return Ok(());
            }
            i += 1;
        }
        proof {
            lemma_find_otk_props(pool, key_id@);
            if find_otk(pool, key_id@) != -1 {
                assert(key_id_text(pool[find_otk(pool, key_id@)].id_spec()) == key_id@);
            }
        }
        Err(OlmError::UnknownKeyId)
    }
}

/// Once a key has been consumed, a second attempt on the same id must
/// report `AlreadyConsumed`: after a successful `mark_consumed`, the pool
/// still holds a record with that id at the same first-match position, now
/// flagged consumed, so the contract of `mark_consumed` forces the error.
pub proof fn lemma_consume_only_once(s1: Seq<OtkRecord>, s2: Seq<OtkRecord>, kid: Seq<char>)
    requires
        find_otk(s1, kid) != -1,
        s1.len() == s2.len(),
        forall|j: int| 0 <= j < s1.len() && j != find_otk(s1, kid) ==> s2[j] == s1[j],
        s2[find_otk(s1, kid)].id_spec() == s1[find_otk(s1, kid)].id_spec(),
        s2[find_otk(s1, kid)].consumed_spec(),
    ensures
        find_otk(s2, kid) == find_otk(s1, kid),
        s2[find_otk(s2, kid)].consumed_spec(),
{
    assert forall|j: int| 0 <= j < s1.len() implies s1[j].id_spec() == s2[j].id_spec() by {}
    lemma_find_otk_same_ids(s1, s2, kid);
}

/// The handshake's shared secret: a digest of sender identity, receiver
/// identity, the receiver's one-time key and the sender's fresh ephemeral
/// value. Both sides hold all four public values, so both can compute it.
pub open spec fn shared_of(s_ik: Seq<u8>, r_ik: Seq<u8>, otk: Seq<u8>, ek: Seq<u8>) -> Seq<u8> {
    h256(s_ik + r_ik + otk + ek + seq![TAG_SHARED])
}

/// The session id bytes derived from a shared secret.
pub open spec fn sid_of(shared: Seq<u8>) -> Seq<u8> {
    h256(shared + seq![TAG_SESSION_ID])
}

/// The root key derived from a shared secret.
pub open spec fn root_of(shared: Seq<u8>) -> Seq<u8> {
    h256(shared + seq![TAG_ROOT])
}

/// The chain carrying messages sent by the session's creator.
pub open spec fn chain_a_of(shared: Seq<u8>) -> Seq<u8> {
    h256(root_of(shared) + seq![TAG_CHAIN_A])
}

/// The chain carrying messages sent towards the session's creator.
pub open spec fn chain_b_of(shared: Seq<u8>) -> Seq<u8> {
    h256(root_of(shared) + seq![TAG_CHAIN_B])
}

/// One one-way step of a pairwise chain.
pub open spec fn pw_chain_next(c: Seq<u8>) -> Seq<u8> {
    h256(c + seq![TAG_PW_NEXT])
}

/// The pairwise chain state `steps` one-way steps after `c`.
pub open spec fn pw_chain_at(c: Seq<u8>, steps: nat) -> Seq<u8>
    decreases steps,
{
    if steps == 0 {
        c
    } else {
        pw_chain_next(pw_chain_at(c, (steps - 1) as nat))
    }
}

/// Advancing a pairwise chain by `a` steps and then `b` steps is advancing
/// it by `a + b`.
pub proof fn lemma_pw_chain_at_add(c: Seq<u8>, a: nat, b: nat)
    ensures
        pw_chain_at(pw_chain_at(c, a), b) == pw_chain_at(c, a + b),
    decreases b,
{
    if b > 0 {
        lemma_pw_chain_at_add(c, a, (b - 1) as nat);
    }
}

/// The message key derived from a pairwise chain state.
pub open spec fn pw_msg_key_of(c: Seq<u8>) -> Seq<u8> {
    h256(c + seq![TAG_PW_MSGKEY])
}

/// The payload of a normal message at `index` under chain state `chain`.
pub open spec fn normal_payload(chain: Seq<u8>, index: u32, pt: Seq<u8>) -> Seq<u8> {
    let mk = pw_msg_key_of(chain);
    let ct = xor_ks(mk, pt);
    le32_spec(index) + mac_of(mk, ct) + ct
}

/// The payload of a pre-key message: the handshake material followed by the
/// normal payload.
pub open spec fn prekey_payload(
    s_ik: Seq<u8>,
    r_ik: Seq<u8>,
    otk: Seq<u8>,
    ek: Seq<u8>,
    chain: Seq<u8>,
    index: u32,
    pt: Seq<u8>,
) -> Seq<u8> {
    s_ik + r_ik + otk + ek + normal_payload(chain, index, pt)
}

/// How a normal payload splits back into its parts.
pub proof fn lemma_normal_payload_parts(chain: Seq<u8>, index: u32, pt: Seq<u8>)
    ensures
        ({
            let mk = pw_msg_key_of(chain);
            let ct = xor_ks(mk, pt);
            let p = normal_payload(chain, index, pt);
            &&& p.len() == 36 + pt.len()
            &&& p.subrange(0, 4) == le32_spec(index)
            &&& p.subrange(4, 36) == mac_of(mk, ct)
            &&& p.subrange(36, p.len() as int) == ct
        }),
{
    let mk = pw_msg_key_of(chain);
    let ct = xor_ks(mk, pt);
    let p = normal_payload(chain, index, pt);
    assert(p.subrange(0, 4) =~= le32_spec(index));
    assert(p.subrange(4, 36) =~= mac_of(mk, ct));
    assert(p.subrange(36, p.len() as int) =~= ct);
}

/// Whether `body` (the base64 text bytes of a normal message) carries
/// plaintext `pt` at message index `index`, for a receiving chain standing
/// at `base` with state `chain`.
pub open spec fn pw_normal_valid(
    chain: Seq<u8>,
    base: u32,
    index: u32,
    pt: Seq<u8>,
    body: Seq<u8>,
) -> bool {
    &&& base <= index
    &&& index < 0xffff_ffffu32
    &&& pt.len() <= 0xffff_ffff
    &&& body == vstd::utf8::encode_utf8(
        b64_of(normal_payload(pw_chain_at(chain, (index - base) as nat), index, pt)),
    )
}

/// What a successful decryption did: some index was valid for the message
/// body and the old receiving state, and the stored state moved one step
/// past that index.
pub open spec fn pw_decrypt_post(
    chain0: Seq<u8>,
    base: u32,
    chain1: Seq<u8>,
    idx1: u32,
    pt: Seq<u8>,
    body: Seq<u8>,
) -> bool {
    exists|index: u32|
        #![trigger pw_normal_valid(chain0, base, index, pt, body)]
        pw_normal_valid(chain0, base, index, pt, body) && idx1 == index + 1 && chain1
            == pw_chain_at(chain0, (index + 1 - base) as nat)
}

/// Handshake material carried by a pre-key message while it is pending.
pub struct PendingPreKey {
    sender_ik: Vec<u8>,
    receiver_ik: Vec<u8>,
    one_time_key: Vec<u8>,
    ephemeral: Vec<u8>,
}

/// One pairwise double-ratchet session.
pub struct PairwiseRatchet {
    session_id: String,
    sid_bytes: Vec<u8>,
    root_key: Vec<u8>,
    send_chain: Vec<u8>,
    recv_chain: Vec<u8>,
    send_index: u32,
    recv_index: u32,
    peer_identity: Vec<u8>,
    pending: Option<PendingPreKey>,
}

impl PairwiseRatchet {
    /// The raw session id bytes.
    pub closed spec fn sid_spec(self) -> Seq<u8> {
        self.sid_bytes@
    }

    /// The session id as base64 text.
    pub closed spec fn session_id_view(self) -> Seq<char> {
        self.session_id@
    }

    /// The root key.
    pub closed spec fn root_spec(self) -> Seq<u8> {
        self.root_key@
    }

    /// The sending chain state.
    pub closed spec fn send_chain_spec(self) -> Seq<u8> {
        self.send_chain@
    }

    /// The receiving chain state.
    pub closed spec fn recv_chain_spec(self) -> Seq<u8> {
        self.recv_chain@
    }

    /// The next sending index.
    pub closed spec fn send_index_spec(self) -> u32 {
        self.send_index
    }

    /// The lowest message index the session can still decrypt.
    pub closed spec fn recv_index_spec(self) -> u32 {
        self.recv_index
    }

    /// The peer's identity key.
    pub closed spec fn peer_spec(self) -> Seq<u8> {
        self.peer_identity@
    }

    /// Whether the first (pre-key) message is still pending.
    pub closed spec fn pending_spec(self) -> bool {
        self.pending is Some
    }

    /// The sender identity the pending pre-key message will carry.
    pub closed spec fn pending_sender(self) -> Seq<u8> {
        self.pending->0.sender_ik@
    }

    /// The receiver identity the pending pre-key message will carry.
    pub closed spec fn pending_receiver(self) -> Seq<u8> {
        self.pending->0.receiver_ik@
    }

    /// The one-time key the pending pre-key message will carry.
    pub closed spec fn pending_otk(self) -> Seq<u8> {
        self.pending->0.one_time_key@
    }

    /// The ephemeral value the pending pre-key message will carry.
    pub closed spec fn pending_ek(self) -> Seq<u8> {
        self.pending->0.ephemeral@
    }

    /// Internal consistency: 32-byte state fields and session-id text
    /// matching the raw id.
    pub closed spec fn wf(self) -> bool {
        &&& self.sid_bytes@.len() == 32
        &&& self.root_key@.len() == 32
        &&& self.send_chain@.len() == 32
        &&& self.recv_chain@.len() == 32
        &&& self.peer_identity@.len() == 32
        &&& self.session_id@ == b64_of(self.sid_bytes@)
        &&& self.pending is Some ==> self.pending_sender().len() == 32
            && self.pending_receiver().len() == 32 && self.pending_otk().len() == 32
            && self.pending_ek().len() == 32
    }
}

/// Whether a session's identifying keys are the ones the handshake over the
/// four public values derives, with the sending chain oriented by role: the
/// creator (outbound side) sends on chain A, the accepting (inbound) side
/// on chain B. (The receiving chain is stated separately, since the inbound
/// side's has already advanced past the first message when it is created.)
pub open spec fn handshake_derived(
    r: PairwiseRatchet,
    s_ik: Seq<u8>,
    r_ik: Seq<u8>,
    otk: Seq<u8>,
    ek: Seq<u8>,
    outbound: bool,
) -> bool {
    let shared = shared_of(s_ik, r_ik, otk, ek);
    &&& r.sid_spec() == sid_of(shared)
    &&& r.root_spec() == root_of(shared)
    &&& if outbound {
        r.send_chain_spec() == chain_a_of(shared) && r.peer_spec() == r_ik
    } else {
        r.send_chain_spec() == chain_b_of(shared) && r.peer_spec() == s_ik
    }
}

/// Both sides of one handshake agree on the session id, and their chains
/// mirror each other: what one side sends on, the other receives on. This
/// is what lets the two parties converge on the same identifier without
/// communicating it.
pub proof fn lemma_handshake_agreement(
    a: PairwiseRatchet,
    b: PairwiseRatchet,
    s_ik: Seq<u8>,
    r_ik: Seq<u8>,
    otk: Seq<u8>,
    ek: Seq<u8>,
)
    requires
        a.wf(),
        b.wf(),
        handshake_derived(a, s_ik, r_ik, otk, ek, true),
        handshake_derived(b, s_ik, r_ik, otk, ek, false),
    ensures
        a.sid_spec() == b.sid_spec(),
        a.session_id_view() == b.session_id_view(),
{
}


impl PairwiseRatchet {
    /// Opens an outbound session towards a peer: draws a fresh ephemeral
    /// value, derives the shared secret, session id, root and both chains
    /// from the four public handshake values, and holds the handshake
    /// material for the first (pre-key) message.
    pub fn new_outbound(own_ik_pub: &[u8], their_ik: &[u8], their_otk: &[u8]) -> (r:
        PairwiseRatchet)
        requires
            own_ik_pub@.len() == 32,
            their_ik@.len() == 32,
            their_otk@.len() == 32,
        ensures
            r.wf(),
            r.pending_spec(),
            r.pending_sender() == own_ik_pub@,
            r.pending_receiver() == their_ik@,
            r.pending_otk() == their_otk@,
            handshake_derived(r, own_ik_pub@, their_ik@, their_otk@, r.pending_ek(), true),
            r.recv_chain_spec() == chain_b_of(
                shared_of(own_ik_pub@, their_ik@, their_otk@, r.pending_ek()),
            ),
            r.send_index_spec() == 0,
            r.recv_index_spec() == 0,
    {
        let ephemeral = random_bytes(32);
        let mut transcript: Vec<u8> = Vec::new();
        append_bytes(&mut transcript, own_ik_pub);
        append_bytes(&mut transcript, their_ik);
        append_bytes(&mut transcript, their_otk);
        append_bytes(&mut transcript, ephemeral.as_slice());
        let shared = tagged_digest(transcript.as_slice(), TAG_SHARED);
        proof {
            assert(transcript@ + seq![TAG_SHARED] =~= own_ik_pub@ + their_ik@ + their_otk@
                + ephemeral@ + seq![TAG_SHARED]);
        }
        let sid_bytes = tagged_digest(shared.as_slice(), TAG_SESSION_ID);
        let root_key = tagged_digest(shared.as_slice(), TAG_ROOT);
        let send_chain = tagged_digest(root_key.as_slice(), TAG_CHAIN_A);
        let recv_chain = tagged_digest(root_key.as_slice(), TAG_CHAIN_B);
        let session_id = base64_encode(sid_bytes.as_slice());
        let sender_ik = copy_range(own_ik_pub, 0, own_ik_pub.len());
        let receiver_ik = copy_range(their_ik, 0, their_ik.len());
        let one_time_key = copy_range(their_otk, 0, their_otk.len());
        PairwiseRatchet {
            session_id,
            sid_bytes,
            root_key,
            send_chain,
            recv_chain,
            send_index: 0,
            recv_index: 0,
            peer_identity: receiver_ik,
            pending: Some(
                PendingPreKey {
                    sender_ik,
                    receiver_ik: copy_range(their_ik, 0, their_ik.len()),
                    one_time_key,
                    ephemeral,
                },
            ),
        }
    }

    /// The session id, as base64 text of the raw id bytes.
    pub fn session_id(&self) -> (r: &str)
        ensures
            r@ == self.session_id_view(),
    {
        self.session_id.as_str()
    }

    /// Encrypts the next message on the sending chain: derives the message
    /// key at the current index, encrypts and tags, then advances the chain
    /// one-way and wipes the superseded state. The first message of an
    /// outbound session is a pre-key message bundling the handshake
    /// material; all later ones are normal.
    pub fn encrypt(&mut self, plaintext: &[u8]) -> (r: Result<EncryptedMessage, OlmError>)
        requires
            old(self).wf(),
        ensures
            final(self).wf(),
            final(self).sid_spec() == old(self).sid_spec(),
            final(self).session_id_view() == old(self).session_id_view(),
            final(self).root_spec() == old(self).root_spec(),
            final(self).recv_chain_spec() == old(self).recv_chain_spec(),
            final(self).recv_index_spec() == old(self).recv_index_spec(),
            final(self).peer_spec() == old(self).peer_spec(),
            r is Ok <==> old(self).send_index_spec() < 0xffff_ffffu32 && plaintext@.len()
                <= 0xffff_ffff,
            r is Err ==> final(self).send_chain_spec() == old(self).send_chain_spec() && final(self).send_index_spec() == old(self).send_index_spec() && final(self).pending_spec() == old(self).pending_spec() && r->Err_0 is EncryptionFailed,
            r is Ok ==> {
                let m = r->Ok_0;
                &&& final(self).send_index_spec() == old(self).send_index_spec() + 1
                &&& final(self).send_chain_spec() == pw_chain_next(old(self).send_chain_spec())
                &&& !final(self).pending_spec()
                &&& m.message_type == (if old(self).pending_spec() {
                    0usize
                } else {
                    1usize
                })
                &&& m.body@ == (if old(self).pending_spec() {
                    b64_of(
                        prekey_payload(
                            old(self).pending_sender(),
                            old(self).pending_receiver(),
                            old(self).pending_otk(),
                            old(self).pending_ek(),
                            old(self).send_chain_spec(),
                            old(self).send_index_spec(),
                            plaintext@,
                        ),
                    )
                } else {
                    b64_of(
                        normal_payload(
                            old(self).send_chain_spec(),
                            old(self).send_index_spec(),
                            plaintext@,
                        ),
                    )
                })
            },
    {
        if self.send_index == 0xffff_ffffu32 {
            return Err(OlmError::EncryptionFailed(String::new()));
        }
        if plaintext.len() > 0xffff_ffff {
            return Err(OlmError::EncryptionFailed(String::new()));
        }
        let mut mk = tagged_digest(self.send_chain.as_slice(), TAG_PW_MSGKEY);
        let ct = apply_keystream(mk.as_slice(), plaintext);
        let mac = compute_mac(mk.as_slice(), ct.as_slice());
        let mut payload: Vec<u8> = Vec::new();
        let message_type: usize;
        match &self.pending {
            Some(pre) => {
                message_type = 0;
                append_bytes(&mut payload, pre.sender_ik.as_slice());
                append_bytes(&mut payload, pre.receiver_ik.as_slice());
                append_bytes(&mut payload, pre.one_time_key.as_slice());
                append_bytes(&mut payload, pre.ephemeral.as_slice());
            },
            None => {
                message_type = 1;
            },
        }
        let idx_bytes = u32_to_le(self.send_index);
        append_bytes(&mut payload, idx_bytes.as_slice());
        append_bytes(&mut payload, mac.as_slice());
        append_bytes(&mut payload, ct.as_slice());
        proof {
            if old(self).pending_spec() {
                assert(payload@ =~= prekey_payload(
                    old(self).pending_sender(),
                    old(self).pending_receiver(),
                    old(self).pending_otk(),
                    old(self).pending_ek(),
                    old(self).send_chain_spec(),
                    old(self).send_index_spec(),
                    plaintext@,
                ));
            } else {
                assert(payload@ =~= normal_payload(
                    old(self).send_chain_spec(),
                    old(self).send_index_spec(),
                    plaintext@,
                ));
            }
        }
        let body = base64_encode(payload.as_slice());
        let next = tagged_digest(self.send_chain.as_slice(), TAG_PW_NEXT);
        zeroize(&mut self.send_chain);
        zeroize(&mut mk);
        self.send_chain = next;
        self.send_index = self.send_index + 1;
        self.pending = None;
        Ok(EncryptedMessage { message_type, body })
    }

    /// Decrypts a normal message from the receiving chain. The message key
    /// for its index is derived by advancing a copy of the chain, the
    /// integrity tag is checked in full, and on success the stored chain
    /// moves one step past the message's index: the key that decrypted it is
    /// destroyed, so a replayed or older message fails like any corrupt one.
    pub fn decrypt(&mut self, body: &[u8]) -> (r: Result<Vec<u8>, OlmError>)
        requires
            old(self).wf(),
        ensures
            final(self).wf(),
            final(self).sid_spec() == old(self).sid_spec(),
            final(self).session_id_view() == old(self).session_id_view(),
            final(self).root_spec() == old(self).root_spec(),
            final(self).send_chain_spec() == old(self).send_chain_spec(),
            final(self).send_index_spec() == old(self).send_index_spec(),
            final(self).peer_spec() == old(self).peer_spec(),
            final(self).pending_spec() == old(self).pending_spec(),
            r is Err ==> final(self).recv_chain_spec() == old(self).recv_chain_spec() && final(self).recv_index_spec() == old(self).recv_index_spec() && r->Err_0 is DecryptionFailed,
            r is Ok ==> pw_decrypt_post(
                old(self).recv_chain_spec(),
                old(self).recv_index_spec(),
                final(self).recv_chain_spec(),
                final(self).recv_index_spec(),
                r->Ok_0@,
                body@,
            ),
            forall|index: u32, pt: Seq<u8>|
                #[trigger] pw_normal_valid(
                    old(self).recv_chain_spec(),
                    old(self).recv_index_spec(),
                    index,
                    pt,
                    body@,
                ) ==> r is Ok && r->Ok_0@ == pt,
    {
        let ghost chain0 = old(self).recv_chain_spec();
        let ghost base = old(self).recv_index_spec();
        let payload = match crate::utilities::base64_decode_bytes(body) {
            Ok(v) => v,
            Err(_) => {
                return Err(OlmError::DecryptionFailed(String::new()));
            },
        };
        if payload.len() < 36 {
            proof {
                assert forall|index: u32, pt: Seq<u8>|
                    !pw_normal_valid(chain0, base, index, pt, body@) by {
                    if pw_normal_valid(chain0, base, index, pt, body@) {
                        lemma_normal_payload_parts(
                            pw_chain_at(chain0, (index - base) as nat),
                            index,
                            pt,
                        );
                    }
                };
            }
            return Err(OlmError::DecryptionFailed(String::new()));
        }
        let embedded = u32_from_le(payload[0], payload[1], payload[2], payload[3]);
        proof {
            assert(seq![payload@[0], payload@[1], payload@[2], payload@[3]] =~= payload@.subrange(
                0, 4));
            assert forall|index: u32, pt: Seq<u8>|
                pw_normal_valid(chain0, base, index, pt, body@) implies index == embedded by {
                lemma_normal_payload_parts(pw_chain_at(chain0, (index - base) as nat), index, pt);
                lemma_le32_round_trip(index);
            };
        }
        if embedded < self.recv_index || embedded == 0xffff_ffffu32 {
            return Err(OlmError::DecryptionFailed(String::new()));
        }
        let mac = copy_range(payload.as_slice(), 4, 36);
        let ct = copy_range(payload.as_slice(), 36, payload.len());
        if ct.len() > 0xffff_ffff {
            proof {
                assert forall|index: u32, pt: Seq<u8>|
                    !pw_normal_valid(chain0, base, index, pt, body@) by {
                    if pw_normal_valid(chain0, base, index, pt, body@) {
                        lemma_normal_payload_parts(
                            pw_chain_at(chain0, (index - base) as nat),
                            index,
                            pt,
                        );
                    }
                };
            }
            return Err(OlmError::DecryptionFailed(String::new()));
        }
        let steps = embedded - self.recv_index;
        let mut chain_i = copy_range(self.recv_chain.as_slice(), 0, self.recv_chain.len());
        let mut k: u32 = 0;
        proof {
            assert(chain_i@ =~= chain0);
        }
        while k < steps
            invariant
                k <= steps,
                chain_i@ == pw_chain_at(chain0, k as nat),
                chain0.len() == 32,
                chain_i@.len() == 32,
            decreases steps - k,
        {
            let next = tagged_digest(chain_i.as_slice(), TAG_PW_NEXT);
            zeroize(&mut chain_i);
            chain_i = next;
            k += 1;
        }
        let ghost chain_target = pw_chain_at(chain0, (embedded - base) as nat);
        proof {
            assert(chain_i@ == chain_target);
        }
        let mut mk = tagged_digest(chain_i.as_slice(), TAG_PW_MSGKEY);
        let expected_mac = compute_mac(mk.as_slice(), ct.as_slice());
        if !bytes_eq(mac.as_slice(), expected_mac.as_slice()) {
            proof {
                assert forall|index: u32, pt: Seq<u8>|
                    !pw_normal_valid(chain0, base, index, pt, body@) by {
                    if pw_normal_valid(chain0, base, index, pt, body@) {
                        lemma_normal_payload_parts(
                            pw_chain_at(chain0, (index - base) as nat),
                            index,
                            pt,
                        );
                    }
                };
            }
            return Err(OlmError::DecryptionFailed(String::new()));
        }
        let pt = apply_keystream(mk.as_slice(), ct.as_slice());
        proof {
            lemma_xor_ks_involution(pw_msg_key_of(chain_target), ct@);
            lemma_normal_payload_parts(chain_target, embedded, pt@);
            lemma_le32_complete(payload@.subrange(0, 4));
            assert(payload@ =~= normal_payload(chain_target, embedded, pt@));
            assert(pw_normal_valid(chain0, base, embedded, pt@, body@));
            assert forall|index: u32, ptx: Seq<u8>|
                pw_normal_valid(chain0, base, index, ptx, body@) implies ptx == pt@ by {
                lemma_normal_payload_parts(pw_chain_at(chain0, (index - base) as nat), index, ptx);
                lemma_le32_round_trip(index);
                assert(index == embedded);
                assert(payload@.subrange(36, payload@.len() as int) == xor_ks(
                    pw_msg_key_of(chain_target),
                    ptx,
                ));
                lemma_xor_ks_involution(pw_msg_key_of(chain_target), ptx);
            };
        }
        // Advance the stored chain one step past the decrypted index, so the
        // used message key can never be derived again.
        let next = tagged_digest(chain_i.as_slice(), TAG_PW_NEXT);
        zeroize(&mut chain_i);
        zeroize(&mut mk);
        let old_index = self.recv_index;
        zeroize(&mut self.recv_chain);
        self.recv_chain = next;
        self.recv_index = embedded + 1;
        proof {
            lemma_pw_chain_at_add(chain0, (embedded - base) as nat, 1);
            assert(pw_chain_at(chain_target, 1) == pw_chain_next(pw_chain_at(chain_target, 0)));
            assert(self.recv_chain@ == pw_chain_at(chain0, (embedded + 1 - base) as nat));
            assert(self.recv_index == embedded + 1);
            assert(pw_normal_valid(chain0, base, embedded, pt@, body@));
            assert(pw_decrypt_post(
                chain0,
                base,
                self.recv_chain_spec(),
                self.recv_index_spec(),
                pt@,
                body@,
            ));
        }
        Ok(pt)
    }
}


/// The serialized state of a pairwise session:
/// `sid(32) || root(32) || send chain(32) || recv chain(32) ||
/// le32(send index) || le32(recv index) || peer identity(32) || flag(1)`,
/// followed by the four 32-byte pre-key fields when the flag is set.
pub open spec fn pw_state_bytes(s: PairwiseRatchet) -> Seq<u8> {
    s.sid_spec() + s.root_spec() + s.send_chain_spec() + s.recv_chain_spec() + le32_spec(
        s.send_index_spec(),
    ) + le32_spec(s.recv_index_spec()) + s.peer_spec() + seq![
        if s.pending_spec() {
            1u8
        } else {
            0u8
        },
    ] + if s.pending_spec() {
        s.pending_sender() + s.pending_receiver() + s.pending_otk() + s.pending_ek()
    } else {
        Seq::<u8>::empty()
    }
}

/// Whether a payload parses back into a well-formed pairwise session state.
pub open spec fn pw_state_wf(p: Seq<u8>) -> bool {
    &&& p.len() >= 169
    &&& if p[168] == 1u8 {
        p.len() == 297
    } else {
        p[168] == 0u8 && p.len() == 169
    }
}

impl PairwiseRatchet {
    /// Serializes the full session state into an integrity-protected blob
    /// under the caller's pickle key.
    pub fn pickle(&self, key: &[u8]) -> (r: Result<Vec<u8>, OlmError>)
        requires
            self.wf(),
        ensures
            r is Ok,
            r is Ok ==> r->Ok_0@ == seal_spec(key@, pw_state_bytes(*self)),
    {
        let mut state: Vec<u8> = Vec::new();
        append_bytes(&mut state, self.sid_bytes.as_slice());
        append_bytes(&mut state, self.root_key.as_slice());
        append_bytes(&mut state, self.send_chain.as_slice());
        append_bytes(&mut state, self.recv_chain.as_slice());
        let sidx = u32_to_le(self.send_index);
        append_bytes(&mut state, sidx.as_slice());
        let ridx = u32_to_le(self.recv_index);
        append_bytes(&mut state, ridx.as_slice());
        append_bytes(&mut state, self.peer_identity.as_slice());
        match &self.pending {
            Some(pre) => {
                state.push(1u8);
                append_bytes(&mut state, pre.sender_ik.as_slice());
                append_bytes(&mut state, pre.receiver_ik.as_slice());
                append_bytes(&mut state, pre.one_time_key.as_slice());
                append_bytes(&mut state, pre.ephemeral.as_slice());
            },
            None => {
                state.push(0u8);
            },
        }
        proof {
            assert(state@ =~= pw_state_bytes(*self));
        }
        Ok(seal(key, state.as_slice()))
    }

    /// Rebuilds a session from a pickled blob under the same key. Succeeds
    /// exactly on intact blobs whose payload is a well-formed session state;
    /// anything else is `CorruptPickle`.
    pub fn unpickle(data: &[u8], key: &[u8]) -> (r: Result<Self, OlmError>)
        ensures
            r is Ok <==> sealed_wf(key@, data@) && pw_state_wf(unsealed_of(key@, data@)),
            r is Ok ==> {
                let s = r->Ok_0;
                &&& s.wf()
                &&& pw_state_bytes(s) == unsealed_of(key@, data@)
            },
            r is Err ==> r->Err_0 is CorruptPickle,
    {
        let payload = match unseal(key, data) {
            Ok(p) => p,
            Err(_) => {
                return Err(OlmError::CorruptPickle);
            },
        };
        if payload.len() < 169 {
            return Err(OlmError::CorruptPickle);
        }
        let flag = payload[168];
        if flag == 1u8 {
            if payload.len() != 297 {
                return Err(OlmError::CorruptPickle);
            }
        } else {
            if !(flag == 0u8 && payload.len() == 169) {
                return Err(OlmError::CorruptPickle);
            }
        }
        let sid_bytes = copy_range(payload.as_slice(), 0, 32);
        let root_key = copy_range(payload.as_slice(), 32, 64);
        let send_chain = copy_range(payload.as_slice(), 64, 96);
        let recv_chain = copy_range(payload.as_slice(), 96, 128);
        let send_index = u32_from_le(payload[128], payload[129], payload[130], payload[131]);
        let recv_index = u32_from_le(payload[132], payload[133], payload[134], payload[135]);
        let peer_identity = copy_range(payload.as_slice(), 136, 168);
        let pending = if flag == 1u8 {
            Some(
                PendingPreKey {
                    sender_ik: copy_range(payload.as_slice(), 169, 201),
                    receiver_ik: copy_range(payload.as_slice(), 201, 233),
                    one_time_key: copy_range(payload.as_slice(), 233, 265),
                    ephemeral: copy_range(payload.as_slice(), 265, 297),
                },
            )
        } else {
            None
        };
        let session_id = base64_encode(sid_bytes.as_slice());
        let s = PairwiseRatchet {
            session_id,
            sid_bytes,
            root_key,
            send_chain,
            recv_chain,
            send_index,
            recv_index,
            peer_identity,
            pending,
        };
        proof {
            lemma_le32_complete(payload@.subrange(128, 132));
            lemma_le32_complete(payload@.subrange(132, 136));
            assert(seq![payload@[128], payload@[129], payload@[130], payload@[131]]
                =~= payload@.subrange(128, 132));
            assert(seq![payload@[132], payload@[133], payload@[134], payload@[135]]
                =~= payload@.subrange(132, 136));
            assert(pw_state_bytes(s) =~= payload@);
        }
        Ok(s)
    }
}

/// Pickling then unpickling a pairwise session under the same key
/// reproduces it: the sealed blob opens to the exact state bytes and those
/// bytes are well-formed, so `unpickle` must accept them.
pub proof fn lemma_pairwise_pickle_round_trip(s: PairwiseRatchet, key: Seq<u8>)
    requires
        s.wf(),
    ensures
        sealed_wf(key, seal_spec(key, pw_state_bytes(s))),
        unsealed_of(key, seal_spec(key, pw_state_bytes(s))) == pw_state_bytes(s),
        pw_state_wf(pw_state_bytes(s)),
{
    let p = pw_state_bytes(s);
    assert(p[168] == if s.pending_spec() { 1u8 } else { 0u8 });
    lemma_seal_round_trip(key, p);
}

/// `pw_state_bytes` is injective on well-formed sessions: equal state
/// bytes mean equal session fields, so a restored session's next message
/// keys in both directions equal the original's — its subsequent encrypt
/// and decrypt behaviour is indistinguishable.
pub proof fn lemma_pw_state_injective(a: PairwiseRatchet, b: PairwiseRatchet)
    requires
        a.wf(),
        b.wf(),
        pw_state_bytes(a) == pw_state_bytes(b),
    ensures
        a.sid_spec() == b.sid_spec(),
        a.session_id_view() == b.session_id_view(),
        a.root_spec() == b.root_spec(),
        a.send_chain_spec() == b.send_chain_spec(),
        a.recv_chain_spec() == b.recv_chain_spec(),
        a.send_index_spec() == b.send_index_spec(),
        a.recv_index_spec() == b.recv_index_spec(),
        a.peer_spec() == b.peer_spec(),
        a.pending_spec() == b.pending_spec(),
{
    let pa = pw_state_bytes(a);
    let pb = pw_state_bytes(b);
    assert(pa[168] == if a.pending_spec() { 1u8 } else { 0u8 });
    assert(pb[168] == if b.pending_spec() { 1u8 } else { 0u8 });
    assert(pa.subrange(0, 32) =~= a.sid_spec());
    assert(pb.subrange(0, 32) =~= b.sid_spec());
    assert(pa.subrange(32, 64) =~= a.root_spec());
    assert(pb.subrange(32, 64) =~= b.root_spec());
    assert(pa.subrange(64, 96) =~= a.send_chain_spec());
    assert(pb.subrange(64, 96) =~= b.send_chain_spec());
    assert(pa.subrange(96, 128) =~= a.recv_chain_spec());
    assert(pb.subrange(96, 128) =~= b.recv_chain_spec());
    assert(pa.subrange(128, 132) =~= le32_spec(a.send_index_spec()));
    assert(pb.subrange(128, 132) =~= le32_spec(b.send_index_spec()));
    lemma_le32_round_trip(a.send_index_spec());
    lemma_le32_round_trip(b.send_index_spec());
    assert(pa.subrange(132, 136) =~= le32_spec(a.recv_index_spec()));
    assert(pb.subrange(132, 136) =~= le32_spec(b.recv_index_spec()));
    lemma_le32_round_trip(a.recv_index_spec());
    lemma_le32_round_trip(b.recv_index_spec());
    assert(pa.subrange(136, 168) =~= a.peer_spec());
    assert(pb.subrange(136, 168) =~= b.peer_spec());
}

/// A receiving chain that stands `k` steps into the sender's chain accepts
/// a message exactly when a receiver starting at the chain's origin would:
/// chain advance composes, so the windowed view agrees with the original.
pub proof fn lemma_pw_receive_window(
    c0: Seq<u8>,
    k: u32,
    i: u32,
    pt: Seq<u8>,
    body: Seq<u8>,
)
    requires
        k <= i,
    ensures
        pw_normal_valid(pw_chain_at(c0, k as nat), k, i, pt, body) == pw_normal_valid(
            c0,
            0,
            i,
            pt,
            body,
        ),
{
    lemma_pw_chain_at_add(c0, k as nat, (i - k) as nat);
}

/// Round trip: the body an established session encrypts at its current
/// sending position is a valid message for the peer whose receiving chain
/// mirrors that sending chain, so by `decrypt`'s contract the peer must
/// return exactly the plaintext that was encrypted.
pub proof fn lemma_pairwise_round_trip(a: PairwiseRatchet, b: PairwiseRatchet, pt: Seq<u8>, body: Seq<u8>)
    requires
        a.wf(),
        b.wf(),
        b.recv_index_spec() <= a.send_index_spec(),
        a.send_index_spec() < 0xffff_ffffu32,
        pt.len() <= 0xffff_ffff,
        a.send_chain_spec() == pw_chain_at(
            b.recv_chain_spec(),
            (a.send_index_spec() - b.recv_index_spec()) as nat,
        ),
        body == vstd::utf8::encode_utf8(
            b64_of(normal_payload(a.send_chain_spec(), a.send_index_spec(), pt)),
        ),
    ensures
        pw_normal_valid(b.recv_chain_spec(), b.recv_index_spec(), a.send_index_spec(), pt, body),
{
}


/// The first index in `s` whose record carries the public key `pk`, or -1.
pub open spec fn find_otk_by_pub(s: Seq<OtkRecord>, pk: Seq<u8>) -> int
    decreases s.len(),
{
    if s.len() == 0 {
        -1
    } else if s[0].pub_spec() == pk {
        0
    } else {
        let rest = find_otk_by_pub(s.drop_first(), pk);
        if rest == -1 {
            -1
        } else {
            rest + 1
        }
    }
}

/// `find_otk_by_pub`'s result is a real first match.
pub proof fn lemma_find_otk_by_pub_props(s: Seq<OtkRecord>, pk: Seq<u8>)
    ensures
        find_otk_by_pub(s, pk) == -1 ==> forall|j: int|
            0 <= j < s.len() ==> (#[trigger] s[j]).pub_spec() != pk,
        find_otk_by_pub(s, pk) != -1 ==> 0 <= find_otk_by_pub(s, pk) < s.len()
            && s[find_otk_by_pub(s, pk)].pub_spec() == pk && forall|j: int|
            0 <= j < find_otk_by_pub(s, pk) ==> (#[trigger] s[j]).pub_spec() != pk,
    decreases s.len(),
{
    if s.len() > 0 && s[0].pub_spec() != pk {
        lemma_find_otk_by_pub_props(s.drop_first(), pk);
        assert forall|j: int| 1 <= j < s.len() implies s.drop_first()[j - 1] == s[j] by {}
    }
}

/// How a pre-key payload splits back into its parts.
pub proof fn lemma_prekey_payload_parts(
    s_ik: Seq<u8>,
    r_ik: Seq<u8>,
    otk: Seq<u8>,
    ek: Seq<u8>,
    chain: Seq<u8>,
    index: u32,
    pt: Seq<u8>,
)
    requires
        s_ik.len() == 32,
        r_ik.len() == 32,
        otk.len() == 32,
        ek.len() == 32,
    ensures
        ({
            let mk = pw_msg_key_of(chain);
            let ct = xor_ks(mk, pt);
            let p = prekey_payload(s_ik, r_ik, otk, ek, chain, index, pt);
            &&& p.len() == 164 + pt.len()
            &&& p.subrange(0, 32) == s_ik
            &&& p.subrange(32, 64) == r_ik
            &&& p.subrange(64, 96) == otk
            &&& p.subrange(96, 128) == ek
            &&& p.subrange(128, 132) == le32_spec(index)
            &&& p.subrange(132, 164) == mac_of(mk, ct)
            &&& p.subrange(164, p.len() as int) == ct
        }),
{
    let mk = pw_msg_key_of(chain);
    let ct = xor_ks(mk, pt);
    let p = prekey_payload(s_ik, r_ik, otk, ek, chain, index, pt);
    assert(p.subrange(0, 32) =~= s_ik);
    assert(p.subrange(32, 64) =~= r_ik);
    assert(p.subrange(64, 96) =~= otk);
    assert(p.subrange(96, 128) =~= ek);
    assert(p.subrange(128, 132) =~= le32_spec(index));
    assert(p.subrange(132, 164) =~= mac_of(mk, ct));
    assert(p.subrange(164, p.len() as int) =~= ct);
}

/// Whether `body` (the base64 text bytes of a pre-key message) is the first
/// message of a handshake towards the account holding `own_ik`: it carries
/// the four handshake values and plaintext `pt` at index `index`, encrypted
/// on the chain both sides derive from those values.
pub open spec fn prekey_valid(
    own_ik: Seq<u8>,
    s_ik: Seq<u8>,
    otk: Seq<u8>,
    ek: Seq<u8>,
    index: u32,
    pt: Seq<u8>,
    body: Seq<u8>,
) -> bool {
    &&& s_ik.len() == 32
    &&& otk.len() == 32
    &&& ek.len() == 32
    &&& index < 0xffff_ffffu32
    &&& pt.len() <= 0xffff_ffff
    &&& body == vstd::utf8::encode_utf8(
        b64_of(
            prekey_payload(
                s_ik,
                own_ik,
                otk,
                ek,
                pw_chain_at(chain_a_of(shared_of(s_ik, own_ik, otk, ek)), index as nat),
                index,
                pt,
            ),
        ),
    )
}

/// Whether the pool still holds the one-time key with public half `pk`,
/// unconsumed.
pub open spec fn otk_pub_available(pool: Seq<OtkRecord>, pk: Seq<u8>) -> bool {
    let f = find_otk_by_pub(pool, pk);
    f != -1 && !pool[f].consumed_spec()
}

/// Whether `pool1` is `pool0` with exactly the record at `f` marked
/// consumed, its key material untouched.
pub open spec fn pool_consumed_at(pool0: Seq<OtkRecord>, pool1: Seq<OtkRecord>, f: int) -> bool {
    &&& pool1.len() == pool0.len()
    &&& forall|j: int| 0 <= j < pool0.len() && j != f ==> pool1[j] == pool0[j]
    &&& 0 <= f < pool0.len()
    &&& pool1[f].id_spec() == pool0[f].id_spec()
    &&& pool1[f].pub_spec() == pool0[f].pub_spec()
    &&& pool1[f].priv_spec() == pool0[f].priv_spec()
    &&& pool1[f].consumed_spec()
}

/// Whether an inbound session carries exactly the state the handshake over
/// the four public values derives, advanced past the first message's index.
pub open spec fn inbound_session_derived(
    sess: PairwiseRatchet,
    s_ik: Seq<u8>,
    own_ik: Seq<u8>,
    otk: Seq<u8>,
    ek: Seq<u8>,
    index: u32,
) -> bool {
    let shared = shared_of(s_ik, own_ik, otk, ek);
    &&& sess.sid_spec() == sid_of(shared)
    &&& sess.root_spec() == root_of(shared)
    &&& sess.send_chain_spec() == chain_b_of(shared)
    &&& sess.recv_chain_spec() == pw_chain_at(chain_a_of(shared), (index + 1) as nat)
    &&& sess.send_index_spec() == 0
    &&& sess.recv_index_spec() == index + 1
    &&& sess.peer_spec() == s_ik
    &&& !sess.pending_spec()
}

/// What accepting a pre-key message did: some handshake values and
/// plaintext were valid for the account's identity key, the matching
/// one-time key was available and is now consumed, and the new session
/// carries the derived state.
pub open spec fn prekey_post(
    own_ik: Seq<u8>,
    pool0: Seq<OtkRecord>,
    pool1: Seq<OtkRecord>,
    sess: PairwiseRatchet,
    pt: Seq<u8>,
    body: Seq<u8>,
) -> bool {
    exists|s_ik: Seq<u8>, otk: Seq<u8>, ek: Seq<u8>, index: u32|
        #![trigger prekey_valid(own_ik, s_ik, otk, ek, index, pt, body)]
        {
            &&& prekey_valid(own_ik, s_ik, otk, ek, index, pt, body)
            &&& otk_pub_available(pool0, otk)
            &&& inbound_session_derived(sess, s_ik, own_ik, otk, ek, index)
            &&& pool_consumed_at(pool0, pool1, find_otk_by_pub(pool0, otk))
        }
}

/// The bytes `encrypt` returns for a session in state `s0`: the message
/// type byte, then the base64 text of the payload as UTF-8 bytes.
pub open spec fn encrypted_bytes(s0: PairwiseRatchet, pt: Seq<u8>) -> Seq<u8> {
    if s0.pending_spec() {
        seq![0u8] + vstd::utf8::encode_utf8(
            b64_of(
                prekey_payload(
                    s0.pending_sender(),
                    s0.pending_receiver(),
                    s0.pending_otk(),
                    s0.pending_ek(),
                    s0.send_chain_spec(),
                    s0.send_index_spec(),
                    pt,
                ),
            ),
        )
    } else {
        seq![1u8] + vstd::utf8::encode_utf8(
            b64_of(normal_payload(s0.send_chain_spec(), s0.send_index_spec(), pt)),
        )
    }
}

/// The session manager: the account, its open pairwise sessions, and the
/// index of the session the next encrypt or decrypt call works on.
pub struct OlmSession {
    account: Account,
    sessions: Vec<PairwiseRatchet>,
    current: usize,
}

impl OlmSession {
    /// The account key store.
    pub closed spec fn account_spec(self) -> Account {
        self.account
    }

    /// The open sessions.
    pub closed spec fn sessions_spec(self) -> Seq<PairwiseRatchet> {
        self.sessions@
    }

    /// The index of the session in use.
    pub closed spec fn current_spec(self) -> int {
        self.current as int
    }

    /// Internal consistency: a well-formed account and sessions, with a
    /// bounded session count.
    pub open spec fn wf(self) -> bool {
        &&& self.account_spec().wf()
        &&& forall|j: int|
            0 <= j < self.sessions_spec().len() ==> (#[trigger] self.sessions_spec()[j]).wf()
        &&& self.sessions_spec().len() <= 0xffff_ffff
    }

    /// Creates a fresh account with no open sessions.
    pub fn create_account() -> (r: Result<Self, OlmError>)
        ensures
            r is Ok,
            r is Ok ==> {
                let s = r->Ok_0;
                &&& s.wf()
                &&& s.sessions_spec().len() == 0
                &&& s.account_spec().otks_spec().len() == 0
                &&& s.account_spec().next_id_spec() == 0
            },
    {
        Ok(OlmSession { account: Account::create(), sessions: Vec::new(), current: 0 })
    }

    /// The account's identity keys as base64 text.
    pub fn get_identity_keys(&self) -> (r: Result<IdentityKeys, OlmError>)
        ensures
            r is Ok,
            r is Ok ==> r->Ok_0.curve25519@ == b64_of(self.account_spec().ik_pub_spec())
                && r->Ok_0.ed25519@ == b64_of(self.account_spec().sk_pub_spec()),
    {
        Ok(self.account.identity_keys())
    }

    /// Appends `count` freshly generated one-time keys to the account's
    /// pool and returns only the new ones.
    pub fn generate_one_time_keys(&mut self, count: usize) -> (r: Result<Vec<OneTimeKey>, OlmError>)
        requires
            old(self).wf(),
        ensures
            final(self).wf(),
            final(self).sessions_spec() == old(self).sessions_spec(),
            final(self).current_spec() == old(self).current_spec(),
            final(self).account_spec().ik_pub_spec() == old(self).account_spec().ik_pub_spec(),
            r is Ok <==> count + old(self).account_spec().next_id_spec() <= 0xff_ffff,
            r is Ok ==> {
                let a0 = old(self).account_spec();
                let a1 = final(self).account_spec();
                let new = r->Ok_0;
                &&& a1.otks_spec().len() == a0.otks_spec().len() + count
                &&& forall|j: int|
                    0 <= j < a0.otks_spec().len() ==> a1.otks_spec()[j] == a0.otks_spec()[j]
                &&& new@.len() == count
                &&& forall|j: int|
                    0 <= j < count ==> {
                        let rec = #[trigger] a1.otks_spec()[a0.otks_spec().len() + j];
                        &&& !rec.consumed_spec()
                        &&& new@[j].key_id@ == key_id_text(rec.id_spec())
                        &&& new@[j].key@ == b64_of(rec.pub_spec())
                    }
            },
    {
        self.account.generate_one_time_keys(count)
    }

    /// Marks a one-time key as consumed; see `Account::mark_consumed`.
    pub fn mark_consumed(&mut self, key_id: &str) -> (r: Result<(), OlmError>)
        requires
            old(self).wf(),
        ensures
            final(self).wf(),
            final(self).sessions_spec() == old(self).sessions_spec(),
            final(self).current_spec() == old(self).current_spec(),
            ({
                let pool = old(self).account_spec().otks_spec();
                let f = find_otk(pool, key_id@);
                &&& f == -1 ==> r is Err && r->Err_0 is UnknownKeyId && final(self).account_spec()
                    == old(self).account_spec()
                &&& f != -1 && pool[f].consumed_spec() ==> r is Err && r->Err_0 is AlreadyConsumed
                    && final(self).account_spec() == old(self).account_spec()
                &&& f != -1 && !pool[f].consumed_spec() ==> r is Ok && final(self).account_spec().otks_spec()[f].consumed_spec() && final(self).account_spec().otks_spec().len() == pool.len()
            }),
    {
        self.account.mark_consumed(key_id)
    }

    /// Opens an outbound session towards a peer, from the peer's published
    /// identity key and one-time key (both base64 text bytes, decoding to
    /// 32 raw bytes each). The new session becomes the current one and its
    /// index is returned.
    pub fn create_outbound_session(
        &mut self,
        their_identity_key: &[u8],
        their_one_time_key: &[u8],
    ) -> (r: Result<usize, OlmError>)
        requires
            old(self).wf(),
        ensures
            final(self).wf(),
            final(self).account_spec() == old(self).account_spec(),
            r is Err ==> *final(self) == *old(self) && (r->Err_0 is InvalidKey || r->Err_0
                is SessionCreationFailed),
            r is Ok ==> {
                let sess = final(self).sessions_spec().last();
                &&& final(self).sessions_spec().len() == old(self).sessions_spec().len() + 1
                &&& forall|j: int|
                    0 <= j < old(self).sessions_spec().len() ==> final(self).sessions_spec()[j]
                        == old(self).sessions_spec()[j]
                &&& r->Ok_0 == old(self).sessions_spec().len()
                &&& final(self).current_spec() == old(self).sessions_spec().len()
                &&& sess.wf()
                &&& sess.pending_spec()
                &&& sess.send_index_spec() == 0
                &&& sess.recv_index_spec() == 0
                &&& sess.pending_sender() == old(self).account_spec().ik_pub_spec()
                &&& their_identity_key@ == vstd::utf8::encode_utf8(
                    b64_of(sess.pending_receiver()),
                )
                &&& their_one_time_key@ == vstd::utf8::encode_utf8(b64_of(sess.pending_otk()))
                &&& handshake_derived(
                    sess,
                    old(self).account_spec().ik_pub_spec(),
                    sess.pending_receiver(),
                    sess.pending_otk(),
                    sess.pending_ek(),
                    true,
                )
                &&& sess.recv_chain_spec() == chain_b_of(
                    shared_of(
                        old(self).account_spec().ik_pub_spec(),
                        sess.pending_receiver(),
                        sess.pending_otk(),
                        sess.pending_ek(),
                    ),
                )
            },
            forall|ik: Seq<u8>, otk: Seq<u8>|
                #![trigger b64_of(ik), b64_of(otk)]
                ik.len() == 32 && otk.len() == 32 && their_identity_key@
                    == vstd::utf8::encode_utf8(b64_of(ik)) && their_one_time_key@
                    == vstd::utf8::encode_utf8(b64_of(otk)) && old(self).sessions_spec().len()
                    < 0xffff_ffff ==> r is Ok,
    {
        let ik = match crate::utilities::base64_decode_bytes(their_identity_key) {
            Ok(v) => v,
            Err(_) => {
                return Err(OlmError::InvalidKey(String::new()));
            },
        };
        let otk = match crate::utilities::base64_decode_bytes(their_one_time_key) {
            Ok(v) => v,
            Err(_) => {
                return Err(OlmError::InvalidKey(String::new()));
            },
        };
        if ik.len() != 32 || otk.len() != 32 {
            proof {
                vstd::utf8::encode_utf8_decode_utf8(b64_of(ik@));
            }
            return Err(OlmError::InvalidKey(String::new()));
        }
        if self.sessions.len() >= 0xffff_ffffusize {
            return Err(OlmError::SessionCreationFailed(String::new()));
        }
        let sess = PairwiseRatchet::new_outbound(
            self.account.ik_public.as_slice(),
            ik.as_slice(),
            otk.as_slice(),
        );
        let idx = self.sessions.len();
        self.sessions.push(sess);
        self.current = idx;
        Ok(idx)
    }
}


/// Finds the first pool record whose public half is `pk`; returns the pool
/// length when there is none.
fn find_pool_index(otks: &Vec<OtkRecord>, pk: &[u8]) -> (r: usize)
    ensures
        r <= otks@.len(),
        r == otks@.len() ==> find_otk_by_pub(otks@, pk@) == -1,
        (r as int) < otks@.len() ==> find_otk_by_pub(otks@, pk@) == r as int && otks@[r as int].pub_spec()
            == pk@ && !(r as int == otks@.len()),
{
    let mut j: usize = 0;
    while j < otks.len()
        invariant
            j <= otks@.len(),
            forall|k: int| 0 <= k < j ==> (#[trigger] otks@[k]).pub_spec() != pk@,
        decreases otks@.len() - j,
    {
        if bytes_eq(otks[j].public_key.as_slice(), pk) {
            proof {
                lemma_find_otk_by_pub_props(otks@, pk@);
            }
            return j;
        }
        j += 1;
    }
    proof {
        lemma_find_otk_by_pub_props(otks@, pk@);
        if find_otk_by_pub(otks@, pk@) != -1 {
            assert(otks@[find_otk_by_pub(otks@, pk@)].pub_spec() == pk@);
        }
    }
    otks.len()
}

impl OlmSession {
    /// The current session's id as base64 text, or `SessionNotFound` when
    /// no session is open.
    pub fn session_id(&self) -> (r: Result<String, OlmError>)
        ensures
            r is Ok <==> self.current_spec() < self.sessions_spec().len(),
            r is Ok ==> r->Ok_0@ == self.sessions_spec()[self.current_spec()].session_id_view(),
            r is Err ==> r->Err_0 is SessionNotFound,
    {
        if self.current >= self.sessions.len() {
            return Err(OlmError::SessionNotFound);
        }
        Ok(self.sessions[self.current].session_id.clone())
    }

    /// Encrypts a message on the current session. The result is the message
    /// type byte (0 pre-key, 1 normal) followed by the base64 body bytes.
    pub fn encrypt(&mut self, plaintext: &[u8]) -> (r: Result<Vec<u8>, OlmError>)
        requires
            old(self).wf(),
        ensures
            final(self).wf(),
            final(self).account_spec() == old(self).account_spec(),
            final(self).current_spec() == old(self).current_spec(),
            final(self).sessions_spec().len() == old(self).sessions_spec().len(),
            forall|j: int|
                0 <= j < old(self).sessions_spec().len() && j != old(self).current_spec()
                    ==> final(self).sessions_spec()[j] == old(self).sessions_spec()[j],
            old(self).current_spec() >= old(self).sessions_spec().len() ==> r is Err && r->Err_0
                is SessionNotFound && final(self).sessions_spec() == old(self).sessions_spec(),
            old(self).current_spec() < old(self).sessions_spec().len() ==> {
                let s0 = old(self).sessions_spec()[old(self).current_spec()];
                let s1 = final(self).sessions_spec()[old(self).current_spec()];
                &&& (r is Ok <==> s0.send_index_spec() < 0xffff_ffffu32 && plaintext@.len()
                    <= 0xffff_ffff)
                &&& s1.sid_spec() == s0.sid_spec()
                &&& s1.session_id_view() == s0.session_id_view()
                &&& s1.root_spec() == s0.root_spec()
                &&& s1.recv_chain_spec() == s0.recv_chain_spec()
                &&& s1.recv_index_spec() == s0.recv_index_spec()
                &&& s1.peer_spec() == s0.peer_spec()
                &&& (r is Err ==> r->Err_0 is EncryptionFailed && s1.send_chain_spec()
                    == s0.send_chain_spec() && s1.send_index_spec() == s0.send_index_spec()
                    && s1.pending_spec() == s0.pending_spec())
                &&& (r is Ok ==> s1.send_index_spec() == s0.send_index_spec() + 1
                    && s1.send_chain_spec() == pw_chain_next(s0.send_chain_spec())
                    && !s1.pending_spec() && r->Ok_0@ == encrypted_bytes(s0, plaintext@))
            },
    {
        if self.current >= self.sessions.len() {
            return Err(OlmError::SessionNotFound);
        }
        let cur = self.current;
        let ghost s0 = old(self).sessions_spec()[cur as int];
        let mut sess = self.sessions.remove(cur);
        let res = sess.encrypt(plaintext);
        self.sessions.insert(cur, sess);
        proof {
            assert(self.sessions@ =~= old(self).sessions_spec().update(
                cur as int,
                self.sessions@[cur as int],
            ));
        }
        match res {
            Ok(m) => {
                let mut out: Vec<u8> = Vec::new();
                if m.message_type == 0 {
                    out.push(0u8);
                } else {
                    out.push(1u8);
                }
                append_bytes(&mut out, m.body.as_str().as_bytes());
                proof {
                    assert(out@ =~= encrypted_bytes(s0, plaintext@));
                }
                Ok(out)
            },
            Err(_) => Err(OlmError::EncryptionFailed(String::new())),
        }
    }

    /// Decrypts a message. A normal message (type 1) goes to the current
    /// session's receiving chain. A pre-key message (type 0) completes an
    /// inbound handshake first: its embedded receiver identity must be this
    /// account's, its one-time key must still be available in the pool (it
    /// is consumed by this call, and can never establish a second session),
    /// and the new session, advanced past the message's index, becomes the
    /// current one. Any other type value fails.
    pub fn decrypt(&mut self, ciphertext: &[u8], message_type: usize) -> (r: Result<
        Vec<u8>,
        OlmError,
    >)
        requires
            old(self).wf(),
        ensures
            final(self).wf(),
            final(self).account_spec().ik_pub_spec() == old(self).account_spec().ik_pub_spec(),
            final(self).account_spec().ik_priv_spec() == old(self).account_spec().ik_priv_spec(),
            final(self).account_spec().sk_pub_spec() == old(self).account_spec().sk_pub_spec(),
            final(self).account_spec().sk_priv_spec() == old(self).account_spec().sk_priv_spec(),
            final(self).account_spec().next_id_spec() == old(self).account_spec().next_id_spec(),
            forall|j: int|
                0 <= j < old(self).sessions_spec().len() && j != old(self).current_spec()
                    ==> final(self).sessions_spec()[j] == old(self).sessions_spec()[j],
            message_type != 0 && message_type != 1 ==> r is Err && r->Err_0 is DecryptionFailed
                && *final(self) == *old(self),
            message_type == 1 && old(self).current_spec() >= old(self).sessions_spec().len()
                ==> r is Err && r->Err_0 is SessionNotFound && *final(self) == *old(self),
            message_type == 1 ==> final(self).account_spec() == old(self).account_spec() && final(self).sessions_spec().len() == old(self).sessions_spec().len() && final(self).current_spec()
                == old(self).current_spec(),
            message_type == 1 && old(self).current_spec() < old(self).sessions_spec().len() ==> {
                let s0 = old(self).sessions_spec()[old(self).current_spec()];
                let s1 = final(self).sessions_spec()[old(self).current_spec()];
                &&& s1.sid_spec() == s0.sid_spec()
                &&& s1.session_id_view() == s0.session_id_view()
                &&& s1.root_spec() == s0.root_spec()
                &&& s1.send_chain_spec() == s0.send_chain_spec()
                &&& s1.send_index_spec() == s0.send_index_spec()
                &&& s1.peer_spec() == s0.peer_spec()
                &&& s1.pending_spec() == s0.pending_spec()
                &&& (r is Err ==> r->Err_0 is DecryptionFailed && s1.recv_chain_spec()
                    == s0.recv_chain_spec() && s1.recv_index_spec() == s0.recv_index_spec())
                &&& (r is Ok ==> pw_decrypt_post(
                    s0.recv_chain_spec(),
                    s0.recv_index_spec(),
                    s1.recv_chain_spec(),
                    s1.recv_index_spec(),
                    r->Ok_0@,
                    ciphertext@,
                ))
                &&& forall|index: u32, pt: Seq<u8>|
                    #[trigger] pw_normal_valid(
                        s0.recv_chain_spec(),
                        s0.recv_index_spec(),
                        index,
                        pt,
                        ciphertext@,
                    ) ==> r is Ok && r->Ok_0@ == pt
            },
            message_type == 0 ==> {
                &&& (r is Err ==> *final(self) == *old(self))
                &&& (r is Ok ==> final(self).sessions_spec().len() == old(self).sessions_spec().len() + 1 && final(self).current_spec() == old(self).sessions_spec().len() && final(self).sessions_spec().last().wf() && prekey_post(
                    old(self).account_spec().ik_pub_spec(),
                    old(self).account_spec().otks_spec(),
                    final(self).account_spec().otks_spec(),
                    final(self).sessions_spec().last(),
                    r->Ok_0@,
                    ciphertext@,
                ))
                &&& forall|s_ik: Seq<u8>, otk: Seq<u8>, ek: Seq<u8>, index: u32, pt: Seq<u8>|
                    #![trigger prekey_valid(
                        old(self).account_spec().ik_pub_spec(),
                        s_ik,
                        otk,
                        ek,
                        index,
                        pt,
                        ciphertext@,
                    )]
                    prekey_valid(
                        old(self).account_spec().ik_pub_spec(),
                        s_ik,
                        otk,
                        ek,
                        index,
                        pt,
                        ciphertext@,
                    ) && otk_pub_available(old(self).account_spec().otks_spec(), otk) && old(self).sessions_spec().len() < 0xffff_ffff ==> r is Ok && r->Ok_0@ == pt
            },
    {
        if message_type == 1 {
            if self.current >= self.sessions.len() {
                return Err(OlmError::SessionNotFound);
            }
            let cur = self.current;
            let mut sess = self.sessions.remove(cur);
            let res = match sess.decrypt(ciphertext) {
                Ok(pt) => Ok(pt),
                Err(_) => Err(OlmError::DecryptionFailed(String::new())),
            };
            self.sessions.insert(cur, sess);
            proof {
                assert(self.sessions@ =~= old(self).sessions_spec().update(
                    cur as int,
                    self.sessions@[cur as int],
                ));
            }
            return res;
        }
        if message_type != 0 {
            return Err(OlmError::DecryptionFailed(String::new()));
        }
        let ghost own_ik = old(self).account_spec().ik_pub_spec();
        let ghost pool0 = old(self).account_spec().otks_spec();
        let ghost body = ciphertext@;
        let payload = match crate::utilities::base64_decode_bytes(ciphertext) {
            Ok(v) => v,
            Err(_) => {
                return Err(OlmError::DecryptionFailed(String::new()));
            },
        };
        if payload.len() < 164 {
            proof {
                assert forall|s_ik: Seq<u8>, otk: Seq<u8>, ek: Seq<u8>, index: u32, pt: Seq<u8>|
                    !prekey_valid(own_ik, s_ik, otk, ek, index, pt, body) by {
                    if prekey_valid(own_ik, s_ik, otk, ek, index, pt, body) {
                        lemma_prekey_payload_parts(
                            s_ik,
                            own_ik,
                            otk,
                            ek,
                            pw_chain_at(
                                chain_a_of(shared_of(s_ik, own_ik, otk, ek)),
                                index as nat,
                            ),
                            index,
                            pt,
                        );
                    }
                };
            }
            return Err(OlmError::DecryptionFailed(String::new()));
        }
        let s_ik = copy_range(payload.as_slice(), 0, 32);
        let r_ik = copy_range(payload.as_slice(), 32, 64);
        let otk_b = copy_range(payload.as_slice(), 64, 96);
        let ek = copy_range(payload.as_slice(), 96, 128);
        proof {
            assert(own_ik.len() == 32);
            assert forall|s_ikx: Seq<u8>, otkx: Seq<u8>, ekx: Seq<u8>, index: u32, pt: Seq<u8>|
                prekey_valid(own_ik, s_ikx, otkx, ekx, index, pt, body) implies s_ikx == s_ik@
                && otkx == otk_b@ && ekx == ek@ && r_ik@ == own_ik by {
                lemma_prekey_payload_parts(
                    s_ikx,
                    own_ik,
                    otkx,
                    ekx,
                    pw_chain_at(chain_a_of(shared_of(s_ikx, own_ik, otkx, ekx)), index as nat),
                    index,
                    pt,
                );
            };
        }
        if !bytes_eq(r_ik.as_slice(), self.account.ik_public.as_slice()) {
            return Err(OlmError::DecryptionFailed(String::new()));
        }
        let embedded = u32_from_le(payload[128], payload[129], payload[130], payload[131]);
        proof {
            assert(seq![payload@[128], payload@[129], payload@[130], payload@[131]]
                =~= payload@.subrange(128, 132));
            assert forall|s_ikx: Seq<u8>, otkx: Seq<u8>, ekx: Seq<u8>, index: u32, pt: Seq<u8>|
                prekey_valid(own_ik, s_ikx, otkx, ekx, index, pt, body) implies index == embedded
                by {
                lemma_prekey_payload_parts(
                    s_ikx,
                    own_ik,
                    otkx,
                    ekx,
                    pw_chain_at(chain_a_of(shared_of(s_ikx, own_ik, otkx, ekx)), index as nat),
                    index,
                    pt,
                );
                lemma_le32_round_trip(index);
            };
        }
        if embedded == 0xffff_ffffu32 {
            return Err(OlmError::DecryptionFailed(String::new()));
        }
        let mac = copy_range(payload.as_slice(), 132, 164);
        let ct = copy_range(payload.as_slice(), 164, payload.len());
        if ct.len() > 0xffff_ffff {
            return Err(OlmError::DecryptionFailed(String::new()));
        }
        let fidx = find_pool_index(&self.account.otks, otk_b.as_slice());
        if fidx == self.account.otks.len() {
            proof {
                lemma_find_otk_by_pub_props(pool0, otk_b@);
            }
            return Err(OlmError::SessionCreationFailed(String::new()));
        }
        if self.account.otks[fidx].consumed {
            return Err(OlmError::SessionCreationFailed(String::new()));
        }
        if self.sessions.len() >= 0xffff_ffffusize {
            return Err(OlmError::SessionCreationFailed(String::new()));
        }
        // Derive the session state both sides agree on.
        let mut transcript: Vec<u8> = Vec::new();
        append_bytes(&mut transcript, s_ik.as_slice());
        append_bytes(&mut transcript, r_ik.as_slice());
        append_bytes(&mut transcript, otk_b.as_slice());
        append_bytes(&mut transcript, ek.as_slice());
        let shared = tagged_digest(transcript.as_slice(), TAG_SHARED);
        proof {
            assert(transcript@ + seq![TAG_SHARED] =~= s_ik@ + r_ik@ + otk_b@ + ek@ + seq![
                TAG_SHARED,
            ]);
            assert(shared@ == shared_of(s_ik@, own_ik, otk_b@, ek@));
        }
        let sid_bytes = tagged_digest(shared.as_slice(), TAG_SESSION_ID);
        let root_key = tagged_digest(shared.as_slice(), TAG_ROOT);
        let chain_a = tagged_digest(root_key.as_slice(), TAG_CHAIN_A);
        let send_chain = tagged_digest(root_key.as_slice(), TAG_CHAIN_B);
        let ghost chain0 = chain_a@;
        // Advance the receiving chain to the message's index.
        let mut chain_i = chain_a;
        let mut k: u32 = 0;
        while k < embedded
            invariant
                k <= embedded,
                chain_i@ == pw_chain_at(chain0, k as nat),
                chain0.len() == 32,
                chain_i@.len() == 32,
            decreases embedded - k,
        {
            let next = tagged_digest(chain_i.as_slice(), TAG_PW_NEXT);
            zeroize(&mut chain_i);
            chain_i = next;
            k += 1;
        }
        let ghost chain_target = pw_chain_at(chain0, embedded as nat);
        let mut mk = tagged_digest(chain_i.as_slice(), TAG_PW_MSGKEY);
        let expected_mac = compute_mac(mk.as_slice(), ct.as_slice());
        if !bytes_eq(mac.as_slice(), expected_mac.as_slice()) {
            proof {
                assert forall|s_ikx: Seq<u8>, otkx: Seq<u8>, ekx: Seq<u8>, index: u32, pt: Seq<
                    u8,
                >| !prekey_valid(own_ik, s_ikx, otkx, ekx, index, pt, body) by {
                    if prekey_valid(own_ik, s_ikx, otkx, ekx, index, pt, body) {
                        lemma_prekey_payload_parts(
                            s_ikx,
                            own_ik,
                            otkx,
                            ekx,
                            pw_chain_at(
                                chain_a_of(shared_of(s_ikx, own_ik, otkx, ekx)),
                                index as nat,
                            ),
                            index,
                            pt,
                        );
                    }
                };
            }
            return Err(OlmError::DecryptionFailed(String::new()));
        }
        let pt = apply_keystream(mk.as_slice(), ct.as_slice());
        proof {
            lemma_xor_ks_involution(pw_msg_key_of(chain_target), ct@);
            lemma_prekey_payload_parts(s_ik@, own_ik, otk_b@, ek@, chain_target, embedded, pt@);
            lemma_le32_complete(payload@.subrange(128, 132));
            assert(payload@ =~= prekey_payload(
                s_ik@,
                own_ik,
                otk_b@,
                ek@,
                chain_target,
                embedded,
                pt@,
            ));
            assert(prekey_valid(own_ik, s_ik@, otk_b@, ek@, embedded, pt@, body));
            assert forall|s_ikx: Seq<u8>, otkx: Seq<u8>, ekx: Seq<u8>, index: u32, ptx: Seq<u8>|
                prekey_valid(own_ik, s_ikx, otkx, ekx, index, ptx, body) implies ptx == pt@ by {
                lemma_prekey_payload_parts(
                    s_ikx,
                    own_ik,
                    otkx,
                    ekx,
                    pw_chain_at(chain_a_of(shared_of(s_ikx, own_ik, otkx, ekx)), index as nat),
                    index,
                    ptx,
                );
                lemma_le32_round_trip(index);
                assert(payload@.subrange(164, payload@.len() as int) == xor_ks(
                    pw_msg_key_of(chain_target),
                    ptx,
                ));
                lemma_xor_ks_involution(pw_msg_key_of(chain_target), ptx);
            };
        }
        // Consume the one-time key: it can never establish another session.
        let rec_id = self.account.otks[fidx].id;
        let plen = self.account.otks[fidx].private_key.len();
        let rec_priv = copy_range(self.account.otks[fidx].private_key.as_slice(), 0, plen);
        let klen = self.account.otks[fidx].public_key.len();
        let rec_pub = copy_range(self.account.otks[fidx].public_key.as_slice(), 0, klen);
        proof {
            assert(rec_priv@ =~= pool0[fidx as int].priv_spec());
            assert(rec_pub@ =~= pool0[fidx as int].pub_spec());
        }
        self.account.otks.set(
            fidx,
            OtkRecord { id: rec_id, private_key: rec_priv, public_key: rec_pub, consumed: true },
        );
        // One more advance: the stored chain sits just past the decrypted
        // index, so the used message key is gone.
        let next = tagged_digest(chain_i.as_slice(), TAG_PW_NEXT);
        zeroize(&mut chain_i);
        zeroize(&mut mk);
        let session_id = base64_encode(sid_bytes.as_slice());
        let sess = PairwiseRatchet {
            session_id,
            sid_bytes,
            root_key,
            send_chain,
            recv_chain: next,
            send_index: 0,
            recv_index: embedded + 1,
            peer_identity: s_ik,
            pending: None,
        };
        proof {
            lemma_pw_chain_at_add(chain0, embedded as nat, 1);
            assert(pw_chain_at(chain_target, 1) == pw_chain_next(pw_chain_at(chain_target, 0)));
            assert(inbound_session_derived(sess, payload@.subrange(0, 32), own_ik, otk_b@, ek@, embedded));
        }
        let idx = self.sessions.len();
        self.sessions.push(sess);
        self.current = idx;
        proof {
            assert(prekey_post(
                own_ik,
                pool0,
                self.account.otks@,
                self.sessions@.last(),
                pt@,
                body,
            ));
        }
        Ok(pt)
    }
}


/// The serialized form of one pool record:
/// `le32(id) || private(32) || public(32) || consumed(1)`.
pub open spec fn otk_bytes(r: OtkRecord) -> Seq<u8> {
    le32_spec(r.id_spec()) + r.priv_spec() + r.pub_spec() + seq![
        if r.consumed_spec() {
            1u8
        } else {
            0u8
        },
    ]
}

/// The serialized pool: the records' bytes in order.
pub open spec fn pool_bytes(s: Seq<OtkRecord>) -> Seq<u8>
    decreases s.len(),
{
    if s.len() == 0 {
        Seq::<u8>::empty()
    } else {
        pool_bytes(s.drop_last()) + otk_bytes(s.last())
    }
}

/// For a pool of well-formed records, the serialized pool is 69 bytes per
/// record and each record's bytes sit at their fixed offset.
pub proof fn lemma_pool_bytes_index(s: Seq<OtkRecord>)
    requires
        forall|j: int| 0 <= j < s.len() ==> (#[trigger] s[j]).wf(),
    ensures
        pool_bytes(s).len() == 69 * s.len(),
        forall|j: int|
            0 <= j < s.len() ==> pool_bytes(s).subrange(69 * j, 69 * j + 69) == otk_bytes(
                #[trigger] s[j],
            ),
    decreases s.len(),
{
    if s.len() > 0 {
        assert forall|j: int| 0 <= j < s.drop_last().len() implies (#[trigger] s.drop_last()[j]).wf()
            by {
            assert(s.drop_last()[j] == s[j]);
        }
        lemma_pool_bytes_index(s.drop_last());
        assert(otk_bytes(s.last()).len() == 69);
        assert forall|j: int|
            0 <= j < s.len() implies pool_bytes(s).subrange(69 * j, 69 * j + 69) == otk_bytes(
            s[j],
        ) by {
            if j < s.len() - 1 {
                assert(s.drop_last()[j] == s[j]);
                assert(pool_bytes(s).subrange(69 * j, 69 * j + 69) =~= pool_bytes(
                    s.drop_last(),
                ).subrange(69 * j, 69 * j + 69));
            } else {
                assert(pool_bytes(s).subrange(69 * j, 69 * j + 69) =~= otk_bytes(s.last()));
            }
        }
    }
}

/// Equal serialized pools of well-formed records mean pools that agree
/// record by record on every field.
pub proof fn lemma_pool_bytes_injective(s1: Seq<OtkRecord>, s2: Seq<OtkRecord>)
    requires
        forall|j: int| 0 <= j < s1.len() ==> (#[trigger] s1[j]).wf(),
        forall|j: int| 0 <= j < s2.len() ==> (#[trigger] s2[j]).wf(),
        s1.len() == s2.len(),
        pool_bytes(s1) == pool_bytes(s2),
    ensures
        forall|j: int|
            0 <= j < s1.len() ==> (#[trigger] s1[j]).id_spec() == s2[j].id_spec() && s1[
                j
            ].priv_spec() == s2[j].priv_spec() && s1[j].pub_spec() == s2[j].pub_spec() && s1[
                j
            ].consumed_spec() == s2[j].consumed_spec(),
{
    lemma_pool_bytes_index(s1);
    lemma_pool_bytes_index(s2);
    assert forall|j: int|
        0 <= j < s1.len() implies (#[trigger] s1[j]).id_spec() == s2[j].id_spec() && s1[
        j
    ].priv_spec() == s2[j].priv_spec() && s1[j].pub_spec() == s2[j].pub_spec() && s1[
        j
    ].consumed_spec() == s2[j].consumed_spec() by {
        let b1 = otk_bytes(s1[j]);
        let b2 = otk_bytes(s2[j]);
        assert(b1 == b2);
        assert(b1.subrange(0, 4) =~= le32_spec(s1[j].id_spec()));
        assert(b2.subrange(0, 4) =~= le32_spec(s2[j].id_spec()));
        lemma_le32_round_trip(s1[j].id_spec());
        lemma_le32_round_trip(s2[j].id_spec());
        assert(b1.subrange(4, 36) =~= s1[j].priv_spec());
        assert(b2.subrange(4, 36) =~= s2[j].priv_spec());
        assert(b1.subrange(36, 68) =~= s1[j].pub_spec());
        assert(b2.subrange(36, 68) =~= s2[j].pub_spec());
        assert(b1[68] == if s1[j].consumed_spec() { 1u8 } else { 0u8 });
        assert(b2[68] == if s2[j].consumed_spec() { 1u8 } else { 0u8 });
    }
}

/// The serialized account state: both identity key pairs, the next key id,
/// the pool size, then the pool records.
pub open spec fn account_state_bytes(a: Account) -> Seq<u8> {
    a.ik_priv_spec() + a.ik_pub_spec() + a.sk_priv_spec() + a.sk_pub_spec() + le32_spec(
        a.next_id_spec(),
    ) + le32_spec(a.otks_spec().len() as u32) + pool_bytes(a.otks_spec())
}

/// Equal serialized account states of well-formed accounts mean accounts
/// that agree on every field.
pub proof fn lemma_account_state_injective(a: Account, b: Account)
    requires
        a.wf(),
        b.wf(),
        account_state_bytes(a) == account_state_bytes(b),
    ensures
        a.ik_priv_spec() == b.ik_priv_spec(),
        a.ik_pub_spec() == b.ik_pub_spec(),
        a.sk_priv_spec() == b.sk_priv_spec(),
        a.sk_pub_spec() == b.sk_pub_spec(),
        a.next_id_spec() == b.next_id_spec(),
        a.otks_spec().len() == b.otks_spec().len(),
        forall|j: int|
            0 <= j < a.otks_spec().len() ==> (#[trigger] a.otks_spec()[j]).id_spec()
                == b.otks_spec()[j].id_spec() && a.otks_spec()[j].priv_spec() == b.otks_spec()[
                j
            ].priv_spec() && a.otks_spec()[j].pub_spec() == b.otks_spec()[j].pub_spec()
                && a.otks_spec()[j].consumed_spec() == b.otks_spec()[j].consumed_spec(),
{
    let pa = account_state_bytes(a);
    let pb = account_state_bytes(b);
    assert(pa.subrange(0, 32) =~= a.ik_priv_spec());
    assert(pb.subrange(0, 32) =~= b.ik_priv_spec());
    assert(pa.subrange(32, 64) =~= a.ik_pub_spec());
    assert(pb.subrange(32, 64) =~= b.ik_pub_spec());
    assert(pa.subrange(64, 96) =~= a.sk_priv_spec());
    assert(pb.subrange(64, 96) =~= b.sk_priv_spec());
    assert(pa.subrange(96, 128) =~= a.sk_pub_spec());
    assert(pb.subrange(96, 128) =~= b.sk_pub_spec());
    assert(pa.subrange(128, 132) =~= le32_spec(a.next_id_spec()));
    assert(pb.subrange(128, 132) =~= le32_spec(b.next_id_spec()));
    lemma_le32_round_trip(a.next_id_spec());
    lemma_le32_round_trip(b.next_id_spec());
    assert(pa.subrange(132, 136) =~= le32_spec(a.otks_spec().len() as u32));
    assert(pb.subrange(132, 136) =~= le32_spec(b.otks_spec().len() as u32));
    lemma_le32_round_trip(a.otks_spec().len() as u32);
    lemma_le32_round_trip(b.otks_spec().len() as u32);
    lemma_pool_bytes_index(a.otks_spec());
    lemma_pool_bytes_index(b.otks_spec());
    assert(pa.subrange(136, pa.len() as int) =~= pool_bytes(a.otks_spec()));
    assert(pb.subrange(136, pb.len() as int) =~= pool_bytes(b.otks_spec()));
    lemma_pool_bytes_injective(a.otks_spec(), b.otks_spec());
}

impl OlmSession {
    /// Serializes the account's full state (identity key pairs and one-time
    /// key pool) into an integrity-protected blob under the caller's pickle
    /// key. Open sessions are persisted individually through
    /// `PairwiseRatchet::pickle`.
    pub fn pickle(&self, key: &[u8]) -> (r: Result<Vec<u8>, OlmError>)
        requires
            self.wf(),
        ensures
            r is Ok,
            r is Ok ==> r->Ok_0@ == seal_spec(key@, account_state_bytes(self.account_spec())),
    {
        let mut state: Vec<u8> = Vec::new();
        append_bytes(&mut state, self.account.ik_private.as_slice());
        append_bytes(&mut state, self.account.ik_public.as_slice());
        append_bytes(&mut state, self.account.sk_private.as_slice());
        append_bytes(&mut state, self.account.sk_public.as_slice());
        let nid = u32_to_le(self.account.next_id);
        append_bytes(&mut state, nid.as_slice());
        let cnt = u32_to_le(self.account.otks.len() as u32);
        append_bytes(&mut state, cnt.as_slice());
        let ghost fixed = state@;
        let mut k: usize = 0;
        let n = self.account.otks.len();
        while k < n
            invariant
                self.wf(),
                n == self.account.otks@.len(),
                k <= n,
                state@ == fixed + pool_bytes(self.account.otks@.take(k as int)),
            decreases n - k,
        {
            let idb = u32_to_le(self.account.otks[k].id);
            append_bytes(&mut state, idb.as_slice());
            append_bytes(&mut state, self.account.otks[k].private_key.as_slice());
            append_bytes(&mut state, self.account.otks[k].public_key.as_slice());
            if self.account.otks[k].consumed {
                state.push(1u8);
            } else {
                state.push(0u8);
            }
            proof {
                let pool = self.account.otks@;
                assert(pool.take(k + 1).drop_last() =~= pool.take(k as int));
                assert(pool.take(k + 1).last() == pool[k as int]);
                assert(state@ =~= fixed + pool_bytes(pool.take(k as int)) + otk_bytes(
                    pool[k as int],
                ));
            }
            k += 1;
        }
        proof {
            assert(self.account.otks@.take(n as int) =~= self.account.otks@);
            lemma_pool_bytes_index(self.account.otks@);
            assert(state@ =~= account_state_bytes(self.account_spec()));
        }
        Ok(seal(key, state.as_slice()))
    }

    /// Rebuilds an account from a pickled blob under the same key, with no
    /// open sessions. Any blob that a well-formed account pickled under
    /// this key is accepted and reproduces that account's exact state;
    /// everything the integrity or shape checks reject is `CorruptPickle`.
    #[verifier::rlimit(80)]
    pub fn unpickle(data: &[u8], key: &[u8]) -> (r: Result<Self, OlmError>)
        ensures
            r is Err ==> r->Err_0 is CorruptPickle,
            r is Ok ==> {
                let s = r->Ok_0;
                &&& s.wf()
                &&& s.sessions_spec().len() == 0
                &&& account_state_bytes(s.account_spec()) == unsealed_of(key@, data@)
            },
            forall|a0: Account|
                a0.wf() && data@ == seal_spec(key@, #[trigger] account_state_bytes(a0)) ==> r
                    is Ok,
    {
        let ghost gkey = key@;
        proof {
            assert forall|a0: Account| a0.wf() implies account_state_bytes(a0).len() == 136 + 69
                * a0.otks_spec().len() by {
                lemma_pool_bytes_index(a0.otks_spec());
            }
        }
        let payload = match unseal(key, data) {
            Ok(p) => p,
            Err(_) => {
                proof {
                    assert forall|a0: Account|
                        !(a0.wf() && data@ == seal_spec(gkey, account_state_bytes(a0))) by {
                        if a0.wf() && data@ == seal_spec(gkey, account_state_bytes(a0)) {
                            lemma_seal_round_trip(gkey, account_state_bytes(a0));
                        }
                    };
                }
                return Err(OlmError::CorruptPickle);
            },
        };
        proof {
            assert forall|a0: Account|
                a0.wf() && data@ == seal_spec(gkey, account_state_bytes(a0)) implies payload@
                == account_state_bytes(a0) by {
                lemma_seal_round_trip(gkey, account_state_bytes(a0));
            };
        }
        if payload.len() < 136 {
            return Err(OlmError::CorruptPickle);
        }
        let ik_private = copy_range(payload.as_slice(), 0, 32);
        let ik_public = copy_range(payload.as_slice(), 32, 64);
        let sk_private = copy_range(payload.as_slice(), 64, 96);
        let sk_public = copy_range(payload.as_slice(), 96, 128);
        let ik_derived = digest32(ik_private.as_slice());
        let sk_derived = digest32(sk_private.as_slice());
        if !bytes_eq(ik_public.as_slice(), ik_derived.as_slice()) || !bytes_eq(
            sk_public.as_slice(),
            sk_derived.as_slice(),
        ) {
            proof {
                assert forall|a0: Account|
                    !(a0.wf() && data@ == seal_spec(gkey, account_state_bytes(a0))) by {
                    if a0.wf() && data@ == seal_spec(gkey, account_state_bytes(a0)) {
                        assert(payload@.subrange(0, 32) =~= a0.ik_priv_spec());
                        assert(payload@.subrange(32, 64) =~= a0.ik_pub_spec());
                        assert(payload@.subrange(64, 96) =~= a0.sk_priv_spec());
                        assert(payload@.subrange(96, 128) =~= a0.sk_pub_spec());
                    }
                };
            }
            return Err(OlmError::CorruptPickle);
        }
        let next_id = u32_from_le(payload[128], payload[129], payload[130], payload[131]);
        let n32 = u32_from_le(payload[132], payload[133], payload[134], payload[135]);
        let n = n32 as usize;
        proof {
            assert(seq![payload@[128], payload@[129], payload@[130], payload@[131]]
                =~= payload@.subrange(128, 132));
            assert(seq![payload@[132], payload@[133], payload@[134], payload@[135]]
                =~= payload@.subrange(132, 136));
            assert forall|a0: Account|
                a0.wf() && data@ == seal_spec(gkey, account_state_bytes(a0)) implies next_id
                == a0.next_id_spec() && n == a0.otks_spec().len() by {
                assert(payload@.subrange(128, 132) =~= le32_spec(a0.next_id_spec()));
                assert(payload@.subrange(132, 136) =~= le32_spec(a0.otks_spec().len() as u32));
                lemma_le32_round_trip(a0.next_id_spec());
                lemma_le32_round_trip(a0.otks_spec().len() as u32);
            };
        }
        let body_len = payload.len() - 136;
        if body_len % 69 != 0 || body_len / 69 != n || n > next_id as usize
            || next_id > 0xff_ffffu32 {
            proof {
                assert forall|a0: Account|
                    !(a0.wf() && data@ == seal_spec(gkey, account_state_bytes(a0))) by {
                    if a0.wf() && data@ == seal_spec(gkey, account_state_bytes(a0)) {
                        lemma_pool_bytes_index(a0.otks_spec());
                        assert(payload@.len() == 136 + 69 * a0.otks_spec().len());
                        vstd::arithmetic::div_mod::lemma_fundamental_div_mod_converse(
                            69 * a0.otks_spec().len() as int,
                            69,
                            a0.otks_spec().len() as int,
                            0,
                        );
                    }
                };
            }
            return Err(OlmError::CorruptPickle);
        }
        let mut otks: Vec<OtkRecord> = Vec::new();
        let mut off: usize = 136;
        let mut k: usize = 0;
        while k < n
            invariant
                gkey == key@,
                k <= n,
                n <= 0xff_ffff,
                off == 136 + 69 * k,
                payload@.len() == 136 + 69 * n,
                otks@.len() == k,
                forall|j: int| 0 <= j < k ==> (#[trigger] otks@[j]).wf(),
                pool_bytes(otks@) == payload@.subrange(136, off as int),
                forall|a0: Account|
                    a0.wf() && data@ == seal_spec(gkey, #[trigger] account_state_bytes(a0))
                        ==> payload@ == account_state_bytes(a0),
            decreases n - k,
        {
            let id = u32_from_le(payload[off], payload[off + 1], payload[off + 2], payload[off
                + 3]);
            let private_key = copy_range(payload.as_slice(), off + 4, off + 36);
            let public_key = copy_range(payload.as_slice(), off + 36, off + 68);
            let flag = payload[off + 68];
            let derived = digest32(private_key.as_slice());
            if flag > 1u8 || !bytes_eq(public_key.as_slice(), derived.as_slice()) {
                proof {
                    assert forall|a0: Account|
                        !(a0.wf() && data@ == seal_spec(gkey, account_state_bytes(a0))) by {
                        if a0.wf() && data@ == seal_spec(gkey, account_state_bytes(a0)) {
                            lemma_pool_bytes_index(a0.otks_spec());
                            assert(payload@ == account_state_bytes(a0));
                            assert(payload@.len() == 136 + 69 * a0.otks_spec().len());
                            assert(a0.otks_spec().len() == n);
                            assert(k < a0.otks_spec().len());
                            let rec = a0.otks_spec()[k as int];
                            assert(payload@.subrange(136 + 69 * (k as int), 136 + 69 * (k as int)
                                + 69) =~= pool_bytes(a0.otks_spec()).subrange(
                                69 * (k as int),
                                69 * (k as int) + 69,
                            ));
                            assert(otk_bytes(rec).subrange(4, 36) =~= rec.priv_spec());
                            assert(otk_bytes(rec).subrange(36, 68) =~= rec.pub_spec());
                            assert(payload@[off + 68] == otk_bytes(rec)[68]);
                            assert(private_key@ =~= rec.priv_spec());
                            assert(public_key@ =~= rec.pub_spec());
                        }
                    };
                }
                return Err(OlmError::CorruptPickle);
            }
            let rec = OtkRecord { id, private_key, public_key, consumed: flag == 1u8 };
            let ghost prev = otks@;
            otks.push(rec);
            proof {
                let rec_g = otks@.last();
                assert(seq![payload@[off as int], payload@[off + 1], payload@[off + 2], payload@[off
                    + 3]] =~= payload@.subrange(off as int, off + 4));
                lemma_le32_complete(payload@.subrange(off as int, off + 4));
                assert(otk_bytes(rec_g) =~= payload@.subrange(off as int, off + 69));
                assert(otks@.drop_last() =~= prev);
                assert(pool_bytes(otks@) == pool_bytes(prev) + otk_bytes(rec_g));
                assert(payload@.subrange(136, off + 69) =~= payload@.subrange(136, off as int)
                    + payload@.subrange(off as int, off + 69));
            }
            off += 69;
            k += 1;
        }
        proof {
            assert(payload@.subrange(136, payload@.len() as int) =~= pool_bytes(otks@));
        }
        let account = Account {
            ik_private,
            ik_public,
            sk_private,
            sk_public,
            otks,
            next_id,
        };
        let s = OlmSession { account, sessions: Vec::new(), current: 0 };
        proof {
            lemma_le32_complete(payload@.subrange(128, 132));
            lemma_le32_complete(payload@.subrange(132, 136));
            assert(account_state_bytes(s.account_spec()) =~= payload@);
        }
        Ok(s)
    }
}

/// Pickling then unpickling an account under the same key reproduces it:
/// the sealed blob is exactly what `unpickle`'s acceptance clause demands,
/// and `account_state_bytes` pins every account field, so the restored
/// account generates, consumes and establishes exactly as the original
/// would.
pub proof fn lemma_account_pickle_round_trip(a: Account, key: Seq<u8>)
    requires
        a.wf(),
    ensures
        sealed_wf(key, seal_spec(key, account_state_bytes(a))),
        unsealed_of(key, seal_spec(key, account_state_bytes(a))) == account_state_bytes(a),
{
    lemma_pool_bytes_index(a.otks_spec());
    lemma_seal_round_trip(key, account_state_bytes(a));
}

} // verus!
