//! Cryptographic utilities: the trusted wrappers around the outside
//! primitive crates (hashing, randomness, base64 text) and the hash-based
//! signature scheme the session code builds on them.
//!
//! The signature scheme is deliberately simple and fully checkable: a key
//! pair's public half is the SHA-256 digest of its private half, and a
//! signature over a message is the 32-byte digest of
//! `public_key || tag || message`, repeated twice to give the conventional
//! 64-byte signature shape. `verify` recomputes that value and fails closed
//! on any malformed input.

use vstd::prelude::*;

verus! {

use crate::bytes::{append_bytes, bytes_eq, copy_range, le32_spec, le32_val, u32_from_le, u32_to_le};
use vstd::string::StringSliceAdditionalSpecFns;
use vstd::utf8::encode_utf8;

/// Domain-separation tag for signature digests.
pub const TAG_SIGN: u8 = 83;

/// The SHA-256 digest of a byte sequence, as the sha2 crate computes it.
pub uninterp spec fn sha256_of(data: Seq<u8>) -> Seq<u8>;

/// The standard padded base64 text of a byte sequence, as the base64 crate
/// computes it.
pub uninterp spec fn b64_of(data: Seq<u8>) -> Seq<char>;

/// Relies on sha2's `Sha256` (through the `Digest` trait): the 32-byte
/// SHA-256 digest, a function of the input bytes alone.
#[verifier::external_body]
pub fn sha256(data: &[u8]) -> (r: Vec<u8>)
    ensures
        r@ == sha256_of(data@),
        r@.len() == 32,
{
    let digest = <sha2::Sha256 as sha2::Digest>::digest(data);
    digest.to_vec()
}

/// The SHA-256 digest as a sequence of exactly 32 bytes. The wrapper
/// guarantees the digest's length, and carrying that length inside the spec
/// function lets byte layouts built from digests be reasoned about without
/// reference to any particular call.
pub open spec fn h256(data: Seq<u8>) -> Seq<u8> {
    Seq::new(32, |i: int| if i < sha256_of(data).len() { sha256_of(data)[i] } else { 0 })
}

/// Computes the SHA-256 digest, stated as the fixed-width `h256`.
pub fn digest32(data: &[u8]) -> (r: Vec<u8>)
    ensures
        r@ == h256(data@),
        r@.len() == 32,
{
    let r = sha256(data);
    proof {
        assert(r@ =~= h256(data@));
    }
    r
}

/// Relies on rand's `thread_rng` and `RngCore::fill_bytes`: cryptographically
/// secure random bytes. Nothing is promised of the values, only the length.
#[verifier::external_body]
pub fn random_bytes(length: usize) -> (r: Vec<u8>)
    ensures
        r@.len() == length,
{
    let mut bytes = vec![0u8; length];
    rand::RngCore::fill_bytes(&mut rand::thread_rng(), &mut bytes);
    bytes
}

/// Relies on base64's `Engine::encode` with the `STANDARD` engine: padded
/// base64 text, a function of the input bytes alone.
#[verifier::external_body]
pub fn base64_encode(data: &[u8]) -> (r: String)
    ensures
        r@ == b64_of(data@),
{
    base64::Engine::encode(&base64::engine::general_purpose::STANDARD, data)
}

/// Relies on base64's `Engine::decode` with the `STANDARD` engine: it inverts
/// `Engine::encode`, and its configuration (canonical padding required,
/// trailing bits rejected) accepts nothing but exact encoder output.
#[verifier::external_body]
pub(crate) fn base64_decode_bytes(data: &[u8]) -> (r: Result<Vec<u8>, ()>)
    ensures
        r is Ok ==> data@ == encode_utf8(b64_of(r->Ok_0@)),
        forall|b: Seq<u8>| data@ == encode_utf8(#[trigger] b64_of(b)) ==> r is Ok && r->Ok_0@ == b,
{
    match base64::Engine::decode(&base64::engine::general_purpose::STANDARD, data) {
        Ok(v) => Ok(v),
        Err(_) => Err(()),
    }
}

/// Utility errors.
#[derive(Debug)]
pub enum UtilityError {
    KeyGenerationFailed(String),
    SigningFailed(String),
    VerificationFailed(String),
    InvalidKeyFormat,
}

/// Decodes standard padded base64 text back into bytes; rejects anything the
/// canonical decoder rejects.
pub fn base64_decode(data: &str) -> (r: Result<Vec<u8>, UtilityError>)
    ensures
        r is Ok ==> data@ == b64_of(r->Ok_0@),
        forall|b: Seq<u8>| data@ == #[trigger] b64_of(b) ==> r is Ok && r->Ok_0@ == b,
{
    let bytes = data.as_bytes();
    proof {
        assert(bytes@ == encode_utf8(data@));
    }
    match base64_decode_bytes(bytes) {
        Ok(v) => {
            proof {
                vstd::utf8::encode_utf8_decode_utf8(data@);
                vstd::utf8::encode_utf8_decode_utf8(b64_of(v@));
            }
            Ok(v)
        },
        Err(_) => {
            proof {
                assert forall|b: Seq<u8>| data@ == #[trigger] b64_of(b) implies false by {
                    assert(bytes@ == encode_utf8(b64_of(b)));
                }
            }
            Err(UtilityError::InvalidKeyFormat)
        },
    }
}

/// A cryptographic key pair.
pub struct KeyPair {
    private_key: Vec<u8>,
    public_key: Vec<u8>,
}

/// The length-prefixed wire form of a key pair: four little-endian length
/// bytes, the private half, then the public half.
pub open spec fn keypair_bytes(private_key: Seq<u8>, public_key: Seq<u8>) -> Seq<u8> {
    le32_spec(private_key.len() as u32) + private_key + public_key
}

impl KeyPair {
    /// The private half, as a sequence of bytes.
    pub closed spec fn priv_view(self) -> Seq<u8> {
        self.private_key@
    }

    /// The public half, as a sequence of bytes.
    pub closed spec fn pub_view(self) -> Seq<u8> {
        self.public_key@
    }

    /// Structural bound every constructor establishes: the private half's
    /// length fits the wire form's 32-bit length prefix.
    pub open spec fn inv(self) -> bool {
        self.priv_view().len() <= 0xffff_ffff
    }

    /// A generated pair: 32 secret bytes whose public half is their digest.
    pub open spec fn wf(self) -> bool {
        &&& self.priv_view().len() == 32
        &&& self.pub_view() == h256(self.priv_view())
    }

    /// Serializes the pair with a length prefix so the two halves can be
    /// told apart again.
    pub fn to_bytes(&self) -> (r: Vec<u8>)
        requires
            self.inv(),
        ensures
            r@ == keypair_bytes(self.priv_view(), self.pub_view()),
    {
        let mut bytes: Vec<u8> = u32_to_le(self.private_key.len() as u32);
        append_bytes(&mut bytes, self.private_key.as_slice());
        append_bytes(&mut bytes, self.public_key.as_slice());
        bytes
    }

    /// Rebuilds a pair from its wire form. Succeeds exactly when the input
    /// is long enough for its own length prefix plus a 32-byte public half.
    pub fn from_bytes(bytes: &[u8]) -> (r: Result<Self, UtilityError>)
        ensures
            r is Ok <==> bytes@.len() >= 4 && bytes@.len() >= 4 + le32_val(
                bytes@.subrange(0, 4),
            ) + 32,
            r is Ok ==> {
                let plen = le32_val(bytes@.subrange(0, 4)) as int;
                &&& r->Ok_0.priv_view() == bytes@.subrange(4, 4 + plen)
                &&& r->Ok_0.pub_view() == bytes@.subrange(4 + plen, bytes@.len() as int)
                &&& r->Ok_0.inv()
            },
            r is Err ==> r->Err_0 is InvalidKeyFormat,
    {
        if bytes.len() < 4 {
            return Err(UtilityError::InvalidKeyFormat);
        }
        let private_len = u32_from_le(bytes[0], bytes[1], bytes[2], bytes[3]) as usize;
        proof {
            assert(seq![bytes@[0], bytes@[1], bytes@[2], bytes@[3]] =~= bytes@.subrange(0, 4));
        }
        if bytes.len() < 36 || bytes.len() - 36 < private_len {
            return Err(UtilityError::InvalidKeyFormat);
        }
        let private_key = copy_range(bytes, 4, 4 + private_len);
        let public_key = copy_range(bytes, 4 + private_len, bytes.len());
        Ok(KeyPair { private_key, public_key })
    }

    /// The public half.
    pub fn public_key(&self) -> (r: &[u8])
        ensures
            r@ == self.pub_view(),
    {
        self.public_key.as_slice()
    }

    /// The private half.
    pub fn private_key(&self) -> (r: &[u8])
        ensures
            r@ == self.priv_view(),
    {
        self.private_key.as_slice()
    }
}

/// Draws 32 fresh secret bytes and derives the public half as their SHA-256
/// digest, so the two halves are mathematically bound to each other.
fn generate_bound_pair() -> (r: KeyPair)
    ensures
        r.wf(),
        r.inv(),
{
    let private_key = random_bytes(32);
    let public_key = digest32(private_key.as_slice());
    KeyPair { private_key, public_key }
}

/// Generates a key-agreement key pair.
pub fn generate_key_pair() -> (r: Result<KeyPair, UtilityError>)
    ensures
        r is Ok,
        r is Ok ==> r->Ok_0.wf() && r->Ok_0.inv(),
{
    Ok(generate_bound_pair())
}

/// Generates a signing key pair.
pub fn generate_signing_key_pair() -> (r: Result<KeyPair, UtilityError>)
    ensures
        r is Ok,
        r is Ok ==> r->Ok_0.wf() && r->Ok_0.inv(),
{
    Ok(generate_bound_pair())
}

/// The 32-byte core of a signature by the holder of `public_key`'s private
/// half over `message`.
pub open spec fn sig_mac_of(public_key: Seq<u8>, message: Seq<u8>) -> Seq<u8> {
    h256(public_key + seq![TAG_SIGN] + message)
}

/// A full 64-byte signature: the signature core repeated twice.
pub open spec fn sig_of(public_key: Seq<u8>, message: Seq<u8>) -> Seq<u8> {
    sig_mac_of(public_key, message) + sig_mac_of(public_key, message)
}

/// Computes the 32-byte signature core for a public key and message.
fn sig_mac(public_key: &[u8], message: &[u8]) -> (r: Vec<u8>)
    ensures
        r@ == sig_mac_of(public_key@, message@),
        r@.len() == 32,
{
    let mut input: Vec<u8> = Vec::new();
    append_bytes(&mut input, public_key);
    input.push(TAG_SIGN);
    append_bytes(&mut input, message);
    proof {
        assert(input@ =~= public_key@ + seq![TAG_SIGN] + message@);
    }
    digest32(input.as_slice())
}

/// Signs a message with a 32-byte private key; fails on any other key
/// length. The signature verifies against the derived public key.
pub fn sign(private_key: &[u8], message: &[u8]) -> (r: Result<Vec<u8>, UtilityError>)
    ensures
        r is Ok <==> private_key@.len() == 32,
        r is Ok ==> r->Ok_0@ == sig_of(h256(private_key@), message@),
        r is Err ==> r->Err_0 is SigningFailed,
{
    if private_key.len() != 32 {
        return Err(UtilityError::SigningFailed(String::new()));
    }
    let public_key = digest32(private_key);
    let mac = sig_mac(public_key.as_slice(), message);
    let mut result = mac.clone();
    append_bytes(&mut result, mac.as_slice());
    Ok(result)
}

/// Verifies a signature. Fails closed: a public key that is not 32 bytes or
/// a signature that is not 64 bytes is itself a verification failure, and a
/// well-formed signature verifies exactly when it equals the one the matching
/// signer would produce.
pub fn verify(public_key: &[u8], message: &[u8], signature: &[u8]) -> (r: Result<
    bool,
    UtilityError,
>)
    ensures
        r is Ok <==> public_key@.len() == 32 && signature@.len() == 64,
        r is Ok ==> (r->Ok_0 <==> signature@ == sig_of(public_key@, message@)),
        r is Err ==> r->Err_0 is VerificationFailed,
{
    if public_key.len() != 32 {
        return Err(UtilityError::VerificationFailed(String::new()));
    }
    if signature.len() != 64 {
        return Err(UtilityError::VerificationFailed(String::new()));
    }
    let mac = sig_mac(public_key, message);
    let mut expected = mac.clone();
    append_bytes(&mut expected, mac.as_slice());
    let ok = bytes_eq(signature, expected.as_slice());
    Ok(ok)
}

} // verus!
