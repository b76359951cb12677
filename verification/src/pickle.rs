//! The at-rest ("pickle") sealing codec.
//!
//! A sealed blob is `le32(n) || ciphertext || tag`: the payload length, the
//! payload XORed with a keystream derived from the caller's pickle key, and
//! an integrity tag over the ciphertext. Opening a blob recomputes the tag
//! and rejects the whole blob on any mismatch, so no partially
//! reconstructed state can escape.

use vstd::prelude::*;

verus! {

use crate::bytes::{append_bytes, bytes_eq, copy_range, le32_spec, le32_val, lemma_le32_round_trip,
    u32_from_le, u32_to_le};
use crate::cipher::{apply_keystream, compute_mac, lemma_xor_ks_involution, mac_of, xor_ks};
use crate::utilities::{digest32, h256};

/// Domain-separation tag for pickle keys.
pub const TAG_PICKLE: u8 = 80;

/// Pickle errors.
#[derive(Debug)]
pub enum PickleError {
    /// The blob's integrity tag does not match its contents, or the blob is
    /// too short to carry one.
    CorruptPickle,
}

/// The internal 32-byte key derived from a caller-supplied pickle key of any
/// length (an empty key stands for unencrypted storage).
pub open spec fn pickle_key(key: Seq<u8>) -> Seq<u8> {
    h256(key + seq![TAG_PICKLE])
}

/// The sealed form of `payload` under `key`.
pub open spec fn seal_spec(key: Seq<u8>, payload: Seq<u8>) -> Seq<u8> {
    let ct = xor_ks(pickle_key(key), payload);
    le32_spec(payload.len() as u32) + ct + mac_of(pickle_key(key), ct)
}

/// Whether `blob` is an intact sealed blob under `key`: long enough for its
/// own length prefix, and its trailing integrity tag matches its ciphertext.
pub open spec fn sealed_wf(key: Seq<u8>, blob: Seq<u8>) -> bool {
    let n = le32_val(blob.subrange(0, 4)) as int;
    &&& blob.len() >= 4
    &&& blob.len() >= 4 + n
    &&& blob.subrange(4 + n, blob.len() as int) == mac_of(
        pickle_key(key),
        blob.subrange(4, 4 + n),
    )
}

/// The payload an intact blob opens to.
pub open spec fn unsealed_of(key: Seq<u8>, blob: Seq<u8>) -> Seq<u8> {
    let n = le32_val(blob.subrange(0, 4)) as int;
    xor_ks(pickle_key(key), blob.subrange(4, 4 + n))
}

/// Derives the internal pickle key.
fn derive_pickle_key(key: &[u8]) -> (r: Vec<u8>)
    ensures
        r@ == pickle_key(key@),
        r@.len() == 32,
{
    let mut input: Vec<u8> = Vec::new();
    append_bytes(&mut input, key);
    input.push(TAG_PICKLE);
    proof {
        assert(input@ =~= key@ + seq![TAG_PICKLE]);
    }
    digest32(input.as_slice())
}

/// Seals `payload` under `key`.
pub fn seal(key: &[u8], payload: &[u8]) -> (r: Vec<u8>)
    requires
        payload@.len() <= 0xffff_ffff,
    ensures
        r@ == seal_spec(key@, payload@),
{
    let pk = derive_pickle_key(key);
    let ct = apply_keystream(pk.as_slice(), payload);
    let tag = compute_mac(pk.as_slice(), ct.as_slice());
    let mut blob = u32_to_le(payload.len() as u32);
    append_bytes(&mut blob, ct.as_slice());
    append_bytes(&mut blob, tag.as_slice());
    proof {
        assert(blob@ =~= seal_spec(key@, payload@));
    }
    blob
}

/// Opens a sealed blob. Succeeds exactly on intact blobs and yields their
/// payload; any truncation or tag mismatch is `CorruptPickle`.
pub fn unseal(key: &[u8], blob: &[u8]) -> (r: Result<Vec<u8>, PickleError>)
    ensures
        r is Ok <==> sealed_wf(key@, blob@),
        r is Ok ==> r->Ok_0@ == unsealed_of(key@, blob@),
        r is Err ==> r->Err_0 is CorruptPickle,
{
    if blob.len() < 4 {
        return Err(PickleError::CorruptPickle);
    }
    let n = u32_from_le(blob[0], blob[1], blob[2], blob[3]) as usize;
    proof {
        assert(seq![blob@[0], blob@[1], blob@[2], blob@[3]] =~= blob@.subrange(0, 4));
    }
    if blob.len() - 4 < n {
        return Err(PickleError::CorruptPickle);
    }
    let ct = copy_range(blob, 4, 4 + n);
    let tag_part = copy_range(blob, 4 + n, blob.len());
    let pk = derive_pickle_key(key);
    let expected = compute_mac(pk.as_slice(), ct.as_slice());
    if !bytes_eq(tag_part.as_slice(), expected.as_slice()) {
        return Err(PickleError::CorruptPickle);
    }
    proof {
        assert(ct@.len() <= 0xffff_ffff);
    }
    let payload = apply_keystream(pk.as_slice(), ct.as_slice());
    Ok(payload)
}

/// Sealing then opening under the same key gives the payload back: the
/// length prefix reads back, XORing with the same keystream twice is the
/// identity, and the recomputed tag matches.
pub proof fn lemma_seal_round_trip(key: Seq<u8>, payload: Seq<u8>)
    requires
        payload.len() <= 0xffff_ffff,
    ensures
        sealed_wf(key, seal_spec(key, payload)),
        unsealed_of(key, seal_spec(key, payload)) == payload,
{
    let pk = pickle_key(key);
    let ct = xor_ks(pk, payload);
    let blob = seal_spec(key, payload);
    lemma_le32_round_trip(payload.len() as u32);
    assert(blob.subrange(0, 4) =~= le32_spec(payload.len() as u32));
    let n = le32_val(blob.subrange(0, 4)) as int;
    assert(n == payload.len());
    assert(blob.subrange(4, 4 + n) =~= ct);
    assert(blob.subrange(4 + n, blob.len() as int) =~= mac_of(pk, ct));
    lemma_xor_ks_involution(pk, payload);
}

} // verus!
