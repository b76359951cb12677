//! The inner symmetric cipher and integrity tag, built on the SHA-256
//! wrapper.
//!
//! Encryption XORs the plaintext with a keystream whose 32-byte blocks are
//! digests of `key || tag || block counter`; applying the same keystream
//! twice is the identity, which is what makes decryption exact. Integrity is
//! a digest of `key || tag || ciphertext` compared in full.

use vstd::prelude::*;

verus! {

use crate::bytes::{append_bytes, le32_spec, u32_to_le};
use crate::utilities::{digest32, h256};

/// Domain-separation tag for keystream blocks.
pub const TAG_KEYSTREAM: u8 = 75;

/// Domain-separation tag for integrity tags.
pub const TAG_MAC: u8 = 77;

/// Keystream block `b` for `key`.
pub open spec fn ks_block(key: Seq<u8>, b: nat) -> Seq<u8> {
    h256(key + seq![TAG_KEYSTREAM] + le32_spec(b as u32))
}

/// Keystream byte `i` for `key`: byte `i % 32` of block `i / 32`.
pub open spec fn ks_byte(key: Seq<u8>, i: nat) -> u8 {
    ks_block(key, i / 32)[(i % 32) as int]
}

/// `data` XORed byte for byte with the keystream for `key`.
pub open spec fn xor_ks(key: Seq<u8>, data: Seq<u8>) -> Seq<u8> {
    Seq::new(data.len(), |i: int| data[i] ^ ks_byte(key, i as nat))
}

/// Applying the keystream twice gives the original data back: XOR with the
/// same byte is an involution.
pub proof fn lemma_xor_ks_involution(key: Seq<u8>, data: Seq<u8>)
    ensures
        xor_ks(key, xor_ks(key, data)) == data,
{
    let twice = xor_ks(key, xor_ks(key, data));
    assert forall|i: int| 0 <= i < data.len() implies twice[i] == data[i] by {
        let d = data[i];
        let k = ks_byte(key, i as nat);
        assert((d ^ k) ^ k == d) by (bit_vector);
    }
    assert(twice =~= data);
}

/// The 32-byte integrity tag of `data` under `key`.
pub open spec fn mac_of(key: Seq<u8>, data: Seq<u8>) -> Seq<u8> {
    h256(key + seq![TAG_MAC] + data)
}

/// Computes keystream block `b` for `key`.
fn ks_block_exec(key: &[u8], b: u32) -> (r: Vec<u8>)
    ensures
        r@ == ks_block(key@, b as nat),
        r@.len() == 32,
{
    let mut input: Vec<u8> = Vec::new();
    append_bytes(&mut input, key);
    input.push(TAG_KEYSTREAM);
    let ctr = u32_to_le(b);
    append_bytes(&mut input, ctr.as_slice());
    proof {
        assert(input@ =~= key@ + seq![TAG_KEYSTREAM] + le32_spec(b));
    }
    digest32(input.as_slice())
}

/// Stepping an index forward within a 32-byte block keeps its block number;
/// stepping across a block boundary increments it.
proof fn lemma_div32_step(i: int)
    requires
        i >= 0,
    ensures
        (i + 1) % 32 != 0 ==> (i + 1) / 32 == i / 32,
        (i + 1) % 32 == 0 ==> (i + 1) / 32 == i / 32 + 1,
{
    vstd::arithmetic::div_mod::lemma_fundamental_div_mod(i, 32);
    let q = i / 32;
    let r = i % 32;
    vstd::arithmetic::div_mod::lemma_mod_bound(i, 32);
    if r < 31 {
        vstd::arithmetic::div_mod::lemma_fundamental_div_mod_converse(i + 1, 32, q, r + 1);
    } else {
        vstd::arithmetic::div_mod::lemma_fundamental_div_mod_converse(i + 1, 32, q + 1, 0);
    }
}

/// XORs `data` with the keystream for `key`. Calling it on the result with
/// the same key restores `data`.
pub fn apply_keystream(key: &[u8], data: &[u8]) -> (r: Vec<u8>)
    requires
        data@.len() <= 0xffff_ffff,
    ensures
        r@ == xor_ks(key@, data@),
{
    let mut out: Vec<u8> = Vec::new();
    let mut block: Vec<u8> = Vec::new();
    let mut i: usize = 0;
    while i < data.len()
        invariant
            data@.len() <= 0xffff_ffff,
            i <= data@.len(),
            out@.len() == i,
            forall|j: int| 0 <= j < i ==> out@[j] == xor_ks(key@, data@)[j],
            i % 32 != 0 ==> block@ == ks_block(key@, (i / 32) as nat) && block@.len() == 32,
        decreases data@.len() - i,
    {
        if i % 32 == 0 {
            proof {
                assert(i / 32 <= 0xffff_ffff);
            }
            block = ks_block_exec(key, (i / 32) as u32);
            proof {
                assert(((i / 32) as u32) as nat == (i / 32) as nat);
            }
        }
        proof {
            vstd::arithmetic::div_mod::lemma_mod_bound(i as int, 32);
            assert(block@ == ks_block(key@, (i / 32) as nat));
            assert(block@.len() == 32);
        }
        let b = data[i] ^ block[i % 32];
        proof {
            assert(i as nat / 32 == (i / 32) as nat);
            assert((i as nat % 32) as int == (i % 32) as int);
            assert(b == data@[i as int] ^ ks_byte(key@, i as nat));
            assert(b == xor_ks(key@, data@)[i as int]);
        }
        out.push(b);
        proof {
            lemma_div32_step(i as int);
        }
        i += 1;
    }
    proof {
        assert(out@ =~= xor_ks(key@, data@));
    }
    out
}

/// Computes the digest of `data` followed by a single domain-separation
/// tag byte: one chain-ratchet or key-derivation step.
pub fn tagged_digest(data: &[u8], tag: u8) -> (r: Vec<u8>)
    ensures
        r@ == h256(data@ + seq![tag]),
        r@.len() == 32,
{
    let mut input: Vec<u8> = Vec::new();
    append_bytes(&mut input, data);
    input.push(tag);
    proof {
        assert(input@ =~= data@ + seq![tag]);
    }
    digest32(input.as_slice())
}

/// Computes the integrity tag of `data` under `key`.
pub fn compute_mac(key: &[u8], data: &[u8]) -> (r: Vec<u8>)
    ensures
        r@ == mac_of(key@, data@),
        r@.len() == 32,
{
    let mut input: Vec<u8> = Vec::new();
    append_bytes(&mut input, key);
    input.push(TAG_MAC);
    append_bytes(&mut input, data);
    proof {
        assert(input@ =~= key@ + seq![TAG_MAC] + data@);
    }
    digest32(input.as_slice())
}

} // verus!
