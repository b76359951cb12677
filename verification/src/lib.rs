//! Session- and key-management core for Matrix-style end-to-end encryption.
//!
//! The crate owns the long-lived secret state of a messaging client: an
//! account's identity and one-time keys ([`olm::Account`]), pairwise
//! double-ratchet sessions for one-to-one conversations
//! ([`olm::PairwiseRatchet`], managed by [`olm::OlmSession`]), group ratchet
//! sessions for many-to-many conversations ([`megolm::MegolmSession`]), and
//! the encrypted at-rest ("pickled") form of all of them ([`pickle`]).
//!
//! The low-level primitives — hashing, randomness and base64 text — come
//! from outside crates behind the small set of trusted wrappers in
//! [`utilities`]; everything built on top of them is verified, including
//! the exact wire layouts, the forward-only ratchet advances, and the
//! round trips the public proof functions state.

pub mod bytes;
pub mod cipher;
pub mod megolm;
pub mod olm;
pub mod pickle;
pub mod utilities;

pub use megolm::{MegolmError, MegolmMessage, MegolmSession};
pub use olm::{
    Account, EncryptedMessage, IdentityKeys, OlmError, OlmSession, OneTimeKey, PairwiseRatchet,
};
pub use utilities::{
    base64_decode, base64_encode, generate_key_pair, generate_signing_key_pair, random_bytes,
    sha256, sign, verify, KeyPair, UtilityError,
};
