//! Hashing, Merkle roots and Ed25519 signatures, computed by `sha2`,
//! `rs_merkle` and `ed25519-dalek`.

use vstd::prelude::*;

use ed25519_dalek::Signer;
use sha2::Digest;

verus! {

/// The SHA-256 digest of `data`, as `sha2::Sha256` computes it.
pub uninterp spec fn sha256(data: Seq<u8>) -> Seq<u8>;

/// The root that `rs_merkle::MerkleTree::<rs_merkle::algorithms::Sha256>`
/// builds over the leaf hashes `leaves`; `None` for a tree without leaves.
pub uninterp spec fn merkle_root_of(leaves: Seq<Seq<u8>>) -> Option<Seq<u8>>;

/// The Ed25519 signature (RFC 8032, deterministic) of `message` under the
/// 32-byte secret key `secret`, as `ed25519_dalek::SigningKey` computes it.
pub uninterp spec fn ed25519_signature(secret: Seq<u8>, message: Seq<u8>) -> Seq<u8>;

/// The Ed25519 public (verifying) key of the 32-byte secret key `secret`.
pub uninterp spec fn ed25519_public_key(secret: Seq<u8>) -> Seq<u8>;

/// Calls `sha2::Sha256::new()`, `update(data)` and `finalize()`. Trusted: the
/// 32-byte digest is the one named by `sha256`.
#[verifier::external_body]
fn sha256_digest(data: &[u8]) -> (digest: [u8; 32])
    ensures
        digest@ == sha256(data@),
{
    let mut hasher = sha2::Sha256::new();
    hasher.update(data);
    hasher.finalize().into()
}

/// SHA-256 hashing of leaf data.
#[derive(Clone, Copy, Debug)]
pub struct Sha256Hasher {}

impl Sha256Hasher {
    /// The SHA-256 digest of `data`.
    pub fn hash(data: &[u8]) -> (digest: [u8; 32])
        ensures
            digest@ == sha256(data@),
    {
        sha256_digest(data)
    }
}

/// The hashes of a list of leaves, as byte sequences.
pub open spec fn leaf_views(leaves: Seq<[u8; 32]>) -> Seq<Seq<u8>> {
    leaves.map_values(|l: [u8; 32]| l@)
}

/// Calls `rs_merkle::MerkleTree::<rs_merkle::algorithms::Sha256>::from_leaves`
/// on `leaves` and then `root()`. Trusted: the root is the one named by
/// `merkle_root_of`; `rs_merkle`'s source commits nothing for an empty list
/// of leaves and so has no root exactly then; a single leaf is carried up
/// unhashed (`concat_and_hash` without a right node returns the left one), so
/// it is its own root. (Its `Sha256` hashes with `sha2::Sha256` as
/// `Sha256Hasher` does.)
#[verifier::external_body]
pub(crate) fn merkle_root(leaves: &Vec<[u8; 32]>) -> (root: Option<[u8; 32]>)
    ensures
        match root {
            Some(r) => merkle_root_of(leaf_views(leaves@)) == Some(r@),
            None => merkle_root_of(leaf_views(leaves@)) is None,
        },
        root is None <==> leaves@.len() == 0,
        leaves@.len() == 1 ==> root == Some(leaves@[0]),
{
    let tree = rs_merkle::MerkleTree::<rs_merkle::algorithms::Sha256>::from_leaves(leaves);
    tree.root()
}

/// Calls `ed25519_dalek::SigningKey::from_bytes(secret)` and `sign(message)`,
/// then `to_bytes()` on the signature. Trusted: Ed25519 signing is
/// deterministic, and the 64 bytes are the ones named by `ed25519_signature`.
#[verifier::external_body]
pub(crate) fn ed25519_sign(secret: &[u8; 32], message: &[u8]) -> (sig: [u8; 64])
    ensures
        sig@ == ed25519_signature(secret@, message@),
{
    let key = ed25519_dalek::SigningKey::from_bytes(secret);
    key.sign(message).to_bytes()
}

/// Calls `ed25519_dalek::SigningKey::from_bytes(secret)`, `verifying_key()`
/// and `to_bytes()`. Trusted: the 32 bytes are the ones named by
/// `ed25519_public_key`.
#[verifier::external_body]
pub(crate) fn ed25519_verifying_key(secret: &[u8; 32]) -> (pk: [u8; 32])
    ensures
        pk@ == ed25519_public_key(secret@),
{
    let key = ed25519_dalek::SigningKey::from_bytes(secret);
    key.verifying_key().to_bytes()
}

/// Calls `ed25519_dalek::SigningKey::generate(&mut rand::rngs::OsRng)` and
/// `to_bytes()`. The secret comes from the operating system's random source;
/// nothing is promised of its value. (`OsRng` panics if that source fails.)
#[verifier::external_body]
pub(crate) fn generate_secret_key() -> [u8; 32] {
    ed25519_dalek::SigningKey::generate(&mut rand::rngs::OsRng).to_bytes()
}

} // verus!
