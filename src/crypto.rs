//! The cryptographic primitives the ledger relies on: BLAKE3 for block
//! identity, Ed25519 for authorising transaction inputs, and the operating
//! system's randomness for key generation and peer discovery.

use vstd::prelude::*;
use rand::Rng;
use rand::RngCore;
use ed25519_dalek::Signer;

verus! {

/// Length in bytes of a BLAKE3 digest.
pub const DIGEST_LEN: usize = 32;

/// The BLAKE3 digest of a byte string.
pub uninterp spec fn blake3_of(data: Seq<u8>) -> Seq<u8>;

/// Whether Ed25519 strict verification accepts `sig` on `msg` under `key`
/// (false whenever `key` or `sig` does not parse).
pub uninterp spec fn ed25519_accepts(key: Seq<u8>, msg: Seq<u8>, sig: Seq<u8>) -> bool;

/// The Ed25519 public key that belongs to a 32-byte secret key.
pub uninterp spec fn ed25519_public_of(secret: Seq<u8>) -> Seq<u8>;

/// The (deterministic) Ed25519 signature of `msg` under a 32-byte secret key.
pub uninterp spec fn ed25519_signature_of(secret: Seq<u8>, msg: Seq<u8>) -> Seq<u8>;

/// Relies on `blake3::hash`: the digest is a function of the input bytes
/// and is `blake3::OUT_LEN` (32) bytes long.
#[verifier::external_body]
pub(crate) fn blake3_digest(data: &Vec<u8>) -> (r: Vec<u8>)
    ensures
        r@ == blake3_of(data@),
        r@.len() == DIGEST_LEN,
{
    let h: [u8; blake3::OUT_LEN] = blake3::hash(data.as_slice()).into();
    h.to_vec()
}

/// Relies on `ed25519_dalek::PublicKey::verify_strict`: the verdict depends on
/// the key, message and signature bytes alone; bytes that do not parse as a
/// key or a signature are rejected.
#[verifier::external_body]
pub(crate) fn ed25519_verify(key: &Vec<u8>, msg: &Vec<u8>, sig: &Vec<u8>) -> (r: bool)
    ensures
        r == ed25519_accepts(key@, msg@, sig@),
{
    let pk = match ed25519_dalek::PublicKey::from_bytes(key.as_slice()) {
        Ok(pk) => pk,
        Err(_) => return false,
    };
    let signature = match ed25519_dalek::Signature::from_bytes(sig.as_slice()) {
        Ok(s) => s,
        Err(_) => return false,
    };
    pk.verify_strict(msg.as_slice(), &signature).is_ok()
}

/// Relies on `ed25519_dalek::PublicKey::from(&SecretKey)`: the public key is a
/// function of the secret and is 32 bytes long.
#[verifier::external_body]
pub(crate) fn ed25519_public_key(secret: &Vec<u8>) -> (r: Vec<u8>)
    requires
        secret@.len() == 32,
    ensures
        r@ == ed25519_public_of(secret@),
        r@.len() == 32,
{
    let sk = ed25519_dalek::SecretKey::from_bytes(secret.as_slice()).unwrap();
    ed25519_dalek::PublicKey::from(&sk).to_bytes().to_vec()
}

/// Relies on `ed25519_dalek::Keypair::sign`: Ed25519 signing is deterministic,
/// the signature being a function of the secret key and the message, 64 bytes long.
#[verifier::external_body]
pub(crate) fn ed25519_sign(secret: &Vec<u8>, msg: &Vec<u8>) -> (r: Vec<u8>)
    requires
        secret@.len() == 32,
    ensures
        r@ == ed25519_signature_of(secret@, msg@),
        r@.len() == 64,
{
    let sk = ed25519_dalek::SecretKey::from_bytes(secret.as_slice()).unwrap();
    let pk = ed25519_dalek::PublicKey::from(&sk);
    let kp = ed25519_dalek::Keypair { secret: sk, public: pk };
    kp.sign(msg.as_slice()).to_bytes().to_vec()
}

/// Relies on `rand::rngs::OsRng::fill_bytes`: 32 fresh random bytes.
#[verifier::external_body]
pub(crate) fn random_secret() -> (r: Vec<u8>)
    ensures
        r@.len() == 32,
{
    let mut bytes = [0u8; 32];
    rand::rngs::OsRng.fill_bytes(&mut bytes);
    bytes.to_vec()
}

/// Relies on `rand::Rng::gen_range` on the thread-local generator: a value in
/// `0..n` (it panics on an empty range, which `requires` rules out).
#[verifier::external_body]
pub(crate) fn random_below(n: usize) -> (r: usize)
    requires
        n > 0,
    ensures
        r < n,
{
    rand::thread_rng().gen_range(0, n)
}

} // verus!
