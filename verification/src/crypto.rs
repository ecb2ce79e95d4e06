//! Keys, signatures and hashes, held as plain bytes; the cryptography itself is libsodium's.
use vstd::prelude::*;

verus! {

/// Public half of an Ed25519 signing key pair.
#[derive(Clone, Copy, Debug, PartialEq, Eq, PartialOrd, Ord, Hash)]
pub struct PublicSignKey(pub [u8; 32]);

/// Secret half of an Ed25519 signing key pair (seed followed by the public key).
#[derive(Clone, Copy)]
pub struct SecretSignKey(pub [u8; 64]);

/// Public half of a Curve25519 encryption key pair.
#[derive(Clone, Copy, Debug, PartialEq, Eq, PartialOrd, Ord, Hash)]
pub struct PublicEncryptKey(pub [u8; 32]);

/// Secret half of a Curve25519 encryption key pair.
#[derive(Clone, Copy)]
pub struct SecretEncryptKey(pub [u8; 32]);

/// A detached Ed25519 signature.
#[derive(Clone, Copy, Debug, PartialEq, Eq)]
pub struct Signature(pub [u8; 64]);

impl View for PublicSignKey {
    type V = Seq<u8>;

    open spec fn view(&self) -> Seq<u8> {
        self.0@
    }
}

impl View for SecretSignKey {
    type V = Seq<u8>;

    open spec fn view(&self) -> Seq<u8> {
        self.0@
    }
}

impl View for PublicEncryptKey {
    type V = Seq<u8>;

    open spec fn view(&self) -> Seq<u8> {
        self.0@
    }
}

impl View for SecretEncryptKey {
    type V = Seq<u8>;

    open spec fn view(&self) -> Seq<u8> {
        self.0@
    }
}

impl View for Signature {
    type V = Seq<u8>;

    open spec fn view(&self) -> Seq<u8> {
        self.0@
    }
}

/// The SHA-512 digest of `data`.
pub uninterp spec fn sha512_digest(data: Seq<u8>) -> Seq<u8>;

/// The detached Ed25519 signature of `msg` under the secret key `sk`.
pub uninterp spec fn ed25519_signature(msg: Seq<u8>, sk: Seq<u8>) -> Seq<u8>;

/// Whether `sig` is a valid Ed25519 signature of `msg` under the public key `pk`.
pub uninterp spec fn ed25519_valid(sig: Seq<u8>, msg: Seq<u8>, pk: Seq<u8>) -> bool;

/// Hashes `data` with `sodiumoxide::crypto::hash::sha512::hash`; the digest is the value named
/// `sha512_digest` of the input bytes.
#[verifier::external_body]
pub(crate) fn sha512(data: &[u8]) -> (r: [u8; 64])
    ensures
        r@ == sha512_digest(data@),
{
    sodiumoxide::crypto::hash::sha512::hash(data).0
}

/// Signs `msg` with `sodiumoxide::crypto::sign::sign_detached`; Ed25519 signing is
/// deterministic, so the signature is the value named `ed25519_signature` of the message and
/// the key bytes.
#[verifier::external_body]
pub(crate) fn sign_detached(msg: &[u8], sk: &SecretSignKey) -> (r: Signature)
    ensures
        r@ == ed25519_signature(msg@, sk@),
{
    let key = sodiumoxide::crypto::sign::SecretKey(sk.0);
    Signature(sodiumoxide::crypto::sign::sign_detached(msg, &key).to_bytes())
}

/// Checks a detached signature: the bytes are read with `Signature::from_bytes` (which refuses a
/// signature whose scalar is not reduced; that one is invalid) and checked with
/// `sodiumoxide::crypto::sign::verify_detached`.  The answer is the value named `ed25519_valid`
/// of the signature, message and key bytes.
#[verifier::external_body]
pub(crate) fn verify_detached(sig: &Signature, msg: &[u8], pk: &PublicSignKey) -> (r: bool)
    ensures
        r == ed25519_valid(sig@, msg@, pk@),
{
    let key = sodiumoxide::crypto::sign::PublicKey(pk.0);
    match sodiumoxide::crypto::sign::Signature::from_bytes(&sig.0) {
        Ok(signature) => sodiumoxide::crypto::sign::verify_detached(&signature, msg, &key),
        Err(_) => false,
    }
}

/// The SHA3-256 digest of `data`.
pub uninterp spec fn sha3_256_digest(data: Seq<u8>) -> Seq<u8>;

/// Hashes `data` with `tiny_keccak::Sha3::v256` (fed by `update`, read out by `finalize`); the
/// digest is the value named `sha3_256_digest` of the input bytes.
#[verifier::external_body]
pub(crate) fn sha3_256(data: &[u8]) -> (r: [u8; 32])
    ensures
        r@ == sha3_256_digest(data@),
{
    let mut hasher = tiny_keccak::Sha3::v256();
    tiny_keccak::Hasher::update(&mut hasher, data);
    let mut digest = [0u8; 32];
    tiny_keccak::Hasher::finalize(hasher, &mut digest);
    digest
}

/// Every signature made with secret key `sk` verifies under public key `pk`.
pub open spec fn keys_match(pk: Seq<u8>, sk: Seq<u8>) -> bool {
    forall|msg: Seq<u8>| #[trigger] ed25519_valid(ed25519_signature(msg, sk), msg, pk)
}

/// A fresh signing key pair from `sodiumoxide::crypto::sign::gen_keypair`, which draws on the
/// system's randomness.  Nothing is promised of the bytes; as documented, the public key
/// corresponds to the secret key, so what the secret key signs verifies under the public key.
#[verifier::external_body]
pub(crate) fn gen_sign_keypair() -> (r: (PublicSignKey, SecretSignKey))
    ensures
        keys_match(r.0@, r.1@),
{
    let (pk, sk) = sodiumoxide::crypto::sign::gen_keypair();
    (PublicSignKey(pk.0), SecretSignKey(sk.0))
}

/// A fresh encryption key pair from `sodiumoxide::crypto::box_::gen_keypair`, which draws on the
/// system's randomness; nothing is promised of the bytes.
#[verifier::external_body]
pub(crate) fn gen_encrypt_keypair() -> (PublicEncryptKey, SecretEncryptKey) {
    let (pk, sk) = sodiumoxide::crypto::box_::gen_keypair();
    (PublicEncryptKey(pk.0), SecretEncryptKey(sk.0))
}

/// Returns true if the two keys are the same.
pub fn sign_keys_equal(a: &PublicSignKey, b: &PublicSignKey) -> (r: bool)
    ensures
        r == (a@ == b@),
{
    let mut i: usize = 0;
    while i < 32
        invariant
            0 <= i <= 32,
            a@.len() == 32,
            b@.len() == 32,
            forall|m: int| 0 <= m < i ==> a@[m] == b@[m],
        decreases 32 - i,
    {
        if a.0[i] != b.0[i] {
            return false;
        }
        i = i + 1;
    }
    assert(a@ =~= b@);
    true
}

/// Returns true if the two keys are the same key.
pub fn same_sign_key(a: &PublicSignKey, b: &PublicSignKey) -> (r: bool)
    ensures
        r == (*a == *b),
{
    let e = sign_keys_equal(a, b);
    proof {
        if a@ == b@ {
            vstd::array::axiom_array_ext_equal(a.0, b.0);
            assert(a.0 =~= b.0);
        }
    }
    e
}

} // verus!
