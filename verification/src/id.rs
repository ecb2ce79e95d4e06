//! Network identities named by the SHA3-256 digest of their signing key.
//!
//! A `PublicId` holds the public keys and the name derived from the signing key; the name is
//! never carried separately, so an identity rebuilt from its keys (as when it is read back from
//! the wire) has the same name.  A `FullId` adds the secret halves of both key pairs.
use crate::crypto::{
    gen_encrypt_keypair, gen_sign_keypair, keys_match, sha3_256, sha3_256_digest, PublicEncryptKey,
    PublicSignKey, SecretEncryptKey, SecretSignKey,
};
use vstd::prelude::*;

verus! {

/// Number of bytes in a name.
pub const XOR_NAME_LEN: usize = 32;

/// `a` comes strictly before `b` in the lexicographic order of byte strings, looking from
/// index `k` on.
pub open spec fn bytes_less_from(a: Seq<u8>, b: Seq<u8>, k: int) -> bool
    decreases a.len() - k,
{
    if k >= a.len() || k >= b.len() {
        false
    } else if a[k] != b[k] {
        a[k] < b[k]
    } else {
        bytes_less_from(a, b, k + 1)
    }
}

/// `a` comes strictly before `b` in the order of names.
pub open spec fn name_less(a: Seq<u8>, b: Seq<u8>) -> bool {
    bytes_less_from(a, b, 0)
}

/// `name` lies in the interval from `start` to `end`, both ends included.
pub open spec fn in_range(name: Seq<u8>, start: Seq<u8>, end: Seq<u8>) -> bool {
    !name_less(name, start) && !name_less(end, name)
}

/// Returns true if `a` comes strictly before `b` in the order of names.
pub fn names_less(a: &[u8; 32], b: &[u8; 32]) -> (r: bool)
    ensures
        r == name_less(a@, b@),
{
    let mut i: usize = 0;
    while i < XOR_NAME_LEN
        invariant
            0 <= i <= 32,
            a@.len() == 32,
            b@.len() == 32,
            name_less(a@, b@) == bytes_less_from(a@, b@, i as int),
        decreases 32 - i,
    {
        if a[i] != b[i] {
            return a[i] < b[i];
        }
        i = i + 1;
    }
    false
}

/// Returns true if `name` lies in the interval from `start` to `end`, both ends included.
pub fn name_in_range(name: &[u8; 32], start: &[u8; 32], end: &[u8; 32]) -> (r: bool)
    ensures
        r == in_range(name@, start@, end@),
{
    !names_less(name, start) && !names_less(end, name)
}

/// Network identity: a name and the public keys; the name is derived from the signing key.
///
/// The order compares names first, then signing keys, then encryption keys.
#[derive(Clone, Copy, Debug, PartialEq, Eq, PartialOrd, Ord, Hash)]
pub struct PublicId {
    name: [u8; 32],
    public_sign_key: PublicSignKey,
    public_encrypt_key: PublicEncryptKey,
}

impl PublicId {
    /// The name is the digest of the signing key.
    #[verifier::type_invariant]
    pub closed spec fn wf(self) -> bool {
        self.name@ == sha3_256_digest(self.public_sign_key@)
    }

    /// The name.
    pub closed spec fn name_view(self) -> Seq<u8> {
        self.name@
    }

    /// The public signing key.
    pub closed spec fn sign_key_view(self) -> Seq<u8> {
        self.public_sign_key@
    }

    /// The public encryption key.
    pub closed spec fn encrypt_key_view(self) -> Seq<u8> {
        self.public_encrypt_key@
    }

    /// The name derived from a signing key.
    fn name_from_key(public_sign_key: &PublicSignKey) -> (r: [u8; 32])
        ensures
            r@ == sha3_256_digest(public_sign_key@),
    {
        sha3_256(&public_sign_key.0)
    }

    /// The identity with the given keys, named by the digest of the signing key.  Reading an
    /// identity back from its serialised keys goes through here.
    pub fn new(public_encrypt_key: PublicEncryptKey, public_sign_key: PublicSignKey) -> (r: PublicId)
        ensures
            r.encrypt_key_view() == public_encrypt_key@,
            r.sign_key_view() == public_sign_key@,
            r.name_view() == sha3_256_digest(public_sign_key@),
    {
        let name = Self::name_from_key(&public_sign_key);
        PublicId { name, public_sign_key, public_encrypt_key }
    }

    /// The name.
    pub fn name(&self) -> (r: &[u8; 32])
        ensures
            r@ == self.name_view(),
            r@ == sha3_256_digest(self.sign_key_view()),
    {
        proof {
            use_type_invariant(self);
        }
        &self.name
    }

    /// The public encryption key.
    pub fn encrypting_public_key(&self) -> (r: &PublicEncryptKey)
        ensures
            r@ == self.encrypt_key_view(),
    {
        &self.public_encrypt_key
    }

    /// The public signing key.
    pub fn signing_public_key(&self) -> (r: &PublicSignKey)
        ensures
            r@ == self.sign_key_view(),
    {
        &self.public_sign_key
    }
}

/// Law: the name of an identity is fixed by its signing key, so two identities with the same
/// signing key (such as one and its copy read back from the wire) have the same name.
pub proof fn law_name_follows_sign_key(a: PublicId, b: PublicId)
    requires
        a.wf(),
        b.wf(),
        a.sign_key_view() == b.sign_key_view(),
    ensures
        a.name_view() == b.name_view(),
        a.name_view() == sha3_256_digest(a.sign_key_view()),
{
}

/// Network identity with the secret halves of both key pairs.
#[derive(Clone)]
pub struct FullId {
    public_id: PublicId,
    private_encrypt_key: SecretEncryptKey,
    private_sign_key: SecretSignKey,
}

impl FullId {
    /// The public identity.
    pub closed spec fn public_id_spec(self) -> PublicId {
        self.public_id
    }

    /// The secret signing key.
    pub closed spec fn sign_secret_view(self) -> Seq<u8> {
        self.private_sign_key@
    }

    /// The secret encryption key.
    pub closed spec fn encrypt_secret_view(self) -> Seq<u8> {
        self.private_encrypt_key@
    }

    /// An identity with freshly generated key pairs; its secret signing key signs what its
    /// public signing key verifies.
    pub fn new() -> (r: FullId)
        ensures
            r.public_id_spec().name_view() == sha3_256_digest(r.public_id_spec().sign_key_view()),
            keys_match(r.public_id_spec().sign_key_view(), r.sign_secret_view()),
    {
        let encrypt_keys = gen_encrypt_keypair();
        let sign_keys = gen_sign_keypair();
        FullId::with_keys(encrypt_keys, sign_keys)
    }

    /// An identity with the given key pairs.
    pub fn with_keys(
        encrypt_keys: (PublicEncryptKey, SecretEncryptKey),
        sign_keys: (PublicSignKey, SecretSignKey),
    ) -> (r: FullId)
        ensures
            r.public_id_spec().encrypt_key_view() == encrypt_keys.0@,
            r.public_id_spec().sign_key_view() == sign_keys.0@,
            r.public_id_spec().name_view() == sha3_256_digest(sign_keys.0@),
            r.encrypt_secret_view() == encrypt_keys.1@,
            r.sign_secret_view() == sign_keys.1@,
    {
        FullId {
            public_id: PublicId::new(encrypt_keys.0, sign_keys.0),
            private_encrypt_key: encrypt_keys.1,
            private_sign_key: sign_keys.1,
        }
    }

    /// The public identity.
    pub fn public_id(&self) -> (r: &PublicId)
        ensures
            *r == self.public_id_spec(),
    {
        &self.public_id
    }

    /// The public identity, for replacing it.
    pub fn public_id_mut(&mut self) -> (r: &mut PublicId)
        ensures
            *r == old(self).public_id_spec(),
            final(self).public_id_spec() == *final(r),
            final(self).sign_secret_view() == old(self).sign_secret_view(),
            final(self).encrypt_secret_view() == old(self).encrypt_secret_view(),
    {
        &mut self.public_id
    }

    /// The secret signing key.
    pub fn signing_private_key(&self) -> (r: &SecretSignKey)
        ensures
            r@ == self.sign_secret_view(),
    {
        &self.private_sign_key
    }

    /// The secret encryption key.
    pub fn encrypting_private_key(&self) -> (r: &SecretEncryptKey)
        ensures
            r@ == self.encrypt_secret_view(),
    {
        &self.private_encrypt_key
    }
}

impl Default for FullId {
    fn default() -> (r: FullId)
        ensures
            r.public_id_spec().name_view() == sha3_256_digest(r.public_id_spec().sign_key_view()),
            keys_match(r.public_id_spec().sign_key_view(), r.sign_secret_view()),
    {
        FullId::new()
    }
}

} // verus!
