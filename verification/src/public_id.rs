//! The public identity of a node: its keys and its network name.
use crate::crypto::{sha512, sha512_digest, PublicEncryptKey, PublicSignKey};
use crate::name_type::{names_equal, NameType};
use vstd::prelude::*;

verus! {

/// The name a client is known by before it is relocated: the SHA-512 digest of its public
/// signing key.
pub open spec fn client_name_of(key: Seq<u8>) -> Seq<u8> {
    sha512_digest(key)
}

/// Computes the name derived from a public signing key.
pub fn public_key_to_client_name(key: &PublicSignKey) -> (r: NameType)
    ensures
        r@ == client_name_of(key@),
{
    let digest = sha512(&key.0);
    NameType::new(digest)
}

/// Network identity: public keys and the current name.
#[derive(Clone, Copy, Debug, PartialEq, Eq, PartialOrd, Ord)]
pub struct PublicId {
    public_encrypt_key: PublicEncryptKey,
    public_sign_key: PublicSignKey,
    name: NameType,
}

/// Every name held by an identity has the length of a name.
pub broadcast proof fn lemma_name_len(id: PublicId)
    ensures
        #[trigger] id.name_view().len() == 64,
{
}

impl PublicId {
    /// The current name.
    pub closed spec fn name_view(&self) -> Seq<u8> {
        self.name@
    }

    /// The current name, as a name.
    pub closed spec fn name_spec(&self) -> NameType {
        self.name
    }

    /// Law: the name's bytes are the name's view.
    pub proof fn lemma_name_spec(&self)
        ensures
            self.name_spec()@ == self.name_view(),
    {
    }

    /// The public signing key.
    pub closed spec fn sign_key_view(&self) -> Seq<u8> {
        self.public_sign_key@
    }

    /// The public signing key, as a key.
    pub closed spec fn sign_key_spec(&self) -> PublicSignKey {
        self.public_sign_key
    }

    /// The public encryption key.
    pub closed spec fn encrypt_key_view(&self) -> Seq<u8> {
        self.public_encrypt_key@
    }


    /// Creates an identity for the given keys, named by the digest of the signing key.
    pub fn new(public_encrypt_key: PublicEncryptKey, public_sign_key: PublicSignKey) -> (r: PublicId)
        ensures
            r.encrypt_key_view() == public_encrypt_key@,
            r.sign_key_view() == public_sign_key@,
            r.name_view() == client_name_of(public_sign_key@),
    {
        let name = public_key_to_client_name(&public_sign_key);
        PublicId { public_encrypt_key, public_sign_key, name }
    }

    /// The current name.
    pub fn name(&self) -> (r: NameType)
        ensures
            r@ == self.name_view(),
            r == self.name_spec(),
    {
        self.name
    }

    /// Replaces the name.
    pub fn set_name(&mut self, name: NameType)
        ensures
            final(self).name_view() == name@,
            final(self).sign_key_view() == old(self).sign_key_view(),
            final(self).encrypt_key_view() == old(self).encrypt_key_view(),
    {
        self.name = name;
    }

    /// The name derived from the signing key, i.e. the name before any relocation.
    pub fn client_name(&self) -> (r: NameType)
        ensures
            r@ == client_name_of(self.sign_key_view()),
    {
        public_key_to_client_name(&self.public_sign_key)
    }

    /// Replaces the name with the one the network relocated this node to.
    pub fn assign_relocated_name(&mut self, relocated_name: NameType)
        ensures
            final(self).name_view() == relocated_name@,
            final(self).sign_key_view() == old(self).sign_key_view(),
            final(self).encrypt_key_view() == old(self).encrypt_key_view(),
    {
        self.name = relocated_name;
    }

    /// The public signing key.
    pub fn signing_public_key(&self) -> (r: PublicSignKey)
        ensures
            r@ == self.sign_key_view(),
            r == self.sign_key_spec(),
    {
        self.public_sign_key
    }

    /// The public encryption key.
    pub fn encrypting_public_key(&self) -> (r: PublicEncryptKey)
        ensures
            r@ == self.encrypt_key_view(),
    {
        self.public_encrypt_key
    }

    /// Returns true if the name no longer is the one derived from the signing key.
    pub fn is_relocated(&self) -> (r: bool)
        ensures
            r == (self.name_view() != client_name_of(self.sign_key_view())),
    {
        let client = self.client_name();
        !names_equal(&self.name, &client)
    }
}

/// Returns true if the two identities are the same: same keys and same name.
pub fn same_public_id(a: &PublicId, b: &PublicId) -> (r: bool)
    ensures
        r == (*a == *b),
{
    let e1 = crate::crypto::sign_keys_equal(&a.public_sign_key, &b.public_sign_key);
    let e2 = encrypt_keys_equal(&a.public_encrypt_key, &b.public_encrypt_key);
    let e3 = names_equal(&a.name, &b.name);
    proof {
        if e1 {
            vstd::array::axiom_array_ext_equal(a.public_sign_key.0, b.public_sign_key.0);
            assert(a.public_sign_key.0 =~= b.public_sign_key.0);
        }
        if e2 {
            vstd::array::axiom_array_ext_equal(a.public_encrypt_key.0, b.public_encrypt_key.0);
            assert(a.public_encrypt_key.0 =~= b.public_encrypt_key.0);
        }
        if e3 {
            vstd::array::axiom_array_ext_equal(a.name.0, b.name.0);
            assert(a.name.0 =~= b.name.0);
        }
    }
    e1 && e2 && e3
}

/// Returns true if the two encryption keys are the same.
fn encrypt_keys_equal(a: &PublicEncryptKey, b: &PublicEncryptKey) -> (r: bool)
    ensures
        r == (a@ == b@),
{
    let mut i: usize = 0;
    while i < 32
        invariant
            0 <= i <= 32,
            a@.len() == 32,
            b@.len() == 32,
            forall|m: int| 0 <= m < i ==> a@[m] == b@[m],
        decreases 32 - i,
    {
        if a.0[i] != b.0[i] {
            return false;
        }
        i = i + 1;
    }
    assert(a@ =~= b@);
    true
}

/// Law: a relocated identity keeps its keys and its client name, and carries the new name.
pub proof fn law_relocation_keeps_keys(before: PublicId, after: PublicId, relocated: Seq<u8>)
    requires
        after.name_view() == relocated,
        after.sign_key_view() == before.sign_key_view(),
    ensures
        client_name_of(after.sign_key_view()) == client_name_of(before.sign_key_view()),
        relocated != client_name_of(before.sign_key_view()) ==> after.name_view() != client_name_of(
            after.sign_key_view(),
        ),
{
}

impl crate::assoc_map::KeyEq for PublicId {
    fn key_eq(&self, other: &Self) -> (r: bool) {
        same_public_id(self, other)
    }
}

} // verus!
