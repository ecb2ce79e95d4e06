use routing::crypto::{PublicEncryptKey, PublicSignKey};
use routing::name_type::NameType;
use routing::public_id::PublicId;

fn random_public_id() -> PublicId {
    let (sign_pk, _) = sodiumoxide::crypto::sign::gen_keypair();
    let (box_pk, _) = sodiumoxide::crypto::box_::gen_keypair();
    PublicId::new(PublicEncryptKey(box_pk.0), PublicSignKey(sign_pk.0))
}

fn random_name() -> NameType {
    let mut bytes = [0u8; 64];
    sodiumoxide::randombytes::randombytes_into(&mut bytes);
    NameType::new(bytes)
}

#[test]
fn assign_relocated_name_public_id() {
    let before = random_public_id();
    let original_name = before.name();
    assert_eq!(
        original_name,
        NameType::new(sodiumoxide::crypto::hash::sha512::hash(&before.signing_public_key().0[..]).0)
    );
    assert!(!before.is_relocated());
    let relocated_name: NameType = random_name();
    let mut relocated = before.clone();
    relocated.assign_relocated_name(relocated_name.clone());
    assert!(relocated.is_relocated());
    assert_eq!(before.signing_public_key(), relocated.signing_public_key());
    assert_eq!(relocated.client_name(), original_name);
    assert_eq!(relocated.name(), relocated_name);
}

#[test]
fn public_ids_compare_by_keys_and_name() {
    let a = random_public_id();
    let mut b = a;
    assert!(routing::public_id::same_public_id(&a, &b));
    b.set_name(random_name());
    assert!(!routing::public_id::same_public_id(&a, &b));
    assert_eq!(a.encrypting_public_key(), b.encrypting_public_key());
}
