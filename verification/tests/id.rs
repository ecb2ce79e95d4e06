use routing::crypto::{PublicEncryptKey, PublicSignKey, SecretEncryptKey, SecretSignKey};
use routing::id::{name_in_range, names_less, FullId, PublicId};
use tiny_keccak::Hasher;

fn sha3(data: &[u8]) -> [u8; 32] {
    let mut hasher = tiny_keccak::Sha3::v256();
    hasher.update(data);
    let mut out = [0u8; 32];
    hasher.finalize(&mut out);
    out
}

#[test]
fn public_id_order() {
    let pub_id_1 = *FullId::new().public_id();
    let pub_id_2;
    loop {
        let temp_pub_id = *FullId::new().public_id();
        if temp_pub_id.name() > pub_id_1.name()
            && temp_pub_id.signing_public_key() < pub_id_1.signing_public_key()
            && temp_pub_id.encrypting_public_key() < pub_id_1.encrypting_public_key()
        {
            pub_id_2 = temp_pub_id;
            break;
        }
    }
    assert!(pub_id_1 < pub_id_2);
}

#[test]
fn serialisation() {
    let full_id = FullId::new();
    let public_id = full_id.public_id();
    let keys = (
        public_id.encrypting_public_key().0,
        public_id.signing_public_key().0,
    );
    let serialised = maidsafe_utilities::serialisation::serialise(&keys).unwrap();
    let parsed: ([u8; 32], [u8; 32]) =
        maidsafe_utilities::serialisation::deserialise(&serialised).unwrap();
    let rebuilt = PublicId::new(PublicEncryptKey(parsed.0), PublicSignKey(parsed.1));
    assert_eq!(*public_id, rebuilt);
}

#[test]
fn name_is_sha3_of_sign_key() {
    let sign_key = PublicSignKey([7u8; 32]);
    let id = PublicId::new(PublicEncryptKey([1u8; 32]), sign_key);
    assert_eq!(*id.name(), sha3(&[7u8; 32]));
    assert_ne!(*id.name(), [7u8; 32]);
    assert_eq!(id.signing_public_key().0, [7u8; 32]);
    assert_eq!(id.encrypting_public_key().0, [1u8; 32]);
}

#[test]
fn with_keys_keeps_keys() {
    let full_id = FullId::with_keys(
        (PublicEncryptKey([2u8; 32]), SecretEncryptKey([3u8; 32])),
        (PublicSignKey([4u8; 32]), SecretSignKey([5u8; 64])),
    );
    assert_eq!(full_id.encrypting_private_key().0, [3u8; 32]);
    assert_eq!(full_id.signing_private_key().0.to_vec(), vec![5u8; 64]);
    assert_eq!(full_id.public_id().signing_public_key().0, [4u8; 32]);
    assert_eq!(*full_id.public_id().name(), sha3(&[4u8; 32]));
}

#[test]
fn fresh_ids_differ_and_are_named_by_their_keys() {
    let a = FullId::new();
    let b = FullId::default();
    assert_ne!(a.public_id(), b.public_id());
    assert_eq!(*a.public_id().name(), sha3(&a.public_id().signing_public_key().0));
}

#[test]
fn public_id_mut_replaces_the_identity() {
    let mut a = FullId::new();
    let b = FullId::new();
    let secret = a.signing_private_key().0.to_vec();
    *a.public_id_mut() = *b.public_id();
    assert_eq!(a.public_id(), b.public_id());
    assert_eq!(a.signing_private_key().0.to_vec(), secret);
}

#[test]
fn name_order_and_range() {
    let low = [0u8; 32];
    let mut mid = [0u8; 32];
    mid[31] = 1;
    let mut high = [0u8; 32];
    high[0] = 1;
    assert!(names_less(&low, &mid));
    assert!(names_less(&mid, &high));
    assert!(!names_less(&high, &mid));
    assert!(!names_less(&mid, &mid));
    assert!(name_in_range(&mid, &low, &high));
    assert!(name_in_range(&low, &low, &high));
    assert!(name_in_range(&high, &low, &high));
    assert!(!name_in_range(&high, &low, &mid));
    assert!(!name_in_range(&low, &mid, &high));
}
