use routing::crypto::{PublicEncryptKey, PublicSignKey, SecretSignKey, Signature};
use routing::direct_messages::{encode, Churn, Content, DirectMessage, Hello};
use routing::name_type::NameType;
use routing::public_id::PublicId;
use routing::types::Address;

fn keys() -> (PublicSignKey, SecretSignKey, PublicId) {
    let (sign_pk, sign_sk) = sodiumoxide::crypto::sign::gen_keypair();
    let (box_pk, _) = sodiumoxide::crypto::box_::gen_keypair();
    let pk = PublicSignKey(sign_pk.0);
    (pk, SecretSignKey(sign_sk.0), PublicId::new(PublicEncryptKey(box_pk.0), pk))
}

#[test]
fn signed_message_verifies_with_the_signers_key_only() {
    let (pk, sk, id) = keys();
    let (other_pk, _, _) = keys();
    let content = Content::Hello(Hello {
        address: Address::Client(pk),
        public_id: id,
        confirmed_you: None,
    });
    let message = DirectMessage::new(content.clone(), &sk);
    assert_eq!(message.content(), &content);
    assert!(message.verify_signature(&pk));
    assert!(!message.verify_signature(&other_pk));
    assert_eq!(message.encoded_content(), encode(&content));
    let expected = sodiumoxide::crypto::sign::sign_detached(
        &encode(&content),
        &sodiumoxide::crypto::sign::SecretKey(sk.0),
    );
    assert_eq!(message.signature().0, expected.to_bytes());
}

#[test]
fn encodings_of_different_contents_differ() {
    let churn_a = Content::Churn(Churn { close_group: vec![NameType([1; 64])] });
    let churn_b = Content::Churn(Churn { close_group: vec![NameType([1; 64]), NameType([2; 64])] });
    assert_ne!(encode(&churn_a), encode(&churn_b));
    assert!(!encode(&churn_a).is_empty());
}

#[test]
fn received_message_is_checked_against_its_signature() {
    let (pk, sk, _) = keys();
    let content = Content::Churn(Churn { close_group: vec![NameType([3u8; 64])] });
    let signed = DirectMessage::new(content.clone(), &sk);
    let received = DirectMessage::from_parts(content.clone(), *signed.signature());
    assert!(received.verify_signature(&pk));
    let tampered = DirectMessage::from_parts(
        Content::Churn(Churn { close_group: vec![] }),
        *signed.signature(),
    );
    assert!(!tampered.verify_signature(&pk));
    // A signature whose scalar is not reduced is refused, not a panic.
    let malformed = DirectMessage::from_parts(content, Signature([0xffu8; 64]));
    assert!(!malformed.verify_signature(&pk));
}
