//! Direct messages: signed messages with no header, exchanged over a single connection.  They
//! cannot be sent on over the routing network.
use crate::crypto::{
    ed25519_signature, ed25519_valid, keys_match, sign_detached, verify_detached, PublicSignKey,
    SecretSignKey, Signature,
};
use crate::name_type::NameType;
use crate::public_id::PublicId;
use crate::types::Address;
use vstd::prelude::*;

verus! {

/// Version of the direct message format.
pub const VERSION_NUMBER: u8 = 0;

/// First message on a new connection: who we are, and whether we have confirmed the peer.
#[derive(Clone, Debug, PartialEq, Eq, PartialOrd, Ord)]
pub struct Hello {
    pub address: Address,
    pub public_id: PublicId,
    pub confirmed_you: Option<Address>,
}

/// Notification of a change in our close group.
#[derive(Clone, Debug, PartialEq, Eq, PartialOrd, Ord)]
pub struct Churn {
    pub close_group: Vec<NameType>,
}

/// What a direct message carries.
#[derive(Clone, Debug, PartialEq, Eq, PartialOrd, Ord)]
pub enum Content {
    Hello(Hello),
    Churn(Churn),
}

/// A direct message: content and the sender's signature over its encoding.
#[derive(Clone, Debug, PartialEq, Eq)]
pub struct DirectMessage {
    content: Content,
    signature: Signature,
}

/// Encoding of a 64 bit number, most significant byte first.
pub open spec fn encode_u64(x: u64) -> Seq<u8> {
    seq![
        (x >> 56u64) as u8,
        (x >> 48u64) as u8,
        (x >> 40u64) as u8,
        (x >> 32u64) as u8,
        (x >> 24u64) as u8,
        (x >> 16u64) as u8,
        (x >> 8u64) as u8,
        x as u8,
    ]
}

/// Encoding of an address: a tag, then the key or the name.
pub open spec fn encode_address(a: Address) -> Seq<u8> {
    match a {
        Address::Client(key) => seq![0u8] + key@,
        Address::Node(name) => seq![1u8] + name@,
    }
}

/// Encoding of an optional address: a presence tag, then the address.
pub open spec fn encode_optional_address(a: Option<Address>) -> Seq<u8> {
    match a {
        None => seq![0u8],
        Some(address) => seq![1u8] + encode_address(address),
    }
}

/// Encoding of an identity: encryption key, signing key, name.
pub open spec fn encode_public_id(id: PublicId) -> Seq<u8> {
    id.encrypt_key_view() + id.sign_key_view() + id.name_view()
}

/// Concatenation of the names.
pub open spec fn encode_names(s: Seq<NameType>) -> Seq<u8>
    decreases s.len(),
{
    if s.len() == 0 {
        Seq::empty()
    } else {
        encode_names(s.drop_last()) + s.last()@
    }
}

/// Encoding of a message content: a tag, then the fields in order; the close group is preceded
/// by its length.
pub open spec fn encode_content(c: Content) -> Seq<u8> {
    match c {
        Content::Hello(h) => seq![0u8] + encode_address(h.address) + encode_public_id(h.public_id)
            + encode_optional_address(h.confirmed_you),
        Content::Churn(ch) => seq![1u8] + encode_u64(ch.close_group@.len() as u64) + encode_names(
            ch.close_group@,
        ),
    }
}

/// Appends `bytes` to `out`.
fn push_bytes(out: &mut Vec<u8>, bytes: &[u8])
    ensures
        final(out)@ == old(out)@ + bytes@,
{
    let mut i: usize = 0;
    while i < bytes.len()
        invariant
            0 <= i <= bytes@.len(),
            out@ == old(out)@ + bytes@.take(i as int),
        decreases bytes@.len() - i,
    {
        out.push(bytes[i]);
        i = i + 1;
        assert(out@ =~= old(out)@ + bytes@.take(i as int));
    }
    assert(bytes@.take(bytes@.len() as int) =~= bytes@);
}

fn push_u64(out: &mut Vec<u8>, x: u64)
    ensures
        final(out)@ == old(out)@ + encode_u64(x),
{
    out.push((x >> 56u64) as u8);
    out.push((x >> 48u64) as u8);
    out.push((x >> 40u64) as u8);
    out.push((x >> 32u64) as u8);
    out.push((x >> 24u64) as u8);
    out.push((x >> 16u64) as u8);
    out.push((x >> 8u64) as u8);
    out.push(x as u8);
    assert(out@ =~= old(out)@ + encode_u64(x));
}

fn push_address(out: &mut Vec<u8>, a: &Address)
    ensures
        final(out)@ == old(out)@ + encode_address(*a),
{
    match a {
        Address::Client(key) => {
            out.push(0u8);
            push_bytes(out, &key.0);
            assert(out@ =~= old(out)@ + encode_address(*a));
        },
        Address::Node(name) => {
            out.push(1u8);
            push_bytes(out, &name.0);
            assert(out@ =~= old(out)@ + encode_address(*a));
        },
    }
}

fn push_public_id(out: &mut Vec<u8>, id: &PublicId)
    ensures
        final(out)@ == old(out)@ + encode_public_id(*id),
{
    let encrypt = id.encrypting_public_key();
    let sign = id.signing_public_key();
    let name = id.name();
    push_bytes(out, &encrypt.0);
    push_bytes(out, &sign.0);
    push_bytes(out, &name.0);
    assert(out@ =~= old(out)@ + encode_public_id(*id));
}

fn push_names(out: &mut Vec<u8>, names: &Vec<NameType>)
    ensures
        final(out)@ == old(out)@ + encode_names(names@),
{
    let mut i: usize = 0;
    while i < names.len()
        invariant
            0 <= i <= names@.len(),
            out@ == old(out)@ + encode_names(names@.take(i as int)),
        decreases names@.len() - i,
    {
        let ghost before = out@;
        push_bytes(out, &names[i].0);
        proof {
            let t = names@.take(i + 1);
            assert(t.drop_last() =~= names@.take(i as int));
            assert(t.last() == names@[i as int]);
            assert(out@ =~= old(out)@ + encode_names(t));
        }
        i = i + 1;
    }
    assert(names@.take(names@.len() as int) =~= names@);
}

/// The bytes that are signed: the encoding of the content.
pub fn encode(content: &Content) -> (r: Vec<u8>)
    ensures
        r@ == encode_content(*content),
{
    let mut out: Vec<u8> = Vec::new();
    match content {
        Content::Hello(h) => {
            out.push(0u8);
            push_address(&mut out, &h.address);
            push_public_id(&mut out, &h.public_id);
            match &h.confirmed_you {
                None => {
                    out.push(0u8);
                },
                Some(a) => {
                    out.push(1u8);
                    push_address(&mut out, a);
                },
            }
            assert(out@ =~= encode_content(*content));
        },
        Content::Churn(ch) => {
            out.push(1u8);
            push_u64(&mut out, ch.close_group.len() as u64);
            push_names(&mut out, &ch.close_group);
            assert(out@ =~= encode_content(*content));
        },
    }
    out
}

impl DirectMessage {
    /// The content.
    pub closed spec fn content_view(&self) -> Content {
        self.content
    }

    /// The signature.
    pub closed spec fn signature_view(&self) -> Seq<u8> {
        self.signature@
    }

    /// Signs the encoding of `content` with `private_sign_key`.
    pub fn new(content: Content, private_sign_key: &SecretSignKey) -> (r: DirectMessage)
        ensures
            r.content_view() == content,
            r.signature_view() == ed25519_signature(encode_content(content), private_sign_key@),
    {
        let encoded_content = encode(&content);
        let signature = sign_detached(encoded_content.as_slice(), private_sign_key);
        DirectMessage { content, signature }
    }

    /// A message as it arrives: its content and the signature it carries, which is not checked
    /// here (see `verify_signature`).
    pub fn from_parts(content: Content, signature: Signature) -> (r: DirectMessage)
        ensures
            r.content_view() == content,
            r.signature_view() == signature@,
    {
        DirectMessage { content, signature }
    }

    /// Whether the signature is valid for the encoded content under `public_sign_key`.
    pub fn verify_signature(&self, public_sign_key: &PublicSignKey) -> (r: bool)
        ensures
            r == ed25519_valid(
                self.signature_view(),
                encode_content(self.content_view()),
                public_sign_key@,
            ),
    {
        let encoded_content = self.encoded_content();
        verify_detached(&self.signature, encoded_content.as_slice(), public_sign_key)
    }

    /// The content.
    pub fn content(&self) -> (r: &Content)
        ensures
            *r == self.content_view(),
    {
        &self.content
    }

    /// The signature.
    pub fn signature(&self) -> (r: &Signature)
        ensures
            r@ == self.signature_view(),
    {
        &self.signature
    }

    /// The encoding of the content, i.e. the bytes the signature covers.
    pub fn encoded_content(&self) -> (r: Vec<u8>)
        ensures
            r@ == encode_content(self.content_view()),
    {
        encode(&self.content)
    }
}

/// Law: a message signed with a secret key verifies under the matching public key: what `new`
/// makes with `sk`, `verify_signature` accepts with `pk`.
pub proof fn law_signed_message_verifies(m: DirectMessage, pk: PublicSignKey, sk: SecretSignKey)
    requires
        keys_match(pk@, sk@),
        m.signature_view() == ed25519_signature(encode_content(m.content_view()), sk@),
    ensures
        ed25519_valid(m.signature_view(), encode_content(m.content_view()), pk@),
{
    assert(ed25519_valid(ed25519_signature(encode_content(m.content_view()), sk@), encode_content(m.content_view()), pk@));
}

} // verus!
