//! A peer met outside the routing table: its label, its endpoint and, once known, its identity.
use crate::mock_network::Endpoint;
use crate::public_id::PublicId;
use crate::routing_core::ConnectionName;
use vstd::prelude::*;

verus! {

/// A connected peer.
#[derive(Clone, Copy, Debug, PartialEq, Eq)]
pub struct Peer {
    identity: ConnectionName,
    endpoint: Endpoint,
    public_id: Option<PublicId>,
}

impl Peer {
    /// The label of the peer.
    pub closed spec fn identity_spec(self) -> ConnectionName {
        self.identity
    }

    /// The endpoint the peer is reached at.
    pub closed spec fn endpoint_spec(self) -> Endpoint {
        self.endpoint
    }

    /// The peer's public identity, if known.
    pub closed spec fn public_id_spec(self) -> Option<PublicId> {
        self.public_id
    }

    /// A peer with the given label, endpoint and identity.
    pub fn new(identity: ConnectionName, endpoint: Endpoint, public_id: Option<PublicId>) -> (r: Peer)
        ensures
            r.identity_spec() == identity,
            r.endpoint_spec() == endpoint,
            r.public_id_spec() == public_id,
    {
        Peer { identity, endpoint, public_id }
    }

    /// The label of the peer.
    pub fn identity(&self) -> (r: &ConnectionName)
        ensures
            *r == self.identity_spec(),
    {
        &self.identity
    }

    /// The endpoint the peer is reached at.
    pub fn endpoint(&self) -> (r: &Endpoint)
        ensures
            *r == self.endpoint_spec(),
    {
        &self.endpoint
    }

    /// The peer's public identity, if known.
    pub fn public_id(&self) -> (r: &Option<PublicId>)
        ensures
            *r == self.public_id_spec(),
    {
        &self.public_id
    }
}

} // verus!
