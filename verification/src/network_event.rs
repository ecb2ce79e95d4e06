//! Payloads of the events that a section votes on.
use crate::public_id::PublicId;
use crate::sending_targets_cache::Endpoint;
use std::collections::BTreeSet;
use vstd::prelude::*;

verus! {

/// The 256 bit names of the section layer, from the `xor_name` crate.
#[verifier::external_type_specification]
#[verifier::external_body]
pub struct ExXorName(xor_name::XorName);

/// A prefix of the name space, from the `xor_name` crate.
#[verifier::external_type_specification]
#[verifier::external_body]
pub struct ExPrefix(xor_name::Prefix);

/// A peer on the network: its identity and where to reach it.
#[derive(Clone, Copy, Debug, PartialEq, Eq, PartialOrd, Ord)]
pub struct P2pNode {
    pub public_id: PublicId,
    pub peer_addr: Endpoint,
}

/// Acknowledgement of a section's knowledge.
#[derive(Clone, Copy, Debug, PartialEq, Eq)]
pub struct AckMessagePayload {
    /// The name of the section that message was for. This is important as we may get a message
    /// when we are still pre-split, think it is for us, but it was not.
    pub dst_name: xor_name::XorName,
    /// The prefix of our section when we acknowledge their section info of version ack_version.
    pub src_prefix: xor_name::Prefix,
    /// The version acknowledged.
    pub ack_version: u64,
}

/// A vote to send an acknowledgement.
#[derive(Clone, Copy, Debug, PartialEq, Eq)]
pub struct SendAckMessagePayload {
    /// The prefix acknowledged.
    pub ack_prefix: xor_name::Prefix,
    /// The version acknowledged.
    pub ack_version: u64,
}

/// A vote for a node joining our section.
#[derive(Clone, Debug, PartialEq, Eq)]
pub struct OnlinePayload {
    /// Identifier of the joining node.
    pub p2p_node: P2pNode,
    /// The age the node should have after joining.
    pub age: u8,
    /// The version of the destination section that the joining node knows, if any.
    pub their_knowledge: Option<u64>,
}

/// Change to section elders.
#[derive(Debug, PartialEq, Eq)]
pub struct EldersChange {
    /// Neighbour peers that became elders.
    pub neighbour_added: BTreeSet<P2pNode>,
    /// Neighbour peers that ceased to be elders.
    pub neighbour_removed: BTreeSet<P2pNode>,
}

impl Default for EldersChange {
    fn default() -> (r: EldersChange)
        ensures
            r.neighbour_added@ == Set::<P2pNode>::empty(),
            r.neighbour_removed@ == Set::<P2pNode>::empty(),
    {
        EldersChange { neighbour_added: BTreeSet::new(), neighbour_removed: BTreeSet::new() }
    }
}

} // verus!
