//! Sizes shared by the routing logic, and network addresses.
use crate::crypto::PublicSignKey;
use crate::name_type::NameType;
use vstd::prelude::*;

verus! {

/// The number of nodes in a close group; the most that can take part in consensus.
pub const GROUP_SIZE: usize = 8;

/// The number of close group members whose agreement makes a quorum.
pub const QUORUM_SIZE: usize = 5;

/// Where a message can be delivered: a client, by its signing key, or a node, by its name.
#[derive(Clone, Copy, Debug, PartialEq, Eq, PartialOrd, Ord)]
pub enum Address {
    /// A client, known by its public signing key.
    Client(PublicSignKey),
    /// A node, known by its network name.
    Node(NameType),
}

/// Law: a quorum is a strict majority of a close group, so two quorums of one group always share
/// a member.
pub proof fn law_quorums_intersect()
    ensures
        QUORUM_SIZE <= GROUP_SIZE,
        2 * QUORUM_SIZE > GROUP_SIZE,
{
}

} // verus!
