//! Routing: the name space, routing table and message bookkeeping of a peer-to-peer node.
use vstd::prelude::*;

pub mod assoc_map;
pub mod crypto;
pub mod data;
pub mod direct_messages;
pub mod error;
pub mod find_group_response;
pub mod id;
pub mod mock_network;
pub mod name_type;
pub mod network_event;
pub mod peer;
pub mod peer_manager;
pub mod public_id;
pub mod rate_limiter;
pub mod relay;
pub mod routing_core;
pub mod routing_node;
pub mod routing_table;
pub mod sending_targets_cache;
pub mod types;

verus! {

/// Numerator of the fraction of a section whose agreement counts as a majority.
pub const MAJORITY_NUMERATOR: usize = 2;

/// Denominator of the fraction of a section whose agreement counts as a majority.
pub const MAJORITY_DENOMINATOR: usize = 3;

/// The number of members a section aims for.
pub const RECOMMENDED_SECTION_SIZE: usize = 60;

/// The number of elders of a section.
pub const ELDER_SIZE: usize = 7;

/// Law: a majority can be reached (the fraction is below one), and it guarantees agreement (the
/// fraction is at least one half, so two majorities of one group share a member).
pub proof fn law_majority_is_reachable_and_agrees()
    ensures
        MAJORITY_NUMERATOR < MAJORITY_DENOMINATOR,
        MAJORITY_NUMERATOR * 2 >= MAJORITY_DENOMINATOR,
{
}

} // verus!
