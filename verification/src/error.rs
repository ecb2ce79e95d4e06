//! Errors reported by the routing layer.
use vstd::prelude::*;

verus! {

/// Errors of the interface between the routing layer and its users.
#[derive(Clone, Copy, Debug, PartialEq, Eq, Structural)]
pub enum InterfaceError {
    NotConnected,
}

impl InterfaceError {
    /// A short description of the error.
    pub fn description(&self) -> (r: &'static str)
        ensures
            r@ == "Not Connected"@,
    {
        match *self {
            InterfaceError::NotConnected => "Not Connected",
        }
    }
}

/// Routing error types.
#[derive(Clone, Copy, Debug, PartialEq, Eq)]
pub enum RoutingError {
    /// The node/client has not bootstrapped yet
    NotBootstrapped,
    /// invalid requester or handler authorities
    BadAuthority,
    /// failure to connect to an already connected node
    AlreadyConnected,
    /// received message having unknown type
    UnknownMessageType,
    /// Failed signature check
    FailedSignature,
    /// Not Enough signatures
    NotEnoughSignatures,
    /// Duplicate signatures
    DuplicateSignatures,
    /// duplicate request received
    FilterCheckFailed,
    /// failure to bootstrap off the provided endpoints
    FailedToBootstrap,
    /// unexpected empty routing table
    RoutingTableEmpty,
    /// public id rejected because of unallowed relocated status
    RejectedPublicId,
    /// routing table did not add the node information, either because it was already added, or
    /// because it did not improve the routing table
    RefusedFromRoutingTable,
    /// We received a refresh message but it did not contain group source address
    RefreshNotFromGroup,
    /// interface error
    Interface(InterfaceError),
    /// Mutable data may have at most one owner
    InvalidOwners,
    /// Mutable data would hold too many entries
    TooManyEntries,
    /// Mutable data would exceed its size limit
    ExceededSizeLimit,
    /// The requester may not perform the action
    AccessDenied,
    /// The entry to insert exists already
    EntryAlreadyExist,
    /// The entry to change does not exist
    EntryNotFound,
    /// The new version is not the successor of the current one
    InvalidSuccessor,
    /// The message is malformed
    InvalidMessage,
    /// The client exceeded its share of the rate limiter; the hash of the message
    ExceedsRateLimit([u8; 32]),
}

impl RoutingError {
    /// A short description of the error.
    pub fn description(&self) -> (r: &'static str)
        ensures
            self is NotBootstrapped ==> r@ == "Not bootstrapped"@,
            self is BadAuthority ==> r@ == "Invalid authority"@,
            self is AlreadyConnected ==> r@ == "Already connected"@,
            self is UnknownMessageType ==> r@ == "Invalid message type"@,
            self is FilterCheckFailed ==> r@ == "Filter check failure"@,
            self is FailedSignature ==> r@ == "Signature check failure"@,
            self is NotEnoughSignatures ==> r@ == "Not enough signatures"@,
            self is DuplicateSignatures ==> r@ == "Duplicate signatures"@,
            self is FailedToBootstrap ==> r@ == "Could not bootstrap"@,
            self is RoutingTableEmpty ==> r@ == "Routing table empty"@,
            self is RejectedPublicId ==> r@ == "Rejected Public Id"@,
            self is RefusedFromRoutingTable ==> r@ == "Refused from routing table"@,
            self is RefreshNotFromGroup ==> r@ == "Refresh message not from group"@,
            self is Interface ==> r@ == "Interface error"@,
            self is InvalidOwners ==> r@ == "Invalid owners"@,
            self is TooManyEntries ==> r@ == "Too many entries"@,
            self is ExceededSizeLimit ==> r@ == "Exceeded size limit"@,
            self is AccessDenied ==> r@ == "Access denied"@,
            self is EntryAlreadyExist ==> r@ == "Entry already exists"@,
            self is EntryNotFound ==> r@ == "Entry not found"@,
            self is InvalidSuccessor ==> r@ == "Invalid successor"@,
            self is InvalidMessage ==> r@ == "Invalid message"@,
            self is ExceedsRateLimit ==> r@ == "Exceeds rate limit"@,
    {
        match *self {
            RoutingError::NotBootstrapped => "Not bootstrapped",
            RoutingError::BadAuthority => "Invalid authority",
            RoutingError::AlreadyConnected => "Already connected",
            RoutingError::UnknownMessageType => "Invalid message type",
            RoutingError::FilterCheckFailed => "Filter check failure",
            RoutingError::FailedSignature => "Signature check failure",
            RoutingError::NotEnoughSignatures => "Not enough signatures",
            RoutingError::DuplicateSignatures => "Duplicate signatures",
            RoutingError::FailedToBootstrap => "Could not bootstrap",
            RoutingError::RoutingTableEmpty => "Routing table empty",
            RoutingError::RejectedPublicId => "Rejected Public Id",
            RoutingError::RefusedFromRoutingTable => "Refused from routing table",
            RoutingError::RefreshNotFromGroup => "Refresh message not from group",
            RoutingError::Interface(_) => "Interface error",
            RoutingError::InvalidOwners => "Invalid owners",
            RoutingError::TooManyEntries => "Too many entries",
            RoutingError::ExceededSizeLimit => "Exceeded size limit",
            RoutingError::AccessDenied => "Access denied",
            RoutingError::EntryAlreadyExist => "Entry already exists",
            RoutingError::EntryNotFound => "Entry not found",
            RoutingError::InvalidSuccessor => "Invalid successor",
            RoutingError::InvalidMessage => "Invalid message",
            RoutingError::ExceedsRateLimit(_) => "Exceeds rate limit",
        }
    }
    /// Wraps an interface error.
    pub fn from_interface(e: InterfaceError) -> (r: RoutingError)
        ensures
            r == RoutingError::Interface(e),
    {
        RoutingError::Interface(e)
    }
}

} // verus!
