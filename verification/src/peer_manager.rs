//! Peer status management: which nodes we know of, which ones we are connecting to, which IDs we
//! have verified, and whom we are connected to directly or through a tunnel.
use crate::assoc_map::{lemma_pairs_where, pairs_where, AssocMap, KeyEq};
use crate::crypto::{same_sign_key, PublicSignKey};
use crate::name_type::{names_equal, NameType};
use crate::public_id::{same_public_id, PublicId};
use kademlia_routing_table::RoutingTable as KadTable;
use vstd::prelude::*;

verus! {

/// The group size for the routing table. This is the maximum that can be used for consensus.
pub const GROUP_SIZE: usize = 8;

/// The quorum for group consensus.
pub const QUORUM_SIZE: usize = 5;

/// Time (in seconds) after which a joining node will get dropped from the map of joining nodes.
pub const JOINING_NODE_TIMEOUT_SECS: u64 = 300;

/// Time (in seconds) after which the connection to a peer is considered failed.
pub const CONNECTION_TIMEOUT_SECS: u64 = 90;

/// The number of entries beyond `GROUP_SIZE` that are not considered unnecessary in the routing
/// table.
pub const EXTRA_BUCKET_ENTRIES: usize = 2;

// ------------------------------------------------------------------------------------------
// The clock, chance and the Kademlia table
// ------------------------------------------------------------------------------------------

/// A point in time of the monotonic clock of `std`.
#[verifier::external_type_specification]
#[verifier::external_body]
pub struct ExInstant(std::time::Instant);

/// The current instant, from `std::time::Instant::now`.  Nothing is stated of it: it depends on
/// the time.
#[verifier::external_body]
fn instant_now() -> (r: std::time::Instant) {
    std::time::Instant::now()
}

/// Milliseconds elapsed since `since`, from `std::time::Instant::elapsed`, in whole
/// milliseconds.  Nothing is stated of it: it depends on the time.
#[verifier::external_body]
fn millis_since(since: &std::time::Instant) -> (r: u64) {
    since.elapsed().as_millis() as u64
}

/// A random token, from `rand::random`.  Nothing is stated of it: it is chance.
#[verifier::external_body]
fn random_token() -> (r: u32) {
    rand::random::<u32>()
}

/// A Kademlia routing table of the `kademlia_routing_table` crate, over names of 64 bytes.
#[verifier::external_body]
pub struct KademliaTable {
    table: KadTable<[u8; 64]>,
}

/// The names held by a Kademlia table.
pub uninterp spec fn kad_contents(t: KademliaTable) -> Set<Seq<u8>>;

/// The name a Kademlia table was made for.
pub uninterp spec fn kad_our_name(t: KademliaTable) -> Seq<u8>;

/// Whether a Kademlia table allows a connection to `name` (`RoutingTable::allow_connection`).
pub uninterp spec fn kad_allows(t: KademliaTable, name: Seq<u8>) -> bool;

/// Whether a Kademlia table drops `name` as unneeded (`RoutingTable::remove_if_unneeded`).
pub uninterp spec fn kad_unneeded(t: KademliaTable, name: Seq<u8>) -> bool;

/// The names that `RoutingTable::add` reports for `name`: those to notify and those no longer
/// needed.
pub uninterp spec fn kad_added(t: KademliaTable, name: Seq<u8>) -> (Seq<Seq<u8>>, Seq<Seq<u8>>);

/// The bucket that `RoutingTable::remove` reports as no longer full on removing `name`.
pub uninterp spec fn kad_dropped(t: KademliaTable, name: Seq<u8>) -> Option<usize>;

/// The names of a Kademlia table in the order `RoutingTable::iter` yields them.
pub uninterp spec fn kad_iter(t: KademliaTable) -> Seq<Seq<u8>>;

/// The names `RoutingTable::closest_nodes_to` picks as the `n` closest to `target`.
pub uninterp spec fn kad_closest(t: KademliaTable, target: Seq<u8>, n: usize, ourselves: bool) -> Seq<Seq<u8>>;

/// What `RoutingTable::add` reports on adding a name.
#[derive(Debug, PartialEq, Eq)]
pub struct AddedNodeDetails {
    /// Those to notify of the new entry.
    pub must_notify: Vec<NameType>,
    /// Entries no longer within the close group at the new entry's bucket.
    pub unneeded: Vec<NameType>,
}

/// What `RoutingTable::remove` reports on removing a name.
#[derive(Clone, Copy, Debug, PartialEq, Eq, Structural)]
pub struct DroppedNodeDetails {
    /// `Some(i)` if the entry was removed from the full bucket `i`.
    pub incomplete_bucket: Option<usize>,
}

/// The names of a list of names.
pub open spec fn names_view(v: Seq<NameType>) -> Seq<Seq<u8>> {
    v.map_values(|n: NameType| n@)
}

/// A new Kademlia table for `our_name` (`RoutingTable::new`): it holds no names.
#[verifier::external_body]
fn kad_new(our_name: NameType, bucket_size: usize, extra_entries: usize) -> (r: KademliaTable)
    ensures
        kad_contents(r) == Set::<Seq<u8>>::empty(),
        kad_our_name(r) == our_name@,
{
    KademliaTable { table: KadTable::new(our_name.0, bucket_size, extra_entries) }
}

/// Adds `name` (`RoutingTable::add`): it is added, and reported, exactly when it was absent and
/// the table allowed a connection to it; otherwise nothing changes.
#[verifier::external_body]
fn kad_add(t: &mut KademliaTable, name: NameType) -> (r: Option<AddedNodeDetails>)
    ensures
        kad_our_name(*final(t)) == kad_our_name(*old(t)),
        r is Some <==> (!kad_contents(*old(t)).contains(name@) && kad_allows(*old(t), name@)),
        r is Some ==> kad_contents(*final(t)) == kad_contents(*old(t)).insert(name@),
        r is Some ==> names_view(r->Some_0.must_notify@) == kad_added(*old(t), name@).0
            && names_view(r->Some_0.unneeded@) == kad_added(*old(t), name@).1,
        r is None ==> kad_contents(*final(t)) == kad_contents(*old(t)),
{
    t.table.add(name.0).map(
        |d: kademlia_routing_table::AddedNodeDetails<[u8; 64]>|
            AddedNodeDetails {
                must_notify: d.must_notify.into_iter().map(NameType).collect(),
                unneeded: d.unneeded.into_iter().map(NameType).collect(),
            },
    )
}

/// Removes `name` if the table no longer needs it (`RoutingTable::remove_if_unneeded`); the
/// answer is whether it was removed.
#[verifier::external_body]
fn kad_remove_if_unneeded(t: &mut KademliaTable, name: &NameType) -> (r: bool)
    ensures
        kad_our_name(*final(t)) == kad_our_name(*old(t)),
        r == kad_unneeded(*old(t), name@),
        r ==> kad_contents(*old(t)).contains(name@) && kad_contents(*final(t)) == kad_contents(
            *old(t),
        ).remove(name@),
        !r ==> kad_contents(*final(t)) == kad_contents(*old(t)),
{
    t.table.remove_if_unneeded(&name.0)
}

/// Whether the table allows a connection to `name` (`RoutingTable::allow_connection`): never to
/// our own name, always to a name it holds.
#[verifier::external_body]
fn kad_allow_connection(t: &KademliaTable, name: &NameType) -> (r: bool)
    ensures
        r == kad_allows(*t, name@),
        name@ == kad_our_name(*t) ==> !r,
        name@ != kad_our_name(*t) && kad_contents(*t).contains(name@) ==> r,
{
    t.table.allow_connection(&name.0)
}

/// Removes `name` (`RoutingTable::remove`); reports exactly when it was there.
#[verifier::external_body]
fn kad_remove(t: &mut KademliaTable, name: &NameType) -> (r: Option<DroppedNodeDetails>)
    ensures
        kad_our_name(*final(t)) == kad_our_name(*old(t)),
        r is Some <==> kad_contents(*old(t)).contains(name@),
        r is Some ==> r->Some_0.incomplete_bucket == kad_dropped(*old(t), name@),
        kad_contents(*final(t)) == kad_contents(*old(t)).remove(name@),
{
    t.table.remove(&name.0).map(
        |d: kademlia_routing_table::DroppedNodeDetails|
            DroppedNodeDetails { incomplete_bucket: d.incomplete_bucket },
    )
}

/// Whether the table holds `name` (`RoutingTable::contains`).
#[verifier::external_body]
fn kad_contains(t: &KademliaTable, name: &NameType) -> (r: bool)
    ensures
        r == kad_contents(*t).contains(name@),
{
    t.table.contains(&name.0)
}

/// The names the table holds, each once (`RoutingTable::iter`).
#[verifier::external_body]
fn kad_names(t: &KademliaTable) -> (r: Vec<NameType>)
    ensures
        names_view(r@) == kad_iter(*t),
        names_view(r@).to_set() == kad_contents(*t),
        names_view(r@).no_duplicates(),
{
    t.table.iter().map(|n: &[u8; 64]| NameType(*n)).collect()
}

/// The at most `n` names of the table closest to `target`, leaving out our own name
/// (`RoutingTable::closest_nodes_to` with `ourselves` false).
#[verifier::external_body]
fn kad_closest_nodes_to(t: &KademliaTable, target: &NameType, n: usize) -> (r: Vec<NameType>)
    ensures
        names_view(r@) == kad_closest(*t, target@, n, false),
        r@.len() <= n,
        forall|i: int| 0 <= i < r@.len() ==> kad_contents(*t).contains(#[trigger] r@[i]@),
{
    t.table.closest_nodes_to(&target.0, n, false).into_iter().map(NameType).collect()
}

// ------------------------------------------------------------------------------------------
// Peers and their states
// ------------------------------------------------------------------------------------------

/// A peer's identifier on the transport layer.
#[derive(Clone, Copy, Debug, PartialEq, Eq, Structural, PartialOrd, Ord, Hash)]
pub struct PeerId(pub u64);

impl KeyEq for PeerId {
    fn key_eq(&self, other: &Self) -> (r: bool) {
        self.0 == other.0
    }
}

/// Our own connection info as the transport layer prepared it: our peer ID and endpoint.
#[derive(Clone, Copy, Debug, PartialEq, Eq, Structural)]
pub struct PrivConnectionInfo(pub PeerId, pub u64);

/// A peer's connection info as it sent it to us: its peer ID and endpoint.
#[derive(Clone, Copy, Debug, PartialEq, Eq, Structural)]
pub struct PubConnectionInfo(pub PeerId, pub u64);

impl PubConnectionInfo {
    /// The peer ID of the peer this info is from.
    pub fn id(&self) -> (r: PeerId)
        ensures
            r == self.0,
    {
        self.0
    }
}

/// Info about a client that we act as a proxy for.
#[derive(Clone, Copy, Debug, PartialEq, Eq)]
pub struct ClientInfo {
    /// The client's public signing key.
    pub public_key: PublicSignKey,
    /// Whether the client does not intend to become a node.
    pub client_restriction: bool,
    /// When the client was added, in milliseconds since the peer manager was made.
    pub timestamp: u64,
}

/// Whether a joining client added at `timestamp` has timed out at `now` (both in milliseconds):
/// clients that do not intend to become a node never do.
pub open spec fn client_stale(info: ClientInfo, now: u64) -> bool {
    !info.client_restriction && elapsed_millis(info.timestamp, now) > JOINING_NODE_TIMEOUT_SECS
        * 1000
}

/// Milliseconds from `since` to `now`, or 0 if `now` is earlier.
pub open spec fn elapsed_millis(since: u64, now: u64) -> int {
    if now >= since {
        now - since
    } else {
        0
    }
}

impl ClientInfo {
    /// Whether the client intends to become a node but has timed out at `now`.
    pub fn is_stale(&self, now: u64) -> (r: bool)
        ensures
            r == client_stale(*self, now),
    {
        let elapsed: u64 = if now >= self.timestamp {
            now - self.timestamp
        } else {
            0
        };
        !self.client_restriction && elapsed > JOINING_NODE_TIMEOUT_SECS * 1000
    }
}

/// Errors that occur in peer status management.
#[derive(Clone, Copy, Debug, PartialEq, Eq, Structural)]
pub enum Error {
    /// The specified peer was not found.
    PeerNotFound,
    /// The peer is in a state that doesn't allow the requested operation.
    UnexpectedState,
}

impl Error {
    /// A short description of the error.
    pub fn description(&self) -> (r: &'static str)
        ensures
            *self == Error::PeerNotFound ==> r@ == "Peer not found"@,
            *self == Error::UnexpectedState ==> r@ == "Peer state does not allow operation"@,
    {
        match *self {
            Error::PeerNotFound => "Peer not found",
            Error::UnexpectedState => "Peer state does not allow operation",
        }
    }
}

/// Our relationship status with a known peer.  `A` is the type of the authorities that the
/// connection info is exchanged between.
#[derive(Clone, Copy, Debug, PartialEq, Eq)]
pub enum PeerState<A> {
    /// Waiting for the transport layer to prepare our connection info. Holds the source and
    /// destination for sending it to the peer, and their connection info, if we received it.
    ConnectionInfoPreparing(A, A, Option<PubConnectionInfo>),
    /// The prepared connection info that has been sent to the peer.
    ConnectionInfoReady(PrivConnectionInfo),
    /// We called `connect` and are waiting for a `NewPeer` event.
    CrustConnecting,
    /// We failed to connect and are trying to find a tunnel node.
    SearchingForTunnel,
    /// We are connected - via a tunnel if the field is `true` - and waiting for a `NodeIdentify`.
    AwaitingNodeIdentify(bool),
    /// We are connected and routing to that peer - via a tunnel if the field is `true`.
    Routing(bool),
}

/// The result of adding a peer's connection info.
#[derive(Clone, Copy, Debug, PartialEq, Eq, Structural)]
pub enum ConnectionInfoReceivedResult {
    /// Our own connection info has already been prepared: the peer was switched to
    /// `CrustConnecting`; `connect` should be called with these infos now.
    Ready(PrivConnectionInfo, PubConnectionInfo),
    /// We don't have a connection info for that peer yet. The peer was switched to
    /// `ConnectionInfoPreparing`; our connection info should be prepared with this token now.
    Prepare(u32),
    /// We are currently preparing our own connection info and need to wait for it.
    Waiting,
    /// We are already connected: they are our proxy.
    IsProxy,
    /// We are already connected: they are our client.
    IsClient,
    /// We are already connected: they are a routing peer.
    IsConnected,
}

/// The result of adding our prepared connection info. It needs to be sent to the peer.
#[derive(Clone, Copy, Debug, PartialEq, Eq)]
pub struct ConnectionInfoPreparedResult<A> {
    /// The peer's public ID.
    pub pub_id: PublicId,
    /// The source authority for sending the connection info.
    pub src: A,
    /// The destination authority for sending the connection info.
    pub dst: A,
    /// If the peer's connection info was already present, the peer has been moved to
    /// `CrustConnecting`; `connect` should be called with these infos now.
    pub infos: Option<(PrivConnectionInfo, PubConnectionInfo)>,
}

/// Whether the state is one of waiting for a connection, which times out.
pub open spec fn is_transient<A>(s: PeerState<A>) -> bool {
    match s {
        PeerState::Routing(_) | PeerState::AwaitingNodeIdentify(_) => false,
        _ => true,
    }
}

/// Whether an entry, set at its timestamp, has timed out at `now`.
pub open spec fn expired_entry<A>(e: (u64, PeerState<A>), now: u64) -> bool {
    is_transient(e.1) && elapsed_millis(e.0, now) >= CONNECTION_TIMEOUT_SECS * 1000
}

/// Whether an entry, set at its timestamp, has timed out at `now`.
pub fn entry_expires<A: Copy>(e: &(u64, PeerState<A>), now: u64) -> (r: bool)
    ensures
        r == expired_entry(*e, now),
{
    let transient = match e.1 {
        PeerState::Routing(_) | PeerState::AwaitingNodeIdentify(_) => false,
        _ => true,
    };
    let elapsed: u64 = if now >= e.0 {
        now - e.0
    } else {
        0
    };
    transient && elapsed >= CONNECTION_TIMEOUT_SECS * 1000
}

/// What a peer manager holds.
pub struct PeerManagerView<A> {
    /// Clients we act as a proxy for.
    pub clients: Map<PeerId, ClientInfo>,
    /// The peers whose connection info we are preparing, by token.
    pub tokens: Map<u32, PublicId>,
    /// The state of each known node, with the time it was set, by name.
    pub nodes: Map<NameType, (u64, PeerState<A>)>,
    /// Our bootstrap connection, with the time it was made.
    pub proxy: Option<(u64, PeerId, PublicId)>,
    /// The public IDs of peers, by peer ID.
    pub pub_ids: Map<PeerId, PublicId>,
    /// The routing table.
    pub table: KademliaTable,
    /// Our own public ID.
    pub our_public_id: PublicId,
}

/// The node entries that have not timed out at `now`.
pub open spec fn live_nodes<A>(nodes: Map<NameType, (u64, PeerState<A>)>, now: u64) -> Map<NameType, (u64, PeerState<A>)> {
    Map::new(
        |k: NameType| nodes.contains_key(k) && !expired_entry(nodes[k], now),
        |k: NameType| nodes[k],
    )
}

/// The tokens whose peer is still preparing its connection info.
pub open spec fn pending_tokens<A>(tokens: Map<u32, PublicId>, nodes: Map<NameType, (u64, PeerState<A>)>) -> Map<u32, PublicId> {
    Map::new(
        |t: u32|
            tokens.contains_key(t) && nodes.contains_key(tokens[t].name_spec())
                && nodes[tokens[t].name_spec()].1 is ConnectionInfoPreparing,
        |t: u32| tokens[t],
    )
}

/// The peer IDs whose node is still known.
pub open spec fn known_pub_ids<A>(pub_ids: Map<PeerId, PublicId>, nodes: Map<NameType, (u64, PeerState<A>)>) -> Map<PeerId, PublicId> {
    Map::new(
        |p: PeerId| pub_ids.contains_key(p) && nodes.contains_key(pub_ids[p].name_spec()),
        |p: PeerId| pub_ids[p],
    )
}

/// The manager with the peer IDs of unknown nodes dropped.
pub open spec fn cleaned<A>(v: PeerManagerView<A>) -> PeerManagerView<A> {
    PeerManagerView { pub_ids: known_pub_ids(v.pub_ids, v.nodes), ..v }
}

/// The manager with the entries that timed out at `now` dropped, then the tokens of peers no
/// longer preparing their info, then the peer IDs of unknown nodes.
pub open spec fn expired<A>(v: PeerManagerView<A>, now: u64) -> PeerManagerView<A> {
    let nodes = live_nodes(v.nodes, now);
    cleaned(PeerManagerView { nodes: nodes, tokens: pending_tokens(v.tokens, nodes), ..v })
}

/// The state of the node of `id`, if known.
pub open spec fn state_of<A>(v: PeerManagerView<A>, id: PublicId) -> Option<PeerState<A>> {
    if v.nodes.contains_key(id.name_spec()) {
        Some(v.nodes[id.name_spec()].1)
    } else {
        None
    }
}

/// The manager after the node of `id` is put into `state` at `now`, and timed out entries are
/// dropped.
pub open spec fn with_state<A>(v: PeerManagerView<A>, id: PublicId, state: PeerState<A>, now: u64) -> PeerManagerView<A> {
    expired(PeerManagerView { nodes: v.nodes.insert(id.name_spec(), (now, state)), ..v }, now)
}

/// What `connection_info_received` answers and leaves, given the time `now` and, where a token
/// is drawn, `token`.
pub open spec fn received_spec<A>(
    v: PeerManagerView<A>,
    src: A,
    dst: A,
    pub_id: PublicId,
    their_info: PubConnectionInfo,
    now: u64,
    token: u32,
) -> (Result<ConnectionInfoReceivedResult, Error>, PeerManagerView<A>) {
    let peer_id = their_info.0;
    let name = pub_id.name_spec();
    if v.clients.contains_key(peer_id) {
        (Ok(ConnectionInfoReceivedResult::IsClient), v)
    } else if v.proxy is Some && v.proxy->Some_0.1 == peer_id {
        (Ok(ConnectionInfoReceivedResult::IsProxy), v)
    } else if !v.nodes.contains_key(name) {
        let v1 = with_state(
            v,
            pub_id,
            PeerState::ConnectionInfoPreparing(src, dst, Some(their_info)),
            now,
        );
        (
            Ok(ConnectionInfoReceivedResult::Prepare(token)),
            PeerManagerView {
                pub_ids: v1.pub_ids.insert(peer_id, pub_id),
                tokens: v1.tokens.insert(token, pub_id),
                ..v1
            },
        )
    } else {
        match v.nodes[name].1 {
            PeerState::ConnectionInfoReady(our_info) => {
                let v1 = with_state(v, pub_id, PeerState::CrustConnecting, now);
                (
                    Ok(ConnectionInfoReceivedResult::Ready(our_info, their_info)),
                    PeerManagerView { pub_ids: v1.pub_ids.insert(peer_id, pub_id), ..v1 },
                )
            },
            PeerState::ConnectionInfoPreparing(s, d, None) => (
                Ok(ConnectionInfoReceivedResult::Waiting),
                with_state(
                    v,
                    pub_id,
                    PeerState::ConnectionInfoPreparing(s, d, Some(their_info)),
                    now,
                ),
            ),
            PeerState::CrustConnecting => (
                Ok(ConnectionInfoReceivedResult::Waiting),
                with_state(v, pub_id, PeerState::CrustConnecting, now),
            ),
            PeerState::Routing(_) => (Ok(ConnectionInfoReceivedResult::IsConnected), v),
            _ => (Err(Error::UnexpectedState), v),
        }
    }
}

/// What `connection_info_prepared` answers and leaves, given the time `now`.
pub open spec fn prepared_spec<A>(v: PeerManagerView<A>, token: u32, our_info: PrivConnectionInfo, now: u64) -> (Result<ConnectionInfoPreparedResult<A>, Error>, PeerManagerView<A>) {
    if !v.tokens.contains_key(token) {
        (Err(Error::PeerNotFound), v)
    } else {
        let pub_id = v.tokens[token];
        let v0 = PeerManagerView { tokens: v.tokens.remove(token), ..v };
        let name = pub_id.name_spec();
        if !v0.nodes.contains_key(name) {
            (Err(Error::PeerNotFound), v0)
        } else {
            match v0.nodes[name].1 {
                PeerState::ConnectionInfoPreparing(src, dst, Some(their_info)) => {
                    let v1 = with_state(v0, pub_id, PeerState::CrustConnecting, now);
                    (
                        Ok(
                            ConnectionInfoPreparedResult {
                                pub_id: pub_id,
                                src: src,
                                dst: dst,
                                infos: Some((our_info, their_info)),
                            },
                        ),
                        PeerManagerView { pub_ids: v1.pub_ids.insert(their_info.0, pub_id), ..v1 },
                    )
                },
                PeerState::ConnectionInfoPreparing(src, dst, None) => (
                    Ok(
                        ConnectionInfoPreparedResult {
                            pub_id: pub_id,
                            src: src,
                            dst: dst,
                            infos: None,
                        },
                    ),
                    with_state(v0, pub_id, PeerState::ConnectionInfoReady(our_info), now),
                ),
                _ => (Err(Error::UnexpectedState), v0),
            }
        }
    }
}

/// A container for information about other nodes in the network.
pub struct PeerManager<A> {
    /// The instant the manager was made; times are kept in milliseconds since then.
    epoch: std::time::Instant,
    client_map: AssocMap<PeerId, ClientInfo>,
    connection_token_map: AssocMap<u32, PublicId>,
    node_map: AssocMap<NameType, (u64, PeerState<A>)>,
    proxy: Option<(u64, PeerId, PublicId)>,
    pub_id_map: AssocMap<PeerId, PublicId>,
    routing_table: KademliaTable,
    our_public_id: PublicId,
}

impl<A> View for PeerManager<A> {
    type V = PeerManagerView<A>;

    closed spec fn view(&self) -> PeerManagerView<A> {
        PeerManagerView {
            clients: self.client_map@,
            tokens: self.connection_token_map@,
            nodes: self.node_map@,
            proxy: self.proxy,
            pub_ids: self.pub_id_map@,
            table: self.routing_table,
            our_public_id: self.our_public_id,
        }
    }
}

impl<A: Copy> PeerManager<A> {
    /// Each of the maps holds each key once.
    pub closed spec fn wf(&self) -> bool {
        &&& self.client_map.wf()
        &&& self.connection_token_map.wf()
        &&& self.node_map.wf()
        &&& self.pub_id_map.wf()
    }

    /// Returns a new peer manager with no entries.
    pub fn new(our_public_id: PublicId) -> (r: PeerManager<A>)
        ensures
            r.wf(),
            r@.clients == Map::<PeerId, ClientInfo>::empty(),
            r@.tokens == Map::<u32, PublicId>::empty(),
            r@.nodes == Map::<NameType, (u64, PeerState<A>)>::empty(),
            r@.proxy is None,
            r@.pub_ids == Map::<PeerId, PublicId>::empty(),
            kad_contents(r@.table) == Set::<Seq<u8>>::empty(),
            kad_our_name(r@.table) == our_public_id.name_view(),
            r@.our_public_id == our_public_id,
    {
        PeerManager {
            epoch: instant_now(),
            client_map: AssocMap::new(),
            connection_token_map: AssocMap::new(),
            node_map: AssocMap::new(),
            proxy: None,
            pub_id_map: AssocMap::new(),
            routing_table: kad_new(our_public_id.name(), GROUP_SIZE, EXTRA_BUCKET_ENTRIES),
            our_public_id: our_public_id,
        }
    }

    /// The current time, in milliseconds since the manager was made.
    fn now(&self) -> (r: u64) {
        millis_since(&self.epoch)
    }

    /// Drops the peer IDs whose node is not known.
    fn cleanup_pub_id_map(&mut self)
        requires
            old(self).wf(),
        ensures
            final(self).wf(),
            final(self)@ == cleaned(old(self)@),
    {
        let ghost m0 = self.pub_id_map@;
        let mut i: usize = 0;
        while i < self.pub_id_map.len()
            invariant
                self.wf(),
                self.epoch == old(self).epoch,
                self.client_map == old(self).client_map,
                self.proxy == old(self).proxy,
                self.routing_table == old(self).routing_table,
                self.our_public_id == old(self).our_public_id,
                self.connection_token_map == old(self).connection_token_map,
                self.node_map == old(self).node_map,
                0 <= i <= self.pub_id_map.pairs().len(),
                forall|k: PeerId| #[trigger]
                    self.pub_id_map@.contains_key(k) ==> m0.contains_key(k) && self.pub_id_map@[k]
                        == m0[k],
                forall|k: PeerId|
                    #[trigger] m0.contains_key(k) && self.node_map@.contains_key(m0[k].name_spec())
                        ==> self.pub_id_map@.contains_key(k),
                forall|j: int|
                    0 <= j < i ==> self.node_map@.contains_key(
                        (#[trigger] self.pub_id_map.pairs()[j]).1.name_spec(),
                    ),
            decreases self.pub_id_map.pairs().len() - i,
        {
            proof {
                self.pub_id_map.lemma_pairs();
            }
            let id = *self.pub_id_map.value_at(i);
            if !self.node_map.contains_key(&id.name()) {
                let _ = self.pub_id_map.remove_at(i);
            } else {
                i = i + 1;
            }
        }
        proof {
            self.pub_id_map.lemma_pairs();
            let want = known_pub_ids(m0, self.node_map@);
            assert forall|k: PeerId| #[trigger] self.pub_id_map@.contains_key(k) implies want.contains_key(k) by {
                let j = choose|j: int|
                    0 <= j < self.pub_id_map.pairs().len() && self.pub_id_map.pairs()[j].0 == k;
                assert(self.node_map@.contains_key(self.pub_id_map.pairs()[j].1.name_spec()));
            }
            assert(self.pub_id_map@ =~= want);
        }
    }

    /// Drops the node entries that timed out at `now`, then the tokens of peers no longer
    /// preparing their info, then the peer IDs of unknown nodes.
    fn remove_expired_at(&mut self, now: u64)
        requires
            old(self).wf(),
        ensures
            final(self).wf(),
            final(self)@ == expired(old(self)@, now),
    {
        let ghost m0 = self.node_map@;
        let mut i: usize = 0;
        while i < self.node_map.len()
            invariant
                self.wf(),
                self.epoch == old(self).epoch,
                self.client_map == old(self).client_map,
                self.proxy == old(self).proxy,
                self.routing_table == old(self).routing_table,
                self.our_public_id == old(self).our_public_id,
                self.connection_token_map == old(self).connection_token_map,
                self.pub_id_map == old(self).pub_id_map,
                0 <= i <= self.node_map.pairs().len(),
                forall|k: NameType| #[trigger]
                    self.node_map@.contains_key(k) ==> m0.contains_key(k) && self.node_map@[k]
                        == m0[k],
                forall|k: NameType|
                    #[trigger] m0.contains_key(k) && !expired_entry(m0[k], now)
                        ==> self.node_map@.contains_key(k),
                forall|j: int|
                    0 <= j < i ==> !expired_entry((#[trigger] self.node_map.pairs()[j]).1, now),
            decreases self.node_map.pairs().len() - i,
        {
            proof {
                self.node_map.lemma_pairs();
            }
            let e = *self.node_map.value_at(i);
            if entry_expires(&e, now) {
                let _ = self.node_map.remove_at(i);
            } else {
                i = i + 1;
            }
        }
        proof {
            self.node_map.lemma_pairs();
            let want = live_nodes(m0, now);
            assert forall|k: NameType| #[trigger] self.node_map@.contains_key(k) implies want.contains_key(k) by {
                let j = choose|j: int|
                    0 <= j < self.node_map.pairs().len() && self.node_map.pairs()[j].0 == k;
                assert(!expired_entry(self.node_map.pairs()[j].1, now));
            }
            assert(self.node_map@ =~= want);
        }
        let ghost nodes = self.node_map@;
        let ghost t0 = self.connection_token_map@;
        let mut j: usize = 0;
        while j < self.connection_token_map.len()
            invariant
                self.wf(),
                self.epoch == old(self).epoch,
                self.client_map == old(self).client_map,
                self.proxy == old(self).proxy,
                self.routing_table == old(self).routing_table,
                self.our_public_id == old(self).our_public_id,
                self.pub_id_map == old(self).pub_id_map,
                self.node_map@ == nodes,
                0 <= j <= self.connection_token_map.pairs().len(),
                forall|k: u32| #[trigger]
                    self.connection_token_map@.contains_key(k) ==> t0.contains_key(k)
                        && self.connection_token_map@[k] == t0[k],
                forall|k: u32|
                    #[trigger] t0.contains_key(k) && nodes.contains_key(t0[k].name_spec())
                        && nodes[t0[k].name_spec()].1 is ConnectionInfoPreparing
                        ==> self.connection_token_map@.contains_key(k),
                forall|q: int|
                    0 <= q < j ==> {
                        let id = (#[trigger] self.connection_token_map.pairs()[q]).1;
                        nodes.contains_key(id.name_spec())
                            && nodes[id.name_spec()].1 is ConnectionInfoPreparing
                    },
            decreases self.connection_token_map.pairs().len() - j,
        {
            proof {
                self.connection_token_map.lemma_pairs();
            }
            let id = *self.connection_token_map.value_at(j);
            let keep = match self.node_map.get(&id.name()) {
                Some(e) => match e.1 {
                    PeerState::ConnectionInfoPreparing(..) => true,
                    _ => false,
                },
                None => false,
            };
            if !keep {
                let _ = self.connection_token_map.remove_at(j);
            } else {
                j = j + 1;
            }
        }
        proof {
            self.connection_token_map.lemma_pairs();
            let want = pending_tokens(t0, nodes);
            assert forall|k: u32| #[trigger] self.connection_token_map@.contains_key(k) implies want.contains_key(k) by {
                let q = choose|q: int|
                    0 <= q < self.connection_token_map.pairs().len()
                        && self.connection_token_map.pairs()[q].0 == k;
                let id = self.connection_token_map.pairs()[q].1;
                assert(nodes.contains_key(id.name_spec()));
            }
            assert(self.connection_token_map@ =~= want);
        }
        self.cleanup_pub_id_map();
    }

    /// Puts the node of `pub_id` into `state` at `now`, then drops what timed out.
    fn insert_state_at(&mut self, pub_id: PublicId, state: PeerState<A>, now: u64)
        requires
            old(self).wf(),
        ensures
            final(self).wf(),
            final(self)@ == with_state(old(self)@, pub_id, state, now),
    {
        let _ = self.node_map.insert(pub_id.name(), (now, state));
        self.remove_expired_at(now);
    }

    /// Inserts the given connection info in the map to wait for the preparation of our own info,
    /// or returns both if that's already present and sets the status to `CrustConnecting`.
    pub fn connection_info_received(&mut self, src: A, dst: A, pub_id: PublicId, their_info: PubConnectionInfo) -> (r: Result<ConnectionInfoReceivedResult, Error>)
        requires
            old(self).wf(),
        ensures
            final(self).wf(),
            exists|now: u64, token: u32|
                #[trigger] received_spec(old(self)@, src, dst, pub_id, their_info, now, token) == (
                r,
                final(self)@,
            ),
    {
        let now = self.now();
        let peer_id = their_info.id();
        if self.client_map.contains_key(&peer_id) {
            assert(received_spec(old(self)@, src, dst, pub_id, their_info, now, 0) == (Ok::<ConnectionInfoReceivedResult, Error>(ConnectionInfoReceivedResult::IsClient), self@));
            return Ok(ConnectionInfoReceivedResult::IsClient);
        }
        let is_proxy = match self.proxy {
            Some((_, proxy_id, _)) => proxy_id == peer_id,
            None => false,
        };
        if is_proxy {
            assert(received_spec(old(self)@, src, dst, pub_id, their_info, now, 0) == (Ok::<ConnectionInfoReceivedResult, Error>(ConnectionInfoReceivedResult::IsProxy), self@));
            return Ok(ConnectionInfoReceivedResult::IsProxy);
        }
        let name = pub_id.name();
        let current = match self.node_map.get(&name) {
            Some(e) => Some(*e),
            None => None,
        };
        match current {
            Some((_, PeerState::ConnectionInfoReady(our_info))) => {
                self.insert_state_at(pub_id, PeerState::CrustConnecting, now);
                let _ = self.pub_id_map.insert(peer_id, pub_id);
                let r = Ok(ConnectionInfoReceivedResult::Ready(our_info, their_info));
                assert(received_spec(old(self)@, src, dst, pub_id, their_info, now, 0) == (r, self@));
                r
            },
            Some((_, PeerState::ConnectionInfoPreparing(s, d, None))) => {
                self.insert_state_at(
                    pub_id,
                    PeerState::ConnectionInfoPreparing(s, d, Some(their_info)),
                    now,
                );
                let r = Ok(ConnectionInfoReceivedResult::Waiting);
                assert(received_spec(old(self)@, src, dst, pub_id, their_info, now, 0) == (r, self@));
                r
            },
            Some((_, PeerState::CrustConnecting)) => {
                self.insert_state_at(pub_id, PeerState::CrustConnecting, now);
                let r = Ok(ConnectionInfoReceivedResult::Waiting);
                assert(received_spec(old(self)@, src, dst, pub_id, their_info, now, 0) == (r, self@));
                r
            },
            Some((_, PeerState::Routing(_))) => {
                let r = Ok(ConnectionInfoReceivedResult::IsConnected);
                assert(received_spec(old(self)@, src, dst, pub_id, their_info, now, 0) == (r, self@));
                r
            },
            Some(_) => {
                let r = Err(Error::UnexpectedState);
                assert(received_spec(old(self)@, src, dst, pub_id, their_info, now, 0) == (r, self@));
                r
            },
            None => {
                self.insert_state_at(
                    pub_id,
                    PeerState::ConnectionInfoPreparing(src, dst, Some(their_info)),
                    now,
                );
                let _ = self.pub_id_map.insert(peer_id, pub_id);
                let token = random_token();
                let _ = self.connection_token_map.insert(token, pub_id);
                let r = Ok(ConnectionInfoReceivedResult::Prepare(token));
                assert(received_spec(old(self)@, src, dst, pub_id, their_info, now, token) == (r, self@));
                r
            },
        }
    }

    /// Inserts the given connection info in the map to wait for the peer's info, or returns both
    /// if that's already present and sets the status to `CrustConnecting`. It also returns the
    /// source and destination authorities for sending the connection info to the peer.
    pub fn connection_info_prepared(&mut self, token: u32, our_info: PrivConnectionInfo) -> (r: Result<ConnectionInfoPreparedResult<A>, Error>)
        requires
            old(self).wf(),
        ensures
            final(self).wf(),
            exists|now: u64| #[trigger] prepared_spec(old(self)@, token, our_info, now) == (r, final(self)@),
    {
        let now = self.now();
        let pub_id = match self.connection_token_map.remove(&token) {
            Some(id) => id,
            None => {
                assert(prepared_spec(old(self)@, token, our_info, now) == (Err::<ConnectionInfoPreparedResult<A>, Error>(Error::PeerNotFound), self@));
                return Err(Error::PeerNotFound);
            },
        };
        let name = pub_id.name();
        let current = match self.node_map.get(&name) {
            Some(e) => Some(*e),
            None => None,
        };
        match current {
            Some((_, PeerState::ConnectionInfoPreparing(src, dst, Some(their_info)))) => {
                self.insert_state_at(pub_id, PeerState::CrustConnecting, now);
                let _ = self.pub_id_map.insert(their_info.id(), pub_id);
                let r = Ok(
                    ConnectionInfoPreparedResult {
                        pub_id: pub_id,
                        src: src,
                        dst: dst,
                        infos: Some((our_info, their_info)),
                    },
                );
                assert(prepared_spec(old(self)@, token, our_info, now) == (r, self@));
                r
            },
            Some((_, PeerState::ConnectionInfoPreparing(src, dst, None))) => {
                self.insert_state_at(pub_id, PeerState::ConnectionInfoReady(our_info), now);
                let r = Ok(
                    ConnectionInfoPreparedResult { pub_id: pub_id, src: src, dst: dst, infos: None },
                );
                assert(prepared_spec(old(self)@, token, our_info, now) == (r, self@));
                r
            },
            Some(_) => {
                let r = Err(Error::UnexpectedState);
                assert(prepared_spec(old(self)@, token, our_info, now) == (r, self@));
                r
            },
            None => {
                let r = Err(Error::PeerNotFound);
                assert(prepared_spec(old(self)@, token, our_info, now) == (r, self@));
                r
            },
        }
    }
}

/// The node entries whose name is not among `names`.
pub open spec fn nodes_without<A>(nodes: Map<NameType, (u64, PeerState<A>)>, names: Set<Seq<u8>>) -> Map<NameType, (u64, PeerState<A>)> {
    Map::new(|k: NameType| nodes.contains_key(k) && !names.contains(k@), |k: NameType| nodes[k])
}

/// Whether a peer is tunnelled to, judging by its state before it enters the routing table.
pub open spec fn tunnel_flag<A>(st: Option<PeerState<A>>) -> bool {
    match st {
        Some(PeerState::SearchingForTunnel) => true,
        Some(PeerState::AwaitingNodeIdentify(true)) => true,
        Some(PeerState::Routing(t)) => t,
        _ => false,
    }
}

/// The manager after the node of `public_id`, reached as `peer_id`, entered the routing table
/// `table` at `now`.
pub open spec fn routed<A>(v: PeerManagerView<A>, public_id: PublicId, peer_id: PeerId, table: KademliaTable, now: u64) -> PeerManagerView<A> {
    PeerManagerView {
        table: table,
        nodes: v.nodes.insert(
            public_id.name_spec(),
            (now, PeerState::Routing(tunnel_flag(state_of(v, public_id)))),
        ),
        pub_ids: v.pub_ids.insert(peer_id, public_id),
        ..v
    }
}

/// The manager with the proxy `peer_id`, `public_id` set at `now`.
pub open spec fn with_proxy<A>(v: PeerManagerView<A>, peer_id: PeerId, public_id: PublicId, now: u64) -> PeerManagerView<A> {
    PeerManagerView { proxy: Some((now, peer_id, public_id)), ..v }
}

/// The manager with the client `peer_id` added at `now`.
pub open spec fn with_client<A>(v: PeerManagerView<A>, peer_id: PeerId, key: PublicSignKey, client_restriction: bool, now: u64) -> PeerManagerView<A> {
    PeerManagerView {
        clients: v.clients.insert(
            peer_id,
            ClientInfo { public_key: key, client_restriction: client_restriction, timestamp: now },
        ),
        ..v
    }
}

/// Whether `peer_id` is our proxy.
pub open spec fn is_proxy_peer<A>(v: PeerManagerView<A>, peer_id: PeerId) -> bool {
    v.proxy is Some && v.proxy->Some_0.1 == peer_id
}

/// The state of the peer with `peer_id`, if its public ID and state are known.
pub open spec fn peer_state<A>(v: PeerManagerView<A>, peer_id: PeerId) -> Option<PeerState<A>> {
    if v.pub_ids.contains_key(peer_id) {
        state_of(v, v.pub_ids[peer_id])
    } else {
        None
    }
}

/// Whether a joining client or a proxy made at `since` has timed out at `now`.
pub open spec fn joining_timed_out(since: u64, now: u64) -> bool {
    elapsed_millis(since, now) > JOINING_NODE_TIMEOUT_SECS * 1000
}

/// The clients that have timed out at `now`.
pub open spec fn stale_clients(clients: Map<PeerId, ClientInfo>, now: u64) -> Set<PeerId> {
    Set::new(|p: PeerId| clients.contains_key(p) && client_stale(clients[p], now))
}

/// `r` lists the members of `s`, each once.
pub open spec fn lists_exactly<T>(r: Seq<T>, s: Set<T>) -> bool {
    r.no_duplicates() && r.to_set() == s
}

impl<A: Copy> PeerManager<A> {
    /// Returns the routing table.
    pub fn routing_table(&self) -> (r: &KademliaTable)
        ensures
            *r == self@.table,
    {
        &self.routing_table
    }

    /// Returns the proxy node, if connected.
    pub fn proxy(&self) -> (r: &Option<(u64, PeerId, PublicId)>)
        ensures
            *r == self@.proxy,
    {
        &self.proxy
    }

    /// Clears the routing table and resets this node's public ID; the nodes that were in the
    /// routing table are forgotten.
    pub fn reset_routing_table(&mut self, our_public_id: PublicId)
        requires
            old(self).wf(),
        ensures
            final(self).wf(),
            kad_contents(final(self)@.table) == Set::<Seq<u8>>::empty(),
            kad_our_name(final(self)@.table) == our_public_id.name_view(),
            final(self)@ == cleaned(
                PeerManagerView {
                    our_public_id: our_public_id,
                    table: final(self)@.table,
                    nodes: nodes_without(old(self)@.nodes, kad_contents(old(self)@.table)),
                    ..old(self)@
                },
            ),
    {
        self.our_public_id = our_public_id;
        let names = kad_names(&self.routing_table);
        self.routing_table = kad_new(our_public_id.name(), GROUP_SIZE, EXTRA_BUCKET_ENTRIES);
        let ghost m0 = self.node_map@;
        let mut i: usize = 0;
        while i < names.len()
            invariant
                self.wf(),
                self.epoch == old(self).epoch,
                self.client_map == old(self).client_map,
                self.connection_token_map == old(self).connection_token_map,
                self.pub_id_map == old(self).pub_id_map,
                self.proxy == old(self).proxy,
                self.our_public_id == our_public_id,
                kad_contents(self.routing_table) == Set::<Seq<u8>>::empty(),
                kad_our_name(self.routing_table) == our_public_id.name_view(),
                0 <= i <= names@.len(),
                forall|k: NameType| #[trigger]
                    self.node_map@.contains_key(k) <==> (m0.contains_key(k) && !(exists|j: int|
                        0 <= j < i && names@[j] == k)),
                forall|k: NameType| #[trigger]
                    self.node_map@.contains_key(k) ==> self.node_map@[k] == m0[k],
            decreases names@.len() - i,
        {
            let _ = self.node_map.remove(&names[i]);
            i = i + 1;
        }
        proof {
            let want = nodes_without(m0, kad_contents(old(self)@.table));
            assert forall|k: NameType| #[trigger] self.node_map@.contains_key(k) <==> want.contains_key(k) by {
                if exists|j: int| 0 <= j < names@.len() && names@[j] == k {
                    let j = choose|j: int| 0 <= j < names@.len() && names@[j] == k;
                    assert(names_view(names@)[j] == k@);
                    assert(names_view(names@).contains(k@));
                }
                if kad_contents(old(self)@.table).contains(k@) {
                    assert(names_view(names@).to_set().contains(k@));
                    assert(names_view(names@).contains(k@));
                    let j = choose|j: int| 0 <= j < names_view(names@).len() && names_view(names@)[j] == k@;
                    assert(names@[j]@ == k@);
                    crate::name_type::lemma_name_view_injective(names@[j], k);
                }
            }
            assert(self.node_map@ =~= want);
        }
        self.cleanup_pub_id_map();
    }

    /// Tries to add the given peer to the routing table, and returns the result, if successful.
    /// An added peer is marked as routing, through a tunnel if it was reached through one.
    pub fn add_to_routing_table(&mut self, public_id: PublicId, peer_id: PeerId) -> (r: Option<AddedNodeDetails>)
        requires
            old(self).wf(),
        ensures
            final(self).wf(),
            kad_our_name(final(self)@.table) == kad_our_name(old(self)@.table),
            r is Some <==> (!kad_contents(old(self)@.table).contains(public_id.name_view())
                && kad_allows(old(self)@.table, public_id.name_view())),
            r is Some ==> kad_contents(final(self)@.table) == kad_contents(old(self)@.table).insert(
                public_id.name_view(),
            ) && exists|now: u64|
                #[trigger] routed(old(self)@, public_id, peer_id, final(self)@.table, now)
                    == final(self)@,
            r is None ==> kad_contents(final(self)@.table) == kad_contents(old(self)@.table)
                && final(self)@ == (PeerManagerView { table: final(self)@.table, ..old(self)@ }),
    {
        proof {
            public_id.lemma_name_spec();
        }
        let name = public_id.name();
        let result = kad_add(&mut self.routing_table, name);
        if result.is_some() {
            let now = self.now();
            let previous = match self.node_map.get(&name) {
                Some(e) => Some(e.1),
                None => None,
            };
            let tunnel = match previous {
                Some(PeerState::SearchingForTunnel) => true,
                Some(PeerState::AwaitingNodeIdentify(true)) => true,
                Some(PeerState::Routing(t)) => t,
                _ => false,
            };
            let _ = self.node_map.insert(name, (now, PeerState::Routing(tunnel)));
            let _ = self.pub_id_map.insert(peer_id, public_id);
            assert(routed(old(self)@, public_id, peer_id, self@.table, now) == self@);
        }
        result
    }

    /// If unneeded, removes the given peer from the routing table and returns `true`.  Our proxy,
    /// our clients, and peers whose known name differs are always kept.
    pub fn remove_if_unneeded(&mut self, name: &NameType, peer_id: &PeerId) -> (r: bool)
        requires
            old(self).wf(),
        ensures
            final(self).wf(),
            kad_our_name(final(self)@.table) == kad_our_name(old(self)@.table),
            ({
                let v = old(self)@;
                let eligible = !is_proxy_peer(v, *peer_id) && !v.clients.contains_key(*peer_id)
                    && v.pub_ids.contains_key(*peer_id) && v.pub_ids[*peer_id].name_spec() == *name;
                &&& !eligible ==> !r && final(self)@ == v
                &&& eligible ==> r == kad_unneeded(v.table, name@)
                &&& eligible && r ==> kad_contents(final(self)@.table) == kad_contents(v.table).remove(
                    name@,
                ) && final(self)@ == (PeerManagerView {
                    table: final(self)@.table,
                    pub_ids: v.pub_ids.remove(*peer_id),
                    nodes: v.nodes.remove(*name),
                    ..v
                })
                &&& eligible && !r ==> kad_contents(final(self)@.table) == kad_contents(v.table)
                    && final(self)@ == (PeerManagerView { table: final(self)@.table, ..v })
            }),
    {
        if self.get_proxy_public_id(peer_id).is_some() || self.get_client(peer_id).is_some() {
            return false;
        }
        let same = match self.pub_id_map.get(peer_id) {
            Some(id) => {
                let n = id.name();
                let e = names_equal(&n, name);
                proof {
                    if e {
                        crate::name_type::lemma_name_view_injective(n, *name);
                    }
                }
                e
            },
            None => false,
        };
        if !same {
            return false;
        }
        if !kad_remove_if_unneeded(&mut self.routing_table, name) {
            return false;
        }
        let _ = self.pub_id_map.remove(peer_id);
        let _ = self.node_map.remove(name);
        true
    }

    /// Returns `true` if we are directly connected to both peers.
    pub fn can_tunnel_for(&self, peer_id: &PeerId, dst_id: &PeerId) -> (r: bool)
        requires
            self.wf(),
        ensures
            r == (peer_state(self@, *peer_id) == Some(PeerState::<A>::Routing(false))
                && peer_state(self@, *dst_id) == Some(PeerState::<A>::Routing(false))),
    {
        let a = self.direct_routing(peer_id);
        let b = self.direct_routing(dst_id);
        a && b
    }

    /// Whether the peer is routing and directly connected.
    fn direct_routing(&self, peer_id: &PeerId) -> (r: bool)
        requires
            self.wf(),
        ensures
            r == (peer_state(self@, *peer_id) == Some(PeerState::<A>::Routing(false))),
    {
        match self.pub_id_map.get(peer_id) {
            Some(id) => match self.get_state(id) {
                Some(st) => match st {
                    PeerState::Routing(false) => true,
                    _ => false,
                },
                None => false,
            },
            None => false,
        }
    }

    /// The state of the node of `pub_id`, if known.
    pub fn get_state(&self, pub_id: &PublicId) -> (r: Option<&PeerState<A>>)
        requires
            self.wf(),
        ensures
            match r {
                Some(st) => state_of(self@, *pub_id) == Some(*st),
                None => state_of(self@, *pub_id) is None,
            },
    {
        match self.node_map.get(&pub_id.name()) {
            Some(e) => Some(&e.1),
            None => None,
        }
    }

    /// Returns the proxy node's public ID, if it has the given peer ID.
    pub fn get_proxy_public_id(&self, peer_id: &PeerId) -> (r: Option<&PublicId>)
        ensures
            match r {
                Some(id) => is_proxy_peer(self@, *peer_id) && *id == self@.proxy->Some_0.2,
                None => !is_proxy_peer(self@, *peer_id),
            },
    {
        match &self.proxy {
            Some(p) => {
                if p.1 == *peer_id {
                    Some(&p.2)
                } else {
                    None
                }
            },
            None => None,
        }
    }

    /// Returns the proxy node's peer ID, if it has the given name.
    pub fn get_proxy_peer_id(&self, name: &NameType) -> (r: Option<&PeerId>)
        ensures
            match r {
                Some(p) => self@.proxy is Some && self@.proxy->Some_0.2.name_spec() == *name && *p
                    == self@.proxy->Some_0.1,
                None => !(self@.proxy is Some && self@.proxy->Some_0.2.name_spec() == *name),
            },
    {
        match &self.proxy {
            Some(p) => {
                let n = p.2.name();
                if names_equal(&n, name) {
                    proof {
                        crate::name_type::lemma_name_view_injective(n, *name);
                    }
                    Some(&p.1)
                } else {
                    None
                }
            },
            None => None,
        }
    }

    /// Inserts the given peer as a proxy node if we have none; returns `false` if it is not
    /// accepted and should be disconnected.
    pub fn set_proxy(&mut self, peer_id: PeerId, public_id: PublicId) -> (r: bool)
        requires
            old(self).wf(),
        ensures
            final(self).wf(),
            old(self)@.proxy is Some ==> r == (old(self)@.proxy->Some_0.1 == peer_id)
                && final(self)@ == old(self)@,
            old(self)@.proxy is None ==> r && exists|now: u64|
                #[trigger] with_proxy(old(self)@, peer_id, public_id, now) == final(self)@,
    {
        match self.proxy {
            Some((_, proxy_id, _)) => proxy_id == peer_id,
            None => {
                let now = self.now();
                self.proxy = Some((now, peer_id, public_id));
                assert(with_proxy(old(self)@, peer_id, public_id, now) == self@);
                true
            },
        }
    }

    /// Inserts the given client into the map.
    pub fn insert_client(&mut self, peer_id: PeerId, public_id: &PublicId, client_restriction: bool)
        requires
            old(self).wf(),
        ensures
            final(self).wf(),
            exists|now: u64|
                #[trigger] with_client(
                    old(self)@,
                    peer_id,
                    public_id.sign_key_spec(),
                    client_restriction,
                    now,
                ) == final(self)@,
    {
        let now = self.now();
        let info = ClientInfo {
            public_key: public_id.signing_public_key(),
            client_restriction: client_restriction,
            timestamp: now,
        };
        let _ = self.client_map.insert(peer_id, info);
        assert(with_client(old(self)@, peer_id, info.public_key, client_restriction, now) == self@);
    }

    /// Returns the given client's info, if present.
    pub fn get_client(&self, peer_id: &PeerId) -> (r: Option<&ClientInfo>)
        requires
            self.wf(),
        ensures
            match r {
                Some(c) => self@.clients.contains_key(*peer_id) && *c == self@.clients[*peer_id],
                None => !self@.clients.contains_key(*peer_id),
            },
    {
        self.client_map.get(peer_id)
    }

    /// Removes the given peer ID from the clients and returns its info, if present.
    pub fn remove_client(&mut self, peer_id: &PeerId) -> (r: Option<ClientInfo>)
        requires
            old(self).wf(),
        ensures
            final(self).wf(),
            final(self)@ == (PeerManagerView {
                clients: old(self)@.clients.remove(*peer_id),
                ..old(self)@
            }),
            r == (if old(self)@.clients.contains_key(*peer_id) {
                Some(old(self)@.clients[*peer_id])
            } else {
                None
            }),
    {
        self.client_map.remove(peer_id)
    }

    /// Returns `true` if the given peer is not yet in the routing table but is allowed to
    /// connect.
    pub fn allow_connect(&self, name: &NameType) -> (r: bool)
        ensures
            r == (!kad_contents(self@.table).contains(name@) && kad_allows(self@.table, name@)),
    {
        !kad_contains(&self.routing_table, name) && kad_allow_connection(&self.routing_table, name)
    }

    /// Removes all entries that are not in `Routing` or `AwaitingNodeIdentify` state and have
    /// timed out.
    pub fn clear_caches(&mut self)
        requires
            old(self).wf(),
        ensures
            final(self).wf(),
            exists|now: u64| #[trigger] expired(old(self)@, now) == final(self)@,
    {
        let now = self.now();
        self.remove_expired_at(now);
    }
}

/// The manager after the clients that timed out at `now` are dropped, and the proxy too if it
/// timed out.
pub open spec fn without_stale<A>(v: PeerManagerView<A>, now: u64) -> PeerManagerView<A> {
    PeerManagerView {
        clients: Map::new(
            |p: PeerId| v.clients.contains_key(p) && !client_stale(v.clients[p], now),
            |p: PeerId| v.clients[p],
        ),
        proxy: if v.proxy is Some && joining_timed_out(v.proxy->Some_0.0, now) {
            None
        } else {
            v.proxy
        },
        ..v
    }
}

/// The clients that do not intend to become a node.
pub open spec fn restricted_clients(clients: Map<PeerId, ClientInfo>) -> Set<PeerId> {
    Set::new(|p: PeerId| clients.contains_key(p) && clients[p].client_restriction)
}

/// Whether our own ID or a peer's carries `n`.
pub open spec fn name_known<A>(v: PeerManagerView<A>, n: NameType) -> bool {
    n == v.our_public_id.name_spec() || exists|p: PeerId|
        v.pub_ids.contains_key(p) && #[trigger] v.pub_ids[p].name_spec() == n
}

/// The names among `names` that are known, in their order.
pub open spec fn known_names<A>(v: PeerManagerView<A>, names: Seq<NameType>) -> Seq<NameType>
    decreases names.len(),
{
    if names.len() == 0 {
        Seq::empty()
    } else {
        let p = known_names(v, names.drop_last());
        if name_known(v, names.last()) {
            p.push(names.last())
        } else {
            p
        }
    }
}

/// The peers carrying a name among `close`, with their names.
pub open spec fn tunnel_candidates<A>(v: PeerManagerView<A>, close: Seq<Seq<u8>>) -> Set<(NameType, PeerId)> {
    Set::new(
        |x: (NameType, PeerId)|
            v.pub_ids.contains_key(x.1) && x.0 == v.pub_ids[x.1].name_spec() && close.contains(x.0@),
    )
}

/// What `remove_peer` leaves besides the routing table.
pub open spec fn without_peer<A>(v: PeerManagerView<A>, peer_id: PeerId) -> PeerManagerView<A> {
    if v.pub_ids.contains_key(peer_id) {
        cleaned(
            PeerManagerView {
                pub_ids: v.pub_ids.remove(peer_id),
                nodes: v.nodes.remove(v.pub_ids[peer_id].name_spec()),
                ..v
            },
        )
    } else {
        v
    }
}

/// Whether a peer's public ID carries one of `names`.
pub open spec fn named_among(names: Seq<NameType>) -> spec_fn(PeerId, PublicId) -> bool {
    |k: PeerId, v: PublicId| names.contains(v.name_spec())
}

/// The peer ID of a pair.
pub open spec fn peer_key<V>() -> spec_fn(PeerId, V) -> PeerId {
    |k: PeerId, v: V| k
}

/// Returns true if `n` is among `names`.
fn name_in(names: &[NameType], n: &NameType) -> (r: bool)
    ensures
        r == names@.contains(*n),
{
    let mut i: usize = 0;
    while i < names.len()
        invariant
            0 <= i <= names@.len(),
            forall|j: int| 0 <= j < i ==> names@[j] != *n,
        decreases names@.len() - i,
    {
        if names_equal(&names[i], n) {
            proof {
                crate::name_type::lemma_name_view_injective(names@[i as int], *n);
            }
            return true;
        }
        i = i + 1;
    }
    false
}

impl<A: Copy> PeerManager<A> {
    /// Drops the entries that timed out: connecting entries `CONNECTION_TIMEOUT_SECS` old or
    /// older, then the tokens of peers no longer preparing their info, then the peer IDs of
    /// unknown nodes.  Routing and awaiting-identify entries are never dropped.
    pub fn remove_expired(&mut self)
        requires
            old(self).wf(),
        ensures
            final(self).wf(),
            exists|now: u64| #[trigger] expired(old(self)@, now) == final(self)@ && forall|k: NameType| #[trigger]
                final(self)@.nodes.contains_key(k) ==> !expired_entry(final(self)@.nodes[k], now),
            forall|k: NameType| #[trigger]
                final(self)@.nodes.contains_key(k) ==> old(self)@.nodes.contains_key(k)
                    && final(self)@.nodes[k] == old(self)@.nodes[k],
            forall|k: NameType| #[trigger]
                old(self)@.nodes.contains_key(k) && !is_transient(old(self)@.nodes[k].1)
                    ==> final(self)@.nodes.contains_key(k),
            forall|t: u32| #[trigger]
                final(self)@.tokens.contains_key(t) ==> state_of(final(self)@, final(self)@.tokens[t]) is Some
                    && state_of(final(self)@, final(self)@.tokens[t])->Some_0 is ConnectionInfoPreparing,
            forall|p: PeerId| #[trigger]
                final(self)@.pub_ids.contains_key(p) ==> state_of(final(self)@, final(self)@.pub_ids[p]) is Some,
    {
        let now = self.now();
        proof {
            law_expiry_keeps_maps_consistent(self@, now);
        }
        self.remove_expired_at(now);
        proof {
            assert forall|k: NameType| #[trigger]
                self@.nodes.contains_key(k) implies !expired_entry(self@.nodes[k], now) by {}
        }
    }

    /// Puts the node of `pub_id` into `state` now, then drops what timed out.
    fn insert_state(&mut self, pub_id: PublicId, state: PeerState<A>)
        requires
            old(self).wf(),
        ensures
            final(self).wf(),
            exists|now: u64| #[trigger] with_state(old(self)@, pub_id, state, now) == final(self)@,
    {
        let now = self.now();
        self.insert_state_at(pub_id, state, now);
    }

    /// Sets the state of the peer with `peer_id`, if its public ID is known.
    fn set_peer_state(&mut self, peer_id: PeerId, state: PeerState<A>) -> (r: bool)
        requires
            old(self).wf(),
        ensures
            final(self).wf(),
            r == old(self)@.pub_ids.contains_key(peer_id),
            !r ==> final(self)@ == old(self)@,
            r ==> exists|now: u64|
                #[trigger] with_state(old(self)@, old(self)@.pub_ids[peer_id], state, now)
                    == final(self)@,
    {
        match self.pub_id_map.get(&peer_id) {
            Some(id) => {
                let id = *id;
                self.insert_state(id, state);
                true
            },
            None => false,
        }
    }

    /// Marks the given peer as "connected and waiting for `NodeIdentify`".
    pub fn connected_to(&mut self, peer_id: PeerId) -> (r: bool)
        requires
            old(self).wf(),
        ensures
            final(self).wf(),
            r == old(self)@.pub_ids.contains_key(peer_id),
            !r ==> final(self)@ == old(self)@,
            r ==> exists|now: u64|
                #[trigger] with_state(
                    old(self)@,
                    old(self)@.pub_ids[peer_id],
                    PeerState::AwaitingNodeIdentify(false),
                    now,
                ) == final(self)@,
    {
        self.set_peer_state(peer_id, PeerState::AwaitingNodeIdentify(false))
    }

    /// Marks the given peer as "connected via tunnel and waiting for `NodeIdentify`".
    pub fn tunnelling_to(&mut self, peer_id: PeerId) -> (r: bool)
        requires
            old(self).wf(),
        ensures
            final(self).wf(),
            r == old(self)@.pub_ids.contains_key(peer_id),
            !r ==> final(self)@ == old(self)@,
            r ==> exists|now: u64|
                #[trigger] with_state(
                    old(self)@,
                    old(self)@.pub_ids[peer_id],
                    PeerState::AwaitingNodeIdentify(true),
                    now,
                ) == final(self)@,
    {
        self.set_peer_state(peer_id, PeerState::AwaitingNodeIdentify(true))
    }

    /// Returns the public ID of the given peer, if it is in `CrustConnecting` state.
    pub fn get_connecting_peer(&mut self, peer_id: &PeerId) -> (r: Option<&PublicId>)
        requires
            old(self).wf(),
        ensures
            final(self)@ == old(self)@,
            final(self).wf(),
            match r {
                Some(id) => peer_state(old(self)@, *peer_id) == Some(PeerState::<A>::CrustConnecting)
                    && *id == old(self)@.pub_ids[*peer_id],
                None => peer_state(old(self)@, *peer_id) != Some(PeerState::<A>::CrustConnecting),
            },
    {
        match self.pub_id_map.get(peer_id) {
            Some(id) => match self.get_state(id) {
                Some(PeerState::CrustConnecting) => Some(id),
                _ => None,
            },
            None => None,
        }
    }

    /// Returns the public ID of the given peer, if it is in `Routing` state.
    pub fn get_routing_peer(&self, peer_id: &PeerId) -> (r: Option<&PublicId>)
        requires
            self.wf(),
        ensures
            match r {
                Some(id) => peer_state(self@, *peer_id) is Some && peer_state(self@, *peer_id)->Some_0 is Routing
                    && *id == self@.pub_ids[*peer_id],
                None => !(peer_state(self@, *peer_id) is Some && peer_state(self@, *peer_id)->Some_0 is Routing),
            },
    {
        match self.pub_id_map.get(peer_id) {
            Some(id) => match self.get_state(id) {
                Some(PeerState::Routing(_)) => Some(id),
                _ => None,
            },
            None => None,
        }
    }

    /// Returns the peer IDs of the nodes bearing one of the names.
    pub fn get_peer_ids(&self, names: &[NameType]) -> (r: Vec<PeerId>)
        requires
            self.wf(),
        ensures
            lists_exactly(
                r@,
                Set::new(
                    |p: PeerId|
                        self@.pub_ids.contains_key(p) && names@.contains(self@.pub_ids[p].name_spec()),
                ),
            ),
    {
        let ghost pred = named_among(names@);
        let ghost f = peer_key::<PublicId>();
        let ghost s = self.pub_id_map.pairs();
        let mut r: Vec<PeerId> = Vec::new();
        let mut i: usize = 0;
        while i < self.pub_id_map.len()
            invariant
                self.wf(),
                s == self.pub_id_map.pairs(),
                pred == named_among(names@),
                f == peer_key::<PublicId>(),
                0 <= i <= s.len(),
                r@ == pairs_where(s.take(i as int), pred, f),
            decreases s.len() - i,
        {
            let id = *self.pub_id_map.value_at(i);
            let p = *self.pub_id_map.key_at(i);
            proof {
                assert(s.take(i + 1).drop_last() =~= s.take(i as int));
                assert(s.take(i + 1).last() == s[i as int]);
            }
            let ghost before = r@;
            let found = name_in(names, &id.name());
            if found {
                r.push(p);
            }
            proof {
                assert(pred(s[i as int].0, s[i as int].1) == found);
                assert(f(s[i as int].0, s[i as int].1) == p);
                assert(r@ == pairs_where(s.take(i + 1), pred, f));
            }
            i = i + 1;
        }
        proof {
            assert(s.take(s.len() as int) =~= s);
            self.pub_id_map.lemma_pairs();
            lemma_pairs_where(s, pred, f);
            let want = Set::new(
                |p: PeerId|
                    self@.pub_ids.contains_key(p) && names@.contains(self@.pub_ids[p].name_spec()),
            );
            assert forall|p: PeerId| r@.to_set().contains(p) <==> want.contains(p) by {
                if r@.contains(p) {
                    let i = choose|i: int| 0 <= i < s.len() && pred(s[i].0, s[i].1) && #[trigger] f(s[i].0, s[i].1) == p;
                    assert(self@.pub_ids[s[i].0] == s[i].1);
                }
                if want.contains(p) {
                    let j = choose|j: int| 0 <= j < s.len() && s[j].0 == p;
                    assert(self@.pub_ids[s[j].0] == s[j].1);
                    assert(f(s[j].0, s[j].1) == p);
                }
            }
            assert(r@.to_set() =~= want);
        }
        r
    }
}

/// The manager with the public ID of `peer_id` set.
pub open spec fn with_pub_id<A>(v: PeerManagerView<A>, peer_id: PeerId, id: PublicId) -> PeerManagerView<A> {
    PeerManagerView { pub_ids: v.pub_ids.insert(peer_id, id), ..v }
}

/// The manager with `token` standing for `id`.
pub open spec fn with_token<A>(v: PeerManagerView<A>, token: u32, id: PublicId) -> PeerManagerView<A> {
    PeerManagerView { tokens: v.tokens.insert(token, id), ..v }
}

/// The manager after `token` is handed out for preparing our connection info for `id` at
/// `now`.
pub open spec fn token_spec<A>(v: PeerManagerView<A>, src: A, dst: A, id: PublicId, token: u32, now: u64) -> PeerManagerView<A> {
    with_state(with_token(v, token, id), id, PeerState::ConnectionInfoPreparing(src, dst, None), now)
}

/// Whether a peer's node is searching for a tunnel.
pub open spec fn searching_in<A>(nodes: Map<NameType, (u64, PeerState<A>)>) -> spec_fn(PeerId, PublicId) -> bool {
    |k: PeerId, v: PublicId|
        nodes.contains_key(v.name_spec()) && nodes[v.name_spec()].1 is SearchingForTunnel
}

/// Whether a peer's name is among `close`.
pub open spec fn close_to(close: Seq<NameType>) -> spec_fn(PeerId, PublicId) -> bool {
    |k: PeerId, v: PublicId| close.contains(v.name_spec())
}

/// A peer's name with its peer ID.
pub open spec fn name_and_peer() -> spec_fn(PeerId, PublicId) -> (NameType, PeerId) {
    |k: PeerId, v: PublicId| (v.name_spec(), k)
}

impl<A: Copy> PeerManager<A> {
    /// Returns all peers we are looking for a tunnel to.
    pub fn peers_needing_tunnel(&self) -> (r: Vec<PeerId>)
        requires
            self.wf(),
        ensures
            lists_exactly(
                r@,
                Set::new(
                    |p: PeerId|
                        peer_state(self@, p) == Some(PeerState::<A>::SearchingForTunnel),
                ),
            ),
    {
        let ghost pred = searching_in(self@.nodes);
        let ghost f = peer_key::<PublicId>();
        let ghost s = self.pub_id_map.pairs();
        let mut r: Vec<PeerId> = Vec::new();
        let mut i: usize = 0;
        while i < self.pub_id_map.len()
            invariant
                self.wf(),
                s == self.pub_id_map.pairs(),
                pred == searching_in(self@.nodes),
                f == peer_key::<PublicId>(),
                0 <= i <= s.len(),
                r@ == pairs_where(s.take(i as int), pred, f),
            decreases s.len() - i,
        {
            let id = *self.pub_id_map.value_at(i);
            let p = *self.pub_id_map.key_at(i);
            proof {
                assert(s.take(i + 1).drop_last() =~= s.take(i as int));
                assert(s.take(i + 1).last() == s[i as int]);
            }
            let found = match self.get_state(&id) {
                Some(PeerState::SearchingForTunnel) => true,
                _ => false,
            };
            if found {
                r.push(p);
            }
            proof {
                assert(pred(s[i as int].0, s[i as int].1) == found);
                assert(f(s[i as int].0, s[i as int].1) == p);
                assert(r@ == pairs_where(s.take(i + 1), pred, f));
            }
            i = i + 1;
        }
        proof {
            assert(s.take(s.len() as int) =~= s);
            self.pub_id_map.lemma_pairs();
            lemma_pairs_where(s, pred, f);
            let want = Set::new(
                |p: PeerId| peer_state(self@, p) == Some(PeerState::<A>::SearchingForTunnel),
            );
            assert forall|p: PeerId| r@.to_set().contains(p) <==> want.contains(p) by {
                if r@.contains(p) {
                    let i = choose|i: int|
                        0 <= i < s.len() && pred(s[i].0, s[i].1) && #[trigger] f(s[i].0, s[i].1) == p;
                    assert(self@.pub_ids[s[i].0] == s[i].1);
                }
                if want.contains(p) {
                    let j = choose|j: int| 0 <= j < s.len() && s[j].0 == p;
                    assert(self@.pub_ids[s[j].0] == s[j].1);
                    assert(f(s[j].0, s[j].1) == p);
                }
            }
            assert(r@.to_set() =~= want);
        }
        r
    }

    /// Sets the given peer to state `SearchingForTunnel` and returns the peers to ask for a
    /// tunnel: those of the close group of its name, with their names.  Returns nothing, and
    /// changes nothing, if the peer is already connected.
    pub fn set_searching_for_tunnel(&mut self, peer_id: PeerId, pub_id: &PublicId) -> (r: Vec<(NameType, PeerId)>)
        requires
            old(self).wf(),
        ensures
            final(self).wf(),
            ({
                let st = state_of(old(self)@, *pub_id);
                let connected = st is Some && (st->Some_0 is Routing || st->Some_0 is AwaitingNodeIdentify);
                &&& connected ==> r@.len() == 0 && final(self)@ == old(self)@
                &&& !connected ==> (exists|now: u64|
                    #[trigger] with_state(
                        with_pub_id(old(self)@, peer_id, *pub_id),
                        *pub_id,
                        PeerState::SearchingForTunnel,
                        now,
                    ) == final(self)@) && lists_exactly(
                    r@,
                    tunnel_candidates(
                        final(self)@,
                        kad_closest(old(self)@.table, pub_id.name_view(), GROUP_SIZE, false),
                    ),
                )
            }),
    {
        let connected = match self.get_state(pub_id) {
            Some(PeerState::Routing(_)) => true,
            Some(PeerState::AwaitingNodeIdentify(_)) => true,
            _ => false,
        };
        if connected {
            return Vec::new();
        }
        let _ = self.pub_id_map.insert(peer_id, *pub_id);
        self.insert_state(*pub_id, PeerState::SearchingForTunnel);
        let close_group = kad_closest_nodes_to(&self.routing_table, &pub_id.name(), GROUP_SIZE);
        let ghost pred = close_to(close_group@);
        let ghost f = name_and_peer();
        let ghost s = self.pub_id_map.pairs();
        let mut r: Vec<(NameType, PeerId)> = Vec::new();
        let mut i: usize = 0;
        while i < self.pub_id_map.len()
            invariant
                self.wf(),
                s == self.pub_id_map.pairs(),
                pred == close_to(close_group@),
                f == name_and_peer(),
                0 <= i <= s.len(),
                r@ == pairs_where(s.take(i as int), pred, f),
            decreases s.len() - i,
        {
            let id = *self.pub_id_map.value_at(i);
            let p = *self.pub_id_map.key_at(i);
            proof {
                assert(s.take(i + 1).drop_last() =~= s.take(i as int));
                assert(s.take(i + 1).last() == s[i as int]);
            }
            let n = id.name();
            let found = name_in(close_group.as_slice(), &n);
            if found {
                r.push((n, p));
            }
            proof {
                assert(pred(s[i as int].0, s[i as int].1) == found);
                assert(f(s[i as int].0, s[i as int].1) == (n, p));
                assert(r@ == pairs_where(s.take(i + 1), pred, f));
            }
            i = i + 1;
        }
        proof {
            assert(s.take(s.len() as int) =~= s);
            self.pub_id_map.lemma_pairs();
            assert forall|k1: PeerId, v1: PublicId, k2: PeerId, v2: PublicId| #[trigger] f(k1, v1) == #[trigger] f(k2, v2) implies k1 == k2 by {
                assert(f(k1, v1).1 == k1);
                assert(f(k2, v2).1 == k2);
            }
            lemma_pairs_where(s, pred, f);
            let close = names_view(close_group@);
            let want = tunnel_candidates(self@, close);
            assert forall|x: (NameType, PeerId)| r@.to_set().contains(x) <==> want.contains(x) by {
                if r@.contains(x) {
                    let i = choose|i: int|
                        0 <= i < s.len() && pred(s[i].0, s[i].1) && #[trigger] f(s[i].0, s[i].1) == x;
                    assert(self@.pub_ids[s[i].0] == s[i].1);
                    let j = choose|j: int| 0 <= j < close_group@.len() && close_group@[j] == s[i].1.name_spec();
                    assert(close[j] == x.0@);
                }
                if want.contains(x) {
                    let j = choose|j: int| 0 <= j < s.len() && s[j].0 == x.1;
                    assert(self@.pub_ids[s[j].0] == s[j].1);
                    let c = choose|c: int| 0 <= c < close.len() && close[c] == x.0@;
                    assert(close_group@[c]@ == x.0@);
                    crate::name_type::lemma_name_view_injective(close_group@[c], x.0);
                    assert(close_group@.contains(s[j].1.name_spec()));
                    assert(f(s[j].0, s[j].1) == x);
                }
            }
            assert(r@.to_set() =~= want);
        }
        r
    }

    /// Returns a new token for preparing our connection info and puts the given peer into
    /// `ConnectionInfoPreparing`, unless we are connecting or connected to it already.
    pub fn get_connection_token(&mut self, src: A, dst: A, pub_id: PublicId) -> (r: Option<u32>)
        requires
            old(self).wf(),
        ensures
            final(self).wf(),
            ({
                let st = state_of(old(self)@, pub_id);
                let busy = st is Some && !(st->Some_0 is SearchingForTunnel);
                &&& busy ==> r is None && final(self)@ == old(self)@
                &&& !busy ==> r is Some && exists|now: u64|
                    #[trigger] token_spec(old(self)@, src, dst, pub_id, r->Some_0, now)
                        == final(self)@
            }),
    {
        let busy = match self.get_state(&pub_id) {
            Some(PeerState::SearchingForTunnel) => false,
            Some(_) => true,
            None => false,
        };
        if busy {
            return None;
        }
        let token = random_token();
        let _ = self.connection_token_map.insert(token, pub_id);
        let ghost mid = self@;
        assert(mid == with_token(old(self)@, token, pub_id));
        self.insert_state(pub_id, PeerState::ConnectionInfoPreparing(src, dst, None));
        proof {
            let now = choose|now: u64|
                #[trigger] with_state(mid, pub_id, PeerState::ConnectionInfoPreparing(src, dst, None), now)
                    == self@;
            assert(token_spec(old(self)@, src, dst, pub_id, token, now) == self@);
        }
        let r = Some(token);
        assert(exists|now: u64| #[trigger] token_spec(old(self)@, src, dst, pub_id, r->Some_0, now) == self@);
        r
    }

    /// Removes the given peer; returns its name and what the routing table reported, if it was
    /// in the routing table.
    pub fn remove_peer(&mut self, peer_id: &PeerId) -> (r: Option<(NameType, DroppedNodeDetails)>)
        requires
            old(self).wf(),
        ensures
            final(self).wf(),
            kad_our_name(final(self)@.table) == kad_our_name(old(self)@.table),
            final(self)@ == (PeerManagerView { table: final(self)@.table, ..without_peer(old(self)@, *peer_id) }),
            !old(self)@.pub_ids.contains_key(*peer_id) ==> r is None && final(self)@ == old(self)@,
            old(self)@.pub_ids.contains_key(*peer_id) ==> {
                let name = old(self)@.pub_ids[*peer_id].name_spec();
                &&& kad_contents(final(self)@.table) == kad_contents(old(self)@.table).remove(name@)
                &&& r is Some <==> kad_contents(old(self)@.table).contains(name@)
                &&& r is Some ==> r->Some_0.0 == name && r->Some_0.1.incomplete_bucket == kad_dropped(
                    old(self)@.table,
                    name@,
                )
            },
    {
        match self.pub_id_map.remove(peer_id) {
            Some(id) => {
                let name = id.name();
                let _ = self.node_map.remove(&name);
                self.cleanup_pub_id_map();
                match kad_remove(&mut self.routing_table, &name) {
                    Some(d) => Some((name, d)),
                    None => None,
                }
            },
            None => None,
        }
    }
}

impl<A: Copy> PeerManager<A> {
    /// Removes all clients that intend to become a node but have timed out, and returns their
    /// peer IDs; also removes our proxy if it has timed out, and returns its peer ID last.
    pub fn remove_stale_joining_nodes(&mut self) -> (r: Vec<PeerId>)
        requires
            old(self).wf(),
        ensures
            final(self).wf(),
            exists|now: u64|
                #[trigger] without_stale(old(self)@, now) == final(self)@ && ({
                    let v = old(self)@;
                    let proxy_gone = v.proxy is Some && joining_timed_out(v.proxy->Some_0.0, now);
                    &&& proxy_gone ==> r@.len() > 0 && r@.last() == v.proxy->Some_0.1 && lists_exactly(
                        r@.drop_last(),
                        stale_clients(v.clients, now),
                    )
                    &&& !proxy_gone ==> lists_exactly(r@, stale_clients(v.clients, now))
                }),
    {
        let now = self.now();
        let ghost m0 = self.client_map@;
        let mut r: Vec<PeerId> = Vec::new();
        let mut i: usize = 0;
        while i < self.client_map.len()
            invariant
                self.wf(),
                self.epoch == old(self).epoch,
                self.connection_token_map == old(self).connection_token_map,
                self.node_map == old(self).node_map,
                self.pub_id_map == old(self).pub_id_map,
                self.proxy == old(self).proxy,
                self.routing_table == old(self).routing_table,
                self.our_public_id == old(self).our_public_id,
                m0 == old(self)@.clients,
                0 <= i <= self.client_map.pairs().len(),
                forall|k: PeerId| #[trigger]
                    self.client_map@.contains_key(k) ==> m0.contains_key(k) && self.client_map@[k]
                        == m0[k],
                forall|k: PeerId|
                    #[trigger] m0.contains_key(k) && !client_stale(m0[k], now)
                        ==> self.client_map@.contains_key(k),
                forall|j: int|
                    0 <= j < i ==> !client_stale((#[trigger] self.client_map.pairs()[j]).1, now),
                r@.no_duplicates(),
                forall|p: PeerId|
                    #[trigger] r@.contains(p) <==> (m0.contains_key(p) && !self.client_map@.contains_key(p)),
            decreases self.client_map.pairs().len() - i,
        {
            proof {
                self.client_map.lemma_pairs();
            }
            let info = *self.client_map.value_at(i);
            if info.is_stale(now) {
                let ghost old_cur = self.client_map@;
                let ghost old_r = r@;
                let (p, _) = self.client_map.remove_at(i);
                proof {
                    assert(old_cur.contains_key(p));
                    assert(!r@.contains(p));
                }
                r.push(p);
                proof {
                    assert(r@.drop_last() =~= old_r);
                    assert forall|q: PeerId|
                        #[trigger] r@.contains(q) <==> (m0.contains_key(q) && !self.client_map@.contains_key(q)) by {
                        if q != p {
                            assert(r@.contains(q) == r@.drop_last().contains(q)) by {
                                if r@.contains(q) {
                                    let k = choose|k: int| 0 <= k < r@.len() && r@[k] == q;
                                    assert(r@.drop_last()[k] == q);
                                }
                                if r@.drop_last().contains(q) {
                                    let k = choose|k: int| 0 <= k < r@.drop_last().len() && r@.drop_last()[k] == q;
                                    assert(r@[k] == q);
                                }
                            }
                        } else {
                            assert(r@[r@.len() - 1] == p);
                        }
                    }
                    assert forall|a: int, b: int| 0 <= a < r@.len() && 0 <= b < r@.len() && a != b implies r@[a] != r@[b] by {
                        if a < r@.len() - 1 && b < r@.len() - 1 {
                            assert(r@.drop_last()[a] == r@[a] && r@.drop_last()[b] == r@[b]);
                        } else if a < r@.len() - 1 {
                            assert(r@.drop_last()[a] == r@[a]);
                            assert(r@.drop_last().contains(r@[a]));
                        } else {
                            assert(r@.drop_last()[b] == r@[b]);
                            assert(r@.drop_last().contains(r@[b]));
                        }
                    }
                }
            } else {
                i = i + 1;
            }
        }
        proof {
            self.client_map.lemma_pairs();
            let want = Map::new(
                |p: PeerId| m0.contains_key(p) && !client_stale(m0[p], now),
                |p: PeerId| m0[p],
            );
            assert forall|k: PeerId| #[trigger] self.client_map@.contains_key(k) implies want.contains_key(k) by {
                let j = choose|j: int|
                    0 <= j < self.client_map.pairs().len() && self.client_map.pairs()[j].0 == k;
                assert(!client_stale(self.client_map.pairs()[j].1, now));
            }
            assert(self.client_map@ =~= want);
            assert forall|p: PeerId| r@.to_set().contains(p) <==> stale_clients(m0, now).contains(p) by {}
            assert(r@.to_set() =~= stale_clients(m0, now));
        }
        let ghost r_clients = r@;
        match self.proxy {
            Some((timestamp, peer_id, _)) => {
                let elapsed: u64 = if now >= timestamp {
                    now - timestamp
                } else {
                    0
                };
                if elapsed > JOINING_NODE_TIMEOUT_SECS * 1000 {
                    r.push(peer_id);
                    self.proxy = None;
                    assert(r@.drop_last() =~= r_clients);
                }
            },
            None => {},
        }
        assert(without_stale(old(self)@, now) == self@);
        r
    }

    /// Returns the peer ID of the given node if it is our client (by its signing key) or our
    /// proxy.
    pub fn get_proxy_or_client_peer_id(&self, public_id: &PublicId) -> (r: Option<PeerId>)
        requires
            self.wf(),
        ensures
            ({
                let key = public_id.sign_key_spec();
                let is_client = exists|p: PeerId|
                    self@.clients.contains_key(p) && #[trigger] self@.clients[p].public_key == key;
                &&& is_client ==> r is Some && self@.clients.contains_key(r->Some_0)
                    && self@.clients[r->Some_0].public_key == key
                &&& !is_client ==> r == (if self@.proxy is Some && self@.proxy->Some_0.2 == *public_id {
                    Some(self@.proxy->Some_0.1)
                } else {
                    None
                })
            }),
    {
        let key = public_id.signing_public_key();
        proof {
            self.client_map.lemma_pairs();
        }
        let mut i: usize = 0;
        while i < self.client_map.len()
            invariant
                self.wf(),
                0 <= i <= self.client_map.pairs().len(),
                key == public_id.sign_key_spec(),
                forall|j: int|
                    0 <= j < i ==> (#[trigger] self.client_map.pairs()[j]).1.public_key != key,
            decreases self.client_map.pairs().len() - i,
        {
            proof {
                self.client_map.lemma_pairs();
            }
            let info = self.client_map.value_at(i);
            if same_sign_key(&info.public_key, &key) {
                let p = *self.client_map.key_at(i);
                return Some(p);
            }
            i = i + 1;
        }
        proof {
            self.client_map.lemma_pairs();
            if exists|p: PeerId|
                self@.clients.contains_key(p) && #[trigger] self@.clients[p].public_key == key {
                let p = choose|p: PeerId|
                    self@.clients.contains_key(p) && #[trigger] self@.clients[p].public_key == key;
                let j = choose|j: int|
                    0 <= j < self.client_map.pairs().len() && self.client_map.pairs()[j].0 == p;
                assert(self.client_map.pairs()[j].1.public_key != key);
            }
        }
        match &self.proxy {
            Some(p) => {
                if same_public_id(&p.2, public_id) {
                    Some(p.1)
                } else {
                    None
                }
            },
            None => None,
        }
    }

    /// Returns the number of clients for which we act as a proxy and which do not intend to
    /// become a node.
    pub fn client_num(&self) -> (r: usize)
        requires
            self.wf(),
        ensures
            r == restricted_clients(self@.clients).len(),
            restricted_clients(self@.clients).finite(),
            r <= self@.clients.len(),
    {
        let ghost s = self.client_map.pairs();
        proof {
            self.client_map.lemma_pairs();
        }
        let mut n: usize = 0;
        let mut i: usize = 0;
        let ghost mut seen = Set::<PeerId>::empty();
        while i < self.client_map.len()
            invariant
                self.wf(),
                s == self.client_map.pairs(),
                crate::assoc_map::keys_distinct(s),
                0 <= i <= s.len(),
                seen.finite(),
                n == seen.len(),
                n <= i,
                forall|p: PeerId|
                    #[trigger] seen.contains(p) <==> exists|j: int|
                        0 <= j < i && s[j].0 == p && s[j].1.client_restriction,
            decreases s.len() - i,
        {
            let info = self.client_map.value_at(i);
            if info.client_restriction {
                let ghost p = s[i as int].0;
                proof {
                    if seen.contains(p) {
                        let j = choose|j: int| 0 <= j < i && s[j].0 == p && s[j].1.client_restriction;
                        assert(s[j].0 == s[i as int].0);
                    }
                    seen = seen.insert(p);
                }
                n = n + 1;
            }
            i = i + 1;
        }
        proof {
            self.client_map.lemma_pairs();
            let want = restricted_clients(self@.clients);
            assert forall|p: PeerId| seen.contains(p) <==> want.contains(p) by {
                if seen.contains(p) {
                    let j = choose|j: int| 0 <= j < s.len() && s[j].0 == p && s[j].1.client_restriction;
                    assert(self@.clients[s[j].0] == s[j].1);
                }
                if want.contains(p) {
                    let j = choose|j: int| 0 <= j < s.len() && s[j].0 == p;
                    assert(self@.clients[s[j].0] == s[j].1);
                }
            }
            assert(seen =~= want);
        }
        n
    }

    /// Returns the number of clients for which we act as a proxy and which intend to become a
    /// node.
    pub fn joining_nodes_num(&self) -> (r: usize)
        requires
            self.wf(),
        ensures
            r == self@.clients.len() - restricted_clients(self@.clients).len(),
    {
        let c = self.client_num();
        self.client_map.len() - c
    }

    /// Our own public ID, or that of a peer, carrying `name`, if any.
    fn find_pub_id_named(&self, name: &NameType) -> (r: Option<PublicId>)
        requires
            self.wf(),
        ensures
            match r {
                Some(id) => id.name_spec() == *name && (id == self@.our_public_id || exists|p: PeerId|
                    self@.pub_ids.contains_key(p) && #[trigger] self@.pub_ids[p] == id),
                None => !name_known(self@, *name),
            },
            r is Some && *name == self@.our_public_id.name_spec() ==> r->Some_0 == self@.our_public_id,
    {
        let our = self.our_public_id.name();
        if names_equal(&our, name) {
            proof {
                crate::name_type::lemma_name_view_injective(our, *name);
            }
            return Some(self.our_public_id);
        }
        proof {
            self.pub_id_map.lemma_pairs();
        }
        let mut i: usize = 0;
        while i < self.pub_id_map.len()
            invariant
                self.wf(),
                0 <= i <= self.pub_id_map.pairs().len(),
                *name != self@.our_public_id.name_spec(),
                forall|j: int|
                    0 <= j < i ==> (#[trigger] self.pub_id_map.pairs()[j]).1.name_spec() != *name,
            decreases self.pub_id_map.pairs().len() - i,
        {
            proof {
                self.pub_id_map.lemma_pairs();
            }
            let id = *self.pub_id_map.value_at(i);
            let n = id.name();
            if names_equal(&n, name) {
                proof {
                    crate::name_type::lemma_name_view_injective(n, *name);
                    let p = self.pub_id_map.pairs()[i as int].0;
                    assert(self@.pub_ids[p] == id);
                }
                return Some(id);
            }
            i = i + 1;
        }
        proof {
            self.pub_id_map.lemma_pairs();
            if exists|p: PeerId| self@.pub_ids.contains_key(p) && #[trigger] self@.pub_ids[p].name_spec() == *name {
                let p = choose|p: PeerId| self@.pub_ids.contains_key(p) && #[trigger] self@.pub_ids[p].name_spec() == *name;
                let j = choose|j: int| 0 <= j < self.pub_id_map.pairs().len() && self.pub_id_map.pairs()[j].0 == p;
                assert(self@.pub_ids[self.pub_id_map.pairs()[j].0] == self.pub_id_map.pairs()[j].1);
            }
        }
        None
    }

    /// Returns the public IDs carrying the names, in the order of the names, skipping the names
    /// nobody known carries; our own ID stands for our own name.
    pub fn get_pub_ids(&self, names: &[NameType]) -> (r: Vec<PublicId>)
        requires
            self.wf(),
        ensures
            r@.len() == known_names(self@, names@).len(),
            forall|j: int|
                0 <= j < r@.len() ==> {
                    let n = known_names(self@, names@)[j];
                    &&& (#[trigger] r@[j]).name_spec() == n
                    &&& n == self@.our_public_id.name_spec() ==> r@[j] == self@.our_public_id
                    &&& n != self@.our_public_id.name_spec() ==> exists|p: PeerId|
                        self@.pub_ids.contains_key(p) && #[trigger] self@.pub_ids[p] == r@[j]
                },
    {
        let mut r: Vec<PublicId> = Vec::new();
        let mut i: usize = 0;
        while i < names.len()
            invariant
                self.wf(),
                0 <= i <= names@.len(),
                r@.len() == known_names(self@, names@.take(i as int)).len(),
                forall|j: int|
                    0 <= j < r@.len() ==> {
                        let n = known_names(self@, names@.take(i as int))[j];
                        &&& (#[trigger] r@[j]).name_spec() == n
                        &&& n == self@.our_public_id.name_spec() ==> r@[j] == self@.our_public_id
                        &&& n != self@.our_public_id.name_spec() ==> exists|p: PeerId|
                            self@.pub_ids.contains_key(p) && #[trigger] self@.pub_ids[p] == r@[j]
                    },
            decreases names@.len() - i,
        {
            let ghost t = names@.take(i + 1);
            proof {
                assert(t.drop_last() =~= names@.take(i as int));
                assert(t.last() == names@[i as int]);
            }
            match self.find_pub_id_named(&names[i]) {
                Some(id) => {
                    r.push(id);
                    proof {
                        assert(name_known(self@, names@[i as int])) by {
                            if id != self@.our_public_id {
                                let p = choose|p: PeerId| self@.pub_ids.contains_key(p) && #[trigger] self@.pub_ids[p] == id;
                                assert(self@.pub_ids[p].name_spec() == names@[i as int]);
                            }
                        }
                    }
                },
                None => {},
            }
            i = i + 1;
        }
        assert(names@.take(names@.len() as int) =~= names@);
        r
    }
}

// ------------------------------------------------------------------------------------------
// Laws of the peer manager
// ------------------------------------------------------------------------------------------

/// A state just set is not timed out.
proof fn lemma_fresh_state<A>(v: PeerManagerView<A>, id: PublicId, st: PeerState<A>, now: u64)
    ensures
        with_state(v, id, st, now).nodes.contains_key(id.name_spec()),
        with_state(v, id, st, now).nodes[id.name_spec()] == (now, st),
        state_of(with_state(v, id, st, now), id) == Some(st),
        with_state(v, id, st, now).clients == v.clients,
        with_state(v, id, st, now).proxy == v.proxy,
{
    let m = v.nodes.insert(id.name_spec(), (now, st));
    assert(!expired_entry(m[id.name_spec()], now));
}

/// Law: a joining client times out: removing stale joining nodes at `now` keeps every client
/// that was added as a client only, drops a client that intends to become a node once more than
/// `JOINING_NODE_TIMEOUT_SECS` have passed since it was added, and keeps it until then.
pub proof fn law_joining_clients_time_out<A>(v: PeerManagerView<A>, now: u64, p: PeerId)
    requires
        v.clients.contains_key(p),
    ensures
        v.clients[p].client_restriction ==> without_stale(v, now).clients.contains_key(p),
        !v.clients[p].client_restriction && elapsed_millis(v.clients[p].timestamp, now)
            > JOINING_NODE_TIMEOUT_SECS * 1000 ==> !without_stale(v, now).clients.contains_key(p),
        elapsed_millis(v.clients[p].timestamp, now) <= JOINING_NODE_TIMEOUT_SECS * 1000
            ==> without_stale(v, now).clients.contains_key(p),
        without_stale(v, now).clients.contains_key(p) ==> without_stale(v, now).clients[p] == v.clients[p],
{
}

/// Law: timing out (what `remove_expired` does at the current time) keeps the maps consistent
/// and drops exactly the stale connecting entries: every token left belongs to a peer that is
/// preparing its connection info, every known peer ID belongs to a known node, no entry that is
/// still connecting (preparing or holding connection info, connecting on the transport or
/// searching for a tunnel) is `CONNECTION_TIMEOUT_SECS` old or older, entries in the routing or
/// awaiting-identify state are never dropped, and nor is any younger entry.
pub proof fn law_expiry_keeps_maps_consistent<A>(v: PeerManagerView<A>, now: u64)
    ensures
        forall|t: u32| #[trigger]
            expired(v, now).tokens.contains_key(t) ==> state_of(expired(v, now), expired(v, now).tokens[t]) is Some
                && state_of(expired(v, now), expired(v, now).tokens[t])->Some_0 is ConnectionInfoPreparing,
        forall|p: PeerId| #[trigger]
            expired(v, now).pub_ids.contains_key(p) ==> state_of(expired(v, now), expired(v, now).pub_ids[p]) is Some,
        forall|k: NameType| #[trigger]
            expired(v, now).nodes.contains_key(k) ==> v.nodes.contains_key(k) && expired(v, now).nodes[k] == v.nodes[k]
                && !(is_transient(v.nodes[k].1) && elapsed_millis(v.nodes[k].0, now)
                >= CONNECTION_TIMEOUT_SECS * 1000),
        forall|k: NameType| #[trigger]
            v.nodes.contains_key(k) && !is_transient(v.nodes[k].1) ==> expired(v, now).nodes.contains_key(k),
        forall|k: NameType| #[trigger]
            v.nodes.contains_key(k) && elapsed_millis(v.nodes[k].0, now) < CONNECTION_TIMEOUT_SECS * 1000
                ==> expired(v, now).nodes.contains_key(k),
{
}

/// Law: when we ask for a token first, the prepared info is kept until the peer's info
/// arrives, and the two then come back together, leaving the peer connecting.
pub proof fn law_handshake_token_first<A>(
    v: PeerManagerView<A>,
    src: A,
    dst: A,
    id: PublicId,
    token: u32,
    our: PrivConnectionInfo,
    their: PubConnectionInfo,
    s2: A,
    d2: A,
    tok2: u32,
    now0: u64,
    now1: u64,
    now2: u64,
)
    requires
        !v.clients.contains_key(their.0),
        !is_proxy_peer(v, their.0),
    ensures
        ({
            let v1 = token_spec(v, src, dst, id, token, now0);
            let (r1, v2) = prepared_spec(v1, token, our, now1);
            let (r2, v3) = received_spec(v2, s2, d2, id, their, now2, tok2);
            &&& r1 == Ok::<ConnectionInfoPreparedResult<A>, Error>(
                ConnectionInfoPreparedResult { pub_id: id, src: src, dst: dst, infos: None },
            )
            &&& r2 == Ok::<ConnectionInfoReceivedResult, Error>(
                ConnectionInfoReceivedResult::Ready(our, their),
            )
            &&& state_of(v3, id) == Some(PeerState::<A>::CrustConnecting)
        }),
{
    let st = PeerState::ConnectionInfoPreparing(src, dst, None);
    let v1 = token_spec(v, src, dst, id, token, now0);
    lemma_fresh_state(with_token(v, token, id), id, st, now0);
    assert(v1.tokens.contains_key(token));
    assert(v1.tokens[token] == id);
    let v0 = PeerManagerView { tokens: v1.tokens.remove(token), ..v1 };
    lemma_fresh_state(v0, id, PeerState::ConnectionInfoReady(our), now1);
    let v2 = prepared_spec(v1, token, our, now1).1;
    lemma_fresh_state(v2, id, PeerState::CrustConnecting, now2);
}

/// Law: when the peer's info arrives first, we are handed a token; once our info is prepared
/// under it, the two come back together, with the authorities given first, leaving the peer
/// connecting.
pub proof fn law_handshake_info_first<A>(
    v: PeerManagerView<A>,
    src: A,
    dst: A,
    id: PublicId,
    their: PubConnectionInfo,
    token: u32,
    our: PrivConnectionInfo,
    now1: u64,
    now2: u64,
)
    requires
        !v.clients.contains_key(their.0),
        !is_proxy_peer(v, their.0),
        !v.nodes.contains_key(id.name_spec()),
    ensures
        ({
            let (r1, v1) = received_spec(v, src, dst, id, their, now1, token);
            let (r2, v2) = prepared_spec(v1, token, our, now2);
            &&& r1 == Ok::<ConnectionInfoReceivedResult, Error>(
                ConnectionInfoReceivedResult::Prepare(token),
            )
            &&& r2 == Ok::<ConnectionInfoPreparedResult<A>, Error>(
                ConnectionInfoPreparedResult {
                    pub_id: id,
                    src: src,
                    dst: dst,
                    infos: Some((our, their)),
                },
            )
            &&& state_of(v2, id) == Some(PeerState::<A>::CrustConnecting)
        }),
{
    let st = PeerState::ConnectionInfoPreparing(src, dst, Some(their));
    lemma_fresh_state(v, id, st, now1);
    let v1 = received_spec(v, src, dst, id, their, now1, token).1;
    assert(v1.tokens[token] == id);
    let v0 = PeerManagerView { tokens: v1.tokens.remove(token), ..v1 };
    lemma_fresh_state(v0, id, PeerState::CrustConnecting, now2);
}

} // verus!
