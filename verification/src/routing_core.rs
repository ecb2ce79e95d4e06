//! The core of a routing node: our identity, the routing table once we have a network name, and
//! the relay map of the other connections, with the events that adding and dropping peers
//! give rise to.
use crate::assoc_map::KeyEq;
use crate::crypto::same_sign_key;
use crate::mock_network::Endpoint;
use crate::name_type::NameType;
use crate::peer::Peer;
use crate::public_id::PublicId;
use crate::relay::{accepts, has_bootstrap, with_peer, without_name, RelayMap, RelayMapView};
use crate::routing_table::{
    add_node_post, close_group_of, contains_name, index_of_name, is_close_spec, name_of,
    Connection, NodeInfo, NodeInfoView, RoutingTable, TableView,
};
use crate::types::Address;
use vstd::prelude::*;

verus! {

/// Who is at the other end of a connection, in relation to us.
#[derive(Clone, Copy, Debug, PartialEq, Eq, PartialOrd, Ord)]
pub enum ConnectionName {
    /// A peer we relay messages for.
    Relay(Address),
    /// A node of our routing table.
    Routing(NameType),
    /// A node we bootstrapped off.
    Bootstrap(NameType),
    /// A peer not identified yet; the flag is set when it connected as a bootstrap connection.
    Unidentified(Endpoint, bool),
}

/// Returns true if the two addresses are the same address.
pub fn addresses_equal(a: &Address, b: &Address) -> (r: bool)
    ensures
        r == (*a == *b),
{
    match (a, b) {
        (Address::Client(x), Address::Client(y)) => same_sign_key(x, y),
        (Address::Node(x), Address::Node(y)) => x.key_eq(y),
        _ => false,
    }
}

impl KeyEq for ConnectionName {
    fn key_eq(&self, other: &Self) -> (r: bool) {
        match (self, other) {
            (ConnectionName::Relay(x), ConnectionName::Relay(y)) => addresses_equal(x, y),
            (ConnectionName::Routing(x), ConnectionName::Routing(y)) => x.key_eq(y),
            (ConnectionName::Bootstrap(x), ConnectionName::Bootstrap(y)) => x.key_eq(y),
            (ConnectionName::Unidentified(e1, b1), ConnectionName::Unidentified(e2, b2)) => {
                e1.0 == e2.0 && *b1 == *b2
            },
            _ => false,
        }
    }
}

/// The transport connection a peer reached at `endpoint` is held under in the routing table.
pub open spec fn connection_of(endpoint: Endpoint) -> Connection {
    Connection(endpoint.0 as u64)
}

/// What the core asks its owner to do or tell.
#[derive(Debug)]
pub enum CoreEvent {
    /// The first routing-table contact was added.
    Connected,
    /// The last routing-table contact, or the last bootstrap connection of a client, was lost.
    Disconnected,
    /// A client made its first bootstrap connection.
    Bootstrapped,
    /// Routing should stop.
    Terminate,
    /// Our close group changed: our name followed by the names of the close group, and the
    /// connections to send the news on.
    Churn(Vec<NameType>, Vec<Connection>),
}

/// A core event as a value.
pub enum CoreEventView {
    Connected,
    Disconnected,
    Bootstrapped,
    Terminate,
    Churn(Seq<NameType>, Seq<Connection>),
}

impl View for CoreEvent {
    type V = CoreEventView;

    open spec fn view(&self) -> CoreEventView {
        match self {
            CoreEvent::Connected => CoreEventView::Connected,
            CoreEvent::Disconnected => CoreEventView::Disconnected,
            CoreEvent::Bootstrapped => CoreEventView::Bootstrapped,
            CoreEvent::Terminate => CoreEventView::Terminate,
            CoreEvent::Churn(names, conns) => CoreEventView::Churn(names@, conns@),
        }
    }
}

/// The views of a list of events.
pub open spec fn events_view(s: Seq<CoreEvent>) -> Seq<CoreEventView> {
    s.map_values(|e: CoreEvent| e@)
}

/// The names of a list of contacts.
pub open spec fn contact_names(s: Seq<NodeInfoView>) -> Seq<NameType> {
    s.map_values(|n: NodeInfoView| n.public_id.name_spec())
}

/// The first connection of each contact that has one, in order.
pub open spec fn first_connections(s: Seq<NodeInfoView>) -> Seq<Connection>
    decreases s.len(),
{
    if s.len() == 0 {
        Seq::empty()
    } else {
        let rest = first_connections(s.drop_last());
        if s.last().connections.len() > 0 {
            rest.push(s.last().connections[0])
        } else {
            rest
        }
    }
}

/// The churn news for a table: our name then those of our close group, and the connections to
/// the close group.
pub open spec fn churn_of(our: NameType, nodes: Seq<NodeInfoView>) -> CoreEventView {
    CoreEventView::Churn(
        seq![our] + contact_names(close_group_of(nodes)),
        first_connections(close_group_of(nodes)),
    )
}

/// The events of adding a routing-table contact: `Connected` if the table was empty, then the
/// churn news if the contact falls in our close group.
pub open spec fn add_events(added: bool, was_empty: bool, close: bool, our: NameType, nodes: Seq<NodeInfoView>) -> Seq<CoreEventView> {
    (if added && was_empty {
        seq![CoreEventView::Connected]
    } else {
        Seq::empty()
    }) + (if added && close {
        seq![churn_of(our, nodes)]
    } else {
        Seq::empty()
    })
}

/// The events of dropping a routing-table contact: disconnection when the table held one contact,
/// then the churn news if the contact was in our close group range.
pub open spec fn drop_events(was_single: bool, close: bool, our: NameType, nodes: Seq<NodeInfoView>) -> Seq<CoreEventView> {
    (if was_single {
        seq![CoreEventView::Disconnected, CoreEventView::Terminate]
    } else {
        Seq::empty()
    }) + (if close {
        seq![churn_of(our, nodes)]
    } else {
        Seq::empty()
    })
}

/// The nodes of a table after `drop_node(name)`.
pub open spec fn nodes_without(s: Seq<NodeInfoView>, n: Seq<u8>) -> Seq<NodeInfoView> {
    if contains_name(s, n) {
        s.remove(index_of_name(s, n))
    } else {
        s
    }
}

/// What a core holds.
pub struct RoutingCoreView {
    pub id: PublicId,
    pub network_name: Option<NameType>,
    pub table: Option<TableView>,
    pub relay: RelayMapView,
}

/// The index of the first contact, at or after `k`, that holds connection `c`; the length if
/// none does.
pub open spec fn contact_index_from(s: Seq<NodeInfoView>, c: Connection, k: int) -> int
    decreases s.len() - k,
{
    if k >= s.len() {
        s.len() as int
    } else if s[k].connections.contains(c) {
        k
    } else {
        contact_index_from(s, c, k + 1)
    }
}

/// The label of the peer reached at `e`: the routing contact holding its connection, if any,
/// else the label the relay map holds it under.
pub open spec fn lookup_endpoint_spec(v: RoutingCoreView, e: Endpoint) -> Option<ConnectionName> {
    let c = connection_of(e);
    let in_table = match v.table {
        Some(t) => contact_index_from(t.nodes, c, 0) < t.nodes.len(),
        None => false,
    };
    if in_table {
        let t = v.table->Some_0;
        Some(ConnectionName::Routing(t.nodes[contact_index_from(t.nodes, c, 0)].public_id.name_spec()))
    } else if v.relay.lookup.contains_key(e) {
        Some(v.relay.lookup[e])
    } else {
        None
    }
}

/// Whether `conns` holds `c`.
fn holds_connection(conns: &Vec<Connection>, c: Connection) -> (r: bool)
    ensures
        r == conns@.contains(c),
{
    let mut i: usize = 0;
    while i < conns.len()
        invariant
            0 <= i <= conns@.len(),
            forall|j: int| 0 <= j < i ==> conns@[j] != c,
        decreases conns@.len() - i,
    {
        if conns[i].0 == c.0 {
            assert(conns@[i as int] == c);
            return true;
        }
        i = i + 1;
    }
    false
}

/// Law: dropping a routing contact sends the churn news exactly when the contact was in our
/// close group range: with a full close group, a contact further from us than its furthest
/// member is dropped without any churn event, while dropping one no further away ends the
/// events with the churn news.
pub proof fn law_churn_only_within_close_group(
    old: RoutingCoreView,
    name: NameType,
    new: RoutingCoreView,
    dropped: Option<Peer>,
    events: Seq<CoreEventView>,
)
    requires
        drop_peer_spec(old, ConnectionName::Routing(name), new, dropped, events),
        old.table is Some,
    ensures
        ({
            let t = old.table->Some_0;
            let far = t.nodes.len() >= crate::types::GROUP_SIZE && !crate::name_type::closer(
                name@,
                name_of(t.nodes[crate::types::GROUP_SIZE - 1]),
                t.our_name,
            ) && name@ != name_of(t.nodes[crate::types::GROUP_SIZE - 1]);
            &&& far ==> forall|i: int| 0 <= i < events.len() ==> !(#[trigger] events[i] is Churn)
            &&& !far ==> events.len() > 0 && events.last() is Churn
        }),
{
    let t = old.table->Some_0;
    let single = t.nodes.len() == 1;
    let close = is_close_spec(t, name@);
    let a: Seq<CoreEventView> = if single {
        seq![CoreEventView::Disconnected, CoreEventView::Terminate]
    } else {
        Seq::empty()
    };
    assert(crate::types::GROUP_SIZE == 8);
    if !close {
        assert(events =~= a);
    } else {
        assert(events =~= a.push(churn_of(old.id.name_spec(), nodes_without(t.nodes, name@))));
    }
}

/// What adding a peer does: from core `old`, adding `identity` at `endpoint` with `public_id`
/// gives core `new`, answers `added` and raises `events`.
pub open spec fn add_peer_spec(
    old: RoutingCoreView,
    identity: ConnectionName,
    endpoint: Endpoint,
    public_id: Option<PublicId>,
    new: RoutingCoreView,
    added: bool,
    events: Seq<CoreEventView>,
) -> bool {
    &&& new.id == old.id
    &&& new.network_name == old.network_name
    &&& match identity {
        ConnectionName::Routing(name) => {
            &&& new.relay == old.relay
            &&& if old.table is None || public_id is None || public_id->Some_0.name_spec() != name {
                !added && events.len() == 0 && new.table == old.table
            } else {
                let t = old.table->Some_0;
                let info = NodeInfoView { public_id: public_id->Some_0, connections: seq![connection_of(endpoint)] };
                &&& new.table is Some
                &&& exists|d: Option<NodeInfoView>| add_node_post(t, info, new.table->Some_0, added, d)
                &&& events == add_events(
                    added,
                    t.nodes.len() == 0,
                    is_close_spec(t, name@),
                    old.id.name_spec(),
                    new.table->Some_0.nodes,
                )
            }
        },
        _ => {
            &&& new.table == old.table
            &&& added == accepts(old.relay, identity, endpoint)
            &&& added ==> new.relay == with_peer(old.relay, identity, endpoint, new.relay.peers[identity])
                && new.relay.peers[identity].public_id_spec() == public_id
            &&& !added ==> new.relay == old.relay
            &&& events == (if !has_bootstrap(old.relay) && added && identity is Bootstrap
                && old.table is None {
                seq![CoreEventView::Bootstrapped]
            } else {
                Seq::<CoreEventView>::empty()
            })
        },
    }
}

/// What dropping a peer does: from core `old`, dropping the peer labelled `label` gives core
/// `new`, returns `dropped` and raises `events`.
pub open spec fn drop_peer_spec(
    old: RoutingCoreView,
    label: ConnectionName,
    new: RoutingCoreView,
    dropped: Option<Peer>,
    events: Seq<CoreEventView>,
) -> bool {
    &&& new.id == old.id
    &&& new.network_name == old.network_name
    &&& match label {
        ConnectionName::Routing(name) => {
            &&& dropped is None
            &&& new.relay == old.relay
            &&& match old.table {
                None => events.len() == 0 && new.table is None,
                Some(t) => {
                    let nodes = nodes_without(t.nodes, name@);
                    &&& new.table == Some(TableView { our_name: t.our_name, nodes: nodes })
                    &&& events == drop_events(
                        t.nodes.len() == 1,
                        is_close_spec(t, name@),
                        old.id.name_spec(),
                        nodes,
                    )
                },
            }
        },
        _ => {
            &&& new.table == old.table
            &&& new.relay == without_name(old.relay, label)
            &&& dropped == (if old.relay.peers.contains_key(label) {
                Some(old.relay.peers[label])
            } else {
                None
            })
            &&& events == (if has_bootstrap(old.relay)
                && !has_bootstrap(new.relay) && old.table is None {
                seq![CoreEventView::Disconnected, CoreEventView::Terminate]
            } else {
                Seq::<CoreEventView>::empty()
            })
        },
    }
}

/// The core of a routing node.
pub struct RoutingCore {
    id: PublicId,
    network_name: Option<NameType>,
    routing_table: Option<RoutingTable>,
    relay_map: RelayMap,
}

impl View for RoutingCore {
    type V = RoutingCoreView;

    closed spec fn view(&self) -> RoutingCoreView {
        RoutingCoreView {
            id: self.id,
            network_name: self.network_name,
            table: match self.routing_table {
                Some(t) => Some(t@),
                None => None,
            },
            relay: self.relay_map@,
        }
    }
}

impl RoutingCore {
    /// The routing table, if any, and the relay map are well formed.
    pub closed spec fn wf(&self) -> bool {
        &&& self.relay_map.wf()
        &&& (self.routing_table matches Some(t) ==> t.wf())
    }

    /// A core for `id`, with no network name, no routing table and no relayed peers.  An
    /// identity that was already relocated cannot start a core: routing is told to stop.
    pub fn new(id: PublicId) -> (r: (RoutingCore, Vec<CoreEvent>))
        ensures
            r.0.wf(),
            r.0@.id == id,
            r.0@.network_name is None,
            r.0@.table is None,
            r.0@.relay.peers == Map::<ConnectionName, Peer>::empty(),
            r.0@.relay.lookup == Map::<Endpoint, ConnectionName>::empty(),
            events_view(r.1@) == (if id.name_view() != crate::public_id::client_name_of(id.sign_key_view()) {
                seq![CoreEventView::Terminate]
            } else {
                Seq::<CoreEventView>::empty()
            }),
    {
        let mut events: Vec<CoreEvent> = Vec::new();
        if id.is_relocated() {
            events.push(CoreEvent::Terminate);
        }
        let core = RoutingCore { id, network_name: None, routing_table: None, relay_map: RelayMap::new() };
        proof {
            assert(events_view(events@) =~= (if id.name_view() != crate::public_id::client_name_of(
                id.sign_key_view(),
            ) {
                seq![CoreEventView::Terminate]
            } else {
                Seq::<CoreEventView>::empty()
            }));
        }
        (core, events)
    }

    /// Our current name.
    pub fn id_name(&self) -> (r: NameType)
        ensures
            r == self@.id.name_spec(),
    {
        self.id.name()
    }

    /// Whether we have a routing table, i.e. are a full node.
    pub fn is_node(&self) -> (r: bool)
        ensures
            r == self@.table is Some,
    {
        self.routing_table.is_some()
    }

    /// Our address: our network name once we have one, else our signing key as a client.
    pub fn our_address(&self) -> (r: Address)
        ensures
            r == (match self@.network_name {
                Some(name) => Address::Node(name),
                None => Address::Client(self@.id.sign_key_spec()),
            }),
    {
        match self.network_name {
            Some(name) => Address::Node(name),
            None => Address::Client(self.id.signing_public_key()),
        }
    }

    /// Whether `address` is ours: our signing key as a client, or our current name.
    pub fn is_us(&self, address: &Address) -> (r: bool)
        ensures
            r == (match *address {
                Address::Client(key) => key == self@.id.sign_key_spec(),
                Address::Node(name) => name == self@.id.name_spec(),
            }),
    {
        match address {
            Address::Client(key) => same_sign_key(key, &self.id.signing_public_key()),
            Address::Node(name) => name.key_eq(&self.id.name()),
        }
    }

    /// Takes the name the network gave us and starts our routing table; refused (false) if we
    /// have a table already.
    pub fn assign_network_name(&mut self, network_name: &NameType) -> (r: bool)
        requires
            old(self).wf(),
            crate::name_type::is_name(network_name@),
        ensures
            final(self).wf(),
            r == old(self)@.table is None,
            !r ==> final(self)@ == old(self)@,
            r ==> final(self)@.network_name == Some(*network_name)
                && final(self)@.id.name_spec() == *network_name
                && final(self)@.id.sign_key_view() == old(self)@.id.sign_key_view()
                && final(self)@.table == Some(TableView {
                    our_name: network_name@,
                    nodes: Seq::<NodeInfoView>::empty(),
                })
                && final(self)@.relay == old(self)@.relay,
    {
        if self.routing_table.is_some() {
            return false;
        }
        self.id.assign_relocated_name(*network_name);
        proof {
            self.id.lemma_name_spec();
            crate::name_type::lemma_name_view_injective(self.id.name_spec(), *network_name);
        }
        self.routing_table = Some(RoutingTable::new(network_name));
        self.network_name = Some(*network_name);
        true
    }

    /// The same as `assign_network_name`.
    pub fn assign_name(&mut self, name: &NameType) -> (r: bool)
        requires
            old(self).wf(),
            crate::name_type::is_name(name@),
        ensures
            final(self).wf(),
            r == old(self)@.table is None,
            !r ==> final(self)@ == old(self)@,
            r ==> final(self)@.network_name == Some(*name) && final(self)@.id.name_spec() == *name
                && final(self)@.id.sign_key_view() == old(self)@.id.sign_key_view()
                && final(self)@.table == Some(TableView { our_name: name@, nodes: Seq::<NodeInfoView>::empty() })
                && final(self)@.relay == old(self)@.relay,
    {
        self.assign_network_name(name)
    }

    /// The churn news for our table as it now is.
    fn churn_event(&self, table: &RoutingTable) -> (r: CoreEvent)
        ensures
            r@ == churn_of(self@.id.name_spec(), table@.nodes),
    {
        let group = table.our_close_group();
        let ghost g = close_group_of(table@.nodes);
        let mut names: Vec<NameType> = Vec::new();
        let mut conns: Vec<Connection> = Vec::new();
        names.push(self.id.name());
        let mut i: usize = 0;
        while i < group.len()
            invariant
                0 <= i <= group@.len(),
                crate::routing_table::infos_view(group@) == g,
                names@ == seq![self@.id.name_spec()] + contact_names(g.take(i as int)),
                conns@ == first_connections(g.take(i as int)),
            decreases group@.len() - i,
        {
            let ghost t = g.take(i + 1);
            proof {
                assert(t.drop_last() =~= g.take(i as int));
                assert(t.last() == group@[i as int]@);
            }
            names.push(group[i].public_id.name());
            if group[i].connections.len() > 0 {
                conns.push(group[i].connections[0]);
            }
            proof {
                assert(contact_names(t) =~= contact_names(g.take(i as int)).push(group@[i as int]@.public_id.name_spec()));
            }
            i = i + 1;
        }
        proof {
            assert(g.take(group@.len() as int) =~= g);
        }
        CoreEvent::Churn(names, conns)
    }

    /// Adds a peer.  A routing-table contact needs a routing table and an identity with the
    /// name it claims, and is then added as the table decides; others go to the relay map.
    /// Returns whether the peer was added, and the events that follow: `Connected` on the first
    /// routing contact, the churn news when a contact joins our close group, `Bootstrapped` on a
    /// client's first bootstrap connection.
    pub fn add_peer(&mut self, identity: ConnectionName, endpoint: Endpoint, public_id: Option<PublicId>) -> (r: (bool, Vec<CoreEvent>))
        requires
            old(self).wf(),
        ensures
            final(self).wf(),
            add_peer_spec(old(self)@, identity, endpoint, public_id, final(self)@, r.0, events_view(r.1@)),
    {
        let mut events: Vec<CoreEvent> = Vec::new();
        match identity {
            ConnectionName::Routing(routing_name) => {
                let mut table_opt: Option<RoutingTable> = None;
                std::mem::swap(&mut table_opt, &mut self.routing_table);
                match table_opt {
                    None => {
                        assert(events_view(events@) =~= Seq::<CoreEventView>::empty());
                        (false, events)
                    },
                    Some(mut table) => {
                        let given = match public_id {
                            None => {
                                self.routing_table = Some(table);
                                return (false, events);
                            },
                            Some(p) => p,
                        };
                        if !given.name().key_eq(&routing_name) {
                            self.routing_table = Some(table);
                            return (false, events);
                        }
                        let ghost t = table@;
                        let trigger_churn = table.is_close(&routing_name);
                        let prior = table.len();
                        let node_info = NodeInfo::new(given, vec![Connection(endpoint.0 as u64)]);
                        proof {
                            assert(node_info@.connections =~= seq![connection_of(endpoint)]);
                        }
                        let ghost info_v = node_info@;
                        let (added, dropped) = table.add_node(node_info);
                        let ghost dv: Option<NodeInfoView> = match dropped {
                            Some(x) => Some(x@),
                            None => None,
                        };
                        if added && prior == 0 {
                            events.push(CoreEvent::Connected);
                        }
                        if added && trigger_churn {
                            let churn = self.churn_event(&table);
                            events.push(churn);
                        }
                        proof {
                            assert(add_node_post(t, info_v, table@, added, dv));
                            assert(events_view(events@) =~= add_events(
                                added,
                                t.nodes.len() == 0,
                                is_close_spec(t, routing_name@),
                                self@.id.name_spec(),
                                table@.nodes,
                            ));
                        }
                        self.routing_table = Some(table);
                        proof {
                            let info = NodeInfoView { public_id: given, connections: seq![connection_of(endpoint)] };
                            assert(info == info_v);
                            assert(self@.table->Some_0 == table@);
                            assert(add_node_post(t, info, self@.table->Some_0, added, dv));
                            assert(self@.relay == old(self)@.relay);
                            assert(self@.id == old(self)@.id);
                        }
                        (added, events)
                    },
                }
            },
            _ => {
                let bootstrapped_prior = self.relay_map.has_bootstrap_connections();
                let is_bootstrap_connection = match identity {
                    ConnectionName::Bootstrap(_) => true,
                    _ => false,
                };
                let added = self.relay_map.add_peer(identity, endpoint, public_id);
                if !bootstrapped_prior && added && is_bootstrap_connection && self.routing_table.is_none() {
                    events.push(CoreEvent::Bootstrapped);
                }
                proof {
                    assert(events_view(events@) =~= (if !bootstrapped_prior && added && identity is Bootstrap
                        && self@.table is None {
                        seq![CoreEventView::Bootstrapped]
                    } else {
                        Seq::<CoreEventView>::empty()
                    }));
                }
                (added, events)
            },
        }
    }

    /// Drops a peer.  A routing-table contact is dropped from the table (nothing is returned);
    /// losing the only contact disconnects and stops routing, and losing one in our close group
    /// range sends the churn news.  Other peers are dropped from the relay map and returned; a
    /// client that loses its last bootstrap connection disconnects and stops routing.
    pub fn drop_peer(&mut self, connection_name: &ConnectionName) -> (r: (Option<Peer>, Vec<CoreEvent>))
        requires
            old(self).wf(),
        ensures
            final(self).wf(),
            drop_peer_spec(old(self)@, *connection_name, final(self)@, r.0, events_view(r.1@)),
    {
        let mut events: Vec<CoreEvent> = Vec::new();
        match connection_name {
            ConnectionName::Routing(name) => {
                let mut table_opt: Option<RoutingTable> = None;
                std::mem::swap(&mut table_opt, &mut self.routing_table);
                match table_opt {
                    None => {
                        assert(events_view(events@) =~= Seq::<CoreEventView>::empty());
                        (None, events)
                    },
                    Some(mut table) => {
                        let ghost t = table@;
                        let trigger_churn = table.is_close(name);
                        let prior = table.len();
                        table.drop_node(name);
                        if prior == 1 {
                            events.push(CoreEvent::Disconnected);
                            events.push(CoreEvent::Terminate);
                        }
                        if trigger_churn {
                            let churn = self.churn_event(&table);
                            events.push(churn);
                        }
                        proof {
                            assert(table@.nodes == nodes_without(t.nodes, name@));
                            assert(events_view(events@) =~= drop_events(
                                t.nodes.len() == 1,
                                is_close_spec(t, name@),
                                self@.id.name_spec(),
                                table@.nodes,
                            ));
                        }
                        self.routing_table = Some(table);
                        (None, events)
                    },
                }
            },
            _ => {
                let bootstrapped_prior = self.relay_map.has_bootstrap_connections();
                let dropped_peer = self.relay_map.drop_connection_name(connection_name);
                let bootstrapped_posterior = self.relay_map.has_bootstrap_connections();
                if !bootstrapped_posterior && bootstrapped_prior && !self.is_node() {
                    events.push(CoreEvent::Disconnected);
                    events.push(CoreEvent::Terminate);
                }
                proof {
                    assert(events_view(events@) =~= (if bootstrapped_prior && !bootstrapped_posterior
                        && self@.table is None {
                        seq![CoreEventView::Disconnected, CoreEventView::Terminate]
                    } else {
                        Seq::<CoreEventView>::empty()
                    }));
                }
                (dropped_peer, events)
            },
        }
    }

    /// The label of the peer reached at `endpoint`: a routing contact holding its connection
    /// first, else a peer of the relay map.
    pub fn lookup_endpoint(&self, endpoint: &Endpoint) -> (r: Option<ConnectionName>)
        requires
            self.wf(),
        ensures
            r == lookup_endpoint_spec(self@, *endpoint),
    {
        let c = Connection(endpoint.0 as u64);
        let routing_name = match &self.routing_table {
            Some(table) => {
                let ghost s = table@.nodes;
                let mut found: Option<NameType> = None;
                let mut i: usize = 0;
                let n = table.len();
                while i < n && found.is_none()
                    invariant
                        n == s.len(),
                        s == table@.nodes,
                        c == connection_of(*endpoint),
                        0 <= i <= n,
                        found is None ==> contact_index_from(s, c, 0) == contact_index_from(s, c, i as int),
                        found is Some ==> i < n && contact_index_from(s, c, 0) == i
                            && found->Some_0 == s[i as int].public_id.name_spec(),
                    decreases n - i + (if found is None { 1int } else { 0int }),
                {
                    let node = table.node_at(i);
                    if holds_connection(&node.connections, c) {
                        found = Some(node.public_id.name());
                    } else {
                        i = i + 1;
                    }
                }
                match found {
                    Some(name) => Some(ConnectionName::Routing(name)),
                    None => None,
                }
            },
            None => None,
        };
        match routing_name {
            Some(name) => Some(name),
            None => match self.relay_map.lookup_endpoint(endpoint) {
                Some(peer) => {
                    proof {
                        self.relay_map.lemma_consistent();
                    }
                    Some(*peer.identity())
                },
                None => None,
            },
        }
    }

    /// Whether a new connection labelled `identity` may be taken: not if it is held in the
    /// relay map already; a routing contact if the table would check it in (we need a table); a
    /// relayed peer if there is room; a bootstrap node if there is room and we are no node yet;
    /// an unidentified peer always.
    pub fn check_node(&self, identity: &ConnectionName) -> (r: bool)
        requires
            self.wf(),
        ensures
            r == (!self@.relay.peers.contains_key(*identity) && match *identity {
                ConnectionName::Routing(name) => match self@.table {
                    Some(t) => crate::routing_table::want_to_add_spec(t, name@),
                    None => false,
                },
                ConnectionName::Relay(_) => self@.relay.peers.len() < crate::relay::MAX_RELAY,
                ConnectionName::Bootstrap(_) => self@.relay.peers.len() < crate::relay::MAX_RELAY
                    && self@.table is None,
                ConnectionName::Unidentified(_, _) => true,
            }),
    {
        if self.relay_map.contains_identity(identity) {
            return false;
        }
        match identity {
            ConnectionName::Routing(name) => match &self.routing_table {
                Some(table) => table.want_to_add(name),
                None => false,
            },
            ConnectionName::Relay(_) => !self.relay_map.is_full(),
            ConnectionName::Bootstrap(_) => !self.relay_map.is_full() && self.routing_table.is_none(),
            ConnectionName::Unidentified(_, _) => true,
        }
    }

    /// The label under which the node called `name` is held: as a routing contact if our
    /// table has it, else as the relay map holds it.
    pub fn lookup_name(&self, name: &NameType) -> (r: Option<ConnectionName>)
        requires
            self.wf(),
        ensures
            r == (if self@.table matches Some(t) && contains_name(t.nodes, name@) {
                Some(ConnectionName::Routing(*name))
            } else if self@.relay.peers.contains_key(ConnectionName::Relay(Address::Node(*name))) {
                Some(ConnectionName::Relay(Address::Node(*name)))
            } else if self@.relay.peers.contains_key(ConnectionName::Bootstrap(*name)) {
                Some(ConnectionName::Bootstrap(*name))
            } else {
                None
            }),
    {
        let routing_name = match &self.routing_table {
            Some(table) => if table.has_node(name) {
                Some(ConnectionName::Routing(*name))
            } else {
                None
            },
            None => None,
        };
        match routing_name {
            Some(found_name) => Some(found_name),
            None => self.relay_map.lookup_name(name),
        }
    }

    /// The relayed peer held under `connection_name`; never a routing contact.
    pub fn get_relay_peer(&self, connection_name: &ConnectionName) -> (r: Option<Peer>)
        requires
            self.wf(),
        ensures
            r == (if !(*connection_name is Routing) && self@.relay.peers.contains_key(*connection_name) {
                Some(self@.relay.peers[*connection_name])
            } else {
                None
            }),
    {
        match connection_name {
            ConnectionName::Routing(_) => None,
            _ => match self.relay_map.lookup_connection_name(connection_name) {
                Some(peer) => Some(*peer),
                None => None,
            },
        }
    }
}

} // verus!
