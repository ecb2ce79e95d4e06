//! The connections that the routing table does not manage: peers we relay messages for and the
//! nodes we bootstrapped off.
//!
//! Two maps are kept in step: from each label to its peer, and from each peer's endpoint back to
//! the label.  Every endpoint belongs to exactly one peer, no routing-table node is ever held
//! here, and at most `MAX_RELAY` peers are.
use crate::assoc_map::AssocMap;
use crate::mock_network::Endpoint;
use crate::name_type::NameType;
use crate::peer::Peer;
use crate::public_id::PublicId;
use crate::routing_core::ConnectionName;
use crate::types::Address;
use vstd::prelude::*;

verus! {

/// The most peers the relay map holds.
pub const MAX_RELAY: usize = 100;

/// What a relay map holds: the peers by label, and the label of each endpoint.
pub struct RelayMapView {
    pub peers: Map<ConnectionName, Peer>,
    pub lookup: Map<Endpoint, ConnectionName>,
}

/// The two maps agree: each endpoint leads to a peer reached at that endpoint, each peer is held
/// under its own label and its endpoint leads back to it, no routing-table node is held, and
/// the limit is kept.
pub open spec fn consistent(v: RelayMapView) -> bool {
    &&& v.peers.dom().finite()
    &&& v.lookup.dom().finite()
    &&& v.peers.len() <= MAX_RELAY
    &&& forall|e: Endpoint| #[trigger] v.lookup.contains_key(e) ==> {
        &&& v.peers.contains_key(v.lookup[e])
        &&& v.peers[v.lookup[e]].endpoint_spec() == e
    }
    &&& forall|n: ConnectionName| #[trigger] v.peers.contains_key(n) ==> {
        &&& v.lookup.contains_key(v.peers[n].endpoint_spec())
        &&& v.lookup[v.peers[n].endpoint_spec()] == n
        &&& v.peers[n].identity_spec() == n
        &&& !(n is Routing)
    }
}

/// `p` is the peer with the given label, endpoint and identity.
pub open spec fn peer_is(p: Peer, identity: ConnectionName, endpoint: Endpoint, public_id: Option<PublicId>) -> bool {
    &&& p.identity_spec() == identity
    &&& p.endpoint_spec() == endpoint
    &&& p.public_id_spec() == public_id
}

/// A peer with this label and endpoint is taken: it is no routing-table node, neither the label
/// nor the endpoint is held yet, and there is room.
pub open spec fn accepts(v: RelayMapView, identity: ConnectionName, endpoint: Endpoint) -> bool {
    &&& !(identity is Routing)
    &&& !v.peers.contains_key(identity)
    &&& !v.lookup.contains_key(endpoint)
    &&& v.peers.len() < MAX_RELAY
}

/// The map with peer `p` added under `identity`, reached at `endpoint`.
pub open spec fn with_peer(v: RelayMapView, identity: ConnectionName, endpoint: Endpoint, p: Peer) -> RelayMapView {
    RelayMapView { peers: v.peers.insert(identity, p), lookup: v.lookup.insert(endpoint, identity) }
}

/// The map without the peer reached at `endpoint`, if any.
pub open spec fn without_endpoint(v: RelayMapView, endpoint: Endpoint) -> RelayMapView {
    if v.lookup.contains_key(endpoint) {
        RelayMapView { peers: v.peers.remove(v.lookup[endpoint]), lookup: v.lookup.remove(endpoint) }
    } else {
        v
    }
}

/// The map without the peer labelled `identity`, if any.
pub open spec fn without_name(v: RelayMapView, identity: ConnectionName) -> RelayMapView {
    if v.peers.contains_key(identity) {
        RelayMapView {
            peers: v.peers.remove(identity),
            lookup: v.lookup.remove(v.peers[identity].endpoint_spec()),
        }
    } else {
        v
    }
}

/// Some peer is one we bootstrapped off.
pub open spec fn has_bootstrap(v: RelayMapView) -> bool {
    exists|n: ConnectionName| #[trigger] v.peers.contains_key(n) && n is Bootstrap
}

/// The peers we relay for and the nodes we bootstrapped off.
pub struct RelayMap {
    relay_map: AssocMap<ConnectionName, Peer>,
    lookup_map: AssocMap<Endpoint, ConnectionName>,
}

impl View for RelayMap {
    type V = RelayMapView;

    closed spec fn view(&self) -> RelayMapView {
        RelayMapView { peers: self.relay_map@, lookup: self.lookup_map@ }
    }
}

impl RelayMap {
    /// The maps are well formed and agree.
    pub closed spec fn wf(&self) -> bool {
        &&& self.relay_map.wf()
        &&& self.lookup_map.wf()
        &&& consistent(self@)
    }

    /// A well formed relay map keeps its two maps in agreement.
    pub proof fn lemma_consistent(&self)
        requires
            self.wf(),
        ensures
            consistent(self@),
    {
    }

    /// An empty relay map.
    pub fn new() -> (r: RelayMap)
        ensures
            r.wf(),
            r@.peers == Map::<ConnectionName, Peer>::empty(),
            r@.lookup == Map::<Endpoint, ConnectionName>::empty(),
    {
        let r = RelayMap { relay_map: AssocMap::new(), lookup_map: AssocMap::new() };
        proof {
            r.relay_map.lemma_pairs();
            r.lookup_map.lemma_pairs();
        }
        r
    }

    /// Adds a peer if it is no routing-table node, neither its label nor its endpoint is held
    /// yet, and there is room; returns whether it was added.
    pub fn add_peer(&mut self, identity: ConnectionName, endpoint: Endpoint, public_id: Option<PublicId>) -> (r: bool)
        requires
            old(self).wf(),
        ensures
            final(self).wf(),
            r == accepts(old(self)@, identity, endpoint),
            r ==> peer_is(final(self)@.peers[identity], identity, endpoint, public_id),
            r ==> final(self)@ == with_peer(old(self)@, identity, endpoint, final(self)@.peers[identity]),
            !r ==> final(self)@ == old(self)@,
    {
        proof {
            self.relay_map.lemma_pairs();
            self.lookup_map.lemma_pairs();
        }
        if let ConnectionName::Routing(_) = identity {
            return false;
        }
        let known = self.relay_map.contains_key(&identity);
        if !known && self.relay_map.len() >= MAX_RELAY {
            return false;
        }
        if self.lookup_map.contains_key(&endpoint) {
            return false;
        }
        if known {
            return false;
        }
        let ghost before = self@;
        let peer = Peer::new(identity, endpoint, public_id);
        let _ = self.lookup_map.insert(endpoint, identity);
        let _ = self.relay_map.insert(identity, peer);
        proof {
            self.relay_map.lemma_pairs();
            self.lookup_map.lemma_pairs();
            let v = self@;
            assert(v.peers.dom() =~= before.peers.dom().insert(identity));
            assert forall|e: Endpoint| #[trigger] v.lookup.contains_key(e) implies v.peers.contains_key(
                v.lookup[e],
            ) && v.peers[v.lookup[e]].endpoint_spec() == e by {
                if e != endpoint {
                    assert(before.lookup.contains_key(e));
                    assert(before.lookup[e] != identity);
                }
            }
            assert forall|n: ConnectionName| #[trigger] v.peers.contains_key(n) implies {
                &&& v.lookup.contains_key(v.peers[n].endpoint_spec())
                &&& v.lookup[v.peers[n].endpoint_spec()] == n
                &&& v.peers[n].identity_spec() == n
                &&& !(n is Routing)
            } by {
                if n != identity {
                    assert(before.peers.contains_key(n));
                    assert(before.peers[n].endpoint_spec() != endpoint);
                }
            }
        }
        true
    }

    /// Removes the peer reached at `endpoint_to_drop` and returns it; `None` if there is none.
    pub fn drop_endpoint(&mut self, endpoint_to_drop: &Endpoint) -> (r: Option<Peer>)
        requires
            old(self).wf(),
        ensures
            final(self).wf(),
            final(self)@ == without_endpoint(old(self)@, *endpoint_to_drop),
            r == (if old(self)@.lookup.contains_key(*endpoint_to_drop) {
                Some(old(self)@.peers[old(self)@.lookup[*endpoint_to_drop]])
            } else {
                None
            }),
    {
        proof {
            self.relay_map.lemma_pairs();
            self.lookup_map.lemma_pairs();
        }
        let ghost before = self@;
        match self.lookup_map.remove(endpoint_to_drop) {
            Some(identity) => {
                let r = self.relay_map.remove(&identity);
                proof {
                    self.relay_map.lemma_pairs();
                    self.lookup_map.lemma_pairs();
                    Self::lemma_removal_consistent(before, identity, *endpoint_to_drop);
                }
                r
            },
            None => None,
        }
    }

    /// Removes the peer labelled `connection_name` and returns it; `None` if there is none.
    pub fn drop_connection_name(&mut self, connection_name: &ConnectionName) -> (r: Option<Peer>)
        requires
            old(self).wf(),
        ensures
            final(self).wf(),
            final(self)@ == without_name(old(self)@, *connection_name),
            r == (if old(self)@.peers.contains_key(*connection_name) {
                Some(old(self)@.peers[*connection_name])
            } else {
                None
            }),
    {
        proof {
            self.relay_map.lemma_pairs();
            self.lookup_map.lemma_pairs();
        }
        let ghost before = self@;
        match self.relay_map.remove(connection_name) {
            Some(peer) => {
                let _ = self.lookup_map.remove(peer.endpoint());
                proof {
                    self.relay_map.lemma_pairs();
                    self.lookup_map.lemma_pairs();
                    Self::lemma_removal_consistent(before, *connection_name, peer.endpoint_spec());
                }
                Some(peer)
            },
            None => None,
        }
    }

    /// Removing a peer from both maps, under its label and at its endpoint, keeps them in
    /// agreement.
    proof fn lemma_removal_consistent(v: RelayMapView, identity: ConnectionName, endpoint: Endpoint)
        requires
            consistent(v),
            v.peers.contains_key(identity),
            v.peers[identity].endpoint_spec() == endpoint,
        ensures
            consistent(RelayMapView { peers: v.peers.remove(identity), lookup: v.lookup.remove(endpoint) }),
            v.lookup.contains_key(endpoint),
            v.lookup[endpoint] == identity,
    {
        let w = RelayMapView { peers: v.peers.remove(identity), lookup: v.lookup.remove(endpoint) };
        assert forall|e: Endpoint| #[trigger] w.lookup.contains_key(e) implies w.peers.contains_key(
            w.lookup[e],
        ) && w.peers[w.lookup[e]].endpoint_spec() == e by {
            assert(v.lookup.contains_key(e));
            if v.lookup[e] == identity {
                assert(v.peers[identity].endpoint_spec() == e);
            }
        }
        assert forall|n: ConnectionName| #[trigger] w.peers.contains_key(n) implies {
            &&& w.lookup.contains_key(w.peers[n].endpoint_spec())
            &&& w.lookup[w.peers[n].endpoint_spec()] == n
            &&& w.peers[n].identity_spec() == n
            &&& !(n is Routing)
        } by {
            assert(v.peers.contains_key(n));
            if v.peers[n].endpoint_spec() == endpoint {
                assert(v.lookup[endpoint] == n);
                assert(v.lookup[endpoint] == identity);
            }
        }
    }

    /// Returns true if a peer is held under `identity`.
    pub fn contains_identity(&self, identity: &ConnectionName) -> (r: bool)
        requires
            self.wf(),
        ensures
            r == self@.peers.contains_key(*identity),
    {
        self.relay_map.contains_key(identity)
    }

    /// Returns true if a peer is reached at `endpoint`.
    pub fn contains_endpoint(&self, endpoint: &Endpoint) -> (r: bool)
        requires
            self.wf(),
        ensures
            r == self@.lookup.contains_key(*endpoint),
    {
        self.lookup_map.contains_key(endpoint)
    }

    /// The peer reached at `endpoint`, if any.
    pub fn lookup_endpoint(&self, endpoint: &Endpoint) -> (r: Option<&Peer>)
        requires
            self.wf(),
        ensures
            match r {
                Some(p) => self@.lookup.contains_key(*endpoint) && *p == self@.peers[self@.lookup[*endpoint]],
                None => !self@.lookup.contains_key(*endpoint),
            },
    {
        match self.lookup_map.get(endpoint) {
            Some(identity) => self.relay_map.get(identity),
            None => None,
        }
    }

    /// The label under which the node called `name` is held, as a relayed node or else as a
    /// bootstrap node; `None` if it is held as neither.
    pub fn lookup_name(&self, name: &NameType) -> (r: Option<ConnectionName>)
        requires
            self.wf(),
        ensures
            r == (if self@.peers.contains_key(ConnectionName::Relay(Address::Node(*name))) {
                Some(ConnectionName::Relay(Address::Node(*name)))
            } else if self@.peers.contains_key(ConnectionName::Bootstrap(*name)) {
                Some(ConnectionName::Bootstrap(*name))
            } else {
                None
            }),
    {
        let relay_name = match self.relay_map.get(&ConnectionName::Relay(Address::Node(*name))) {
            Some(peer) => Some(*peer.identity()),
            None => None,
        };
        match relay_name {
            None => match self.relay_map.get(&ConnectionName::Bootstrap(*name)) {
                Some(peer) => Some(*peer.identity()),
                None => None,
            },
            Some(found_name) => Some(found_name),
        }
    }

    /// The peer held under `identity`, if any.
    pub fn lookup_connection_name(&self, identity: &ConnectionName) -> (r: Option<&Peer>)
        requires
            self.wf(),
        ensures
            match r {
                Some(p) => self@.peers.contains_key(*identity) && *p == self@.peers[*identity],
                None => !self@.peers.contains_key(*identity),
            },
    {
        self.relay_map.get(identity)
    }

    /// Returns true if no more peers are taken.
    pub fn is_full(&self) -> (r: bool)
        requires
            self.wf(),
        ensures
            r == (self@.peers.len() >= MAX_RELAY),
    {
        self.relay_map.len() >= MAX_RELAY
    }

    /// The nodes we bootstrapped off, each once.
    pub fn bootstrap_connections(&self) -> (r: Vec<Peer>)
        requires
            self.wf(),
        ensures
            r@.no_duplicates(),
            forall|p: Peer| r@.contains(p) <==> exists|n: ConnectionName|
                #[trigger] self@.peers.contains_key(n) && n is Bootstrap && self@.peers[n] == p,
    {
        let ghost s = self.relay_map.pairs();
        proof {
            self.relay_map.lemma_pairs();
        }
        let mut out: Vec<Peer> = Vec::new();
        let ghost mut from: Seq<int> = Seq::empty();
        let n = self.relay_map.len();
        let mut i: usize = 0;
        while i < n
            invariant
                self.wf(),
                s == self.relay_map.pairs(),
                n == s.len(),
                0 <= i <= n,
                out@.no_duplicates(),
                from.len() == out@.len(),
                forall|j: int| 0 <= j < out@.len() ==> 0 <= #[trigger] from[j] < i
                    && s[from[j]].0 is Bootstrap && out@[j] == s[from[j]].1,
                forall|k: int| 0 <= k < i && (#[trigger] s[k]).0 is Bootstrap ==> out@.contains(s[k].1),
            decreases n - i,
        {
            proof {
                self.relay_map.lemma_pairs();
            }
            let key = self.relay_map.key_at(i);
            if let ConnectionName::Bootstrap(_) = key {
                let peer = *self.relay_map.value_at(i);
                proof {
                    assert(self@.peers[s[i as int].0] == s[i as int].1);
                    assert(self@.peers.contains_key(s[i as int].0));
                    assert(peer.identity_spec() == s[i as int].0);
                    assert(!out@.contains(peer)) by {
                        if out@.contains(peer) {
                            let j = choose|j: int| 0 <= j < out@.len() && out@[j] == peer;
                            let k = from[j];
                            assert(self@.peers[s[k].0] == s[k].1);
                            assert(self@.peers.contains_key(s[k].0));
                            assert(s[k].1.identity_spec() == s[k].0);
                        }
                    }
                }
                let ghost prev = out@;
                out.push(peer);
                proof {
                    from = from.push(i as int);
                    assert forall|k: int| 0 <= k < i + 1 && (#[trigger] s[k]).0 is Bootstrap implies out@.contains(
                        s[k].1,
                    ) by {
                        if k < i {
                            let j = choose|j: int| 0 <= j < prev.len() && prev[j] == s[k].1;
                            assert(out@[j] == prev[j]);
                        } else {
                            assert(out@[prev.len() as int] == s[k].1);
                        }
                    }
                }
            }
            i = i + 1;
        }
        proof {
            self.relay_map.lemma_pairs();
            assert forall|p: Peer| out@.contains(p) <==> exists|m: ConnectionName|
                #[trigger] self@.peers.contains_key(m) && m is Bootstrap && self@.peers[m] == p by {
                if out@.contains(p) {
                    let j = choose|j: int| 0 <= j < out@.len() && out@[j] == p;
                    let k = from[j];
                    assert(self@.peers.contains_key(s[k].0));
                    assert(self@.peers[s[k].0] == s[k].1);
                }
                if exists|m: ConnectionName|
                    #[trigger] self@.peers.contains_key(m) && m is Bootstrap && self@.peers[m] == p {
                    let m = choose|m: ConnectionName|
                        #[trigger] self@.peers.contains_key(m) && m is Bootstrap && self@.peers[m] == p;
                    let k = choose|k: int| 0 <= k < s.len() && s[k].0 == m;
                    assert(s[k].0 is Bootstrap);
                    assert(self@.peers[s[k].0] == s[k].1);
                }
            }
        }
        out
    }

    /// Returns true if some node we bootstrapped off is held.
    pub fn has_bootstrap_connections(&self) -> (r: bool)
        requires
            self.wf(),
        ensures
            r == has_bootstrap(self@),
    {
        let ghost s = self.relay_map.pairs();
        proof {
            self.relay_map.lemma_pairs();
        }
        let n = self.relay_map.len();
        let mut i: usize = 0;
        while i < n
            invariant
                self.wf(),
                s == self.relay_map.pairs(),
                n == s.len(),
                0 <= i <= n,
                forall|k: int| 0 <= k < i ==> !((#[trigger] s[k]).0 is Bootstrap),
            decreases n - i,
        {
            if let ConnectionName::Bootstrap(_) = self.relay_map.key_at(i) {
                proof {
                    self.relay_map.lemma_pairs();
                    assert(self@.peers.contains_key(s[i as int].0));
                }
                return true;
            }
            i = i + 1;
        }
        proof {
            self.relay_map.lemma_pairs();
            if has_bootstrap(self@) {
                let m = choose|m: ConnectionName| #[trigger] self@.peers.contains_key(m) && m is Bootstrap;
                let k = choose|k: int| 0 <= k < s.len() && s[k].0 == m;
                assert(!(s[k].0 is Bootstrap));
            }
        }
        false
    }
}

/// Law: adding an accepted peer, then dropping it by its endpoint or by its label, gives back the
/// map it was added to.
pub proof fn law_drop_undoes_add(v: RelayMapView, identity: ConnectionName, endpoint: Endpoint, p: Peer)
    requires
        consistent(v),
        accepts(v, identity, endpoint),
        p.identity_spec() == identity,
        p.endpoint_spec() == endpoint,
    ensures
        without_endpoint(with_peer(v, identity, endpoint, p), endpoint) == v,
        without_name(with_peer(v, identity, endpoint, p), identity) == v,
{
    let w = with_peer(v, identity, endpoint, p);
    assert(w.lookup[endpoint] == identity);
    assert(w.peers.remove(identity) =~= v.peers);
    assert(w.lookup.remove(endpoint) =~= v.lookup);
}

/// Law: an accepted peer is found by its endpoint and by its label, and each of its endpoint
/// and label leads to the other.
pub proof fn law_added_peer_is_found(v: RelayMapView, identity: ConnectionName, endpoint: Endpoint, p: Peer)
    requires
        consistent(v),
        accepts(v, identity, endpoint),
        p.identity_spec() == identity,
        p.endpoint_spec() == endpoint,
    ensures
        with_peer(v, identity, endpoint, p).lookup[endpoint] == identity,
        with_peer(v, identity, endpoint, p).peers[identity] == p,
        with_peer(v, identity, endpoint, p).peers.len() == v.peers.len() + 1,
{
}

} // verus!
