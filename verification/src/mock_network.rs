//! A simulated network for tests: endpoints, the packets queued between them, and the
//! connections each simulated service holds.  The services themselves, the event channels and
//! the shared handles live with the test harness; this module decides what happens.
use crate::assoc_map::{AssocMap, KeyEq};
use crate::public_id::{same_public_id, PublicId};
use vstd::prelude::*;

verus! {

/// Simulated network endpoint (think socket address).
#[derive(Clone, Copy, Debug, PartialEq, Eq, Structural, Hash, PartialOrd, Ord)]
pub struct Endpoint(pub usize);

impl KeyEq for Endpoint {
    fn key_eq(&self, other: &Self) -> (r: bool) {
        self.0 == other.0
    }
}

/// The direction of travel between two endpoints: sender, then receiver.
#[derive(Clone, Copy, Debug, PartialEq, Eq, Structural, Hash)]
pub struct Route(pub Endpoint, pub Endpoint);

impl KeyEq for Route {
    fn key_eq(&self, other: &Self) -> (r: bool) {
        self.0.0 == other.0.0 && self.1.0 == other.1.0
    }
}

/// Whether a peer connects as a node or as a client.
#[derive(Clone, Copy, Debug, PartialEq, Eq, Structural)]
pub enum CrustUser {
    Node,
    Client,
}

/// A packet travelling between simulated services.
#[derive(Clone, Debug, PartialEq, Eq)]
pub enum Packet {
    BootstrapRequest(PublicId, CrustUser),
    BootstrapSuccess(PublicId),
    BootstrapFailure,
    ConnectRequest(PublicId, PublicId),
    ConnectSuccess(PublicId, PublicId),
    ConnectFailure(PublicId, PublicId),
    Message(Vec<u8>),
    Disconnect,
}

/// The failure answering a request packet, if it is one.
pub open spec fn failure_of(p: Packet) -> Option<Packet> {
    match p {
        Packet::BootstrapRequest(..) => Some(Packet::BootstrapFailure),
        Packet::ConnectRequest(our_id, their_id) => Some(Packet::ConnectFailure(their_id, our_id)),
        _ => None,
    }
}

impl Packet {
    /// Given a request packet, returns the corresponding failure packet.
    pub fn to_failure(&self) -> (r: Option<Packet>)
        ensures
            r == failure_of(*self),
    {
        match self {
            Packet::BootstrapRequest(..) => Some(Packet::BootstrapFailure),
            Packet::ConnectRequest(our_id, their_id) => Some(Packet::ConnectFailure(*their_id, *our_id)),
            _ => None,
        }
    }
}

/// The IPv4 address and port that stand for an endpoint: `127.0.x.y` with the endpoint's two
/// low bytes, and the endpoint's low 16 bits as the port.
pub fn socket_addr_parts(endpoint: &Endpoint) -> (r: ([u8; 4], u16))
    ensures
        r.0@ == seq![127u8, 0u8, ((endpoint.0 / 256) % 256) as u8, (endpoint.0 % 256) as u8],
        r.1 == endpoint.0 % 65536,
{
    let e = endpoint.0;
    let hi: u8 = ((e >> 8) & 0xff) as u8;
    let lo: u8 = (e & 0xff) as u8;
    let port: u16 = (e & 0xffff) as u16;
    proof {
        assert((e >> 8) & 0xff == (e / 256) % 256) by (bit_vector);
        assert(e & 0xff == e % 256) by (bit_vector);
        assert(e & 0xffff == e % 65536) by (bit_vector);
    }
    let ip: [u8; 4] = [127, 0, hi, lo];
    assert(ip@ =~= seq![127u8, 0u8, ((e / 256) % 256) as u8, (e % 256) as u8]);
    (ip, port)
}

/// The `k`-th candidate endpoint for the address `127.0.b2.b3`.
pub open spec fn ip_endpoint(b2: u8, b3: u8, k: int) -> Endpoint {
    Endpoint((b2 * 256 + b3 + k * 65536) as usize)
}

/// The seeded random generator of `maidsafe_utilities`.
#[verifier::external_type_specification]
#[verifier::external_body]
pub struct ExSeededRng(maidsafe_utilities::SeededRng);

/// A generator from `maidsafe_utilities::SeededRng::new`, seeded from the process's seed.
/// Nothing is stated of it.
#[verifier::external_body]
fn new_seeded_rng() -> (r: maidsafe_utilities::SeededRng) {
    maidsafe_utilities::SeededRng::new()
}

/// A generator seeded from `rng`, from `maidsafe_utilities::SeededRng::new_rng`.  Nothing is
/// stated of it.
#[verifier::external_body]
fn child_rng(rng: &mut maidsafe_utilities::SeededRng) -> (r: maidsafe_utilities::SeededRng) {
    rng.new_rng()
}

/// A random index below `n`, from `rand::Rng::gen_range(0, n)` on `rng` (as `Rng::choose`
/// picks).  It is chance: only that it is below `n` is stated.
#[verifier::external_body]
fn random_index(rng: &mut maidsafe_utilities::SeededRng, n: usize) -> (r: usize)
    requires
        n > 0,
    ensures
        r < n,
{
    rand::Rng::gen_range(rng, 0, n)
}

/// What the simulated network holds: the endpoints of its services, the packets queued on each
/// route, and the routes that are blocked or delayed.
pub struct MockNetworkView {
    pub services: Set<Endpoint>,
    pub min_section_size: usize,
    pub queue: Map<Route, Seq<Packet>>,
    pub blocked: Set<Route>,
    pub delayed: Set<Route>,
    pub message_sent: bool,
}

/// The simulated network.
pub struct MockNetwork {
    services: Vec<Endpoint>,
    min_section_size: usize,
    queue: AssocMap<Route, std::collections::VecDeque<Packet>>,
    blocked: AssocMap<Route, ()>,
    delayed: AssocMap<Route, ()>,
    message_sent: bool,
    rng: maidsafe_utilities::SeededRng,
}

impl View for MockNetwork {
    type V = MockNetworkView;

    closed spec fn view(&self) -> MockNetworkView {
        MockNetworkView {
            services: self.services@.to_set(),
            min_section_size: self.min_section_size,
            queue: Map::new(
                |k: Route| self.queue@.contains_key(k),
                |k: Route| self.queue@[k]@,
            ),
            blocked: self.blocked@.dom(),
            delayed: self.delayed@.dom(),
            message_sent: self.message_sent,
        }
    }
}

/// Whether a queued route may deliver next: a delayed route only once every queued route is
/// delayed.
pub open spec fn may_deliver(v: MockNetworkView, k: Route) -> bool {
    !v.delayed.contains(k) || forall|q: Route| #[trigger] v.queue.contains_key(q) ==> v.delayed.contains(q)
}

impl MockNetwork {
    /// The maps hold each key once, every queued route has a packet, and no service endpoint
    /// occurs twice.
    pub closed spec fn wf(&self) -> bool {
        &&& self.queue.wf()
        &&& self.blocked.wf()
        &&& self.delayed.wf()
        &&& self.services@.no_duplicates()
        &&& forall|k: Route| #[trigger] self.queue@.contains_key(k) ==> self.queue@[k]@.len() > 0
    }

    /// The number of services.
    pub closed spec fn service_count(&self) -> nat {
        self.services@.len()
    }

    /// A network with no services and nothing queued.
    pub fn new(min_section_size: usize) -> (r: MockNetwork)
        ensures
            r.wf(),
            r@.services == Set::<Endpoint>::empty(),
            r@.min_section_size == min_section_size,
            r@.queue == Map::<Route, Seq<Packet>>::empty(),
            r@.blocked == Set::<Route>::empty(),
            r@.delayed == Set::<Route>::empty(),
            !r@.message_sent,
    {
        let r = MockNetwork {
            services: Vec::new(),
            min_section_size: min_section_size,
            queue: AssocMap::new(),
            blocked: AssocMap::new(),
            delayed: AssocMap::new(),
            message_sent: false,
            rng: new_seeded_rng(),
        };
        assert(r@.queue =~= Map::<Route, Seq<Packet>>::empty());
        assert(r@.services =~= Set::<Endpoint>::empty());
        r
    }

    /// The minimum section size of the simulated network.
    pub fn min_section_size(&self) -> (r: usize)
        ensures
            r == self@.min_section_size,
    {
        self.min_section_size
    }

    /// Whether a service is registered at `endpoint`.
    pub fn has_service(&self, endpoint: &Endpoint) -> (r: bool)
        ensures
            r == self@.services.contains(*endpoint),
    {
        let mut i: usize = 0;
        while i < self.services.len()
            invariant
                0 <= i <= self.services@.len(),
                forall|j: int| 0 <= j < i ==> self.services@[j] != *endpoint,
            decreases self.services@.len() - i,
        {
            if self.services[i].0 == endpoint.0 {
                assert(self.services@[i as int] == *endpoint);
                return true;
            }
            i = i + 1;
        }
        false
    }

    /// Registers a service at `endpoint`; returns false, changing nothing, if one is there.
    pub fn add_service(&mut self, endpoint: Endpoint) -> (r: bool)
        requires
            old(self).wf(),
        ensures
            final(self).wf(),
            r == !old(self)@.services.contains(endpoint),
            final(self)@ == (MockNetworkView { services: old(self)@.services.insert(endpoint), ..old(self)@ }),
    {
        if self.has_service(&endpoint) {
            assert(self@.services.insert(endpoint) =~= self@.services);
            return false;
        }
        let ghost before = self.services@;
        self.services.push(endpoint);
        proof {
            assert(self.services@ == before.push(endpoint));
            assert(self.services@.to_set() =~= before.to_set().insert(endpoint)) by {
                assert forall|e: Endpoint| self.services@.contains(e) <==> (before.contains(e) || e == endpoint) by {
                    if self.services@.contains(e) && e != endpoint {
                        let k = choose|k: int| 0 <= k < self.services@.len() && self.services@[k] == e;
                        assert(before[k] == e);
                    }
                    if before.contains(e) {
                        let k = choose|k: int| 0 <= k < before.len() && before[k] == e;
                        assert(self.services@[k] == e);
                    }
                    if e == endpoint {
                        assert(self.services@[before.len() as int] == e);
                    }
                }
            }
            assert forall|a: int, b: int| 0 <= a < self.services@.len() && 0 <= b < self.services@.len() && a != b implies self.services@[a] != self.services@[b] by {
                if a < before.len() && b < before.len() {
                } else if a < before.len() {
                    assert(before.contains(before[a]));
                } else {
                    assert(before.contains(before[b]));
                }
            }
        }
        true
    }

    /// The endpoint to use for a new service: the given one, or else the smallest that no
    /// service uses.
    pub fn gen_endpoint(&self, opt_endpoint: Option<Endpoint>) -> (r: Endpoint)
        requires
            self.wf(),
            self.service_count() < usize::MAX,
        ensures
            opt_endpoint is Some ==> r == opt_endpoint->Some_0,
            opt_endpoint is None ==> !self@.services.contains(r) && forall|j: usize|
                j < r.0 ==> self@.services.contains(Endpoint(j)),
    {
        match opt_endpoint {
            Some(e) => e,
            None => {
                let mut i: usize = 0;
                while self.has_service(&Endpoint(i))
                    invariant
                        self.wf(),
                        self.services@.len() < usize::MAX,
                        0 <= i <= self.services@.len(),
                        forall|j: usize| j < i ==> self@.services.contains(Endpoint(j)),
                    decreases self.services@.len() - i,
                {
                    proof {
                        self.lemma_used_below(i as int + 1);
                    }
                    i = i + 1;
                }
                Endpoint(i)
            },
        }
    }

    /// If every endpoint below `n` is used, there are at least `n` services.
    proof fn lemma_used_below(&self, n: int)
        requires
            self.wf(),
            0 <= n,
            forall|j: usize| j < n ==> self@.services.contains(Endpoint(j)),
            n <= usize::MAX + 1,
        ensures
            n <= self.services@.len(),
    {
        let used = self.services@.map_values(|e: Endpoint| e.0 as int);
        assert forall|j: int| #[trigger] vstd::set_lib::set_int_range(0, n).contains(j) implies used.to_set().contains(j) by {
            let e = Endpoint(j as usize);
            assert(self@.services.contains(e));
            let k = choose|k: int| 0 <= k < self.services@.len() && self.services@[k] == e;
            assert(used[k] == j);
        }
        vstd::set_lib::lemma_int_range(0, n);
        used.lemma_cardinality_of_set();
        vstd::set_lib::lemma_len_subset(vstd::set_lib::set_int_range(0, n), used.to_set());
    }

    /// A new endpoint whose socket address has the IPv4 address `127.0.b2.b3`: the first of
    /// `b2 * 256 + b3 + i * 65536`, for `i` below 255, that no service uses, if any.
    pub fn gen_endpoint_with_ip(&self, b2: u8, b3: u8) -> (r: Option<Endpoint>)
        ensures
            match r {
                Some(e) => !self@.services.contains(e) && exists|i: int|
                    0 <= i < 255 && e == #[trigger] ip_endpoint(b2, b3, i) && forall|k: int|
                        0 <= k < i ==> self@.services.contains(
                            #[trigger] ip_endpoint(b2, b3, k),
                        ),
                None => forall|k: int|
                    0 <= k < 255 ==> self@.services.contains(
                        #[trigger] ip_endpoint(b2, b3, k),
                    ),
            },
    {
        let initial: usize = (b2 as usize) * 256 + (b3 as usize);
        let mut i: usize = 0;
        while i < 255
            invariant
                initial == b2 * 256 + b3,
                0 <= i <= 255,
                forall|k: int|
                    0 <= k < i ==> self@.services.contains(
                        #[trigger] ip_endpoint(b2, b3, k),
                    ),
            decreases 255 - i,
        {
            let endpoint = Endpoint(initial + i * 65536);
            assert(endpoint == ip_endpoint(b2, b3, i as int));
            if !self.has_service(&endpoint) {
                return Some(endpoint);
            }
            i = i + 1;
        }
        None
    }

    /// Causes all packets from `sender` to `receiver` to fail.
    pub fn block_connection(&mut self, sender: Endpoint, receiver: Endpoint)
        requires
            old(self).wf(),
        ensures
            final(self).wf(),
            final(self)@ == (MockNetworkView {
                blocked: old(self)@.blocked.insert(Route(sender, receiver)),
                ..old(self)@
            }),
    {
        let _ = self.blocked.insert(Route(sender, receiver), ());
        assert(self@.blocked =~= old(self)@.blocked.insert(Route(sender, receiver)));
        assert(self@.queue =~= old(self)@.queue);
    }

    /// Makes all packets from `sender` to `receiver` succeed.
    pub fn unblock_connection(&mut self, sender: Endpoint, receiver: Endpoint)
        requires
            old(self).wf(),
        ensures
            final(self).wf(),
            final(self)@ == (MockNetworkView {
                blocked: old(self)@.blocked.remove(Route(sender, receiver)),
                ..old(self)@
            }),
    {
        let _ = self.blocked.remove(&Route(sender, receiver));
        assert(self@.blocked =~= old(self)@.blocked.remove(Route(sender, receiver)));
        assert(self@.queue =~= old(self)@.queue);
    }

    /// Delays the processing of packets from `sender` to `receiver`.
    pub fn delay_connection(&mut self, sender: Endpoint, receiver: Endpoint)
        requires
            old(self).wf(),
        ensures
            final(self).wf(),
            final(self)@ == (MockNetworkView {
                delayed: old(self)@.delayed.insert(Route(sender, receiver)),
                ..old(self)@
            }),
    {
        let _ = self.delayed.insert(Route(sender, receiver), ());
        assert(self@.delayed =~= old(self)@.delayed.insert(Route(sender, receiver)));
        assert(self@.queue =~= old(self)@.queue);
    }

    /// A new generator seeded from the network's; what the network holds is unchanged.
    pub fn new_rng(&mut self) -> (r: maidsafe_utilities::SeededRng)
        requires
            old(self).wf(),
        ensures
            final(self).wf(),
            final(self)@ == old(self)@,
    {
        child_rng(&mut self.rng)
    }

    /// Returns whether a message was sent since the previous query, and resets the flag.
    pub fn reset_message_sent(&mut self) -> (r: bool)
        ensures
            r == old(self)@.message_sent,
            final(self)@ == (MockNetworkView { message_sent: false, ..old(self)@ }),
    {
        let r = self.message_sent;
        self.message_sent = false;
        r
    }

    /// Whether packets from `sender` to `receiver` fail.
    pub fn connection_blocked(&self, sender: Endpoint, receiver: Endpoint) -> (r: bool)
        requires
            self.wf(),
        ensures
            r == self@.blocked.contains(Route(sender, receiver)),
    {
        self.blocked.contains_key(&Route(sender, receiver))
    }

    /// Queues `packet` behind those already travelling from `sender` to `receiver`.
    pub fn send(&mut self, sender: Endpoint, receiver: Endpoint, packet: Packet)
        requires
            old(self).wf(),
        ensures
            final(self).wf(),
            final(self)@ == (MockNetworkView {
                message_sent: true,
                queue: old(self)@.queue.insert(
                    Route(sender, receiver),
                    if old(self)@.queue.contains_key(Route(sender, receiver)) {
                        old(self)@.queue[Route(sender, receiver)].push(packet)
                    } else {
                        seq![packet]
                    },
                ),
                ..old(self)@
            }),
    {
        self.message_sent = true;
        let route = Route(sender, receiver);
        let ghost p = packet;
        let mut packets = match self.queue.remove(&route) {
            Some(q) => q,
            None => std::collections::VecDeque::new(),
        };
        packets.push_back(packet);
        let _ = self.queue.insert(route, packets);
        proof {
            let want = old(self)@.queue.insert(
                route,
                if old(self)@.queue.contains_key(route) {
                    old(self)@.queue[route].push(p)
                } else {
                    seq![p]
                },
            );
            assert(self@.queue =~= want);
        }
    }

    /// Drops the packets queued from `sender` to `receiver` (not those going the other way).
    pub fn drop_pending(&mut self, sender: Endpoint, receiver: Endpoint)
        requires
            old(self).wf(),
        ensures
            final(self).wf(),
            final(self)@ == (MockNetworkView {
                queue: old(self)@.queue.remove(Route(sender, receiver)),
                ..old(self)@
            }),
    {
        let _ = self.queue.remove(&Route(sender, receiver));
        assert(self@.queue =~= old(self)@.queue.remove(Route(sender, receiver)));
    }

    /// Takes the first packet of a route chosen at random among those that may deliver; `None`
    /// if nothing is queued.
    pub fn pop_packet(&mut self) -> (r: Option<(Endpoint, Endpoint, Packet)>)
        requires
            old(self).wf(),
        ensures
            final(self).wf(),
            r is None <==> old(self)@.queue.dom().is_empty(),
            r is None ==> final(self)@ == old(self)@,
            r is Some ==> ({
                let k = Route(r->Some_0.0, r->Some_0.1);
                let q = old(self)@.queue[k];
                &&& old(self)@.queue.contains_key(k)
                &&& may_deliver(old(self)@, k)
                &&& r->Some_0.2 == q[0]
                &&& final(self)@ == (MockNetworkView {
                    queue: if q.len() == 1 {
                        old(self)@.queue.remove(k)
                    } else {
                        old(self)@.queue.insert(k, q.drop_first())
                    },
                    ..old(self)@
                })
            }),
    {
        proof {
            self.queue.lemma_pairs();
        }
        let n = self.queue.len();
        let mut all_delayed = true;
        let mut i: usize = 0;
        while i < n
            invariant
                self.wf(),
                n == self.queue.pairs().len(),
                0 <= i <= n,
                all_delayed <==> forall|j: int| 0 <= j < i ==> self@.delayed.contains(#[trigger] self.queue.pairs()[j].0),
            decreases n - i,
        {
            if !self.delayed.contains_key(self.queue.key_at(i)) {
                all_delayed = false;
            }
            i = i + 1;
        }
        let mut eligible: Vec<usize> = Vec::new();
        let mut j: usize = 0;
        while j < n
            invariant
                self.wf(),
                n == self.queue.pairs().len(),
                0 <= j <= n,
                forall|a: int| 0 <= a < eligible@.len() ==> #[trigger] eligible@[a] < n,
                forall|a: int|
                    0 <= a < eligible@.len() ==> all_delayed || !self@.delayed.contains(
                        self.queue.pairs()[#[trigger] eligible@[a] as int].0,
                    ),
                (all_delayed && j > 0) ==> eligible@.len() > 0,
                (exists|b: int| 0 <= b < j && !self@.delayed.contains(#[trigger] self.queue.pairs()[b].0))
                    ==> eligible@.len() > 0,
            decreases n - j,
        {
            if all_delayed || !self.delayed.contains_key(self.queue.key_at(j)) {
                eligible.push(j);
            }
            j = j + 1;
        }
        if eligible.len() == 0 {
            proof {
                if n > 0 {
                    if !all_delayed {
                        let b = choose|b: int| 0 <= b < n && !self@.delayed.contains(#[trigger] self.queue.pairs()[b].0);
                    }
                }
                assert(self.queue@.dom() =~= Set::<Route>::empty());
            }
            return None;
        }
        let pick = eligible[random_index(&mut self.rng, eligible.len())];
        let route = *self.queue.key_at(pick);
        proof {
            assert(may_deliver(old(self)@, route)) by {
                if all_delayed {
                    assert forall|q: Route| #[trigger] old(self)@.queue.contains_key(q) implies old(self)@.delayed.contains(q) by {
                        let b = choose|b: int| 0 <= b < n && self.queue.pairs()[b].0 == q;
                    }
                }
            }
        }
        proof {
            self.queue.lemma_pairs();
            assert(self.queue@.contains_key(route));
            assert(self.queue@[route] == self.queue.pairs()[pick as int].1);
        }
        let (_, mut packets) = self.queue.remove_at(pick);
        let ghost before = packets@;
        let packet = match packets.pop_front() {
            Some(p) => p,
            None => {
                proof {
                    assert(before.len() > 0);
                }
                return None;
            },
        };
        if packets.len() > 0 {
            let _ = self.queue.insert(route, packets);
        }
        proof {
            assert(!old(self)@.queue.dom().is_empty()) by {
                assert(old(self)@.queue.contains_key(route));
            }
            let q = old(self)@.queue[route];
            assert(q == before);
            if q.len() == 1 {
                assert(self@.queue =~= old(self)@.queue.remove(route));
            } else {
                assert(self@.queue =~= old(self)@.queue.insert(route, q.drop_first()));
            }
        }
        Some((route.0, route.1, packet))
    }
}

/// Where a packet goes: a blocked request bounces as its failure; otherwise it is delivered if
/// a service is there, and a request to nobody bounces as its failure.
pub enum PacketRoute {
    /// Send this failure back from the receiver to the sender.
    Bounce(Packet),
    /// Hand the packet to the receiving service.
    Deliver,
    /// Drop the packet.
    Drop,
}

impl MockNetwork {
    /// Decides what becomes of `packet` from `sender` to `receiver`.
    pub fn route_packet(&self, sender: Endpoint, receiver: Endpoint, packet: &Packet) -> (r: PacketRoute)
        requires
            self.wf(),
        ensures
            ({
                let blocked = self@.blocked.contains(Route(sender, receiver));
                let failure = failure_of(*packet);
                let present = self@.services.contains(receiver);
                &&& blocked && failure is Some ==> r == PacketRoute::Bounce(failure->Some_0)
                &&& !(blocked && failure is Some) && present ==> r is Deliver
                &&& !(blocked && failure is Some) && !present && failure is Some ==> r == PacketRoute::Bounce(
                    failure->Some_0,
                )
                &&& !(blocked && failure is Some) && !present && failure is None ==> r is Drop
            }),
    {
        let failure = packet.to_failure();
        if self.connection_blocked(sender, receiver) {
            if let Some(f) = failure {
                return PacketRoute::Bounce(f);
            }
        }
        if self.has_service(&receiver) {
            PacketRoute::Deliver
        } else {
            match failure {
                Some(f) => PacketRoute::Bounce(f),
                None => PacketRoute::Drop,
            }
        }
    }
}

// ------------------------------------------------------------------------------------------
// Simulated services
// ------------------------------------------------------------------------------------------

/// What a simulated service tells its user.
#[derive(Clone, Debug, PartialEq, Eq)]
pub enum ServiceEvent {
    /// No bootstrap contact accepted us.
    BootstrapFailed,
    /// A peer bootstrapped off us.
    BootstrapAccept(PublicId, CrustUser),
    /// We bootstrapped off the peer at the endpoint.
    BootstrapConnect(PublicId, Endpoint),
    /// We connected to the peer.
    ConnectSuccess(PublicId),
    /// Connecting to the peer failed.
    ConnectFailure(PublicId),
    /// The peer sent a message.
    NewMessage(PublicId, CrustUser, Vec<u8>),
    /// We lost the connection to the peer.
    LostPeer(PublicId),
    /// We started listening.
    ListenerStarted,
    /// Our connection info, prepared under the token: our ID and endpoint.
    ConnectionInfoPrepared(u32, PublicId, Endpoint),
}

/// What a simulated service does as a result of a call.
#[derive(Clone, Debug, PartialEq, Eq)]
pub enum Output {
    /// Send the packet to the endpoint.
    Send(Endpoint, Packet),
    /// Tell the user of the service.
    Emit(ServiceEvent),
    /// Drop the packets queued from the first endpoint to the second.
    DropPending(Endpoint, Endpoint),
}

/// A connection: the peer's ID, its endpoint, and how it connected.
pub type Connection = (PublicId, Endpoint, CrustUser);

/// The connections with `(id, ep, kind)` added, unless `id` is already connected at `ep`.
pub open spec fn with_connection(s: Seq<Connection>, id: PublicId, ep: Endpoint, kind: CrustUser) -> Seq<Connection> {
    if exists|j: int| 0 <= j < s.len() && #[trigger] s[j].0 == id && s[j].1 == ep {
        s
    } else {
        s.push((id, ep, kind))
    }
}

/// `i` is the first connection to `ep`.
pub open spec fn first_at_endpoint(s: Seq<Connection>, ep: Endpoint, i: int) -> bool {
    0 <= i < s.len() && s[i].1 == ep && forall|j: int| 0 <= j < i ==> #[trigger] s[j].1 != ep
}

/// `i` is the first connection of the peer `id`.
pub open spec fn first_of_peer(s: Seq<Connection>, id: PublicId, i: int) -> bool {
    0 <= i < s.len() && s[i].0 == id && forall|j: int| 0 <= j < i ==> #[trigger] s[j].0 != id
}

/// The connections after the one at `i` is replaced by the last.
pub open spec fn swap_removed(s: Seq<Connection>, i: int) -> Seq<Connection> {
    s.update(i, s.last()).drop_last()
}

/// A simulated service: where it is, who it is, whom it may bootstrap off, and its connections.
pub struct ServiceState {
    pub endpoint: Endpoint,
    pub full_id: Option<PublicId>,
    pub contacts: Vec<Endpoint>,
    pub accept_bootstrap: bool,
    pub listening_tcp: bool,
    pub pending_bootstraps: u64,
    pub connections: Vec<Connection>,
}

impl ServiceState {
    /// A service at `endpoint` that may bootstrap off `contacts`; not started, not connected.
    pub fn new(endpoint: Endpoint, contacts: Vec<Endpoint>) -> (r: ServiceState)
        ensures
            r.endpoint == endpoint,
            r.full_id is None,
            r.contacts@ == contacts@,
            !r.accept_bootstrap,
            !r.listening_tcp,
            r.pending_bootstraps == 0,
            r.connections@.len() == 0,
    {
        ServiceState {
            endpoint: endpoint,
            full_id: None,
            contacts: contacts,
            accept_bootstrap: false,
            listening_tcp: false,
            pending_bootstraps: 0,
            connections: Vec::new(),
        }
    }

    /// Where the first connection to `ep` stands, if any.
    fn position_of_endpoint(&self, ep: Endpoint) -> (r: Option<usize>)
        ensures
            match r {
                Some(i) => first_at_endpoint(self.connections@, ep, i as int),
                None => forall|j: int| 0 <= j < self.connections@.len() ==> #[trigger] self.connections@[j].1 != ep,
            },
    {
        let mut i: usize = 0;
        while i < self.connections.len()
            invariant
                0 <= i <= self.connections@.len(),
                forall|j: int| 0 <= j < i ==> #[trigger] self.connections@[j].1 != ep,
            decreases self.connections@.len() - i,
        {
            if self.connections[i].1.0 == ep.0 {
                return Some(i);
            }
            i = i + 1;
        }
        None
    }

    /// Where the first connection of `id` stands, if any.
    fn position_of_peer(&self, id: &PublicId) -> (r: Option<usize>)
        ensures
            match r {
                Some(i) => first_of_peer(self.connections@, *id, i as int),
                None => forall|j: int| 0 <= j < self.connections@.len() ==> #[trigger] self.connections@[j].0 != *id,
            },
    {
        let mut i: usize = 0;
        while i < self.connections.len()
            invariant
                0 <= i <= self.connections@.len(),
                forall|j: int| 0 <= j < i ==> #[trigger] self.connections@[j].0 != *id,
            decreases self.connections@.len() - i,
        {
            if same_public_id(&self.connections[i].0, id) {
                return Some(i);
            }
            i = i + 1;
        }
        None
    }

    /// Whether the service holds a connection to `id` at `ep`.
    pub fn is_connected(&self, ep: &Endpoint, id: &PublicId) -> (r: bool)
        ensures
            r == exists|j: int| 0 <= j < self.connections@.len() && #[trigger] self.connections@[j].0 == *id
                && self.connections@[j].1 == *ep,
    {
        let mut i: usize = 0;
        while i < self.connections.len()
            invariant
                0 <= i <= self.connections@.len(),
                forall|j: int| 0 <= j < i ==> !(#[trigger] self.connections@[j].0 == *id && self.connections@[j].1 == *ep),
            decreases self.connections@.len() - i,
        {
            if same_public_id(&self.connections[i].0, id) && self.connections[i].1.0 == ep.0 {
                return true;
            }
            i = i + 1;
        }
        false
    }

    /// Adds a connection unless one to `id` at `ep` exists; returns whether it was added.
    pub fn add_connection(&mut self, id: PublicId, ep: Endpoint, kind: CrustUser) -> (r: bool)
        ensures
            r == !exists|j: int| 0 <= j < old(self).connections@.len() && #[trigger] old(self).connections@[j].0 == id
                && old(self).connections@[j].1 == ep,
            r ==> final(self).connections@ == old(self).connections@.push((id, ep, kind)),
            !r ==> final(self).connections@ == old(self).connections@,
            final(self).endpoint == old(self).endpoint,
            final(self).full_id == old(self).full_id,
            final(self).pending_bootstraps == old(self).pending_bootstraps,
            final(self).listening_tcp == old(self).listening_tcp,
            final(self).accept_bootstrap == old(self).accept_bootstrap,
    {
        if self.is_connected(&ep, &id) {
            return false;
        }
        self.connections.push((id, ep, kind));
        true
    }

    /// Removes the first connection of `id`, the last taking its place; returns its endpoint.
    pub fn remove_connection_by_uid(&mut self, id: &PublicId) -> (r: Option<Endpoint>)
        ensures
            match r {
                Some(ep) => exists|i: int|
                    #[trigger] first_of_peer(old(self).connections@, *id, i) && ep == old(self).connections@[i].1
                        && final(self).connections@ == swap_removed(old(self).connections@, i),
                None => (forall|j: int| 0 <= j < old(self).connections@.len() ==> #[trigger] old(self).connections@[j].0 != *id)
                    && final(self).connections@ == old(self).connections@,
            },
            final(self).endpoint == old(self).endpoint,
            final(self).full_id == old(self).full_id,
            final(self).pending_bootstraps == old(self).pending_bootstraps,
            final(self).listening_tcp == old(self).listening_tcp,
            final(self).accept_bootstrap == old(self).accept_bootstrap,
    {
        match self.position_of_peer(id) {
            Some(i) => {
                let ghost s = self.connections@;
                let c = self.connections.swap_remove(i);
                assert(self.connections@ =~= swap_removed(s, i as int));
                assert(first_of_peer(s, *id, i as int));
                Some(c.1)
            },
            None => None,
        }
    }

    /// Removes the first connection at `ep`, the last taking its place; returns the peer's ID.
    pub fn remove_connection_by_endpoint(&mut self, ep: Endpoint) -> (r: Option<PublicId>)
        ensures
            match r {
                Some(id) => exists|i: int|
                    #[trigger] first_at_endpoint(old(self).connections@, ep, i) && id == old(self).connections@[i].0
                        && final(self).connections@ == swap_removed(old(self).connections@, i),
                None => (forall|j: int| 0 <= j < old(self).connections@.len() ==> #[trigger] old(self).connections@[j].1 != ep)
                    && final(self).connections@ == old(self).connections@,
            },
            final(self).endpoint == old(self).endpoint,
            final(self).full_id == old(self).full_id,
            final(self).pending_bootstraps == old(self).pending_bootstraps,
            final(self).listening_tcp == old(self).listening_tcp,
            final(self).accept_bootstrap == old(self).accept_bootstrap,
            final(self).contacts@ == old(self).contacts@,
    {
        match self.position_of_endpoint(ep) {
            Some(i) => {
                let ghost s = self.connections@;
                let c = self.connections.swap_remove(i);
                assert(self.connections@ =~= swap_removed(s, i as int));
                assert(first_at_endpoint(s, ep, i as int));
                Some(c.0)
            },
            None => None,
        }
    }

    /// The endpoint of the first connection of `id`, if any.
    pub fn find_endpoint_by_uid(&self, id: &PublicId) -> (r: Option<Endpoint>)
        ensures
            match r {
                Some(ep) => exists|i: int| #[trigger] first_of_peer(self.connections@, *id, i) && ep == self.connections@[i].1,
                None => forall|j: int| 0 <= j < self.connections@.len() ==> #[trigger] self.connections@[j].0 != *id,
            },
    {
        match self.position_of_peer(id) {
            Some(i) => {
                assert(first_of_peer(self.connections@, *id, i as int));
                Some(self.connections[i].1)
            },
            None => None,
        }
    }

    /// The peer and its kind of the first connection at `ep`, if any.
    pub fn find_uid_and_kind_by_endpoint(&self, ep: &Endpoint) -> (r: Option<(PublicId, CrustUser)>)
        ensures
            match r {
                Some(x) => exists|i: int| #[trigger] first_at_endpoint(self.connections@, *ep, i) && x == (
                    self.connections@[i].0,
                    self.connections@[i].2,
                ),
                None => forall|j: int| 0 <= j < self.connections@.len() ==> #[trigger] self.connections@[j].1 != *ep,
            },
    {
        match self.position_of_endpoint(*ep) {
            Some(i) => {
                assert(first_at_endpoint(self.connections@, *ep, i as int));
                Some((self.connections[i].0, self.connections[i].2))
            },
            None => None,
        }
    }

    /// Whether the service is connected to `id`.
    pub fn is_peer_connected(&self, id: &PublicId) -> (r: bool)
        ensures
            r == exists|j: int| 0 <= j < self.connections@.len() && #[trigger] self.connections@[j].0 == *id,
    {
        self.position_of_peer(id).is_some()
    }

    /// One bootstrap attempt ended: when the last ends and nothing is connected, bootstrapping
    /// failed.
    pub fn decrement_pending_bootstraps(&mut self) -> (r: Vec<Output>)
        ensures
            old(self).pending_bootstraps == 0 ==> r@.len() == 0 && final(self).pending_bootstraps == 0,
            old(self).pending_bootstraps > 0 ==> final(self).pending_bootstraps == old(self).pending_bootstraps - 1
                && r@ == (if final(self).pending_bootstraps == 0 && old(self).connections@.len() == 0 {
                    seq![Output::Emit(ServiceEvent::BootstrapFailed)]
                } else {
                    Seq::<Output>::empty()
                }),
            final(self).connections@ == old(self).connections@,
            final(self).endpoint == old(self).endpoint,
            final(self).full_id == old(self).full_id,
            final(self).listening_tcp == old(self).listening_tcp,
            final(self).accept_bootstrap == old(self).accept_bootstrap,
    {
        let mut r: Vec<Output> = Vec::new();
        if self.pending_bootstraps == 0 {
            return r;
        }
        self.pending_bootstraps = self.pending_bootstraps - 1;
        if self.pending_bootstraps == 0 && self.connections.len() == 0 {
            r.push(Output::Emit(ServiceEvent::BootstrapFailed));
        }
        assert(r@ == (if self.pending_bootstraps == 0 && old(self).connections@.len() == 0 {
            seq![Output::Emit(ServiceEvent::BootstrapFailed)]
        } else {
            Seq::<Output>::empty()
        }));
        r
    }

    /// Asks each contact other than ourselves and those blacklisted to let us bootstrap; if
    /// none is asked, bootstrapping fails at once.
    pub fn start_bootstrap(&mut self, blacklist: &[Endpoint], kind: CrustUser) -> (r: Vec<Output>)
        requires
            old(self).full_id is Some,
            old(self).contacts@.len() < u64::MAX,
        ensures
            final(self).connections@ == old(self).connections@,
            final(self).full_id == old(self).full_id,
            ({
                let asked = old(self).contacts@.filter(
                    |c: Endpoint| c != old(self).endpoint && !blacklist@.contains(c),
                );
                &&& final(self).pending_bootstraps == asked.len()
                &&& asked.len() > 0 ==> r@ == asked.map_values(
                    |c: Endpoint|
                        Output::Send(c, Packet::BootstrapRequest(old(self).full_id->Some_0, kind)),
                )
                &&& asked.len() == 0 ==> r@ == seq![Output::Emit(ServiceEvent::BootstrapFailed)]
            }),
    {
        let id = match self.full_id {
            Some(id) => id,
            None => {
                return Vec::new();
            },
        };
        let ghost pred = |c: Endpoint| c != self.endpoint && !blacklist@.contains(c);
        let ghost f = |c: Endpoint| Output::Send(c, Packet::BootstrapRequest(id, kind));
        let mut r: Vec<Output> = Vec::new();
        let mut pending: u64 = 0;
        let mut i: usize = 0;
        while i < self.contacts.len()
            invariant
                0 <= i <= self.contacts@.len(),
                self.contacts@.len() < u64::MAX,
                self.full_id == Some(id),
                pred == (|c: Endpoint| c != self.endpoint && !blacklist@.contains(c)),
                f == (|c: Endpoint| Output::Send(c, Packet::BootstrapRequest(id, kind))),
                pending == self.contacts@.take(i as int).filter(pred).len(),
                pending <= i,
                r@ == self.contacts@.take(i as int).filter(pred).map_values(f),
            decreases self.contacts@.len() - i,
        {
            let c = self.contacts[i];
            proof {
                let t = self.contacts@.take(i + 1);
                assert(t.drop_last() =~= self.contacts@.take(i as int));
                assert(t.last() == c);
                reveal_with_fuel(Seq::filter, 1);
            }
            let mut black = false;
            let mut b: usize = 0;
            while b < blacklist.len()
                invariant
                    0 <= b <= blacklist@.len(),
                    black <==> exists|k: int| 0 <= k < b && blacklist@[k] == c,
                decreases blacklist@.len() - b,
            {
                if blacklist[b].0 == c.0 {
                    black = true;
                }
                b = b + 1;
            }
            if c.0 != self.endpoint.0 && !black {
                r.push(Output::Send(c, Packet::BootstrapRequest(id, kind)));
                pending = pending + 1;
            }
            proof {
                let t = self.contacts@.take(i + 1);
                assert(pred(c) == (c != self.endpoint && !black));
                assert(t.filter(pred) == if pred(c) {
                    t.drop_last().filter(pred).push(c)
                } else {
                    t.drop_last().filter(pred)
                });
                assert(r@ =~= t.filter(pred).map_values(f));
            }
            i = i + 1;
        }
        proof {
            assert(self.contacts@.take(self.contacts@.len() as int) =~= self.contacts@);
        }
        if pending == 0 {
            r.push(Output::Emit(ServiceEvent::BootstrapFailed));
            assert(r@ =~= seq![Output::Emit(ServiceEvent::BootstrapFailed)]);
        }
        self.pending_bootstraps = pending;
        r
    }
}

/// The packets telling each connected peer, in order, that we disconnect.
pub open spec fn disconnects(s: Seq<Connection>) -> Seq<Output> {
    s.map_values(|c: Connection| Output::Send(c.1, Packet::Disconnect))
}

impl ServiceState {
    /// Starts the service with its identity.
    pub fn start(&mut self, full_id: PublicId)
        ensures
            final(self).full_id == Some(full_id),
            final(self).connections@ == old(self).connections@,
            final(self).endpoint == old(self).endpoint,
            final(self).listening_tcp == old(self).listening_tcp,
    {
        self.full_id = Some(full_id);
    }

    /// Drops every connection, telling each peer.
    pub fn disconnect_all(&mut self) -> (r: Vec<Output>)
        ensures
            r@ == disconnects(old(self).connections@),
            final(self).connections@.len() == 0,
            final(self).endpoint == old(self).endpoint,
            final(self).full_id == old(self).full_id,
            final(self).listening_tcp == old(self).listening_tcp,
    {
        let mut r: Vec<Output> = Vec::new();
        let mut i: usize = 0;
        while i < self.connections.len()
            invariant
                0 <= i <= self.connections@.len(),
                self.connections@ == old(self).connections@,
                r@ == disconnects(self.connections@.take(i as int)),
            decreases self.connections@.len() - i,
        {
            r.push(Output::Send(self.connections[i].1, Packet::Disconnect));
            proof {
                assert(disconnects(self.connections@.take(i + 1)) =~= disconnects(
                    self.connections@.take(i as int),
                ).push(Output::Send(self.connections@[i as int].1, Packet::Disconnect)));
            }
            i = i + 1;
        }
        assert(self.connections@.take(self.connections@.len() as int) =~= self.connections@);
        self.connections.clear();
        r
    }

    /// Restarts the service with a new identity: every connection is dropped and it stops
    /// listening.
    pub fn restart(&mut self, full_id: PublicId) -> (r: Vec<Output>)
        ensures
            r@ == disconnects(old(self).connections@),
            final(self).connections@.len() == 0,
            final(self).full_id == Some(full_id),
            !final(self).listening_tcp,
            final(self).endpoint == old(self).endpoint,
    {
        let r = self.disconnect_all();
        self.full_id = Some(full_id);
        self.listening_tcp = false;
        r
    }

    /// Sends `data` to the peer `id`, if connected; returns whether it was sent.
    pub fn send_message(&self, id: &PublicId, data: Vec<u8>) -> (r: Option<Output>)
        ensures
            match r {
                Some(o) => exists|i: int| #[trigger] first_of_peer(self.connections@, *id, i)
                    && o == Output::Send(self.connections@[i].1, Packet::Message(data)),
                None => forall|j: int| 0 <= j < self.connections@.len() ==> #[trigger] self.connections@[j].0 != *id,
            },
    {
        match self.find_endpoint_by_uid(id) {
            Some(ep) => Some(Output::Send(ep, Packet::Message(data))),
            None => None,
        }
    }

    /// Our connection info, prepared under `token`.
    pub fn prepare_connection_info(&self, token: u32) -> (r: Output)
        requires
            self.full_id is Some,
        ensures
            r == Output::Emit(ServiceEvent::ConnectionInfoPrepared(token, self.full_id->Some_0, self.endpoint)),
    {
        let id = self.full_id.unwrap();
        Output::Emit(ServiceEvent::ConnectionInfoPrepared(token, id, self.endpoint))
    }

    /// Asks the peer `their_id` at `their_endpoint` to connect.
    pub fn connect(&self, their_id: PublicId, their_endpoint: Endpoint) -> (r: Output)
        requires
            self.full_id is Some,
        ensures
            r == Output::Send(their_endpoint, Packet::ConnectRequest(self.full_id->Some_0, their_id)),
    {
        let id = self.full_id.unwrap();
        Output::Send(their_endpoint, Packet::ConnectRequest(id, their_id))
    }

    /// Starts listening.
    pub fn start_listening(&mut self) -> (r: Output)
        ensures
            final(self).listening_tcp,
            r == Output::Emit(ServiceEvent::ListenerStarted),
            final(self).connections@ == old(self).connections@,
            final(self).full_id == old(self).full_id,
            final(self).endpoint == old(self).endpoint,
    {
        self.listening_tcp = true;
        Output::Emit(ServiceEvent::ListenerStarted)
    }

    /// Disconnects from `id`: drops the packets queued both ways, and tells the peer.
    pub fn disconnect(&mut self, id: &PublicId) -> (r: Vec<Output>)
        ensures
            final(self).endpoint == old(self).endpoint,
            final(self).full_id == old(self).full_id,
            (forall|j: int| 0 <= j < old(self).connections@.len() ==> #[trigger] old(self).connections@[j].0 != *id)
                ==> r@.len() == 0 && final(self).connections@ == old(self).connections@,
            forall|i: int| #[trigger] first_of_peer(old(self).connections@, *id, i) ==> {
                let ep = old(self).connections@[i].1;
                &&& final(self).connections@ == swap_removed(old(self).connections@, i)
                &&& r@ == seq![
                    Output::DropPending(old(self).endpoint, ep),
                    Output::DropPending(ep, old(self).endpoint),
                    Output::Send(ep, Packet::Disconnect),
                ]
            },
    {
        let mut r: Vec<Output> = Vec::new();
        match self.remove_connection_by_uid(id) {
            Some(ep) => {
                r.push(Output::DropPending(self.endpoint, ep));
                r.push(Output::DropPending(ep, self.endpoint));
                r.push(Output::Send(ep, Packet::Disconnect));
                proof {
                    let i = choose|i: int| #[trigger] first_of_peer(old(self).connections@, *id, i)
                        && ep == old(self).connections@[i].1;
                    assert forall|k: int| #[trigger] first_of_peer(old(self).connections@, *id, k) implies k == i by {
                        if k < i {
                            assert(old(self).connections@[k].0 != *id);
                        } else if k > i {
                            assert(old(self).connections@[i].0 != *id);
                        }
                    }
                }
            },
            None => {},
        }
        r
    }

    /// Handles a packet from `sender`.
    pub fn receive_packet(&mut self, sender: Endpoint, packet: Packet) -> (r: Vec<Output>)
        requires
            old(self).full_id is Some,
        ensures
            final(self).full_id == old(self).full_id,
            final(self).endpoint == old(self).endpoint,
            ({
                let o = *old(self);
                let f = *final(self);
                let our_id = o.full_id->Some_0;
                let counted = if o.pending_bootstraps > 0 {
                    o.pending_bootstraps - 1
                } else {
                    0
                };
                &&& f.listening_tcp == o.listening_tcp
                &&& f.accept_bootstrap == o.accept_bootstrap
                &&& (match packet {
                    Packet::BootstrapSuccess(_) => f.pending_bootstraps == counted,
                    Packet::BootstrapFailure => f.pending_bootstraps == counted,
                    _ => f.pending_bootstraps == o.pending_bootstraps,
                })
                &&& match packet {
                    Packet::BootstrapRequest(uid, kind) => if o.listening_tcp && o.accept_bootstrap {
                        f.connections@ == with_connection(o.connections@, uid, sender, kind) && r@ == seq![
                            Output::Emit(ServiceEvent::BootstrapAccept(uid, kind)),
                            Output::Send(sender, Packet::BootstrapSuccess(our_id)),
                        ]
                    } else {
                        f.connections@ == o.connections@ && r@ == seq![Output::Send(sender, Packet::BootstrapFailure)]
                    },
                    Packet::BootstrapSuccess(uid) => f.connections@ == with_connection(
                        o.connections@,
                        uid,
                        sender,
                        CrustUser::Node,
                    ) && r@ == seq![Output::Emit(ServiceEvent::BootstrapConnect(uid, sender))],
                    Packet::BootstrapFailure => f.connections@ == o.connections@ && r@ == (if o.pending_bootstraps
                        == 1 && o.connections@.len() == 0 {
                        seq![Output::Emit(ServiceEvent::BootstrapFailed)]
                    } else {
                        Seq::<Output>::empty()
                    }),
                    Packet::ConnectRequest(their_id, _) => if exists|j: int|
                        0 <= j < o.connections@.len() && #[trigger] o.connections@[j].0 == their_id
                            && o.connections@[j].1 == sender {
                        f.connections@ == o.connections@ && r@.len() == 0
                    } else {
                        f.connections@ == o.connections@.push((their_id, sender, CrustUser::Node)) && r@ == seq![
                            Output::Emit(ServiceEvent::ConnectSuccess(their_id)),
                            Output::Send(sender, Packet::ConnectSuccess(our_id, their_id)),
                        ]
                    },
                    Packet::ConnectSuccess(their_id, _) => if exists|j: int|
                        0 <= j < o.connections@.len() && #[trigger] o.connections@[j].0 == their_id
                            && o.connections@[j].1 == sender {
                        f.connections@ == o.connections@ && r@.len() == 0
                    } else {
                        f.connections@ == o.connections@.push((their_id, sender, CrustUser::Node)) && r@ == seq![
                            Output::Emit(ServiceEvent::ConnectSuccess(their_id)),
                        ]
                    },
                    Packet::ConnectFailure(their_id, _) => f.connections@ == o.connections@ && r@ == seq![
                        Output::Emit(ServiceEvent::ConnectFailure(their_id)),
                    ],
                    Packet::Message(data) => f.connections@ == o.connections@ && (forall|i: int|
                        #[trigger] first_at_endpoint(o.connections@, sender, i) ==> r@ == seq![
                            Output::Emit(
                                ServiceEvent::NewMessage(o.connections@[i].0, o.connections@[i].2, data),
                            ),
                        ]) && ((forall|j: int| 0 <= j < o.connections@.len() ==> #[trigger] o.connections@[j].1 != sender) ==> r@.len() == 0),
                    Packet::Disconnect => (forall|i: int|
                        #[trigger] first_at_endpoint(o.connections@, sender, i) ==> f.connections@ == swap_removed(
                            o.connections@,
                            i,
                        ) && r@ == seq![Output::Emit(ServiceEvent::LostPeer(o.connections@[i].0))]) && ((forall|j: int|
                        0 <= j < o.connections@.len() ==> #[trigger] o.connections@[j].1 != sender) ==> r@.len() == 0
                        && f.connections@ == o.connections@),
                }
            }),
    {
        let our_id = self.full_id.unwrap();
        let mut r: Vec<Output> = Vec::new();
        match packet {
            Packet::BootstrapRequest(uid, kind) => {
                if self.listening_tcp && self.accept_bootstrap {
                    let _ = self.add_connection(uid, sender, kind);
                    r.push(Output::Emit(ServiceEvent::BootstrapAccept(uid, kind)));
                    r.push(Output::Send(sender, Packet::BootstrapSuccess(our_id)));
                } else {
                    r.push(Output::Send(sender, Packet::BootstrapFailure));
                }
            },
            Packet::BootstrapSuccess(uid) => {
                let _ = self.add_connection(uid, sender, CrustUser::Node);
                r.push(Output::Emit(ServiceEvent::BootstrapConnect(uid, sender)));
                let mut more = self.decrement_pending_bootstraps();
                r.append(&mut more);
            },
            Packet::BootstrapFailure => {
                r = self.decrement_pending_bootstraps();
            },
            Packet::ConnectRequest(their_id, _) => {
                if !self.is_connected(&sender, &their_id) {
                    if self.add_connection(their_id, sender, CrustUser::Node) {
                        r.push(Output::Emit(ServiceEvent::ConnectSuccess(their_id)));
                    }
                    r.push(Output::Send(sender, Packet::ConnectSuccess(our_id, their_id)));
                }
            },
            Packet::ConnectSuccess(their_id, _) => {
                if self.add_connection(their_id, sender, CrustUser::Node) {
                    r.push(Output::Emit(ServiceEvent::ConnectSuccess(their_id)));
                }
            },
            Packet::ConnectFailure(their_id, _) => {
                r.push(Output::Emit(ServiceEvent::ConnectFailure(their_id)));
            },
            Packet::Message(data) => {
                match self.find_uid_and_kind_by_endpoint(&sender) {
                    Some((uid, kind)) => {
                        r.push(Output::Emit(ServiceEvent::NewMessage(uid, kind, data)));
                        proof {
                            let i = choose|i: int| #[trigger] first_at_endpoint(self.connections@, sender, i)
                                && (uid, kind) == (self.connections@[i].0, self.connections@[i].2);
                            assert forall|k: int| #[trigger] first_at_endpoint(self.connections@, sender, k) implies k == i by {
                                if k < i {
                                    assert(self.connections@[k].1 != sender);
                                } else if k > i {
                                    assert(self.connections@[i].1 != sender);
                                }
                            }
                        }
                    },
                    None => {},
                }
            },
            Packet::Disconnect => {
                match self.remove_connection_by_endpoint(sender) {
                    Some(uid) => {
                        r.push(Output::Emit(ServiceEvent::LostPeer(uid)));
                        proof {
                            let i = choose|i: int| #[trigger] first_at_endpoint(old(self).connections@, sender, i)
                                && uid == old(self).connections@[i].0
                                && self.connections@ == swap_removed(old(self).connections@, i);
                            assert forall|k: int| #[trigger] first_at_endpoint(old(self).connections@, sender, k) implies k == i by {
                                if k < i {
                                    assert(old(self).connections@[k].1 != sender);
                                } else if k > i {
                                    assert(old(self).connections@[i].1 != sender);
                                }
                            }
                        }
                    },
                    None => {},
                }
            },
        }
        r
    }
}

/// Whether some connection in `s` is to `ep`.
pub open spec fn connected_at(s: Seq<Connection>, ep: Endpoint) -> bool {
    exists|j: int| 0 <= j < s.len() && #[trigger] s[j].1 == ep
}

/// The service keeps all but its connections.
pub open spec fn same_but_connections(a: ServiceState, b: ServiceState) -> bool {
    &&& a.endpoint == b.endpoint
    &&& a.full_id == b.full_id
    &&& a.contacts@ == b.contacts@
    &&& a.accept_bootstrap == b.accept_bootstrap
    &&& a.listening_tcp == b.listening_tcp
    &&& a.pending_bootstraps == b.pending_bootstraps
}

/// Simulates the loss of the connection between the services at `node_1` and `node_2`: if the
/// first holds a connection to the second, it drops its first one, the second drops its first
/// connection to the first (if it has one), and each loses the other.  Returns what each is
/// told; `None`, with nothing changed, when the first holds no connection to the second.
pub fn lost_connection(service_1: &mut ServiceState, service_2: &mut ServiceState) -> (r: Option<(ServiceEvent, ServiceEvent)>)
    requires
        connected_at(old(service_1).connections@, old(service_2).endpoint) ==> old(service_1).full_id is Some
            && old(service_2).full_id is Some,
    ensures
        same_but_connections(*final(service_1), *old(service_1)),
        same_but_connections(*final(service_2), *old(service_2)),
        !connected_at(old(service_1).connections@, old(service_2).endpoint) ==> r is None
            && final(service_1).connections@ == old(service_1).connections@
            && final(service_2).connections@ == old(service_2).connections@,
        forall|i: int| #[trigger] first_at_endpoint(old(service_1).connections@, old(service_2).endpoint, i) ==> {
            &&& final(service_1).connections@ == swap_removed(old(service_1).connections@, i)
            &&& r == Some((
                ServiceEvent::LostPeer(old(service_2).full_id->Some_0),
                ServiceEvent::LostPeer(old(service_1).full_id->Some_0),
            ))
        },
        connected_at(old(service_1).connections@, old(service_2).endpoint) ==> {
            &&& forall|j: int| #[trigger] first_at_endpoint(old(service_2).connections@, old(service_1).endpoint, j)
                ==> final(service_2).connections@ == swap_removed(old(service_2).connections@, j)
            &&& !connected_at(old(service_2).connections@, old(service_1).endpoint)
                ==> final(service_2).connections@ == old(service_2).connections@
        },
{
    let e1 = service_1.endpoint;
    let e2 = service_2.endpoint;
    match service_1.remove_connection_by_endpoint(e2) {
        None => None,
        Some(_) => {
            proof {
                let i = choose|i: int| #[trigger] first_at_endpoint(old(service_1).connections@, e2, i)
                    && service_1.connections@ == swap_removed(old(service_1).connections@, i);
                assert forall|k: int| #[trigger] first_at_endpoint(old(service_1).connections@, e2, k) implies k == i by {
                    if k < i {
                        assert(old(service_1).connections@[k].1 != e2);
                    } else if k > i {
                        assert(old(service_1).connections@[i].1 != e2);
                    }
                }
            }
            let _ = service_2.remove_connection_by_endpoint(e1);
            proof {
                if exists|j: int| #[trigger] first_at_endpoint(old(service_2).connections@, e1, j)
                    && service_2.connections@ == swap_removed(old(service_2).connections@, j) {
                    let j = choose|j: int| #[trigger] first_at_endpoint(old(service_2).connections@, e1, j)
                        && service_2.connections@ == swap_removed(old(service_2).connections@, j);
                    assert forall|k: int| #[trigger] first_at_endpoint(old(service_2).connections@, e1, k) implies k == j by {
                        if k < j {
                            assert(old(service_2).connections@[k].1 != e1);
                        } else if k > j {
                            assert(old(service_2).connections@[j].1 != e1);
                        }
                    }
                }
            }
            let id1 = service_1.full_id.unwrap();
            let id2 = service_2.full_id.unwrap();
            Some((ServiceEvent::LostPeer(id2), ServiceEvent::LostPeer(id1)))
        },
    }
}

} // verus!
