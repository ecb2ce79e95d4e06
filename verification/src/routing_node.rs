//! What a routing node decides when a peer says hello on a new connection: how to label the
//! connection, who takes the initiative, and whether the connection is kept.
//!
//! A node and a node make a routing-table contact, a client talking to a node is relayed, a
//! node seen by a client is a bootstrap node, and two clients have nothing to say to each other.
//! The side with the smaller name (or the node, towards a client) takes the initiative and adds
//! the peer at once; the other side waits until the peer's hello confirms our address.
use crate::direct_messages::Hello;
use crate::error::RoutingError;
use crate::id::name_less;
use crate::mock_network::Endpoint;
use crate::name_type::NameType;
use crate::routing_core::{
    add_peer_spec, drop_peer_spec, lookup_endpoint_spec, ConnectionName, CoreEvent, CoreEventView,
    RoutingCore, RoutingCoreView,
};
use crate::types::Address;
use vstd::prelude::*;

verus! {

/// Returns true if name `a` comes before name `b` (the order of their bytes).
pub fn name_before(a: &NameType, b: &NameType) -> (r: bool)
    ensures
        r == name_less(a@, b@),
{
    let mut i: usize = 0;
    while i < 64
        invariant
            0 <= i <= 64,
            a@.len() == 64,
            b@.len() == 64,
            name_less(a@, b@) == crate::id::bytes_less_from(a@, b@, i as int),
        decreases 64 - i,
    {
        if a.0[i] != b.0[i] {
            return a.0[i] < b.0[i];
        }
        i = i + 1;
    }
    false
}

/// Our address: our network name once we have one, else our signing key as a client.
pub open spec fn our_address_spec(v: RoutingCoreView) -> Address {
    match v.network_name {
        Some(name) => Address::Node(name),
        None => Address::Client(v.id.sign_key_spec()),
    }
}

/// Whether `a` is our address: our signing key, or our current name.
pub open spec fn is_us_spec(v: RoutingCoreView, a: Address) -> bool {
    match a {
        Address::Client(key) => key == v.id.sign_key_spec(),
        Address::Node(name) => name == v.id.name_spec(),
    }
}

/// What to do about a hello.
#[derive(Clone, Copy, Debug, PartialEq, Eq)]
pub enum HelloDecision {
    /// The connection is to a routing contact that still says it is a node: nothing to do.
    AlreadyRouting,
    /// The connection is to routing contact `name`, which no longer says it is a node: drop the
    /// contact and the connection.
    RejectRouting(NameType),
    /// Both sides are clients: drop the old label, if any, and the connection.
    RejectClient(Option<ConnectionName>),
    /// The peer confirmed an address that is not ours: drop the connection.
    RejectConfirmation,
    /// We do not take the initiative and the peer has not confirmed us yet: wait.
    Await,
    /// Replace the old label, if any, with the new one; the flag says we take the initiative.
    Identify(Option<ConnectionName>, ConnectionName, bool),
}

/// What the hello's confirmation decides, once the new label and the initiative are known.
pub open spec fn after_confirmation(
    v: RoutingCoreView,
    h: Hello,
    old: Option<ConnectionName>,
    new: ConnectionName,
    alpha: bool,
) -> HelloDecision {
    match h.confirmed_you {
        Some(a) => if is_us_spec(v, a) {
            HelloDecision::Identify(old, new, alpha)
        } else {
            HelloDecision::RejectConfirmation
        },
        None => if alpha {
            HelloDecision::Identify(old, new, alpha)
        } else {
            HelloDecision::Await
        },
    }
}

/// What to do about hello `h` arriving on the connection at `e`.
pub open spec fn hello_decision_spec(v: RoutingCoreView, e: Endpoint, h: Hello) -> HelloDecision {
    let old = lookup_endpoint_spec(v, e);
    if old is Some && old->Some_0 is Routing {
        if h.address is Node {
            HelloDecision::AlreadyRouting
        } else {
            HelloDecision::RejectRouting(old->Some_0->Routing_0)
        }
    } else {
        match (h.address, our_address_spec(v)) {
            (Address::Node(his), Address::Node(_)) => after_confirmation(
                v,
                h,
                old,
                ConnectionName::Routing(his),
                name_less(v.id.name_spec()@, his@),
            ),
            (Address::Client(key), Address::Node(_)) => after_confirmation(
                v,
                h,
                old,
                ConnectionName::Relay(Address::Client(key)),
                true,
            ),
            (Address::Node(his), Address::Client(_)) => after_confirmation(
                v,
                h,
                old,
                ConnectionName::Bootstrap(his),
                false,
            ),
            (Address::Client(_), Address::Client(_)) => HelloDecision::RejectClient(old),
        }
    }
}

/// What a decision answers.
pub open spec fn decision_result(d: HelloDecision) -> Result<(), RoutingError> {
    match d {
        HelloDecision::RejectRouting(_) => Err(RoutingError::RejectedPublicId),
        HelloDecision::RejectConfirmation => Err(RoutingError::RejectedPublicId),
        HelloDecision::RejectClient(_) => Err(RoutingError::BadAuthority),
        _ => Ok(()),
    }
}

/// Decides what to do about hello `hello` arriving on the connection at `endpoint`.
pub fn hello_step(core: &RoutingCore, endpoint: Endpoint, hello: &Hello) -> (r: HelloDecision)
    requires
        core.wf(),
    ensures
        r == hello_decision_spec(core@, endpoint, *hello),
{
    let old = core.lookup_endpoint(&endpoint);
    if let Some(ConnectionName::Routing(known)) = old {
        return match hello.address {
            Address::Node(_) => HelloDecision::AlreadyRouting,
            _ => HelloDecision::RejectRouting(known),
        };
    }
    let ours = core.our_address();
    let (new, alpha) = match (hello.address, ours) {
        (Address::Node(his), Address::Node(_)) => {
            let our_name = core.id_name();
            (ConnectionName::Routing(his), name_before(&our_name, &his))
        },
        (Address::Client(key), Address::Node(_)) => (ConnectionName::Relay(Address::Client(key)), true),
        (Address::Node(his), Address::Client(_)) => (ConnectionName::Bootstrap(his), false),
        (Address::Client(_), Address::Client(_)) => {
            return HelloDecision::RejectClient(old);
        },
    };
    match hello.confirmed_you {
        Some(a) => if core.is_us(&a) {
            HelloDecision::Identify(old, new, alpha)
        } else {
            HelloDecision::RejectConfirmation
        },
        None => if alpha {
            HelloDecision::Identify(old, new, alpha)
        } else {
            HelloDecision::Await
        },
    }
}

/// What the node asks its owner to do.
#[derive(Debug)]
pub enum NodeAction {
    /// Pass on an event of the core.
    Core(CoreEvent),
    /// Close the connection at the endpoint.
    DropConnection(Endpoint),
    /// Say hello on the connection at the endpoint, confirming the peer's address.
    SendHello(Endpoint, Address),
    /// Ask the bootstrap node of that name, at the endpoint, for a network name.
    RequestNetworkName(NameType, Endpoint),
}

/// A node action as a value.
pub enum NodeActionView {
    Core(CoreEventView),
    DropConnection(Endpoint),
    SendHello(Endpoint, Address),
    RequestNetworkName(NameType, Endpoint),
}

impl View for NodeAction {
    type V = NodeActionView;

    open spec fn view(&self) -> NodeActionView {
        match self {
            NodeAction::Core(e) => NodeActionView::Core(e@),
            NodeAction::DropConnection(e) => NodeActionView::DropConnection(*e),
            NodeAction::SendHello(e, a) => NodeActionView::SendHello(*e, *a),
            NodeAction::RequestNetworkName(n, e) => NodeActionView::RequestNetworkName(*n, *e),
        }
    }
}

/// The views of a list of actions.
pub open spec fn actions_view(s: Seq<NodeAction>) -> Seq<NodeActionView> {
    s.map_values(|a: NodeAction| a@)
}

/// Core events passed on as actions.
pub open spec fn core_actions(s: Seq<CoreEventView>) -> Seq<NodeActionView> {
    s.map_values(|e: CoreEventView| NodeActionView::Core(e))
}

/// What follows adding the new label: when added, our confirming hello if we take the
/// initiative and a request for a network name from a bootstrap node; when refused, closing the
/// connection.
pub open spec fn identify_tail(added: bool, alpha: bool, new: ConnectionName, e: Endpoint, their: Address) -> Seq<NodeActionView> {
    if added {
        (if alpha {
            seq![NodeActionView::SendHello(e, their)]
        } else {
            Seq::empty()
        }) + (match new {
            ConnectionName::Bootstrap(name) => seq![NodeActionView::RequestNetworkName(name, e)],
            _ => Seq::empty(),
        })
    } else {
        seq![NodeActionView::DropConnection(e)]
    }
}

/// The old label, if any, is dropped from core `old`, giving core `mid` and events `evs`.
pub open spec fn dropped_to(old: RoutingCoreView, o: Option<ConnectionName>, mid: RoutingCoreView, evs: Seq<CoreEventView>) -> bool {
    match o {
        None => mid == old && evs.len() == 0,
        Some(l) => exists|p: Option<crate::peer::Peer>| #[trigger] drop_peer_spec(old, l, mid, p, evs),
    }
}

/// The core's change and the actions for a hello, given the decision.
pub open spec fn hello_post(
    old: RoutingCoreView,
    e: Endpoint,
    h: Hello,
    d: HelloDecision,
    new: RoutingCoreView,
    actions: Seq<NodeActionView>,
) -> bool {
    match d {
        HelloDecision::AlreadyRouting => new == old && actions.len() == 0,
        HelloDecision::Await => new == old && actions.len() == 0,
        HelloDecision::RejectConfirmation => new == old && actions == seq![NodeActionView::DropConnection(e)],
        HelloDecision::RejectRouting(known) => exists|p: Option<crate::peer::Peer>, evs: Seq<CoreEventView>|
            drop_peer_spec(old, ConnectionName::Routing(known), new, p, evs) && actions == core_actions(evs).push(
                NodeActionView::DropConnection(e),
            ),
        HelloDecision::RejectClient(o) => match o {
            None => new == old && actions == seq![NodeActionView::DropConnection(e)],
            Some(label) => exists|p: Option<crate::peer::Peer>, evs: Seq<CoreEventView>|
                drop_peer_spec(old, label, new, p, evs) && actions == core_actions(evs).push(
                    NodeActionView::DropConnection(e),
                ),
        },
        HelloDecision::Identify(o, label, alpha) => exists|
            mid: RoutingCoreView,
            evs1: Seq<CoreEventView>,
            added: bool,
            evs2: Seq<CoreEventView>,
        |
            #![trigger dropped_to(old, o, mid, evs1), add_peer_spec(mid, label, e, Some(h.public_id), new, added, evs2)]
            {
                &&& dropped_to(old, o, mid, evs1)
                &&& add_peer_spec(mid, label, e, Some(h.public_id), new, added, evs2)
                &&& actions == core_actions(evs1) + core_actions(evs2) + identify_tail(
                    added,
                    alpha,
                    label,
                    e,
                    h.address,
                )
            },
    }
}

/// Appends the core's events to the actions.
fn push_core_events(actions: &mut Vec<NodeAction>, events: Vec<CoreEvent>)
    ensures
        actions_view(final(actions)@) == actions_view(old(actions)@) + core_actions(events_of(events@)),
{
    let ghost orig = events@;
    let ghost start = actions_view(actions@);
    let mut events = events;
    let mut i: usize = 0;
    let n = events.len();
    while events.len() > 0
        invariant
            n == orig.len(),
            i + events@.len() == n,
            events@ == orig.skip(i as int),
            actions_view(actions@) == start + core_actions(events_of(orig.take(i as int))),
        decreases events@.len(),
    {
        let e = events.remove(0);
        proof {
            assert(e == orig[i as int]);
        }
        let ghost before = actions@;
        let ghost a = NodeAction::Core(e);
        actions.push(NodeAction::Core(e));
        proof {
            assert(actions@ == before.push(a));
            assert(actions_view(actions@) =~= actions_view(before).push(a@));
            assert(a@ == NodeActionView::Core(orig[i as int]@));
            assert(orig.take(i + 1) =~= orig.take(i as int).push(orig[i as int]));
            assert(events_of(orig.take(i + 1)) =~= events_of(orig.take(i as int)).push(orig[i as int]@));
            assert(actions_view(actions@) =~= start + core_actions(events_of(orig.take(i + 1))));
            assert(events@ =~= orig.skip(i + 1));
        }
        i = i + 1;
    }
    proof {
        assert(orig.take(n as int) =~= orig);
    }
}

/// The views of core events.
pub open spec fn events_of(s: Seq<CoreEvent>) -> Seq<CoreEventView> {
    crate::routing_core::events_view(s)
}

/// Handles a hello on the connection at `endpoint`: decides as `hello_step` does, changes the
/// core accordingly and returns the answer and the actions for the owner.
pub fn handle_hello(core: &mut RoutingCore, endpoint: Endpoint, hello: &Hello) -> (r: (Result<(), RoutingError>, Vec<NodeAction>))
    requires
        old(core).wf(),
    ensures
        final(core).wf(),
        r.0 == decision_result(hello_decision_spec(old(core)@, endpoint, *hello)),
        hello_post(
            old(core)@,
            endpoint,
            *hello,
            hello_decision_spec(old(core)@, endpoint, *hello),
            final(core)@,
            actions_view(r.1@),
        ),
{
    let decision = hello_step(core, endpoint, hello);
    let mut actions: Vec<NodeAction> = Vec::new();
    match decision {
        HelloDecision::AlreadyRouting => {
            assert(actions_view(actions@) =~= Seq::<NodeActionView>::empty());
            assert(hello_post(old(core)@, endpoint, *hello, decision, core@, actions_view(actions@)));
            (Ok(()), actions)
        },
        HelloDecision::Await => {
            assert(actions_view(actions@) =~= Seq::<NodeActionView>::empty());
            assert(hello_post(old(core)@, endpoint, *hello, decision, core@, actions_view(actions@)));
            (Ok(()), actions)
        },
        HelloDecision::RejectConfirmation => {
            actions.push(NodeAction::DropConnection(endpoint));
            assert(actions_view(actions@) =~= seq![NodeActionView::DropConnection(endpoint)]);
            assert(hello_post(old(core)@, endpoint, *hello, decision, core@, actions_view(actions@)));
            (Err(RoutingError::RejectedPublicId), actions)
        },
        HelloDecision::RejectRouting(known) => {
            let (_, events) = core.drop_peer(&ConnectionName::Routing(known));
            push_core_events(&mut actions, events);
            actions.push(NodeAction::DropConnection(endpoint));
            proof {
                assert(actions_view(actions@) =~= core_actions(events_of(events@)).push(
                    NodeActionView::DropConnection(endpoint),
                ));
            }
            assert(hello_post(old(core)@, endpoint, *hello, decision, core@, actions_view(actions@)));
            (Err(RoutingError::RejectedPublicId), actions)
        },
        HelloDecision::RejectClient(o) => {
            let ghost mut evs_g = Seq::<CoreEventView>::empty();
            let ghost mut p_g: Option<crate::peer::Peer> = None;
            match o {
                Some(label) => {
                    let (pd, events) = core.drop_peer(&label);
                    proof {
                        evs_g = events_of(events@);
                        p_g = pd;
                    }
                    push_core_events(&mut actions, events);
                },
                None => {},
            }
            let ghost before = actions_view(actions@);
            actions.push(NodeAction::DropConnection(endpoint));
            proof {
                assert(actions_view(actions@) =~= before.push(NodeActionView::DropConnection(endpoint)));
                if o is None {
                    assert(before =~= Seq::<NodeActionView>::empty());
                    assert(actions_view(actions@) =~= seq![NodeActionView::DropConnection(endpoint)]);
                } else {
                    assert(before =~= core_actions(evs_g));
                    assert(drop_peer_spec(old(core)@, o->Some_0, core@, p_g, evs_g));
                }
            }
            assert(hello_post(old(core)@, endpoint, *hello, decision, core@, actions_view(actions@)));
            (Err(RoutingError::BadAuthority), actions)
        },
        HelloDecision::Identify(o, label, alpha) => {
            let ghost mut evs1 = Seq::<CoreEventView>::empty();
            let ghost mut p_g: Option<crate::peer::Peer> = None;
            match o {
                Some(l) => {
                    let (pd, events) = core.drop_peer(&l);
                    proof {
                        evs1 = events_of(events@);
                        p_g = pd;
                    }
                    push_core_events(&mut actions, events);
                },
                None => {},
            }
            let ghost mid = core@;
            let ghost first = actions_view(actions@);
            proof {
                if o is None {
                    assert(first =~= core_actions(evs1));
                } else {
                    assert(first =~= Seq::<NodeActionView>::empty() + core_actions(evs1));
                    assert(drop_peer_spec(old(core)@, o->Some_0, mid, p_g, evs1));
                }
                assert(dropped_to(old(core)@, o, mid, evs1));
            }
            let (added, events) = core.add_peer(label, endpoint, Some(hello.public_id));
            let ghost evs2 = events_of(events@);
            push_core_events(&mut actions, events);
            let ghost second = actions_view(actions@);
            if added {
                if alpha {
                    actions.push(NodeAction::SendHello(endpoint, hello.address));
                }
                match label {
                    ConnectionName::Bootstrap(name) => {
                        actions.push(NodeAction::RequestNetworkName(name, endpoint));
                    },
                    _ => {},
                }
            } else {
                actions.push(NodeAction::DropConnection(endpoint));
            }
            proof {
                assert(actions_view(actions@) =~= second + identify_tail(added, alpha, label, endpoint, hello.address));
                assert(first =~= core_actions(evs1));
                assert(actions_view(actions@) =~= core_actions(evs1) + core_actions(evs2) + identify_tail(
                    added,
                    alpha,
                    label,
                    endpoint,
                    hello.address,
                ));
                assert(add_peer_spec(mid, label, endpoint, Some(hello.public_id), core@, added, evs2));
            }
            assert(hello_post(old(core)@, endpoint, *hello, decision, core@, actions_view(actions@)));
            (Ok(()), actions)
        },
    }
}

} // verus!
