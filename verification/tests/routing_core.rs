use routing::crypto::{PublicEncryptKey, PublicSignKey};
use routing::mock_network::Endpoint;
use routing::name_type::NameType;
use routing::public_id::PublicId;
use routing::routing_core::{ConnectionName, CoreEvent, RoutingCore};
use routing::types::Address;

fn id(i: u8) -> PublicId {
    PublicId::new(PublicEncryptKey([i; 32]), PublicSignKey([i; 32]))
}

fn is_churn(e: &CoreEvent) -> bool {
    matches!(e, CoreEvent::Churn(_, _))
}

#[test]
fn new_core_is_a_client() {
    let me = id(1);
    let (core, events) = RoutingCore::new(me);
    assert!(events.is_empty());
    assert!(!core.is_node());
    assert_eq!(core.our_address(), Address::Client(me.signing_public_key()));
    assert!(core.is_us(&Address::Client(me.signing_public_key())));
    assert!(!core.is_us(&Address::Client(PublicSignKey([9; 32]))));

    let mut relocated = id(2);
    relocated.assign_relocated_name(NameType([7; 64]));
    let (_, events) = RoutingCore::new(relocated);
    assert_eq!(events.len(), 1);
    assert!(matches!(events[0], CoreEvent::Terminate));
}

#[test]
fn client_bootstraps_and_disconnects() {
    let (mut core, _) = RoutingCore::new(id(1));
    let boot = ConnectionName::Bootstrap(NameType([5; 64]));
    assert!(core.check_node(&boot));
    let (added, events) = core.add_peer(boot, Endpoint(10), None);
    assert!(added);
    assert_eq!(events.len(), 1);
    assert!(matches!(events[0], CoreEvent::Bootstrapped));
    assert!(!core.check_node(&boot));

    let second = ConnectionName::Bootstrap(NameType([6; 64]));
    let (added, events) = core.add_peer(second, Endpoint(11), None);
    assert!(added && events.is_empty());

    let (dropped, events) = core.drop_peer(&boot);
    assert_eq!(*dropped.unwrap().endpoint(), Endpoint(10));
    assert!(events.is_empty());
    let (_, events) = core.drop_peer(&second);
    assert_eq!(events.len(), 2);
    assert!(matches!(events[0], CoreEvent::Disconnected));
    assert!(matches!(events[1], CoreEvent::Terminate));
    assert_eq!(core.lookup_name(&NameType([6; 64])), None);
}

#[test]
fn node_adds_and_drops_routing_contacts() {
    let (mut core, _) = RoutingCore::new(id(1));
    let our_name = NameType([1; 64]);
    let peer = id(3);
    let routing = ConnectionName::Routing(peer.name());

    // Without a routing table nothing is added.
    assert!(!core.add_peer(routing, Endpoint(20), Some(peer)).0);
    assert!(!core.check_node(&routing));

    assert!(core.assign_network_name(&our_name));
    assert!(!core.assign_network_name(&our_name));
    assert!(core.is_node());
    assert_eq!(core.our_address(), Address::Node(our_name));
    assert!(core.is_us(&Address::Node(our_name)));
    assert!(core.check_node(&routing));

    // The identity must carry the claimed name.
    assert!(!core.add_peer(routing, Endpoint(20), None).0);
    assert!(!core.add_peer(routing, Endpoint(20), Some(id(4))).0);

    let (added, events) = core.add_peer(routing, Endpoint(20), Some(peer));
    assert!(added);
    assert_eq!(events.len(), 2);
    assert!(matches!(events[0], CoreEvent::Connected));
    match &events[1] {
        CoreEvent::Churn(names, conns) => {
            assert_eq!(names, &vec![our_name, peer.name()]);
            assert_eq!(conns.len(), 1);
            assert_eq!(conns[0].0, 20);
        }
        _ => panic!("expected churn"),
    }
    assert_eq!(core.lookup_name(&peer.name()), Some(routing));
    assert!(core.get_relay_peer(&routing).is_none());

    // A second contact: no longer the first, still in the close group.
    let other = id(5);
    let (added, events) = core.add_peer(ConnectionName::Routing(other.name()), Endpoint(21), Some(other));
    assert!(added);
    assert_eq!(events.len(), 1);
    assert!(is_churn(&events[0]));

    let (dropped, events) = core.drop_peer(&ConnectionName::Routing(other.name()));
    assert!(dropped.is_none());
    assert_eq!(events.len(), 1);
    assert!(is_churn(&events[0]));

    let (_, events) = core.drop_peer(&routing);
    assert_eq!(events.len(), 3);
    assert!(matches!(events[0], CoreEvent::Disconnected));
    assert!(matches!(events[1], CoreEvent::Terminate));
    match &events[2] {
        CoreEvent::Churn(names, conns) => {
            assert_eq!(names, &vec![our_name]);
            assert!(conns.is_empty());
        }
        _ => panic!("expected churn"),
    }
}

#[test]
fn relay_peers_need_room() {
    let (mut core, _) = RoutingCore::new(id(1));
    let client = ConnectionName::Relay(Address::Client(PublicSignKey([8; 32])));
    assert!(core.check_node(&client));
    let (added, events) = core.add_peer(client, Endpoint(30), None);
    assert!(added && events.is_empty());
    assert_eq!(*core.get_relay_peer(&client).unwrap().endpoint(), Endpoint(30));
    assert!(core.check_node(&ConnectionName::Unidentified(Endpoint(31), false)));
}
