use routing::crypto::{PublicEncryptKey, PublicSignKey};
use routing::direct_messages::Hello;
use routing::error::RoutingError;
use routing::mock_network::Endpoint;
use routing::name_type::NameType;
use routing::public_id::PublicId;
use routing::routing_core::{ConnectionName, CoreEvent, RoutingCore};
use routing::routing_node::{handle_hello, hello_step, name_before, HelloDecision, NodeAction};
use routing::types::Address;

fn id(i: u8) -> PublicId {
    PublicId::new(PublicEncryptKey([i; 32]), PublicSignKey([i; 32]))
}

fn node_core(name: NameType) -> RoutingCore {
    let (mut core, _) = RoutingCore::new(id(1));
    assert!(core.assign_network_name(&name));
    core
}

#[test]
fn names_are_ordered_by_their_bytes() {
    assert!(name_before(&NameType([1; 64]), &NameType([2; 64])));
    assert!(!name_before(&NameType([2; 64]), &NameType([1; 64])));
    assert!(!name_before(&NameType([2; 64]), &NameType([2; 64])));
}

#[test]
fn client_waits_for_confirmation_from_a_node() {
    let (mut core, _) = RoutingCore::new(id(1));
    let their = NameType([9; 64]);
    let hello = Hello { address: Address::Node(their), public_id: id(2), confirmed_you: None };
    assert_eq!(hello_step(&core, Endpoint(5), &hello), HelloDecision::Await);
    let (r, actions) = handle_hello(&mut core, Endpoint(5), &hello);
    assert!(r.is_ok() && actions.is_empty());

    let ours = core.our_address();
    let confirmed = Hello { address: Address::Node(their), public_id: id(2), confirmed_you: Some(ours) };
    assert_eq!(
        hello_step(&core, Endpoint(5), &confirmed),
        HelloDecision::Identify(None, ConnectionName::Bootstrap(their), false)
    );
    let (r, actions) = handle_hello(&mut core, Endpoint(5), &confirmed);
    assert!(r.is_ok());
    assert_eq!(actions.len(), 2);
    assert!(matches!(actions[0], NodeAction::Core(CoreEvent::Bootstrapped)));
    assert!(matches!(actions[1], NodeAction::RequestNetworkName(n, Endpoint(5)) if n == their));
    assert_eq!(core.lookup_endpoint(&Endpoint(5)), Some(ConnectionName::Bootstrap(their)));
}

#[test]
fn node_takes_the_initiative_with_a_client() {
    let mut core = node_core(NameType([1; 64]));
    let key = PublicSignKey([4; 32]);
    let hello = Hello { address: Address::Client(key), public_id: id(4), confirmed_you: None };
    let (r, actions) = handle_hello(&mut core, Endpoint(6), &hello);
    assert!(r.is_ok());
    assert_eq!(actions.len(), 1);
    assert!(matches!(actions[0], NodeAction::SendHello(Endpoint(6), Address::Client(k)) if k == key));
    assert_eq!(
        core.lookup_endpoint(&Endpoint(6)),
        Some(ConnectionName::Relay(Address::Client(key)))
    );
}

#[test]
fn two_clients_do_not_talk() {
    let (mut core, _) = RoutingCore::new(id(1));
    let hello = Hello { address: Address::Client(PublicSignKey([3; 32])), public_id: id(3), confirmed_you: None };
    let (r, actions) = handle_hello(&mut core, Endpoint(7), &hello);
    assert_eq!(r, Err(RoutingError::BadAuthority));
    assert_eq!(actions.len(), 1);
    assert!(matches!(actions[0], NodeAction::DropConnection(Endpoint(7))));
}

#[test]
fn wrong_confirmation_is_refused() {
    let mut core = node_core(NameType([1; 64]));
    let hello = Hello {
        address: Address::Client(PublicSignKey([3; 32])),
        public_id: id(3),
        confirmed_you: Some(Address::Node(NameType([8; 64]))),
    };
    let (r, actions) = handle_hello(&mut core, Endpoint(8), &hello);
    assert_eq!(r, Err(RoutingError::RejectedPublicId));
    assert!(matches!(actions[0], NodeAction::DropConnection(Endpoint(8))));
    assert_eq!(core.lookup_endpoint(&Endpoint(8)), None);
}

#[test]
fn node_with_the_smaller_name_takes_the_initiative() {
    let peer = id(3);
    let small = node_core(NameType([0; 64]));
    let big = node_core(NameType([255; 64]));
    let hello = Hello { address: Address::Node(peer.name()), public_id: peer, confirmed_you: None };
    let alpha_small = name_before(&NameType([0; 64]), &peer.name());
    let alpha_big = name_before(&NameType([255; 64]), &peer.name());
    assert!(alpha_small && !alpha_big);
    assert_eq!(
        hello_step(&small, Endpoint(9), &hello),
        HelloDecision::Identify(None, ConnectionName::Routing(peer.name()), true)
    );
    assert_eq!(hello_step(&big, Endpoint(9), &hello), HelloDecision::Await);
}

#[test]
fn known_routing_contact() {
    let mut core = node_core(NameType([0; 64]));
    let peer = id(3);
    let hello = Hello { address: Address::Node(peer.name()), public_id: peer, confirmed_you: None };
    let (r, actions) = handle_hello(&mut core, Endpoint(9), &hello);
    assert!(r.is_ok());
    assert!(matches!(actions[0], NodeAction::Core(CoreEvent::Connected)));
    assert!(matches!(actions.last().unwrap(), NodeAction::SendHello(Endpoint(9), _)));
    assert_eq!(core.lookup_endpoint(&Endpoint(9)), Some(ConnectionName::Routing(peer.name())));

    assert_eq!(hello_step(&core, Endpoint(9), &hello), HelloDecision::AlreadyRouting);

    let as_client = Hello { address: Address::Client(PublicSignKey([3; 32])), public_id: peer, confirmed_you: None };
    let (r, actions) = handle_hello(&mut core, Endpoint(9), &as_client);
    assert_eq!(r, Err(RoutingError::RejectedPublicId));
    assert!(matches!(actions.last().unwrap(), NodeAction::DropConnection(Endpoint(9))));
    assert_eq!(core.lookup_endpoint(&Endpoint(9)), None);
}
