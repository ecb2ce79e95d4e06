use routing::crypto::{PublicEncryptKey, PublicSignKey};
use routing::mock_network::Endpoint;
use routing::name_type::NameType;
use routing::public_id::PublicId;
use routing::relay::{RelayMap, MAX_RELAY};
use routing::routing_core::ConnectionName;
use routing::types::Address;

fn client_key(i: usize) -> PublicSignKey {
    let mut bytes = [0u8; 32];
    bytes[0] = (i % 256) as u8;
    bytes[1] = (i / 256) as u8;
    PublicSignKey(bytes)
}

fn name(i: u8) -> NameType {
    NameType([i; 64])
}

#[test]
fn add_until_full() {
    let mut relay_map = RelayMap::new();
    assert!(!relay_map.is_full());
    for i in 0..MAX_RELAY {
        let identity = ConnectionName::Relay(Address::Client(client_key(i)));
        assert!(relay_map.add_peer(identity, Endpoint(i), None));
    }
    assert!(relay_map.is_full());
    let extra = ConnectionName::Relay(Address::Client(client_key(MAX_RELAY)));
    assert!(!relay_map.add_peer(extra, Endpoint(MAX_RELAY), None));
    assert!(!relay_map.contains_identity(&extra));
    assert!(!relay_map.contains_endpoint(&Endpoint(MAX_RELAY)));
}

#[test]
fn routing_nodes_are_refused() {
    let mut relay_map = RelayMap::new();
    assert!(!relay_map.add_peer(ConnectionName::Routing(name(1)), Endpoint(1), None));
    assert!(!relay_map.contains_endpoint(&Endpoint(1)));
}

#[test]
fn drop_by_endpoint() {
    let mut relay_map = RelayMap::new();
    let key = client_key(7);
    let id = PublicId::new(PublicEncryptKey([1u8; 32]), key);
    let identity = ConnectionName::Relay(Address::Client(key));
    assert!(relay_map.add_peer(identity, Endpoint(3), Some(id)));
    assert!(relay_map.contains_identity(&identity));
    assert!(relay_map.contains_endpoint(&Endpoint(3)));
    let found = relay_map.lookup_endpoint(&Endpoint(3)).unwrap();
    assert_eq!(*found.identity(), identity);
    assert_eq!(*found.public_id(), Some(id));
    let dropped = relay_map.drop_endpoint(&Endpoint(3)).unwrap();
    assert_eq!(*dropped.endpoint(), Endpoint(3));
    assert!(!relay_map.contains_identity(&identity));
    assert!(!relay_map.contains_endpoint(&Endpoint(3)));
    assert!(relay_map.drop_endpoint(&Endpoint(3)).is_none());
}

#[test]
fn drop_by_name_frees_the_endpoint() {
    let mut relay_map = RelayMap::new();
    let identity = ConnectionName::Bootstrap(name(2));
    assert!(relay_map.add_peer(identity, Endpoint(9), None));
    let dropped = relay_map.drop_connection_name(&identity).unwrap();
    assert_eq!(*dropped.identity(), identity);
    assert!(!relay_map.contains_endpoint(&Endpoint(9)));
    assert!(relay_map.drop_connection_name(&identity).is_none());
    assert!(relay_map.add_peer(ConnectionName::Bootstrap(name(3)), Endpoint(9), None));
}

#[test]
fn add_conflicting_endpoints() {
    let mut relay_map = RelayMap::new();
    let first = ConnectionName::Relay(Address::Client(client_key(1)));
    let second = ConnectionName::Relay(Address::Client(client_key(2)));
    assert!(relay_map.add_peer(first, Endpoint(5), None));
    assert!(!relay_map.add_peer(second, Endpoint(5), None));
    assert!(!relay_map.contains_identity(&second));
    assert!(!relay_map.add_peer(first, Endpoint(6), None));
    assert!(!relay_map.contains_endpoint(&Endpoint(6)));
}

#[test]
fn lookup_name_prefers_relay_over_bootstrap() {
    let mut relay_map = RelayMap::new();
    assert_eq!(relay_map.lookup_name(&name(4)), None);
    assert!(relay_map.add_peer(ConnectionName::Bootstrap(name(4)), Endpoint(1), None));
    assert_eq!(
        relay_map.lookup_name(&name(4)),
        Some(ConnectionName::Bootstrap(name(4)))
    );
    assert!(relay_map.add_peer(ConnectionName::Relay(Address::Node(name(4))), Endpoint(2), None));
    assert_eq!(
        relay_map.lookup_name(&name(4)),
        Some(ConnectionName::Relay(Address::Node(name(4))))
    );
    assert!(relay_map
        .lookup_connection_name(&ConnectionName::Bootstrap(name(5)))
        .is_none());
}

#[test]
fn bootstrap_connections_are_listed() {
    let mut relay_map = RelayMap::new();
    assert!(!relay_map.has_bootstrap_connections());
    assert!(relay_map.bootstrap_connections().is_empty());
    assert!(relay_map.add_peer(ConnectionName::Relay(Address::Client(client_key(1))), Endpoint(1), None));
    assert!(!relay_map.has_bootstrap_connections());
    assert!(relay_map.add_peer(ConnectionName::Bootstrap(name(1)), Endpoint(2), None));
    assert!(relay_map.add_peer(ConnectionName::Unidentified(Endpoint(3), true), Endpoint(3), None));
    assert!(relay_map.add_peer(ConnectionName::Bootstrap(name(2)), Endpoint(4), None));
    assert!(relay_map.has_bootstrap_connections());
    let peers = relay_map.bootstrap_connections();
    assert_eq!(peers.len(), 2);
    assert_eq!(*peers[0].identity(), ConnectionName::Bootstrap(name(1)));
    assert_eq!(*peers[1].endpoint(), Endpoint(4));
}
