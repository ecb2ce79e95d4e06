use routing::crypto::{PublicEncryptKey, PublicSignKey};
use routing::name_type::NameType;
use routing::peer_manager::{
    ConnectionInfoPreparedResult, ConnectionInfoReceivedResult, Error, PeerId, PeerManager,
    PeerState, PrivConnectionInfo, PubConnectionInfo,
};
use routing::direct_messages::{Churn, Content, DirectMessage};
use routing::public_id::PublicId;

#[derive(Clone, Copy, Debug, PartialEq, Eq)]
enum Authority {
    ManagedNode(NameType),
}

fn node_auth(byte: u8) -> Authority {
    Authority::ManagedNode(NameType([byte; 64]))
}

fn new_public_id() -> PublicId {
    let (sign_pk, _) = sodiumoxide::crypto::sign::gen_keypair();
    let (box_pk, _) = sodiumoxide::crypto::box_::gen_keypair();
    PublicId::new(PublicEncryptKey(box_pk.0), PublicSignKey(sign_pk.0))
}

#[test]
pub fn connection_info_prepare_receive() {
    let orig_pub_id = new_public_id();
    let mut peer_mgr = PeerManager::new(orig_pub_id);

    let our_connection_info = PrivConnectionInfo(PeerId(0), 0);
    let their_connection_info = PubConnectionInfo(PeerId(1), 1);
    // We decide to connect to the peer with `pub_id`:
    let token = peer_mgr.get_connection_token(node_auth(0), node_auth(1), orig_pub_id).unwrap();
    // Crust has finished preparing the connection info.
    match peer_mgr.connection_info_prepared(token, our_connection_info.clone()) {
        Ok(ConnectionInfoPreparedResult { pub_id, src, dst, infos: None }) => {
            assert_eq!(orig_pub_id, pub_id);
            assert_eq!(node_auth(0), src);
            assert_eq!(node_auth(1), dst);
        }
        result => panic!("Unexpected result: {:?}", result),
    }
    // Finally, we received the peer's connection info.
    match peer_mgr.connection_info_received(
        node_auth(0),
        node_auth(1),
        orig_pub_id,
        their_connection_info.clone(),
    ) {
        Ok(ConnectionInfoReceivedResult::Ready(our_info, their_info)) => {
            assert_eq!(our_connection_info, our_info);
            assert_eq!(their_connection_info, their_info);
        }
        result => panic!("Unexpected result: {:?}", result),
    }
    // Since both connection infos are present, the state should now be `CrustConnecting`.
    match peer_mgr.get_state(&orig_pub_id) {
        Some(&PeerState::CrustConnecting) => (),
        state => panic!("Unexpected state: {:?}", state),
    }
}

#[test]
pub fn connection_info_receive_prepare() {
    let orig_pub_id = new_public_id();
    let mut peer_mgr = PeerManager::new(orig_pub_id);
    let our_connection_info = PrivConnectionInfo(PeerId(0), 0);
    let their_connection_info = PubConnectionInfo(PeerId(1), 1);
    // We received a connection info from the peer and get a token to prepare ours.
    let token = match peer_mgr.connection_info_received(
        node_auth(0),
        node_auth(1),
        orig_pub_id,
        their_connection_info.clone(),
    ) {
        Ok(ConnectionInfoReceivedResult::Prepare(token)) => token,
        result => panic!("Unexpected result: {:?}", result),
    };
    // Crust has finished preparing the connection info.
    match peer_mgr.connection_info_prepared(token, our_connection_info.clone()) {
        Ok(ConnectionInfoPreparedResult { pub_id, src, dst, infos: Some((our_info, their_info)) }) => {
            assert_eq!(orig_pub_id, pub_id);
            assert_eq!(node_auth(0), src);
            assert_eq!(node_auth(1), dst);
            assert_eq!(our_connection_info, our_info);
            assert_eq!(their_connection_info, their_info);
        }
        result => panic!("Unexpected result: {:?}", result),
    }
    // Since both connection infos are present, the state should now be `CrustConnecting`.
    match peer_mgr.get_state(&orig_pub_id) {
        Some(&PeerState::CrustConnecting) => (),
        state => panic!("Unexpected state: {:?}", state),
    }
}

#[test]
fn unknown_token_is_refused_and_token_is_single_use() {
    let id = new_public_id();
    let mut peer_mgr: PeerManager<Authority> = PeerManager::new(new_public_id());
    match peer_mgr.connection_info_prepared(7, PrivConnectionInfo(PeerId(0), 0)) {
        Err(Error::PeerNotFound) => (),
        result => panic!("Unexpected result: {:?}", result),
    }
    let token = peer_mgr.get_connection_token(node_auth(0), node_auth(1), id).unwrap();
    // While preparing, no second token is handed out.
    assert!(peer_mgr.get_connection_token(node_auth(0), node_auth(1), id).is_none());
    assert!(peer_mgr.connection_info_prepared(token, PrivConnectionInfo(PeerId(0), 0)).is_ok());
    match peer_mgr.connection_info_prepared(token, PrivConnectionInfo(PeerId(0), 0)) {
        Err(Error::PeerNotFound) => (),
        result => panic!("Unexpected result: {:?}", result),
    }
    assert_eq!(Error::PeerNotFound.description(), "Peer not found");
    assert_eq!(Error::UnexpectedState.description(), "Peer state does not allow operation");
}

#[test]
fn clients_and_proxy_are_recognised() {
    let client_id = new_public_id();
    let proxy_id = new_public_id();
    let mut peer_mgr: PeerManager<Authority> = PeerManager::new(new_public_id());
    peer_mgr.insert_client(PeerId(5), &client_id, true);
    peer_mgr.insert_client(PeerId(6), &new_public_id(), false);
    assert!(peer_mgr.set_proxy(PeerId(9), proxy_id));
    assert!(!peer_mgr.set_proxy(PeerId(10), new_public_id()));
    assert!(peer_mgr.set_proxy(PeerId(9), proxy_id));
    assert_eq!(peer_mgr.client_num(), 1);
    assert_eq!(peer_mgr.joining_nodes_num(), 1);
    assert_eq!(peer_mgr.get_proxy_or_client_peer_id(&client_id), Some(PeerId(5)));
    assert_eq!(peer_mgr.get_proxy_or_client_peer_id(&proxy_id), Some(PeerId(9)));
    assert_eq!(peer_mgr.get_proxy_or_client_peer_id(&new_public_id()), None);
    assert_eq!(peer_mgr.get_proxy_public_id(&PeerId(9)), Some(&proxy_id));
    assert_eq!(peer_mgr.get_proxy_peer_id(&proxy_id.name()), Some(&PeerId(9)));
    match peer_mgr.connection_info_received(
        node_auth(0),
        node_auth(1),
        client_id,
        PubConnectionInfo(PeerId(5), 5),
    ) {
        Ok(ConnectionInfoReceivedResult::IsClient) => (),
        result => panic!("Unexpected result: {:?}", result),
    }
    match peer_mgr.connection_info_received(
        node_auth(0),
        node_auth(1),
        proxy_id,
        PubConnectionInfo(PeerId(9), 9),
    ) {
        Ok(ConnectionInfoReceivedResult::IsProxy) => (),
        result => panic!("Unexpected result: {:?}", result),
    }
    // Nobody has timed out yet.
    assert!(peer_mgr.remove_stale_joining_nodes().is_empty());
    assert!(peer_mgr.remove_client(&PeerId(5)).is_some());
    assert_eq!(peer_mgr.client_num(), 0);
}

#[test]
fn routing_peers_and_tunnels() {
    let a = new_public_id();
    let b = new_public_id();
    let mut peer_mgr: PeerManager<Authority> = PeerManager::new(new_public_id());
    // A peer we could not connect to directly is searched a tunnel for.
    let _ = peer_mgr.set_searching_for_tunnel(PeerId(1), &a);
    assert_eq!(peer_mgr.peers_needing_tunnel(), vec![PeerId(1)]);
    assert!(peer_mgr.tunnelling_to(PeerId(1)));
    assert!(peer_mgr.peers_needing_tunnel().is_empty());
    // It enters the routing table as tunnelled.
    assert!(peer_mgr.add_to_routing_table(a, PeerId(1)).is_some());
    match peer_mgr.get_state(&a) {
        Some(&PeerState::Routing(true)) => (),
        state => panic!("Unexpected state: {:?}", state),
    }
    assert_eq!(peer_mgr.get_routing_peer(&PeerId(1)), Some(&a));
    assert!(!peer_mgr.allow_connect(&a.name()));
    // A second, direct peer.
    assert!(!peer_mgr.connected_to(PeerId(2)));
    assert!(peer_mgr.add_to_routing_table(b, PeerId(2)).is_some());
    assert!(!peer_mgr.can_tunnel_for(&PeerId(1), &PeerId(2)));
    assert_eq!(peer_mgr.get_peer_ids(&[b.name()]), vec![PeerId(2)]);
    let ids = peer_mgr.get_pub_ids(&[a.name(), NameType([3; 64]), b.name()]);
    assert_eq!(ids, vec![a, b]);
    // Removing a peer forgets it and takes it out of the routing table.
    match peer_mgr.remove_peer(&PeerId(2)) {
        Some((name, _)) => assert_eq!(name, b.name()),
        None => panic!("Peer was in the routing table"),
    }
    assert!(peer_mgr.get_routing_peer(&PeerId(2)).is_none());
    assert!(peer_mgr.remove_peer(&PeerId(2)).is_none());
    // Resetting the routing table forgets the peers that were in it.
    peer_mgr.reset_routing_table(new_public_id());
    assert!(peer_mgr.get_routing_peer(&PeerId(1)).is_none());
    peer_mgr.clear_caches();
}

#[test]
fn remove_expired_keeps_fresh_entries() {
    let mut peer_mgr: PeerManager<Authority> = PeerManager::new(new_public_id());
    let connecting = new_public_id();
    let token = peer_mgr.get_connection_token(node_auth(0), node_auth(1), connecting).unwrap();
    // Nothing is old enough to time out yet.
    peer_mgr.remove_expired();
    assert!(peer_mgr.get_state(&connecting).is_some());
    assert!(peer_mgr.connection_info_prepared(token, PrivConnectionInfo(PeerId(0), 0)).is_ok());
}

#[test]
fn fresh_identity_signs_what_it_verifies() {
    let full_id = routing::id::FullId::new();
    let content = Content::Churn(Churn { close_group: vec![NameType([2; 64])] });
    let message = DirectMessage::new(content, full_id.signing_private_key());
    assert!(message.verify_signature(full_id.public_id().signing_public_key()));
}
