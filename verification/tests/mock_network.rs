use routing::crypto::{PublicEncryptKey, PublicSignKey};
use routing::mock_network::{
    lost_connection, socket_addr_parts, CrustUser, Endpoint, MockNetwork, Output, Packet,
    PacketRoute, ServiceEvent, ServiceState,
};
use routing::public_id::PublicId;

fn random_public_id() -> PublicId {
    let (sign_pk, _) = sodiumoxide::crypto::sign::gen_keypair();
    let (box_pk, _) = sodiumoxide::crypto::box_::gen_keypair();
    PublicId::new(PublicEncryptKey(box_pk.0), PublicSignKey(sign_pk.0))
}

#[test]
fn packets_on_one_route_come_in_order() {
    let mut net = MockNetwork::new(8);
    assert!(net.pop_packet().is_none());
    net.send(Endpoint(1), Endpoint(2), Packet::Message(vec![1]));
    net.send(Endpoint(1), Endpoint(2), Packet::Message(vec![2]));
    assert!(net.reset_message_sent());
    assert!(!net.reset_message_sent());
    assert_eq!(net.pop_packet(), Some((Endpoint(1), Endpoint(2), Packet::Message(vec![1]))));
    assert_eq!(net.pop_packet(), Some((Endpoint(1), Endpoint(2), Packet::Message(vec![2]))));
    assert!(net.pop_packet().is_none());
}

#[test]
fn delayed_routes_wait_for_the_others() {
    let mut net = MockNetwork::new(8);
    net.delay_connection(Endpoint(1), Endpoint(2));
    net.send(Endpoint(1), Endpoint(2), Packet::Message(vec![1]));
    net.send(Endpoint(3), Endpoint(4), Packet::Message(vec![2]));
    assert_eq!(net.pop_packet(), Some((Endpoint(3), Endpoint(4), Packet::Message(vec![2]))));
    assert_eq!(net.pop_packet(), Some((Endpoint(1), Endpoint(2), Packet::Message(vec![1]))));
    net.send(Endpoint(1), Endpoint(2), Packet::Disconnect);
    net.drop_pending(Endpoint(1), Endpoint(2));
    assert!(net.pop_packet().is_none());
}

#[test]
fn blocked_and_unaddressed_requests_bounce() {
    let mut net = MockNetwork::new(8);
    assert_eq!(net.min_section_size(), 8);
    assert!(net.add_service(Endpoint(0)));
    assert!(!net.add_service(Endpoint(0)));
    assert!(net.add_service(Endpoint(1)));
    assert_eq!(net.gen_endpoint(None), Endpoint(2));
    assert_eq!(net.gen_endpoint(Some(Endpoint(0))), Endpoint(0));
    assert_eq!(net.gen_endpoint_with_ip(0, 1), Some(Endpoint(1 + 65536)));
    let id = random_public_id();
    let request = Packet::BootstrapRequest(id, CrustUser::Node);
    match net.route_packet(Endpoint(1), Endpoint(0), &request) {
        PacketRoute::Deliver => (),
        _ => panic!("should be delivered"),
    }
    net.block_connection(Endpoint(1), Endpoint(0));
    assert!(net.connection_blocked(Endpoint(1), Endpoint(0)));
    match net.route_packet(Endpoint(1), Endpoint(0), &request) {
        PacketRoute::Bounce(Packet::BootstrapFailure) => (),
        _ => panic!("should bounce"),
    }
    match net.route_packet(Endpoint(1), Endpoint(0), &Packet::Message(vec![])) {
        PacketRoute::Deliver => (),
        _ => panic!("messages are not blocked"),
    }
    net.unblock_connection(Endpoint(1), Endpoint(0));
    match net.route_packet(Endpoint(0), Endpoint(9), &Packet::Disconnect) {
        PacketRoute::Drop => (),
        _ => panic!("should be dropped"),
    }
    let (ip, port) = socket_addr_parts(&Endpoint(0x1234));
    assert_eq!(ip, [127, 0, 0x12, 0x34]);
    assert_eq!(port, 0x1234);
}

#[test]
fn services_connect_and_lose_each_other() {
    let id_a = random_public_id();
    let id_b = random_public_id();
    let mut a = ServiceState::new(Endpoint(0), vec![]);
    let mut b = ServiceState::new(Endpoint(1), vec![Endpoint(0), Endpoint(1)]);
    a.start(id_a);
    b.start(id_b);
    // b bootstraps off a, which does not accept yet.
    let out = b.start_bootstrap(&[], CrustUser::Node);
    assert_eq!(out, vec![Output::Send(Endpoint(0), Packet::BootstrapRequest(id_b, CrustUser::Node))]);
    let out = a.receive_packet(Endpoint(1), Packet::BootstrapRequest(id_b, CrustUser::Node));
    assert_eq!(out, vec![Output::Send(Endpoint(1), Packet::BootstrapFailure)]);
    let out = b.receive_packet(Endpoint(0), Packet::BootstrapFailure);
    assert_eq!(out, vec![Output::Emit(ServiceEvent::BootstrapFailed)]);
    // Now a listens and accepts.
    let _ = a.start_listening();
    a.accept_bootstrap = true;
    let _ = b.start_bootstrap(&[], CrustUser::Node);
    let out = a.receive_packet(Endpoint(1), Packet::BootstrapRequest(id_b, CrustUser::Node));
    assert_eq!(
        out,
        vec![
            Output::Emit(ServiceEvent::BootstrapAccept(id_b, CrustUser::Node)),
            Output::Send(Endpoint(1), Packet::BootstrapSuccess(id_a)),
        ]
    );
    let out = b.receive_packet(Endpoint(0), Packet::BootstrapSuccess(id_a));
    assert_eq!(out, vec![Output::Emit(ServiceEvent::BootstrapConnect(id_a, Endpoint(0)))]);
    assert!(a.is_peer_connected(&id_b));
    assert!(b.is_peer_connected(&id_a));
    assert_eq!(
        b.send_message(&id_a, vec![5]),
        Some(Output::Send(Endpoint(0), Packet::Message(vec![5])))
    );
    let out = a.receive_packet(Endpoint(1), Packet::Message(vec![5]));
    assert_eq!(out, vec![Output::Emit(ServiceEvent::NewMessage(id_b, CrustUser::Node, vec![5]))]);
    // The connection is lost on both sides.
    assert_eq!(
        lost_connection(&mut a, &mut b),
        Some((ServiceEvent::LostPeer(id_b), ServiceEvent::LostPeer(id_a)))
    );
    assert!(!a.is_peer_connected(&id_b));
    assert!(!b.is_peer_connected(&id_a));
    assert_eq!(lost_connection(&mut a, &mut b), None);
}

#[test]
fn rendezvous_connections_and_disconnects() {
    let id_a = random_public_id();
    let id_b = random_public_id();
    let mut a = ServiceState::new(Endpoint(0), vec![]);
    let mut b = ServiceState::new(Endpoint(1), vec![]);
    a.start(id_a);
    b.start(id_b);
    let request = a.connect(id_b, Endpoint(1));
    assert_eq!(request, Output::Send(Endpoint(1), Packet::ConnectRequest(id_a, id_b)));
    let out = b.receive_packet(Endpoint(0), Packet::ConnectRequest(id_a, id_b));
    assert_eq!(
        out,
        vec![
            Output::Emit(ServiceEvent::ConnectSuccess(id_a)),
            Output::Send(Endpoint(0), Packet::ConnectSuccess(id_b, id_a)),
        ]
    );
    // A repeated request is ignored.
    assert!(b.receive_packet(Endpoint(0), Packet::ConnectRequest(id_a, id_b)).is_empty());
    let out = a.receive_packet(Endpoint(1), Packet::ConnectSuccess(id_b, id_a));
    assert_eq!(out, vec![Output::Emit(ServiceEvent::ConnectSuccess(id_b))]);
    let out = a.disconnect(&id_b);
    assert_eq!(
        out,
        vec![
            Output::DropPending(Endpoint(0), Endpoint(1)),
            Output::DropPending(Endpoint(1), Endpoint(0)),
            Output::Send(Endpoint(1), Packet::Disconnect),
        ]
    );
    let out = b.receive_packet(Endpoint(0), Packet::Disconnect);
    assert_eq!(out, vec![Output::Emit(ServiceEvent::LostPeer(id_a))]);
    assert_eq!(
        a.prepare_connection_info(3),
        Output::Emit(ServiceEvent::ConnectionInfoPrepared(3, id_a, Endpoint(0)))
    );
    let out = b.restart(random_public_id());
    assert!(out.is_empty());
}

#[test]
fn lost_connection_without_a_connection_changes_nothing() {
    let mut a = ServiceState::new(Endpoint(40), vec![]);
    let mut b = ServiceState::new(Endpoint(41), vec![]);
    assert_eq!(lost_connection(&mut a, &mut b), None);
    assert!(a.connections.is_empty() && b.connections.is_empty());
}
