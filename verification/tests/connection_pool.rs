use chain_engine::connection_pool::{CloseRequest, ConnectionPool};
use chain_engine::hash::Blake2bHash;
use chain_engine::network::{
    CloseType, ConnectionInfo, ConnectionState, NetAddress, NetAddressType, NetworkConnection, Peer,
    PeerAddress, Protocol,
};
use chain_engine::sparse_vec::SparseVec;

fn ipv4(a: u8, b: u8, c: u8, d: u8) -> NetAddress {
    let mut ip = [0u8; 16];
    ip[0] = a;
    ip[1] = b;
    ip[2] = c;
    ip[3] = d;
    NetAddress { ty: NetAddressType::IPv4, ip }
}

fn peer_address(id: u8, protocol: Protocol, net_address: NetAddress) -> PeerAddress {
    PeerAddress { protocol, net_address, peer_id: [id; 16], services: 0 }
}

fn peer(address: PeerAddress) -> Peer {
    Peer { peer_address: address, version: 1, head_hash: Blake2bHash::zero(), time_offset: 0 }
}

fn outbound(address: PeerAddress) -> NetworkConnection {
    NetworkConnection { inbound: false, net_address: address.net_address, peer_address: Some(address) }
}

fn inbound(net_address: NetAddress) -> NetworkConnection {
    NetworkConnection { inbound: true, net_address, peer_address: None }
}

fn pool() -> ConnectionPool {
    ConnectionPool::new([5u8; 16])
}

#[test]
fn sparse_vec_reuses_gaps() {
    let mut v: SparseVec<u32> = SparseVec::new();
    assert_eq!(v.insert(10), 0);
    assert_eq!(v.insert(11), 1);
    assert_eq!(v.insert(12), 2);
    assert_eq!(v.get(1), Some(&11));
    assert_eq!(v.remove(1), Some(11));
    assert_eq!(v.remove(1), None);
    assert_eq!(v.get(1), None);
    assert_eq!(v.remove(0), Some(10));
    assert_eq!(v.remove(7), None);
    // The gap that has been free the longest is filled first.
    assert_eq!(v.insert(13), 1);
    assert_eq!(v.insert(14), 0);
    assert_eq!(v.insert(15), 3);
    assert_eq!(v.get(0), Some(&14));
    *v.get_mut(2).unwrap() = 20;
    assert_eq!(v.get(2), Some(&20));
    assert!(v.get_mut(9).is_none());
    let w: SparseVec<u32> = SparseVec::with_capacity(4);
    assert_eq!(w.get(0), None);
}

#[test]
fn subnets_keep_their_prefix() {
    let address = ipv4(10, 20, 30, 40);
    assert_eq!(ConnectionPool::get_subnet_address(&address), ipv4(10, 20, 30, 0));
    assert_eq!(address.subnet(20), ipv4(10, 20, 16, 0));
    assert_eq!(address.subnet(32), address);
    assert_eq!(address.subnet(0), ipv4(0, 0, 0, 0));
    let v6 = NetAddress { ty: NetAddressType::IPv6, ip: [0xff; 16] };
    // The subnet of an IPv6 address is its first 64 bits.
    let mut kept = [0xffu8; 16];
    for byte in kept.iter_mut().skip(8) {
        *byte = 0;
    }
    assert_eq!(ConnectionPool::get_subnet_address(&v6).ip, kept);
    assert_eq!(ConnectionPool::get_subnet_address(&v6), v6.subnet(64));
}

#[test]
fn an_outbound_connection_runs_its_course() {
    let mut pool = pool();
    let address = peer_address(1, Protocol::Ws, ipv4(10, 0, 0, 1));
    assert!(pool.connect_outbound(&address));
    assert_eq!(pool.connecting_count, 1);
    assert_eq!(
        pool.get_connection_by_peer_address(&address).unwrap().state(),
        ConnectionState::Connecting
    );
    // A second connection to the same peer is refused.
    assert!(!pool.connect_outbound(&address));
    assert!(!pool.check_outbound_connection_request(&address));

    let id = pool.on_connection(outbound(address));
    assert_eq!(id, 0);
    assert_eq!(pool.connecting_count, 0);
    assert_eq!(
        pool.get_connection_by_peer_address(&address).unwrap().state(),
        ConnectionState::Connected
    );
    assert!(pool.check_handshake(id, &peer(address)));
    assert_eq!(
        pool.get_connection_by_peer_address(&address).unwrap().state(),
        ConnectionState::Negotiating
    );
    assert!(pool.on_handshake(id, peer(address)));
    assert_eq!(
        pool.get_connection_by_peer_address(&address).unwrap().state(),
        ConnectionState::Established
    );
    assert_eq!(pool.peer_count(), 1);
    assert_eq!(pool.peer_count_ws, 1);
    assert_eq!(pool.peer_count_outbound, 1);
    assert_eq!(pool.get_num_connections_by_net_address(&address.net_address), 1);
    assert_eq!(pool.get_num_connections_by_subnet(&ipv4(10, 0, 0, 77)), 1);
    assert_eq!(pool.get_num_outbound_connections_by_subnet(&ipv4(10, 0, 0, 77)), 1);
    assert_eq!(pool.get_connections_by_net_address(&address.net_address).unwrap().len(), 1);
    assert_eq!(pool.get_connections_by_subnet(&address.net_address).unwrap().len(), 1);
    assert_eq!(pool.get_outbound_connections_by_subnet(&address.net_address).unwrap().len(), 1);
    assert!(pool.get_connections_by_net_address(&ipv4(10, 0, 0, 2)).is_none());

    let closed = pool.on_close(id, CloseType::ClosedByRemote, 100);
    assert_eq!(closed.state(), ConnectionState::Established);
    assert_eq!(pool.peer_count(), 0);
    assert_eq!(pool.peer_count_outbound, 0);
    assert!(pool.get_connection_by_peer_address(&address).is_none());
    assert_eq!(pool.get_num_connections_by_net_address(&address.net_address), 0);
    assert!(!pool.is_ip_banned(&address.net_address));
    assert!(pool.connect_outbound(&address));
}

#[test]
fn outbound_connections_need_a_web_socket() {
    let mut pool = pool();
    assert!(!pool.connect_outbound(&peer_address(1, Protocol::Rtc, ipv4(10, 0, 0, 1))));
    assert!(!pool.connect_outbound(&peer_address(2, Protocol::Dumb, ipv4(10, 0, 0, 2))));
    assert!(pool.connect_outbound(&peer_address(3, Protocol::Wss, ipv4(10, 0, 0, 3))));
    assert_eq!(pool.connecting_count, 1);
}

#[test]
fn outbound_connections_into_one_subnet_are_limited() {
    let mut pool = pool();
    for id in 1..=2u8 {
        let address = peer_address(id, Protocol::Ws, ipv4(10, 0, 0, id));
        assert!(pool.connect_outbound(&address));
        let connection = pool.on_connection(outbound(address));
        assert!(pool.on_handshake(connection, peer(address)));
    }
    assert_eq!(pool.get_num_outbound_connections_by_subnet(&ipv4(10, 0, 0, 9)), 2);
    assert!(!pool.connect_outbound(&peer_address(3, Protocol::Ws, ipv4(10, 0, 0, 3))));
    assert!(pool.connect_outbound(&peer_address(4, Protocol::Ws, ipv4(10, 0, 1, 3))));
}

#[test]
fn an_inbound_connection_runs_its_course() {
    let mut pool = pool();
    let net_address = ipv4(10, 0, 0, 1);
    let address = peer_address(1, Protocol::Rtc, net_address);
    let id = pool.on_connection(inbound(net_address));
    assert_eq!(pool.inbound_count, 1);
    assert!(pool.get_connection_by_peer_address(&address).is_none());
    assert!(pool.on_handshake(id, peer(address)));
    assert_eq!(pool.inbound_count, 0);
    assert_eq!(pool.peer_count_rtc, 1);
    assert_eq!(pool.peer_count_outbound, 0);
    assert_eq!(pool.get_num_outbound_connections_by_subnet(&net_address), 0);
    assert_eq!(pool.get_outbound_connections_by_subnet(&net_address).unwrap().len(), 0);
    let info = *pool.get_connection_by_peer_address(&address).unwrap();
    assert_eq!(info.peer_address, Some(address));
    assert_eq!(info.peer, Some(peer(address)));
    assert_eq!(info.state(), ConnectionState::Established);
    assert!(pool.take_close_requests().is_empty());
}

#[test]
fn an_inbound_connection_that_closes_before_its_handshake_is_counted_out() {
    let mut pool = pool();
    let id = pool.on_connection(inbound(ipv4(10, 0, 0, 1)));
    assert_eq!(pool.inbound_count, 1);
    pool.on_close(id, CloseType::ClosedByRemote, 100);
    assert_eq!(pool.inbound_count, 0);
    assert_eq!(pool.peer_count(), 0);
}

#[test]
fn blocked_inbound_connections_are_closed() {
    let mut pool = pool();
    pool.allow_inbound_connections = false;
    let connection = inbound(ipv4(10, 0, 0, 1));
    let id = pool.on_connection(connection);
    assert!(!pool.check_connection(id));
    let requests = pool.take_close_requests();
    assert_eq!(
        requests,
        vec![
            CloseRequest { connection, ty: CloseType::InboundConnectionsBlocked },
            CloseRequest { connection, ty: CloseType::InboundConnectionsBlocked },
        ]
    );
}

#[test]
fn a_second_connection_of_an_established_peer_is_closed() {
    let mut pool = pool();
    let address = peer_address(1, Protocol::Ws, ipv4(10, 0, 0, 1));
    assert!(pool.connect_outbound(&address));
    let first = pool.on_connection(outbound(address));
    assert!(pool.on_handshake(first, peer(address)));

    let connection = inbound(ipv4(10, 0, 0, 1));
    let second = pool.on_connection(connection);
    assert!(!pool.check_handshake(second, &peer(address)));
    assert!(!pool.on_handshake(second, peer(address)));
    assert_eq!(
        pool.take_close_requests(),
        vec![
            CloseRequest { connection, ty: CloseType::DuplicateConnection },
            CloseRequest { connection, ty: CloseType::DuplicateConnection },
        ]
    );
    assert_eq!(pool.peer_count(), 1);
    assert_eq!(pool.inbound_count, 1);
}

#[test]
fn an_attempt_to_connect_gives_way_to_an_inbound_connection() {
    let mut pool = pool();
    let address = peer_address(1, Protocol::Ws, ipv4(10, 0, 0, 1));
    assert!(pool.connect_outbound(&address));
    assert_eq!(pool.connecting_count, 1);
    let id = pool.on_connection(inbound(ipv4(10, 0, 0, 1)));
    assert!(pool.on_handshake(id, peer(address)));
    assert_eq!(pool.connecting_count, 0);
    assert_eq!(pool.peer_count(), 1);
    assert_eq!(pool.get_connection_by_peer_address(&address).unwrap().network_connection.unwrap().inbound, true);
}

#[test]
fn of_two_negotiating_connections_the_lower_identity_decides() {
    // This node has the identity 5; the peer with identity 9 is higher.
    let mut pool = pool();
    let high = peer_address(9, Protocol::Ws, ipv4(10, 0, 0, 1));
    assert!(pool.connect_outbound(&high));
    let stored = pool.on_connection(outbound(high));
    assert!(pool.check_handshake(stored, &peer(high)));
    let id = pool.on_connection(inbound(ipv4(10, 0, 0, 1)));
    assert!(pool.on_handshake(id, peer(high)));
    assert_eq!(
        pool.take_close_requests(),
        vec![CloseRequest { connection: outbound(high), ty: CloseType::SimultaneousConnection }]
    );
    assert_eq!(pool.peer_count(), 1);

    // The peer with identity 1 is lower: the new connection is closed.
    let mut pool = ConnectionPool::new([5u8; 16]);
    let low = peer_address(1, Protocol::Ws, ipv4(10, 0, 0, 1));
    assert!(pool.connect_outbound(&low));
    let stored = pool.on_connection(outbound(low));
    assert!(pool.check_handshake(stored, &peer(low)));
    let connection = inbound(ipv4(10, 0, 0, 1));
    let id = pool.on_connection(connection);
    assert!(!pool.on_handshake(id, peer(low)));
    assert_eq!(
        pool.take_close_requests(),
        vec![CloseRequest { connection, ty: CloseType::SimultaneousConnection }]
    );
    assert_eq!(pool.peer_count(), 0);
}

#[test]
fn a_ban_closes_the_door_until_it_ends() {
    let mut pool = pool();
    let address = peer_address(1, Protocol::Ws, ipv4(10, 0, 0, 1));
    assert!(pool.connect_outbound(&address));
    let id = pool.on_connection(outbound(address));
    assert!(pool.on_handshake(id, peer(address)));
    pool.on_close(id, CloseType::ReceivedInvalidBlock, 1000);
    assert!(pool.is_ip_banned(&address.net_address));
    assert_eq!(pool.banned_ips.len(), 1);
    assert_eq!(pool.banned_ips[0].unban_time, 1600);
    assert!(!pool.connect_outbound(&address));

    let connection = inbound(address.net_address);
    let id = pool.on_connection(connection);
    assert!(!pool.check_connection(id));
    assert_eq!(pool.take_close_requests()[0], CloseRequest { connection, ty: CloseType::BannedIp });
    pool.on_close(id, CloseType::BannedIp, 1001);

    pool.check_unban_ips(1599);
    assert!(pool.is_ip_banned(&address.net_address));
    pool.check_unban_ips(1600);
    assert!(!pool.is_ip_banned(&address.net_address));
    assert!(pool.connect_outbound(&address));
}

#[test]
fn addresses_are_banned_by_kind() {
    let mut pool = pool();
    let v6 = NetAddress { ty: NetAddressType::IPv6, ip: [0x20; 16] };
    pool.ban_ip(&v6, 0);
    let mut subnet = [0x20u8; 16];
    for byte in subnet.iter_mut().skip(8) {
        *byte = 0;
    }
    assert_eq!(pool.banned_ips[0].address.ip, subnet);
    assert_eq!(pool.banned_ips[0].unban_time, 600);
    let unknown = NetAddress { ty: NetAddressType::Unknown, ip: [1; 16] };
    pool.ban_ip(&unknown, 0);
    assert_eq!(pool.banned_ips.len(), 1);
    assert!(!pool.is_ip_banned(&unknown));
    pool.ban_ip(&v6, 50);
    assert_eq!(pool.banned_ips.len(), 1);
    assert_eq!(pool.banned_ips[0].unban_time, 650);
    pool.ban_ip(&ipv4(1, 2, 3, 4), u64::MAX);
    assert_eq!(pool.banned_ips[1].unban_time, u64::MAX);
    // A new ban of one address leaves the bans of the others.
    pool.ban_ip(&v6, 70);
    assert_eq!(pool.banned_ips.len(), 2);
    assert_eq!(pool.banned_ips[0].address, ipv4(1, 2, 3, 4));
    assert_eq!(pool.banned_ips[0].unban_time, u64::MAX);
    assert_eq!(pool.banned_ips[1].address.ip, subnet);
    assert_eq!(pool.banned_ips[1].unban_time, 670);
    assert!(pool.is_ip_banned(&ipv4(1, 2, 3, 4)));
}

#[test]
fn a_connection_can_be_changed_in_place() {
    let mut pool = pool();
    let address = peer_address(1, Protocol::Ws, ipv4(10, 0, 0, 1));
    assert!(pool.connect_outbound(&address));
    let info = pool.get_connection_by_peer_address_mut(&address).unwrap();
    info.peer = Some(peer(address));
    assert_eq!(pool.get_connection_by_peer_address(&address).unwrap().peer, Some(peer(address)));
    assert!(pool
        .get_connection_by_peer_address_mut(&peer_address(2, Protocol::Ws, ipv4(10, 0, 0, 1)))
        .is_none());
    assert_eq!(ConnectionInfo::outbound(address).state(), ConnectionState::Connecting);
}

#[test]
fn close_types_that_ban() {
    assert!(CloseType::ReceivedInvalidBlock.is_banning_type());
    assert!(CloseType::ManualPeerBan.is_banning_type());
    assert!(!CloseType::ClosedByRemote.is_banning_type());
    assert!(!CloseType::DuplicateConnection.is_banning_type());
}

#[test]
fn connections_under_an_address_are_listed_in_the_order_of_the_index() {
    let mut pool = pool();
    let net = ipv4(10, 0, 0, 1);
    let first = peer_address(1, Protocol::Ws, net);
    let second = peer_address(2, Protocol::Wss, net);
    let mut ids = Vec::new();
    for address in [first, second] {
        assert!(pool.connect_outbound(&address));
        let id = pool.on_connection(outbound(address));
        assert!(pool.check_handshake(id, &peer(address)));
        assert!(pool.on_handshake(id, peer(address)));
        ids.push(id);
    }
    let listed = pool.get_connections_by_net_address(&net).unwrap();
    assert_eq!(listed.len(), 2);
    assert_eq!(listed[0].peer_address, Some(first));
    assert_eq!(listed[1].peer_address, Some(second));
    assert_eq!(listed[0], *pool.get_connection_by_peer_address(&first).unwrap());
    assert_eq!(pool.get_connections_by_subnet(&ipv4(10, 0, 0, 200)).unwrap(), listed);
    assert_eq!(pool.get_outbound_connections_by_subnet(&net).unwrap(), listed);
    // The entries of the indexes are those of the connections.
    assert_eq!(pool.connections_by_peer_address.len(), 2);
    assert_eq!(pool.connections_by_peer_address[1].id, ids[1]);
    assert_eq!(pool.connections_by_net_address.len(), 2);
    assert_eq!(pool.connections_by_subnet.len(), 2);
    assert_eq!(pool.connections_by_subnet[0].address, ipv4(10, 0, 0, 0));
    // When the first has left, the second is still found.
    pool.on_close(ids[0], CloseType::ClosedByRemote, 0);
    let listed = pool.get_connections_by_net_address(&net).unwrap();
    assert_eq!(listed.len(), 1);
    assert_eq!(listed[0].peer_address, Some(second));
    assert_eq!(pool.connections_by_peer_address.len(), 1);
    assert_eq!(pool.connections_by_peer_address[0].id, ids[1]);
    assert_eq!(pool.connections_by_subnet.len(), 1);
    assert!(pool.get_connection_by_peer_address(&first).is_none());
    assert!(pool.get_connection_by_peer_address(&second).is_some());
}

#[test]
fn a_connection_that_is_not_admitted_is_asked_to_be_closed() {
    let mut pool = pool();
    let net = ipv4(10, 0, 0, 9);
    pool.ban_ip(&net, 0);
    let connection = inbound(net);
    let id = pool.on_connection(connection);
    // The connection is in the pool until the transport has closed it.
    assert_eq!(pool.inbound_count, 1);
    assert!(pool.connections.get(id).is_some());
    assert_eq!(
        pool.take_close_requests(),
        vec![CloseRequest { connection, ty: CloseType::BannedIp }]
    );
    assert!(pool.connections_by_peer_address.is_empty());
    assert!(pool.connections_by_net_address.is_empty());
    // One that is admitted is not.
    let id = pool.on_connection(inbound(ipv4(10, 0, 0, 10)));
    assert!(pool.connections.get(id).is_some());
    assert!(pool.take_close_requests().is_empty());
}
