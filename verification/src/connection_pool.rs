//! The pool of peer connections: it finds a connection by the address of its
//! peer, by its net address and by its subnet, decides which connections are
//! admitted, counts the peers, and keeps the list of banned addresses.

use vstd::prelude::*;
use crate::bytes::{bytes_less, lex_less};
use crate::network::{subnet_of, CloseType, ConnectionInfo, ConnectionState, NetAddress, NetAddressType, NetworkConnection, Peer, PeerAddress, Protocol};
use crate::policy::{DEFAULT_BAN_TIME, INBOUND_PEER_COUNT_PER_SUBNET_MAX, IPV4_SUBNET_MASK, IPV6_SUBNET_MASK, OUTBOUND_PEER_COUNT_PER_SUBNET_MAX, PEER_COUNT_DUMB_MAX, PEER_COUNT_MAX, PEER_COUNT_PER_IP_MAX};
use crate::sparse_vec::SparseVec;

verus! {

/// The connection of a peer address.
#[derive(Clone, Copy, Debug)]
pub struct PeerIndexEntry {
    pub address: PeerAddress,
    pub id: usize,
}

/// A connection under a net address or under a subnet.
#[derive(Clone, Copy, Debug)]
pub struct NetIndexEntry {
    pub address: NetAddress,
    pub id: usize,
}

/// A banned address, with the time in seconds at which the ban ends.
#[derive(Clone, Copy, Debug)]
pub struct BanEntry {
    pub address: NetAddress,
    pub unban_time: u64,
}

/// A connection that the transport has to close, and why.
#[derive(Clone, Copy, Debug, PartialEq, Eq)]
pub struct CloseRequest {
    pub connection: NetworkConnection,
    pub ty: CloseType,
}

/// Whether a peer joins or leaves the counts.
#[derive(Clone, Copy, Debug, PartialEq, Eq, Structural)]
pub enum PeerCountUpdate {
    Add,
    Remove,
}

/// What the pool counts.
#[derive(Clone, Copy, Debug, PartialEq, Eq, Structural)]
pub enum Counted {
    Ws,
    Wss,
    Rtc,
    Dumb,
    Outbound,
    Connecting,
    Inbound,
}

/// The pool.
#[derive(Debug)]
pub struct ConnectionPool {
    pub connections: SparseVec<ConnectionInfo>,
    pub connections_by_peer_address: Vec<PeerIndexEntry>,
    pub connections_by_net_address: Vec<NetIndexEntry>,
    pub connections_by_subnet: Vec<NetIndexEntry>,
    pub peer_count_ws: usize,
    pub peer_count_wss: usize,
    pub peer_count_rtc: usize,
    pub peer_count_dumb: usize,
    pub peer_count_outbound: usize,
    pub connecting_count: usize,
    pub inbound_count: usize,
    pub allow_inbound_connections: bool,
    pub allow_inbound_exchange: bool,
    pub banned_ips: Vec<BanEntry>,
    pub own_peer_id: [u8; 16],
    pub close_requests: Vec<CloseRequest>,
}

/// Whether a connection is counted under a heading: an established
/// connection under the protocol of its peer and, where this node opened it,
/// as outbound; a connection that is being opened as connecting; one that a
/// peer opened, until its handshake is done, as inbound.
pub open spec fn counts_as(entry: Option<ConnectionInfo>, what: Counted) -> bool {
    match entry {
        None => false,
        Some(info) => match what {
            Counted::Ws => info.state == ConnectionState::Established && info.peer_address is Some
                && info.peer_address->0.protocol == Protocol::Ws,
            Counted::Wss => info.state == ConnectionState::Established && info.peer_address is Some
                && info.peer_address->0.protocol == Protocol::Wss,
            Counted::Rtc => info.state == ConnectionState::Established && info.peer_address is Some
                && info.peer_address->0.protocol == Protocol::Rtc,
            Counted::Dumb => info.state == ConnectionState::Established && info.peer_address is Some
                && info.peer_address->0.protocol == Protocol::Dumb,
            Counted::Outbound => info.state == ConnectionState::Established
                && info.network_connection is Some && !info.network_connection->0.inbound,
            Counted::Connecting => info.state == ConnectionState::Connecting,
            Counted::Inbound => (info.state == ConnectionState::Connected || info.state
                == ConnectionState::Negotiating) && info.network_connection is Some
                && info.network_connection->0.inbound,
        },
    }
}

/// How many connections are counted under a heading.
pub open spec fn count_of(s: Seq<Option<ConnectionInfo>>, what: Counted) -> nat
    decreases s.len(),
{
    if s.len() == 0 {
        0
    } else {
        count_of(s.drop_last(), what) + if counts_as(s.last(), what) {
            1nat
        } else {
            0nat
        }
    }
}

/// The subnet of an address: by the mask of its kind.
pub open spec fn subnet_address(address: NetAddress) -> NetAddress {
    subnet_of(
        address,
        if address.ty == NetAddressType::IPv4 {
            IPV4_SUBNET_MASK
        } else {
            IPV6_SUBNET_MASK
        },
    )
}

/// Whether a connection belongs under a net address: its handshake is done
/// and it runs over that address, which is an IP address.
pub open spec fn at_address(entry: Option<ConnectionInfo>, address: NetAddress) -> bool {
    entry is Some && entry->0.state == ConnectionState::Established
        && entry->0.network_connection is Some && entry->0.network_connection->0.net_address
        == address && address.spec_is_reliable()
}

/// Whether a connection belongs under a subnet.
pub open spec fn in_subnet(entry: Option<ConnectionInfo>, subnet: NetAddress) -> bool {
    entry is Some && entry->0.state == ConnectionState::Established
        && entry->0.network_connection is Some && subnet_address(
        entry->0.network_connection->0.net_address,
    ) == subnet && entry->0.network_connection->0.net_address.spec_is_reliable()
}

/// Whether the `k`-th entry of the index by peer address is sound: it names
/// a connection that is there and that has a peer address of that peer.
pub open spec fn peer_entry_ok(
    s: Seq<Option<ConnectionInfo>>,
    index: Seq<PeerIndexEntry>,
    k: int,
) -> bool {
    &&& index[k].id < s.len()
    &&& s[index[k].id as int] is Some
    &&& s[index[k].id as int]->0.peer_address is Some
    &&& s[index[k].id as int]->0.peer_address->0.names(index[k].address)
}

/// Whether the `k`-th entry of an index by net address or by subnet is
/// sound: it names a connection that is there and belongs under the address.
pub open spec fn net_entry_ok(
    s: Seq<Option<ConnectionInfo>>,
    index: Seq<NetIndexEntry>,
    by_subnet: bool,
    k: int,
) -> bool {
    &&& index[k].id < s.len()
    &&& if by_subnet {
        in_subnet(s[index[k].id as int], index[k].address)
    } else {
        at_address(s[index[k].id as int], index[k].address)
    }
}

/// Whether an index by net address or by subnet is sound.
pub open spec fn net_index_ok(
    s: Seq<Option<ConnectionInfo>>,
    index: Seq<NetIndexEntry>,
    by_subnet: bool,
) -> bool {
    forall|k: int| 0 <= k < index.len() ==> #[trigger] net_entry_ok(s, index, by_subnet, k)
}

/// How many entries of an index stand under an address.
pub open spec fn entry_count(index: Seq<NetIndexEntry>, address: NetAddress) -> nat
    decreases index.len(),
{
    if index.len() == 0 {
        0
    } else {
        entry_count(index.drop_last(), address) + if index.last().address == address {
            1nat
        } else {
            0nat
        }
    }
}

/// How many entries of an index stand under an address and name a
/// connection that this node opened.
pub open spec fn outbound_count(
    s: Seq<Option<ConnectionInfo>>,
    index: Seq<NetIndexEntry>,
    address: NetAddress,
) -> nat
    decreases index.len(),
{
    if index.len() == 0 {
        0
    } else {
        outbound_count(s, index.drop_last(), address) + if index.last().address == address
            && is_outbound(s, index.last().id as int) {
            1nat
        } else {
            0nat
        }
    }
}

/// The entries of an index but those of one connection under one address,
/// in their order.
pub open spec fn net_without(index: Seq<NetIndexEntry>, address: NetAddress, id: usize) -> Seq<
    NetIndexEntry,
>
    decreases index.len(),
{
    if index.len() == 0 {
        Seq::empty()
    } else if index.last().address == address && index.last().id == id {
        net_without(index.drop_last(), address, id)
    } else {
        net_without(index.drop_last(), address, id).push(index.last())
    }
}

/// The index by peer address without the entry of a peer.
pub open spec fn peers_without(index: Seq<PeerIndexEntry>, address: PeerAddress) -> Seq<
    PeerIndexEntry,
> {
    if exists|k: int| 0 <= k < index.len() && (#[trigger] index[k]).address.names(address) {
        index.remove(
            choose|k: int| 0 <= k < index.len() && (#[trigger] index[k]).address.names(address),
        )
    } else {
        index
    }
}

/// The bans but those of one address, in their order.
pub open spec fn bans_without(bans: Seq<BanEntry>, address: NetAddress) -> Seq<BanEntry>
    decreases bans.len(),
{
    if bans.len() == 0 {
        Seq::empty()
    } else if bans.last().address == address {
        bans_without(bans.drop_last(), address)
    } else {
        bans_without(bans.drop_last(), address).push(bans.last())
    }
}

/// The connections that an index holds under an address, in the order of
/// the index.
pub open spec fn listed_under(
    s: Seq<Option<ConnectionInfo>>,
    index: Seq<NetIndexEntry>,
    address: NetAddress,
) -> Seq<ConnectionInfo>
    decreases index.len(),
{
    if index.len() == 0 {
        Seq::empty()
    } else if index.last().address == address && index.last().id < s.len()
        && s[index.last().id as int] is Some {
        listed_under(s, index.drop_last(), address).push(s[index.last().id as int]->0)
    } else {
        listed_under(s, index.drop_last(), address)
    }
}

/// The connections that an index holds under an address and that this node
/// opened, in the order of the index.
pub open spec fn outbound_under(
    s: Seq<Option<ConnectionInfo>>,
    index: Seq<NetIndexEntry>,
    address: NetAddress,
) -> Seq<ConnectionInfo>
    decreases index.len(),
{
    if index.len() == 0 {
        Seq::empty()
    } else if index.last().address == address && is_outbound(s, index.last().id as int) {
        outbound_under(s, index.drop_last(), address).push(s[index.last().id as int]->0)
    } else {
        outbound_under(s, index.drop_last(), address)
    }
}

/// The index by net address without the entries of a connection under its
/// address; the index as it is where the address is no IP address.
pub open spec fn nets_without(index: Seq<NetIndexEntry>, address: NetAddress, id: usize) -> Seq<
    NetIndexEntry,
> {
    if address.spec_is_reliable() {
        net_without(index, address, id)
    } else {
        index
    }
}

/// The index by subnet without the entries of a connection under the subnet
/// of its address; the index as it is where the address is no IP address.
pub open spec fn subnets_without(index: Seq<NetIndexEntry>, address: NetAddress, id: usize) -> Seq<
    NetIndexEntry,
> {
    if address.spec_is_reliable() {
        net_without(index, subnet_address(address), id)
    } else {
        index
    }
}

/// The index by peer address after the connection at a position has left.
pub open spec fn peers_after_removal(pool: ConnectionPool, id: int) -> Seq<PeerIndexEntry> {
    match pool.slots()[id]->0.peer_address {
        Some(address) => peers_without(pool.connections_by_peer_address@, address),
        None => pool.connections_by_peer_address@,
    }
}

/// The index by net address after the connection at a position has left.
pub open spec fn nets_after_removal(pool: ConnectionPool, id: int) -> Seq<NetIndexEntry> {
    match pool.slots()[id]->0.network_connection {
        Some(connection) => nets_without(
            pool.connections_by_net_address@,
            connection.net_address,
            id as usize,
        ),
        None => pool.connections_by_net_address@,
    }
}

/// The index by subnet after the connection at a position has left.
pub open spec fn subnets_after_removal(pool: ConnectionPool, id: int) -> Seq<NetIndexEntry> {
    match pool.slots()[id]->0.network_connection {
        Some(connection) => subnets_without(
            pool.connections_by_subnet@,
            connection.net_address,
            id as usize,
        ),
        None => pool.connections_by_subnet@,
    }
}

/// The connections of a pool after a connection of the transport came up at
/// a position: one that this node opened takes the place of the attempt to
/// connect, with the peer address of the attempt; one that a peer opened is
/// new. Either is connected, its handshake not done.
pub open spec fn slots_after_connection(
    pool: ConnectionPool,
    connection: NetworkConnection,
    id: usize,
) -> Seq<Option<ConnectionInfo>> {
    if connection.inbound {
        let info = ConnectionInfo {
            peer_address: None,
            network_connection: Some(connection),
            peer: None,
            state: ConnectionState::Connected,
        };
        if id < pool.slots().len() {
            pool.slots().update(id as int, Some(info))
        } else {
            pool.slots().push(Some(info))
        }
    } else {
        pool.slots().update(
            id as int,
            Some(
                ConnectionInfo {
                    peer_address: pool.slots()[id as int]->0.peer_address,
                    network_connection: Some(connection),
                    peer: pool.slots()[id as int]->0.peer,
                    state: ConnectionState::Connected,
                },
            ),
        )
    }
}

/// The index by peer address after a handshake was accepted: the connection
/// that gives way has left it, and a connection that a peer opened goes
/// under the address of its peer.
pub open spec fn peers_after_handshake(pool: ConnectionPool, id: int, peer: Peer) -> Seq<
    PeerIndexEntry,
> {
    let kept = match displaced(pool, id, peer) {
        Some(other) => peers_after_removal(pool, other as int),
        None => pool.connections_by_peer_address@,
    };
    if pool.slots()[id]->0.peer_address is None {
        kept.push(PeerIndexEntry { address: peer.peer_address, id: id as usize })
    } else {
        kept
    }
}

/// The index by net address after a handshake was accepted: the connection
/// that gives way has left it, and the accepted one goes under its address,
/// where that is an IP address.
pub open spec fn nets_after_handshake(pool: ConnectionPool, id: int, peer: Peer) -> Seq<
    NetIndexEntry,
> {
    let kept = match displaced(pool, id, peer) {
        Some(other) => nets_after_removal(pool, other as int),
        None => pool.connections_by_net_address@,
    };
    let address = pool.slots()[id]->0.network_connection->0.net_address;
    if address.spec_is_reliable() {
        kept.push(NetIndexEntry { address, id: id as usize })
    } else {
        kept
    }
}

/// The index by subnet after a handshake was accepted: the connection that
/// gives way has left it, and the accepted one goes under the subnet of its
/// address, where that is an IP address.
pub open spec fn subnets_after_handshake(pool: ConnectionPool, id: int, peer: Peer) -> Seq<
    NetIndexEntry,
> {
    let kept = match displaced(pool, id, peer) {
        Some(other) => subnets_after_removal(pool, other as int),
        None => pool.connections_by_subnet@,
    };
    let address = pool.slots()[id]->0.network_connection->0.net_address;
    if address.spec_is_reliable() {
        kept.push(NetIndexEntry { address: subnet_address(address), id: id as usize })
    } else {
        kept
    }
}

/// Whether the connection at a position stands in the index by peer address,
/// where it has a peer address.
pub open spec fn peer_listed(
    s: Seq<Option<ConnectionInfo>>,
    index: Seq<PeerIndexEntry>,
    id: int,
) -> bool {
    s[id] is Some && s[id]->0.peer_address is Some ==> exists|k: int|
        0 <= k < index.len() && (#[trigger] index[k]).id == id
}

/// Whether the connection at a position stands in an index by net address or
/// by subnet under its address, where its handshake is done and its address
/// is an IP address.
pub open spec fn net_listed(
    s: Seq<Option<ConnectionInfo>>,
    index: Seq<NetIndexEntry>,
    by_subnet: bool,
    id: int,
) -> bool {
    at_address(s[id], s[id]->0.network_connection->0.net_address) ==> exists|k: int|
        0 <= k < index.len() && (#[trigger] index[k]).id == id && index[k].address == (if by_subnet {
            subnet_address(s[id]->0.network_connection->0.net_address)
        } else {
            s[id]->0.network_connection->0.net_address
        })
}

/// Whether every connection stands in the indexes in which it belongs.
pub open spec fn all_listed(
    s: Seq<Option<ConnectionInfo>>,
    peers: Seq<PeerIndexEntry>,
    nets: Seq<NetIndexEntry>,
    subnets: Seq<NetIndexEntry>,
) -> bool {
    &&& forall|id: int| 0 <= id < s.len() ==> #[trigger] peer_listed(s, peers, id)
    &&& forall|id: int| 0 <= id < s.len() ==> #[trigger] net_listed(s, nets, false, id)
    &&& forall|id: int| 0 <= id < s.len() ==> #[trigger] net_listed(s, subnets, true, id)
}

/// The connections stay in the indexes when one position changes and the
/// indexes only grow, where the connection at that position stands in them.
pub proof fn lemma_listed_grown(
    s0: Seq<Option<ConnectionInfo>>,
    s1: Seq<Option<ConnectionInfo>>,
    peers0: Seq<PeerIndexEntry>,
    peers1: Seq<PeerIndexEntry>,
    nets0: Seq<NetIndexEntry>,
    nets1: Seq<NetIndexEntry>,
    subnets0: Seq<NetIndexEntry>,
    subnets1: Seq<NetIndexEntry>,
    id: int,
)
    requires
        all_listed(s0, peers0, nets0, subnets0),
        forall|j: int| 0 <= j < s1.len() && j != id ==> j < s0.len() && #[trigger] s1[j] == s0[j],
        peers0.len() <= peers1.len(),
        forall|k: int| 0 <= k < peers0.len() ==> #[trigger] peers1[k] == peers0[k],
        nets0.len() <= nets1.len(),
        forall|k: int| 0 <= k < nets0.len() ==> #[trigger] nets1[k] == nets0[k],
        subnets0.len() <= subnets1.len(),
        forall|k: int| 0 <= k < subnets0.len() ==> #[trigger] subnets1[k] == subnets0[k],
        0 <= id < s1.len() ==> peer_listed(s1, peers1, id) && net_listed(s1, nets1, false, id)
            && net_listed(s1, subnets1, true, id),
    ensures
        all_listed(s1, peers1, nets1, subnets1),
{
    assert forall|j: int| 0 <= j < s1.len() implies #[trigger] peer_listed(s1, peers1, j) by {
        if j != id {
            assert(s1[j] == s0[j]);
            assert(peer_listed(s0, peers0, j));
            if s1[j] is Some && s1[j]->0.peer_address is Some {
                let k = choose|k: int| 0 <= k < peers0.len() && (#[trigger] peers0[k]).id == j;
                assert(peers1[k].id == j);
            }
        }
    }
    assert forall|j: int| 0 <= j < s1.len() implies #[trigger] net_listed(s1, nets1, false, j) by {
        if j != id {
            assert(s1[j] == s0[j]);
            assert(net_listed(s0, nets0, false, j));
            let address = s1[j]->0.network_connection->0.net_address;
            if at_address(s1[j], address) {
                let k = choose|k: int|
                    0 <= k < nets0.len() && (#[trigger] nets0[k]).id == j && nets0[k].address
                        == address;
                assert(nets1[k].id == j && nets1[k].address == address);
            }
        }
    }
    assert forall|j: int| 0 <= j < s1.len() implies #[trigger] net_listed(s1, subnets1, true, j) by {
        if j != id {
            assert(s1[j] == s0[j]);
            assert(net_listed(s0, subnets0, true, j));
            let address = s1[j]->0.network_connection->0.net_address;
            if at_address(s1[j], address) {
                let k = choose|k: int|
                    0 <= k < subnets0.len() && (#[trigger] subnets0[k]).id == j
                        && subnets0[k].address == subnet_address(address);
                assert(subnets1[k].id == j && subnets1[k].address == subnet_address(address));
            }
        }
    }
}

/// An entry of another connection, or under another address, stays when the
/// entries of one connection under one address leave an index.
pub proof fn lemma_net_kept(index: Seq<NetIndexEntry>, address: NetAddress, id: usize, k: int)
    requires
        0 <= k < index.len(),
        !(index[k].address == address && index[k].id == id),
    ensures
        net_without(index, address, id).contains(index[k]),
    decreases index.len(),
{
    let rest = net_without(index.drop_last(), address, id);
    if k == index.len() - 1 {
        assert(rest.push(index.last())[rest.len() as int] == index[k]);
    } else {
        lemma_net_kept(index.drop_last(), address, id, k);
        let j = choose|j: int| 0 <= j < rest.len() && rest[j] == index[k];
        if !(index.last().address == address && index.last().id == id) {
            assert(rest.push(index.last())[j] == index[k]);
        }
    }
}

/// The index by peer address without the entry of a peer, if there is one
/// to leave.
pub open spec fn peers_less(index: Seq<PeerIndexEntry>, address: Option<PeerAddress>) -> Seq<
    PeerIndexEntry,
> {
    match address {
        Some(address) => peers_without(index, address),
        None => index,
    }
}

/// The other connections stay in the index by peer address when one
/// connection leaves the pool and the entry of its peer leaves the index.
pub proof fn lemma_peers_listed_removed(
    s0: Seq<Option<ConnectionInfo>>,
    peers0: Seq<PeerIndexEntry>,
    id: int,
)
    requires
        0 <= id < s0.len(),
        s0[id] is Some,
        forall|k: int, l: int|
            0 <= k < l < peers0.len() ==> !(#[trigger] peers0[k]).address.names(
                (#[trigger] peers0[l]).address,
            ),
        forall|k: int| 0 <= k < peers0.len() ==> #[trigger] peer_entry_ok(s0, peers0, k),
        forall|j: int| 0 <= j < s0.len() ==> #[trigger] peer_listed(s0, peers0, j),
    ensures
        forall|j: int|
            0 <= j < s0.len() ==> #[trigger] peer_listed(
                s0.update(id, None),
                peers_less(peers0, s0[id]->0.peer_address),
                j,
            ),
{
    let s1 = s0.update(id, None);
    let peers1 = peers_less(peers0, s0[id]->0.peer_address);
    assert forall|j: int| 0 <= j < s0.len() implies #[trigger] peer_listed(s1, peers1, j) by {
        if j != id && s1[j] is Some && s1[j]->0.peer_address is Some {
            assert(peer_listed(s0, peers0, j));
            let kj = choose|k: int| 0 <= k < peers0.len() && (#[trigger] peers0[k]).id == j;
            if s0[id]->0.peer_address is Some {
                let address = s0[id]->0.peer_address->0;
                assert(peer_listed(s0, peers0, id));
                let ki = choose|k: int| 0 <= k < peers0.len() && (#[trigger] peers0[k]).id == id;
                assert(peer_entry_ok(s0, peers0, ki));
                assert(peers0[ki].address.names(address));
                let r = choose|k: int|
                    0 <= k < peers0.len() && (#[trigger] peers0[k]).address.names(address);
                if r < ki {
                    assert(!peers0[r].address.names(peers0[ki].address));
                } else if ki < r {
                    assert(!peers0[ki].address.names(peers0[r].address));
                }
                assert(r == ki);
                assert(peers1 == peers0.remove(r));
                if kj < r {
                    assert(peers1[kj].id == j);
                } else {
                    assert(peers1[kj - 1].id == j);
                }
            } else {
                assert(peers1[kj].id == j);
            }
        }
    }
}

/// The other connections stay in an index by net address or by subnet when
/// one connection leaves the pool and its entries under an address leave the
/// index.
pub proof fn lemma_nets_listed_removed(
    s0: Seq<Option<ConnectionInfo>>,
    nets0: Seq<NetIndexEntry>,
    nets1: Seq<NetIndexEntry>,
    by_subnet: bool,
    address: NetAddress,
    id: usize,
)
    requires
        id < s0.len(),
        nets1 == nets0 || nets1 == net_without(nets0, address, id),
        forall|j: int| 0 <= j < s0.len() ==> #[trigger] net_listed(s0, nets0, by_subnet, j),
    ensures
        forall|j: int|
            0 <= j < s0.len() ==> #[trigger] net_listed(
                s0.update(id as int, None),
                nets1,
                by_subnet,
                j,
            ),
{
    let s1 = s0.update(id as int, None);
    assert forall|j: int| 0 <= j < s0.len() implies #[trigger] net_listed(
        s1,
        nets1,
        by_subnet,
        j,
    ) by {
        if j != id {
            assert(net_listed(s0, nets0, by_subnet, j));
            let own = s1[j]->0.network_connection->0.net_address;
            if at_address(s1[j], own) {
                let wanted = if by_subnet {
                    subnet_address(own)
                } else {
                    own
                };
                let k = choose|k: int|
                    0 <= k < nets0.len() && (#[trigger] nets0[k]).id == j && nets0[k].address
                        == wanted;
                if nets1 != nets0 {
                    lemma_net_kept(nets0, address, id, k);
                    let l = choose|l: int| 0 <= l < nets1.len() && nets1[l] == nets0[k];
                    assert(nets1[l].id == j && nets1[l].address == wanted);
                }
            }
        }
    }
}

/// A ban of another address stays when the bans of one address leave.
pub proof fn lemma_bans_kept(bans: Seq<BanEntry>, address: NetAddress, k: int)
    requires
        0 <= k < bans.len(),
        bans[k].address != address,
    ensures
        bans_without(bans, address).contains(bans[k]),
    decreases bans.len(),
{
    let rest = bans_without(bans.drop_last(), address);
    if k == bans.len() - 1 {
        assert(rest.push(bans.last())[rest.len() as int] == bans[k]);
    } else {
        lemma_bans_kept(bans.drop_last(), address, k);
        let j = choose|j: int| 0 <= j < rest.len() && rest[j] == bans[k];
        if bans.last().address != address {
            assert(rest.push(bans.last())[j] == bans[k]);
        }
    }
}

/// Whether the connection at a position was opened by this node.
pub open spec fn is_outbound(s: Seq<Option<ConnectionInfo>>, id: int) -> bool {
    0 <= id < s.len() && s[id] is Some && s[id]->0.network_connection is Some
        && !s[id]->0.network_connection->0.inbound
}

/// A connection that takes part in no count can be added to or taken from
/// the end without a change of any count; one that does changes its counts
/// by one.
pub proof fn lemma_count_push(s: Seq<Option<ConnectionInfo>>, v: Option<ConnectionInfo>, what: Counted)
    ensures
        count_of(s.push(v), what) == count_of(s, what) + if counts_as(v, what) {
            1nat
        } else {
            0nat
        },
{
    assert(s.push(v).drop_last() =~= s);
}

/// No count is higher than the number of positions.
pub proof fn lemma_count_bound(s: Seq<Option<ConnectionInfo>>, what: Counted)
    ensures
        count_of(s, what) <= s.len(),
    decreases s.len(),
{
    if s.len() > 0 {
        lemma_count_bound(s.drop_last(), what);
    }
}

/// A change at one position changes a count by what the old and the new
/// connection at that position add to it.
pub proof fn lemma_count_update(
    s: Seq<Option<ConnectionInfo>>,
    i: int,
    v: Option<ConnectionInfo>,
    what: Counted,
)
    requires
        0 <= i < s.len(),
    ensures
        count_of(s.update(i, v), what) + if counts_as(s[i], what) {
            1nat
        } else {
            0nat
        } == count_of(s, what) + if counts_as(v, what) {
            1nat
        } else {
            0nat
        },
    decreases s.len(),
{
    let t = s.update(i, v);
    if i == s.len() - 1 {
        assert(t.drop_last() =~= s.drop_last());
    } else {
        assert(t.drop_last() =~= s.drop_last().update(i, v));
        lemma_count_update(s.drop_last(), i, v, what);
    }
}

/// A count that holds a connection is not zero.
pub proof fn lemma_count_positive(s: Seq<Option<ConnectionInfo>>, i: int, what: Counted)
    requires
        0 <= i < s.len(),
        counts_as(s[i], what),
    ensures
        count_of(s, what) >= 1,
    decreases s.len(),
{
    if i < s.len() - 1 {
        lemma_count_positive(s.drop_last(), i, what);
    }
}

impl ConnectionPool {
    /// The connections by position.
    pub open spec fn slots(&self) -> Seq<Option<ConnectionInfo>> {
        self.connections.inner@
    }

    /// Whether the counts are those of the connections.
    pub open spec fn counts_ok(&self) -> bool {
        &&& self.peer_count_ws == count_of(self.slots(), Counted::Ws)
        &&& self.peer_count_wss == count_of(self.slots(), Counted::Wss)
        &&& self.peer_count_rtc == count_of(self.slots(), Counted::Rtc)
        &&& self.peer_count_dumb == count_of(self.slots(), Counted::Dumb)
        &&& self.peer_count_outbound == count_of(self.slots(), Counted::Outbound)
        &&& self.connecting_count == count_of(self.slots(), Counted::Connecting)
        &&& self.inbound_count == count_of(self.slots(), Counted::Inbound)
    }

    /// Whether the index by peer address is sound: no peer stands in it
    /// twice, and each entry names a connection of that peer.
    pub open spec fn peers_ok(&self) -> bool {
        &&& forall|k: int, l: int|
            0 <= k < l < self.connections_by_peer_address@.len() ==> !(
            #[trigger] self.connections_by_peer_address@[k]).address.names(
                (#[trigger] self.connections_by_peer_address@[l]).address,
            )
        &&& forall|k: int|
            0 <= k < self.connections_by_peer_address@.len() ==> #[trigger] peer_entry_ok(
                self.slots(),
                self.connections_by_peer_address@,
                k,
            )
    }

    /// Whether each established connection has a peer address and a
    /// connection of the transport.
    pub open spec fn established_ok(&self) -> bool {
        forall|id: int|
            0 <= id < self.slots().len() && (#[trigger] self.slots()[id]) is Some
                && self.slots()[id]->0.state == ConnectionState::Established
                ==> self.slots()[id]->0.peer_address is Some
                && self.slots()[id]->0.network_connection is Some
    }

    /// Whether the pool is sound: the counts are those of the connections,
    /// each entry of an index names a connection that belongs under it, and
    /// each connection stands in the indexes in which it belongs.
    pub open spec fn wf(&self) -> bool {
        &&& self.connections.wf()
        &&& self.counts_ok()
        &&& self.peers_ok()
        &&& self.established_ok()
        &&& net_index_ok(self.slots(), self.connections_by_net_address@, false)
        &&& net_index_ok(self.slots(), self.connections_by_subnet@, true)
        &&& all_listed(
            self.slots(),
            self.connections_by_peer_address@,
            self.connections_by_net_address@,
            self.connections_by_subnet@,
        )
    }

    /// A pool without connections, for a node with the given identity.
    pub fn new(own_peer_id: [u8; 16]) -> (r: ConnectionPool)
        ensures
            r.wf(),
            r.slots().len() == 0,
            r.allow_inbound_connections,
            !r.allow_inbound_exchange,
            r.banned_ips@.len() == 0,
            r.close_requests@.len() == 0,
            r.own_peer_id == own_peer_id,
    {
        ConnectionPool {
            connections: SparseVec::new(),
            connections_by_peer_address: Vec::new(),
            connections_by_net_address: Vec::new(),
            connections_by_subnet: Vec::new(),
            peer_count_ws: 0,
            peer_count_wss: 0,
            peer_count_rtc: 0,
            peer_count_dumb: 0,
            peer_count_outbound: 0,
            connecting_count: 0,
            inbound_count: 0,
            allow_inbound_connections: true,
            allow_inbound_exchange: false,
            banned_ips: Vec::new(),
            own_peer_id,
            close_requests: Vec::new(),
        }
    }

    /// Total peer count.
    pub fn peer_count(&self) -> (n: usize)
        requires
            self.wf(),
        ensures
            n == self.peer_count_ws + self.peer_count_wss + self.peer_count_rtc
                + self.peer_count_dumb,
            n == count_of(self.slots(), Counted::Ws) + count_of(self.slots(), Counted::Wss)
                + count_of(self.slots(), Counted::Rtc) + count_of(self.slots(), Counted::Dumb),
    {
        let len = self.connections.inner.len();
        proof {
            lemma_protocol_counts(self.slots());
            assert(self.slots().len() == len);
        }
        self.peer_count_ws + self.peer_count_wss + self.peer_count_rtc + self.peer_count_dumb
    }

    /// The position of a peer in the index by peer address.
    pub fn find_peer(&self, peer_address: &PeerAddress) -> (r: Option<usize>)
        ensures
            match r {
                Some(k) => k < self.connections_by_peer_address@.len()
                    && self.connections_by_peer_address@[k as int].address.names(*peer_address),
                None => forall|k: int|
                    0 <= k < self.connections_by_peer_address@.len() ==> !(
                    #[trigger] self.connections_by_peer_address@[k]).address.names(*peer_address),
            },
    {
        let mut k: usize = 0;
        while k < self.connections_by_peer_address.len()
            invariant
                k <= self.connections_by_peer_address@.len(),
                forall|l: int|
                    0 <= l < k ==> !(#[trigger] self.connections_by_peer_address@[l]).address.names(
                        *peer_address,
                    ),
            decreases self.connections_by_peer_address@.len() - k,
        {
            if self.connections_by_peer_address[k].address.same_peer(peer_address) {
                return Some(k);
            }
            k += 1;
        }
        None
    }

    /// Get the connection info for a peer address.
    pub fn get_connection_by_peer_address(&self, peer_address: &PeerAddress) -> (r: Option<
        &ConnectionInfo,
    >)
        requires
            self.wf(),
        ensures
            match r {
                Some(info) => exists|k: int|
                    0 <= k < self.connections_by_peer_address@.len() && (
                    #[trigger] self.connections_by_peer_address@[k]).address.names(*peer_address)
                        && self.slots()[self.connections_by_peer_address@[k].id as int] == Some(
                        *info,
                    ),
                None => forall|k: int|
                    0 <= k < self.connections_by_peer_address@.len() ==> !(
                    #[trigger] self.connections_by_peer_address@[k]).address.names(*peer_address),
            },
    {
        match self.find_peer(peer_address) {
            None => None,
            Some(k) => {
                proof {
                    assert(peer_entry_ok(self.slots(), self.connections_by_peer_address@, k as int));
                }
                self.connections.get(self.connections_by_peer_address[k].id)
            },
        }
    }

    /// Get the connection info for a peer address as a mutable borrow. What
    /// the caller writes through it takes the place of the connection.
    pub fn get_connection_by_peer_address_mut(&mut self, peer_address: &PeerAddress) -> (r: Option<
        &mut ConnectionInfo,
    >)
        requires
            old(self).wf(),
        ensures
            match r {
                Some(info) => exists|k: int|
                    0 <= k < old(self).connections_by_peer_address@.len() && (#[trigger] old(self).connections_by_peer_address@[k]).address.names(*peer_address) && old(self).slots()[old(self).connections_by_peer_address@[k].id as int] == Some(*info)
                        && final(self).slots() == old(self).slots().update(
                        old(self).connections_by_peer_address@[k].id as int,
                        Some(*final(info)),
                    ),
                None => final(self).slots() == old(self).slots() && forall|k: int|
                    0 <= k < old(self).connections_by_peer_address@.len() ==> !(#[trigger] old(self).connections_by_peer_address@[k]).address.names(*peer_address),
            },
    {
        match self.find_peer(peer_address) {
            None => None,
            Some(k) => {
                proof {
                    assert(peer_entry_ok(self.slots(), self.connections_by_peer_address@, k as int));
                }
                let id = self.connections_by_peer_address[k].id;
                self.connections.get_mut(id)
            },
        }
    }

    /// The connections that an index holds under an address, or `None` where
    /// it holds none.
    pub fn connections_under(
        &self,
        index: &Vec<NetIndexEntry>,
        address: &NetAddress,
        Ghost(by_subnet): Ghost<bool>,
    ) -> (r: Option<Vec<ConnectionInfo>>)
        requires
            net_index_ok(self.slots(), index@, by_subnet),
        ensures
            r is Some <==> entry_count(index@, *address) > 0,
            r is Some ==> r->0@.len() == entry_count(index@, *address),
            r is Some ==> forall|j: int|
                0 <= j < r->0@.len() ==> if by_subnet {
                    in_subnet(Some(#[trigger] r->0@[j]), *address)
                } else {
                    at_address(Some(r->0@[j]), *address)
                },
            match r {
                Some(found) => found@ == listed_under(self.slots(), index@, *address),
                None => listed_under(self.slots(), index@, *address).len() == 0,
            },
    {
        let mut found: Vec<ConnectionInfo> = Vec::new();
        let mut k: usize = 0;
        assert(index@.subrange(0, 0) =~= Seq::<NetIndexEntry>::empty());
        while k < index.len()
            invariant
                k <= index@.len(),
                net_index_ok(self.slots(), index@, by_subnet),
                found@.len() == entry_count(index@.subrange(0, k as int), *address),
                found@ == listed_under(self.slots(), index@.subrange(0, k as int), *address),
                forall|j: int|
                    0 <= j < found@.len() ==> if by_subnet {
                        in_subnet(Some(#[trigger] found@[j]), *address)
                    } else {
                        at_address(Some(found@[j]), *address)
                    },
            decreases index@.len() - k,
        {
            proof {
                assert(index@.subrange(0, k + 1).drop_last() =~= index@.subrange(0, k as int));
                assert(net_entry_ok(self.slots(), index@, by_subnet, k as int));
            }
            if index[k].address.same(address) {
                match self.connections.get(index[k].id) {
                    Some(info) => {
                        found.push(*info);
                    },
                    None => {},
                }
            }
            k += 1;
        }
        assert(index@.subrange(0, index@.len() as int) =~= index@);
        if found.len() == 0 {
            None
        } else {
            Some(found)
        }
    }

    /// How many entries of an index stand under an address.
    pub fn count_under(index: &Vec<NetIndexEntry>, address: &NetAddress) -> (n: usize)
        ensures
            n == entry_count(index@, *address),
    {
        let mut n: usize = 0;
        let mut k: usize = 0;
        assert(index@.subrange(0, 0) =~= Seq::<NetIndexEntry>::empty());
        while k < index.len()
            invariant
                k <= index@.len(),
                n <= k,
                n == entry_count(index@.subrange(0, k as int), *address),
            decreases index@.len() - k,
        {
            proof {
                assert(index@.subrange(0, k + 1).drop_last() =~= index@.subrange(0, k as int));
            }
            if index[k].address.same(address) {
                n += 1;
            }
            k += 1;
        }
        assert(index@.subrange(0, index@.len() as int) =~= index@);
        n
    }

    /// Get a list of connection info for a net address.
    pub fn get_connections_by_net_address(&self, net_address: &NetAddress) -> (r: Option<
        Vec<ConnectionInfo>,
    >)
        requires
            self.wf(),
        ensures
            r is Some <==> entry_count(self.connections_by_net_address@, *net_address) > 0,
            r is Some ==> r->0@.len() == entry_count(
                self.connections_by_net_address@,
                *net_address,
            ),
            r is Some ==> forall|j: int|
                0 <= j < r->0@.len() ==> at_address(Some(#[trigger] r->0@[j]), *net_address),
            match r {
                Some(found) => found@ == listed_under(
                    self.slots(),
                    self.connections_by_net_address@,
                    *net_address,
                ),
                None => listed_under(
                    self.slots(),
                    self.connections_by_net_address@,
                    *net_address,
                ).len() == 0,
            },
    {
        self.connections_under(&self.connections_by_net_address, net_address, Ghost(false))
    }

    /// Get the number of connections for a net address.
    pub fn get_num_connections_by_net_address(&self, net_address: &NetAddress) -> (n: usize)
        ensures
            n == entry_count(self.connections_by_net_address@, *net_address),
    {
        ConnectionPool::count_under(&self.connections_by_net_address, net_address)
    }

    /// Get a list of connection info for a subnet.
    pub fn get_connections_by_subnet(&self, net_address: &NetAddress) -> (r: Option<
        Vec<ConnectionInfo>,
    >)
        requires
            self.wf(),
        ensures
            r is Some <==> entry_count(
                self.connections_by_subnet@,
                subnet_address(*net_address),
            ) > 0,
            r is Some ==> r->0@.len() == entry_count(
                self.connections_by_subnet@,
                subnet_address(*net_address),
            ),
            r is Some ==> forall|j: int|
                0 <= j < r->0@.len() ==> in_subnet(
                    Some(#[trigger] r->0@[j]),
                    subnet_address(*net_address),
                ),
            match r {
                Some(found) => found@ == listed_under(
                    self.slots(),
                    self.connections_by_subnet@,
                    subnet_address(*net_address),
                ),
                None => listed_under(
                    self.slots(),
                    self.connections_by_subnet@,
                    subnet_address(*net_address),
                ).len() == 0,
            },
    {
        let subnet = ConnectionPool::get_subnet_address(net_address);
        self.connections_under(&self.connections_by_subnet, &subnet, Ghost(true))
    }

    /// Get the number of connections for a subnet.
    pub fn get_num_connections_by_subnet(&self, net_address: &NetAddress) -> (n: usize)
        ensures
            n == entry_count(self.connections_by_subnet@, subnet_address(*net_address)),
    {
        let subnet = ConnectionPool::get_subnet_address(net_address);
        ConnectionPool::count_under(&self.connections_by_subnet, &subnet)
    }

    /// Retrieve a list of connection info for all outbound connections into a subnet.
    pub fn get_outbound_connections_by_subnet(&self, net_address: &NetAddress) -> (r: Option<
        Vec<ConnectionInfo>,
    >)
        requires
            self.wf(),
        ensures
            r is Some <==> entry_count(
                self.connections_by_subnet@,
                subnet_address(*net_address),
            ) > 0,
            r is Some ==> r->0@.len() == outbound_count(
                self.slots(),
                self.connections_by_subnet@,
                subnet_address(*net_address),
            ),
            r is Some ==> forall|j: int|
                0 <= j < r->0@.len() ==> in_subnet(
                    Some(#[trigger] r->0@[j]),
                    subnet_address(*net_address),
                ) && !(r->0@[j]).network_connection->0.inbound,
            r is Some ==> r->0@ == outbound_under(
                self.slots(),
                self.connections_by_subnet@,
                subnet_address(*net_address),
            ),
    {
        let subnet = ConnectionPool::get_subnet_address(net_address);
        let index = &self.connections_by_subnet;
        let mut found: Vec<ConnectionInfo> = Vec::new();
        let mut any = false;
        let mut k: usize = 0;
        assert(index@.subrange(0, 0) =~= Seq::<NetIndexEntry>::empty());
        while k < index.len()
            invariant
                k <= index@.len(),
                index@ == self.connections_by_subnet@,
                net_index_ok(self.slots(), index@, true),
                any <==> entry_count(index@.subrange(0, k as int), subnet) > 0,
                found@.len() == outbound_count(self.slots(), index@.subrange(0, k as int), subnet),
                found@ == outbound_under(self.slots(), index@.subrange(0, k as int), subnet),
                forall|j: int|
                    0 <= j < found@.len() ==> in_subnet(Some(#[trigger] found@[j]), subnet) && !(
                    found@[j]).network_connection->0.inbound,
            decreases index@.len() - k,
        {
            proof {
                assert(index@.subrange(0, k + 1).drop_last() =~= index@.subrange(0, k as int));
                assert(net_entry_ok(self.slots(), index@, true, k as int));
            }
            if index[k].address.same(&subnet) {
                any = true;
                match self.connections.get(index[k].id) {
                    Some(info) => {
                        let outbound = match info.network_connection {
                            Some(network_connection) => network_connection.outbound(),
                            None => false,
                        };
                        if outbound {
                            found.push(*info);
                        }
                    },
                    None => {},
                }
            }
            k += 1;
        }
        assert(index@.subrange(0, index@.len() as int) =~= index@);
        if any {
            Some(found)
        } else {
            None
        }
    }

    /// Retrieve the number of connections for all outbound connections into a subnet.
    pub fn get_num_outbound_connections_by_subnet(&self, net_address: &NetAddress) -> (n: usize)
        requires
            self.wf(),
        ensures
            n == outbound_count(
                self.slots(),
                self.connections_by_subnet@,
                subnet_address(*net_address),
            ),
    {
        match self.get_outbound_connections_by_subnet(net_address) {
            Some(v) => v.len(),
            None => {
                proof {
                    lemma_outbound_bound(
                        self.slots(),
                        self.connections_by_subnet@,
                        subnet_address(*net_address),
                    );
                }
                0
            },
        }
    }

    /// Whether an address is banned.
    pub fn is_ip_banned(&self, net_address: &NetAddress) -> (b: bool)
        ensures
            b == (net_address.spec_is_reliable() && exists|k: int|
                0 <= k < self.banned_ips@.len() && (#[trigger] self.banned_ips@[k]).address
                    == *net_address),
    {
        if net_address.is_pseudo() {
            return false;
        }
        let mut k: usize = 0;
        while k < self.banned_ips.len()
            invariant
                k <= self.banned_ips@.len(),
                net_address.spec_is_reliable(),
                forall|l: int| 0 <= l < k ==> (#[trigger] self.banned_ips@[l]).address != *net_address,
            decreases self.banned_ips@.len() - k,
        {
            if self.banned_ips[k].address.same(net_address) {
                assert(self.banned_ips@[k as int].address == *net_address);
                return true;
            }
            k += 1;
        }
        false
    }

    /// Bans an IP address until the ban time after `now`, in seconds. An IPv6
    /// address is banned with its subnet of 64 bits.
    pub fn ban_ip(&mut self, net_address: &NetAddress, now: u64)
        ensures
            final(self).slots() == old(self).slots(),
            old(self).wf() ==> final(self).wf(),
            final(self).close_requests == old(self).close_requests,
            !net_address.spec_is_reliable() ==> final(self).banned_ips@ == old(self).banned_ips@,
            net_address.spec_is_reliable() ==> final(self).banned_ips@.len() >= 1 && final(self).banned_ips@.last() == (BanEntry {
                address: banned_address(*net_address),
                unban_time: ban_end(now),
            }) && forall|k: int|
                0 <= k < final(self).banned_ips@.len() - 1 ==> (#[trigger] final(self).banned_ips@[k]).address != banned_address(*net_address) && old(self).banned_ips@.contains(final(self).banned_ips@[k]),
            net_address.spec_is_reliable() ==> final(self).banned_ips@ == bans_without(
                old(self).banned_ips@,
                banned_address(*net_address),
            ).push(
                BanEntry { address: banned_address(*net_address), unban_time: ban_end(now) },
            ),
            forall|k: int|
                0 <= k < old(self).banned_ips@.len() && (#[trigger] old(self).banned_ips@[k]).address
                    != banned_address(*net_address) ==> final(self).banned_ips@.contains(
                    old(self).banned_ips@[k],
                ),
            final(self).connections == old(self).connections,
            final(self).connections_by_peer_address == old(self).connections_by_peer_address,
            final(self).connections_by_net_address == old(self).connections_by_net_address,
            final(self).connections_by_subnet == old(self).connections_by_subnet,
            final(self).allow_inbound_connections == old(self).allow_inbound_connections,
            final(self).allow_inbound_exchange == old(self).allow_inbound_exchange,
            final(self).own_peer_id == old(self).own_peer_id,
    {
        if net_address.is_reliable() {
            let banned = match net_address.get_type() {
                NetAddressType::IPv4 => *net_address,
                _ => net_address.subnet(64),
            };
            let unban_time = if now > u64::MAX - DEFAULT_BAN_TIME {
                u64::MAX
            } else {
                now + DEFAULT_BAN_TIME
            };
            let mut kept: Vec<BanEntry> = Vec::new();
            let mut k: usize = 0;
            assert(self.banned_ips@.subrange(0, 0) =~= Seq::<BanEntry>::empty());
            while k < self.banned_ips.len()
                invariant
                    k <= self.banned_ips@.len(),
                    self.banned_ips@ == old(self).banned_ips@,
                    kept@ == bans_without(self.banned_ips@.subrange(0, k as int), banned),
                    forall|l: int|
                        0 <= l < kept@.len() ==> (#[trigger] kept@[l]).address != banned && old(self).banned_ips@.contains(kept@[l]),
                decreases self.banned_ips@.len() - k,
            {
                proof {
                    assert(self.banned_ips@.subrange(0, k + 1).drop_last()
                        =~= self.banned_ips@.subrange(0, k as int));
                }
                if !self.banned_ips[k].address.same(&banned) {
                    kept.push(self.banned_ips[k]);
                }
                k += 1;
            }
            proof {
                let bans = old(self).banned_ips@;
                assert(bans.subrange(0, bans.len() as int) =~= bans);
                assert forall|l: int| 0 <= l < bans.len() && (#[trigger] bans[l]).address
                    != banned implies kept@.push(
                    BanEntry { address: banned, unban_time },
                ).contains(bans[l]) by {
                    lemma_bans_kept(bans, banned, l);
                    let j = choose|j: int| 0 <= j < kept@.len() && kept@[j] == bans[l];
                    assert(kept@.push(BanEntry { address: banned, unban_time })[j] == bans[l]);
                }
            }
            kept.push(BanEntry { address: banned, unban_time });
            self.banned_ips = kept;
        } else {
            proof {
                assert forall|l: int| 0 <= l < self.banned_ips@.len() implies self.banned_ips@.contains(
                    #[trigger] self.banned_ips@[l],
                ) by {}
            }
        }
    }

    /// Called to regularly unban IPs: the bans that have ended at `now` leave
    /// the list.
    pub fn check_unban_ips(&mut self, now: u64)
        ensures
            final(self).slots() == old(self).slots(),
            old(self).wf() ==> final(self).wf(),
            forall|k: int|
                0 <= k < final(self).banned_ips@.len() ==> (#[trigger] final(self).banned_ips@[k]).unban_time > now && old(self).banned_ips@.contains(
                    final(self).banned_ips@[k],
                ),
            forall|k: int|
                0 <= k < old(self).banned_ips@.len() && (#[trigger] old(self).banned_ips@[k]).unban_time > now ==> final(self).banned_ips@.contains(
                    old(self).banned_ips@[k],
                ),
    {
        let mut kept: Vec<BanEntry> = Vec::new();
        let mut k: usize = 0;
        while k < self.banned_ips.len()
            invariant
                k <= self.banned_ips@.len(),
                self.banned_ips@ == old(self).banned_ips@,
                forall|l: int|
                    0 <= l < kept@.len() ==> (#[trigger] kept@[l]).unban_time > now && old(self).banned_ips@.contains(kept@[l]),
                forall|l: int|
                    0 <= l < k && (#[trigger] old(self).banned_ips@[l]).unban_time > now
                        ==> kept@.contains(old(self).banned_ips@[l]),
            decreases self.banned_ips@.len() - k,
        {
            if self.banned_ips[k].unban_time > now {
                let ghost before = kept@;
                kept.push(self.banned_ips[k]);
                proof {
                    assert forall|l: int|
                        0 <= l < k + 1 && (#[trigger] old(self).banned_ips@[l]).unban_time
                            > now implies kept@.contains(old(self).banned_ips@[l]) by {
                        if l < k {
                            let at = choose|at: int|
                                0 <= at < before.len() && before[at] == old(self).banned_ips@[l];
                            assert(kept@[at] == old(self).banned_ips@[l]);
                        } else {
                            assert(kept@[kept@.len() - 1] == old(self).banned_ips@[l]);
                        }
                    }
                }
            }
            k += 1;
        }
        self.banned_ips = kept;
    }

    /// Updates the number of connected peers, and the other counts, after a
    /// change at one position.
    fn update_connected_peer_count(
        &mut self,
        was: Option<ConnectionInfo>,
        now: Option<ConnectionInfo>,
        Ghost(before): Ghost<Seq<Option<ConnectionInfo>>>,
        Ghost(id): Ghost<int>,
    )
        requires
            0 <= id < before.len(),
            before[id] == was,
            old(self).slots() == before.update(id, now),
            old(self).peer_count_ws == count_of(before, Counted::Ws),
            old(self).peer_count_wss == count_of(before, Counted::Wss),
            old(self).peer_count_rtc == count_of(before, Counted::Rtc),
            old(self).peer_count_dumb == count_of(before, Counted::Dumb),
            old(self).peer_count_outbound == count_of(before, Counted::Outbound),
            old(self).connecting_count == count_of(before, Counted::Connecting),
            old(self).inbound_count == count_of(before, Counted::Inbound),
        ensures
            final(self).counts_ok(),
            final(self).connections == old(self).connections,
            final(self).connections_by_peer_address == old(self).connections_by_peer_address,
            final(self).connections_by_net_address == old(self).connections_by_net_address,
            final(self).connections_by_subnet == old(self).connections_by_subnet,
            final(self).allow_inbound_connections == old(self).allow_inbound_connections,
            final(self).allow_inbound_exchange == old(self).allow_inbound_exchange,
            final(self).banned_ips == old(self).banned_ips,
            final(self).own_peer_id == old(self).own_peer_id,
            final(self).close_requests == old(self).close_requests,
    {
        let len = self.connections.inner.len();
        proof {
            let after = self.slots();
            lemma_count_update(before, id, now, Counted::Ws);
            lemma_count_update(before, id, now, Counted::Wss);
            lemma_count_update(before, id, now, Counted::Rtc);
            lemma_count_update(before, id, now, Counted::Dumb);
            lemma_count_update(before, id, now, Counted::Outbound);
            lemma_count_update(before, id, now, Counted::Connecting);
            lemma_count_update(before, id, now, Counted::Inbound);
            lemma_count_bound(after, Counted::Ws);
            lemma_count_bound(after, Counted::Wss);
            lemma_count_bound(after, Counted::Rtc);
            lemma_count_bound(after, Counted::Dumb);
            lemma_count_bound(after, Counted::Outbound);
            lemma_count_bound(after, Counted::Connecting);
            lemma_count_bound(after, Counted::Inbound);
            if counts_as(was, Counted::Ws) {
                lemma_count_positive(before, id, Counted::Ws);
            }
            if counts_as(was, Counted::Wss) {
                lemma_count_positive(before, id, Counted::Wss);
            }
            if counts_as(was, Counted::Rtc) {
                lemma_count_positive(before, id, Counted::Rtc);
            }
            if counts_as(was, Counted::Dumb) {
                lemma_count_positive(before, id, Counted::Dumb);
            }
            if counts_as(was, Counted::Outbound) {
                lemma_count_positive(before, id, Counted::Outbound);
            }
            if counts_as(was, Counted::Connecting) {
                lemma_count_positive(before, id, Counted::Connecting);
            }
            if counts_as(was, Counted::Inbound) {
                lemma_count_positive(before, id, Counted::Inbound);
            }
        }
        self.peer_count_ws = adjusted(
            self.peer_count_ws,
            counted(&was, Counted::Ws),
            counted(&now, Counted::Ws),
        );
        self.peer_count_wss = adjusted(
            self.peer_count_wss,
            counted(&was, Counted::Wss),
            counted(&now, Counted::Wss),
        );
        self.peer_count_rtc = adjusted(
            self.peer_count_rtc,
            counted(&was, Counted::Rtc),
            counted(&now, Counted::Rtc),
        );
        self.peer_count_dumb = adjusted(
            self.peer_count_dumb,
            counted(&was, Counted::Dumb),
            counted(&now, Counted::Dumb),
        );
        self.peer_count_outbound = adjusted(
            self.peer_count_outbound,
            counted(&was, Counted::Outbound),
            counted(&now, Counted::Outbound),
        );
        self.connecting_count = adjusted(
            self.connecting_count,
            counted(&was, Counted::Connecting),
            counted(&now, Counted::Connecting),
        );
        self.inbound_count = adjusted(
            self.inbound_count,
            counted(&was, Counted::Inbound),
            counted(&now, Counted::Inbound),
        );
    }

    /// Add a new connection to the connection pool. Its handshake is not
    /// done yet, and the pool holds no connection of its peer.
    pub fn add(&mut self, info: ConnectionInfo) -> (connection_id: usize)
        requires
            old(self).wf(),
            info.state != ConnectionState::Established,
            info.peer_address is Some ==> forall|k: int|
                0 <= k < old(self).connections_by_peer_address@.len() ==> !(#[trigger] old(self).connections_by_peer_address@[k]).address.names(info.peer_address->0),
        ensures
            final(self).wf(),
            connection_id == old(self).connections.next_index(),
            old(self).connections.entry(connection_id as int) is None,
            final(self).slots() == if connection_id < old(self).slots().len() {
                old(self).slots().update(connection_id as int, Some(info))
            } else {
                old(self).slots().push(Some(info))
            },
            final(self).connections_by_peer_address@ == if info.peer_address is Some {
                old(self).connections_by_peer_address@.push(
                    PeerIndexEntry { address: info.peer_address->0, id: connection_id },
                )
            } else {
                old(self).connections_by_peer_address@
            },
            final(self).connections_by_net_address == old(self).connections_by_net_address,
            final(self).connections_by_subnet == old(self).connections_by_subnet,
            final(self).allow_inbound_connections == old(self).allow_inbound_connections,
            final(self).allow_inbound_exchange == old(self).allow_inbound_exchange,
            final(self).banned_ips == old(self).banned_ips,
            final(self).own_peer_id == old(self).own_peer_id,
            final(self).close_requests == old(self).close_requests,
    {
        let ghost s0 = self.slots();
        let ghost peers0 = self.connections_by_peer_address@;
        let connection_id = self.connections.insert(info);
        // Add to peer address map if available.
        if let Some(peer_address) = info.peer_address {
            self.connections_by_peer_address.push(
                PeerIndexEntry { address: peer_address, id: connection_id },
            );
        }
        let ghost before = if connection_id < s0.len() {
            s0
        } else {
            s0.push(None)
        };
        proof {
            lemma_count_push(s0, None, Counted::Ws);
            lemma_count_push(s0, None, Counted::Wss);
            lemma_count_push(s0, None, Counted::Rtc);
            lemma_count_push(s0, None, Counted::Dumb);
            lemma_count_push(s0, None, Counted::Outbound);
            lemma_count_push(s0, None, Counted::Connecting);
            lemma_count_push(s0, None, Counted::Inbound);
            assert(self.slots() =~= before.update(connection_id as int, Some(info)));
        }
        self.update_connected_peer_count(None, Some(info), Ghost(before), Ghost(connection_id as int));
        proof {
            let s1 = self.slots();
            let peers1 = self.connections_by_peer_address@;
            assert forall|k: int| 0 <= k < peers1.len() implies #[trigger] peer_entry_ok(
                s1,
                peers1,
                k,
            ) by {
                if k < peers0.len() {
                    assert(peer_entry_ok(s0, peers0, k));
                }
            }
            assert forall|k: int| 0 <= k < self.connections_by_net_address@.len() implies #[trigger]
                net_entry_ok(s1, self.connections_by_net_address@, false, k) by {
                assert(net_entry_ok(s0, self.connections_by_net_address@, false, k));
            }
            if info.peer_address is Some {
                assert(peers1[peers1.len() - 1].id == connection_id);
            }
            lemma_listed_grown(
                s0,
                s1,
                peers0,
                peers1,
                self.connections_by_net_address@,
                self.connections_by_net_address@,
                self.connections_by_subnet@,
                self.connections_by_subnet@,
                connection_id as int,
            );
            assert forall|k: int| 0 <= k < self.connections_by_subnet@.len() implies #[trigger]
                net_entry_ok(s1, self.connections_by_subnet@, true, k) by {
                assert(net_entry_ok(s0, self.connections_by_subnet@, true, k));
            }
            assert forall|id: int|
                0 <= id < s1.len() && (#[trigger] s1[id]) is Some && s1[id]->0.state
                    == ConnectionState::Established implies s1[id]->0.peer_address is Some
                && s1[id]->0.network_connection is Some by {
                if id != connection_id {
                    assert(s0[id] is Some);
                }
            }
        }
        connection_id
    }

    /// Puts another connection in the place of one whose handshake is not
    /// done. The peer address can be set but not changed. Where the new
    /// connection is established, it has a peer address and a connection of
    /// the transport, and it goes under its net address and its subnet.
    pub fn replace(&mut self, connection_id: usize, info: ConnectionInfo)
        requires
            old(self).wf(),
            connection_id < old(self).slots().len(),
            old(self).slots()[connection_id as int] is Some,
            old(self).slots()[connection_id as int]->0.state != ConnectionState::Established,
            old(self).slots()[connection_id as int]->0.peer_address is Some ==> info.peer_address
                == old(self).slots()[connection_id as int]->0.peer_address,
            old(self).slots()[connection_id as int]->0.peer_address is None && info.peer_address
                is Some ==> forall|k: int|
                0 <= k < old(self).connections_by_peer_address@.len() ==> !(#[trigger] old(self).connections_by_peer_address@[k]).address.names(info.peer_address->0),
            info.state == ConnectionState::Established ==> info.peer_address is Some
                && info.network_connection is Some,
        ensures
            final(self).wf(),
            final(self).slots() == old(self).slots().update(connection_id as int, Some(info)),
            final(self).allow_inbound_connections == old(self).allow_inbound_connections,
            final(self).allow_inbound_exchange == old(self).allow_inbound_exchange,
            final(self).banned_ips == old(self).banned_ips,
            final(self).own_peer_id == old(self).own_peer_id,
            final(self).close_requests == old(self).close_requests,
            final(self).connections_by_peer_address@ == if old(self).slots()[connection_id as int]->0.peer_address is None && info.peer_address is Some {
                old(self).connections_by_peer_address@.push(
                    PeerIndexEntry { address: info.peer_address->0, id: connection_id },
                )
            } else {
                old(self).connections_by_peer_address@
            },
            final(self).connections_by_net_address@ == if at_address(
                Some(info),
                info.network_connection->0.net_address,
            ) {
                old(self).connections_by_net_address@.push(
                    NetIndexEntry {
                        address: info.network_connection->0.net_address,
                        id: connection_id,
                    },
                )
            } else {
                old(self).connections_by_net_address@
            },
            final(self).connections_by_subnet@ == if at_address(
                Some(info),
                info.network_connection->0.net_address,
            ) {
                old(self).connections_by_subnet@.push(
                    NetIndexEntry {
                        address: subnet_address(info.network_connection->0.net_address),
                        id: connection_id,
                    },
                )
            } else {
                old(self).connections_by_subnet@
            },
    {
        let ghost s0 = self.slots();
        let ghost peers0 = self.connections_by_peer_address@;
        let ghost nets0 = self.connections_by_net_address@;
        let ghost subnets0 = self.connections_by_subnet@;
        let was = self.connections.inner[connection_id];
        self.connections.inner[connection_id] = Some(info);
        match (was, info.peer_address) {
            (Some(old_info), Some(peer_address)) => {
                if old_info.peer_address.is_none() {
                    self.add_peer_address(connection_id, peer_address);
                }
            },
            _ => {},
        }
        if info.is_established() {
            match info.network_connection {
                Some(network_connection) => {
                    self.add_net_address(connection_id, &network_connection.net_address);
                },
                None => {},
            }
        }
        self.update_connected_peer_count(was, Some(info), Ghost(s0), Ghost(connection_id as int));
        proof {
            let s1 = self.slots();
            let peers1 = self.connections_by_peer_address@;
            let nets1 = self.connections_by_net_address@;
            let subnets1 = self.connections_by_subnet@;
            assert forall|k: int| 0 <= k < peers1.len() implies #[trigger] peer_entry_ok(
                s1,
                peers1,
                k,
            ) by {
                if k < peers0.len() {
                    assert(peer_entry_ok(s0, peers0, k));
                }
            }
            assert forall|k: int| 0 <= k < nets1.len() implies #[trigger] net_entry_ok(
                s1,
                nets1,
                false,
                k,
            ) by {
                if k < nets0.len() {
                    assert(net_entry_ok(s0, nets0, false, k));
                }
            }
            assert forall|k: int| 0 <= k < subnets1.len() implies #[trigger] net_entry_ok(
                s1,
                subnets1,
                true,
                k,
            ) by {
                if k < subnets0.len() {
                    assert(net_entry_ok(s0, subnets0, true, k));
                }
            }
            assert forall|id: int|
                0 <= id < s1.len() && (#[trigger] s1[id]) is Some && s1[id]->0.state
                    == ConnectionState::Established implies s1[id]->0.peer_address is Some
                && s1[id]->0.network_connection is Some by {
                if id != connection_id {
                    assert(s0[id] is Some);
                }
            }
            assert(self.connections.wf()) by {
                assert forall|i: int|
                    0 <= i < s1.len() && (#[trigger] s1[i]) is None implies self.connections.free_indices@.contains(
                    i as usize,
                ) by {
                    assert(s0[i] is None);
                }
            }
            assert(peer_listed(s1, peers1, connection_id as int)) by {
                if info.peer_address is Some {
                    if s0[connection_id as int]->0.peer_address is Some {
                        assert(peer_listed(s0, peers0, connection_id as int));
                        let k = choose|k: int|
                            0 <= k < peers0.len() && (#[trigger] peers0[k]).id == connection_id;
                        assert(peers1[k].id == connection_id);
                    } else {
                        assert(peers1[peers1.len() - 1].id == connection_id);
                    }
                }
            }
            assert(net_listed(s1, nets1, false, connection_id as int)) by {
                if at_address(Some(info), info.network_connection->0.net_address) {
                    assert(nets1[nets1.len() - 1].id == connection_id);
                }
            }
            assert(net_listed(s1, subnets1, true, connection_id as int)) by {
                if at_address(Some(info), info.network_connection->0.net_address) {
                    assert(subnets1[subnets1.len() - 1].id == connection_id);
                }
            }
            lemma_listed_grown(
                s0,
                s1,
                peers0,
                peers1,
                nets0,
                nets1,
                subnets0,
                subnets1,
                connection_id as int,
            );
        }
    }

    /// Takes a peer address out of the index by peer address.
    fn remove_peer_address(&mut self, peer_address: &PeerAddress)
        requires
            old(self).peers_ok(),
        ensures
            final(self).peers_ok(),
            final(self).connections_by_peer_address@ == peers_without(
                old(self).connections_by_peer_address@,
                *peer_address,
            ),
            forall|k: int|
                0 <= k < final(self).connections_by_peer_address@.len() ==> !(#[trigger] final(self).connections_by_peer_address@[k]).address.names(*peer_address),
            final(self).connections == old(self).connections,
            final(self).connections_by_net_address == old(self).connections_by_net_address,
            final(self).connections_by_subnet == old(self).connections_by_subnet,
            final(self).peer_count_ws == old(self).peer_count_ws,
            final(self).peer_count_wss == old(self).peer_count_wss,
            final(self).peer_count_rtc == old(self).peer_count_rtc,
            final(self).peer_count_dumb == old(self).peer_count_dumb,
            final(self).peer_count_outbound == old(self).peer_count_outbound,
            final(self).connecting_count == old(self).connecting_count,
            final(self).inbound_count == old(self).inbound_count,
            final(self).allow_inbound_connections == old(self).allow_inbound_connections,
            final(self).allow_inbound_exchange == old(self).allow_inbound_exchange,
            final(self).banned_ips == old(self).banned_ips,
            final(self).own_peer_id == old(self).own_peer_id,
            final(self).close_requests == old(self).close_requests,
    {
        let ghost peers0 = self.connections_by_peer_address@;
        let ghost slots = self.slots();
        match self.find_peer(peer_address) {
            None => {},
            Some(k) => {
                self.connections_by_peer_address.remove(k);
                proof {
                    let peers1 = self.connections_by_peer_address@;
                    let l = choose|l: int|
                        0 <= l < peers0.len() && (#[trigger] peers0[l]).address.names(
                            *peer_address,
                        );
                    if l < k {
                        assert(!peers0[l].address.names(peers0[k as int].address));
                    } else if k < l {
                        assert(!peers0[k as int].address.names(peers0[l].address));
                    }
                    assert(peers1 == peers0.remove(k as int));
                    assert(self.slots() == slots);
                    assert forall|i: int| 0 <= i < peers1.len() implies peers1[i] == if i < k {
                        peers0[i]
                    } else {
                        peers0[i + 1]
                    } by {}
                    assert forall|i: int| 0 <= i < peers1.len() implies #[trigger] peer_entry_ok(
                        slots,
                        peers1,
                        i,
                    ) by {
                        if i < k {
                            assert(peer_entry_ok(slots, peers0, i));
                        } else {
                            assert(peer_entry_ok(slots, peers0, i + 1));
                        }
                    }
                    assert forall|i: int| 0 <= i < peers1.len() implies !(
                    #[trigger] peers1[i]).address.names(*peer_address) by {
                        let j = if i < k {
                            i
                        } else {
                            i + 1
                        };
                        assert(peers1[i] == peers0[j]);
                        if j < k {
                            assert(!peers0[j].address.names(peers0[k as int].address));
                        } else {
                            assert(!peers0[k as int].address.names(peers0[j].address));
                        }
                    }
                    assert forall|i: int, l: int| 0 <= i < l < peers1.len() implies !(
                    #[trigger] peers1[i]).address.names((#[trigger] peers1[l]).address) by {
                        let a = if i < k {
                            i
                        } else {
                            i + 1
                        };
                        let b = if l < k {
                            l
                        } else {
                            l + 1
                        };
                        assert(!peers0[a].address.names(peers0[b].address));
                    }
                }
            },
        }
    }

    /// Takes the entries of a connection under an address out of an index.
    fn remove_from_index(
        index: &mut Vec<NetIndexEntry>,
        connection_id: usize,
        address: &NetAddress,
        Ghost(s): Ghost<Seq<Option<ConnectionInfo>>>,
        Ghost(by_subnet): Ghost<bool>,
    )
        requires
            net_index_ok(s, old(index)@, by_subnet),
        ensures
            final(index)@ == net_without(old(index)@, *address, connection_id),
            net_index_ok(s, final(index)@, by_subnet),
            forall|k: int|
                0 <= k < final(index)@.len() ==> !((#[trigger] final(index)@[k]).address
                    == *address && final(index)@[k].id == connection_id),
    {
        let mut kept: Vec<NetIndexEntry> = Vec::new();
        let mut k: usize = 0;
        assert(index@.subrange(0, 0) =~= Seq::<NetIndexEntry>::empty());
        while k < index.len()
            invariant
                k <= index@.len(),
                index@ == old(index)@,
                net_index_ok(s, index@, by_subnet),
                kept@ == net_without(index@.subrange(0, k as int), *address, connection_id),
                net_index_ok(s, kept@, by_subnet),
                forall|l: int|
                    0 <= l < kept@.len() ==> !((#[trigger] kept@[l]).address == *address
                        && kept@[l].id == connection_id),
            decreases index@.len() - k,
        {
            proof {
                assert(index@.subrange(0, k + 1).drop_last() =~= index@.subrange(0, k as int));
                assert(net_entry_ok(s, index@, by_subnet, k as int));
            }
            if !(index[k].id == connection_id && index[k].address.same(address)) {
                let ghost before = kept@;
                kept.push(index[k]);
                proof {
                    assert forall|l: int| 0 <= l < kept@.len() implies #[trigger] net_entry_ok(
                        s,
                        kept@,
                        by_subnet,
                        l,
                    ) by {
                        if l < before.len() {
                            assert(net_entry_ok(s, before, by_subnet, l));
                        }
                    }
                }
            }
            k += 1;
        }
        assert(index@.subrange(0, index@.len() as int) =~= index@);
        *index = kept;
    }

    /// Removes the connection from net address specific maps.
    fn remove_net_address(&mut self, connection_id: usize, net_address: &NetAddress)
        requires
            net_index_ok(old(self).slots(), old(self).connections_by_net_address@, false),
            net_index_ok(old(self).slots(), old(self).connections_by_subnet@, true),
        ensures
            net_index_ok(final(self).slots(), final(self).connections_by_net_address@, false),
            net_index_ok(final(self).slots(), final(self).connections_by_subnet@, true),
            final(self).connections_by_net_address@ == nets_without(
                old(self).connections_by_net_address@,
                *net_address,
                connection_id,
            ),
            final(self).connections_by_subnet@ == subnets_without(
                old(self).connections_by_subnet@,
                *net_address,
                connection_id,
            ),
            net_address.spec_is_reliable() ==> forall|k: int|
                0 <= k < final(self).connections_by_net_address@.len() ==> !((#[trigger] final(self).connections_by_net_address@[k]).address == *net_address && final(self).connections_by_net_address@[k].id == connection_id),
            net_address.spec_is_reliable() ==> forall|k: int|
                0 <= k < final(self).connections_by_subnet@.len() ==> !((#[trigger] final(self).connections_by_subnet@[k]).address == subnet_address(*net_address) && final(self).connections_by_subnet@[k].id == connection_id),
            final(self).connections == old(self).connections,
            final(self).connections_by_peer_address == old(self).connections_by_peer_address,
            final(self).peer_count_ws == old(self).peer_count_ws,
            final(self).peer_count_wss == old(self).peer_count_wss,
            final(self).peer_count_rtc == old(self).peer_count_rtc,
            final(self).peer_count_dumb == old(self).peer_count_dumb,
            final(self).peer_count_outbound == old(self).peer_count_outbound,
            final(self).connecting_count == old(self).connecting_count,
            final(self).inbound_count == old(self).inbound_count,
            final(self).allow_inbound_connections == old(self).allow_inbound_connections,
            final(self).allow_inbound_exchange == old(self).allow_inbound_exchange,
            final(self).banned_ips == old(self).banned_ips,
            final(self).own_peer_id == old(self).own_peer_id,
            final(self).close_requests == old(self).close_requests,
    {
        // Only add reliable netAddresses.
        if !net_address.is_reliable() {
            return;
        }
        let ghost s = self.slots();
        ConnectionPool::remove_from_index(
            &mut self.connections_by_net_address,
            connection_id,
            net_address,
            Ghost(s),
            Ghost(false),
        );
        let subnet_address = ConnectionPool::get_subnet_address(net_address);
        ConnectionPool::remove_from_index(
            &mut self.connections_by_subnet,
            connection_id,
            &subnet_address,
            Ghost(s),
            Ghost(true),
        );
    }

    /// Remove a connection from the connection pool.
    pub fn remove(&mut self, connection_id: usize) -> (info: ConnectionInfo)
        requires
            old(self).wf(),
            old(self).connections.entry(connection_id as int) is Some,
        ensures
            final(self).wf(),
            Some(info) == old(self).connections.entry(connection_id as int),
            final(self).slots() == old(self).slots().update(connection_id as int, None),
            final(self).connections_by_peer_address@ == peers_after_removal(
                *old(self),
                connection_id as int,
            ),
            final(self).connections_by_net_address@ == nets_after_removal(
                *old(self),
                connection_id as int,
            ),
            final(self).connections_by_subnet@ == subnets_after_removal(
                *old(self),
                connection_id as int,
            ),
            final(self).allow_inbound_connections == old(self).allow_inbound_connections,
            final(self).allow_inbound_exchange == old(self).allow_inbound_exchange,
            final(self).banned_ips == old(self).banned_ips,
            final(self).own_peer_id == old(self).own_peer_id,
            final(self).close_requests == old(self).close_requests,
            info.peer_address is Some ==> forall|k: int|
                0 <= k < final(self).connections_by_peer_address@.len() ==> !(#[trigger] final(self).connections_by_peer_address@[k]).address.names(info.peer_address->0),
    {
        let ghost s0 = self.slots();
        let info = self.connections.inner[connection_id].unwrap();
        if let Some(peer_address) = info.peer_address {
            self.remove_peer_address(&peer_address);
        }
        assert(self.peers_ok() && self.slots() == s0);
        if let Some(network_connection) = info.network_connection {
            self.remove_net_address(connection_id, &network_connection.net_address);
        }
        let ghost peers1 = self.connections_by_peer_address@;
        let ghost nets1 = self.connections_by_net_address@;
        let ghost subnets1 = self.connections_by_subnet@;
        let removed = self.connections.remove(connection_id);
        self.update_connected_peer_count(Some(info), None, Ghost(s0), Ghost(connection_id as int));
        proof {
            lemma_peers_listed_removed(s0, old(self).connections_by_peer_address@, connection_id as int);
            lemma_nets_listed_removed(
                s0,
                old(self).connections_by_net_address@,
                nets1,
                false,
                info.network_connection->0.net_address,
                connection_id,
            );
            lemma_nets_listed_removed(
                s0,
                old(self).connections_by_subnet@,
                subnets1,
                true,
                subnet_address(info.network_connection->0.net_address),
                connection_id,
            );
            let s1 = self.slots();
            assert(self.connections_by_peer_address@ == peers_less(
                old(self).connections_by_peer_address@,
                info.peer_address,
            ));
            assert(s1 == s0.update(connection_id as int, None));
            assert forall|k: int| 0 <= k < peers1.len() implies #[trigger] peer_entry_ok(
                s1,
                peers1,
                k,
            ) by {
                assert(peer_entry_ok(s0, peers1, k));
                if peers1[k].id == connection_id {
                    assert(info.peer_address->0.names(peers1[k].address));
                    assert(peers1[k].address.names(info.peer_address->0));
                }
            }
            assert forall|k: int| 0 <= k < nets1.len() implies #[trigger] net_entry_ok(
                s1,
                nets1,
                false,
                k,
            ) by {
                assert(net_entry_ok(s0, nets1, false, k));
            }
            assert forall|k: int| 0 <= k < subnets1.len() implies #[trigger] net_entry_ok(
                s1,
                subnets1,
                true,
                k,
            ) by {
                assert(net_entry_ok(s0, subnets1, true, k));
            }
            assert forall|id: int|
                0 <= id < s1.len() && (#[trigger] s1[id]) is Some && s1[id]->0.state
                    == ConnectionState::Established implies s1[id]->0.peer_address is Some
                && s1[id]->0.network_connection is Some by {
                assert(s0[id] is Some);
            }
        }
        info
    }

    /// Enters the connection of a peer into the index by peer address.
    fn add_peer_address(&mut self, connection_id: usize, peer_address: PeerAddress)
        ensures
            final(self).connections_by_peer_address@ == old(self).connections_by_peer_address@.push(
                PeerIndexEntry { address: peer_address, id: connection_id },
            ),
            final(self).connections == old(self).connections,
            final(self).connections_by_net_address == old(self).connections_by_net_address,
            final(self).connections_by_subnet == old(self).connections_by_subnet,
            final(self).peer_count_ws == old(self).peer_count_ws,
            final(self).peer_count_wss == old(self).peer_count_wss,
            final(self).peer_count_rtc == old(self).peer_count_rtc,
            final(self).peer_count_dumb == old(self).peer_count_dumb,
            final(self).peer_count_outbound == old(self).peer_count_outbound,
            final(self).connecting_count == old(self).connecting_count,
            final(self).inbound_count == old(self).inbound_count,
            final(self).allow_inbound_connections == old(self).allow_inbound_connections,
            final(self).allow_inbound_exchange == old(self).allow_inbound_exchange,
            final(self).banned_ips == old(self).banned_ips,
            final(self).own_peer_id == old(self).own_peer_id,
            final(self).close_requests == old(self).close_requests,
    {
        // Add to peer address map.
        self.connections_by_peer_address.push(
            PeerIndexEntry { address: peer_address, id: connection_id },
        );
    }

    /// Adds the net address to a connection: the connection goes under the
    /// address and under its subnet, where the address is an IP address.
    fn add_net_address(&mut self, connection_id: usize, net_address: &NetAddress)
        ensures
            final(self).connections_by_net_address@ == if net_address.spec_is_reliable() {
                old(self).connections_by_net_address@.push(
                    NetIndexEntry { address: *net_address, id: connection_id },
                )
            } else {
                old(self).connections_by_net_address@
            },
            final(self).connections_by_subnet@ == if net_address.spec_is_reliable() {
                old(self).connections_by_subnet@.push(
                    NetIndexEntry { address: subnet_address(*net_address), id: connection_id },
                )
            } else {
                old(self).connections_by_subnet@
            },
            final(self).connections == old(self).connections,
            final(self).connections_by_peer_address == old(self).connections_by_peer_address,
            final(self).peer_count_ws == old(self).peer_count_ws,
            final(self).peer_count_wss == old(self).peer_count_wss,
            final(self).peer_count_rtc == old(self).peer_count_rtc,
            final(self).peer_count_dumb == old(self).peer_count_dumb,
            final(self).peer_count_outbound == old(self).peer_count_outbound,
            final(self).connecting_count == old(self).connecting_count,
            final(self).inbound_count == old(self).inbound_count,
            final(self).allow_inbound_connections == old(self).allow_inbound_connections,
            final(self).allow_inbound_exchange == old(self).allow_inbound_exchange,
            final(self).banned_ips == old(self).banned_ips,
            final(self).own_peer_id == old(self).own_peer_id,
            final(self).close_requests == old(self).close_requests,
    {
        // Only add reliable netAddresses.
        if !net_address.is_reliable() {
            return;
        }
        self.connections_by_net_address.push(
            NetIndexEntry { address: *net_address, id: connection_id },
        );
        let subnet_address = ConnectionPool::get_subnet_address(net_address);
        self.connections_by_subnet.push(NetIndexEntry { address: subnet_address, id: connection_id });
    }

    /// Close a connection: where it runs over a connection of the transport,
    /// the transport is asked to close that.
    pub fn close(&mut self, connection_id: usize, ty: CloseType)
        ensures
            final(self).close_requests@ == match old(self).connections.entry(
                connection_id as int,
            ) {
                Some(info) => match info.network_connection {
                    Some(connection) => old(self).close_requests@.push(
                        CloseRequest { connection, ty },
                    ),
                    None => old(self).close_requests@,
                },
                None => old(self).close_requests@,
            },
            final(self).connections == old(self).connections,
            final(self).connections_by_peer_address == old(self).connections_by_peer_address,
            final(self).connections_by_net_address == old(self).connections_by_net_address,
            final(self).connections_by_subnet == old(self).connections_by_subnet,
            final(self).peer_count_ws == old(self).peer_count_ws,
            final(self).peer_count_wss == old(self).peer_count_wss,
            final(self).peer_count_rtc == old(self).peer_count_rtc,
            final(self).peer_count_dumb == old(self).peer_count_dumb,
            final(self).peer_count_outbound == old(self).peer_count_outbound,
            final(self).connecting_count == old(self).connecting_count,
            final(self).inbound_count == old(self).inbound_count,
            final(self).allow_inbound_connections == old(self).allow_inbound_connections,
            final(self).allow_inbound_exchange == old(self).allow_inbound_exchange,
            final(self).banned_ips == old(self).banned_ips,
            final(self).own_peer_id == old(self).own_peer_id,
    {
        let connection = match self.connections.get(connection_id) {
            Some(info) => info.network_connection,
            None => None,
        };
        if let Some(connection) = connection {
            self.close_requests.push(CloseRequest { connection, ty });
        }
    }

    /// Hands out the requests to close connections that have gathered.
    pub fn take_close_requests(&mut self) -> (requests: Vec<CloseRequest>)
        ensures
            requests == old(self).close_requests,
            final(self).close_requests@.len() == 0,
            final(self).slots() == old(self).slots(),
            old(self).wf() ==> final(self).wf(),
    {
        let mut requests: Vec<CloseRequest> = Vec::new();
        std::mem::swap(&mut requests, &mut self.close_requests);
        requests
    }

    /// Check the validity of a outbound connection request (e.g. no duplicate connections).
    pub fn check_outbound_connection_request(&self, peer_address: &PeerAddress) -> (b: bool)
        requires
            self.wf(),
        ensures
            b == outbound_allowed(*self, *peer_address),
    {
        match peer_address.protocol() {
            Protocol::Wss => {},
            Protocol::Ws => {},
            _ => {
                return false;
            },
        }
        if self.is_ip_banned(&peer_address.net_address) {
            return false;
        }
        if self.find_peer(peer_address).is_some() {
            return false;
        }
        // Forbid connection if we have too many connections to the peer's IP address.
        if peer_address.net_address.is_reliable() {
            if self.get_num_connections_by_net_address(&peer_address.net_address)
                >= PEER_COUNT_PER_IP_MAX {
                return false;
            }
            if self.get_num_outbound_connections_by_subnet(&peer_address.net_address)
                >= OUTBOUND_PEER_COUNT_PER_SUBNET_MAX {
                return false;
            }
        }
        true
    }

    /// Initiates a outbound connection.
    pub fn connect_outbound(&mut self, peer_address: &PeerAddress) -> (b: bool)
        requires
            old(self).wf(),
        ensures
            final(self).wf(),
            b == outbound_allowed(*old(self), *peer_address),
            !b ==> *final(self) == *old(self),
            b ==> final(self).slots() == (if old(self).connections.next_index() < old(self).slots().len() {
                old(self).slots().update(
                    old(self).connections.next_index(),
                    Some(outbound_info(*peer_address)),
                )
            } else {
                old(self).slots().push(Some(outbound_info(*peer_address)))
            }) && final(self).connecting_count == old(self).connecting_count + 1,
            b ==> final(self).connections_by_peer_address@ == old(self).connections_by_peer_address@.push(
                PeerIndexEntry {
                    address: *peer_address,
                    id: old(self).connections.next_index() as usize,
                },
            ),
            final(self).connections_by_net_address == old(self).connections_by_net_address,
            final(self).connections_by_subnet == old(self).connections_by_subnet,
            final(self).banned_ips == old(self).banned_ips,
            final(self).close_requests == old(self).close_requests,
    {
        // All checks in one step.
        if !self.check_outbound_connection_request(peer_address) {
            return false;
        }
        // Connection request accepted.
        // Create fresh ConnectionInfo instance.
        let ghost s0 = self.slots();
        let connection_id = self.add(ConnectionInfo::outbound(*peer_address));
        proof {
            let info = Some(outbound_info(*peer_address));
            if connection_id < s0.len() {
                lemma_count_update(s0, connection_id as int, info, Counted::Connecting);
            } else {
                lemma_count_push(s0, info, Counted::Connecting);
            }
        }
        true
    }

    /// Checks the validity of a connection. Where it is not valid, the
    /// transport is asked to close it.
    pub fn check_connection(&mut self, connection_id: usize) -> (b: bool)
        requires
            old(self).wf(),
            old(self).connections.entry(connection_id as int) is Some,
            old(self).connections.entry(connection_id as int)->0.network_connection is Some,
        ensures
            final(self).wf(),
            final(self).slots() == old(self).slots(),
            final(self).banned_ips == old(self).banned_ips,
            b == (connection_verdict(*old(self), connection_id as int) is None),
            final(self).close_requests@ == match connection_verdict(
                *old(self),
                connection_id as int,
            ) {
                Some(ty) => old(self).close_requests@.push(
                    CloseRequest {
                        connection: old(self).slots()[connection_id as int]->0.network_connection->0,
                        ty,
                    },
                ),
                None => old(self).close_requests@,
            },
            final(self).connections == old(self).connections,
            final(self).connections_by_peer_address == old(self).connections_by_peer_address,
            final(self).connections_by_net_address == old(self).connections_by_net_address,
            final(self).connections_by_subnet == old(self).connections_by_subnet,
            final(self).peer_count_ws == old(self).peer_count_ws,
            final(self).peer_count_wss == old(self).peer_count_wss,
            final(self).peer_count_rtc == old(self).peer_count_rtc,
            final(self).peer_count_dumb == old(self).peer_count_dumb,
            final(self).peer_count_outbound == old(self).peer_count_outbound,
            final(self).connecting_count == old(self).connecting_count,
            final(self).inbound_count == old(self).inbound_count,
            final(self).allow_inbound_connections == old(self).allow_inbound_connections,
            final(self).allow_inbound_exchange == old(self).allow_inbound_exchange,
            final(self).own_peer_id == old(self).own_peer_id,
    {
        let conn = self.connections.inner[connection_id].unwrap().network_connection.unwrap();
        // Close connection if we currently do not allow inbound connections.
        if conn.inbound() && !self.allow_inbound_connections {
            self.close(connection_id, CloseType::InboundConnectionsBlocked);
            return false;
        }
        let net_address = conn.net_address;
        if net_address.is_reliable() {
            // Close connection if peer's IP is banned.
            if self.is_ip_banned(&net_address) {
                self.close(connection_id, CloseType::BannedIp);
                return false;
            }
            // Close connection if we have too many connections to the peer's IP address.
            if self.get_num_connections_by_net_address(&net_address) > PEER_COUNT_PER_IP_MAX {
                self.close(connection_id, CloseType::ConnectionLimitPerIp);
                return false;
            }
            // Close connection if we have too many connections to the peer's subnet.
            if self.get_num_connections_by_subnet(&net_address)
                > INBOUND_PEER_COUNT_PER_SUBNET_MAX {
                self.close(connection_id, CloseType::ConnectionLimitPerIp);
                return false;
            }
        }
        // Reject peer if we have reached max peer count.
        // There are two exceptions to this: outbound connections
        // and inbound connections with inbound exchange set.
        if self.peer_count() >= PEER_COUNT_MAX && conn.inbound() && !self.allow_inbound_exchange {
            self.close(connection_id, CloseType::MaxPeerCountReached);
            return false;
        }
        true
    }

    /// Callback upon connection establishment. A connection that this node
    /// opened takes its place in the pool; one that a peer opened is added.
    /// Then the connection is checked.
    pub fn on_connection(&mut self, connection: NetworkConnection) -> (connection_id: usize)
        requires
            old(self).wf(),
            !connection.inbound ==> connection.peer_address is Some && exists|k: int|
                0 <= k < old(self).connections_by_peer_address@.len() && (#[trigger] old(self).connections_by_peer_address@[k]).address.names(connection.peer_address->0)
                    && old(self).slots()[old(self).connections_by_peer_address@[k].id as int]->0.state
                    == ConnectionState::Connecting,
        ensures
            final(self).wf(),
            final(self).connections.entry(connection_id as int) is Some,
            final(self).connections.entry(connection_id as int)->0.network_connection == Some(
                connection,
            ),
            final(self).connections.entry(connection_id as int)->0.state
                == ConnectionState::Connected,
            connection.inbound ==> connection_id == old(self).connections.next_index() && final(self).inbound_count == old(self).inbound_count + 1,
            !connection.inbound ==> final(self).connecting_count + 1 == old(self).connecting_count,
            final(self).banned_ips == old(self).banned_ips,
            final(self).slots() == slots_after_connection(*old(self), connection, connection_id),
            final(self).connections_by_peer_address@ == old(self).connections_by_peer_address@,
            final(self).connections_by_net_address@ == old(self).connections_by_net_address@,
            final(self).connections_by_subnet@ == old(self).connections_by_subnet@,
            final(self).close_requests@ == match connection_verdict(
                *final(self),
                connection_id as int,
            ) {
                Some(ty) => old(self).close_requests@.push(CloseRequest { connection, ty }),
                None => old(self).close_requests@,
            },
    {
        let ghost s0 = self.slots();
        let connection_id;
        if connection.outbound() {
            let peer_address = connection.peer_address.unwrap();
            let k = match self.find_peer(&peer_address) {
                Some(k) => k,
                None => {
                    proof {
                        let l = choose|l: int|
                            0 <= l < self.connections_by_peer_address@.len() && (
                            #[trigger] self.connections_by_peer_address@[l]).address.names(
                                connection.peer_address->0,
                            );
                        assert(self.connections_by_peer_address@[l].address.names(peer_address));
                    }
                    0
                },
            };
            proof {
                let l = choose|l: int|
                    0 <= l < self.connections_by_peer_address@.len() && (
                    #[trigger] self.connections_by_peer_address@[l]).address.names(
                        connection.peer_address->0,
                    ) && self.slots()[self.connections_by_peer_address@[l].id as int]->0.state
                        == ConnectionState::Connecting;
                if l < k {
                    assert(!self.connections_by_peer_address@[l].address.names(
                        self.connections_by_peer_address@[k as int].address,
                    ));
                } else if k < l {
                    assert(!self.connections_by_peer_address@[k as int].address.names(
                        self.connections_by_peer_address@[l].address,
                    ));
                }
                assert(peer_entry_ok(self.slots(), self.connections_by_peer_address@, k as int));
            }
            connection_id = self.connections_by_peer_address[k].id;
            let old_info = self.connections.inner[connection_id].unwrap();
            // Set the connection of the transport; the connection is connected now.
            let info = ConnectionInfo {
                peer_address: old_info.peer_address,
                network_connection: Some(connection),
                peer: old_info.peer,
                state: ConnectionState::Connected,
            };
            self.replace(connection_id, info);
            proof {
                lemma_count_update(s0, connection_id as int, Some(info), Counted::Connecting);
            }
        } else {
            // Add connection (without having obtained peer address).
            let info = ConnectionInfo::inbound(connection);
            connection_id = self.add(info);
            proof {
                if connection_id < s0.len() {
                    lemma_count_update(s0, connection_id as int, Some(info), Counted::Inbound);
                } else {
                    lemma_count_push(s0, Some(info), Counted::Inbound);
                }
            }
        }
        let _ = self.check_connection(connection_id);
        connection_id
    }

    /// Checks the validity of a handshake: the connection is refused where
    /// the pool holds an established connection of the peer, or where the
    /// peer cannot accept connections itself and there are as many such peers
    /// as there may be. Else the connection is negotiating from now on.
    pub fn check_handshake(&mut self, connection_id: usize, peer: &Peer) -> (b: bool)
        requires
            old(self).wf(),
            old(self).connections.entry(connection_id as int) is Some,
            old(self).connections.entry(connection_id as int)->0.state
                != ConnectionState::Established,
        ensures
            final(self).wf(),
            b == (handshake_verdict(*old(self), connection_id as int, *peer) is None),
            b ==> final(self).slots() == old(self).slots().update(
                connection_id as int,
                Some(negotiating(old(self).slots()[connection_id as int]->0)),
            ) && final(self).close_requests == old(self).close_requests,
            !b ==> final(self).slots() == old(self).slots(),
            final(self).banned_ips == old(self).banned_ips,
            !b ==> final(self).close_requests@ == match old(self).slots()[connection_id as int]->0.network_connection {
                Some(connection) => old(self).close_requests@.push(
                    CloseRequest {
                        connection,
                        ty: handshake_verdict(*old(self), connection_id as int, *peer)->0,
                    },
                ),
                None => old(self).close_requests@,
            },
            final(self).connections_by_peer_address@ == old(self).connections_by_peer_address@,
            final(self).connections_by_net_address@ == old(self).connections_by_net_address@,
            final(self).connections_by_subnet@ == old(self).connections_by_subnet@,
    {
        let info = self.connections.inner[connection_id].unwrap();
        // Duplicate/simultaneous connection check (post version):
        if let Some(k) = self.find_peer(&peer.peer_address) {
            proof {
                assert(peer_entry_ok(self.slots(), self.connections_by_peer_address@, k as int));
                self.lemma_peer_position(k as int, peer.peer_address);
            }
            let stored_connection_id = self.connections_by_peer_address[k].id;
            if stored_connection_id != connection_id {
                // If we already have an established connection to this peer, close this connection.
                let stored_connection = self.connections.inner[stored_connection_id].unwrap();
                if stored_connection.is_established() {
                    self.close(connection_id, CloseType::DuplicateConnection);
                    return false;
                }
            }
        }
        // Close connection if we have too many dumb connections.
        if matches!(peer.peer_address.protocol(), Protocol::Dumb) && self.peer_count_dumb
            >= PEER_COUNT_DUMB_MAX {
            self.close(connection_id, CloseType::ConnectionLimitDumb);
            return false;
        }
        // Set peerConnection to NEGOTIATING state.
        self.replace(
            connection_id,
            ConnectionInfo {
                peer_address: info.peer_address,
                network_connection: info.network_connection,
                peer: info.peer,
                state: ConnectionState::Negotiating,
            },
        );
        true
    }

    /// Callback during handshake. An inbound connection is refused where the
    /// pool is full and takes no inbound connections in exchange. Where the
    /// pool holds another connection of the peer, one of the two gives way:
    /// an attempt to connect is given up; an established connection stays and
    /// the new one is closed; of two connections that are negotiating, the
    /// stored one is closed where this node has the lower identity, else the
    /// new one. A connection that is accepted is established from then on.
    pub fn on_handshake(&mut self, connection_id: usize, peer: Peer) -> (accepted: bool)
        requires
            old(self).wf(),
            old(self).connections.entry(connection_id as int) is Some,
            old(self).connections.entry(connection_id as int)->0.network_connection is Some,
            old(self).connections.entry(connection_id as int)->0.state
                != ConnectionState::Established,
            old(self).connections.entry(connection_id as int)->0.network_connection->0.inbound
                == (old(self).connections.entry(connection_id as int)->0.peer_address is None),
        ensures
            final(self).wf(),
            accepted == (handshake_refusal(*old(self), connection_id as int, peer) is None),
            accepted ==> final(self).slots() == slots_after_handshake(
                *old(self),
                connection_id as int,
                peer,
            ) && final(self).close_requests@ == requests_after_handshake(
                *old(self),
                connection_id as int,
                peer,
            ),
            !accepted ==> final(self).slots() == old(self).slots() && final(self).close_requests@ == old(self).close_requests@.push(
                CloseRequest {
                    connection: old(self).slots()[connection_id as int]->0.network_connection->0,
                    ty: handshake_refusal(*old(self), connection_id as int, peer)->0,
                },
            ),
            final(self).banned_ips == old(self).banned_ips,
            accepted ==> final(self).connections_by_peer_address@ == peers_after_handshake(
                *old(self),
                connection_id as int,
                peer,
            ) && final(self).connections_by_net_address@ == nets_after_handshake(
                *old(self),
                connection_id as int,
                peer,
            ) && final(self).connections_by_subnet@ == subnets_after_handshake(
                *old(self),
                connection_id as int,
                peer,
            ),
            !accepted ==> final(self).connections_by_peer_address == old(self).connections_by_peer_address && final(self).connections_by_net_address == old(self).connections_by_net_address && final(self).connections_by_subnet == old(self).connections_by_subnet,
    {
        let info = self.connections.inner[connection_id].unwrap();
        let network_connection = info.network_connection.unwrap();
        let mut peer_address = peer.peer_address;
        if network_connection.inbound() {
            // Re-check allowInboundExchange as it might have changed.
            if self.peer_count() >= PEER_COUNT_MAX && !self.allow_inbound_exchange {
                self.close(connection_id, CloseType::MaxPeerCountReached);
                return false;
            }
            // Duplicate/simultaneous connection check (post handshake):
            if let Some(k) = self.find_peer(&peer.peer_address) {
                proof {
                    assert(peer_entry_ok(self.slots(), self.connections_by_peer_address@, k as int));
                    self.lemma_peer_position(k as int, peer.peer_address);
                }
                let stored_connection_id = self.connections_by_peer_address[k].id;
                let stored_connection = self.connections.inner[stored_connection_id].unwrap();
                match stored_connection.state() {
                    ConnectionState::Connecting => {
                        // Abort the stored connection attempt and accept this connection.
                        let _ = self.remove(stored_connection_id);
                    },
                    ConnectionState::Established => {
                        // If we have another established connection to this peer, close this connection.
                        self.close(connection_id, CloseType::DuplicateConnection);
                        return false;
                    },
                    ConnectionState::Negotiating => {
                        // The peer with the lower peerId accepts this connection and closes his stored connection.
                        if bytes_less(
                            self.own_peer_id.as_slice(),
                            peer.peer_address.peer_id.as_slice(),
                        ) {
                            self.close(stored_connection_id, CloseType::SimultaneousConnection);
                            let _ = self.remove(stored_connection_id);
                        } else {
                            // The peer with the higher peerId closes this connection and keeps his stored connection.
                            self.close(connection_id, CloseType::SimultaneousConnection);
                            return false;
                        }
                    },
                    _ => {
                        // Accept this connection and close the stored connection.
                        self.close(stored_connection_id, CloseType::SimultaneousConnection);
                        let _ = self.remove(stored_connection_id);
                    },
                }
                proof {
                    let index = self.connections_by_peer_address@;
                    assert forall|l: int| 0 <= l < index.len() implies !(
                    #[trigger] index[l]).address.names(peer.peer_address) by {
                        if index[l].address.names(peer.peer_address) {
                            assert(index[l].address.names(stored_connection.peer_address->0));
                        }
                    }
                }
            }
        } else {
            peer_address = info.peer_address.unwrap();
        }
        // Handshake accepted.
        // Set ConnectionInfo to Established state.
        self.replace(
            connection_id,
            ConnectionInfo {
                peer_address: Some(peer_address),
                network_connection: Some(network_connection),
                peer: Some(peer),
                state: ConnectionState::Established,
            },
        );
        true
    }

    /// Callback upon closing of connection: the connection leaves the pool.
    /// Where its handshake was done and it is closed for a reason that bans,
    /// its address is banned from `now` on, in seconds.
    pub fn on_close(&mut self, connection_id: usize, ty: CloseType, now: u64) -> (info:
        ConnectionInfo)
        requires
            old(self).wf(),
            old(self).connections.entry(connection_id as int) is Some,
        ensures
            final(self).wf(),
            Some(info) == old(self).connections.entry(connection_id as int),
            final(self).slots() == old(self).slots().update(connection_id as int, None),
            final(self).close_requests == old(self).close_requests,
            !(info.state == ConnectionState::Established && ty.spec_is_banning_type()
                && info.network_connection->0.net_address.spec_is_reliable())
                ==> final(self).banned_ips@ == old(self).banned_ips@,
            info.state == ConnectionState::Established && ty.spec_is_banning_type()
                && info.network_connection->0.net_address.spec_is_reliable() ==> final(self).banned_ips@.len() >= 1 && final(self).banned_ips@.last() == (BanEntry {
                address: banned_address(info.network_connection->0.net_address),
                unban_time: ban_end(now),
            }),
            final(self).connections_by_peer_address@ == peers_after_removal(
                *old(self),
                connection_id as int,
            ),
            final(self).connections_by_net_address@ == nets_after_removal(
                *old(self),
                connection_id as int,
            ),
            final(self).connections_by_subnet@ == subnets_after_removal(
                *old(self),
                connection_id as int,
            ),
            info.state == ConnectionState::Established && ty.spec_is_banning_type()
                && info.network_connection->0.net_address.spec_is_reliable()
                ==> final(self).banned_ips@ == bans_without(
                old(self).banned_ips@,
                banned_address(info.network_connection->0.net_address),
            ).push(
                BanEntry {
                    address: banned_address(info.network_connection->0.net_address),
                    unban_time: ban_end(now),
                },
            ),
            forall|k: int|
                0 <= k < old(self).banned_ips@.len() && (info.network_connection is None || (
                #[trigger] old(self).banned_ips@[k]).address != banned_address(
                    info.network_connection->0.net_address,
                )) ==> final(self).banned_ips@.contains(old(self).banned_ips@[k]),
    {
        let info = self.remove(connection_id);
        // Check if the handshake with this peer has completed.
        if info.is_established() {
            // If closing is due to a ban, also ban the IP
            if ty.is_banning_type() {
                if let Some(network_connection) = info.network_connection {
                    self.ban_ip(&network_connection.net_address, now);
                }
            }
        }
        ConnectionInfo {
            peer_address: info.peer_address,
            network_connection: info.network_connection,
            peer: info.peer,
            state: info.state,
        }
    }

    /// In a sound index by peer address a peer stands once, so the entry at
    /// which it is found holds the connection that is stored for it.
    pub proof fn lemma_peer_position(&self, k: int, address: PeerAddress)
        requires
            self.peers_ok(),
            0 <= k < self.connections_by_peer_address@.len(),
            self.connections_by_peer_address@[k].address.names(address),
        ensures
            stored_id(self.connections_by_peer_address@, address) == Some(
                self.connections_by_peer_address@[k].id,
            ),
    {
        let index = self.connections_by_peer_address@;
        let l = choose|l: int| 0 <= l < index.len() && (#[trigger] index[l]).address.names(address);
        if l < k {
            assert(!index[l].address.names(index[k].address));
        } else if k < l {
            assert(!index[k].address.names(index[l].address));
        }
    }

    /// In a sound pool a connection is found by the address of its peer.
    pub proof fn lemma_found_by_peer(&self, id: usize)
        requires
            self.wf(),
            id < self.slots().len(),
            self.slots()[id as int] is Some,
            self.slots()[id as int]->0.peer_address is Some,
        ensures
            stored_id(
                self.connections_by_peer_address@,
                self.slots()[id as int]->0.peer_address->0,
            ) == Some(id),
    {
        let index = self.connections_by_peer_address@;
        assert(peer_listed(self.slots(), index, id as int));
        let k = choose|k: int| 0 <= k < index.len() && (#[trigger] index[k]).id == id;
        assert(peer_entry_ok(self.slots(), index, k));
        self.lemma_peer_position(k, self.slots()[id as int]->0.peer_address->0);
    }

    /// Convert a net address into a subnet according to the configured bitmask.
    pub fn get_subnet_address(net_address: &NetAddress) -> (r: NetAddress)
        ensures
            r == subnet_address(*net_address),
    {
        let bit_mask = match net_address.get_type() {
            NetAddressType::IPv4 => IPV4_SUBNET_MASK,
            _ => IPV6_SUBNET_MASK,
        };
        net_address.subnet(bit_mask)
    }
}

/// What the pool keeps of a connection that this node is about to open.
pub open spec fn outbound_info(peer_address: PeerAddress) -> ConnectionInfo {
    ConnectionInfo {
        peer_address: Some(peer_address),
        network_connection: None,
        peer: None,
        state: ConnectionState::Connecting,
    }
}

/// A connection in the state of negotiating.
pub open spec fn negotiating(info: ConnectionInfo) -> ConnectionInfo {
    ConnectionInfo {
        peer_address: info.peer_address,
        network_connection: info.network_connection,
        peer: info.peer,
        state: ConnectionState::Negotiating,
    }
}

/// Whether an address is banned.
pub open spec fn is_banned(banned: Seq<BanEntry>, address: NetAddress) -> bool {
    address.spec_is_reliable() && exists|k: int|
        0 <= k < banned.len() && (#[trigger] banned[k]).address == address
}

/// The connection that the index by peer address holds for a peer.
pub open spec fn stored_id(index: Seq<PeerIndexEntry>, address: PeerAddress) -> Option<usize> {
    if exists|k: int| 0 <= k < index.len() && (#[trigger] index[k]).address.names(address) {
        Some(
            index[choose|k: int| 0 <= k < index.len() && (#[trigger] index[k]).address.names(address)].id,
        )
    } else {
        None
    }
}

/// Whether this node may open a connection to a peer: the peer is reached by
/// web socket, its address is not banned, the pool holds no connection of
/// it, and, where its address is an IP address, there is room for one more
/// connection to that address and for one more outbound connection into its
/// subnet.
pub open spec fn outbound_allowed(pool: ConnectionPool, peer_address: PeerAddress) -> bool {
    &&& peer_address.protocol == Protocol::Wss || peer_address.protocol == Protocol::Ws
    &&& !is_banned(pool.banned_ips@, peer_address.net_address)
    &&& stored_id(pool.connections_by_peer_address@, peer_address) is None
    &&& peer_address.net_address.spec_is_reliable() ==> entry_count(
        pool.connections_by_net_address@,
        peer_address.net_address,
    ) < PEER_COUNT_PER_IP_MAX && outbound_count(
        pool.slots(),
        pool.connections_by_subnet@,
        subnet_address(peer_address.net_address),
    ) < OUTBOUND_PEER_COUNT_PER_SUBNET_MAX
}

/// Why a connection is not admitted, if it is not: inbound connections are
/// blocked; its address is banned; there are too many connections to its
/// address or from its subnet; or the pool is full, the connection is inbound
/// and inbound connections are not taken in exchange.
pub open spec fn connection_verdict(pool: ConnectionPool, id: int) -> Option<CloseType> {
    let conn = pool.slots()[id]->0.network_connection->0;
    let address = conn.net_address;
    if conn.inbound && !pool.allow_inbound_connections {
        Some(CloseType::InboundConnectionsBlocked)
    } else if is_banned(pool.banned_ips@, address) {
        Some(CloseType::BannedIp)
    } else if address.spec_is_reliable() && entry_count(pool.connections_by_net_address@, address)
        > PEER_COUNT_PER_IP_MAX {
        Some(CloseType::ConnectionLimitPerIp)
    } else if address.spec_is_reliable() && entry_count(
        pool.connections_by_subnet@,
        subnet_address(address),
    ) > INBOUND_PEER_COUNT_PER_SUBNET_MAX {
        Some(CloseType::ConnectionLimitPerIp)
    } else if pool.peer_count_ws + pool.peer_count_wss + pool.peer_count_rtc + pool.peer_count_dumb
        >= PEER_COUNT_MAX && conn.inbound && !pool.allow_inbound_exchange {
        Some(CloseType::MaxPeerCountReached)
    } else {
        None
    }
}

/// Why a handshake is refused, if it is: the pool holds another connection
/// of the peer that is established; or the peer cannot accept connections
/// itself and there are as many such peers as there may be.
pub open spec fn handshake_verdict(pool: ConnectionPool, id: int, peer: Peer) -> Option<CloseType> {
    let stored = stored_id(pool.connections_by_peer_address@, peer.peer_address);
    if stored is Some && stored->0 != id && pool.slots()[stored->0 as int]->0.state
        == ConnectionState::Established {
        Some(CloseType::DuplicateConnection)
    } else if peer.peer_address.protocol == Protocol::Dumb && pool.peer_count_dumb
        >= PEER_COUNT_DUMB_MAX {
        Some(CloseType::ConnectionLimitDumb)
    } else {
        None
    }
}

/// A connection after its handshake with a peer: it keeps its peer address
/// where it has one and takes that of the peer else.
pub open spec fn established(info: ConnectionInfo, peer: Peer) -> ConnectionInfo {
    ConnectionInfo {
        peer_address: match info.peer_address {
            Some(address) => Some(address),
            None => Some(peer.peer_address),
        },
        network_connection: info.network_connection,
        peer: Some(peer),
        state: ConnectionState::Established,
    }
}

/// The connection that gives way to a connection whose handshake is
/// accepted: the one that the pool holds for the same peer, where the peer
/// opened the new connection.
pub open spec fn displaced(pool: ConnectionPool, id: int, peer: Peer) -> Option<usize> {
    if pool.slots()[id]->0.network_connection->0.inbound {
        stored_id(pool.connections_by_peer_address@, peer.peer_address)
    } else {
        None
    }
}

/// The connections of a pool after the handshake of one of them was
/// accepted: the connection that gives way has left, the accepted one is
/// established.
pub open spec fn slots_after_handshake(pool: ConnectionPool, id: int, peer: Peer) -> Seq<
    Option<ConnectionInfo>,
> {
    let kept = match displaced(pool, id, peer) {
        Some(other) => pool.slots().update(other as int, None),
        None => pool.slots(),
    };
    kept.update(id, Some(established(pool.slots()[id]->0, peer)))
}

/// What the transport is asked to close after a handshake was accepted: the
/// connection that gives way, unless it was only an attempt to connect or
/// runs over no connection of the transport.
pub open spec fn requests_after_handshake(pool: ConnectionPool, id: int, peer: Peer) -> Seq<
    CloseRequest,
> {
    match displaced(pool, id, peer) {
        Some(other) => {
            let stored = pool.slots()[other as int]->0;
            if stored.state != ConnectionState::Connecting && stored.network_connection is Some {
                pool.close_requests@.push(
                    CloseRequest {
                        connection: stored.network_connection->0,
                        ty: CloseType::SimultaneousConnection,
                    },
                )
            } else {
                pool.close_requests@
            }
        },
        None => pool.close_requests@,
    }
}

/// Why the handshake of a connection is not accepted, if it is not. Only an
/// inbound connection is refused: where the pool is full and takes no inbound
/// connections in exchange; where the pool holds an established connection of
/// the peer; or where it holds one that is negotiating and this node does not
/// have the lower identity.
pub open spec fn handshake_refusal(pool: ConnectionPool, id: int, peer: Peer) -> Option<CloseType> {
    let info = pool.slots()[id]->0;
    let stored = stored_id(pool.connections_by_peer_address@, peer.peer_address);
    if !info.network_connection->0.inbound {
        None
    } else if pool.peer_count_ws + pool.peer_count_wss + pool.peer_count_rtc + pool.peer_count_dumb
        >= PEER_COUNT_MAX && !pool.allow_inbound_exchange {
        Some(CloseType::MaxPeerCountReached)
    } else if stored is None {
        None
    } else if pool.slots()[stored->0 as int]->0.state == ConnectionState::Established {
        Some(CloseType::DuplicateConnection)
    } else if pool.slots()[stored->0 as int]->0.state == ConnectionState::Negotiating && !lex_less(
        pool.own_peer_id@,
        peer.peer_address.peer_id@,
    ) {
        Some(CloseType::SimultaneousConnection)
    } else {
        None
    }
}

/// Whether a connection is counted under a heading.
fn counted(entry: &Option<ConnectionInfo>, what: Counted) -> (b: bool)
    ensures
        b == counts_as(*entry, what),
{
    match entry {
        None => false,
        Some(info) => {
            let established = info.is_established();
            let protocol = match info.peer_address {
                Some(address) => Some(address.protocol),
                None => None,
            };
            match what {
                Counted::Ws => established && matches!(protocol, Some(Protocol::Ws)),
                Counted::Wss => established && matches!(protocol, Some(Protocol::Wss)),
                Counted::Rtc => established && matches!(protocol, Some(Protocol::Rtc)),
                Counted::Dumb => established && matches!(protocol, Some(Protocol::Dumb)),
                Counted::Outbound => established && match info.network_connection {
                    Some(connection) => !connection.inbound,
                    None => false,
                },
                Counted::Connecting => matches!(info.state, ConnectionState::Connecting),
                Counted::Inbound => (matches!(info.state, ConnectionState::Connected) || matches!(
                    info.state,
                    ConnectionState::Negotiating
                )) && match info.network_connection {
                    Some(connection) => connection.inbound,
                    None => false,
                },
            }
        },
    }
}

/// One for a connection that is counted, zero for one that is not.
pub open spec fn unit(counts: bool) -> int {
    if counts {
        1
    } else {
        0
    }
}

/// A count after a connection that was counted or not was replaced by one
/// that is counted or not.
fn adjusted(counter: usize, left: bool, joined: bool) -> (r: usize)
    requires
        left ==> counter >= 1,
        joined && !left ==> counter < usize::MAX,
    ensures
        r == counter - unit(left) + unit(joined),
{
    if left && !joined {
        counter - 1
    } else if !left && joined {
        counter + 1
    } else {
        counter
    }
}

/// The address under which an address is banned: the address itself for
/// IPv4, else its subnet of 64 bits.
pub open spec fn banned_address(address: NetAddress) -> NetAddress {
    if address.ty == NetAddressType::IPv4 {
        address
    } else {
        subnet_of(address, 64)
    }
}

/// The time at which a ban that starts at `now` ends, in seconds; the
/// greatest time where that is too late to be told.
pub open spec fn ban_end(now: u64) -> u64 {
    if now > u64::MAX - DEFAULT_BAN_TIME {
        u64::MAX
    } else {
        (now + DEFAULT_BAN_TIME) as u64
    }
}

/// There are no outbound connections under an address under which there are
/// no connections.
pub proof fn lemma_outbound_bound(
    s: Seq<Option<ConnectionInfo>>,
    index: Seq<NetIndexEntry>,
    address: NetAddress,
)
    ensures
        outbound_count(s, index, address) <= entry_count(index, address),
    decreases index.len(),
{
    if index.len() > 0 {
        lemma_outbound_bound(s, index.drop_last(), address);
    }
}

/// A connection is counted under at most one protocol, so the counts by
/// protocol together are at most the number of positions.
pub proof fn lemma_protocol_counts(s: Seq<Option<ConnectionInfo>>)
    ensures
        count_of(s, Counted::Ws) + count_of(s, Counted::Wss) + count_of(s, Counted::Rtc)
            + count_of(s, Counted::Dumb) <= s.len(),
    decreases s.len(),
{
    if s.len() > 0 {
        lemma_protocol_counts(s.drop_last());
    }
}

} // verus!
