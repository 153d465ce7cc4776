//! What the connection pool knows of addresses, peers and connections.

use vstd::prelude::*;
use crate::bytes::bytes_equal;
use crate::hash::Blake2bHash;

verus! {

/// How a peer can be reached.
#[derive(Clone, Copy, Debug, PartialEq, Eq, Structural, Hash)]
pub enum Protocol {
    Dumb,
    Wss,
    Rtc,
    Ws,
}

/// The kind of a net address.
#[derive(Clone, Copy, Debug, PartialEq, Eq, Structural, Hash)]
pub enum NetAddressType {
    IPv4,
    IPv6,
    Unspecified,
    Unknown,
}

/// A net address. An IPv4 address stands in the first four bytes.
#[derive(Clone, Copy, Debug, PartialEq, Eq, Hash)]
pub struct NetAddress {
    pub ty: NetAddressType,
    pub ip: [u8; 16],
}

/// The address of a peer: how and where it can be reached, and who it is.
#[derive(Clone, Copy, Debug, PartialEq, Eq, Hash)]
pub struct PeerAddress {
    pub protocol: Protocol,
    pub net_address: NetAddress,
    pub peer_id: [u8; 16],
    pub services: u32,
}

/// The state of a connection.
#[derive(Clone, Copy, Debug, PartialEq, Eq, Structural, Hash)]
pub enum ConnectionState {
    New,
    Connecting,
    Connected,
    Negotiating,
    Established,
    Closed,
}

/// Why a connection is closed.
#[derive(Clone, Copy, Debug, PartialEq, Eq, Structural, Hash)]
pub enum CloseType {
    InboundConnectionsBlocked,
    BannedIp,
    ConnectionLimitPerIp,
    MaxPeerCountReached,
    DuplicateConnection,
    ConnectionLimitDumb,
    SimultaneousConnection,
    PeerConnectionRecycled,
    ManualPeerDisconnect,
    ClosedByRemote,
    NetworkError,
    ConnectionFailed,
    ReceivedInvalidBlock,
    ReceivedInvalidHeader,
    BlockchainSyncFailed,
    InvalidAccountsTreeChunk,
    ManualPeerBan,
}

/// A connection of the transport, as far as the pool reads it.
#[derive(Clone, Copy, Debug, PartialEq, Eq)]
pub struct NetworkConnection {
    pub inbound: bool,
    pub net_address: NetAddress,
    pub peer_address: Option<PeerAddress>,
}

/// A peer after the handshake.
#[derive(Clone, Copy, Debug, PartialEq, Eq)]
pub struct Peer {
    pub peer_address: PeerAddress,
    pub version: u32,
    pub head_hash: Blake2bHash,
    pub time_offset: i64,
}

/// What the pool keeps of a connection.
#[derive(Clone, Copy, Debug, PartialEq, Eq)]
pub struct ConnectionInfo {
    pub peer_address: Option<PeerAddress>,
    pub network_connection: Option<NetworkConnection>,
    pub peer: Option<Peer>,
    pub state: ConnectionState,
}

/// The part of a byte that a subnet of `bits` bits keeps, for a byte that
/// starts at bit `from`.
pub open spec fn masked_byte(b: u8, from: int, bits: int) -> u8 {
    if from + 8 <= bits {
        b
    } else if from >= bits {
        0
    } else {
        (b as int - b as int % low_weight(from + 8 - bits)) as u8
    }
}

/// Two to the `k`, for `k` from one to seven.
pub open spec fn low_weight(k: int) -> int {
    if k == 1 {
        2
    } else if k == 2 {
        4
    } else if k == 3 {
        8
    } else if k == 4 {
        16
    } else if k == 5 {
        32
    } else if k == 6 {
        64
    } else {
        128
    }
}

/// The subnet of an address: its first `bits` bits, the others zero.
pub open spec fn subnet_of(address: NetAddress, bits: u8) -> NetAddress {
    NetAddress {
        ty: address.ty,
        ip: choose|ip: [u8; 16]| ip@ == Seq::new(16, |i: int| masked_byte(address.ip@[i], 8 * i, bits as int)),
    }
}

impl Protocol {
    /// Whether two protocols are the same.
    pub fn same(&self, other: &Protocol) -> (b: bool)
        ensures
            b == (*self == *other),
    {
        match (self, other) {
            (Protocol::Dumb, Protocol::Dumb) => true,
            (Protocol::Wss, Protocol::Wss) => true,
            (Protocol::Rtc, Protocol::Rtc) => true,
            (Protocol::Ws, Protocol::Ws) => true,
            _ => false,
        }
    }
}

impl NetAddress {
    /// Whether the address is an IP address.
    pub open spec fn spec_is_reliable(&self) -> bool {
        self.ty == NetAddressType::IPv4 || self.ty == NetAddressType::IPv6
    }

    /// Whether the address is an IP address.
    pub fn is_reliable(&self) -> (b: bool)
        ensures
            b == self.spec_is_reliable(),
    {
        match self.ty {
            NetAddressType::IPv4 => true,
            NetAddressType::IPv6 => true,
            _ => false,
        }
    }

    /// Whether the address stands for no real address.
    pub fn is_pseudo(&self) -> (b: bool)
        ensures
            b == !self.spec_is_reliable(),
    {
        !self.is_reliable()
    }

    /// The kind of the address.
    pub fn get_type(&self) -> (t: NetAddressType)
        ensures
            t == self.ty,
    {
        self.ty
    }

    /// Whether two addresses are the same.
    pub fn same(&self, other: &NetAddress) -> (b: bool)
        ensures
            b == (*self == *other),
    {
        let same_type = match (self.ty, other.ty) {
            (NetAddressType::IPv4, NetAddressType::IPv4) => true,
            (NetAddressType::IPv6, NetAddressType::IPv6) => true,
            (NetAddressType::Unspecified, NetAddressType::Unspecified) => true,
            (NetAddressType::Unknown, NetAddressType::Unknown) => true,
            _ => false,
        };
        let same_bytes = bytes_equal(self.ip.as_slice(), other.ip.as_slice());
        proof {
            if same_bytes {
                assert(self.ip =~= other.ip);
            }
        }
        same_type && same_bytes
    }

    /// The subnet of the address with a prefix of `bits` bits.
    pub fn subnet(&self, bits: u8) -> (r: NetAddress)
        ensures
            r == subnet_of(*self, bits),
    {
        let mut ip = [0u8; 16];
        let mut i: usize = 0;
        while i < 16
            invariant
                i <= 16,
                forall|j: int| 0 <= j < i ==> ip@[j] == masked_byte(self.ip@[j], 8 * j, bits as int),
            decreases 16 - i,
        {
            let from: usize = 8 * i;
            let b = self.ip[i];
            let n: usize = bits as usize;
            if from + 8 <= n {
                ip[i] = b;
            } else if from >= n {
                ip[i] = 0;
            } else {
                let k = from + 8 - n;
                let w: u8 = if k == 1 {
                    2
                } else if k == 2 {
                    4
                } else if k == 3 {
                    8
                } else if k == 4 {
                    16
                } else if k == 5 {
                    32
                } else if k == 6 {
                    64
                } else {
                    128
                };
                ip[i] = b - b % w;
            }
            i += 1;
        }
        let r = NetAddress { ty: self.ty, ip };
        proof {
            let wanted = Seq::new(16, |i: int| masked_byte(self.ip@[i], 8 * i, bits as int));
            assert(ip@ =~= wanted);
            let chosen = subnet_of(*self, bits).ip;
            assert(chosen@ == wanted);
            assert(chosen =~= ip);
        }
        r
    }
}

impl PeerAddress {
    /// Whether two addresses name the same peer: by protocol and identity.
    pub open spec fn names(&self, other: PeerAddress) -> bool {
        self.protocol == other.protocol && self.peer_id@ == other.peer_id@
    }

    /// Whether two addresses name the same peer.
    pub fn same_peer(&self, other: &PeerAddress) -> (b: bool)
        ensures
            b == self.names(*other),
    {
        self.protocol.same(&other.protocol) && bytes_equal(
            self.peer_id.as_slice(),
            other.peer_id.as_slice(),
        )
    }

    /// The protocol of the address.
    pub fn protocol(&self) -> (p: Protocol)
        ensures
            p == self.protocol,
    {
        self.protocol
    }
}

impl CloseType {
    /// Whether closing for this reason bans the peer's address.
    pub open spec fn spec_is_banning_type(&self) -> bool {
        *self == CloseType::ReceivedInvalidBlock || *self == CloseType::ReceivedInvalidHeader
            || *self == CloseType::BlockchainSyncFailed || *self
            == CloseType::InvalidAccountsTreeChunk || *self == CloseType::ManualPeerBan
    }

    /// Whether closing for this reason bans the peer's address.
    pub fn is_banning_type(&self) -> (b: bool)
        ensures
            b == self.spec_is_banning_type(),
    {
        match self {
            CloseType::ReceivedInvalidBlock => true,
            CloseType::ReceivedInvalidHeader => true,
            CloseType::BlockchainSyncFailed => true,
            CloseType::InvalidAccountsTreeChunk => true,
            CloseType::ManualPeerBan => true,
            _ => false,
        }
    }
}

impl NetworkConnection {
    /// Whether the connection was opened by the peer.
    pub fn inbound(&self) -> (b: bool)
        ensures
            b == self.inbound,
    {
        self.inbound
    }

    /// Whether the connection was opened by this node.
    pub fn outbound(&self) -> (b: bool)
        ensures
            b == !self.inbound,
    {
        !self.inbound
    }
}

impl ConnectionInfo {
    /// What the pool keeps of a connection that this node is about to open.
    pub fn outbound(peer_address: PeerAddress) -> (r: ConnectionInfo)
        ensures
            r == (ConnectionInfo {
                peer_address: Some(peer_address),
                network_connection: None,
                peer: None,
                state: ConnectionState::Connecting,
            }),
    {
        ConnectionInfo {
            peer_address: Some(peer_address),
            network_connection: None,
            peer: None,
            state: ConnectionState::Connecting,
        }
    }

    /// What the pool keeps of a connection that a peer has opened.
    pub fn inbound(connection: NetworkConnection) -> (r: ConnectionInfo)
        ensures
            r == (ConnectionInfo {
                peer_address: None,
                network_connection: Some(connection),
                peer: None,
                state: ConnectionState::Connected,
            }),
    {
        ConnectionInfo {
            peer_address: None,
            network_connection: Some(connection),
            peer: None,
            state: ConnectionState::Connected,
        }
    }

    /// The state of the connection.
    pub fn state(&self) -> (s: ConnectionState)
        ensures
            s == self.state,
    {
        self.state
    }

    /// Whether the handshake with the peer is done.
    pub fn is_established(&self) -> (b: bool)
        ensures
            b == (self.state == ConnectionState::Established),
    {
        match self.state {
            ConnectionState::Established => true,
            _ => false,
        }
    }
}

} // verus!
