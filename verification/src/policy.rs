//! Constants every node of a network has to agree on.

use vstd::prelude::*;

verus! {

/// Targeted time between two blocks, in seconds.
pub const BLOCK_TIME: u32 = 60;

/// Number of blocks the difficulty adjustment looks back over.
pub const DIFFICULTY_BLOCK_WINDOW: u32 = 120;

/// Largest factor by which the target may change from one block to the next.
pub const DIFFICULTY_MAX_ADJUSTMENT_FACTOR: u32 = 2;

/// Number of blocks for which a transaction stays valid.
pub const TRANSACTION_VALIDITY_WINDOW: u32 = 120;

/// Bit length of the easiest target, which is the power of two at that bit.
pub const BLOCK_TARGET_MAX_BITS: u32 = 240;

/// Seconds a block's timestamp may lie ahead of the node's clock.
pub const TIMESTAMP_DRIFT_MAX: u64 = 600;

/// Most peers the pool holds.
pub const PEER_COUNT_MAX: usize = 4000;

/// Most connections to one address.
pub const PEER_COUNT_PER_IP_MAX: usize = 20;

/// Most outbound connections into one subnet.
pub const OUTBOUND_PEER_COUNT_PER_SUBNET_MAX: usize = 2;

/// Most inbound connections from one subnet.
pub const INBOUND_PEER_COUNT_PER_SUBNET_MAX: usize = 100;

/// Most peers that cannot accept connections themselves.
pub const PEER_COUNT_DUMB_MAX: usize = 1000;

/// Prefix length, in bits, of an IPv4 subnet.
pub const IPV4_SUBNET_MASK: u8 = 24;

/// Prefix length, in bits, of an IPv6 subnet.
pub const IPV6_SUBNET_MASK: u8 = 64;

/// Seconds an address stays banned.
pub const DEFAULT_BAN_TIME: u64 = 600;

} // verus!
