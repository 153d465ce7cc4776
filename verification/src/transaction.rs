//! Transactions, as far as a block's rules read them.

use vstd::prelude::*;
use crate::account::{network_byte, NetworkId};
use crate::address::Address;
use crate::bytes::{bytes_equal, bytes_less, lex_less, put_bytes, put_u32, put_u64, u32_be, u64_be};
use crate::hash::{blake2b_digest, Blake2bHash};
use crate::policy::TRANSACTION_VALIDITY_WINDOW;

verus! {

/// A transfer of value from a sender to a recipient.
#[derive(Clone, Copy, Debug, PartialEq, Eq)]
pub struct Transaction {
    pub sender: Address,
    pub recipient: Address,
    pub value: u64,
    pub fee: u64,
    pub validity_start_height: u32,
    pub network_id: NetworkId,
}

/// Why a transaction is not valid in itself.
#[derive(Clone, Copy, Debug, PartialEq, Eq, Structural)]
pub enum TransactionError {
    ForeignNetwork,
    ZeroValue,
    Overflow,
    SenderEqualsRecipient,
}

/// The bytes of a transaction, which its hash is taken of.
pub open spec fn transaction_bytes(tx: Transaction) -> Seq<u8> {
    tx.sender@ + tx.recipient@ + u64_be(tx.value) + u64_be(tx.fee) + u32_be(
        tx.validity_start_height,
    ) + seq![network_byte(tx.network_id)]
}

/// The hash of a transaction.
pub open spec fn transaction_hash(tx: Transaction) -> Seq<u8> {
    blake2b_digest(transaction_bytes(tx))
}

/// Whether a transaction may stand in a block of the given height: from its
/// start height on, for the length of the validity window.
pub open spec fn valid_at(tx: Transaction, height: u32) -> bool {
    tx.validity_start_height <= height < tx.validity_start_height + TRANSACTION_VALIDITY_WINDOW
}

/// What the check of a transaction in itself gives.
pub open spec fn transaction_check(tx: Transaction, network_id: NetworkId) -> Result<
    (),
    TransactionError,
> {
    if tx.network_id != network_id {
        Err(TransactionError::ForeignNetwork)
    } else if tx.sender@ == tx.recipient@ {
        Err(TransactionError::SenderEqualsRecipient)
    } else if tx.value == 0 {
        Err(TransactionError::ZeroValue)
    } else if tx.value + tx.fee > u64::MAX {
        Err(TransactionError::Overflow)
    } else {
        Ok(())
    }
}

/// Whether two transactions stand at the same place in the order of a block:
/// they agree in recipient, start height, fee, value and sender.
pub open spec fn block_order_equal(a: Transaction, b: Transaction) -> bool {
    &&& a.recipient@ == b.recipient@
    &&& a.validity_start_height == b.validity_start_height
    &&& a.fee == b.fee
    &&& a.value == b.value
    &&& a.sender@ == b.sender@
}

/// Whether a transaction stands before another in a block: by recipient, then
/// by start height, then by fee and by value with the higher first, then by
/// sender.
pub open spec fn block_order_less(a: Transaction, b: Transaction) -> bool {
    if a.recipient@ != b.recipient@ {
        lex_less(a.recipient@, b.recipient@)
    } else if a.validity_start_height != b.validity_start_height {
        a.validity_start_height < b.validity_start_height
    } else if a.fee != b.fee {
        a.fee > b.fee
    } else if a.value != b.value {
        a.value > b.value
    } else {
        lex_less(a.sender@, b.sender@)
    }
}

impl Transaction {
    /// Appends the bytes of the transaction.
    pub fn serialize(&self, out: &mut Vec<u8>)
        ensures
            final(out)@ == old(out)@ + transaction_bytes(*self),
    {
        put_bytes(out, self.sender.0.as_slice());
        put_bytes(out, self.recipient.0.as_slice());
        put_u64(out, self.value);
        put_u64(out, self.fee);
        put_u32(out, self.validity_start_height);
        out.push(self.network_id.byte());
        assert(out@ =~= old(out)@ + transaction_bytes(*self));
    }

    /// The hash of the transaction.
    pub fn hash(&self) -> (h: Blake2bHash)
        ensures
            h@ == transaction_hash(*self),
    {
        let mut out: Vec<u8> = Vec::new();
        self.serialize(&mut out);
        assert(out@ =~= transaction_bytes(*self));
        Blake2bHash::digest(out.as_slice())
    }

    /// Whether the two transactions stand at the same place in a block's order.
    pub fn same_place(&self, other: &Transaction) -> (b: bool)
        ensures
            b == block_order_equal(*self, *other),
    {
        bytes_equal(self.recipient.0.as_slice(), other.recipient.0.as_slice())
            && self.validity_start_height == other.validity_start_height && self.fee == other.fee
            && self.value == other.value && bytes_equal(
            self.sender.0.as_slice(),
            other.sender.0.as_slice(),
        )
    }

    /// Whether this transaction stands before the other in a block.
    pub fn stands_before(&self, other: &Transaction) -> (b: bool)
        ensures
            b == block_order_less(*self, *other),
    {
        if !bytes_equal(self.recipient.0.as_slice(), other.recipient.0.as_slice()) {
            bytes_less(self.recipient.0.as_slice(), other.recipient.0.as_slice())
        } else if self.validity_start_height != other.validity_start_height {
            self.validity_start_height < other.validity_start_height
        } else if self.fee != other.fee {
            self.fee > other.fee
        } else if self.value != other.value {
            self.value > other.value
        } else {
            bytes_less(self.sender.0.as_slice(), other.sender.0.as_slice())
        }
    }

    /// Whether the transaction may stand in a block of the given height.
    pub fn is_valid_at(&self, height: u32) -> (b: bool)
        ensures
            b == valid_at(*self, height),
    {
        let start: u64 = self.validity_start_height.into();
        let window: u64 = TRANSACTION_VALIDITY_WINDOW.into();
        let at: u64 = height.into();
        start <= at && at < start + window
    }

    /// Checks the transaction in itself, for the given network.
    pub fn verify(&self, network_id: NetworkId) -> (r: Result<(), TransactionError>)
        ensures
            r == transaction_check(*self, network_id),
    {
        if self.network_id != network_id {
            return Err(TransactionError::ForeignNetwork);
        }
        if self.sender.same(&self.recipient) {
            return Err(TransactionError::SenderEqualsRecipient);
        }
        if self.value == 0 {
            return Err(TransactionError::ZeroValue);
        }
        if self.value.checked_add(self.fee).is_none() {
            return Err(TransactionError::Overflow);
        }
        Ok(())
    }
}

} // verus!
