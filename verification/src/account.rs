//! Accounts as they stand in the accounts tree and in block bodies.

use vstd::prelude::*;
use crate::address::Address;
use crate::bytes::{put_bytes, put_u64, u64_be};

verus! {

/// The network a block or a transaction belongs to.
#[derive(Clone, Copy, Debug, PartialEq, Eq, Structural, Hash)]
pub enum NetworkId {
    Test,
    Dev,
    Bounty,
    Dummy,
    Main,
}

/// A plain account: a balance.
#[derive(Clone, Copy, Debug, PartialEq, Eq, Structural)]
pub struct BasicAccount {
    pub balance: u64,
}

/// A vesting contract: a balance held for an owner.
#[derive(Clone, Copy, Debug, PartialEq, Eq)]
pub struct VestingContract {
    pub balance: u64,
    pub owner: Address,
}

/// An account of one of the known kinds.
#[derive(Clone, Copy, Debug, PartialEq, Eq)]
pub enum Account {
    Basic(BasicAccount),
    Vesting(VestingContract),
}

/// An account that a block removes from the accounts tree, with its address.
#[derive(Clone, Copy, Debug, PartialEq, Eq)]
pub struct PrunedAccount {
    pub address: Address,
    pub account: Account,
}

/// The byte that stands for a network.
pub open spec fn network_byte(id: NetworkId) -> u8 {
    match id {
        NetworkId::Test => 1,
        NetworkId::Dev => 2,
        NetworkId::Bounty => 3,
        NetworkId::Dummy => 4,
        NetworkId::Main => 42,
    }
}

/// The bytes of an account: a byte for its kind, its balance, and for a
/// contract its owner.
pub open spec fn account_bytes(account: Account) -> Seq<u8> {
    match account {
        Account::Basic(a) => seq![0u8] + u64_be(a.balance),
        Account::Vesting(c) => seq![1u8] + u64_be(c.balance) + c.owner@,
    }
}

/// The bytes of a pruned account: its address, then its account.
pub open spec fn pruned_account_bytes(p: PrunedAccount) -> Seq<u8> {
    p.address@ + account_bytes(p.account)
}

impl NetworkId {
    /// The byte that stands for the network.
    pub fn byte(&self) -> (b: u8)
        ensures
            b == network_byte(*self),
    {
        match self {
            NetworkId::Test => 1,
            NetworkId::Dev => 2,
            NetworkId::Bounty => 3,
            NetworkId::Dummy => 4,
            NetworkId::Main => 42,
        }
    }
}

impl Account {
    /// The balance of the account.
    pub open spec fn spec_balance(&self) -> u64 {
        match *self {
            Account::Basic(a) => a.balance,
            Account::Vesting(c) => c.balance,
        }
    }

    /// Whether the account has to leave the tree: a contract without funds.
    pub open spec fn spec_is_to_be_pruned(&self) -> bool {
        match *self {
            Account::Basic(_) => false,
            Account::Vesting(c) => c.balance == 0,
        }
    }

    /// The balance of the account.
    pub fn balance(&self) -> (b: u64)
        ensures
            b == self.spec_balance(),
    {
        match self {
            Account::Basic(a) => a.balance,
            Account::Vesting(c) => c.balance,
        }
    }

    /// Whether the account has to leave the tree: a contract without funds.
    pub fn is_to_be_pruned(&self) -> (b: bool)
        ensures
            b == self.spec_is_to_be_pruned(),
    {
        match self {
            Account::Basic(_) => false,
            Account::Vesting(c) => c.balance == 0,
        }
    }

    /// Appends the bytes of the account.
    pub fn serialize(&self, out: &mut Vec<u8>)
        ensures
            final(out)@ == old(out)@ + account_bytes(*self),
    {
        match self {
            Account::Basic(a) => {
                out.push(0);
                put_u64(out, a.balance);
                assert(out@ =~= old(out)@ + account_bytes(*self));
            },
            Account::Vesting(c) => {
                out.push(1);
                put_u64(out, c.balance);
                put_bytes(out, c.owner.0.as_slice());
                assert(out@ =~= old(out)@ + account_bytes(*self));
            },
        }
    }
}

impl PrunedAccount {
    /// Appends the bytes of the pruned account.
    pub fn serialize(&self, out: &mut Vec<u8>)
        ensures
            final(out)@ == old(out)@ + pruned_account_bytes(*self),
    {
        put_bytes(out, self.address.0.as_slice());
        self.account.serialize(out);
        assert(out@ =~= old(out)@ + pruned_account_bytes(*self));
    }
}

} // verus!
