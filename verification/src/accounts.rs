//! The state of all accounts: which address holds which account. The state is
//! kept in the order of the addresses, and an address that holds nothing has
//! no entry, so that one state has one form and one hash.

use vstd::prelude::*;
use crate::account::{account_bytes, Account, BasicAccount, PrunedAccount, VestingContract};
use crate::address::Address;
use crate::block::{Block, BlockBody, BlockBodyView, BlockView};
use crate::bytes::{bytes_equal, bytes_less, lex_less, put_bytes};
use crate::hash::{blake2b_digest, Blake2bHash};
use crate::transaction::Transaction;

verus! {

/// Why a block could not be applied to the accounts.
#[derive(Clone, Copy, Debug, PartialEq, Eq, Structural)]
pub enum AccountError {
    InsufficientFunds,
    InvalidCoinValue,
    InvalidPruning,
    AccountsHashMismatch,
}

/// An address with the account that it holds.
#[derive(Clone, Copy, Debug, PartialEq, Eq)]
pub struct AccountEntry {
    pub address: Address,
    pub account: Account,
}

/// The state of all accounts.
#[derive(Debug, PartialEq, Eq)]
pub struct Accounts {
    pub entries: Vec<AccountEntry>,
}

/// The account at an address, if there is one.
pub open spec fn account_at(s: Seq<AccountEntry>, address: Address) -> Option<Account>
    decreases s.len(),
{
    if s.len() == 0 {
        None
    } else if s[0].address@ == address@ {
        Some(s[0].account)
    } else {
        account_at(s.skip(1), address)
    }
}

/// The state with the given account at an address, or with none there: the
/// entry stands where the order of the addresses puts it.
pub open spec fn with_account(s: Seq<AccountEntry>, address: Address, account: Option<Account>) -> Seq<
    AccountEntry,
>
    decreases s.len(),
{
    let entry = match account {
        Some(a) => seq![AccountEntry { address, account: a }],
        None => Seq::empty(),
    };
    if s.len() == 0 {
        entry
    } else if s[0].address@ == address@ {
        entry + s.skip(1)
    } else if lex_less(address@, s[0].address@) {
        entry + s
    } else {
        seq![s[0]] + with_account(s.skip(1), address, account)
    }
}

/// An account of the same kind with another balance; a plain account where
/// there was none.
pub open spec fn with_balance(account: Option<Account>, balance: u64) -> Account {
    match account {
        Some(Account::Vesting(c)) => Account::Vesting(VestingContract { balance, owner: c.owner }),
        _ => Account::Basic(BasicAccount { balance }),
    }
}

/// What is left at an address after a change of balance: a plain account
/// without funds leaves no entry.
pub open spec fn kept(account: Account) -> Option<Account> {
    match account {
        Account::Basic(a) => if a.balance == 0 {
            None
        } else {
            Some(account)
        },
        _ => Some(account),
    }
}

/// The balance at an address; zero where there is no account.
pub open spec fn balance_at(s: Seq<AccountEntry>, address: Address) -> u64 {
    match account_at(s, address) {
        Some(a) => a.spec_balance(),
        None => 0,
    }
}

/// The state after an amount left an address, or the reason why it cannot.
pub open spec fn debited(s: Seq<AccountEntry>, address: Address, amount: int) -> Result<
    Seq<AccountEntry>,
    AccountError,
> {
    if balance_at(s, address) < amount {
        Err(AccountError::InsufficientFunds)
    } else {
        Ok(
            with_account(
                s,
                address,
                kept(with_balance(account_at(s, address), (balance_at(s, address) - amount) as u64)),
            ),
        )
    }
}

/// The state after an amount arrived at an address, or the reason why it
/// cannot.
pub open spec fn credited(s: Seq<AccountEntry>, address: Address, amount: int) -> Result<
    Seq<AccountEntry>,
    AccountError,
> {
    if balance_at(s, address) + amount > u64::MAX {
        Err(AccountError::InvalidCoinValue)
    } else {
        Ok(
            with_account(
                s,
                address,
                kept(with_balance(account_at(s, address), (balance_at(s, address) + amount) as u64)),
            ),
        )
    }
}

/// The state after a transaction: value and fee leave the sender, the value
/// arrives at the recipient.
pub open spec fn transferred(s: Seq<AccountEntry>, tx: Transaction) -> Result<
    Seq<AccountEntry>,
    AccountError,
> {
    match debited(s, tx.sender, tx.value + tx.fee) {
        Err(e) => Err(e),
        Ok(t) => credited(t, tx.recipient, tx.value as int),
    }
}

/// The state before a transaction: the value leaves the recipient, value and
/// fee arrive at the sender.
pub open spec fn transferred_back(s: Seq<AccountEntry>, tx: Transaction) -> Result<
    Seq<AccountEntry>,
    AccountError,
> {
    match debited(s, tx.recipient, tx.value as int) {
        Err(e) => Err(e),
        Ok(t) => credited(t, tx.sender, tx.value + tx.fee),
    }
}

/// The state after the first `n` transactions, one after the other.
pub open spec fn transferred_all(s: Seq<AccountEntry>, txs: Seq<Transaction>, n: int) -> Result<
    Seq<AccountEntry>,
    AccountError,
>
    decreases n,
{
    if n <= 0 {
        Ok(s)
    } else {
        match transferred_all(s, txs, n - 1) {
            Err(e) => Err(e),
            Ok(t) => transferred(t, txs[n - 1]),
        }
    }
}

/// The state before the transactions from position `n` on, taken back from
/// the last one down.
pub open spec fn transferred_back_all(s: Seq<AccountEntry>, txs: Seq<Transaction>, n: int) -> Result<
    Seq<AccountEntry>,
    AccountError,
>
    decreases txs.len() - n,
{
    if n >= txs.len() {
        Ok(s)
    } else {
        match transferred_back_all(s, txs, n + 1) {
            Err(e) => Err(e),
            Ok(t) => transferred_back(t, txs[n]),
        }
    }
}

/// The sum of the fees of the first `n` transactions.
pub open spec fn fee_sum(txs: Seq<Transaction>, n: int) -> int
    decreases n,
{
    if n <= 0 {
        0
    } else {
        fee_sum(txs, n - 1) + txs[n - 1].fee
    }
}

/// The state after the first `n` pruned accounts left it: each has to stand
/// in the state as the block gives it, and to be one that is to be pruned.
pub open spec fn pruned_all(s: Seq<AccountEntry>, pruned: Seq<PrunedAccount>, n: int) -> Result<
    Seq<AccountEntry>,
    AccountError,
>
    decreases n,
{
    if n <= 0 {
        Ok(s)
    } else {
        match pruned_all(s, pruned, n - 1) {
            Err(e) => Err(e),
            Ok(t) => if account_at(t, pruned[n - 1].address) == Some(pruned[n - 1].account)
                && pruned[n - 1].account.spec_is_to_be_pruned() {
                Ok(with_account(t, pruned[n - 1].address, None))
            } else {
                Err(AccountError::InvalidPruning)
            },
        }
    }
}

/// The state after the pruned accounts from position `n` on came back, from
/// the last one down: none may stand in the state already.
pub open spec fn unpruned_all(s: Seq<AccountEntry>, pruned: Seq<PrunedAccount>, n: int) -> Result<
    Seq<AccountEntry>,
    AccountError,
>
    decreases pruned.len() - n,
{
    if n >= pruned.len() {
        Ok(s)
    } else {
        match unpruned_all(s, pruned, n + 1) {
            Err(e) => Err(e),
            Ok(t) => if account_at(t, pruned[n].address) is None {
                Ok(with_account(t, pruned[n].address, Some(pruned[n].account)))
            } else {
                Err(AccountError::InvalidPruning)
            },
        }
    }
}

/// Whether no account of the state is to be pruned.
pub open spec fn nothing_to_prune(s: Seq<AccountEntry>) -> bool {
    forall|i: int| 0 <= i < s.len() ==> !(#[trigger] s[i]).account.spec_is_to_be_pruned()
}

/// The state after a body was applied: its transactions in order, their fees
/// to the miner, its pruned accounts removed; no account that is to be pruned
/// may be left.
#[verifier::opaque]
pub open spec fn body_applied(s: Seq<AccountEntry>, body: BlockBodyView) -> Result<
    Seq<AccountEntry>,
    AccountError,
> {
    match transferred_all(s, body.transactions, body.transactions.len() as int) {
        Err(e) => Err(e),
        Ok(t) => match credited(
            t,
            body.miner,
            fee_sum(body.transactions, body.transactions.len() as int),
        ) {
            Err(e) => Err(e),
            Ok(u) => match pruned_all(u, body.pruned_accounts, body.pruned_accounts.len() as int) {
                Err(e) => Err(e),
                Ok(v) => if nothing_to_prune(v) {
                    Ok(v)
                } else {
                    Err(AccountError::InvalidPruning)
                },
            },
        },
    }
}

/// The state before a body was applied: its pruned accounts back, the fees
/// taken from the miner, its transactions taken back from the last one down.
#[verifier::opaque]
pub open spec fn body_reverted(s: Seq<AccountEntry>, body: BlockBodyView) -> Result<
    Seq<AccountEntry>,
    AccountError,
> {
    match unpruned_all(s, body.pruned_accounts, 0) {
        Err(e) => Err(e),
        Ok(t) => match debited(
            t,
            body.miner,
            fee_sum(body.transactions, body.transactions.len() as int),
        ) {
            Err(e) => Err(e),
            Ok(u) => transferred_back_all(u, body.transactions, 0),
        },
    }
}

/// The bytes of a state: for each entry its address and its account.
pub open spec fn state_bytes(s: Seq<AccountEntry>) -> Seq<u8>
    decreases s.len(),
{
    if s.len() == 0 {
        Seq::empty()
    } else {
        state_bytes(s.drop_last()) + s.last().address@ + account_bytes(s.last().account)
    }
}

/// The hash of a state.
pub open spec fn state_hash(s: Seq<AccountEntry>) -> Seq<u8> {
    blake2b_digest(state_bytes(s))
}

/// The state after a block with a body was applied; the block's header has to
/// name the hash of that state.
pub open spec fn committed(s: Seq<AccountEntry>, block: BlockView) -> Result<
    Seq<AccountEntry>,
    AccountError,
> {
    match body_applied(s, block.body->0) {
        Err(e) => Err(e),
        Ok(t) => if state_hash(t) == block.header.accounts_hash@ {
            Ok(t)
        } else {
            Err(AccountError::AccountsHashMismatch)
        },
    }
}

/// The state before a block with a body was applied.
pub open spec fn reverted(s: Seq<AccountEntry>, block: BlockView) -> Result<
    Seq<AccountEntry>,
    AccountError,
> {
    body_reverted(s, block.body->0)
}

impl View for Accounts {
    type V = Seq<AccountEntry>;

    open spec fn view(&self) -> Seq<AccountEntry> {
        self.entries@
    }
}

impl Clone for Accounts {
    fn clone(&self) -> (r: Self)
        ensures
            r@ == self@,
    {
        Accounts { entries: self.entries.clone() }
    }
}

/// An account of the same kind with another balance.
fn account_with_balance(account: Option<Account>, balance: u64) -> (r: Account)
    ensures
        r == with_balance(account, balance),
{
    match account {
        Some(Account::Vesting(c)) => Account::Vesting(VestingContract { balance, owner: c.owner }),
        _ => Account::Basic(BasicAccount { balance }),
    }
}

/// What is left at an address after a change of balance.
fn account_kept(account: Account) -> (r: Option<Account>)
    ensures
        r == kept(account),
{
    match account {
        Account::Basic(a) => if a.balance == 0 {
            None
        } else {
            Some(account)
        },
        _ => Some(account),
    }
}

impl Accounts {
    /// The state without any account.
    pub fn new() -> (r: Accounts)
        ensures
            r@ == Seq::<AccountEntry>::empty(),
    {
        Accounts { entries: Vec::new() }
    }

    /// The state that holds the given accounts, each put where the order of
    /// the addresses has it; of two accounts at one address the later stays.
    pub fn init(accounts: &Vec<AccountEntry>) -> (r: Accounts)
        ensures
            r@ == initial_state(accounts@, accounts@.len() as int),
    {
        let mut state = Accounts::new();
        let mut i: usize = 0;
        while i < accounts.len()
            invariant
                i <= accounts@.len(),
                state@ == initial_state(accounts@, i as int),
            decreases accounts@.len() - i,
        {
            state = state.put(&accounts[i].address, Some(accounts[i].account));
            i += 1;
        }
        state
    }

    /// The account at an address.
    pub fn get(&self, address: &Address) -> (r: Option<Account>)
        ensures
            r == account_at(self@, *address),
    {
        let mut i: usize = 0;
        assert(self@.skip(0) =~= self@);
        while i < self.entries.len()
            invariant
                i <= self@.len(),
                account_at(self@, *address) == account_at(self@.skip(i as int), *address),
            decreases self@.len() - i,
        {
            proof {
                let rest = self@.skip(i as int);
                assert(rest[0] == self@[i as int]);
                assert(rest.skip(1) =~= self@.skip(i + 1));
            }
            if self.entries[i].address.same(address) {
                return Some(self.entries[i].account);
            }
            i += 1;
        }
        None
    }

    /// The balance at an address.
    pub fn balance(&self, address: &Address) -> (b: u64)
        ensures
            b == balance_at(self@, *address),
    {
        match self.get(address) {
            Some(a) => a.balance(),
            None => 0,
        }
    }

    /// The state with the given account at an address, or with none there.
    pub fn put(&self, address: &Address, account: Option<Account>) -> (r: Accounts)
        ensures
            r@ == with_account(self@, *address, account),
    {
        let mut entries: Vec<AccountEntry> = Vec::new();
        let mut i: usize = 0;
        assert(self@.skip(0) =~= self@);
        while i < self.entries.len() && !self.entries[i].address.same(address) && !bytes_less(
            address.0.as_slice(),
            self.entries[i].address.0.as_slice(),
        )
            invariant
                i <= self@.len(),
                entries@.len() == i,
                with_account(self@, *address, account) == entries@ + with_account(
                    self@.skip(i as int),
                    *address,
                    account,
                ),
            decreases self@.len() - i,
        {
            proof {
                let rest = self@.skip(i as int);
                assert(rest[0] == self@[i as int]);
                assert(rest.skip(1) =~= self@.skip(i + 1));
                assert(entries@.push(self@[i as int]) + with_account(
                    rest.skip(1),
                    *address,
                    account,
                ) =~= entries@ + (seq![rest[0]] + with_account(rest.skip(1), *address, account)));
            }
            entries.push(self.entries[i]);
            i += 1;
        }
        let ghost rest = self@.skip(i as int);
        let ghost front = entries@;
        proof {
            if i < self@.len() {
                assert(rest[0] == self@[i as int]);
            }
        }
        match account {
            Some(a) => {
                entries.push(AccountEntry { address: *address, account: a });
            },
            None => {},
        }
        let ghost middle = entries@;
        if i < self.entries.len() && self.entries[i].address.same(address) {
            i += 1;
        }
        let from = i;
        while i < self.entries.len()
            invariant
                from <= i <= self@.len(),
                entries@ == middle + self@.subrange(from as int, i as int),
            decreases self@.len() - i,
        {
            entries.push(self.entries[i]);
            assert(entries@ =~= middle + self@.subrange(from as int, i + 1));
            i += 1;
        }
        proof {
            assert(self@.subrange(from as int, self@.len() as int) =~= self@.skip(from as int));
            if rest.len() > 0 {
                assert(rest.skip(1) =~= self@.skip(self@.len() - rest.len() + 1));
            }
            assert(entries@ =~= with_account(self@, *address, account));
        }
        Accounts { entries }
    }

    /// The bytes of the state.
    pub fn serialize(&self) -> (out: Vec<u8>)
        ensures
            out@ == state_bytes(self@),
    {
        let mut out: Vec<u8> = Vec::new();
        let mut i: usize = 0;
        assert(self@.subrange(0, 0) =~= Seq::<AccountEntry>::empty());
        while i < self.entries.len()
            invariant
                i <= self@.len(),
                out@ == state_bytes(self@.subrange(0, i as int)),
            decreases self@.len() - i,
        {
            proof {
                let next = self@.subrange(0, i + 1);
                assert(next.drop_last() =~= self@.subrange(0, i as int));
                assert(next.last() == self@[i as int]);
            }
            let ghost before = out@;
            put_bytes(&mut out, self.entries[i].address.0.as_slice());
            self.entries[i].account.serialize(&mut out);
            assert(out@ =~= before + self@[i as int].address@ + account_bytes(
                self@[i as int].account,
            ));
            i += 1;
        }
        assert(self@.subrange(0, self@.len() as int) =~= self@);
        out
    }

    /// The hash of the state.
    pub fn hash(&self) -> (h: Blake2bHash)
        ensures
            h@ == state_hash(self@),
    {
        let bytes = self.serialize();
        Blake2bHash::digest(bytes.as_slice())
    }

    /// Takes an amount from an address.
    pub fn debit(&self, address: &Address, amount: u64) -> (r: Result<Accounts, AccountError>)
        ensures
            match debited(self@, *address, amount as int) {
                Ok(s) => r is Ok && r->Ok_0@ == s,
                Err(e) => r == Err::<Accounts, AccountError>(e),
            },
    {
        let account = self.get(address);
        let balance = self.balance(address);
        if balance < amount {
            return Err(AccountError::InsufficientFunds);
        }
        Ok(self.put(address, account_kept(account_with_balance(account, balance - amount))))
    }

    /// Adds an amount at an address.
    pub fn credit(&self, address: &Address, amount: u64) -> (r: Result<Accounts, AccountError>)
        ensures
            match credited(self@, *address, amount as int) {
                Ok(s) => r is Ok && r->Ok_0@ == s,
                Err(e) => r == Err::<Accounts, AccountError>(e),
            },
    {
        let account = self.get(address);
        let balance = self.balance(address);
        match balance.checked_add(amount) {
            None => Err(AccountError::InvalidCoinValue),
            Some(sum) => Ok(self.put(address, account_kept(account_with_balance(account, sum)))),
        }
    }

    /// Applies a transaction.
    pub fn transfer(&self, tx: &Transaction) -> (r: Result<Accounts, AccountError>)
        ensures
            match transferred(self@, *tx) {
                Ok(s) => r is Ok && r->Ok_0@ == s,
                Err(e) => r == Err::<Accounts, AccountError>(e),
            },
    {
        match tx.value.checked_add(tx.fee) {
            None => Err(AccountError::InsufficientFunds),
            Some(total) => match self.debit(&tx.sender, total) {
                Err(e) => Err(e),
                Ok(state) => state.credit(&tx.recipient, tx.value),
            },
        }
    }

    /// Takes a transaction back.
    pub fn transfer_back(&self, tx: &Transaction) -> (r: Result<Accounts, AccountError>)
        ensures
            match transferred_back(self@, *tx) {
                Ok(s) => r is Ok && r->Ok_0@ == s,
                Err(e) => r == Err::<Accounts, AccountError>(e),
            },
    {
        match self.debit(&tx.recipient, tx.value) {
            Err(e) => Err(e),
            Ok(state) => match tx.value.checked_add(tx.fee) {
                None => Err(AccountError::InvalidCoinValue),
                Some(total) => state.credit(&tx.sender, total),
            },
        }
    }

    /// The sum of the fees of the given transactions, or `None` where it does
    /// not fit into 64 bits.
    pub fn total_fees(txs: &Vec<Transaction>) -> (r: Option<u64>)
        ensures
            match r {
                Some(f) => f == fee_sum(txs@, txs@.len() as int),
                None => fee_sum(txs@, txs@.len() as int) > u64::MAX,
            },
    {
        let mut fees: u64 = 0;
        let mut i: usize = 0;
        while i < txs.len()
            invariant
                i <= txs@.len(),
                fees == fee_sum(txs@, i as int),
            decreases txs@.len() - i,
        {
            match fees.checked_add(txs[i].fee) {
                None => {
                    proof {
                        lemma_fee_sum_grows(txs@, i + 1, txs@.len() as int);
                    }
                    return None;
                },
                Some(sum) => {
                    fees = sum;
                },
            }
            i += 1;
        }
        Some(fees)
    }

    /// Applies transactions one after the other.
    pub fn transfer_all(&self, txs: &Vec<Transaction>) -> (r: Result<Accounts, AccountError>)
        ensures
            match transferred_all(self@, txs@, txs@.len() as int) {
                Ok(s) => r is Ok && r->Ok_0@ == s,
                Err(e) => r == Err::<Accounts, AccountError>(e),
            },
    {
        let mut state = self.clone();
        let mut i: usize = 0;
        while i < txs.len()
            invariant
                i <= txs@.len(),
                transferred_all(self@, txs@, i as int) == Ok::<Seq<AccountEntry>, AccountError>(
                    state@,
                ),
            decreases txs@.len() - i,
        {
            proof {
                lemma_transfer_error_stays(self@, txs@, i + 1, txs@.len() as int);
                assert(transferred_all(self@, txs@, i + 1) == transferred(state@, txs@[i as int]));
            }
            match state.transfer(&txs[i]) {
                Err(e) => {
                    return Err(e);
                },
                Ok(next) => {
                    state = next;
                },
            }
            i += 1;
        }
        Ok(state)
    }

    /// Takes transactions back, from the last one down.
    pub fn transfer_back_all(&self, txs: &Vec<Transaction>) -> (r: Result<Accounts, AccountError>)
        ensures
            match transferred_back_all(self@, txs@, 0) {
                Ok(s) => r is Ok && r->Ok_0@ == s,
                Err(e) => r == Err::<Accounts, AccountError>(e),
            },
    {
        let mut state = self.clone();
        let mut i: usize = txs.len();
        while i > 0
            invariant
                i <= txs@.len(),
                transferred_back_all(self@, txs@, i as int) == Ok::<Seq<AccountEntry>, AccountError>(
                    state@,
                ),
            decreases i,
        {
            proof {
                lemma_transfer_back_error_stays(self@, txs@, i - 1, 0);
                assert(transferred_back_all(self@, txs@, i - 1) == transferred_back(
                    state@,
                    txs@[i - 1],
                ));
            }
            match state.transfer_back(&txs[i - 1]) {
                Err(e) => {
                    return Err(e);
                },
                Ok(next) => {
                    state = next;
                },
            }
            i -= 1;
        }
        Ok(state)
    }

    /// Removes pruned accounts one after the other.
    pub fn prune_all(&self, pruned: &Vec<PrunedAccount>) -> (r: Result<Accounts, AccountError>)
        ensures
            match pruned_all(self@, pruned@, pruned@.len() as int) {
                Ok(s) => r is Ok && r->Ok_0@ == s,
                Err(e) => r == Err::<Accounts, AccountError>(e),
            },
    {
        let mut state = self.clone();
        let mut k: usize = 0;
        while k < pruned.len()
            invariant
                k <= pruned@.len(),
                pruned_all(self@, pruned@, k as int) == Ok::<Seq<AccountEntry>, AccountError>(
                    state@,
                ),
            decreases pruned@.len() - k,
        {
            let p = &pruned[k];
            proof {
                lemma_prune_error_stays(self@, pruned@, k + 1, pruned@.len() as int);
                assert(pruned_all(self@, pruned@, k + 1) == if account_at(state@, p.address)
                    == Some(p.account) && p.account.spec_is_to_be_pruned() {
                    Ok::<Seq<AccountEntry>, AccountError>(with_account(state@, p.address, None))
                } else {
                    Err::<Seq<AccountEntry>, AccountError>(AccountError::InvalidPruning)
                });
            }
            match state.get(&p.address) {
                None => {
                    return Err(AccountError::InvalidPruning);
                },
                Some(found) => {
                    if !same_account(&found, &p.account) || !p.account.is_to_be_pruned() {
                        return Err(AccountError::InvalidPruning);
                    }
                },
            }
            state = state.put(&p.address, None);
            k += 1;
        }
        Ok(state)
    }

    /// Puts pruned accounts back, from the last one down.
    pub fn unprune_all(&self, pruned: &Vec<PrunedAccount>) -> (r: Result<Accounts, AccountError>)
        ensures
            match unpruned_all(self@, pruned@, 0) {
                Ok(s) => r is Ok && r->Ok_0@ == s,
                Err(e) => r == Err::<Accounts, AccountError>(e),
            },
    {
        let mut state = self.clone();
        let mut k: usize = pruned.len();
        while k > 0
            invariant
                k <= pruned@.len(),
                unpruned_all(self@, pruned@, k as int) == Ok::<Seq<AccountEntry>, AccountError>(
                    state@,
                ),
            decreases k,
        {
            let p = &pruned[k - 1];
            proof {
                lemma_unprune_error_stays(self@, pruned@, k - 1, 0);
                assert(unpruned_all(self@, pruned@, k - 1) == if account_at(state@, p.address)
                    is None {
                    Ok::<Seq<AccountEntry>, AccountError>(
                        with_account(state@, p.address, Some(p.account)),
                    )
                } else {
                    Err::<Seq<AccountEntry>, AccountError>(AccountError::InvalidPruning)
                });
            }
            if state.get(&p.address).is_some() {
                return Err(AccountError::InvalidPruning);
            }
            state = state.put(&p.address, Some(p.account));
            k -= 1;
        }
        Ok(state)
    }

    /// Applies a body.
    pub fn apply_body(&self, body: &BlockBody) -> (r: Result<Accounts, AccountError>)
        ensures
            match body_applied(self@, body@) {
                Ok(s) => r is Ok && r->Ok_0@ == s,
                Err(e) => r == Err::<Accounts, AccountError>(e),
            },
    {
        reveal(body_applied);
        let state = match self.transfer_all(&body.transactions) {
            Err(e) => {
                return Err(e);
            },
            Ok(next) => next,
        };
        let state = match Accounts::total_fees(&body.transactions) {
            None => {
                return Err(AccountError::InvalidCoinValue);
            },
            Some(fees) => match state.credit(&body.miner, fees) {
                Err(e) => {
                    return Err(e);
                },
                Ok(next) => next,
            },
        };
        let state = match state.prune_all(&body.pruned_accounts) {
            Err(e) => {
                return Err(e);
            },
            Ok(next) => next,
        };
        if !state.has_nothing_to_prune() {
            return Err(AccountError::InvalidPruning);
        }
        Ok(state)
    }

    /// Takes a body back.
    pub fn revert_body(&self, body: &BlockBody) -> (r: Result<Accounts, AccountError>)
        ensures
            match body_reverted(self@, body@) {
                Ok(s) => r is Ok && r->Ok_0@ == s,
                Err(e) => r == Err::<Accounts, AccountError>(e),
            },
    {
        reveal(body_reverted);
        let state = match self.unprune_all(&body.pruned_accounts) {
            Err(e) => {
                return Err(e);
            },
            Ok(next) => next,
        };
        let state = match Accounts::total_fees(&body.transactions) {
            None => {
                return Err(AccountError::InsufficientFunds);
            },
            Some(fees) => match state.debit(&body.miner, fees) {
                Err(e) => {
                    return Err(e);
                },
                Ok(next) => next,
            },
        };
        state.transfer_back_all(&body.transactions)
    }

    /// Applies a block with a body, or says why it cannot be applied.
    pub fn commit_block(&self, block: &Block) -> (r: Result<Accounts, AccountError>)
        requires
            block.body is Some,
        ensures
            match committed(self@, block@) {
                Ok(s) => r is Ok && r->Ok_0@ == s && state_hash(s) == block.header.accounts_hash@,
                Err(e) => r == Err::<Accounts, AccountError>(e),
            },
    {
        match &block.body {
            None => Err(AccountError::InvalidPruning),
            Some(body) => {
                assert(block@.body->0 == body@);
                match self.apply_body(body) {
                    Err(e) => Err(e),
                    Ok(state) => {
                        if !state.hash().same(&block.header.accounts_hash) {
                            return Err(AccountError::AccountsHashMismatch);
                        }
                        Ok(state)
                    },
                }
            },
        }
    }

    /// Takes a block with a body back, or says why it cannot be taken back.
    pub fn revert_block(&self, block: &Block) -> (r: Result<Accounts, AccountError>)
        requires
            block.body is Some,
        ensures
            match reverted(self@, block@) {
                Ok(s) => r is Ok && r->Ok_0@ == s,
                Err(e) => r == Err::<Accounts, AccountError>(e),
            },
    {
        match &block.body {
            None => Err(AccountError::InvalidPruning),
            Some(body) => {
                assert(block@.body->0 == body@);
                self.revert_body(body)
            },
        }
    }

    /// Whether no account of the state is to be pruned.
    pub fn has_nothing_to_prune(&self) -> (b: bool)
        ensures
            b == nothing_to_prune(self@),
    {
        let mut i: usize = 0;
        while i < self.entries.len()
            invariant
                i <= self@.len(),
                forall|j: int| 0 <= j < i ==> !(#[trigger] self@[j]).account.spec_is_to_be_pruned(),
            decreases self@.len() - i,
        {
            if self.entries[i].account.is_to_be_pruned() {
                return false;
            }
            i += 1;
        }
        true
    }
}

/// The state that holds the first `n` of the given accounts.
pub open spec fn initial_state(accounts: Seq<AccountEntry>, n: int) -> Seq<AccountEntry>
    decreases n,
{
    if n <= 0 {
        Seq::empty()
    } else {
        with_account(
            initial_state(accounts, n - 1),
            accounts[n - 1].address,
            Some(accounts[n - 1].account),
        )
    }
}

/// Whether two accounts are of the same kind and hold the same.
fn same_account(a: &Account, b: &Account) -> (r: bool)
    ensures
        r == (*a == *b),
{
    match (a, b) {
        (Account::Basic(x), Account::Basic(y)) => x.balance == y.balance,
        (Account::Vesting(x), Account::Vesting(y)) => x.balance == y.balance && x.owner.same(
            &y.owner,
        ),
        _ => false,
    }
}

/// The sum of the fees does not shrink with more transactions.
pub proof fn lemma_fee_sum_grows(txs: Seq<Transaction>, n: int, m: int)
    requires
        n <= m,
    ensures
        fee_sum(txs, n) <= fee_sum(txs, m),
    decreases m - n,
{
    if n < m {
        lemma_fee_sum_grows(txs, n, m - 1);
    }
}

/// A transaction that cannot be applied stops all that follow.
pub proof fn lemma_transfer_error_stays(s: Seq<AccountEntry>, txs: Seq<Transaction>, n: int, m: int)
    requires
        n <= m,
    ensures
        transferred_all(s, txs, n) is Err ==> transferred_all(s, txs, m) == transferred_all(
            s,
            txs,
            n,
        ),
    decreases m - n,
{
    if n < m {
        lemma_transfer_error_stays(s, txs, n, m - 1);
    }
}

/// A pruned account that cannot leave stops all that follow.
pub proof fn lemma_prune_error_stays(s: Seq<AccountEntry>, pruned: Seq<PrunedAccount>, n: int, m: int)
    requires
        n <= m,
    ensures
        pruned_all(s, pruned, n) is Err ==> pruned_all(s, pruned, m) == pruned_all(s, pruned, n),
    decreases m - n,
{
    if n < m {
        lemma_prune_error_stays(s, pruned, n, m - 1);
    }
}

/// A pruned account that cannot come back stops all before it.
pub proof fn lemma_unprune_error_stays(
    s: Seq<AccountEntry>,
    pruned: Seq<PrunedAccount>,
    n: int,
    m: int,
)
    requires
        m <= n,
    ensures
        unpruned_all(s, pruned, n) is Err ==> unpruned_all(s, pruned, m) == unpruned_all(
            s,
            pruned,
            n,
        ),
    decreases n - m,
{
    if m < n {
        lemma_unprune_error_stays(s, pruned, n, m + 1);
    }
}

/// A transaction that cannot be taken back stops all before it.
pub proof fn lemma_transfer_back_error_stays(
    s: Seq<AccountEntry>,
    txs: Seq<Transaction>,
    n: int,
    m: int,
)
    requires
        m <= n,
    ensures
        transferred_back_all(s, txs, n) is Err ==> transferred_back_all(s, txs, m)
            == transferred_back_all(s, txs, n),
    decreases n - m,
{
    if m < n {
        lemma_transfer_back_error_stays(s, txs, n, m + 1);
    }
}

} // verus!
