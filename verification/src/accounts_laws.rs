//! Laws of the accounts: what is taken back is what was applied.

use vstd::prelude::*;
use crate::account::{Account, BasicAccount, PrunedAccount};
use crate::accounts::{initial_state, account_at, balance_at, body_applied, body_reverted, committed, credited, debited, fee_sum, kept, nothing_to_prune, pruned_all, reverted, transferred, transferred_all, transferred_back, transferred_back_all, unpruned_all, with_account, with_balance, AccountEntry, AccountError};
use crate::address::Address;
use crate::block::{BlockBodyView, BlockView};
use crate::bytes::lex_less;
use crate::transaction::Transaction;

verus! {

/// Whether an address stands before every entry of a state.
pub open spec fn before_all(address: Seq<u8>, s: Seq<AccountEntry>) -> bool {
    forall|i: int| 0 <= i < s.len() ==> lex_less(address, (#[trigger] s[i]).address@)
}

/// Whether a state is in its one form: its entries stand in the strict order
/// of their addresses, and no plain account is without funds.
pub open spec fn canonical(s: Seq<AccountEntry>) -> bool
    decreases s.len(),
{
    s.len() == 0 || {
        &&& before_all(s[0].address@, s.skip(1))
        &&& kept(s[0].account) is Some
        &&& canonical(s.skip(1))
    }
}

/// No byte string stands before itself.
pub proof fn lemma_less_irreflexive(a: Seq<u8>)
    ensures
        !lex_less(a, a),
    decreases a.len(),
{
    if a.len() > 0 {
        lemma_less_irreflexive(a.skip(1));
    }
}

/// The order of byte strings is transitive.
pub proof fn lemma_less_transitive(a: Seq<u8>, b: Seq<u8>, c: Seq<u8>)
    requires
        lex_less(a, b),
        lex_less(b, c),
    ensures
        lex_less(a, c),
    decreases a.len(),
{
    if a.len() > 0 && b.len() > 0 && c.len() > 0 {
        if a[0] == b[0] && b[0] == c[0] {
            lemma_less_transitive(a.skip(1), b.skip(1), c.skip(1));
        }
    }
}

/// Of two byte strings that differ, one stands before the other.
pub proof fn lemma_less_total(a: Seq<u8>, b: Seq<u8>)
    ensures
        a == b || lex_less(a, b) || lex_less(b, a),
    decreases a.len(),
{
    if a.len() == 0 || b.len() == 0 {
        if a.len() == 0 && b.len() == 0 {
            assert(a =~= b);
        }
    } else if a[0] == b[0] {
        lemma_less_total(a.skip(1), b.skip(1));
        if a.skip(1) == b.skip(1) {
            assert(a =~= seq![a[0]] + a.skip(1));
            assert(b =~= seq![b[0]] + b.skip(1));
        }
    }
}

/// An address that stands before all entries of a state has no account in
/// it.
pub proof fn lemma_absent(s: Seq<AccountEntry>, address: Address)
    requires
        before_all(address@, s),
    ensures
        account_at(s, address) is None,
    decreases s.len(),
{
    if s.len() > 0 {
        assert(lex_less(address@, s[0].address@));
        lemma_less_irreflexive(address@);
        assert forall|i: int| 0 <= i < s.skip(1).len() implies lex_less(
            address@,
            (#[trigger] s.skip(1)[i]).address@,
        ) by {
            assert(s.skip(1)[i] == s[i + 1]);
        }
        lemma_absent(s.skip(1), address);
    }
}

/// What stands before the first entry of a state in its one form stands
/// before all of them.
pub proof fn lemma_before_first(s: Seq<AccountEntry>, address: Seq<u8>)
    requires
        canonical(s),
        s.len() > 0,
        lex_less(address, s[0].address@),
    ensures
        before_all(address, s),
{
    assert forall|i: int| 0 <= i < s.len() implies lex_less(address, (#[trigger] s[i]).address@) by {
        if i > 0 {
            assert(s.skip(1)[i - 1] == s[i]);
            lemma_less_transitive(address, s[0].address@, s[i].address@);
        }
    }
}

/// The account at an address is the one that was put there.
pub proof fn lemma_put_get(s: Seq<AccountEntry>, address: Address, account: Option<Account>)
    requires
        canonical(s),
    ensures
        account_at(with_account(s, address, account), address) == account,
    decreases s.len(),
{
    let entry = match account {
        Some(a) => seq![AccountEntry { address, account: a }],
        None => Seq::<AccountEntry>::empty(),
    };
    if s.len() == 0 {
        if account is Some {
            assert(entry.skip(1) =~= Seq::<AccountEntry>::empty());
        }
    } else if s[0].address@ == address@ {
        let r = entry + s.skip(1);
        lemma_absent(s.skip(1), address);
        if account is Some {
            assert(r[0] == entry[0]);
        } else {
            assert(r =~= s.skip(1));
        }
    } else if lex_less(address@, s[0].address@) {
        let r = entry + s;
        lemma_before_first(s, address@);
        lemma_absent(s, address);
        if account is Some {
            assert(r[0] == entry[0]);
        } else {
            assert(r =~= s);
        }
    } else {
        let rest = with_account(s.skip(1), address, account);
        let r = seq![s[0]] + rest;
        lemma_put_get(s.skip(1), address, account);
        assert(r[0] == s[0]);
        assert(r.skip(1) =~= rest);
    }
}

/// Putting an account where one was put before leaves only the later one.
pub proof fn lemma_put_put(
    s: Seq<AccountEntry>,
    address: Address,
    first: Option<Account>,
    second: Option<Account>,
)
    requires
        canonical(s),
    ensures
        with_account(with_account(s, address, first), address, second) == with_account(
            s,
            address,
            second,
        ),
    decreases s.len(),
{
    let one = match first {
        Some(a) => seq![AccountEntry { address, account: a }],
        None => Seq::<AccountEntry>::empty(),
    };
    let two = match second {
        Some(a) => seq![AccountEntry { address, account: a }],
        None => Seq::<AccountEntry>::empty(),
    };
    lemma_less_irreflexive(address@);
    if s.len() == 0 {
        if first is Some {
            assert(one.skip(1) =~= Seq::<AccountEntry>::empty());
            assert(two + one.skip(1) =~= two);
        }
    } else if s[0].address@ == address@ {
        let r = one + s.skip(1);
        if first is Some {
            assert(r[0] == one[0]);
            assert(r.skip(1) =~= s.skip(1));
        } else {
            assert(r =~= s.skip(1));
            lemma_put_absent(s.skip(1), address, second);
        }
    } else if lex_less(address@, s[0].address@) {
        let r = one + s;
        if first is Some {
            assert(r[0] == one[0]);
            assert(r.skip(1) =~= s);
        } else {
            assert(r =~= s);
        }
    } else {
        let rest = with_account(s.skip(1), address, first);
        let r = seq![s[0]] + rest;
        assert(r[0] == s[0]);
        assert(r.skip(1) =~= rest);
        lemma_put_put(s.skip(1), address, first, second);
    }
}

/// Putting an account at an address that stands before all entries puts it
/// in front of them.
pub proof fn lemma_put_absent(s: Seq<AccountEntry>, address: Address, account: Option<Account>)
    requires
        before_all(address@, s),
    ensures
        with_account(s, address, account) == (match account {
            Some(a) => seq![AccountEntry { address, account: a }],
            None => Seq::<AccountEntry>::empty(),
        }) + s,
{
    lemma_less_irreflexive(address@);
    if s.len() == 0 {
        let entry = match account {
            Some(a) => seq![AccountEntry { address, account: a }],
            None => Seq::<AccountEntry>::empty(),
        };
        assert(entry + s =~= entry);
    } else {
        assert(lex_less(address@, s[0].address@));
    }
}

/// Putting the account that stands at an address there again changes
/// nothing.
pub proof fn lemma_put_same(s: Seq<AccountEntry>, address: Address)
    requires
        canonical(s),
    ensures
        with_account(s, address, account_at(s, address)) == s,
    decreases s.len(),
{
    if s.len() == 0 {
    } else if s[0].address@ == address@ {
        let entry = seq![AccountEntry { address, account: s[0].account }];
        assert(entry[0].address.0 =~= s[0].address.0);
        assert(entry + s.skip(1) =~= s);
    } else if lex_less(address@, s[0].address@) {
        lemma_before_first(s, address@);
        lemma_absent(s, address);
        assert(Seq::<AccountEntry>::empty() + s =~= s);
    } else {
        lemma_put_same(s.skip(1), address);
        assert(seq![s[0]] + s.skip(1) =~= s);
    }
}

/// What stands before all entries of a state and before an address stands
/// before all entries of the state with an account put at that address.
pub proof fn lemma_put_keeps_before(
    s: Seq<AccountEntry>,
    address: Address,
    account: Option<Account>,
    other: Seq<u8>,
)
    requires
        before_all(other, s),
        lex_less(other, address@),
    ensures
        before_all(other, with_account(s, address, account)),
    decreases s.len(),
{
    let entry = match account {
        Some(a) => seq![AccountEntry { address, account: a }],
        None => Seq::<AccountEntry>::empty(),
    };
    let r = with_account(s, address, account);
    if s.len() == 0 {
    } else if s[0].address@ == address@ {
        assert forall|i: int| 0 <= i < r.len() implies lex_less(other, (#[trigger] r[i]).address@) by {
            if i < entry.len() {
                assert(r[i] == entry[i]);
            } else {
                assert(r[i] == s.skip(1)[i - entry.len()]);
                assert(s.skip(1)[i - entry.len()] == s[i - entry.len() + 1]);
            }
        }
    } else if lex_less(address@, s[0].address@) {
        assert forall|i: int| 0 <= i < r.len() implies lex_less(other, (#[trigger] r[i]).address@) by {
            if i < entry.len() {
                assert(r[i] == entry[i]);
            } else {
                assert(r[i] == s[i - entry.len()]);
            }
        }
    } else {
        let rest = with_account(s.skip(1), address, account);
        assert forall|i: int| 0 <= i < s.skip(1).len() implies lex_less(
            other,
            (#[trigger] s.skip(1)[i]).address@,
        ) by {
            assert(s.skip(1)[i] == s[i + 1]);
        }
        lemma_put_keeps_before(s.skip(1), address, account, other);
        assert forall|i: int| 0 <= i < r.len() implies lex_less(other, (#[trigger] r[i]).address@) by {
            if i == 0 {
                assert(r[0] == s[0]);
            } else {
                assert(r[i] == rest[i - 1]);
            }
        }
    }
}

/// A state stays in its one form when an account that may stand in it is put
/// into it or one is taken out.
pub proof fn lemma_put_canonical(s: Seq<AccountEntry>, address: Address, account: Option<Account>)
    requires
        canonical(s),
        account is Some ==> kept(account->0) is Some,
    ensures
        canonical(with_account(s, address, account)),
    decreases s.len(),
{
    let entry = match account {
        Some(a) => seq![AccountEntry { address, account: a }],
        None => Seq::<AccountEntry>::empty(),
    };
    let r = with_account(s, address, account);
    if s.len() == 0 {
        if account is Some {
            assert(r.skip(1) =~= Seq::<AccountEntry>::empty());
            assert(canonical(r.skip(1)));
        }
    } else if s[0].address@ == address@ {
        assert(r == entry + s.skip(1));
        if account is Some {
            assert(r[0] == entry[0]);
            assert(r.skip(1) =~= s.skip(1));
            assert(before_all(address@, s.skip(1)));
        } else {
            assert(r =~= s.skip(1));
        }
    } else if lex_less(address@, s[0].address@) {
        assert(r == entry + s);
        lemma_before_first(s, address@);
        if account is Some {
            assert(r[0] == entry[0]);
            assert(r.skip(1) =~= s);
        } else {
            assert(r =~= s);
        }
    } else {
        let rest = with_account(s.skip(1), address, account);
        assert(r == seq![s[0]] + rest);
        lemma_put_canonical(s.skip(1), address, account);
        lemma_less_total(address@, s[0].address@);
        assert(lex_less(s[0].address@, address@));
        lemma_put_keeps_before(s.skip(1), address, account, s[0].address@);
        assert(r[0] == s[0]);
        assert(r.skip(1) =~= rest);
    }
}

/// An account that stands in a state in its one form may stand there: it is
/// no plain account without funds.
pub proof fn lemma_stored_kept(s: Seq<AccountEntry>, address: Address)
    requires
        canonical(s),
    ensures
        account_at(s, address) is Some ==> kept(account_at(s, address)->0) is Some,
    decreases s.len(),
{
    if s.len() > 0 && s[0].address@ != address@ {
        lemma_stored_kept(s.skip(1), address);
    }
}

/// An amount that left an address and arrives there again leaves the state
/// as it was.
pub proof fn lemma_debit_credit(s: Seq<AccountEntry>, address: Address, amount: int)
    requires
        canonical(s),
        0 <= amount,
        debited(s, address, amount) is Ok,
    ensures
        canonical(debited(s, address, amount)->Ok_0),
        credited(debited(s, address, amount)->Ok_0, address, amount) == Ok::<
            Seq<AccountEntry>,
            AccountError,
        >(s),
{
    let account = account_at(s, address);
    let balance = balance_at(s, address);
    let less = kept(with_balance(account, (balance - amount) as u64));
    let t = with_account(s, address, less);
    lemma_stored_kept(s, address);
    lemma_put_canonical(s, address, less);
    lemma_put_get(s, address, less);
    lemma_put_put(s, address, less, kept(with_balance(less, balance)));
    lemma_put_same(s, address);
    assert(balance_at(t, address) == balance - amount);
    assert(kept(with_balance(less, balance)) == account);
}

/// An amount that arrived at an address and leaves it again leaves the state
/// as it was.
pub proof fn lemma_credit_debit(s: Seq<AccountEntry>, address: Address, amount: int)
    requires
        canonical(s),
        0 <= amount,
        credited(s, address, amount) is Ok,
    ensures
        canonical(credited(s, address, amount)->Ok_0),
        debited(credited(s, address, amount)->Ok_0, address, amount) == Ok::<
            Seq<AccountEntry>,
            AccountError,
        >(s),
{
    let account = account_at(s, address);
    let balance = balance_at(s, address);
    let more = kept(with_balance(account, (balance + amount) as u64));
    let t = with_account(s, address, more);
    lemma_stored_kept(s, address);
    lemma_put_canonical(s, address, more);
    lemma_put_get(s, address, more);
    lemma_put_put(s, address, more, kept(with_balance(more, balance)));
    lemma_put_same(s, address);
    assert(balance_at(t, address) == balance + amount);
    assert(kept(with_balance(more, balance)) == account);
}

/// A transaction that was applied and is taken back leaves the state as it
/// was.
pub proof fn lemma_transfer_back(s: Seq<AccountEntry>, tx: Transaction)
    requires
        canonical(s),
        transferred(s, tx) is Ok,
    ensures
        canonical(transferred(s, tx)->Ok_0),
        transferred_back(transferred(s, tx)->Ok_0, tx) == Ok::<Seq<AccountEntry>, AccountError>(s),
{
    let total = tx.value + tx.fee;
    lemma_debit_credit(s, tx.sender, total);
    let t = debited(s, tx.sender, total)->Ok_0;
    lemma_credit_debit(t, tx.recipient, tx.value as int);
}

/// The first `n` transactions, applied and then taken back from the last of
/// them down to the one at `k`, leave the state after the first `k`.
pub proof fn lemma_transfers_back(s: Seq<AccountEntry>, txs: Seq<Transaction>, n: int, k: int)
    requires
        canonical(s),
        0 <= k <= n == txs.len(),
        transferred_all(s, txs, n) is Ok,
    ensures
        transferred_all(s, txs, k) is Ok,
        canonical(transferred_all(s, txs, k)->Ok_0),
        transferred_back_all(transferred_all(s, txs, n)->Ok_0, txs, k) == transferred_all(s, txs, k),
    decreases n - k,
{
    lemma_transfers_ok(s, txs, n, k);
    if k < n {
        lemma_transfers_back(s, txs, n, k + 1);
        let before = transferred_all(s, txs, k)->Ok_0;
        assert(transferred_all(s, txs, k + 1) == transferred(before, txs[k]));
        lemma_transfer_back(before, txs[k]);
    }
}

/// Where the first `n` transactions can be applied, the first `k` of them
/// can, and they leave the state in its one form.
pub proof fn lemma_transfers_ok(s: Seq<AccountEntry>, txs: Seq<Transaction>, n: int, k: int)
    requires
        canonical(s),
        0 <= k <= n,
        transferred_all(s, txs, n) is Ok,
    ensures
        transferred_all(s, txs, k) is Ok,
        canonical(transferred_all(s, txs, k)->Ok_0),
    decreases n,
{
    if k < n {
        lemma_transfers_ok(s, txs, n - 1, k);
    } else if n > 0 {
        lemma_transfers_ok(s, txs, n - 1, n - 1);
        lemma_transfer_back(transferred_all(s, txs, n - 1)->Ok_0, txs[n - 1]);
    }
}

/// Where the first `n` pruned accounts can leave, the first `k` of them can,
/// and they leave the state in its one form.
pub proof fn lemma_prunes_ok(s: Seq<AccountEntry>, pruned: Seq<PrunedAccount>, n: int, k: int)
    requires
        canonical(s),
        0 <= k <= n,
        pruned_all(s, pruned, n) is Ok,
    ensures
        pruned_all(s, pruned, k) is Ok,
        canonical(pruned_all(s, pruned, k)->Ok_0),
    decreases n,
{
    if k < n {
        lemma_prunes_ok(s, pruned, n - 1, k);
    } else if n > 0 {
        lemma_prunes_ok(s, pruned, n - 1, n - 1);
        lemma_put_canonical(pruned_all(s, pruned, n - 1)->Ok_0, pruned[n - 1].address, None);
    }
}

/// The first `n` pruned accounts, taken out and then put back from the last
/// of them down to the one at `k`, leave the state after the first `k`.
pub proof fn lemma_prunes_back(s: Seq<AccountEntry>, pruned: Seq<PrunedAccount>, n: int, k: int)
    requires
        canonical(s),
        0 <= k <= n == pruned.len(),
        pruned_all(s, pruned, n) is Ok,
    ensures
        pruned_all(s, pruned, k) is Ok,
        unpruned_all(pruned_all(s, pruned, n)->Ok_0, pruned, k) == pruned_all(s, pruned, k),
    decreases n - k,
{
    lemma_prunes_ok(s, pruned, n, k);
    if k < n {
        lemma_prunes_back(s, pruned, n, k + 1);
        lemma_prunes_ok(s, pruned, n, k + 1);
        let before = pruned_all(s, pruned, k)->Ok_0;
        let after = pruned_all(s, pruned, k + 1)->Ok_0;
        let p = pruned[k];
        assert(after == with_account(before, p.address, None));
        lemma_put_get(before, p.address, None);
        lemma_put_put(before, p.address, None, Some(p.account));
        lemma_put_same(before, p.address);
    }
}

/// A body that was applied to a state in its one form and is taken back
/// leaves the state as it was.
pub proof fn lemma_body_reverted(s: Seq<AccountEntry>, body: BlockBodyView)
    requires
        canonical(s),
        body_applied(s, body) is Ok,
    ensures
        canonical(body_applied(s, body)->Ok_0),
        body_reverted(body_applied(s, body)->Ok_0, body) == Ok::<Seq<AccountEntry>, AccountError>(s),
{
    reveal(body_applied);
    reveal(body_reverted);
    let n = body.transactions.len() as int;
    let m = body.pruned_accounts.len() as int;
    let fees = fee_sum(body.transactions, n);
    lemma_fees_positive(body.transactions, n);
    lemma_transfers_back(s, body.transactions, n, 0);
    let t = transferred_all(s, body.transactions, n)->Ok_0;
    lemma_transfers_ok(s, body.transactions, n, n);
    lemma_credit_debit(t, body.miner, fees);
    let u = credited(t, body.miner, fees)->Ok_0;
    lemma_prunes_back(u, body.pruned_accounts, m, 0);
    lemma_prunes_ok(u, body.pruned_accounts, m, m);
}

/// A sum of fees is not negative.
pub proof fn lemma_fees_positive(txs: Seq<Transaction>, n: int)
    ensures
        fee_sum(txs, n) >= 0,
    decreases n,
{
    if n > 0 {
        lemma_fees_positive(txs, n - 1);
    }
}

/// The state that holds given accounts, none of them a plain account without
/// funds, is in its one form.
pub proof fn lemma_initial_canonical(accounts: Seq<AccountEntry>, n: int)
    requires
        0 <= n <= accounts.len(),
        forall|i: int| 0 <= i < accounts.len() ==> kept((#[trigger] accounts[i]).account) is Some,
    ensures
        canonical(initial_state(accounts, n)),
    decreases n,
{
    if n > 0 {
        lemma_initial_canonical(accounts, n - 1);
        lemma_put_canonical(
            initial_state(accounts, n - 1),
            accounts[n - 1].address,
            Some(accounts[n - 1].account),
        );
    }
}

/// A block that was applied to the accounts and is taken back leaves the
/// accounts as they were.
pub proof fn lemma_revert_undoes_commit(s: Seq<AccountEntry>, block: BlockView)
    requires
        canonical(s),
        committed(s, block) is Ok,
    ensures
        canonical(committed(s, block)->Ok_0),
        reverted(committed(s, block)->Ok_0, block) == Ok::<Seq<AccountEntry>, AccountError>(s),
{
    lemma_body_reverted(s, block.body->0);
}

} // verus!
