//! Changing the main chain to a fork: the accounts and the window of recent
//! blocks go back to the common ancestor and forward along the fork.

use vstd::prelude::*;
use crate::accounts::{committed, reverted, state_hash, AccountEntry, AccountError, Accounts};
use crate::block::{Block, BlockView};
use crate::accounts_laws::canonical;
use crate::blockchain::{chain_slice, chain_window, lists_chain, store_grown, tells_rebranched, trace_ok, traced, window_start, Blockchain, BlockchainEvent, PushError, PushResult};
use crate::chain_info::ChainInfo;
use crate::chain_store::{entries_ok, entry_ok, fork_base, fork_path_of, is_fork_path, key_at, main_entry_ok, main_ok, main_with, marked_ok, same_block, StoreEntry};
use crate::block::{follows, header_hash};
use crate::hash::Blake2bHash;
use crate::push::{known, same_state};
use crate::target::{compact_expand, difficulty_of};
use crate::policy::TRANSACTION_VALIDITY_WINDOW;
use crate::push::{lemma_grown, lemma_window_push};
use crate::transaction_cache::{descriptor_of, window_contains_any, window_pushed, DescriptorView, TransactionCache};

verus! {

/// The accounts after the blocks of the main chain from height `h` down to
/// the one above height `a` were taken back, or the reason why one of them
/// cannot be taken back. After each block the hash of the accounts has to be
/// the one that the block before names.
#[verifier::opaque]
pub open spec fn reverted_upto(
    e: Seq<StoreEntry>,
    m: Seq<usize>,
    accounts: Seq<AccountEntry>,
    h: int,
    a: int,
) -> Result<Seq<AccountEntry>, AccountError>
    decreases h - a,
{
    if h <= a || h < 2 {
        Ok(accounts)
    } else {
        match reverted(accounts, e[m[h - 1] as int].info.head@) {
            Err(error) => Err(error),
            Ok(before) => if state_hash(before) != e[m[h
                - 2] as int].info.head.header.accounts_hash@ {
                Err(AccountError::AccountsHashMismatch)
            } else {
                reverted_upto(e, m, before, h - 1, a)
            },
        }
    }
}

/// The accounts and the window after the first `k` entries of a fork path
/// were applied from the `k`-th down to the first, or `None` where the window
/// holds a transaction of one of them or the accounts do not take it.
#[verifier::opaque]
pub open spec fn fork_applied(
    e: Seq<StoreEntry>,
    path: Seq<usize>,
    accounts: Seq<AccountEntry>,
    window: Seq<DescriptorView>,
    k: int,
) -> Option<(Seq<AccountEntry>, Seq<DescriptorView>)>
    decreases k,
{
    if k <= 0 {
        Some((accounts, window))
    } else {
        let block = e[path[k - 1] as int].info.head@;
        if window_contains_any(window, block) {
            None
        } else {
            match committed(accounts, block) {
                Err(_) => None,
                Ok(after) => fork_applied(e, path, after, window_pushed(window, block), k - 1),
            }
        }
    }
}

/// Copies of the accounts and of the window of recent blocks, to work on
/// while the chain itself stays as it is.
#[derive(Debug)]
pub struct Workspace {
    pub accounts: Accounts,
    pub cache: TransactionCache,
}

/// Where the window of a chain that lost its blocks above height `a` starts:
/// where it started, or at `a` where that is lower.
pub open spec fn kept_start(len: int, a: int) -> int {
    if window_start(len) < a {
        window_start(len)
    } else {
        a
    }
}

/// The height at which the fork of an entry leaves the main chain: the
/// entry's own height where it is on the main chain.
pub open spec fn base_of(e: Seq<StoreEntry>, p: int) -> int {
    if fork_path_of(e, p).len() == 0 {
        e[p].info.head.header.height as int
    } else {
        fork_base(e, fork_path_of(e, p))
    }
}

/// What becomes of a candidate that follows on the entry at `prev` and makes
/// its fork the chain of the greatest total difficulty: the blocks of the
/// main chain above the common ancestor are taken back, then the blocks of
/// the fork are applied, the candidate last.
pub open spec fn rebranch_result(chain: Blockchain, prev: int, block: BlockView) -> PushResult {
    let e = chain.chain_store.entries@;
    let m = chain.chain_store.main@;
    let path = fork_path_of(e, prev);
    let a = base_of(e, prev);
    match reverted_upto(e, m, chain.accounts@, m.len() as int, a) {
        Err(error) => PushResult::Invalid(PushError::AccountsError(error)),
        Ok(s) => match fork_applied(
            e,
            path,
            s,
            chain_slice(e, m, window_start(a), a),
            path.len() as int,
        ) {
            None => PushResult::Invalid(PushError::InvalidFork),
            Some((t, w)) => if window_contains_any(w, block) || committed(t, block) is Err {
                PushResult::Invalid(PushError::InvalidFork)
            } else {
                PushResult::Rebranched
            },
        },
    }
}

impl Blockchain {
    /// The blocks of the main chain above a height, each with its hash, from
    /// the lowest to the highest.
    pub fn blocks_above(&self, a: usize) -> (r: Vec<(Blake2bHash, Block)>)
        requires
            self.chain_store.wf(),
            a <= self.chain_store.main@.len(),
        ensures
            r@.len() == self.chain_store.main@.len() - a,
            forall|i: int|
                0 <= i < r@.len() ==> (#[trigger] r@[i]).0
                    == self.chain_store.entries@[self.chain_store.main@[a + i] as int].hash
                    && r@[i].1@ == self.chain_store.entries@[self.chain_store.main@[a
                    + i] as int].info.head@,
    {
        let mut r: Vec<(Blake2bHash, Block)> = Vec::new();
        let mut i: usize = a;
        while i < self.chain_store.main.len()
            invariant
                a <= i <= self.chain_store.main@.len(),
                self.chain_store.wf(),
                r@.len() == i - a,
                forall|j: int|
                    0 <= j < r@.len() ==> (#[trigger] r@[j]).0
                        == self.chain_store.entries@[self.chain_store.main@[a + j] as int].hash
                        && r@[j].1@ == self.chain_store.entries@[self.chain_store.main@[a
                        + j] as int].info.head@,
            decreases self.chain_store.main@.len() - i,
        {
            proof {
                assert(main_entry_ok(self.chain_store.entries@, self.chain_store.main@, i as int));
            }
            let at = self.chain_store.main[i];
            r.push((self.chain_store.entries[at].hash, self.chain_store.block_at(at, true)));
            i += 1;
        }
        r
    }

    /// Makes a candidate that follows on the entry at `prev` the head of the
    /// main chain, with all of its fork, unless the fork is not valid.
    pub(crate) fn rebranch(&mut self, hash: Blake2bHash, chain_info: ChainInfo, prev: usize) -> (result:
        PushResult)
        requires
            old(self).wf(),
            !known(old(self).chain_store.entries@, hash@),
            hash@ == header_hash(chain_info.head.header),
            chain_info.head.body is Some,
            chain_info.counts_ok(),
            !chain_info.on_main_chain,
            chain_info.main_chain_successor is None,
            prev < old(self).chain_store.entries@.len(),
            follows(
                chain_info.head.header,
                old(self).chain_store.entries@[prev as int].info.head.header,
            ),
            chain_info.total_difficulty@ == old(self).chain_store.entries@[prev as int].info.total_difficulty@ + difficulty_of(
                compact_expand(chain_info.head.header.n_bits.0),
            ),
        ensures
            final(self).wf(),
            result == rebranch_result(*old(self), prev as int, chain_info.head@),
            result != PushResult::Rebranched ==> same_state(*final(self), *old(self)) && final(self).events == old(self).events && final(self).history == old(self).history && final(self).chain_proof == old(self).chain_proof,
            old(self).traceable() ==> final(self).traceable() && (result == PushResult::Rebranched
                || result == PushResult::Invalid(PushError::InvalidFork)),
            result == PushResult::Rebranched ==> {
                &&& final(self).head_hash == hash
                &&& final(self).main_chain@.head == chain_info.head@
                &&& final(self).main_chain@.total_difficulty == chain_info@.total_difficulty
                &&& state_hash(final(self).accounts@) == chain_info.head.header.accounts_hash@
                &&& final(self).spec_height() == chain_info.head.header.height
                &&& final(self).events@.len() == old(self).events@.len() + 1
                &&& final(self).events@.subrange(0, old(self).events@.len() as int) == old(self).events@
                &&& final(self).network_id == old(self).network_id
                &&& final(self).genesis_hash == old(self).genesis_hash
                &&& final(self).chain_proof is None
                &&& store_grown(
                    old(self).chain_store.entries@,
                    final(self).chain_store.entries@,
                    chain_info.head@,
                )
                &&& final(self).chain_store.main@ == (old(self).chain_store.main@.subrange(
                    0,
                    base_of(old(self).chain_store.entries@, prev as int),
                ) + fork_path_of(old(self).chain_store.entries@, prev as int).reverse()).push(
                    old(self).chain_store.entries@.len() as usize,
                )
                &&& tells_rebranched(
                    final(self).events@.last(),
                    old(self).chain_store.entries@,
                    old(self).chain_store.main@,
                    final(self).chain_store.entries@,
                    final(self).chain_store.main@,
                    base_of(old(self).chain_store.entries@, prev as int),
                )
            },
    {
        let ghost e0 = self.chain_store.entries@;
        let ghost m0 = self.chain_store.main@;
        // Find the common ancestor between our current main chain and the fork chain.
        // Walk up the fork chain until we find a block that is part of the main chain.
        // Store the chain along the way.
        let path_prev: Vec<usize> = if self.chain_store.entries[prev].info.on_main_chain {
            Vec::new()
        } else {
            self.chain_store.fork_path(prev)
        };
        proof {
            assert(path_prev@ =~= fork_path_of(e0, prev as int));
            if path_prev@.len() > 0 {
                assert(0 < path_prev@[path_prev@.len() - 1] < e0.len());
                assert(entry_ok(e0, path_prev@.last() as int));
            }
        }
        let ancestor: usize = if path_prev.len() == 0 {
            prev
        } else {
            self.chain_store.entries[path_prev[path_prev.len() - 1]].parent
        };
        proof {
            assert(marked_ok(e0, m0, ancestor as int));
        }
        let a: usize = self.chain_store.entries[ancestor].info.head.header.height as usize;
        proof {
            assert(a == base_of(e0, prev as int));
        }
        // Revert the accounts and the window to the common ancestor state.
        let reverted = match self.revert_to(a) {
            Err(e) => {
                return PushResult::Invalid(PushError::AccountsError(e));
            },
            Ok(workspace) => workspace,
        };
        let ghost base = reverted.accounts@;
        // Fetch missing blocks for the window.
        let mut cache = reverted.cache;
        self.backfill(&mut cache, a);
        // Check each fork block against the window & commit to the accounts.
        let applied = match self.apply_fork(reverted.accounts, cache, &path_prev, a) {
            None => {
                return PushResult::Invalid(PushError::InvalidFork);
            },
            Some(workspace) => workspace,
        };
        if applied.cache.contains_any(&chain_info.head) {
            return PushResult::Invalid(PushError::InvalidFork);
        }
        let accounts = match applied.accounts.commit_block(&chain_info.head) {
            Err(_) => {
                return PushResult::Invalid(PushError::InvalidFork);
            },
            Ok(accounts) => accounts,
        };
        // Fork looks good.
        let ghost states = fork_states(e0, path_prev@, base, path_prev@.len() as int);
        let ghost record = old(self).history@.subrange(0, a as int) + states + seq![accounts@];
        proof {
            if old(self).traceable() {
                assert(trace_ok(e0, m0, old(self).history@, a - 1));
                lemma_fork_states(
                    e0,
                    path_prev@,
                    base,
                    chain_slice(e0, m0, window_start(a as int), a as int),
                    path_prev@.len() as int,
                );
            }
        }
        let mut cache = applied.cache;
        let block = chain_info.head.clone();
        let reverted_blocks = self.blocks_above(a);
        proof {
            assert(lists_chain(reverted_blocks@, e0, m0, a as int));
        }
        self.store_fork(hash, chain_info, Ghost(prev as int));
        let ghost e1 = self.chain_store.entries@;
        let at = self.chain_store.entries.len() - 1;
        let mut path: Vec<usize> = Vec::new();
        path.push(at);
        let mut i: usize = 0;
        while i < path_prev.len()
            invariant
                i <= path_prev@.len(),
                path@ == seq![at] + path_prev@.subrange(0, i as int),
            decreases path_prev@.len() - i,
        {
            path.push(path_prev[i]);
            assert(path@ =~= seq![at] + path_prev@.subrange(0, i + 1));
            i += 1;
        }
        proof {
            assert(path_prev@.subrange(0, path_prev@.len() as int) =~= path_prev@);
            lemma_fork_path_grown(e0, m0, e1, prev as int, path_prev@, at);
        }
        // Unset the marks on the current main chain up to (excluding) the common ancestor,
        // update the successor of the common ancestor, and set the marks on the fork.
        self.chain_store.adopt(&path);
        proof {
            lemma_rebranched(
                e0,
                m0,
                e1,
                self.chain_store.entries@,
                self.chain_store.main@,
                path_prev@,
                at,
                a as int,
            );
            if old(self).traceable() {
                lemma_rebranched_trace(
                    e0,
                    m0,
                    e1,
                    self.chain_store.entries@,
                    self.chain_store.main@,
                    path_prev@,
                    at,
                    a as int,
                    old(self).history@,
                    old(self).accounts@,
                    states,
                    accounts@,
                );
            }
        }
        self.history = Ghost(record);
        cache.push_block(&block);
        proof {
            assert(main_entry_ok(
                self.chain_store.entries@,
                self.chain_store.main@,
                self.chain_store.main@.len() - 1,
            ));
        }
        let adopted_blocks = self.blocks_above(a);
        proof {
            assert(lists_chain(
                adopted_blocks@,
                self.chain_store.entries@,
                self.chain_store.main@,
                a as int,
            ));
            lemma_grown(e0, e1, self.chain_store.entries@);
        }
        // Update head.
        self.transaction_cache = cache;
        self.accounts = accounts;
        self.main_chain = self.chain_store.info_at(at, true);
        self.head_hash = hash;
        // Reset chain proof.
        self.chain_proof = None;
        self.events.push(BlockchainEvent::Rebranched(reverted_blocks, adopted_blocks));
        proof {
            assert(self.events@.subrange(0, old(self).events@.len() as int) =~= old(self).events@);
        }
        PushResult::Rebranched
    }

    /// Takes the blocks of the main chain above a height back from copies of
    /// the accounts and of the window of recent blocks.
    pub fn revert_to(&self, a: usize) -> (r: Result<Workspace, AccountError>)
        requires
            self.wf(),
            1 <= a <= self.chain_store.main@.len(),
        ensures
            match reverted_upto(
                self.chain_store.entries@,
                self.chain_store.main@,
                self.accounts@,
                self.chain_store.main@.len() as int,
                a as int,
            ) {
                Ok(s) => r is Ok && r->Ok_0.accounts@ == s && r->Ok_0.cache@ == chain_slice(
                    self.chain_store.entries@,
                    self.chain_store.main@,
                    kept_start(self.chain_store.main@.len() as int, a as int),
                    a as int,
                ),
                Err(e) => r == Err::<Workspace, AccountError>(e),
            },
            self.traceable() ==> r is Ok && r->Ok_0.accounts@ == self.history@[a - 1],
    {
        let ghost e = self.chain_store.entries@;
        let ghost m = self.chain_store.main@;
        let ghost start = self.accounts@;
        let mut accounts = self.accounts.clone();
        let mut cache = self.transaction_cache.clone();
        let mut h: usize = self.chain_store.main.len();
        while h > a
            invariant
                1 <= a <= h <= m.len(),
                e == self.chain_store.entries@,
                m == self.chain_store.main@,
                start == self.accounts@,
                entries_ok(e),
                main_ok(e, m),
                reverted_upto(e, m, start, m.len() as int, a as int) == reverted_upto(
                    e,
                    m,
                    accounts@,
                    h as int,
                    a as int,
                ),
                cache@ == chain_slice(e, m, kept_start(m.len() as int, h as int), h as int),
                self.traceable() ==> accounts@ == self.history@[h - 1],
            decreases h,
        {
            proof {
                assert(main_entry_ok(e, m, h - 1));
                assert(main_entry_ok(e, m, h - 2));
                assert(entry_ok(e, m[h - 1] as int));
                lemma_reverted_step(e, m, accounts@, h as int, a as int);
                if self.traceable() {
                    assert(trace_ok(e, m, self.history@, h - 1));
                    assert(trace_ok(e, m, self.history@, h - 2));
                    crate::accounts_laws::lemma_revert_undoes_commit(
                        self.history@[h - 2],
                        e[m[h - 1] as int].info.head@,
                    );
                }
            }
            let block = &self.chain_store.entries[self.chain_store.main[h - 1]].info.head;
            let before = &self.chain_store.entries[self.chain_store.main[h - 2]].info.head;
            match accounts.revert_block(block) {
                Err(error) => {
                    return Err(error);
                },
                Ok(state) => {
                    accounts = state;
                },
            }
            let ghost window = cache@;
            cache.revert_block(block);
            proof {
                lemma_slice_reverted(e, m, h as int);
            }
            if !accounts.hash().same(&before.header.accounts_hash) {
                return Err(AccountError::AccountsHashMismatch);
            }
            h -= 1;
        }
        proof {
            lemma_reverted_done(e, m, accounts@, h as int);
        }
        Ok(Workspace { accounts, cache })
    }

    /// Fills a window that ends at a height of the main chain with the blocks
    /// below it, as far as the window and the chain go.
    pub fn backfill(&self, cache: &mut TransactionCache, a: usize)
        requires
            self.chain_store.wf(),
            1 <= a <= self.chain_store.main@.len(),
            old(cache)@ == chain_slice(
                self.chain_store.entries@,
                self.chain_store.main@,
                kept_start(self.chain_store.main@.len() as int, a as int),
                a as int,
            ),
        ensures
            final(cache)@ == chain_slice(
                self.chain_store.entries@,
                self.chain_store.main@,
                window_start(a as int),
                a as int,
            ),
            final(cache).wf(),
    {
        let ghost e = self.chain_store.entries@;
        let ghost m = self.chain_store.main@;
        while cache.len() < TRANSACTION_VALIDITY_WINDOW as usize && cache.len() < a
            invariant
                1 <= a <= m.len(),
                e == self.chain_store.entries@,
                m == self.chain_store.main@,
                entries_ok(e),
                main_ok(e, m),
                cache@.len() <= a,
                cache@.len() <= TRANSACTION_VALIDITY_WINDOW,
                cache@ == chain_slice(e, m, a - cache@.len(), a as int),
            decreases a - cache@.len(),
        {
            let lo = a - cache.len();
            proof {
                assert(main_entry_ok(e, m, lo - 1));
            }
            let block = self.chain_store.block_at(self.chain_store.main[lo - 1], true);
            cache.prepend_block(&block);
            proof {
                lemma_slice_prepended(e, m, lo as int, a as int);
            }
        }
        proof {
            assert(a - cache@.len() == window_start(a as int));
        }
    }

    /// Applies the blocks of a fork path, from its last entry to its first,
    /// to the accounts and the window of the common ancestor. `None` means
    /// that the fork is not valid.
    pub fn apply_fork(
        &self,
        accounts: Accounts,
        cache: TransactionCache,
        path: &Vec<usize>,
        a: usize,
    ) -> (r: Option<Workspace>)
        requires
            self.chain_store.wf(),
            1 <= a <= self.chain_store.main@.len(),
            forall|k: int|
                0 <= k < path@.len() ==> 0 < #[trigger] path@[k] < self.chain_store.entries@.len(),
            cache@ == chain_slice(
                self.chain_store.entries@,
                self.chain_store.main@,
                window_start(a as int),
                a as int,
            ),
            cache.wf(),
        ensures
            match fork_applied(
                self.chain_store.entries@,
                path@,
                accounts@,
                cache@,
                path@.len() as int,
            ) {
                Some((s, w)) => r is Some && r->0.accounts@ == s && r->0.cache@ == w && w
                    == chain_window(
                    self.chain_store.entries@,
                    self.chain_store.main@.subrange(0, a as int) + path@.reverse(),
                ),
                None => r is None,
            },
    {
        let ghost e = self.chain_store.entries@;
        let ghost m = self.chain_store.main@;
        let ghost base = m.subrange(0, a as int);
        let n = path.len();
        let mut state = accounts.clone();
        let mut window = cache.clone();
        let mut k: usize = n;
        proof {
            assert(path@.subrange(n as int, n as int).reverse() =~= Seq::<usize>::empty());
            assert(base + path@.subrange(n as int, n as int).reverse() =~= base);
            assert(chain_window(e, base) =~= cache@);
        }
        while k > 0
            invariant
                0 <= k <= n,
                n == path@.len(),
                1 <= a <= m.len(),
                e == self.chain_store.entries@,
                m == self.chain_store.main@,
                base == m.subrange(0, a as int),
                entries_ok(e),
                main_ok(e, m),
                window.wf(),
                forall|j: int| 0 <= j < path@.len() ==> 0 < #[trigger] path@[j] < e.len(),
                fork_applied(e, path@, accounts@, cache@, n as int) == fork_applied(
                    e,
                    path@,
                    state@,
                    window@,
                    k as int,
                ),
                window@ == chain_window(e, base + path@.subrange(k as int, n as int).reverse()),
            decreases k,
        {
            proof {
                assert(0 < path@[k - 1] < e.len());
                assert(entry_ok(e, path@[k - 1] as int));
                lemma_applied_step(e, path@, state@, window@, k as int);
            }
            let block = &self.chain_store.entries[path[k - 1]].info.head;
            if window.contains_any(block) {
                return None;
            }
            match state.commit_block(block) {
                Err(_) => {
                    return None;
                },
                Ok(next) => {
                    state = next;
                },
            }
            proof {
                lemma_fork_window(e, m, a as int, path@, k as int);
            }
            window.push_block(block);
            k -= 1;
        }
        proof {
            assert(path@.subrange(0, n as int) =~= path@);
            lemma_applied_done(e, path@, state@, window@);
        }
        Some(Workspace { accounts: state, cache: window })
    }
}

/// Taking blocks back starts with the highest.
proof fn lemma_reverted_step(
    e: Seq<StoreEntry>,
    m: Seq<usize>,
    accounts: Seq<AccountEntry>,
    h: int,
    a: int,
)
    requires
        1 <= a < h,
    ensures
        reverted_upto(e, m, accounts, h, a) == match reverted(
            accounts,
            e[m[h - 1] as int].info.head@,
        ) {
            Err(error) => Err::<Seq<AccountEntry>, AccountError>(error),
            Ok(before) => if state_hash(before) != e[m[h
                - 2] as int].info.head.header.accounts_hash@ {
                Err::<Seq<AccountEntry>, AccountError>(AccountError::AccountsHashMismatch)
            } else {
                reverted_upto(e, m, before, h - 1, a)
            },
        },
{
    reveal_with_fuel(reverted_upto, 2);
}

/// Nothing is taken back where the chain is as low as asked.
proof fn lemma_reverted_done(e: Seq<StoreEntry>, m: Seq<usize>, accounts: Seq<AccountEntry>, h: int)
    ensures
        reverted_upto(e, m, accounts, h, h) == Ok::<Seq<AccountEntry>, AccountError>(accounts),
{
    reveal_with_fuel(reverted_upto, 2);
}

/// Applying a fork path goes on with its last entry that was not applied.
proof fn lemma_applied_step(
    e: Seq<StoreEntry>,
    path: Seq<usize>,
    accounts: Seq<AccountEntry>,
    window: Seq<DescriptorView>,
    k: int,
)
    requires
        k >= 1,
    ensures
        fork_applied(e, path, accounts, window, k) == if window_contains_any(
            window,
            e[path[k - 1] as int].info.head@,
        ) {
            None
        } else {
            match committed(accounts, e[path[k - 1] as int].info.head@) {
                Err(_) => None,
                Ok(after) => fork_applied(
                    e,
                    path,
                    after,
                    window_pushed(window, e[path[k - 1] as int].info.head@),
                    k - 1,
                ),
            }
        },
{
    reveal_with_fuel(fork_applied, 2);
}

/// A fork path with nothing left to apply leaves the accounts and the window
/// as they are.
proof fn lemma_applied_done(
    e: Seq<StoreEntry>,
    path: Seq<usize>,
    accounts: Seq<AccountEntry>,
    window: Seq<DescriptorView>,
)
    ensures
        fork_applied(e, path, accounts, window, 0) == Some((accounts, window)),
{
    reveal_with_fuel(fork_applied, 2);
}

/// The window of a chain that ends at height `h`, without its last block,
/// is the window of the chain that ends one block lower, as far as the window
/// had gone.
proof fn lemma_slice_reverted(e: Seq<StoreEntry>, m: Seq<usize>, h: int)
    requires
        1 <= h <= m.len(),
    ensures
        ({
            let window = chain_slice(e, m, kept_start(m.len() as int, h), h);
            if window.len() == 0 {
                window
            } else {
                window.drop_last()
            }
        }) == chain_slice(e, m, kept_start(m.len() as int, h - 1), h - 1),
{
    let window = chain_slice(e, m, kept_start(m.len() as int, h), h);
    let shorter = chain_slice(e, m, kept_start(m.len() as int, h - 1), h - 1);
    if window.len() == 0 {
        assert(window =~= shorter);
    } else {
        assert(window.drop_last() =~= shorter);
    }
}

/// A block in front of a part of the main chain's descriptors gives the part
/// that starts one block lower.
proof fn lemma_slice_prepended(e: Seq<StoreEntry>, m: Seq<usize>, lo: int, a: int)
    requires
        1 <= lo <= a <= m.len(),
    ensures
        seq![descriptor_of(e[m[lo - 1] as int].info.head@)] + chain_slice(e, m, lo, a)
            == chain_slice(e, m, lo - 1, a),
{
    assert(seq![descriptor_of(e[m[lo - 1] as int].info.head@)] + chain_slice(e, m, lo, a)
        =~= chain_slice(e, m, lo - 1, a));
}

/// The window of the main chain up to a height followed by the end of a fork
/// path, with the block before that end pushed, is the window of the chain
/// that goes one block further along the path.
proof fn lemma_fork_window(e: Seq<StoreEntry>, m: Seq<usize>, a: int, path: Seq<usize>, k: int)
    requires
        main_ok(e, m),
        1 <= a <= m.len(),
        1 <= k <= path.len(),
        forall|j: int| 0 <= j < path.len() ==> 0 < #[trigger] path[j] < e.len(),
    ensures
        window_pushed(
            chain_window(e, m.subrange(0, a) + path.subrange(k, path.len() as int).reverse()),
            e[path[k - 1] as int].info.head@,
        ) == chain_window(e, m.subrange(0, a) + path.subrange(k - 1, path.len() as int).reverse()),
{
    let n = path.len() as int;
    let base = m.subrange(0, a);
    let before = base + path.subrange(k, n).reverse();
    let after = base + path.subrange(k - 1, n).reverse();
    assert(after =~= before.push(path[k - 1]));
    assert forall|i: int| 0 <= i < before.len() implies (#[trigger] before[i]) < e.len() by {
        if i < a {
            assert(main_entry_ok(e, m, i));
        } else {
            assert(before[i] == path.subrange(k, n).reverse()[i - a]);
        }
    }
    lemma_window_push(e, before, e, after, path[k - 1] as int, e[path[k - 1] as int].info.head@);
}

/// The accounts after each of the first `k` entries of a fork path, applied
/// from the `k`-th down to the first, as far as they can be applied.
pub open spec fn fork_states(
    e: Seq<StoreEntry>,
    path: Seq<usize>,
    accounts: Seq<AccountEntry>,
    k: int,
) -> Seq<Seq<AccountEntry>>
    decreases k,
{
    if k <= 0 {
        Seq::empty()
    } else {
        match committed(accounts, e[path[k - 1] as int].info.head@) {
            Err(_) => Seq::empty(),
            Ok(after) => seq![after] + fork_states(e, path, after, k - 1),
        }
    }
}

/// The accounts before the `j`-th step of applying a fork path.
pub open spec fn state_before(
    accounts: Seq<AccountEntry>,
    states: Seq<Seq<AccountEntry>>,
    j: int,
) -> Seq<AccountEntry> {
    if j == 0 {
        accounts
    } else {
        states[j - 1]
    }
}

/// Whether the `j`-th of the accounts along a fork path is what the `j`-th
/// block from the end of the first `k` entries made of the accounts before.
pub open spec fn fork_step_ok(
    e: Seq<StoreEntry>,
    path: Seq<usize>,
    accounts: Seq<AccountEntry>,
    states: Seq<Seq<AccountEntry>>,
    k: int,
    j: int,
) -> bool {
    &&& canonical(states[j])
    &&& committed(state_before(accounts, states, j), e[path[k - 1 - j] as int].info.head@) == Ok::<
        Seq<AccountEntry>,
        AccountError,
    >(states[j])
}

/// Where a fork path can be applied to accounts in their one form, the
/// accounts after each of its blocks are in their one form and are what the
/// block made of the accounts before; the last are those that the fork
/// leaves.
pub proof fn lemma_fork_states(
    e: Seq<StoreEntry>,
    path: Seq<usize>,
    accounts: Seq<AccountEntry>,
    window: Seq<DescriptorView>,
    k: int,
)
    requires
        0 <= k <= path.len(),
        canonical(accounts),
        fork_applied(e, path, accounts, window, k) is Some,
    ensures
        fork_states(e, path, accounts, k).len() == k,
        forall|j: int|
            0 <= j < k ==> #[trigger] fork_step_ok(
                e,
                path,
                accounts,
                fork_states(e, path, accounts, k),
                k,
                j,
            ),
        match fork_applied(e, path, accounts, window, k) {
            Some((after, _)) => state_before(accounts, fork_states(e, path, accounts, k), k)
                == after,
            None => true,
        },
    decreases k,
{
    reveal_with_fuel(fork_applied, 2);
    if k > 0 {
        let block = e[path[k - 1] as int].info.head@;
        let after = committed(accounts, block)->Ok_0;
        crate::accounts_laws::lemma_revert_undoes_commit(accounts, block);
        lemma_fork_states(e, path, after, window_pushed(window, block), k - 1);
        let rest = fork_states(e, path, after, k - 1);
        let states = fork_states(e, path, accounts, k);
        assert(states =~= seq![after] + rest);
        assert forall|j: int| 0 <= j < k implies #[trigger] fork_step_ok(
            e,
            path,
            accounts,
            states,
            k,
            j,
        ) by {
            if j > 0 {
                assert(fork_step_ok(e, path, after, rest, k - 1, j - 1));
                assert(states[j] == rest[j - 1]);
                assert(state_before(accounts, states, j) == state_before(after, rest, j - 1));
            }
        }
        assert(state_before(accounts, states, k) == state_before(after, rest, k - 1));
    }
}

/// The accounts after a block of the main chain stay on record where the
/// block and the accounts before and after it stay what they were.
proof fn lemma_trace_kept(
    e0: Seq<StoreEntry>,
    m0: Seq<usize>,
    e3: Seq<StoreEntry>,
    m3: Seq<usize>,
    history: Seq<Seq<AccountEntry>>,
    record: Seq<Seq<AccountEntry>>,
    i: int,
)
    requires
        trace_ok(e0, m0, history, i),
        e3[m3[i] as int].info.head == e0[m0[i] as int].info.head,
        record[i] == history[i],
        i >= 1 ==> record[i - 1] == history[i - 1],
    ensures
        trace_ok(e3, m3, record, i),
{
}

/// The accounts after a block are on record where they are what the block
/// made of the accounts on record before it.
proof fn lemma_trace_made(
    e3: Seq<StoreEntry>,
    m3: Seq<usize>,
    record: Seq<Seq<AccountEntry>>,
    i: int,
    block: BlockView,
    before: Seq<AccountEntry>,
    after: Seq<AccountEntry>,
)
    requires
        i >= 1,
        e3[m3[i] as int].info.head@ == block,
        record[i] == after,
        record[i - 1] == before,
        canonical(after),
        committed(before, block) == Ok::<Seq<AccountEntry>, AccountError>(after),
    ensures
        trace_ok(e3, m3, record, i),
{
}

/// The record of the accounts fits the main chain after a fork was adopted:
/// up to the common ancestor it is the record of before, along the fork it
/// holds the accounts after each block of the fork.
proof fn lemma_rebranched_trace(
    e0: Seq<StoreEntry>,
    m0: Seq<usize>,
    e1: Seq<StoreEntry>,
    e3: Seq<StoreEntry>,
    m3: Seq<usize>,
    path_prev: Seq<usize>,
    at: usize,
    a: int,
    history: Seq<Seq<AccountEntry>>,
    before: Seq<AccountEntry>,
    states: Seq<Seq<AccountEntry>>,
    after: Seq<AccountEntry>,
)
    requires
        at == e0.len(),
        entries_ok(e0),
        main_ok(e0, m0),
        1 <= a <= m0.len(),
        e1.len() == e0.len() + 1,
        e1.subrange(0, e0.len() as int) == e0,
        forall|k: int| 0 <= k < path_prev.len() ==> 0 < #[trigger] path_prev[k] < e0.len(),
        e3.len() == e1.len(),
        forall|p: int| 0 <= p < e1.len() ==> same_block(#[trigger] e3[p], e1[p]),
        m3 == main_with(e1, m0, seq![at] + path_prev),
        fork_base(e1, seq![at] + path_prev) == a,
        traced(e0, m0, history, before),
        states.len() == path_prev.len(),
        forall|j: int|
            0 <= j < path_prev.len() ==> #[trigger] fork_step_ok(
                e0,
                path_prev,
                history[a - 1],
                states,
                path_prev.len() as int,
                j,
            ),
        committed(
            state_before(history[a - 1], states, path_prev.len() as int),
            e1.last().info.head@,
        ) == Ok::<Seq<AccountEntry>, AccountError>(after),
    ensures
        traced(e3, m3, history.subrange(0, a) + states + seq![after], after),
{
    let n = path_prev.len() as int;
    let record = history.subrange(0, a) + states + seq![after];
    let path = seq![at] + path_prev;
    let last = state_before(history[a - 1], states, n);
    assert(path.reverse() =~= path_prev.reverse().push(at));
    assert(m3 =~= (m0.subrange(0, a) + path_prev.reverse()).push(at));
    assert(record.len() == a + n + 1);
    assert(trace_ok(e0, m0, history, a - 1));
    assert(canonical(last)) by {
        if n > 0 {
            assert(fork_step_ok(e0, path_prev, history[a - 1], states, n, n - 1));
        }
    }
    crate::accounts_laws::lemma_revert_undoes_commit(last, e1.last().info.head@);
    assert forall|p: int| 0 <= p < e0.len() implies (#[trigger] e3[p]).info.head
        == e0[p].info.head by {
        assert(same_block(e3[p], e1[p]));
        assert(e1[p] == e1.subrange(0, e0.len() as int)[p]);
    }
    assert forall|i: int| 0 <= i < record.len() implies #[trigger] trace_ok(e3, m3, record, i) by {
        if i < a {
            assert(main_entry_ok(e0, m0, i));
            assert(m3[i] == m0[i]);
            assert(trace_ok(e0, m0, history, i));
            lemma_trace_kept(e0, m0, e3, m3, history, record, i);
        } else if i < a + n {
            let j = i - a;
            let p = path_prev[n - 1 - j];
            assert(m3[i] == path_prev.reverse()[j]);
            assert(0 < path_prev[n - 1 - j] < e0.len());
            assert(fork_step_ok(e0, path_prev, history[a - 1], states, n, j));
            assert(record[i] == states[j]);
            if j == 0 {
                assert(record[i - 1] == history[a - 1]);
            } else {
                assert(record[i - 1] == states[j - 1]);
            }
            lemma_trace_made(
                e3,
                m3,
                record,
                i,
                e0[p as int].info.head@,
                state_before(history[a - 1], states, j),
                states[j],
            );
        } else {
            assert(m3[i] == at);
            assert(same_block(e3[at as int], e1[at as int]));
            if n == 0 {
                assert(record[i - 1] == history[a - 1]);
            } else {
                assert(record[i - 1] == states[n - 1]);
            }
            lemma_trace_made(e3, m3, record, i, e1.last().info.head@, last, after);
        }
    }
}

/// The fork path of an entry with a new entry that follows on it in front
/// is the fork path of the new entry, and leaves the main chain at the same
/// height.
proof fn lemma_fork_path_grown(
    e0: Seq<StoreEntry>,
    m0: Seq<usize>,
    e1: Seq<StoreEntry>,
    prev: int,
    path_prev: Seq<usize>,
    at: usize,
)
    requires
        at == e0.len(),
        entries_ok(e0),
        main_ok(e0, m0),
        0 <= prev < e0.len(),
        e1.len() == e0.len() + 1,
        e1.subrange(0, e0.len() as int) == e0,
        e1.last().parent == prev,
        !e1.last().info.on_main_chain,
        e1.last().info.head.header.height == e0[prev].info.head.header.height + 1,
        path_prev == fork_path_of(e0, prev),
        path_prev.len() == 0 ==> e0[prev].info.on_main_chain,
        path_prev.len() > 0 ==> is_fork_path(e0, path_prev) && path_prev[0] == prev,
    ensures
        is_fork_path(e1, seq![at] + path_prev),
        fork_base(e1, seq![at] + path_prev) == base_of(e0, prev),
        1 <= base_of(e0, prev) <= m0.len(),
{
    let path = seq![at] + path_prev;
    assert forall|p: int| 0 <= p < e0.len() implies #[trigger] e1[p] == e0[p] by {
        assert(e1.subrange(0, e0.len() as int)[p] == e1[p]);
    }
    assert(path[0] == at);
    assert forall|k: int| 0 <= k < path.len() implies {
        &&& 0 < (#[trigger] path[k]) < e1.len()
        &&& !e1[path[k] as int].info.on_main_chain
        &&& e1[path[k] as int].info.head.header.height + k
            == e1[path[0] as int].info.head.header.height
    } by {
        if k > 0 {
            assert(path[k] == path_prev[k - 1]);
            assert(0 < path_prev[k - 1] < e0.len());
        }
    }
    assert forall|k: int| 0 <= k < path.len() - 1 implies e1[#[trigger] path[k] as int].parent
        == path[k + 1] by {
        assert(path[k + 1] == path_prev[k]);
        if k > 0 {
            assert(path[k] == path_prev[k - 1]);
            assert(0 < path_prev[k - 1] < e0.len());
        }
    }
    if path_prev.len() > 0 {
        assert(path.last() == path_prev.last());
        assert(0 < path_prev[path_prev.len() - 1] < e0.len());
        assert(entry_ok(e0, path_prev.last() as int));
        assert(marked_ok(e0, m0, e0[path_prev.last() as int].parent as int));
    } else {
        assert(path.last() == at);
        assert(marked_ok(e0, m0, prev));
    }
}

/// What the store holds after a fork was adopted whose tip is a new entry:
/// the window of recent blocks is that of the fork before the tip with the
/// tip pushed, the tip is the head, and the first entry is as it was.
proof fn lemma_rebranched(
    e0: Seq<StoreEntry>,
    m0: Seq<usize>,
    e1: Seq<StoreEntry>,
    e3: Seq<StoreEntry>,
    m3: Seq<usize>,
    path_prev: Seq<usize>,
    at: usize,
    a: int,
)
    requires
        at == e0.len(),
        entries_ok(e0),
        main_ok(e0, m0),
        1 <= a <= m0.len(),
        e1.len() == e0.len() + 1,
        e1.subrange(0, e0.len() as int) == e0,
        forall|k: int| 0 <= k < path_prev.len() ==> 0 < #[trigger] path_prev[k] < e0.len(),
        fork_base(e1, seq![at] + path_prev) == a,
        e3.len() == e1.len(),
        forall|p: int| 0 <= p < e1.len() ==> same_block(#[trigger] e3[p], e1[p]),
        m3 == main_with(e1, m0, seq![at] + path_prev),
        main_ok(e3, m3),
    ensures
        m3 == (m0.subrange(0, a) + path_prev.reverse()).push(at),
        m3.last() == at,
        m3.len() == e3[at as int].info.head.header.height,
        chain_window(e3, m3) == window_pushed(
            chain_window(e0, m0.subrange(0, a) + path_prev.reverse()),
            e1.last().info.head@,
        ),
        e3[0].hash == e0[0].hash,
        e3.last().hash == e1.last().hash,
        e3.last().info.head == e1.last().info.head,
        e3.last().info.total_difficulty == e1.last().info.total_difficulty,
{
    let path = seq![at] + path_prev;
    let before = m0.subrange(0, a) + path_prev.reverse();
    assert(path.reverse() =~= path_prev.reverse().push(at));
    assert(m3 =~= before.push(at));
    assert(same_block(e3[at as int], e1[at as int]));
    assert forall|i: int| 0 <= i < before.len() implies (#[trigger] before[i]) < e0.len()
        && e3[before[i] as int].info.head == e0[before[i] as int].info.head by {
        if i < a {
            assert(main_entry_ok(e0, m0, i));
        } else {
            assert(before[i] == path_prev.reverse()[i - a]);
        }
        assert(same_block(e3[before[i] as int], e1[before[i] as int]));
        assert(e1[before[i] as int] == e1.subrange(0, e0.len() as int)[before[i] as int]);
    }
    lemma_window_push(e0, before, e3, m3, at as int, e1.last().info.head@);
    assert(same_block(e3[0], e1[0]));
    assert(e1[0] == e1.subrange(0, e0.len() as int)[0]);
    assert(main_entry_ok(e3, m3, m3.len() - 1));
}

} // verus!
