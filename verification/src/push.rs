//! Pushing a block: checks, then extension of the main chain, a new fork, or
//! a change of the main chain to a fork of greater total difficulty.

use vstd::prelude::*;
use crate::accounts::{committed, state_hash, AccountEntry, AccountError, Accounts};
use crate::block::{block_check, follows, header_hash, Block, BlockView};
use crate::blockchain::{chain_slice, chain_window, store_grown, tells_extended, tells_rebranched, trace_ok, traced, window_start, Blockchain, BlockchainEvent, PushError, PushResult};
use crate::chain_store::fork_path_of;
use crate::rebranch::base_of;
use crate::chain_info::{next_info, ChainInfo};
use crate::chain_store::{entries_ok, entry_ok, fork_base, is_fork_path, key_at, main_entry_ok, main_ok, main_with, marked_ok, same_block, StoreEntry};
use crate::hash::Blake2bHash;
use crate::policy::TRANSACTION_VALIDITY_WINDOW;
use crate::retarget::next_compact;
use crate::target::{compact_expand, compact_fits, difficulty_of};
use crate::transaction_cache::{descriptor_of, window_contains_any, window_pushed, DescriptorView};

verus! {

/// Whether a hash is stored.
pub open spec fn known(e: Seq<StoreEntry>, hash: Seq<u8>) -> bool {
    exists|p: int| 0 <= p < e.len() && #[trigger] key_at(e, p) == hash
}

/// The position under which a hash is stored.
pub open spec fn place_of(e: Seq<StoreEntry>, hash: Seq<u8>) -> int {
    choose|p: int| 0 <= p < e.len() && #[trigger] key_at(e, p) == hash
}

/// What a block is before the chain's state is looked at more closely:
/// rejected, known or an orphan, or else a candidate.
pub open spec fn first_checks(chain: Blockchain, block: BlockView, now: u64) -> Option<PushResult> {
    let e = chain.chain_store.entries@;
    match block_check(block, now, chain.network_id, chain.genesis_hash@) {
        Err(error) => Some(PushResult::Invalid(PushError::InvalidBlock(error))),
        Ok(_) => if known(e, header_hash(block.header)) {
            Some(PushResult::Known)
        } else if !known(e, block.header.prev_hash@) {
            Some(PushResult::Orphan)
        } else if !follows(block.header, e[place_of(e, block.header.prev_hash@)].info.head.header) {
            Some(PushResult::Invalid(PushError::InvalidSuccessor))
        } else if block.header.n_bits.0 != next_compact(e, place_of(e, block.header.prev_hash@)) {
            Some(PushResult::Invalid(PushError::DifficultyMismatch))
        } else {
            None
        },
    }
}

/// Whether a candidate extends the main chain.
pub open spec fn extends_main(chain: Blockchain, block: BlockView) -> bool {
    block.header.prev_hash@ == chain.head_hash@
}

/// Whether a candidate that does not extend the main chain makes its fork
/// the chain of the greatest total difficulty.
pub open spec fn overtakes(chain: Blockchain, block: BlockView) -> bool {
    let e = chain.chain_store.entries@;
    e[place_of(e, block.header.prev_hash@)].info.total_difficulty@ + difficulty_of(
        compact_expand(block.header.n_bits.0),
    ) > chain.main_chain.total_difficulty@
}

/// What becomes of a candidate that extends the main chain.
pub open spec fn extend_result(chain: Blockchain, block: BlockView) -> PushResult {
    if window_contains_any(chain.transaction_cache@, block) {
        PushResult::Invalid(PushError::DuplicateTransaction)
    } else {
        match committed(chain.accounts@, block) {
            Err(error) => PushResult::Invalid(PushError::AccountsError(error)),
            Ok(_) => PushResult::Extended,
        }
    }
}

/// What becomes of a block that is pushed.
pub open spec fn push_result(chain: Blockchain, block: BlockView, now: u64) -> PushResult {
    match first_checks(chain, block, now) {
        Some(result) => result,
        None => if extends_main(chain, block) {
            extend_result(chain, block)
        } else if overtakes(chain, block) {
            crate::rebranch::rebranch_result(
                chain,
                place_of(chain.chain_store.entries@, block.header.prev_hash@),
                block,
            )
        } else {
            PushResult::Forked
        },
    }
}

/// Whether two chains are in the same state, events apart.
pub open spec fn same_state(a: Blockchain, b: Blockchain) -> bool {
    &&& a.network_id == b.network_id
    &&& a.genesis_hash == b.genesis_hash
    &&& a.chain_store.entries@ == b.chain_store.entries@
    &&& a.chain_store.main@ == b.chain_store.main@
    &&& a.accounts@ == b.accounts@
    &&& a.transaction_cache@ == b.transaction_cache@
    &&& a.main_chain@ == b.main_chain@
    &&& a.head_hash == b.head_hash
}

impl Blockchain {
    /// Pushes a block with a body, at a time in milliseconds. The block is
    /// checked in itself, against what is known, against its predecessor and
    /// against the target that it has to name. Then it extends the main
    /// chain, or makes its fork the main chain where that has the greater
    /// total difficulty, or is stored as a block of a fork. Where the
    /// accounts can be traced back along the main chain, they still can
    /// afterwards, and taking blocks back cannot fail: a block that does not
    /// follow on the head is then never refused with an error of the
    /// accounts.
    pub fn push(&mut self, block: Block, now: u64) -> (result: PushResult)
        requires
            old(self).wf(),
            block.body is Some,
        ensures
            final(self).wf(),
            result == push_result(*old(self), block@, now),
            final(self).network_id == old(self).network_id,
            final(self).genesis_hash == old(self).genesis_hash,
            (result is Invalid || result == PushResult::Known || result == PushResult::Orphan)
                ==> same_state(*final(self), *old(self)) && final(self).events == old(self).events
                && final(self).chain_proof == old(self).chain_proof,
            result == PushResult::Forked ==> {
                &&& final(self).chain_store.entries@.len() == old(self).chain_store.entries@.len()
                    + 1
                &&& final(self).chain_store.entries@.subrange(
                    0,
                    old(self).chain_store.entries@.len() as int,
                ) == old(self).chain_store.entries@
                &&& final(self).chain_store.entries@.last().hash@ == header_hash(block.header)
                &&& final(self).chain_store.entries@.last().info.head@ == block@
                &&& final(self).chain_store.main@ == old(self).chain_store.main@
                &&& final(self).accounts == old(self).accounts
                &&& final(self).transaction_cache == old(self).transaction_cache
                &&& final(self).main_chain == old(self).main_chain
                &&& final(self).head_hash == old(self).head_hash
                &&& final(self).events == old(self).events
                &&& final(self).chain_proof == old(self).chain_proof
            },
            (result == PushResult::Extended || result == PushResult::Rebranched) ==> {
                &&& final(self).head_hash@ == header_hash(block.header)
                &&& final(self).main_chain@.head == block@
                &&& state_hash(final(self).accounts@) == final(self).main_chain.head.header.accounts_hash@
                &&& final(self).spec_height() == block.header.height
                &&& final(self).events@.len() == old(self).events@.len() + 1
                &&& final(self).chain_proof is None
            },
            (result == PushResult::Forked || result == PushResult::Extended || result
                == PushResult::Rebranched) ==> store_grown(
                old(self).chain_store.entries@,
                final(self).chain_store.entries@,
                block@,
            ),
            (result == PushResult::Extended || result == PushResult::Rebranched)
                ==> final(self).events@.subrange(0, old(self).events@.len() as int) == old(self).events@,
            result == PushResult::Extended ==> {
                &&& final(self).spec_height() == old(self).spec_height() + 1
                &&& final(self).chain_store.main@ == old(self).chain_store.main@.push(
                    old(self).chain_store.entries@.len() as usize,
                )
                &&& tells_extended(final(self).events@.last(), final(self).head_hash, block@)
            },
            result == PushResult::Rebranched ==> {
                &&& final(self).chain_store.main@ == (old(self).chain_store.main@.subrange(
                    0,
                    base_of(
                        old(self).chain_store.entries@,
                        place_of(old(self).chain_store.entries@, block.header.prev_hash@),
                    ),
                ) + fork_path_of(
                    old(self).chain_store.entries@,
                    place_of(old(self).chain_store.entries@, block.header.prev_hash@),
                ).reverse()).push(old(self).chain_store.entries@.len() as usize)
                &&& tells_rebranched(
                    final(self).events@.last(),
                    old(self).chain_store.entries@,
                    old(self).chain_store.main@,
                    final(self).chain_store.entries@,
                    final(self).chain_store.main@,
                    base_of(
                        old(self).chain_store.entries@,
                        place_of(old(self).chain_store.entries@, block.header.prev_hash@),
                    ),
                )
            },
            result == PushResult::Rebranched ==> final(self).main_chain@.total_difficulty > old(self).main_chain@.total_difficulty,
            old(self).traceable() ==> final(self).traceable(),
            old(self).traceable() && !extends_main(*old(self), block@) ==> !(result is Invalid
                && result->Invalid_0 is AccountsError),
    {
        let ghost e0 = self.chain_store.entries@;
        let ghost m0 = self.chain_store.main@;
        // Check (sort of) intrinsic block invariants.
        if let Err(e) = block.verify(now, self.network_id, &self.genesis_hash) {
            return PushResult::Invalid(PushError::InvalidBlock(e));
        }
        // Check if we already know this block.
        let hash = block.header.hash();
        if self.chain_store.find(&hash).is_some() {
            proof {
                let p = choose|p: int| 0 <= p < e0.len() && (#[trigger] e0[p]).hash@ == hash@;
                assert(key_at(e0, p) == hash@);
            }
            return PushResult::Known;
        }
        proof {
            assert(!known(e0, hash@)) by {
                if known(e0, hash@) {
                    let p = choose|p: int| 0 <= p < e0.len() && #[trigger] key_at(e0, p) == hash@;
                    assert(e0[p].hash@ == hash@);
                }
            }
        }
        // Check if the block's immediate predecessor is part of the chain.
        let prev = match self.chain_store.find(&block.header.prev_hash) {
            None => {
                proof {
                    if known(e0, block.header.prev_hash@) {
                        let p = choose|p: int|
                            0 <= p < e0.len() && #[trigger] key_at(e0, p)
                                == block.header.prev_hash@;
                        assert(e0[p].hash@ == block.header.prev_hash@);
                    }
                }
                return PushResult::Orphan;
            },
            Some(prev) => prev,
        };
        proof {
            assert(key_at(e0, prev as int) == block.header.prev_hash@);
            assert(key_at(e0, place_of(e0, block.header.prev_hash@)) == key_at(e0, prev as int));
            assert(place_of(e0, block.header.prev_hash@) == prev);
            assert(entry_ok(e0, prev as int));
            assert(main_entry_ok(e0, m0, m0.len() - 1));
        }
        // Check that the block is a valid successor of its predecessor.
        if !block.header.is_immediate_successor_of(
            &self.chain_store.entries[prev].info.head.header,
        ) {
            return PushResult::Invalid(PushError::InvalidSuccessor);
        }
        // Check that the difficulty is correct.
        let next_compact = self.next_compact_at(prev);
        if block.header.n_bits.0 != next_compact.0 {
            return PushResult::Invalid(PushError::DifficultyMismatch);
        }
        // Block looks good, create ChainInfo.
        let prev_info = self.chain_store.info_at(prev, false);
        let ghost view = block@;
        let chain_info = prev_info.next(block);
        // Check if the block extends our current main chain.
        if chain_info.head.header.prev_hash.same(&self.head_hash) {
            proof {
                assert(key_at(e0, m0.last() as int) == key_at(e0, prev as int));
                assert(prev == m0.last());
            }
            return self.extend(hash, chain_info);
        }
        // Otherwise, check if the new chain is harder than our current main chain.
        if chain_info.total_difficulty.greater_than(&self.main_chain.total_difficulty) {
            // A fork has become the hardest chain, rebranch to it.
            return self.rebranch(hash, chain_info, prev);
        }
        // Otherwise, we are creating/extending a fork. Store ChainInfo.
        self.store_fork(hash, chain_info, Ghost(prev as int));
        proof {
            let e1 = self.chain_store.entries@;
            assert forall|p: int| 0 <= p < e0.len() implies same_block(#[trigger] e1[p], e0[p]) by {
                assert(e1.subrange(0, e0.len() as int)[p] == e1[p]);
            }
        }
        PushResult::Forked
    }

    /// Stores a candidate as a block of a fork.
    pub(crate) fn store_fork(&mut self, hash: Blake2bHash, chain_info: ChainInfo, Ghost(prev): Ghost<int>)
        requires
            old(self).wf(),
            !known(old(self).chain_store.entries@, hash@),
            hash@ == header_hash(chain_info.head.header),
            chain_info.head.body is Some,
            chain_info.counts_ok(),
            !chain_info.on_main_chain,
            chain_info.main_chain_successor is None,
            0 <= prev < old(self).chain_store.entries@.len(),
            follows(
                chain_info.head.header,
                old(self).chain_store.entries@[prev].info.head.header,
            ),
            chain_info.total_difficulty@ == old(self).chain_store.entries@[prev].info.total_difficulty@ + difficulty_of(
                compact_expand(chain_info.head.header.n_bits.0),
            ),
        ensures
            final(self).wf(),
            final(self).chain_store.entries@.len() == old(self).chain_store.entries@.len() + 1,
            final(self).chain_store.entries@.subrange(
                0,
                old(self).chain_store.entries@.len() as int,
            ) == old(self).chain_store.entries@,
            final(self).chain_store.entries@.last().hash == hash,
            final(self).chain_store.entries@.last().info == chain_info,
            final(self).chain_store.entries@.last().parent == prev,
            final(self).chain_store.main@ == old(self).chain_store.main@,
            final(self).network_id == old(self).network_id,
            final(self).genesis_hash == old(self).genesis_hash,
            final(self).accounts == old(self).accounts,
            final(self).transaction_cache == old(self).transaction_cache,
            final(self).main_chain == old(self).main_chain,
            final(self).head_hash == old(self).head_hash,
            final(self).chain_proof == old(self).chain_proof,
            final(self).events == old(self).events,
            final(self).history == old(self).history,
            old(self).traceable() ==> final(self).traceable(),
    {
        let ghost e0 = self.chain_store.entries@;
        let ghost m0 = self.chain_store.main@;
        proof {
            assert forall|p: int| 0 <= p < e0.len() implies (#[trigger] e0[p]).hash@ != hash@ by {
                assert(key_at(e0, p) != hash@);
            }
        }
        let at = self.chain_store.put_chain_info(hash, chain_info);
        proof {
            let e1 = self.chain_store.entries@;
            assert forall|p: int| 0 <= p < e0.len() implies #[trigger] e1[p] == e0[p] by {
                assert(e1.subrange(0, e0.len() as int)[p] == e1[p]);
            }
            assert(main_entry_ok(e0, m0, m0.len() - 1));
            assert(e1[m0.last() as int] == e0[m0.last() as int]);
            assert(chain_window(e1, m0) =~= chain_window(e0, m0)) by {
                assert forall|j: int| 0 <= j < chain_window(e0, m0).len() implies chain_window(
                    e1,
                    m0,
                )[j] == chain_window(e0, m0)[j] by {
                    let i = window_start(m0.len() as int) + j;
                    assert(main_entry_ok(e0, m0, i));
                }
            }
            lemma_parent(e1, at as int, prev);
            if old(self).traceable() {
                let h = self.history@;
                assert forall|i: int| 0 <= i < h.len() implies #[trigger] trace_ok(e1, m0, h, i) by {
                    assert(trace_ok(e0, m0, h, i));
                    assert(main_entry_ok(e0, m0, i));
                }
            }
        }
    }

    /// Makes a candidate that follows on the head the new head of the main
    /// chain, unless the window of recent blocks holds one of its
    /// transactions or the accounts do not take it.
    pub(crate) fn extend(&mut self, hash: Blake2bHash, chain_info: ChainInfo) -> (result: PushResult)
        requires
            old(self).wf(),
            !known(old(self).chain_store.entries@, hash@),
            hash@ == header_hash(chain_info.head.header),
            chain_info.head.body is Some,
            chain_info.counts_ok(),
            !chain_info.on_main_chain,
            chain_info.main_chain_successor is None,
            follows(chain_info.head.header, old(self).main_chain.head.header),
            chain_info.total_difficulty@ == old(self).main_chain.total_difficulty@ + difficulty_of(
                compact_expand(chain_info.head.header.n_bits.0),
            ),
        ensures
            final(self).wf(),
            result == extend_result(*old(self), chain_info.head@),
            result != PushResult::Extended ==> same_state(*final(self), *old(self)) && final(self).events == old(self).events && final(self).history == old(self).history && final(self).chain_proof == old(self).chain_proof,
            old(self).traceable() ==> final(self).traceable(),
            result == PushResult::Extended ==> {
                &&& final(self).head_hash == hash
                &&& final(self).main_chain@.head == chain_info.head@
                &&& final(self).main_chain@.total_difficulty == chain_info@.total_difficulty
                &&& final(self).spec_height() == old(self).spec_height() + 1
                &&& committed(old(self).accounts@, chain_info.head@) == Ok::<
                    Seq<AccountEntry>,
                    AccountError,
                >(final(self).accounts@)
                &&& state_hash(final(self).accounts@) == chain_info.head.header.accounts_hash@
                &&& final(self).transaction_cache@ == window_pushed(
                    old(self).transaction_cache@,
                    chain_info.head@,
                )
                &&& final(self).chain_store.main@ == old(self).chain_store.main@.push(
                    old(self).chain_store.entries@.len() as usize,
                )
                &&& store_grown(
                    old(self).chain_store.entries@,
                    final(self).chain_store.entries@,
                    chain_info.head@,
                )
                &&& tells_extended(final(self).events@.last(), hash, chain_info.head@)
                &&& final(self).events@.len() == old(self).events@.len() + 1
                &&& final(self).events@.subrange(0, old(self).events@.len() as int) == old(self).events@
                &&& final(self).network_id == old(self).network_id
                &&& final(self).genesis_hash == old(self).genesis_hash
                &&& final(self).chain_proof is None
            },
    {
        let ghost e0 = self.chain_store.entries@;
        let ghost m0 = self.chain_store.main@;
        let ghost head = self.chain_store.head_position();
        // Check transactions against the window of recent blocks to prevent replay.
        if self.transaction_cache.contains_any(&chain_info.head) {
            return PushResult::Invalid(PushError::DuplicateTransaction);
        }
        // Commit block to the accounts.
        let accounts = match self.accounts.commit_block(&chain_info.head) {
            Err(e) => {
                return PushResult::Invalid(PushError::AccountsError(e));
            },
            Ok(accounts) => accounts,
        };
        let block = chain_info.head.clone();
        proof {
            assert(main_entry_ok(e0, m0, m0.len() - 1));
        }
        self.store_fork(hash, chain_info, Ghost(head));
        let ghost e1 = self.chain_store.entries@;
        let at = self.chain_store.entries.len() - 1;
        let mut path: Vec<usize> = Vec::new();
        path.push(at);
        proof {
            assert(path@ =~= seq![at]);
            lemma_extension_path(e0, m0, e1, at);
        }
        self.chain_store.adopt(&path);
        let ghost record = self.history@.push(accounts@);
        proof {
            lemma_extended(e0, m0, e1, self.chain_store.entries@, self.chain_store.main@, at);
            lemma_grown(e0, e1, self.chain_store.entries@);
            if old(self).traceable() {
                lemma_extended_trace(
                    e0,
                    m0,
                    e1,
                    self.chain_store.entries@,
                    self.chain_store.main@,
                    at,
                    old(self).history@,
                    old(self).accounts@,
                    accounts@,
                );
            }
        }
        self.history = Ghost(record);
        self.transaction_cache.push_block(&block);
        self.main_chain = self.chain_store.info_at(at, true);
        self.head_hash = hash;
        self.accounts = accounts;
        self.chain_proof = None;
        self.events.push(BlockchainEvent::Extended(hash, block));
        proof {
            assert(self.events@.subrange(0, old(self).events@.len() as int) =~= old(self).events@);
        }
        PushResult::Extended
    }
}

/// A new entry that follows on the head is a fork path of its own, which
/// leaves the main chain at the head.
proof fn lemma_extension_path(e0: Seq<StoreEntry>, m0: Seq<usize>, e1: Seq<StoreEntry>, at: usize)
    requires
        at == e0.len(),
        entries_ok(e0),
        main_ok(e0, m0),
        e1.len() == e0.len() + 1,
        e1.subrange(0, e0.len() as int) == e0,
        e1.last().parent == m0.last(),
        !e1.last().info.on_main_chain,
    ensures
        is_fork_path(e1, seq![at]),
        fork_base(e1, seq![at]) == m0.len(),
{
    let path = seq![at];
    let head = m0.last() as int;
    assert(main_entry_ok(e0, m0, m0.len() - 1));
    assert(e1[head] == e1.subrange(0, e0.len() as int)[head]);
    assert(path[0] == at);
    assert(entry_ok(e0, head));
}

/// What the store holds after a new entry that follows on the head was
/// adopted: the main chain is one block longer, the window of recent blocks
/// is that of before with the new block pushed, and the entries that were
/// there keep their blocks.
proof fn lemma_extended(
    e0: Seq<StoreEntry>,
    m0: Seq<usize>,
    e1: Seq<StoreEntry>,
    e3: Seq<StoreEntry>,
    m3: Seq<usize>,
    at: usize,
)
    requires
        at == e0.len(),
        entries_ok(e0),
        main_ok(e0, m0),
        e1.len() == e0.len() + 1,
        e1.subrange(0, e0.len() as int) == e0,
        fork_base(e1, seq![at]) == m0.len(),
        e3.len() == e1.len(),
        forall|p: int| 0 <= p < e1.len() ==> same_block(#[trigger] e3[p], e1[p]),
        m3 == main_with(e1, m0, seq![at]),
    ensures
        m3 == m0.push(at),
        m3.last() == at,
        chain_window(e3, m3) == window_pushed(chain_window(e0, m0), e1.last().info.head@),
        e3[0].hash == e0[0].hash,
        e3.last().hash == e1.last().hash,
        e3.last().info.head == e1.last().info.head,
        e3.last().info.total_difficulty == e1.last().info.total_difficulty,
{
    let path = seq![at];
    assert(m0.subrange(0, m0.len() as int) =~= m0);
    assert(path.reverse() =~= path);
    assert(m3 =~= m0.push(at));
    assert(same_block(e3[at as int], e1[at as int]));
    assert forall|i: int| 0 <= i < m0.len() implies (#[trigger] m0[i]) < e0.len()
        && e3[m0[i] as int].info.head == e0[m0[i] as int].info.head by {
        assert(main_entry_ok(e0, m0, i));
        assert(same_block(e3[m0[i] as int], e1[m0[i] as int]));
        assert(e1[m0[i] as int] == e1.subrange(0, e0.len() as int)[m0[i] as int]);
    }
    lemma_window_push(e0, m0, e3, m3, at as int, e1.last().info.head@);
    assert(same_block(e3[0], e1[0]));
    assert(e1[0] == e1.subrange(0, e0.len() as int)[0]);
}

/// A store that got one more block and then other marks of the main chain
/// keeps the blocks of before.
pub proof fn lemma_grown(e0: Seq<StoreEntry>, e1: Seq<StoreEntry>, e3: Seq<StoreEntry>)
    requires
        e1.len() == e0.len() + 1,
        e1.subrange(0, e0.len() as int) == e0,
        e3.len() == e1.len(),
        forall|p: int| 0 <= p < e1.len() ==> same_block(#[trigger] e3[p], e1[p]),
        e1.last().hash@ == header_hash(e1.last().info.head.header),
    ensures
        store_grown(e0, e3, e1.last().info.head@),
{
    assert(same_block(e3[e0.len() as int], e1[e0.len() as int]));
    assert forall|p: int| 0 <= p < e0.len() implies same_block(#[trigger] e3[p], e0[p]) by {
        assert(same_block(e3[p], e1[p]));
        assert(e1.subrange(0, e0.len() as int)[p] == e1[p]);
    }
}

/// The record of the accounts, with the accounts after a new head, fits the
/// main chain that the new head extends.
proof fn lemma_extended_trace(
    e0: Seq<StoreEntry>,
    m0: Seq<usize>,
    e1: Seq<StoreEntry>,
    e3: Seq<StoreEntry>,
    m3: Seq<usize>,
    at: usize,
    history: Seq<Seq<AccountEntry>>,
    before: Seq<AccountEntry>,
    after: Seq<AccountEntry>,
)
    requires
        at == e0.len(),
        entries_ok(e0),
        main_ok(e0, m0),
        e1.len() == e0.len() + 1,
        e1.subrange(0, e0.len() as int) == e0,
        e3.len() == e1.len(),
        forall|p: int| 0 <= p < e1.len() ==> same_block(#[trigger] e3[p], e1[p]),
        m3 == m0.push(at),
        traced(e0, m0, history, before),
        committed(before, e1.last().info.head@) == Ok::<Seq<AccountEntry>, AccountError>(after),
    ensures
        traced(e3, m3, history.push(after), after),
{
    let record = history.push(after);
    assert(trace_ok(e0, m0, history, history.len() - 1));
    crate::accounts_laws::lemma_revert_undoes_commit(history.last(), e1.last().info.head@);
    assert forall|i: int| 0 <= i < record.len() implies #[trigger] trace_ok(e3, m3, record, i) by {
        if i < history.len() {
            assert(trace_ok(e0, m0, history, i));
            assert(main_entry_ok(e0, m0, i));
            assert(same_block(e3[m0[i] as int], e1[m0[i] as int]));
            assert(e1[m0[i] as int] == e1.subrange(0, e0.len() as int)[m0[i] as int]);
        } else {
            assert(same_block(e3[at as int], e1[at as int]));
        }
    }
}

/// The predecessor of an entry is the entry that its header follows on.
pub proof fn lemma_parent(e: Seq<StoreEntry>, at: int, prev: int)
    requires
        entries_ok(e),
        0 < at < e.len(),
        0 <= prev < e.len(),
        follows(e[at].info.head.header, e[prev].info.head.header),
    ensures
        e[at].parent == prev,
{
    assert(entry_ok(e, at));
    assert(entry_ok(e, prev));
    assert(entry_ok(e, e[at].parent as int));
    assert(key_at(e, e[at].parent as int) == key_at(e, prev));
}

/// The window of recent blocks of a main chain that got one more block is
/// the window of the chain before with that block pushed.
pub proof fn lemma_window_push(
    e0: Seq<StoreEntry>,
    m0: Seq<usize>,
    e3: Seq<StoreEntry>,
    m3: Seq<usize>,
    at: int,
    block: BlockView,
)
    requires
        m3 == m0.push(at as usize),
        0 <= at < e3.len(),
        at <= usize::MAX,
        e3[at].info.head@ == block,
        forall|i: int|
            0 <= i < m0.len() ==> (#[trigger] m0[i]) < e0.len() && e3[m0[i] as int].info.head
                == e0[m0[i] as int].info.head,
    ensures
        chain_window(e3, m3) == window_pushed(chain_window(e0, m0), block),
{
    let w0 = chain_window(e0, m0);
    let w3 = chain_window(e3, m3);
    let pushed = window_pushed(w0, block);
    let longer = w0.push(descriptor_of(block));
    assert(w3.len() == pushed.len());
    assert forall|j: int| 0 <= j < w3.len() implies w3[j] == pushed[j] by {
        let i = window_start(m3.len() as int) + j;
        if i < m0.len() {
            assert(m3[i] == m0[i]);
            assert(m0[i] < e0.len());
            assert(w0[i - window_start(m0.len() as int)] == descriptor_of(
                e0[m0[i] as int].info.head@,
            ));
        } else {
            assert(m3[i] == at);
        }
        if longer.len() > TRANSACTION_VALIDITY_WINDOW {
            assert(pushed[j] == longer[j + 1]);
        }
    }
    assert(w3 =~= pushed);
}

} // verus!
