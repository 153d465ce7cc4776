//! The chain engine: it takes candidate blocks, keeps the main chain under
//! the rule of the greatest total difficulty, and keeps the accounts and the
//! window of recent transactions in step with it.

use vstd::prelude::*;
use crate::account::NetworkId;
use crate::accounts::{committed, initial_state, kept, reverted, state_hash, AccountEntry, AccountError, Accounts};
use crate::accounts_laws::{canonical, lemma_initial_canonical};
use crate::block::{block_check, follows, header_hash, Block, BlockError, BlockView};
use crate::chain_info::{next_info, ChainInfo};
use crate::chain_store::{entry_ok, key_at, main_entry_ok, same_block, ChainStore, StoreEntry};
use crate::hash::Blake2bHash;
use crate::policy::TRANSACTION_VALIDITY_WINDOW;
use crate::target::{compact_fits, Target};
use crate::transaction_cache::{descriptor_of, window_contains_any, window_pushed, DescriptorView, TransactionCache};

verus! {

/// What became of a block that was pushed.
#[derive(Clone, Copy, Debug, PartialEq, Eq, Structural)]
pub enum PushResult {
    Invalid(PushError),
    Orphan,
    Known,
    Extended,
    Rebranched,
    Forked,
}

/// Why a block was not accepted.
#[derive(Clone, Copy, Debug, PartialEq, Eq, Structural)]
pub enum PushError {
    InvalidBlock(BlockError),
    InvalidSuccessor,
    DifficultyMismatch,
    DuplicateTransaction,
    AccountsError(AccountError),
    InvalidFork,
}

/// What the chain tells its listeners: a block that extended the main chain,
/// or the blocks that left it and those that replaced them, each list from
/// the common ancestor's side to the tip.
#[derive(Debug, PartialEq, Eq)]
pub enum BlockchainEvent {
    Extended(Blake2bHash, Block),
    Rebranched(Vec<(Blake2bHash, Block)>, Vec<(Blake2bHash, Block)>),
}

/// Whether a list holds the blocks of a main chain above height `a`, each
/// with its hash, from the lowest to the highest.
pub open spec fn lists_chain(
    list: Seq<(Blake2bHash, Block)>,
    e: Seq<StoreEntry>,
    m: Seq<usize>,
    a: int,
) -> bool {
    &&& list.len() == m.len() - a
    &&& forall|i: int|
        0 <= i < list.len() ==> (#[trigger] list[i]).0 == e[m[a + i] as int].hash && list[i].1@
            == e[m[a + i] as int].info.head@
}

/// Whether an event tells that a block with a hash became the head of the
/// main chain by extending it.
pub open spec fn tells_extended(event: BlockchainEvent, hash: Blake2bHash, block: BlockView) -> bool {
    match event {
        BlockchainEvent::Extended(h, b) => h == hash && b@ == block,
        _ => false,
    }
}

/// Whether an event tells that the main chain changed above height `a`: it
/// names the blocks that the main chain of one store held there, and those
/// that the main chain of another store holds there.
pub open spec fn tells_rebranched(
    event: BlockchainEvent,
    e0: Seq<StoreEntry>,
    m0: Seq<usize>,
    e3: Seq<StoreEntry>,
    m3: Seq<usize>,
    a: int,
) -> bool {
    match event {
        BlockchainEvent::Rebranched(reverted, adopted) => lists_chain(reverted@, e0, m0, a)
            && lists_chain(adopted@, e3, m3, a),
        _ => false,
    }
}

/// Whether a store is another with one more block at its end: the blocks of
/// before are kept, the marks of the main chain apart.
pub open spec fn store_grown(e0: Seq<StoreEntry>, e3: Seq<StoreEntry>, block: BlockView) -> bool {
    &&& e3.len() == e0.len() + 1
    &&& forall|p: int| 0 <= p < e0.len() ==> same_block(#[trigger] e3[p], e0[p])
    &&& e3.last().hash@ == header_hash(block.header)
    &&& e3.last().info.head@ == block
}

/// A network: its first block and the accounts that it starts with.
#[derive(Debug)]
pub struct NetworkInfo {
    pub network_id: NetworkId,
    pub genesis_block: Block,
    pub genesis_hash: Blake2bHash,
    pub genesis_accounts: Vec<AccountEntry>,
}

/// The chain with its state.
pub struct Blockchain {
    pub network_id: NetworkId,
    pub genesis_hash: Blake2bHash,
    pub chain_store: ChainStore,
    pub accounts: Accounts,
    pub transaction_cache: TransactionCache,
    pub main_chain: ChainInfo,
    pub head_hash: Blake2bHash,
    pub chain_proof: Option<crate::chain_proof::ChainProof>,
    pub events: Vec<BlockchainEvent>,
    /// The accounts as they stood after each block of the main chain.
    pub history: Ghost<Seq<Seq<AccountEntry>>>,
}

/// The descriptors of the blocks of the main chain from position `lo` up to
/// `hi`.
pub open spec fn chain_slice(e: Seq<StoreEntry>, m: Seq<usize>, lo: int, hi: int) -> Seq<
    DescriptorView,
> {
    Seq::new((hi - lo) as nat, |j: int| descriptor_of(e[m[lo + j] as int].info.head@))
}

/// Where the window of recent blocks starts on a main chain of a length.
pub open spec fn window_start(len: int) -> int {
    if len > TRANSACTION_VALIDITY_WINDOW {
        len - TRANSACTION_VALIDITY_WINDOW
    } else {
        0
    }
}

/// The window of recent blocks of a main chain: the descriptors of its last
/// blocks, as many as the window holds.
pub open spec fn chain_window(e: Seq<StoreEntry>, m: Seq<usize>) -> Seq<DescriptorView> {
    chain_slice(e, m, window_start(m.len() as int), m.len() as int)
}

/// Whether the accounts after the block at position `i` of the main chain
/// are on record: they are in their one form, have the hash that the block
/// names, and are what the block made of the accounts before it.
pub open spec fn trace_ok(
    e: Seq<StoreEntry>,
    m: Seq<usize>,
    history: Seq<Seq<AccountEntry>>,
    i: int,
) -> bool {
    &&& canonical(history[i])
    &&& state_hash(history[i]) == e[m[i] as int].info.head.header.accounts_hash@
    &&& (i >= 1 ==> committed(history[i - 1], e[m[i] as int].info.head@) == Ok::<
        Seq<AccountEntry>,
        AccountError,
    >(history[i]))
}

/// Whether a record of accounts fits a main chain and the accounts after its
/// head.
pub open spec fn traced(
    e: Seq<StoreEntry>,
    m: Seq<usize>,
    history: Seq<Seq<AccountEntry>>,
    accounts: Seq<AccountEntry>,
) -> bool {
    &&& history.len() == m.len()
    &&& history.len() >= 1
    &&& history.last() == accounts
    &&& forall|i: int| 0 <= i < history.len() ==> #[trigger] trace_ok(e, m, history, i)
}

/// Whether the accounts that a network starts with are those that its first
/// block names, none of them a plain account without funds.
pub open spec fn genesis_sound(network: NetworkInfo) -> bool {
    &&& forall|i: int|
        0 <= i < network.genesis_accounts@.len() ==> kept(
            (#[trigger] network.genesis_accounts@[i]).account,
        ) is Some
    &&& state_hash(
        initial_state(network.genesis_accounts@, network.genesis_accounts@.len() as int),
    ) == network.genesis_block.header.accounts_hash@
}

/// On a sound chain whose accounts can be traced back, the accounts are in
/// their one form and have the hash that the head of the main chain names.
pub proof fn lemma_head_accounts(chain: Blockchain)
    requires
        chain.wf(),
        chain.traceable(),
    ensures
        canonical(chain.accounts@),
        state_hash(chain.accounts@) == chain.main_chain.head.header.accounts_hash@,
{
    let e = chain.chain_store.entries@;
    let m = chain.chain_store.main@;
    assert(trace_ok(e, m, chain.history@, m.len() - 1));
    assert(main_entry_ok(e, m, m.len() - 1));
}

impl Blockchain {
    /// Whether the accounts can be traced back along the main chain: for each
    /// of its blocks the accounts after it are on record, so that each block
    /// can be taken back from the accounts after it.
    pub open spec fn traceable(&self) -> bool {
        traced(self.chain_store.entries@, self.chain_store.main@, self.history@, self.accounts@)
    }

    /// Whether the chain is sound: the store is; the head that the chain
    /// holds is the head of the store's main chain; the first entry of the
    /// store is the genesis block; and the window of recent transactions
    /// holds just the last blocks of the main chain.
    pub open spec fn wf(&self) -> bool {
        &&& self.chain_store.wf()
        &&& self.head_hash == self.chain_store.entries@[self.chain_store.head_position()].hash
        &&& self.main_chain@ == self.chain_store.entries@[self.chain_store.head_position()].info@
        &&& self.main_chain.counts_ok()
        &&& self.genesis_hash == self.chain_store.entries@[0].hash
        &&& self.transaction_cache@ == chain_window(
            self.chain_store.entries@,
            self.chain_store.main@,
        )
    }

    /// The height of the main chain.
    pub open spec fn spec_height(&self) -> nat {
        self.chain_store.main@.len()
    }

    /// A chain that holds the genesis block of a network and nothing else, or
    /// `None` where that block cannot start a chain: it has to have height
    /// one, a body, a target that fits into 256 bits, and the hash that the
    /// network names.
    pub fn new(network: NetworkInfo) -> (r: Option<Blockchain>)
        ensures
            r is Some <==> {
                &&& network.genesis_block.header.height == 1
                &&& network.genesis_block.body is Some
                &&& compact_fits(network.genesis_block.header.n_bits.0)
                &&& network.genesis_hash@ == header_hash(network.genesis_block.header)
            },
            r is Some ==> {
                &&& r->0.wf()
                &&& r->0.spec_height() == 1
                &&& r->0.head_hash == network.genesis_hash
                &&& r->0.main_chain@.head == network.genesis_block@
                &&& r->0.network_id == network.network_id
                &&& r->0.events@.len() == 0
                &&& r->0.accounts@ == initial_state(
                    network.genesis_accounts@,
                    network.genesis_accounts@.len() as int,
                )
                &&& (genesis_sound(network) ==> r->0.traceable())
            },
    {
        let genesis = network.genesis_block;
        if genesis.header.height != 1 || genesis.body.is_none() || !genesis.header.n_bits.fits() {
            return None;
        }
        if !genesis.header.hash().same(&network.genesis_hash) {
            return None;
        }
        // Initialize chain & accounts with genesis block.
        let main_chain = ChainInfo::initial(genesis.clone());
        let head_hash = network.genesis_hash;
        // Initialize accounts.
        let accounts = Accounts::init(&network.genesis_accounts);
        // Store genesis block.
        let stored = ChainInfo::initial(genesis);
        let chain_store = ChainStore::new(head_hash, stored);
        // Initialize the TransactionCache with the genesis block.
        let mut transaction_cache = TransactionCache::new();
        transaction_cache.push_block(&main_chain.head);
        let ghost history = seq![accounts@];
        let chain = Blockchain {
            network_id: network.network_id,
            genesis_hash: head_hash,
            chain_store,
            accounts,
            transaction_cache,
            main_chain,
            head_hash,
            chain_proof: None,
            events: Vec::new(),
            history: Ghost(history),
        };
        proof {
            let e = chain.chain_store.entries@;
            let m = chain.chain_store.main@;
            assert(chain.transaction_cache@ =~= chain_window(e, m));
            if genesis_sound(network) {
                lemma_initial_canonical(
                    network.genesis_accounts@,
                    network.genesis_accounts@.len() as int,
                );
                assert(main_entry_ok(e, m, 0));
                assert(trace_ok(e, m, history, 0));
            }
        }
        Some(chain)
    }

    /// A chain over a store and accounts that were kept from an earlier run,
    /// or `None` where they do not fit the network or each other: the first
    /// block of the store has to be the genesis block of the network, and the
    /// accounts have to have the hash that the head of the main chain names.
    pub fn load(network: NetworkInfo, chain_store: ChainStore, accounts: Accounts) -> (r: Option<
        Blockchain,
    >)
        requires
            chain_store.wf(),
        ensures
            r is Some <==> chain_store.entries@[0].hash@ == network.genesis_hash@
                && crate::accounts::state_hash(accounts@)
                == chain_store.entries@[chain_store.head_position()].info.head.header.accounts_hash@,
            r is Some ==> {
                &&& r->0.wf()
                &&& r->0.chain_store == chain_store
                &&& r->0.accounts == accounts
                &&& r->0.network_id == network.network_id
                &&& r->0.events@.len() == 0
                &&& r->0.chain_proof is None
            },
    {
        let ghost e = chain_store.entries@;
        let ghost m = chain_store.main@;
        proof {
            assert(main_entry_ok(e, m, 0));
            assert(main_entry_ok(e, m, m.len() - 1));
        }
        // Check that the correct genesis block is stored.
        if !chain_store.entries[0].hash.same(&network.genesis_hash) {
            return None;
        }
        // Load main chain from store.
        let height = chain_store.main.len();
        let head = chain_store.main[height - 1];
        proof {
            assert(entry_ok(e, head as int));
        }
        let main_chain = chain_store.info_at(head, true);
        // Check that chain/accounts state is consistent.
        if !main_chain.head.header.accounts_hash.same(&accounts.hash()) {
            return None;
        }
        // Initialize the window of recent blocks.
        let mut transaction_cache = TransactionCache::new();
        let window = TRANSACTION_VALIDITY_WINDOW as usize;
        let first: usize = if height > window {
            height - window
        } else {
            0
        };
        let mut i: usize = first;
        proof {
            assert(transaction_cache@ =~= chain_slice(e, m, first as int, first as int));
        }
        while i < height
            invariant
                first <= i <= height,
                height == m.len(),
                first == window_start(height as int),
                chain_store.wf(),
                e == chain_store.entries@,
                m == chain_store.main@,
                transaction_cache.wf(),
                transaction_cache@ == chain_slice(e, m, first as int, i as int),
            decreases height - i,
        {
            proof {
                assert(main_entry_ok(e, m, i as int));
            }
            let ghost before = transaction_cache@;
            transaction_cache.push_block(&chain_store.entries[chain_store.main[i]].info.head);
            proof {
                assert(before.push(descriptor_of(e[m[i as int] as int].info.head@)) =~= chain_slice(
                    e,
                    m,
                    first as int,
                    i + 1,
                ));
            }
            i += 1;
        }
        let head_hash = chain_store.entries[head].hash;
        let genesis_hash = chain_store.entries[0].hash;
        Some(
            Blockchain {
                network_id: network.network_id,
                genesis_hash,
                chain_store,
                accounts,
                transaction_cache,
                main_chain,
                head_hash,
                chain_proof: None,
                events: Vec::new(),
                history: Ghost(Seq::empty()),
            },
        )
    }

    /// The blocks next to the block with a hash along the main chain, in a
    /// direction.
    pub fn get_blocks(
        &self,
        start_block_hash: &Blake2bHash,
        count: u32,
        include_body: bool,
        direction: crate::chain_store::Direction,
    ) -> (blocks: Vec<Block>)
        requires
            self.wf(),
        ensures
            blocks@.len() <= count,
            crate::chain_store::is_walk(
                self.chain_store,
                start_block_hash@,
                count,
                include_body,
                direction,
                blocks@,
            ),
    {
        self.chain_store.get_blocks(start_block_hash, count, include_body, direction)
    }

    /// The hash of the head of the main chain.
    pub fn head_hash(&self) -> (h: Blake2bHash)
        ensures
            h == self.head_hash,
    {
        self.head_hash
    }

    /// The height of the main chain.
    pub fn height(&self) -> (h: u32)
        ensures
            h == self.main_chain.head.header.height,
    {
        self.main_chain.head.header.height
    }

    /// The head of the main chain.
    pub fn head(&self) -> (b: &Block)
        ensures
            *b == self.main_chain.head,
    {
        &self.main_chain.head
    }

    /// The accounts as they stand after the head of the main chain.
    pub fn accounts(&self) -> (a: &Accounts)
        ensures
            *a == self.accounts,
    {
        &self.accounts
    }

    /// The window of recent transactions.
    pub fn transaction_cache(&self) -> (c: &TransactionCache)
        ensures
            *c == self.transaction_cache,
    {
        &self.transaction_cache
    }

    /// The sum of the work of all blocks of the main chain.
    pub fn total_work(&self) -> (w: &crate::target::Difficulty)
        ensures
            *w == self.main_chain.total_work,
    {
        &self.main_chain.total_work
    }

    /// Whether a block is known, on the main chain or, where forks count, at
    /// all.
    pub fn contains(&self, hash: &Blake2bHash, include_forks: bool) -> (b: bool)
        requires
            self.wf(),
        ensures
            b == exists|p: int|
                0 <= p < self.chain_store.entries@.len() && (
                #[trigger] self.chain_store.entries@[p]).hash@ == hash@ && (include_forks
                    || self.chain_store.entries@[p].info.on_main_chain),
    {
        match self.chain_store.find(hash) {
            Some(p) => {
                proof {
                    let e = self.chain_store.entries@;
                    assert forall|q: int| 0 <= q < e.len() && (#[trigger] e[q]).hash@
                        == hash@ implies q == p by {
                        assert(key_at(e, q) == key_at(e, p as int));
                    }
                }
                include_forks || self.chain_store.entries[p].info.on_main_chain
            },
            None => false,
        }
    }

    /// The block of the main chain at a height.
    pub fn get_block_at(&self, height: u32, include_body: bool) -> (r: Option<Block>)
        requires
            self.wf(),
        ensures
            r is Some == (1 <= height <= self.spec_height()),
            r is Some ==> r->0@.header
                == self.chain_store.entries@[self.chain_store.main@[height - 1] as int].info@.head.header
                && (r->0@.body is Some) == include_body,
    {
        proof {
            if 1 <= height <= self.chain_store.main@.len() {
                assert(main_entry_ok(
                    self.chain_store.entries@,
                    self.chain_store.main@,
                    height - 1,
                ));
                assert(entry_ok(
                    self.chain_store.entries@,
                    self.chain_store.main@[height - 1] as int,
                ));
            }
        }
        match self.chain_store.get_chain_info_at(height, include_body) {
            Some(info) => Some(info.head),
            None => None,
        }
    }

    /// The block with a hash, on the main chain or, where forks count, at all.
    pub fn get_block(&self, hash: &Blake2bHash, include_forks: bool, include_body: bool) -> (r: Option<
        Block,
    >)
        requires
            self.wf(),
        ensures
            r is Some == exists|p: int|
                0 <= p < self.chain_store.entries@.len() && (
                #[trigger] self.chain_store.entries@[p]).hash@ == hash@ && (include_forks
                    || self.chain_store.entries@[p].info.on_main_chain),
            r is Some ==> header_hash(r->0@.header) == hash@,
            r is Some ==> (r->0@.body is Some) == include_body,
    {
        match self.chain_store.find(hash) {
            Some(p) => {
                proof {
                    let e = self.chain_store.entries@;
                    assert forall|q: int| 0 <= q < e.len() && (#[trigger] e[q]).hash@
                        == hash@ implies q == p by {
                        assert(key_at(e, q) == key_at(e, p as int));
                    }
                    assert(entry_ok(e, p as int));
                }
                if self.chain_store.entries[p].info.on_main_chain || include_forks {
                    Some(self.chain_store.block_at(p, include_body))
                } else {
                    None
                }
            },
            None => None,
        }
    }

    /// Hands out the events that have gathered since the last call, the
    /// oldest first.
    pub fn take_events(&mut self) -> (events: Vec<BlockchainEvent>)
        ensures
            events == old(self).events,
            final(self).events@.len() == 0,
            final(self).network_id == old(self).network_id,
            final(self).genesis_hash == old(self).genesis_hash,
            final(self).chain_store == old(self).chain_store,
            final(self).accounts == old(self).accounts,
            final(self).transaction_cache == old(self).transaction_cache,
            final(self).main_chain == old(self).main_chain,
            final(self).head_hash == old(self).head_hash,
            final(self).chain_proof == old(self).chain_proof,
            final(self).history == old(self).history,
    {
        let mut events: Vec<BlockchainEvent> = Vec::new();
        std::mem::swap(&mut events, &mut self.events);
        events
    }
}

} // verus!
