use chain_engine::account::{Account, BasicAccount, NetworkId};
use chain_engine::accounts::{AccountEntry, Accounts};
use chain_engine::address::Address;
use chain_engine::block::{Block, BlockBody, BlockError, BlockHeader, BlockInterlink};
use chain_engine::blockchain::{Blockchain, BlockchainEvent, NetworkInfo, PushError, PushResult};
use chain_engine::chain_store::Direction;
use chain_engine::hash::Blake2bHash;
use chain_engine::target::{Target, TargetCompact};
use chain_engine::transaction::Transaction;

const EASIEST: u32 = 0x1f01_0000;
const NOW: u64 = 2_000_000_000_000;

// Nonces with which the blocks of the tests meet the easiest target.
const NONCE_A: u32 = 90655;
const NONCE_A2: u32 = 112206;
const NONCE_B: u32 = 52282;
const NONCE_B2: u32 = 231448;
const NONCE_C2: u32 = 15896;
const NONCE_B_TWICE: u32 = 203036;

fn address(byte: u8) -> Address {
    Address([byte; 20])
}

fn genesis_accounts() -> Vec<AccountEntry> {
    vec![AccountEntry {
        address: address(1),
        account: Account::Basic(BasicAccount { balance: 1000 }),
    }]
}

fn genesis() -> NetworkInfo {
    let accounts = Accounts::init(&genesis_accounts());
    let body = BlockBody {
        miner: address(9),
        extra_data: Vec::new(),
        transactions: Vec::new(),
        pruned_accounts: Vec::new(),
    };
    let interlink = BlockInterlink { hashes: Vec::new() };
    let header = BlockHeader {
        version: 1,
        prev_hash: Blake2bHash::zero(),
        interlink_hash: Blake2bHash::zero(),
        body_hash: body.hash(),
        accounts_hash: accounts.hash(),
        n_bits: TargetCompact(EASIEST),
        height: 1,
        timestamp: 1_000_000,
        nonce: 0,
    };
    let genesis_hash = header.hash();
    NetworkInfo {
        network_id: NetworkId::Dummy,
        genesis_block: Block { header, interlink, body: Some(body) },
        genesis_hash,
        genesis_accounts: genesis_accounts(),
    }
}

fn transfer(from: u8, to: u8, value: u64, fee: u64) -> Transaction {
    Transaction {
        sender: address(from),
        recipient: address(to),
        value,
        fee,
        validity_start_height: 1,
        network_id: NetworkId::Dummy,
    }
}

fn next_block(
    genesis_hash: &Blake2bHash,
    prev: &BlockHeader,
    accounts: &Accounts,
    miner: u8,
    transactions: Vec<Transaction>,
    nonce: u32,
) -> (Block, Accounts) {
    let body = BlockBody {
        miner: address(miner),
        extra_data: Vec::new(),
        transactions,
        pruned_accounts: Vec::new(),
    };
    let after = accounts.apply_body(&body).unwrap();
    let interlink = BlockInterlink { hashes: Vec::new() };
    let header = BlockHeader {
        version: 1,
        prev_hash: prev.hash(),
        interlink_hash: interlink.hash(genesis_hash),
        body_hash: body.hash(),
        accounts_hash: after.hash(),
        n_bits: TargetCompact(EASIEST),
        height: prev.height + 1,
        timestamp: prev.timestamp + 60,
        nonce,
    };
    (Block { header, interlink, body: Some(body) }, after)
}

/// The blocks of the tests: `a` follows on the genesis block and holds a
/// transaction, `b` follows on `a`, and so does `b_twice`, which holds the
/// transaction of `a` again; `a2`, `b2` and `c2` are a fork from the genesis
/// block.
struct Blocks {
    network: NetworkInfo,
    a: Block,
    after_a: Accounts,
    b: Block,
    after_b: Accounts,
    b_twice: Block,
    a2: Block,
    b2: Block,
    c2: Block,
    after_c2: Accounts,
}

fn blocks() -> Blocks {
    let network = genesis();
    let start = Accounts::init(&genesis_accounts());
    let hash = network.genesis_hash;
    let first = network.genesis_block.header;
    let (a, after_a) = next_block(&hash, &first, &start, 9, vec![transfer(1, 2, 10, 1)], NONCE_A);
    let (b, after_b) = next_block(&hash, &a.header, &after_a, 9, vec![transfer(1, 4, 7, 1)], NONCE_B);
    let (b_twice, _) =
        next_block(&hash, &a.header, &after_a, 9, vec![transfer(1, 2, 10, 1)], NONCE_B_TWICE);
    let (a2, after_a2) = next_block(&hash, &first, &start, 8, Vec::new(), NONCE_A2);
    let (b2, after_b2) =
        next_block(&hash, &a2.header, &after_a2, 8, vec![transfer(1, 3, 5, 2)], NONCE_B2);
    let (c2, after_c2) = next_block(&hash, &b2.header, &after_b2, 8, Vec::new(), NONCE_C2);
    Blocks { network, a, after_a, b, after_b, b_twice, a2, b2, c2, after_c2 }
}

#[test]
fn a_chain_starts_with_its_genesis_block() {
    let network = genesis();
    let genesis_hash = network.genesis_hash;
    let mut chain = Blockchain::new(network).unwrap();
    assert_eq!(chain.height(), 1);
    assert_eq!(chain.head_hash(), genesis_hash);
    assert_eq!(chain.get_block_locators(20), vec![genesis_hash]);
    assert_eq!(chain.get_next_target(None), Target::max());
    assert_eq!(chain.get_next_target(Some(&genesis_hash)), Target::max());
    assert!(chain.contains(&genesis_hash, false));
    assert!(!chain.contains(&Blake2bHash::zero(), true));
    assert_eq!(chain.get_block_at(1, false).unwrap().header.hash(), genesis_hash);
    assert!(chain.get_block_at(1, false).unwrap().body.is_none());
    assert!(chain.get_block_at(1, true).unwrap().body.is_some());
    assert!(chain.get_block_at(2, true).is_none());
    assert!(chain.get_block_at(0, true).is_none());
    assert_eq!(chain.total_work().value.digits.len() > 0, true);
    assert!(chain.take_events().is_empty());
    let proof = chain.get_chain_proof().unwrap();
    assert_eq!(proof.prefix.len(), 1);
    assert_eq!(proof.prefix[0].header.hash(), genesis_hash);
    assert!(proof.suffix.is_empty());
}

#[test]
fn a_genesis_block_has_to_fit() {
    let mut network = genesis();
    network.genesis_block.header.height = 2;
    network.genesis_hash = network.genesis_block.header.hash();
    assert!(Blockchain::new(network).is_none());
    let mut network = genesis();
    network.genesis_hash = Blake2bHash::zero();
    assert!(Blockchain::new(network).is_none());
    let mut network = genesis();
    network.genesis_block.body = None;
    assert!(Blockchain::new(network).is_none());
}

#[test]
fn a_block_without_proof_of_work_is_invalid() {
    let Blocks { network, mut a, .. } = blocks();
    let genesis_hash = network.genesis_hash;
    let mut chain = Blockchain::new(network).unwrap();
    a.header.nonce = NONCE_A.wrapping_add(1);
    assert_eq!(
        chain.push(a, NOW),
        PushResult::Invalid(PushError::InvalidBlock(BlockError::InvalidPoW))
    );
    assert_eq!(chain.head_hash(), genesis_hash);
    assert!(chain.take_events().is_empty());
}

#[test]
fn a_block_from_the_future_is_invalid() {
    let Blocks { network, a, .. } = blocks();
    let mut chain = Blockchain::new(network).unwrap();
    assert_eq!(
        chain.push(a, 0),
        PushResult::Invalid(PushError::InvalidBlock(BlockError::FromTheFuture))
    );
}

#[test]
fn extend() {
    let Blocks { network, a, after_a, .. } = blocks();
    let mut chain = Blockchain::new(network).unwrap();
    let hash = a.header.hash();
    assert_eq!(TargetCompact(EASIEST), chain.get_next_target(None).to_compact());
    assert_eq!(chain.push(a.clone(), NOW), PushResult::Extended);
    assert_eq!(chain.height(), 2);
    assert_eq!(chain.head_hash(), hash);
    assert_eq!(chain.head(), &a);
    // The accounts are those that the head names.
    assert_eq!(chain.accounts().hash(), a.header.accounts_hash);
    assert_eq!(chain.accounts(), &after_a);
    assert!(chain.transaction_cache().contains(&transfer(1, 2, 10, 1).hash()));
    assert_eq!(chain.take_events(), vec![BlockchainEvent::Extended(hash, a.clone())]);
    assert_eq!(chain.get_block_locators(20), vec![hash, chain.genesis_hash]);
    assert_eq!(chain.get_block(&hash, false, true), Some(a.clone()));
    assert_eq!(chain.get_next_target(None), Target::max());
    // A block that is known is not taken again.
    assert_eq!(chain.push(a, NOW), PushResult::Known);
    assert_eq!(chain.height(), 2);
}

#[test]
fn reject_unknown_predecessor() {
    let Blocks { network, b2, .. } = blocks();
    let genesis_hash = network.genesis_hash;
    let mut chain = Blockchain::new(network).unwrap();
    assert_eq!(chain.push(b2, NOW), PushResult::Orphan);
    assert_eq!(chain.height(), 1);
    assert_eq!(chain.head_hash(), genesis_hash);
}

#[test]
fn reject_duplicate_transaction() {
    let Blocks { network, a, b_twice, after_a, .. } = blocks();
    let mut chain = Blockchain::new(network).unwrap();
    let hash = a.header.hash();
    assert_eq!(chain.push(a, NOW), PushResult::Extended);
    assert_eq!(chain.push(b_twice, NOW), PushResult::Invalid(PushError::DuplicateTransaction));
    assert_eq!(chain.height(), 2);
    assert_eq!(chain.head_hash(), hash);
    assert_eq!(chain.accounts(), &after_a);
    assert_eq!(chain.take_events().len(), 1);
}

#[test]
fn rebranch() {
    let Blocks { network, a, b, a2, b2, c2, after_b, after_c2, .. } = blocks();
    let genesis_hash = network.genesis_hash;
    let mut chain = Blockchain::new(network).unwrap();
    let (hash_a, hash_b) = (a.header.hash(), b.header.hash());
    let (hash_a2, hash_b2, hash_c2) = (a2.header.hash(), b2.header.hash(), c2.header.hash());
    assert_eq!(chain.push(a.clone(), NOW), PushResult::Extended);
    assert_eq!(chain.push(b.clone(), NOW), PushResult::Extended);
    assert_eq!(chain.height(), 3);
    assert_eq!(chain.accounts(), &after_b);
    // A fork that is not harder than the main chain is stored only.
    assert_eq!(chain.push(a2.clone(), NOW), PushResult::Forked);
    assert_eq!(chain.push(b2.clone(), NOW), PushResult::Forked);
    assert_eq!(chain.head_hash(), hash_b);
    assert_eq!(chain.accounts(), &after_b);
    assert!(chain.contains(&hash_a2, true));
    assert!(!chain.contains(&hash_a2, false));
    assert_eq!(chain.get_next_target(Some(&hash_b2)), Target::max());
    assert_eq!(chain.get_block_locators(20), vec![hash_b, hash_a, genesis_hash]);
    // The fork becomes harder: the main chain changes to it.
    assert_eq!(chain.push(c2.clone(), NOW), PushResult::Rebranched);
    assert_eq!(chain.height(), 4);
    assert_eq!(chain.head_hash(), hash_c2);
    assert_eq!(chain.head(), &c2);
    assert_eq!(chain.accounts(), &after_c2);
    assert_eq!(chain.accounts().hash(), c2.header.accounts_hash);
    assert_eq!(chain.get_block_locators(20), vec![hash_c2, hash_b2, hash_a2, genesis_hash]);
    assert_eq!(chain.get_block_locators(3), vec![hash_c2, hash_b2, genesis_hash]);
    assert_eq!(chain.get_block_locators(2), vec![hash_c2, genesis_hash]);
    assert_eq!(chain.get_block_locators(1), vec![genesis_hash]);
    assert!(chain.contains(&hash_a, true));
    assert!(!chain.contains(&hash_a, false));
    assert!(!chain.contains(&hash_b, false));
    assert!(chain.get_block(&hash_a, false, true).is_none());
    assert_eq!(chain.get_block_at(2, true), Some(a2.clone()));
    assert_eq!(chain.get_block_at(3, true), Some(b2.clone()));
    // The window of recent transactions is that of the new main chain.
    assert!(!chain.transaction_cache().contains(&transfer(1, 2, 10, 1).hash()));
    assert!(!chain.transaction_cache().contains(&transfer(1, 4, 7, 1).hash()));
    assert!(chain.transaction_cache().contains(&transfer(1, 3, 5, 2).hash()));
    assert_eq!(chain.transaction_cache().len(), 4);
    assert_eq!(chain.transaction_cache().head_hash(), hash_c2);
    assert_eq!(chain.transaction_cache().tail_hash(), genesis_hash);
    assert_eq!(
        chain.take_events(),
        vec![
            BlockchainEvent::Extended(hash_a, a.clone()),
            BlockchainEvent::Extended(hash_b, b.clone()),
            BlockchainEvent::Rebranched(
                vec![(hash_a, a), (hash_b, b)],
                vec![(hash_a2, a2.clone()), (hash_b2, b2.clone()), (hash_c2, c2.clone())]
            ),
        ]
    );
    let forward = chain.get_blocks(&genesis_hash, 5, false, Direction::Forward);
    assert_eq!(
        forward.iter().map(|b| b.header.hash()).collect::<Vec<_>>(),
        vec![hash_a2, hash_b2, hash_c2]
    );
    let backward = chain.get_blocks(&hash_c2, 1, true, Direction::Backward);
    assert_eq!(backward, vec![b2.clone()]);
    let proof = chain.get_chain_proof().unwrap();
    assert_eq!(proof.prefix.len(), 1);
    assert_eq!(proof.suffix, vec![a2.header, b2.header, c2.header]);
    assert_eq!(chain.push(c2, NOW), PushResult::Known);
}

/// A fork of two blocks takes the place of a main chain of one block above
/// the genesis block.
#[test]
fn a_short_fork_is_adopted() {
    let Blocks { network, a, a2, b2, .. } = blocks();
    let genesis_hash = network.genesis_hash;
    let mut chain = Blockchain::new(network).unwrap();
    let (hash_a, hash_a2, hash_b2) = (a.header.hash(), a2.header.hash(), b2.header.hash());
    assert_eq!(chain.push(a.clone(), NOW), PushResult::Extended);
    assert_eq!(chain.push(a2.clone(), NOW), PushResult::Forked);
    assert_eq!(chain.head_hash(), hash_a);
    assert_eq!(chain.push(b2.clone(), NOW), PushResult::Rebranched);
    assert_eq!(chain.height(), 3);
    assert_eq!(chain.head(), &b2);
    assert_eq!(chain.accounts().hash(), b2.header.accounts_hash);
    assert_eq!(chain.get_block_locators(20), vec![hash_b2, hash_a2, genesis_hash]);
    assert_eq!(chain.transaction_cache().len(), 3);
    assert_eq!(
        chain.take_events(),
        vec![
            BlockchainEvent::Extended(hash_a, a.clone()),
            BlockchainEvent::Rebranched(vec![(hash_a, a)], vec![(hash_a2, a2), (hash_b2, b2)]),
        ]
    );
}

#[test]
fn a_chain_is_loaded_from_what_was_kept() {
    let Blocks { a, after_a, .. } = blocks();
    let mut chain = Blockchain::new(genesis()).unwrap();
    assert_eq!(chain.push(a.clone(), NOW), PushResult::Extended);
    let Blockchain { chain_store, accounts, .. } = chain;
    let loaded = Blockchain::load(genesis(), chain_store, accounts).unwrap();
    assert_eq!(loaded.height(), 2);
    assert_eq!(loaded.head(), &a);
    assert_eq!(loaded.accounts(), &after_a);
    assert!(loaded.transaction_cache().contains(&transfer(1, 2, 10, 1).hash()));
    assert_eq!(loaded.transaction_cache().len(), 2);

    let Blockchain { chain_store, .. } = loaded;
    assert!(Blockchain::load(genesis(), chain_store, Accounts::new()).is_none());
}
