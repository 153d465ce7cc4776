use chain_engine::account::{Account, BasicAccount, NetworkId, PrunedAccount, VestingContract};
use chain_engine::accounts::{AccountEntry, AccountError, Accounts};
use chain_engine::address::Address;
use chain_engine::block::{Block, BlockBody, BlockError, BlockHeader, BlockInterlink};
use chain_engine::chain_info::{ChainInfo, SuperBlockCounts};
use chain_engine::hash::Blake2bHash;
use chain_engine::locators::locator_height_list;
use chain_engine::super_chain::SuperChain;
use chain_engine::target::TargetCompact;
use chain_engine::transaction::{Transaction, TransactionError};
use chain_engine::transaction_cache::TransactionCache;

fn address(byte: u8) -> Address {
    Address([byte; 20])
}

fn basic(byte: u8, balance: u64) -> AccountEntry {
    AccountEntry { address: address(byte), account: Account::Basic(BasicAccount { balance }) }
}

fn transfer(from: u8, to: u8, value: u64, fee: u64) -> Transaction {
    Transaction {
        sender: address(from),
        recipient: address(to),
        value,
        fee,
        validity_start_height: 1,
        network_id: NetworkId::Main,
    }
}

fn body(miner: u8, transactions: Vec<Transaction>, pruned_accounts: Vec<PrunedAccount>) -> BlockBody {
    BlockBody { miner: address(miner), extra_data: Vec::new(), transactions, pruned_accounts }
}

fn header(height: u32) -> BlockHeader {
    BlockHeader {
        version: 1,
        prev_hash: Blake2bHash::zero(),
        interlink_hash: Blake2bHash::zero(),
        body_hash: Blake2bHash::zero(),
        accounts_hash: Blake2bHash::zero(),
        n_bits: TargetCompact(0x1f01_0000),
        height,
        timestamp: 0,
        nonce: 0,
    }
}

#[test]
fn accounts_stand_in_the_order_of_their_addresses() {
    let state = Accounts::init(&vec![basic(3, 30), basic(1, 10), basic(2, 20), basic(1, 11)]);
    assert_eq!(state.entries, vec![basic(1, 11), basic(2, 20), basic(3, 30)]);
    assert_eq!(state.balance(&address(2)), 20);
    assert_eq!(state.balance(&address(4)), 0);
    assert_eq!(state.get(&address(4)), None);
    assert_eq!(state.put(&address(2), None).entries, vec![basic(1, 11), basic(3, 30)]);
    assert_ne!(state.hash(), state.put(&address(2), None).hash());
    assert_eq!(state.hash(), Accounts::init(&vec![basic(1, 11), basic(2, 20), basic(3, 30)]).hash());
}

#[test]
fn a_body_is_applied_and_taken_back() {
    let state = Accounts::init(&vec![basic(1, 100), basic(2, 5)]);
    let body = body(9, vec![transfer(1, 2, 10, 1), transfer(1, 3, 89, 0)], Vec::new());
    let after = state.apply_body(&body).unwrap();
    assert_eq!(after.entries, vec![basic(2, 15), basic(3, 89), basic(9, 1)]);
    assert_eq!(after.revert_body(&body).unwrap(), state);
}

#[test]
fn a_body_that_overspends_is_refused() {
    let state = Accounts::init(&vec![basic(1, 100)]);
    assert_eq!(
        state.apply_body(&body(9, vec![transfer(1, 2, 100, 1)], Vec::new())),
        Err(AccountError::InsufficientFunds)
    );
    assert_eq!(
        state.apply_body(&body(9, vec![transfer(4, 2, 1, 0)], Vec::new())),
        Err(AccountError::InsufficientFunds)
    );
    let rich = Accounts::init(&vec![basic(1, 100), basic(2, u64::MAX)]);
    assert_eq!(
        rich.apply_body(&body(9, vec![transfer(1, 2, 1, 0)], Vec::new())),
        Err(AccountError::InvalidCoinValue)
    );
}

#[test]
fn contracts_without_funds_are_pruned() {
    let contract = |balance: u64| Account::Vesting(VestingContract { balance, owner: address(7) });
    let state = Accounts::init(&vec![
        basic(1, 100),
        AccountEntry { address: address(5), account: contract(10) },
    ]);
    let spend = transfer(5, 1, 10, 0);
    let pruned = PrunedAccount { address: address(5), account: contract(0) };
    // The contract has to leave with the block that spends its funds.
    assert_eq!(
        state.apply_body(&body(9, vec![spend], Vec::new())),
        Err(AccountError::InvalidPruning)
    );
    let with_pruning = body(9, vec![spend], vec![pruned]);
    let after = state.apply_body(&with_pruning).unwrap();
    assert_eq!(after.entries, vec![basic(1, 110)]);
    assert_eq!(after.revert_body(&with_pruning).unwrap(), state);
    // A contract with funds cannot be pruned.
    let early = PrunedAccount { address: address(5), account: contract(10) };
    assert_eq!(
        state.apply_body(&body(9, Vec::new(), vec![early])),
        Err(AccountError::InvalidPruning)
    );
    assert!(contract(0).is_to_be_pruned());
    assert!(!contract(1).is_to_be_pruned());
    assert!(!Account::Basic(BasicAccount { balance: 0 }).is_to_be_pruned());
}

#[test]
fn a_block_has_to_name_the_hash_of_the_accounts() {
    let state = Accounts::init(&vec![basic(1, 100)]);
    let body = body(9, vec![transfer(1, 2, 10, 1)], Vec::new());
    let after = state.apply_body(&body).unwrap();
    let mut block = Block {
        header: header(2),
        interlink: BlockInterlink { hashes: Vec::new() },
        body: Some(body),
    };
    assert_eq!(state.commit_block(&block), Err(AccountError::AccountsHashMismatch));
    block.header.accounts_hash = after.hash();
    assert_eq!(state.commit_block(&block).unwrap(), after);
    assert_eq!(after.revert_block(&block).unwrap(), state);
}

#[test]
fn bodies_are_checked() {
    let ok = body(9, vec![transfer(1, 2, 10, 1), transfer(1, 3, 10, 1)], Vec::new());
    assert_eq!(ok.verify(5, NetworkId::Main), Ok(()));
    assert_eq!(
        ok.verify(5, NetworkId::Test),
        Err(BlockError::InvalidTransaction(TransactionError::ForeignNetwork))
    );
    assert_eq!(ok.verify(121, NetworkId::Main), Err(BlockError::ExpiredTransaction));
    assert_eq!(ok.verify(0, NetworkId::Main), Err(BlockError::ExpiredTransaction));
    let twice = body(9, vec![transfer(1, 2, 10, 1), transfer(1, 2, 10, 1)], Vec::new());
    assert_eq!(twice.verify(5, NetworkId::Main), Err(BlockError::DuplicateTransaction));
    let unordered = body(9, vec![transfer(1, 3, 10, 1), transfer(1, 2, 10, 1)], Vec::new());
    assert_eq!(unordered.verify(5, NetworkId::Main), Err(BlockError::TransactionsNotOrdered));
    let by_fee = body(9, vec![transfer(1, 2, 10, 2), transfer(1, 2, 10, 1)], Vec::new());
    assert_eq!(by_fee.verify(5, NetworkId::Main), Ok(()));
    let zero = body(9, vec![transfer(1, 2, 0, 1)], Vec::new());
    assert_eq!(
        zero.verify(5, NetworkId::Main),
        Err(BlockError::InvalidTransaction(TransactionError::ZeroValue))
    );
    let own = body(9, vec![transfer(1, 1, 5, 1)], Vec::new());
    assert_eq!(
        own.verify(5, NetworkId::Main),
        Err(BlockError::InvalidTransaction(TransactionError::SenderEqualsRecipient))
    );
    let much = body(9, vec![transfer(1, 2, u64::MAX, 1)], Vec::new());
    assert_eq!(
        much.verify(5, NetworkId::Main),
        Err(BlockError::InvalidTransaction(TransactionError::Overflow))
    );
    let contract = |byte: u8, balance: u64| PrunedAccount {
        address: address(byte),
        account: Account::Vesting(VestingContract { balance, owner: address(7) }),
    };
    assert_eq!(
        body(9, Vec::new(), vec![contract(1, 0), contract(2, 0)]).verify(5, NetworkId::Main),
        Ok(())
    );
    assert_eq!(
        body(9, Vec::new(), vec![contract(1, 0), contract(1, 0)]).verify(5, NetworkId::Main),
        Err(BlockError::DuplicatePrunedAccount)
    );
    assert_eq!(
        body(9, Vec::new(), vec![contract(2, 0), contract(1, 0)]).verify(5, NetworkId::Main),
        Err(BlockError::PrunedAccountsNotOrdered)
    );
    assert_eq!(
        body(9, Vec::new(), vec![contract(1, 3)]).verify(5, NetworkId::Main),
        Err(BlockError::InvalidPrunedAccount)
    );
}

#[test]
fn headers_follow_on_each_other() {
    let first = header(1);
    let mut second = header(2);
    second.prev_hash = first.hash();
    second.timestamp = 10;
    assert!(second.is_immediate_successor_of(&first));
    assert_eq!(second.timestamp_in_millis(), 10_000);
    let mut late = second;
    late.height = 3;
    assert!(!late.is_immediate_successor_of(&first));
    let mut stranger = second;
    stranger.prev_hash = Blake2bHash::zero();
    assert!(!stranger.is_immediate_successor_of(&first));
    let mut early = header(3);
    early.prev_hash = second.hash();
    early.timestamp = 9;
    assert!(!early.is_immediate_successor_of(&second));
    assert_eq!(first.serialize_content().len(), 146);
    assert_ne!(first.hash(), second.hash());
    assert_eq!(first.pow(), first.pow());
    let mut unfit = first;
    unfit.n_bits = TargetCompact(0x2200_0001);
    assert!(!unfit.verify_proof_of_work());
}

#[test]
fn blocks_are_checked() {
    let body = body(9, vec![transfer(1, 2, 10, 1)], Vec::new());
    let genesis_hash = Blake2bHash::digest(b"genesis");
    let interlink = BlockInterlink { hashes: Vec::new() };
    let mut block = Block { header: header(2), interlink, body: Some(body) };
    block.header.timestamp = 1000;
    block.header.version = 2;
    assert_eq!(
        block.verify(0, NetworkId::Main, &genesis_hash),
        Err(BlockError::UnsupportedVersion)
    );
    block.header.version = 1;
    assert_eq!(block.verify(0, NetworkId::Main, &genesis_hash), Err(BlockError::FromTheFuture));
    assert_eq!(block.verify(400_000, NetworkId::Main, &genesis_hash), Err(BlockError::InvalidPoW));
}

#[test]
fn the_window_of_recent_transactions_moves() {
    let block = |height: u32, transactions: Vec<Transaction>| Block {
        header: header(height),
        interlink: BlockInterlink { hashes: Vec::new() },
        body: Some(body(9, transactions, Vec::new())),
    };
    let mut cache = TransactionCache::new();
    assert!(cache.is_empty());
    assert_eq!(cache.missing_blocks(), 120);
    let first = block(1, vec![transfer(1, 2, 10, 1)]);
    let second = block(2, vec![transfer(1, 2, 11, 1)]);
    cache.push_block(&first);
    cache.push_block(&second);
    assert_eq!(cache.missing_blocks(), 118);
    assert_eq!(cache.head_hash(), second.header.hash());
    assert_eq!(cache.tail_hash(), first.header.hash());
    assert!(cache.contains(&transfer(1, 2, 10, 1).hash()));
    assert!(cache.contains_any(&block(3, vec![transfer(1, 5, 1, 1), transfer(1, 2, 11, 1)])));
    assert!(!cache.contains_any(&block(3, vec![transfer(1, 5, 1, 1)])));
    cache.revert_block(&second);
    assert!(!cache.contains(&transfer(1, 2, 11, 1).hash()));
    assert_eq!(cache.head_hash(), first.header.hash());
    cache.prepend_block(&second);
    assert_eq!(cache.tail_hash(), second.header.hash());
    cache.revert_block(&first);
    cache.revert_block(&second);
    cache.revert_block(&second);
    assert!(cache.is_empty());
    for height in 0..130 {
        cache.push_block(&block(height, vec![transfer(1, 2, height as u64 + 1, 1)]));
    }
    assert_eq!(cache.len(), 120);
    assert_eq!(cache.missing_blocks(), 0);
    assert_eq!(cache.tail_hash(), header(10).hash());
    assert!(!cache.contains(&transfer(1, 2, 10, 1).hash()));
    assert!(cache.contains(&transfer(1, 2, 11, 1).hash()));
}

#[test]
fn locator_heights_thin_out() {
    assert_eq!(locator_height_list(1, 20), vec![1]);
    assert_eq!(locator_height_list(5, 20), vec![5, 4, 3, 2, 1]);
    assert_eq!(locator_height_list(11, 20), vec![11, 10, 9, 8, 7, 6, 5, 4, 3, 2, 1]);
    assert_eq!(locator_height_list(12, 20), vec![12, 11, 10, 9, 8, 7, 6, 5, 4, 3, 2, 1]);
    assert_eq!(
        locator_height_list(30, 20),
        vec![30, 29, 28, 27, 26, 25, 24, 23, 22, 21, 20, 18, 14, 6, 1]
    );
    assert_eq!(
        locator_height_list(30, 13),
        vec![30, 29, 28, 27, 26, 25, 24, 23, 22, 21, 20, 18, 1]
    );
    assert_eq!(
        locator_height_list(1000, 12),
        vec![1000, 999, 998, 997, 996, 995, 994, 993, 992, 991, 990, 1]
    );
    // There are never more than are asked for, and the first block is last.
    assert_eq!(locator_height_list(30, 1), vec![1]);
    assert_eq!(locator_height_list(30, 0), vec![1]);
    assert_eq!(locator_height_list(30, 2), vec![30, 1]);
    assert_eq!(locator_height_list(30, 3), vec![30, 29, 1]);
    assert_eq!(locator_height_list(5, 1), vec![1]);
    assert_eq!(locator_height_list(5, 3), vec![5, 4, 1]);
    assert_eq!(locator_height_list(5, 5), vec![5, 4, 3, 2, 1]);
    assert_eq!(locator_height_list(30, 11), vec![30, 29, 28, 27, 26, 25, 24, 23, 22, 21, 1]);
    assert_eq!(locator_height_list(30, 12), vec![30, 29, 28, 27, 26, 25, 24, 23, 22, 21, 20, 1]);
    for height in 1..60usize {
        for max_count in 1..30usize {
            let heights = locator_height_list(height, max_count);
            assert!(heights.len() <= max_count);
            assert_eq!(heights[heights.len() - 1], 1);
            assert!(heights.windows(2).all(|pair| pair[0] > pair[1]));
        }
    }
    assert_eq!(
        locator_height_list(1000, 40),
        vec![1000, 999, 998, 997, 996, 995, 994, 993, 992, 991, 990, 988, 984, 976, 960, 928, 864, 736, 480, 1]
    );
}

#[test]
fn super_block_counts_add_up() {
    let counts = SuperBlockCounts::new().copy_and_add(2).copy_and_add(0).copy_and_add(1);
    assert_eq!(counts.counts, vec![3, 2, 1]);
    assert_eq!(counts.get(0), 3);
    assert_eq!(counts.get(2), 1);
    assert_eq!(counts.get(3), 0);
    assert_eq!(counts.get_candidate_depth(1), 2);
    assert_eq!(counts.get_candidate_depth(2), 1);
    assert_eq!(counts.get_candidate_depth(3), 0);
    assert_eq!(counts.get_candidate_depth(4), 0);
}

fn info(height: u32, counts: Vec<u32>) -> ChainInfo {
    let mut info = ChainInfo::initial(Block {
        header: header(height),
        interlink: BlockInterlink { hashes: Vec::new() },
        body: None,
    });
    info.super_block_counts = SuperBlockCounts { counts };
    info
}

#[test]
fn chains_are_locally_good() {
    // 85 blocks of depth 0 stand for 100 heights just not well enough.
    assert!(!SuperChain::is_locally_good(85, 100, 0, 15));
    assert!(SuperChain::is_locally_good(86, 100, 0, 15));
    // At depth 1 half as many are expected.
    assert!(!SuperChain::is_locally_good(42, 100, 1, 15));
    assert!(SuperChain::is_locally_good(43, 100, 1, 15));
    assert!(SuperChain::is_locally_good(1, 100_000, 60, 15));
    assert!(!SuperChain::is_locally_good(0, 100, 60, 15));
    assert!(!SuperChain::is_locally_good(0, 0, 3, 15));
    assert!(SuperChain::is_locally_good(0, -1, 3, 15));
}

#[test]
fn chains_have_super_quality() {
    let dense = SuperChain((1..=10).map(|h| info(h, vec![h])).collect());
    assert!(dense.has_super_quality(0, 5, 15));
    assert!(!dense.has_super_quality(0, 11, 15));
    let sparse = SuperChain(vec![info(1, vec![1]), info(2, vec![2]), info(3, vec![3]), info(20, vec![4])]);
    assert!(!sparse.has_super_quality(0, 2, 15));
    assert!(sparse.has_super_quality(3, 2, 15));
    assert!(dense.is_good(0, 5, 15));
}

#[test]
fn chains_have_quality_on_all_levels() {
    // Between the first and the last block there are 8 blocks of depth 0 but
    // only 1 of depth 1, where 4 are expected.
    let thin = SuperChain(vec![info(1, vec![1, 1]), info(5, vec![5, 1]), info(9, vec![9, 2])]);
    assert!(thin.has_multi_level_quality(0, 2, 15));
    assert!(!thin.has_multi_level_quality(1, 2, 15));
    let even = SuperChain(vec![info(1, vec![1, 1]), info(5, vec![5, 3]), info(9, vec![9, 5])]);
    assert!(even.has_multi_level_quality(1, 2, 15));
    assert!(thin.has_multi_level_quality(1, 3, 15));
}
