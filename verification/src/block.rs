//! Blocks: header, interlink and body, and the rules a block meets in itself.

use vstd::prelude::*;
use crate::account::{pruned_account_bytes, NetworkId, PrunedAccount};
use crate::address::Address;
use crate::bytes::{bytes_less, lex_less, put_bytes, put_u16, put_u32, u16_be, u32_be};
use crate::hash::{argon2d_digest, blake2b_digest, pow_salt, Argon2dHash, Blake2bHash, POW_LANES, POW_MEMORY, POW_PASSES};
use crate::merkle::{compute_root_from_hashes, merkle_root};
use crate::policy::TIMESTAMP_DRIFT_MAX;
use crate::target::{compact_expand, compact_fits, Target, TargetCompact};
use crate::transaction::{block_order_equal, block_order_less, transaction_check, transaction_hash, valid_at, Transaction, TransactionError};

verus! {

/// The version of blocks that this library reads.
pub const BLOCK_VERSION: u16 = 1;

/// Why a block is not valid in itself.
#[derive(Clone, Copy, Debug, PartialEq, Eq, Structural)]
pub enum BlockError {
    UnsupportedVersion,
    FromTheFuture,
    InvalidPoW,
    SizeExceeded,
    InterlinkHashMismatch,
    BodyHashMismatch,
    DuplicateTransaction,
    InvalidTransaction(TransactionError),
    ExpiredTransaction,
    TransactionsNotOrdered,
    DuplicatePrunedAccount,
    PrunedAccountsNotOrdered,
    InvalidPrunedAccount,
}

/// The header of a block.
#[derive(Clone, Copy, Debug, PartialEq, Eq)]
pub struct BlockHeader {
    pub version: u16,
    pub prev_hash: Blake2bHash,
    pub interlink_hash: Blake2bHash,
    pub body_hash: Blake2bHash,
    pub accounts_hash: Blake2bHash,
    pub n_bits: TargetCompact,
    pub height: u32,
    pub timestamp: u32,
    pub nonce: u32,
}

/// The interlink of a block: hashes of earlier blocks, one for each depth.
#[derive(Debug, PartialEq, Eq)]
pub struct BlockInterlink {
    pub hashes: Vec<Blake2bHash>,
}

/// The body of a block.
#[derive(Debug, PartialEq, Eq)]
pub struct BlockBody {
    pub miner: Address,
    pub extra_data: Vec<u8>,
    pub transactions: Vec<Transaction>,
    pub pruned_accounts: Vec<PrunedAccount>,
}

/// A block.
#[derive(Debug, PartialEq, Eq)]
pub struct Block {
    pub header: BlockHeader,
    pub interlink: BlockInterlink,
    pub body: Option<BlockBody>,
}

impl Default for BlockHeader {
    /// A header of zeros.
    fn default() -> (r: Self)
        ensures
            r.version == 0,
            r.prev_hash@ == Seq::new(32, |i: int| 0u8),
            r.interlink_hash@ == Seq::new(32, |i: int| 0u8),
            r.body_hash@ == Seq::new(32, |i: int| 0u8),
            r.accounts_hash@ == Seq::new(32, |i: int| 0u8),
            r.n_bits.0 == 0,
            r.height == 0,
            r.timestamp == 0,
            r.nonce == 0,
    {
        BlockHeader {
            version: 0,
            prev_hash: Blake2bHash::zero(),
            interlink_hash: Blake2bHash::zero(),
            body_hash: Blake2bHash::zero(),
            accounts_hash: Blake2bHash::zero(),
            n_bits: TargetCompact(0),
            height: 0,
            timestamp: 0,
            nonce: 0,
        }
    }
}

impl Default for BlockBody {
    /// A body without content, of the miner whose address is all zeros.
    fn default() -> (r: Self)
        ensures
            r.miner.0@ == Seq::new(20, |i: int| 0u8),
            r.extra_data@.len() == 0,
            r.transactions@.len() == 0,
            r.pruned_accounts@.len() == 0,
    {
        let miner = Address([0u8; 20]);
        assert(miner.0@ =~= Seq::new(20, |i: int| 0u8));
        BlockBody {
            miner,
            extra_data: Vec::new(),
            transactions: Vec::new(),
            pruned_accounts: Vec::new(),
        }
    }
}

/// What a body holds.
pub struct BlockBodyView {
    pub miner: Address,
    pub extra_data: Seq<u8>,
    pub transactions: Seq<Transaction>,
    pub pruned_accounts: Seq<PrunedAccount>,
}

/// What a block holds.
pub struct BlockView {
    pub header: BlockHeader,
    pub interlink: Seq<Blake2bHash>,
    pub body: Option<BlockBodyView>,
}

impl View for BlockInterlink {
    type V = Seq<Blake2bHash>;

    open spec fn view(&self) -> Seq<Blake2bHash> {
        self.hashes@
    }
}

impl View for BlockBody {
    type V = BlockBodyView;

    open spec fn view(&self) -> BlockBodyView {
        BlockBodyView {
            miner: self.miner,
            extra_data: self.extra_data@,
            transactions: self.transactions@,
            pruned_accounts: self.pruned_accounts@,
        }
    }
}

impl View for Block {
    type V = BlockView;

    open spec fn view(&self) -> BlockView {
        BlockView {
            header: self.header,
            interlink: self.interlink@,
            body: match self.body {
                Some(body) => Some(body@),
                None => None,
            },
        }
    }
}

/// The 146 bytes of a header.
#[verifier::opaque]
pub open spec fn header_bytes(h: BlockHeader) -> Seq<u8> {
    u16_be(h.version) + h.prev_hash@ + h.interlink_hash@ + h.body_hash@ + h.accounts_hash@
        + u32_be(h.n_bits.0) + u32_be(h.height) + u32_be(h.timestamp) + u32_be(h.nonce)
}

/// The hash of a header, by which a block is known.
pub open spec fn header_hash(h: BlockHeader) -> Seq<u8> {
    blake2b_digest(header_bytes(h))
}

/// The proof of work of a header.
pub open spec fn header_pow(h: BlockHeader) -> Seq<u8> {
    argon2d_digest(header_bytes(h), pow_salt(), POW_MEMORY, POW_PASSES, POW_LANES)
}

/// Whether the proof of work of a header meets the target in the header.
pub open spec fn pow_ok(h: BlockHeader) -> bool {
    compact_fits(h.n_bits.0) && !lex_less(compact_expand(h.n_bits.0), header_pow(h))
}

/// Whether a header follows directly on another: one higher, not earlier, and
/// naming the other's hash as its predecessor.
pub open spec fn follows(h: BlockHeader, prev: BlockHeader) -> bool {
    &&& h.height == prev.height + 1
    &&& h.timestamp >= prev.timestamp
    &&& h.prev_hash@ == header_hash(prev)
}

/// The hashes of a list of transactions.
pub open spec fn transaction_hashes(txs: Seq<Transaction>) -> Seq<Seq<u8>> {
    Seq::new(txs.len(), |i: int| transaction_hash(txs[i]))
}

/// The leaves of the body's Merkle tree: the hashes of the miner, of the
/// extra data, of each transaction and of each pruned account.
pub open spec fn body_leaves(body: BlockBodyView, leaves: Seq<Blake2bHash>) -> bool {
    &&& leaves.len() == 2 + body.transactions.len() + body.pruned_accounts.len()
    &&& leaves[0]@ == blake2b_digest(body.miner@)
    &&& leaves[1]@ == blake2b_digest(body.extra_data)
    &&& forall|i: int|
        0 <= i < body.transactions.len() ==> (#[trigger] leaves[2 + i])@ == transaction_hash(
            body.transactions[i],
        )
    &&& forall|i: int|
        0 <= i < body.pruned_accounts.len() ==> (#[trigger] leaves[2 + body.transactions.len()
            + i])@ == blake2b_digest(pruned_account_bytes(body.pruned_accounts[i]))
}

/// The list of leaves of a body.
pub open spec fn body_leaf_list(body: BlockBodyView) -> Seq<Blake2bHash> {
    choose|leaves: Seq<Blake2bHash>| body_leaves(body, leaves)
}

/// The hash of a body: the Merkle root of its leaves.
pub open spec fn body_hash(body: BlockBodyView) -> Seq<u8> {
    merkle_root(body_leaf_list(body))
}

/// The first fault in a list of transactions up to position `n`, if any:
/// for each in turn, a duplicate of or a wrong order against the one before
/// it, then an expired one, then one that is invalid in itself.
pub open spec fn transactions_fault(
    txs: Seq<Transaction>,
    n: int,
    height: u32,
    network_id: NetworkId,
) -> Option<BlockError>
    decreases n,
{
    if n <= 0 {
        None
    } else if transactions_fault(txs, n - 1, height, network_id) is Some {
        transactions_fault(txs, n - 1, height, network_id)
    } else if n >= 2 && block_order_equal(txs[n - 2], txs[n - 1]) {
        Some(BlockError::DuplicateTransaction)
    } else if n >= 2 && !block_order_less(txs[n - 2], txs[n - 1]) {
        Some(BlockError::TransactionsNotOrdered)
    } else if !valid_at(txs[n - 1], height) {
        Some(BlockError::ExpiredTransaction)
    } else {
        match transaction_check(txs[n - 1], network_id) {
            Err(e) => Some(BlockError::InvalidTransaction(e)),
            Ok(_) => None,
        }
    }
}

/// The first fault in a list of pruned accounts up to position `n`, if any:
/// for each in turn, the same address as or a lower address than the one
/// before it, then an account that is not to be pruned.
pub open spec fn pruned_fault(accounts: Seq<PrunedAccount>, n: int) -> Option<BlockError>
    decreases n,
{
    if n <= 0 {
        None
    } else if pruned_fault(accounts, n - 1) is Some {
        pruned_fault(accounts, n - 1)
    } else if n >= 2 && accounts[n - 2].address@ == accounts[n - 1].address@ {
        Some(BlockError::DuplicatePrunedAccount)
    } else if n >= 2 && lex_less(accounts[n - 1].address@, accounts[n - 2].address@) {
        Some(BlockError::PrunedAccountsNotOrdered)
    } else if !accounts[n - 1].account.spec_is_to_be_pruned() {
        Some(BlockError::InvalidPrunedAccount)
    } else {
        None
    }
}

/// What the check of a body gives: the first fault among its transactions,
/// else the first among its pruned accounts.
pub open spec fn body_check(body: BlockBodyView, height: u32, network_id: NetworkId) -> Result<
    (),
    BlockError,
> {
    match transactions_fault(body.transactions, body.transactions.len() as int, height, network_id) {
        Some(e) => Err(e),
        None => match pruned_fault(body.pruned_accounts, body.pruned_accounts.len() as int) {
            Some(e) => Err(e),
            None => Ok(()),
        },
    }
}

/// What the check of a block in itself gives, at a time in milliseconds.
pub open spec fn block_check(
    block: BlockView,
    now: u64,
    network_id: NetworkId,
    genesis_hash: Seq<u8>,
) -> Result<(), BlockError> {
    if block.header.version != BLOCK_VERSION {
        Err(BlockError::UnsupportedVersion)
    } else if block.header.timestamp * 1000 > now + TIMESTAMP_DRIFT_MAX * 1000 {
        Err(BlockError::FromTheFuture)
    } else if !pow_ok(block.header) {
        Err(BlockError::InvalidPoW)
    } else if block.header.interlink_hash@ != interlink_hash(block.interlink, genesis_hash) {
        Err(BlockError::InterlinkHashMismatch)
    } else {
        match block.body {
            None => Ok(()),
            Some(body) => if block.header.body_hash@ != body_hash(body) {
                Err(BlockError::BodyHashMismatch)
            } else {
                body_check(body, block.header.height, network_id)
            },
        }
    }
}

/// The hash of an interlink: the hash of the genesis hash followed by the
/// Merkle root of the interlink's hashes.
pub open spec fn interlink_hash(hashes: Seq<Blake2bHash>, genesis_hash: Seq<u8>) -> Seq<u8> {
    blake2b_digest(genesis_hash + merkle_root(hashes))
}

impl BlockHeader {
    /// The bytes of the header.
    pub fn serialize_content(&self) -> (out: Vec<u8>)
        ensures
            out@ == header_bytes(*self),
            out@.len() == 146,
    {
        let mut out: Vec<u8> = Vec::new();
        put_u16(&mut out, self.version);
        put_bytes(&mut out, self.prev_hash.bytes.as_slice());
        put_bytes(&mut out, self.interlink_hash.bytes.as_slice());
        put_bytes(&mut out, self.body_hash.bytes.as_slice());
        put_bytes(&mut out, self.accounts_hash.bytes.as_slice());
        put_u32(&mut out, self.n_bits.0);
        put_u32(&mut out, self.height);
        put_u32(&mut out, self.timestamp);
        put_u32(&mut out, self.nonce);
        reveal(header_bytes);
        assert(out@ =~= header_bytes(*self));
        out
    }

    /// The hash of the header.
    pub fn hash(&self) -> (h: Blake2bHash)
        ensures
            h@ == header_hash(*self),
    {
        let bytes = self.serialize_content();
        Blake2bHash::digest(bytes.as_slice())
    }

    /// Whether the proof of work of the header meets the target that the
    /// header itself names. A target that does not fit into 256 bits is met by
    /// nothing.
    pub fn verify_proof_of_work(&self) -> (b: bool)
        ensures
            b == pow_ok(*self),
    {
        if !self.n_bits.fits() {
            return false;
        }
        let target = Target::from_compact(self.n_bits);
        target.is_met_by(&self.pow())
    }

    /// The proof of work of the header.
    pub fn pow(&self) -> (h: Argon2dHash)
        ensures
            h@ == header_pow(*self),
    {
        let bytes = self.serialize_content();
        Argon2dHash::digest(bytes.as_slice())
    }

    /// Whether this header follows directly on the given one.
    pub fn is_immediate_successor_of(&self, prev_header: &BlockHeader) -> (b: bool)
        ensures
            b == follows(*self, *prev_header),
    {
        // Check that the height is one higher than the previous height.
        if prev_header.height == u32::MAX || self.height != prev_header.height + 1 {
            return false;
        }
        // Check that the timestamp is greater or equal to the predecessor's timestamp.
        if self.timestamp < prev_header.timestamp {
            return false;
        }
        // Check that the hash of the predecessor block equals prevHash.
        let prev_hash = prev_header.hash();
        if !self.prev_hash.same(&prev_hash) {
            return false;
        }
        // Everything checks out.
        true
    }

    /// The timestamp in milliseconds.
    pub fn timestamp_in_millis(&self) -> (t: u64)
        ensures
            t == self.timestamp * 1000,
    {
        let seconds: u64 = self.timestamp.into();
        seconds * 1000
    }
}

impl Clone for BlockInterlink {
    fn clone(&self) -> (r: Self)
        ensures
            r@ == self@,
    {
        BlockInterlink { hashes: self.hashes.clone() }
    }
}

impl BlockInterlink {
    /// The hash of the interlink under a genesis hash.
    pub fn hash(&self, genesis_hash: &Blake2bHash) -> (h: Blake2bHash)
        ensures
            h@ == interlink_hash(self@, genesis_hash@),
    {
        let root = compute_root_from_hashes(&self.hashes);
        let mut both: Vec<u8> = Vec::new();
        put_bytes(&mut both, genesis_hash.bytes.as_slice());
        put_bytes(&mut both, root.bytes.as_slice());
        assert(both@ =~= genesis_hash@ + root@);
        Blake2bHash::digest(both.as_slice())
    }
}

impl Clone for BlockBody {
    fn clone(&self) -> (r: Self)
        ensures
            r@ == self@,
    {
        BlockBody {
            miner: self.miner,
            extra_data: self.extra_data.clone(),
            transactions: self.transactions.clone(),
            pruned_accounts: self.pruned_accounts.clone(),
        }
    }
}

impl BlockBody {
    /// The hash of the body.
    pub fn hash(&self) -> (h: Blake2bHash)
        ensures
            h@ == body_hash(self@),
    {
        let mut leaves: Vec<Blake2bHash> = Vec::new();
        leaves.push(Blake2bHash::digest(self.miner.0.as_slice()));
        leaves.push(Blake2bHash::digest(self.extra_data.as_slice()));
        let mut i: usize = 0;
        while i < self.transactions.len()
            invariant
                i <= self.transactions@.len(),
                leaves@.len() == 2 + i,
                leaves@[0]@ == blake2b_digest(self.miner@),
                leaves@[1]@ == blake2b_digest(self.extra_data@),
                forall|j: int|
                    0 <= j < i ==> (#[trigger] leaves@[2 + j])@ == transaction_hash(
                        self.transactions@[j],
                    ),
            decreases self.transactions@.len() - i,
        {
            leaves.push(self.transactions[i].hash());
            i += 1;
        }
        let n = self.transactions.len();
        let mut k: usize = 0;
        while k < self.pruned_accounts.len()
            invariant
                n == self.transactions@.len(),
                k <= self.pruned_accounts@.len(),
                leaves@.len() == 2 + n + k,
                leaves@[0]@ == blake2b_digest(self.miner@),
                leaves@[1]@ == blake2b_digest(self.extra_data@),
                forall|j: int|
                    0 <= j < n ==> (#[trigger] leaves@[2 + j])@ == transaction_hash(
                        self.transactions@[j],
                    ),
                forall|j: int|
                    0 <= j < k ==> (#[trigger] leaves@[2 + n + j])@ == blake2b_digest(
                        pruned_account_bytes(self.pruned_accounts@[j]),
                    ),
            decreases self.pruned_accounts@.len() - k,
        {
            let mut bytes: Vec<u8> = Vec::new();
            self.pruned_accounts[k].serialize(&mut bytes);
            assert(bytes@ =~= pruned_account_bytes(self.pruned_accounts@[k as int]));
            leaves.push(Blake2bHash::digest(bytes.as_slice()));
            k += 1;
        }
        proof {
            assert(body_leaves(self@, leaves@));
            lemma_leaves_unique(self@, leaves@, body_leaf_list(self@));
        }
        compute_root_from_hashes(&leaves)
    }

    /// Checks the body in itself, for a block of the given height.
    pub fn verify(&self, block_height: u32, network_id: NetworkId) -> (r: Result<(), BlockError>)
        ensures
            r == body_check(self@, block_height, network_id),
    {
        let mut i: usize = 0;
        while i < self.transactions.len()
            invariant
                i <= self.transactions@.len(),
                transactions_fault(self.transactions@, i as int, block_height, network_id) is None,
            decreases self.transactions@.len() - i,
        {
            let tx = &self.transactions[i];
            proof {
                lemma_transactions_fault_stays(
                    self.transactions@,
                    i + 1,
                    self.transactions@.len() as int,
                    block_height,
                    network_id,
                );
            }
            // Ensure transactions are ordered and unique.
            if i > 0 {
                let previous = &self.transactions[i - 1];
                if previous.same_place(tx) {
                    return Err(BlockError::DuplicateTransaction);
                }
                if !previous.stands_before(tx) {
                    return Err(BlockError::TransactionsNotOrdered);
                }
            }
            // Check that the transaction is within its validity window.
            if !tx.is_valid_at(block_height) {
                return Err(BlockError::ExpiredTransaction);
            }
            // Check intrinsic transaction invariants.
            if let Err(e) = tx.verify(network_id) {
                return Err(BlockError::InvalidTransaction(e));
            }
            i += 1;
        }
        let mut k: usize = 0;
        while k < self.pruned_accounts.len()
            invariant
                k <= self.pruned_accounts@.len(),
                transactions_fault(
                    self.transactions@,
                    self.transactions@.len() as int,
                    block_height,
                    network_id,
                ) is None,
                pruned_fault(self.pruned_accounts@, k as int) is None,
            decreases self.pruned_accounts@.len() - k,
        {
            let acc = &self.pruned_accounts[k];
            proof {
                lemma_pruned_fault_stays(
                    self.pruned_accounts@,
                    k + 1,
                    self.pruned_accounts@.len() as int,
                );
            }
            // Ensure pruned accounts are ordered and unique.
            if k > 0 {
                let previous = &self.pruned_accounts[k - 1];
                if previous.address.same(&acc.address) {
                    return Err(BlockError::DuplicatePrunedAccount);
                }
                if bytes_less(acc.address.0.as_slice(), previous.address.0.as_slice()) {
                    return Err(BlockError::PrunedAccountsNotOrdered);
                }
            }
            // Check that the account is actually supposed to be pruned.
            if !acc.account.is_to_be_pruned() {
                return Err(BlockError::InvalidPrunedAccount);
            }
            k += 1;
        }
        // Everything checks out.
        Ok(())
    }
}

impl Clone for Block {
    fn clone(&self) -> (r: Self)
        ensures
            r@ == self@,
    {
        Block {
            header: self.header,
            interlink: self.interlink.clone(),
            body: match &self.body {
                Some(body) => Some(body.clone()),
                None => None,
            },
        }
    }
}

impl Block {
    /// Checks the block in itself: version, timestamp against the clock,
    /// proof of work, interlink hash, and the body where there is one.
    pub fn verify(&self, now: u64, network_id: NetworkId, genesis_hash: &Blake2bHash) -> (r: Result<
        (),
        BlockError,
    >)
        ensures
            r == block_check(self@, now, network_id, genesis_hash@),
    {
        if self.header.version != BLOCK_VERSION {
            return Err(BlockError::UnsupportedVersion);
        }
        let drift: u64 = TIMESTAMP_DRIFT_MAX * 1000;
        let stamp: u64 = self.header.timestamp_in_millis();
        if stamp > drift && stamp - drift > now {
            return Err(BlockError::FromTheFuture);
        }
        if !self.header.verify_proof_of_work() {
            return Err(BlockError::InvalidPoW);
        }
        if !self.header.interlink_hash.same(&self.interlink.hash(genesis_hash)) {
            return Err(BlockError::InterlinkHashMismatch);
        }
        match &self.body {
            None => Ok(()),
            Some(body) => {
                if !self.header.body_hash.same(&body.hash()) {
                    return Err(BlockError::BodyHashMismatch);
                }
                body.verify(self.header.height, network_id)
            },
        }
    }

    /// Whether this block follows directly on the given one.
    pub fn is_immediate_successor_of(&self, prev: &Block) -> (b: bool)
        ensures
            b == follows(self.header, prev.header),
    {
        self.header.is_immediate_successor_of(&prev.header)
    }

    /// The block without its body.
    pub fn without_body(&self) -> (r: Block)
        ensures
            r@.header == self@.header,
            r@.interlink == self@.interlink,
            r@.body is None,
    {
        Block { header: self.header, interlink: self.interlink.clone(), body: None }
    }
}

/// A fault among the first `n` transactions is the fault among the first `m`,
/// for every `m` from `n` on.
pub proof fn lemma_transactions_fault_stays(
    txs: Seq<Transaction>,
    n: int,
    m: int,
    height: u32,
    network_id: NetworkId,
)
    requires
        n <= m,
    ensures
        transactions_fault(txs, n, height, network_id) is Some ==> transactions_fault(
            txs,
            m,
            height,
            network_id,
        ) == transactions_fault(txs, n, height, network_id),
    decreases m - n,
{
    if n < m {
        lemma_transactions_fault_stays(txs, n, m - 1, height, network_id);
    }
}

/// A fault among the first `n` pruned accounts is the fault among the first
/// `m`, for every `m` from `n` on.
pub proof fn lemma_pruned_fault_stays(accounts: Seq<PrunedAccount>, n: int, m: int)
    requires
        n <= m,
    ensures
        pruned_fault(accounts, n) is Some ==> pruned_fault(accounts, m) == pruned_fault(
            accounts,
            n,
        ),
    decreases m - n,
{
    if n < m {
        lemma_pruned_fault_stays(accounts, n, m - 1);
    }
}

/// Two lists of leaves of one body hold the same hashes.
pub proof fn lemma_leaves_unique(body: BlockBodyView, a: Seq<Blake2bHash>, b: Seq<Blake2bHash>)
    requires
        body_leaves(body, a),
    ensures
        body_leaves(body, b) ==> a == b,
        body_leaves(body, body_leaf_list(body)),
{
    if body_leaves(body, b) {
        assert forall|i: int| 0 <= i < a.len() implies a[i] == b[i] by {
            let n = body.transactions.len();
            if i >= 2 + n {
                assert(a[2 + n + (i - 2 - n)]@ == b[2 + n + (i - 2 - n)]@);
            } else if i >= 2 {
                assert(a[2 + (i - 2)]@ == b[2 + (i - 2)]@);
            }
            assert(a[i]@ == b[i]@);
            assert(a[i].bytes =~= b[i].bytes);
        }
        assert(a =~= b);
    }
}

} // verus!
