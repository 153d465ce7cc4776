//! The transactions of the most recent blocks, kept to refuse a transaction
//! that a block of the window already holds.

use vstd::prelude::*;
use crate::block::{header_hash, transaction_hashes, Block, BlockView};
use crate::hash::Blake2bHash;
use crate::policy::TRANSACTION_VALIDITY_WINDOW;
use crate::transaction::{transaction_hash, Transaction};

verus! {

/// A block as the cache keeps it: its hash, that of its predecessor, and the
/// hashes of its transactions.
#[derive(Debug)]
pub struct BlockDescriptor {
    pub hash: Blake2bHash,
    pub prev_hash: Blake2bHash,
    pub transaction_hashes: Vec<Blake2bHash>,
}

/// The window of recent blocks, the oldest first.
#[derive(Debug)]
pub struct TransactionCache {
    pub block_order: Vec<BlockDescriptor>,
}

/// What a descriptor holds.
pub struct DescriptorView {
    pub hash: Seq<u8>,
    pub prev_hash: Seq<u8>,
    pub transaction_hashes: Seq<Seq<u8>>,
}

/// The descriptor of a block; one without a body has no transactions.
pub open spec fn descriptor_of(block: BlockView) -> DescriptorView {
    DescriptorView {
        hash: header_hash(block.header),
        prev_hash: block.header.prev_hash@,
        transaction_hashes: match block.body {
            Some(body) => transaction_hashes(body.transactions),
            None => Seq::empty(),
        },
    }
}

/// Whether a window holds a transaction hash.
#[verifier::opaque]
pub open spec fn window_contains(window: Seq<DescriptorView>, hash: Seq<u8>) -> bool {
    exists|i: int| 0 <= i < window.len() && (#[trigger] window[i]).transaction_hashes.contains(hash)
}

/// Whether a window holds one of the given transactions.
pub open spec fn window_contains_one(window: Seq<DescriptorView>, txs: Seq<Transaction>) -> bool {
    exists|k: int| 0 <= k < txs.len() && window_contains(window, transaction_hash(#[trigger] txs[k]))
}

/// Whether a window holds one of the transactions of a block.
pub open spec fn window_contains_any(window: Seq<DescriptorView>, block: BlockView) -> bool {
    block.body is Some && window_contains_one(window, block.body->0.transactions)
}

/// The window after one more block at its head: the oldest block leaves where
/// the window was full.
pub open spec fn window_pushed(window: Seq<DescriptorView>, block: BlockView) -> Seq<
    DescriptorView,
> {
    let longer = window.push(descriptor_of(block));
    if longer.len() > TRANSACTION_VALIDITY_WINDOW {
        longer.skip(1)
    } else {
        longer
    }
}

impl View for BlockDescriptor {
    type V = DescriptorView;

    open spec fn view(&self) -> DescriptorView {
        DescriptorView {
            hash: self.hash@,
            prev_hash: self.prev_hash@,
            transaction_hashes: Seq::new(
                self.transaction_hashes@.len(),
                |i: int| self.transaction_hashes@[i]@,
            ),
        }
    }
}

impl View for TransactionCache {
    type V = Seq<DescriptorView>;

    open spec fn view(&self) -> Seq<DescriptorView> {
        Seq::new(self.block_order@.len(), |i: int| self.block_order@[i]@)
    }
}

impl Clone for BlockDescriptor {
    fn clone(&self) -> (r: Self)
        ensures
            r@ == self@,
    {
        let r = BlockDescriptor {
            hash: self.hash,
            prev_hash: self.prev_hash,
            transaction_hashes: self.transaction_hashes.clone(),
        };
        assert(r@.transaction_hashes =~= self@.transaction_hashes);
        r
    }
}

impl BlockDescriptor {
    /// The descriptor of a block.
    pub fn of(block: &Block) -> (d: BlockDescriptor)
        ensures
            d@ == descriptor_of(block@),
    {
        let mut hashes: Vec<Blake2bHash> = Vec::new();
        match &block.body {
            Some(body) => {
                let mut i: usize = 0;
                while i < body.transactions.len()
                    invariant
                        i <= body.transactions@.len(),
                        hashes@.len() == i,
                        forall|j: int|
                            0 <= j < i ==> hashes@[j]@ == transaction_hash(body.transactions@[j]),
                    decreases body.transactions@.len() - i,
                {
                    hashes.push(body.transactions[i].hash());
                    i += 1;
                }
            },
            None => {},
        }
        let d = BlockDescriptor {
            hash: block.header.hash(),
            prev_hash: block.header.prev_hash,
            transaction_hashes: hashes,
        };
        assert(d@.transaction_hashes =~= descriptor_of(block@).transaction_hashes);
        d
    }

    /// Whether the block holds a transaction hash.
    pub fn contains(&self, hash: &Blake2bHash) -> (b: bool)
        ensures
            b == self@.transaction_hashes.contains(hash@),
    {
        let mut j: usize = 0;
        while j < self.transaction_hashes.len()
            invariant
                j <= self.transaction_hashes@.len(),
                forall|k: int| 0 <= k < j ==> #[trigger] self@.transaction_hashes[k] != hash@,
            decreases self.transaction_hashes@.len() - j,
        {
            if self.transaction_hashes[j].same(hash) {
                assert(self@.transaction_hashes[j as int] == hash@);
                return true;
            }
            j += 1;
        }
        false
    }
}

impl Clone for TransactionCache {
    fn clone(&self) -> (r: Self)
        ensures
            r@ == self@,
    {
        let mut block_order: Vec<BlockDescriptor> = Vec::new();
        let mut i: usize = 0;
        while i < self.block_order.len()
            invariant
                i <= self.block_order@.len(),
                block_order@.len() == i,
                forall|j: int| 0 <= j < i ==> block_order@[j]@ == self.block_order@[j]@,
            decreases self.block_order@.len() - i,
        {
            block_order.push(self.block_order[i].clone());
            i += 1;
        }
        let r = TransactionCache { block_order };
        assert(r@ =~= self@);
        r
    }
}

impl TransactionCache {
    /// Whether the window holds at most as many blocks as it may.
    pub open spec fn wf(&self) -> bool {
        self@.len() <= TRANSACTION_VALIDITY_WINDOW
    }

    /// An empty window.
    pub fn new() -> (r: TransactionCache)
        ensures
            r@ == Seq::<DescriptorView>::empty(),
            r.wf(),
    {
        let r = TransactionCache { block_order: Vec::new() };
        assert(r@ =~= Seq::<DescriptorView>::empty());
        r
    }

    /// Whether the window holds a transaction hash.
    pub fn contains(&self, hash: &Blake2bHash) -> (b: bool)
        ensures
            b == window_contains(self@, hash@),
    {
        reveal(window_contains);
        let mut i: usize = 0;
        while i < self.block_order.len()
            invariant
                i <= self.block_order@.len(),
                forall|k: int| 0 <= k < i ==> !(#[trigger] self@[k]).transaction_hashes.contains(hash@),
            decreases self.block_order@.len() - i,
        {
            if self.block_order[i].contains(hash) {
                reveal(window_contains);
                assert(self@[i as int] == self.block_order@[i as int]@);
                assert(self@[i as int].transaction_hashes.contains(hash@));
                return true;
            }
            assert(self@[i as int] == self.block_order@[i as int]@);
            i += 1;
        }
        false
    }

    /// Whether the window holds one of the given transactions.
    pub fn contains_one(&self, txs: &Vec<Transaction>) -> (b: bool)
        ensures
            b == window_contains_one(self@, txs@),
    {
        let mut k: usize = 0;
        while k < txs.len()
            invariant
                k <= txs@.len(),
                forall|n: int|
                    0 <= n < k ==> !window_contains(self@, transaction_hash(#[trigger] txs@[n])),
            decreases txs@.len() - k,
        {
            let hash = txs[k].hash();
            if self.contains(&hash) {
                assert(window_contains(self@, transaction_hash(txs@[k as int])));
                return true;
            }
            k += 1;
        }
        false
    }

    /// Whether the window holds one of the transactions of a block.
    pub fn contains_any(&self, block: &Block) -> (b: bool)
        ensures
            b == window_contains_any(self@, block@),
    {
        match &block.body {
            None => false,
            Some(body) => self.contains_one(&body.transactions),
        }
    }

    /// Adds a block at the head of the window; the oldest block leaves where
    /// the window was full.
    pub fn push_block(&mut self, block: &Block)
        requires
            old(self).wf(),
        ensures
            final(self)@ == window_pushed(old(self)@, block@),
            final(self).wf(),
    {
        let descriptor = BlockDescriptor::of(block);
        self.block_order.push(descriptor);
        assert(self@ =~= old(self)@.push(descriptor_of(block@)));
        if self.block_order.len() > TRANSACTION_VALIDITY_WINDOW as usize {
            let ghost before = self@;
            self.block_order.remove(0);
            assert(self@ =~= before.skip(1));
        }
    }

    /// Takes the block at the head of the window away again; an empty window
    /// stays empty.
    pub fn revert_block(&mut self, block: &Block)
        ensures
            final(self)@ == if old(self)@.len() == 0 {
                old(self)@
            } else {
                old(self)@.drop_last()
            },
            old(self).wf() ==> final(self).wf(),
    {
        let _ = block;
        if self.block_order.len() > 0 {
            self.block_order.pop();
            assert(self@ =~= old(self)@.drop_last());
        }
    }

    /// Adds a block at the tail of a window that is not full.
    pub fn prepend_block(&mut self, block: &Block)
        requires
            old(self)@.len() < TRANSACTION_VALIDITY_WINDOW,
        ensures
            final(self)@ == seq![descriptor_of(block@)] + old(self)@,
            final(self).wf(),
    {
        let descriptor = BlockDescriptor::of(block);
        self.block_order.insert(0, descriptor);
        assert(self@ =~= seq![descriptor_of(block@)] + old(self)@);
    }

    /// How many blocks the window lacks to be full.
    pub fn missing_blocks(&self) -> (n: u32)
        requires
            self.wf(),
        ensures
            n == TRANSACTION_VALIDITY_WINDOW - self@.len(),
    {
        TRANSACTION_VALIDITY_WINDOW - self.block_order.len() as u32
    }

    /// Whether the window holds no block.
    pub fn is_empty(&self) -> (b: bool)
        ensures
            b == (self@.len() == 0),
    {
        self.block_order.len() == 0
    }

    /// The number of blocks in the window.
    pub fn len(&self) -> (n: usize)
        ensures
            n == self@.len(),
    {
        self.block_order.len()
    }

    /// The hash of the newest block of a window that is not empty.
    pub fn head_hash(&self) -> (h: Blake2bHash)
        requires
            self@.len() > 0,
        ensures
            h@ == self@.last().hash,
    {
        self.block_order[self.block_order.len() - 1].hash
    }

    /// The hash of the oldest block of a window that is not empty.
    pub fn tail_hash(&self) -> (h: Blake2bHash)
        requires
            self@.len() > 0,
        ensures
            h@ == self@[0].hash,
    {
        self.block_order[0].hash
    }
}

} // verus!
