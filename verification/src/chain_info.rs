//! What the chain remembers of a block beside the block itself.

use vstd::prelude::*;
use crate::block::{header_pow, Block, BlockView};
use crate::hash::Blake2bHash;
use crate::target::{compact_expand, compact_fits, difficulty_of, target_depth, Difficulty, Target};

verus! {

/// For each depth, the number of blocks of at least that depth in the chain
/// up to a block.
#[derive(Debug)]
pub struct SuperBlockCounts {
    pub counts: Vec<u32>,
}

/// A block with its place in the chain.
#[derive(Debug)]
pub struct ChainInfo {
    pub head: Block,
    pub total_difficulty: Difficulty,
    pub total_work: Difficulty,
    pub on_main_chain: bool,
    pub main_chain_successor: Option<Blake2bHash>,
    pub super_block_counts: SuperBlockCounts,
}

/// What a chain info holds.
pub struct ChainInfoView {
    pub head: BlockView,
    pub total_difficulty: nat,
    pub total_work: nat,
    pub on_main_chain: bool,
    pub main_chain_successor: Option<Seq<u8>>,
    pub super_block_counts: Seq<u32>,
}

/// The count at a depth; zero beyond the depths that were counted.
pub open spec fn count_at(counts: Seq<u32>, depth: int) -> int {
    if 0 <= depth < counts.len() {
        counts[depth] as int
    } else {
        0
    }
}

/// The counts after one more block of the given depth: one more at every
/// depth up to that of the block.
pub open spec fn counts_with(counts: Seq<u32>, depth: u8) -> Seq<u32> {
    Seq::new(
        if counts.len() > depth {
            counts.len()
        } else {
            (depth + 1) as nat
        },
        |i: int|
            if i <= depth {
                (count_at(counts, i) + 1) as u32
            } else {
                counts[i]
            },
    )
}

/// The greatest depth at which there are at least `m` blocks; zero where
/// there is none.
pub open spec fn candidate_depth(counts: Seq<u32>, m: u32, from: int) -> int
    decreases from,
{
    if from <= 0 {
        0
    } else if counts[from - 1] >= m {
        from - 1
    } else {
        candidate_depth(counts, m, from - 1)
    }
}

/// The chain info of the block that follows on `prev`.
pub open spec fn next_info(prev: ChainInfoView, block: BlockView) -> ChainInfoView {
    ChainInfoView {
        head: block,
        total_difficulty: prev.total_difficulty + difficulty_of(
            compact_expand(block.header.n_bits.0),
        ),
        total_work: prev.total_work + difficulty_of(header_pow(block.header)),
        on_main_chain: false,
        main_chain_successor: None,
        super_block_counts: counts_with(
            prev.super_block_counts,
            target_depth(header_pow(block.header)),
        ),
    }
}

/// The chain info of a first block.
pub open spec fn initial_info(block: BlockView) -> ChainInfoView {
    ChainInfoView {
        head: block,
        total_difficulty: difficulty_of(compact_expand(block.header.n_bits.0)),
        total_work: difficulty_of(header_pow(block.header)),
        on_main_chain: true,
        main_chain_successor: None,
        super_block_counts: counts_with(Seq::empty(), target_depth(header_pow(block.header))),
    }
}

impl View for SuperBlockCounts {
    type V = Seq<u32>;

    open spec fn view(&self) -> Seq<u32> {
        self.counts@
    }
}

impl View for ChainInfo {
    type V = ChainInfoView;

    open spec fn view(&self) -> ChainInfoView {
        ChainInfoView {
            head: self.head@,
            total_difficulty: self.total_difficulty@,
            total_work: self.total_work@,
            on_main_chain: self.on_main_chain,
            main_chain_successor: match self.main_chain_successor {
                Some(h) => Some(h@),
                None => None,
            },
            super_block_counts: self.super_block_counts@,
        }
    }
}

impl Clone for SuperBlockCounts {
    fn clone(&self) -> (r: Self)
        ensures
            r@ == self@,
    {
        SuperBlockCounts { counts: self.counts.clone() }
    }
}

impl SuperBlockCounts {
    /// No block counted yet.
    pub fn new() -> (r: SuperBlockCounts)
        ensures
            r@ == Seq::<u32>::empty(),
    {
        SuperBlockCounts { counts: Vec::new() }
    }

    /// The count at a depth.
    pub fn get(&self, depth: u8) -> (n: u32)
        ensures
            n == count_at(self@, depth as int),
    {
        let d: usize = depth.into();
        if d < self.counts.len() {
            self.counts[d]
        } else {
            0
        }
    }

    /// The counts after one more block of the given depth, where no count is
    /// at its limit.
    pub fn copy_and_add(&self, depth: u8) -> (r: SuperBlockCounts)
        requires
            forall|i: int| 0 <= i < self@.len() ==> self@[i] < u32::MAX,
        ensures
            r@ == counts_with(self@, depth),
    {
        let d: usize = depth.into();
        let n: usize = if self.counts.len() > d {
            self.counts.len()
        } else {
            d + 1
        };
        let mut counts: Vec<u32> = Vec::new();
        let mut i: usize = 0;
        while i < n
            invariant
                i <= n,
                d == depth,
                n == counts_with(self@, depth).len(),
                counts@.len() == i,
                forall|j: int| 0 <= j < self@.len() ==> self@[j] < u32::MAX,
                forall|j: int| 0 <= j < i ==> counts@[j] == counts_with(self@, depth)[j],
            decreases n - i,
        {
            let old_count: u32 = if i < self.counts.len() {
                self.counts[i]
            } else {
                0
            };
            if i <= d {
                counts.push(old_count + 1);
            } else {
                counts.push(old_count);
            }
            i += 1;
        }
        assert(counts@ =~= counts_with(self@, depth));
        SuperBlockCounts { counts }
    }

    /// The greatest depth with at least `m` blocks.
    pub fn get_candidate_depth(&self, m: u32) -> (d: u8)
        requires
            self@.len() <= 256,
        ensures
            d == candidate_depth(self@, m, self@.len() as int),
    {
        let mut i: usize = self.counts.len();
        while i > 0
            invariant
                i <= self@.len(),
                self@.len() <= 256,
                candidate_depth(self@, m, self@.len() as int) == candidate_depth(self@, m, i as int),
            decreases i,
        {
            if self.counts[i - 1] >= m {
                return (i - 1) as u8;
            }
            i -= 1;
        }
        0
    }
}

impl Clone for ChainInfo {
    fn clone(&self) -> (r: Self)
        ensures
            r@ == self@,
    {
        ChainInfo {
            head: self.head.clone(),
            total_difficulty: self.total_difficulty.clone(),
            total_work: self.total_work.clone(),
            on_main_chain: self.on_main_chain,
            main_chain_successor: self.main_chain_successor,
            super_block_counts: self.super_block_counts.clone(),
        }
    }
}

impl ChainInfo {
    /// Whether the counts have room for a successor: there are at most 256 of
    /// them and each is at most the block's height.
    pub open spec fn counts_ok(&self) -> bool {
        &&& self.super_block_counts@.len() <= 256
        &&& forall|i: int|
            0 <= i < self.super_block_counts@.len() ==> self.super_block_counts@[i]
                <= self.head.header.height
    }

    /// The chain info of a first block whose target fits into 256 bits.
    pub fn initial(block: Block) -> (r: ChainInfo)
        requires
            compact_fits(block.header.n_bits.0),
            block.header.height >= 1,
        ensures
            r@ == initial_info(block@),
            r.counts_ok(),
    {
        let target = Target::from_compact(block.header.n_bits);
        let pow = Target::from_pow(&block.header.pow());
        let counts = SuperBlockCounts::new().copy_and_add(pow.get_depth());
        ChainInfo {
            total_difficulty: Difficulty::from_target(&target),
            total_work: Difficulty::from_target(&pow),
            on_main_chain: true,
            main_chain_successor: None,
            super_block_counts: counts,
            head: block,
        }
    }

    /// The chain info of a block that follows on this one and whose target
    /// fits into 256 bits.
    pub fn next(&self, block: Block) -> (r: ChainInfo)
        requires
            compact_fits(block.header.n_bits.0),
            block.header.height == self.head.header.height + 1,
            self.counts_ok(),
        ensures
            r@ == next_info(self@, block@),
            r.counts_ok(),
    {
        let target = Target::from_compact(block.header.n_bits);
        let pow = Target::from_pow(&block.header.pow());
        let counts = self.super_block_counts.copy_and_add(pow.get_depth());
        ChainInfo {
            total_difficulty: self.total_difficulty.plus(&Difficulty::from_target(&target)),
            total_work: self.total_work.plus(&Difficulty::from_target(&pow)),
            on_main_chain: false,
            main_chain_successor: None,
            super_block_counts: counts,
            head: block,
        }
    }
}

} // verus!
