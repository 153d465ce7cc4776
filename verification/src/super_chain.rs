//! Chains of blocks of a depth, and whether such a chain is good enough to
//! stand for the chain below it in a chain proof.

use vstd::prelude::*;
use vstd::arithmetic::power2::{lemma_pow2_pos, lemma_pow2_strictly_increases, lemma_pow2_unfold, pow2};
use crate::chain_info::{count_at, ChainInfo, ChainInfoView};

verus! {

/// A chain of blocks of at least some depth, the lowest first.
#[derive(Debug)]
pub struct SuperChain(pub Vec<ChainInfo>);

/// Whether a chain of a length stands well enough for a chain below it of
/// another length, at a distance of `depth` levels: it is longer than the
/// share of the lower chain that is to be expected at that distance, less
/// `delta` percent.
pub open spec fn locally_good(super_length: int, underlying_length: int, depth: u8, delta: u32) -> bool {
    super_length * 100 * pow2(depth as nat) > (100 - delta) * underlying_length
}

/// Whether the last `i` blocks of a chain are good against the heights that
/// they span.
pub open spec fn suffix_good(chain: Seq<ChainInfoView>, i: int, depth: u8, delta: u32) -> bool {
    locally_good(
        i,
        chain[chain.len() - 1].head.header.height - chain[chain.len() - i].head.header.height + 1,
        depth,
        delta,
    )
}

/// Whether a chain has the quality of a chain of its depth: it holds at
/// least `m` blocks, and each of its ends of at least `m` blocks is good
/// against the heights that it spans.
pub open spec fn super_quality(chain: Seq<ChainInfoView>, depth: u8, m: u32, delta: u32) -> bool {
    chain.len() >= m && forall|i: int|
        m <= i <= chain.len() ==> #[trigger] suffix_good(chain, i, depth, delta)
}

/// Whether, between two blocks of a chain, the blocks of depth `mu` stand
/// well enough for those of the lower depth `j`.
pub open spec fn levels_good(tail: ChainInfoView, head: ChainInfoView, mu: int, j: int, delta: u32) -> bool {
    locally_good(
        count_at(head.super_block_counts, mu) - count_at(tail.super_block_counts, mu),
        count_at(head.super_block_counts, j) - count_at(tail.super_block_counts, j),
        (mu - j) as u8,
        delta,
    )
}

/// Whether a chain has the quality on all levels: between each block and the
/// block `k1` places after it, each depth up to that of the chain stands well
/// enough for each lower depth.
pub open spec fn multi_level_quality(chain: Seq<ChainInfoView>, depth: u8, k1: u32, delta: u32) -> bool {
    forall|i: int, mu: int, j: int|
        0 <= i && i + k1 < chain.len() && 0 <= j < mu <= depth ==> #[trigger] levels_good(
            chain[i],
            chain[i + k1],
            mu,
            j,
            delta,
        )
}

/// What a chain holds.
pub open spec fn chain_view(chain: Seq<ChainInfo>) -> Seq<ChainInfoView> {
    Seq::new(chain.len(), |i: int| chain[i]@)
}

/// Two to the `depth`, for a depth below forty.
fn power_of_two(depth: u8) -> (p: u128)
    requires
        depth < 40,
    ensures
        p == pow2(depth as nat),
        p <= 0x80_0000_0000,
{
    let mut p: u128 = 1;
    let mut i: u8 = 0;
    proof {
        vstd::arithmetic::power2::lemma2_to64();
        vstd::arithmetic::power2::lemma2_to64_rest();
    }
    while i < depth
        invariant
            i <= depth,
            depth < 40,
            p == pow2(i as nat),
            p <= pow2(39),
            pow2(39) == 0x80_0000_0000,
        decreases depth - i,
    {
        proof {
            lemma_pow2_unfold((i + 1) as nat);
            if i + 1 < 39 {
                lemma_pow2_strictly_increases((i + 1) as nat, 39);
            }
        }
        p = p * 2;
        i += 1;
    }
    p
}

impl SuperChain {
    /// Whether a chain of a length stands well enough for a chain below it
    /// of another length, at a distance of `depth` levels.
    pub fn is_locally_good(super_length: i64, underlying_length: i64, depth: u8, delta: u32) -> (b:
        bool)
        requires
            delta <= 100,
            -0x1_0000_0000 <= super_length <= 0x1_0000_0000,
            -0x1_0000_0000 <= underlying_length <= 0x1_0000_0000,
        ensures
            b == locally_good(super_length as int, underlying_length as int, depth, delta),
    {
        let share: i128 = (100 - delta) as i128;
        assert(-0x64_0000_0000 <= share * underlying_length <= 0x64_0000_0000) by (nonlinear_arith)
            requires
                0 <= share <= 100,
                -0x1_0000_0000 <= underlying_length <= 0x1_0000_0000,
        ;
        let right: i128 = share * underlying_length as i128;
        if depth >= 40 {
            proof {
                vstd::arithmetic::power2::lemma2_to64_rest();
                if depth > 40 {
                    lemma_pow2_strictly_increases(40, depth as nat);
                }
                let p = pow2(depth as nat) as int;
                assert(p >= 0x100_0000_0000);
                if super_length >= 1 {
                    assert(super_length * 100 * p >= 100 * p) by (nonlinear_arith)
                        requires
                            super_length >= 1,
                            p >= 0,
                    ;
                } else {
                    assert(super_length * 100 * p <= 0) by (nonlinear_arith)
                        requires
                            super_length <= 0,
                            p >= 0,
                    ;
                    if super_length <= -1 {
                        assert(super_length * 100 * p <= -100 * p) by (nonlinear_arith)
                            requires
                                super_length <= -1,
                                p >= 0,
                        ;
                    }
                }
            }
            if super_length >= 1 {
                true
            } else if super_length == 0 {
                0 > right
            } else {
                false
            }
        } else {
            let p = power_of_two(depth);
            let hundredfold: i128 = super_length as i128 * 100;
            assert(-0x3200_0000_0000_0000_0000 <= hundredfold * p <= 0x3200_0000_0000_0000_0000)
                by (nonlinear_arith)
                requires
                    -0x64_0000_0000 <= hundredfold <= 0x64_0000_0000,
                    0 <= p <= 0x80_0000_0000,
            ;
            let left: i128 = hundredfold * p as i128;
            left > right
        }
    }

    /// Whether the chain has the quality of a chain of its depth, for a
    /// least length of at least one.
    pub fn has_super_quality(&self, depth: u8, m: u32, delta: u32) -> (b: bool)
        requires
            delta <= 100,
            m >= 1,
            self.0@.len() <= u32::MAX,
        ensures
            b == super_quality(chain_view(self.0@), depth, m, delta),
    {
        let ghost chain = chain_view(self.0@);
        let length = self.0.len();
        if length < m as usize {
            return false;
        }
        let mut i: u64 = m as u64;
        while i <= length as u64
            invariant
                1 <= m <= i <= length + 1,
                length == self.0@.len(),
                length <= u32::MAX,
                delta <= 100,
                chain == chain_view(self.0@),
                forall|k: int| m <= k < i ==> #[trigger] suffix_good(chain, k, depth, delta),
            decreases length + 1 - i,
        {
            let last: i64 = self.0[length - 1].head.header.height as i64;
            let first: i64 = self.0[length - i as usize].head.header.height as i64;
            let underlying_length = last - first + 1;
            if !SuperChain::is_locally_good(i as i64, underlying_length, depth, delta) {
                assert(!suffix_good(chain, i as int, depth, delta));
                return false;
            }
            i += 1;
        }
        true
    }

    /// Whether each depth from `mu` down stands well enough for each lower
    /// depth between two blocks.
    fn has_level_quality(tail: &ChainInfo, head: &ChainInfo, depth: u8, delta: u32) -> (b: bool)
        requires
            delta <= 100,
        ensures
            b == forall|mu: int, j: int|
                0 <= j < mu <= depth ==> #[trigger] levels_good(tail@, head@, mu, j, delta),
    {
        let mut mu: u8 = depth;
        while mu >= 1
            invariant
                mu <= depth,
                delta <= 100,
                forall|a: int, j: int|
                    0 <= j < a <= depth && a > mu ==> #[trigger] levels_good(
                        tail@,
                        head@,
                        a,
                        j,
                        delta,
                    ),
            decreases mu,
        {
            let upper: i64 = head.super_block_counts.get(mu) as i64 - tail.super_block_counts.get(
                mu,
            ) as i64;
            // Moderate badness check:
            let mut j: u8 = mu;
            while j >= 1
                invariant
                    j <= mu,
                    1 <= mu <= depth,
                    delta <= 100,
                    upper == count_at(head@.super_block_counts, mu as int) - count_at(
                        tail@.super_block_counts,
                        mu as int,
                    ),
                    forall|l: int|
                        j <= l < mu ==> #[trigger] levels_good(tail@, head@, mu as int, l, delta),
                decreases j,
            {
                let lower: i64 = head.super_block_counts.get(j - 1) as i64
                    - tail.super_block_counts.get(j - 1) as i64;
                if !SuperChain::is_locally_good(upper, lower, mu - (j - 1), delta) {
                    assert(!levels_good(tail@, head@, mu as int, j - 1, delta));
                    return false;
                }
                j -= 1;
            }
            mu -= 1;
        }
        true
    }

    /// Whether the chain has the quality on all levels.
    pub fn has_multi_level_quality(&self, depth: u8, k1: u32, delta: u32) -> (b: bool)
        requires
            delta <= 100,
        ensures
            b == multi_level_quality(chain_view(self.0@), depth, k1, delta),
    {
        let ghost chain = chain_view(self.0@);
        if depth == 0 {
            return true;
        }
        let length = self.0.len();
        let window = k1 as usize;
        let mut i: usize = 0;
        while i < length && window < length - i
            invariant
                i <= length,
                length == self.0@.len(),
                window == k1,
                delta <= 100,
                chain == chain_view(self.0@),
                forall|a: int, mu: int, j: int|
                    0 <= a < i && a + k1 < chain.len() && 0 <= j < mu <= depth
                        ==> #[trigger] levels_good(chain[a], chain[a + k1], mu, j, delta),
            decreases length - i,
        {
            let tail_info = &self.0[i];
            let head_info = &self.0[i + window];
            if !SuperChain::has_level_quality(tail_info, head_info, depth, delta) {
                proof {
                    let (mu, j) = choose|mu: int, j: int|
                        0 <= j < mu <= depth && !#[trigger] levels_good(
                            tail_info@,
                            head_info@,
                            mu,
                            j,
                            delta,
                        );
                    assert(!levels_good(chain[i as int], chain[i + k1], mu, j, delta));
                }
                return false;
            }
            i += 1;
        }
        true
    }

    /// Whether the chain is good: it has the quality of a chain of its depth
    /// and the quality on all levels.
    pub fn is_good(&self, depth: u8, m: u32, delta: u32) -> (b: bool)
        requires
            delta <= 100,
            m >= 1,
            self.0@.len() <= u32::MAX,
        ensures
            b == (super_quality(chain_view(self.0@), depth, m, delta) && multi_level_quality(
                chain_view(self.0@),
                depth,
                m,
                delta,
            )),
    {
        self.has_super_quality(depth, m, delta) && self.has_multi_level_quality(depth, m, delta)
    }
}

} // verus!
