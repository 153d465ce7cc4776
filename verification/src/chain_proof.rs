//! Chain proofs: a short list of blocks of great depth that stands for the
//! chain up to some block, and the headers from there to the head.

use vstd::prelude::*;
use crate::block::{header_pow, Block, BlockHeader, BlockView};
use crate::blockchain::Blockchain;
use crate::chain_info::{candidate_depth, ChainInfo, ChainInfoView};
use crate::chain_store::{entries_ok, entry_ok, key_at, main_entry_ok, without_body, StoreEntry};
use crate::hash::Blake2bHash;
use crate::push::{known, place_of};
use crate::retarget::ancestor_at;
use crate::super_chain::{chain_view, multi_level_quality, super_quality, SuperChain};
use crate::target::{compact_expand, compact_fits, target_depth, Target};

verus! {

/// The least length of a good chain in a proof.
pub const NIPOPOW_M: u32 = 240;

/// The number of headers at the end of a proof.
pub const NIPOPOW_K: u32 = 120;

/// The share, in percent, by which a good chain may fall short of its
/// expected length.
pub const NIPOPOW_DELTA: u32 = 15;

/// A chain proof.
#[derive(Debug)]
pub struct ChainProof {
    pub prefix: Vec<Block>,
    pub suffix: Vec<BlockHeader>,
}

/// What a chain proof holds.
pub struct ChainProofView {
    pub prefix: Seq<BlockView>,
    pub suffix: Seq<BlockHeader>,
}

impl View for ChainProof {
    type V = ChainProofView;

    open spec fn view(&self) -> ChainProofView {
        ChainProofView {
            prefix: Seq::new(self.prefix@.len(), |i: int| self.prefix@[i]@),
            suffix: self.suffix@,
        }
    }
}

impl Clone for ChainProof {
    fn clone(&self) -> (r: Self)
        ensures
            r@ == self@,
    {
        let mut prefix: Vec<Block> = Vec::new();
        let mut i: usize = 0;
        while i < self.prefix.len()
            invariant
                i <= self.prefix@.len(),
                prefix@.len() == i,
                forall|j: int| 0 <= j < i ==> prefix@[j]@ == self.prefix@[j]@,
            decreases self.prefix@.len() - i,
        {
            prefix.push(self.prefix[i].clone());
            i += 1;
        }
        let r = ChainProof { prefix, suffix: self.suffix.clone() };
        assert(r@.prefix =~= self@.prefix);
        r
    }
}

/// The two lists of blocks as one, in the order of their heights; of two
/// blocks of one height the one of the first list stays.
pub open spec fn merged(a: Seq<BlockView>, b: Seq<BlockView>) -> Seq<BlockView>
    decreases a.len() + b.len(),
{
    if a.len() == 0 {
        b
    } else if b.len() == 0 {
        a
    } else if a[0].header.height < b[0].header.height {
        seq![a[0]] + merged(a.skip(1), b)
    } else if a[0].header.height > b[0].header.height {
        seq![b[0]] + merged(a, b.skip(1))
    } else {
        seq![a[0]] + merged(a.skip(1), b.skip(1))
    }
}

/// The blocks of a chain.
pub open spec fn chain_blocks(chain: Seq<ChainInfoView>) -> Seq<BlockView> {
    Seq::new(chain.len(), |i: int| chain[i].head)
}

/// Merges two lists of blocks by height.
pub fn merge_blocks(a: &Vec<Block>, b: &Vec<ChainInfo>) -> (r: Vec<Block>)
    ensures
        Seq::new(r@.len(), |i: int| r@[i]@) == merged(
            Seq::new(a@.len(), |i: int| a@[i]@),
            chain_blocks(chain_view(b@)),
        ),
{
    let ghost left = Seq::new(a@.len(), |i: int| a@[i]@);
    let ghost right = chain_blocks(chain_view(b@));
    let mut r: Vec<Block> = Vec::new();
    let mut i: usize = 0;
    let mut j: usize = 0;
    proof {
        assert(left.skip(0) =~= left);
        assert(right.skip(0) =~= right);
    }
    while i < a.len() || j < b.len()
        invariant
            i <= a@.len(),
            j <= b@.len(),
            left == Seq::new(a@.len(), |k: int| a@[k]@),
            right == chain_blocks(chain_view(b@)),
            merged(left, right) == Seq::new(r@.len(), |k: int| r@[k]@) + merged(
                left.skip(i as int),
                right.skip(j as int),
            ),
        decreases a@.len() - i + b@.len() - j,
    {
        let ghost done = Seq::new(r@.len(), |k: int| r@[k]@);
        let ghost la = left.skip(i as int);
        let ghost rb = right.skip(j as int);
        proof {
            if i < a@.len() {
                assert(la[0] == a@[i as int]@);
                assert(la.skip(1) =~= left.skip(i + 1));
            }
            if j < b@.len() {
                assert(rb[0] == b@[j as int]@.head);
                assert(rb.skip(1) =~= right.skip(j + 1));
            }
        }
        if i >= a.len() {
            r.push(b[j].head.clone());
            proof {
                assert(la.len() == 0);
                assert(rb =~= seq![rb[0]] + rb.skip(1));
                lemma_merged_empty(rb.skip(1));
                assert(Seq::new(r@.len(), |k: int| r@[k]@) =~= done.push(rb[0]));
                assert(done + rb =~= done.push(rb[0]) + rb.skip(1));
            }
            j += 1;
        } else if j >= b.len() {
            r.push(a[i].clone());
            proof {
                assert(rb.len() == 0);
                assert(la =~= seq![la[0]] + la.skip(1));
                lemma_merged_right_empty(la);
                lemma_merged_right_empty(la.skip(1));
                assert(Seq::new(r@.len(), |k: int| r@[k]@) =~= done.push(la[0]));
                assert(done + la =~= done.push(la[0]) + la.skip(1));
            }
            i += 1;
        } else if a[i].header.height < b[j].head.header.height {
            r.push(a[i].clone());
            proof {
                assert(Seq::new(r@.len(), |k: int| r@[k]@) =~= done.push(la[0]));
                assert(done + (seq![la[0]] + merged(la.skip(1), rb)) =~= done.push(la[0]) + merged(
                    la.skip(1),
                    rb,
                ));
            }
            i += 1;
        } else if a[i].header.height > b[j].head.header.height {
            r.push(b[j].head.clone());
            proof {
                assert(Seq::new(r@.len(), |k: int| r@[k]@) =~= done.push(rb[0]));
                assert(done + (seq![rb[0]] + merged(la, rb.skip(1))) =~= done.push(rb[0]) + merged(
                    la,
                    rb.skip(1),
                ));
            }
            j += 1;
        } else {
            r.push(a[i].clone());
            proof {
                assert(Seq::new(r@.len(), |k: int| r@[k]@) =~= done.push(la[0]));
                assert(done + (seq![la[0]] + merged(la.skip(1), rb.skip(1))) =~= done.push(la[0])
                    + merged(la.skip(1), rb.skip(1)));
            }
            i += 1;
            j += 1;
        }
    }
    proof {
        assert(left.skip(a@.len() as int) =~= Seq::<BlockView>::empty());
        assert(merged(left.skip(i as int), right.skip(j as int)) =~= Seq::<BlockView>::empty());
        assert(Seq::new(r@.len(), |k: int| r@[k]@) + Seq::<BlockView>::empty() =~= Seq::new(
            r@.len(),
            |k: int| r@[k]@,
        ));
    }
    r
}

/// Merging with nothing on the left gives the right list.
pub proof fn lemma_merged_empty(b: Seq<BlockView>)
    ensures
        merged(Seq::empty(), b) == b,
{
}

/// Merging with nothing on the right gives the left list.
pub proof fn lemma_merged_right_empty(a: Seq<BlockView>)
    ensures
        merged(a, Seq::empty()) == a,
{
}

/// The place in a block's interlink that leads to the next lower block of a
/// depth: the depth less that of the block's target; minus one, which stands
/// for the predecessor, where that is less.
pub open spec fn interlink_index(block: BlockView, depth: u8) -> int {
    let d = depth - target_depth(compact_expand(block.header.n_bits.0));
    if d < -1 {
        -1
    } else {
        d
    }
}

/// The hash that leads from a block to the next lower block of a depth, if
/// its interlink reaches that far.
pub open spec fn reference_of(block: BlockView, depth: u8) -> Option<Seq<u8>> {
    let j = interlink_index(block, depth);
    if j < 0 {
        Some(block.header.prev_hash@)
    } else if j < block.interlink.len() {
        Some(block.interlink[j]@)
    } else {
        None
    }
}

/// The positions of the blocks of a depth below a block, the highest first,
/// down to a height; `None` where the way leads to a block that is not known
/// or not lower, or from a block whose target does not fit into 256 bits.
pub open spec fn walk_below(e: Seq<StoreEntry>, head: BlockView, depth: u8, tail_height: u32) -> Option<
    Seq<int>,
>
    decreases head.header.height,
{
    if head.header.height <= tail_height {
        Some(Seq::empty())
    } else if !compact_fits(head.header.n_bits.0) {
        None
    } else {
        match reference_of(head, depth) {
            None => Some(Seq::empty()),
            Some(reference) => if !known(e, reference) {
                None
            } else {
                let q = place_of(e, reference);
                if e[q].info.head.header.height >= head.header.height {
                    None
                } else {
                    match walk_below(e, e[q].info.head@, depth, tail_height) {
                        None => None,
                        Some(rest) => Some(seq![q] + rest),
                    }
                }
            },
        }
    }
}

/// The positions of the super chain of a depth from the entry at `p` down to
/// a height, the highest first: the entry itself where its proof of work has
/// the depth, the blocks of the depth below it, and the first block where the
/// chain is to reach down to it and does not.
pub open spec fn super_positions(e: Seq<StoreEntry>, p: int, depth: u8, tail_height: u32) -> Option<
    Seq<int>,
> {
    match walk_below(e, e[p].info.head@, depth, tail_height) {
        None => None,
        Some(below) => {
            let start = if target_depth(header_pow(e[p].info.head.header)) >= depth {
                seq![p]
            } else {
                Seq::empty()
            };
            let chain = start + below;
            if (chain.len() == 0 || e[chain.last()].info.head.header.height > 1) && tail_height
                == 1 {
                Some(chain.push(0))
            } else {
                Some(chain)
            }
        },
    }
}

/// The chain infos at positions, the last position first, each without the
/// body of its block.
pub open spec fn infos_at(e: Seq<StoreEntry>, positions: Seq<int>) -> Seq<ChainInfoView> {
    Seq::new(
        positions.len(),
        |i: int| without_body(e[positions[positions.len() - 1 - i]].info@),
    )
}

/// The super chain of a depth from the entry at `p` down to a height.
pub open spec fn super_chain_of(e: Seq<StoreEntry>, p: int, depth: u8, tail_height: u32) -> Option<
    Seq<ChainInfoView>,
> {
    match super_positions(e, p, depth, tail_height) {
        None => None,
        Some(positions) => Some(infos_at(e, positions)),
    }
}

/// The headers of up to `n` blocks that end with the entry at `p`, the lowest
/// first.
pub open spec fn header_chain(e: Seq<StoreEntry>, p: int, n: nat) -> Seq<BlockHeader>
    decreases p,
{
    if n == 0 {
        Seq::empty()
    } else if p <= 0 || !(e[p].parent < p) {
        seq![e[p].info.head.header]
    } else {
        header_chain(e, e[p].parent as int, (n - 1) as nat).push(e[p].info.head.header)
    }
}

/// The prefix of a chain proof: for each depth from `depth` down to zero the
/// super chain of that depth is merged into it; a good chain moves the height
/// down to which the chains of the lower depths reach to that of its `m`-th
/// block from the end. `None` where one of the chains cannot be had.
pub open spec fn proof_prefix(
    e: Seq<StoreEntry>,
    p: int,
    depth: int,
    start_height: u32,
    prefix: Seq<BlockView>,
    m: u32,
    delta: u32,
) -> Option<Seq<BlockView>>
    decreases depth + 1,
{
    if depth < 0 || depth > 255 {
        Some(prefix)
    } else {
        match super_chain_of(e, p, depth as u8, start_height) {
            None => None,
            Some(chain) => proof_prefix(
                e,
                p,
                depth - 1,
                if super_quality(chain, depth as u8, m, delta) && multi_level_quality(
                    chain,
                    depth as u8,
                    m,
                    delta,
                ) && chain[chain.len() - m].head.header.height >= 1 {
                    chain[chain.len() - m].head.header.height
                } else {
                    start_height
                },
                merged(prefix, chain_blocks(chain)),
                m,
                delta,
            ),
        }
    }
}

/// Whether a result is the chain proof of a store's main chain: a prefix of
/// blocks of great depth up to the block `k` below the head, and the headers
/// from there to the head; nothing where an interlink leads to a block that is
/// not known.
pub open spec fn is_chain_proof(
    store: crate::chain_store::ChainStore,
    m: u32,
    k: u32,
    delta: u32,
    r: Option<ChainProof>,
) -> bool {
    match proof_prefix(
        store.entries@,
        proof_base(store.main@, k),
        candidate_depth(
            store.entries@[proof_base(
                store.main@,
                k,
            )].info.super_block_counts@,
            m,
            store.entries@[proof_base(
                store.main@,
                k,
            )].info.super_block_counts@.len() as int,
        ),
        1,
        Seq::empty(),
        m,
        delta,
    ) {
        None => r is None,
        Some(prefix) => r is Some && r->0@.prefix == prefix && r->0@.suffix == header_chain(
            store.entries@,
            store.head_position(),
            (store.main@.len() - base_height(
                store.main@.len() as int,
                k,
            )) as nat,
        ),
    }
}

impl Blockchain {
    /// The super chain of a depth from the entry at `p` down to a height.
    pub fn get_super_chain(&self, depth: u8, p: usize, tail_height: u32) -> (r: Option<SuperChain>)
        requires
            self.chain_store.wf(),
            p < self.chain_store.entries@.len(),
            tail_height >= 1,
        ensures
            match super_chain_of(self.chain_store.entries@, p as int, depth, tail_height) {
                None => r is None,
                Some(chain) => r is Some && chain_view((r->0).0@) == chain,
            },
            r is Some ==> (r->0).0@.len() <= u32::MAX,
    {
        let ghost e = self.chain_store.entries@;
        let ghost total = walk_below(e, e[p as int].info.head@, depth, tail_height);
        let mut below: Vec<usize> = Vec::new();
        let mut cur = p;
        loop
            invariant_except_break
                match walk_below(e, e[cur as int].info.head@, depth, tail_height) {
                    None => total is None,
                    Some(rest) => total == Some(as_positions(below@) + rest),
                },
            invariant
                self.chain_store.wf(),
                e == self.chain_store.entries@,
                p < e.len(),
                cur < e.len(),
                total == walk_below(e, e[p as int].info.head@, depth, tail_height),
                below@.len() + e[cur as int].info.head.header.height
                    <= e[p as int].info.head.header.height,
                forall|i: int| 0 <= i < below@.len() ==> #[trigger] below@[i] < e.len(),
                below@.len() > 0 ==> below@.last() == cur,
                below@.len() == 0 ==> cur == p,
            ensures
                total == Some(as_positions(below@)),
            decreases e[cur as int].info.head.header.height,
        {
            let head = &self.chain_store.entries[cur].info.head;
            proof {
                assert(walk_below(e, head@, depth, tail_height) == walk_below(
                    e,
                    e[cur as int].info.head@,
                    depth,
                    tail_height,
                ));
            }
            if head.header.height <= tail_height {
                proof {
                    assert(as_positions(below@) + Seq::<int>::empty() =~= as_positions(below@));
                }
                break;
            }
            if !head.header.n_bits.fits() {
                return None;
            }
            let target_depth = Target::from_compact(head.header.n_bits).get_depth();
            let index: i16 = if (depth as i16) - (target_depth as i16) < -1 {
                -1
            } else {
                (depth as i16) - (target_depth as i16)
            };
            assert(index == interlink_index(head@, depth));
            if index >= 0 && index as usize >= head.interlink.hashes.len() {
                proof {
                    assert(as_positions(below@) + Seq::<int>::empty() =~= as_positions(below@));
                }
                break;
            }
            let reference = if index < 0 {
                head.header.prev_hash
            } else {
                head.interlink.hashes[index as usize]
            };
            assert(reference_of(head@, depth) == Some(reference@));
            let q = match self.chain_store.find(&reference) {
                None => {
                    proof {
                        if known(e, reference@) {
                            let w = choose|w: int|
                                0 <= w < e.len() && #[trigger] key_at(e, w) == reference@;
                            assert(e[w].hash@ == reference@);
                        }
                    }
                    return None;
                },
                Some(q) => q,
            };
            proof {
                assert(key_at(e, q as int) == reference@);
                assert(key_at(e, place_of(e, reference@)) == key_at(e, q as int));
                assert(place_of(e, reference@) == q);
            }
            if self.chain_store.entries[q].info.head.header.height >= head.header.height {
                return None;
            }
            let ghost before = below@;
            below.push(q);
            proof {
                assert(as_positions(below@) =~= as_positions(before).push(q as int));
                match walk_below(e, e[q as int].info.head@, depth, tail_height) {
                    None => {},
                    Some(rest) => {
                        assert(as_positions(before) + (seq![q as int] + rest) =~= as_positions(
                            below@,
                        ) + rest);
                    },
                }
            }
            cur = q;
        }
        // Include head if it is at the requested depth or below.
        let head_depth = Target::from_pow(
            &self.chain_store.entries[p].info.head.header.pow(),
        ).get_depth();
        let mut positions: Vec<usize> = Vec::new();
        if head_depth >= depth {
            positions.push(p);
        }
        let mut i: usize = 0;
        let ghost start = positions@;
        while i < below.len()
            invariant
                i <= below@.len(),
                positions@ == start + below@.subrange(0, i as int),
            decreases below@.len() - i,
        {
            positions.push(below[i]);
            assert(positions@ =~= start + below@.subrange(0, i + 1));
            i += 1;
        }
        proof {
            assert(below@.subrange(0, below@.len() as int) =~= below@);
            assert(as_positions(positions@) =~= as_positions(start) + as_positions(below@));
            crate::retarget::lemma_height(e, cur as int);
        }
        let ghost chain = as_positions(positions@);
        let extend = tail_height == 1 && (positions.len() == 0
            || self.chain_store.entries[positions[positions.len() - 1]].info.head.header.height
            > 1);
        if extend {
            positions.push(0);
            assert(as_positions(positions@) =~= chain.push(0));
        }
        proof {
            assert(super_positions(e, p as int, depth, tail_height) == Some(
                as_positions(positions@),
            ));
        }
        let ghost wanted = as_positions(positions@);
        let n = positions.len();
        let mut infos: Vec<ChainInfo> = Vec::new();
        let mut k: usize = 0;
        while k < n
            invariant
                k <= n,
                n == positions@.len(),
                self.chain_store.wf(),
                e == self.chain_store.entries@,
                wanted == as_positions(positions@),
                forall|i: int| 0 <= i < positions@.len() ==> #[trigger] positions@[i] < e.len(),
                infos@.len() == k,
                forall|i: int| 0 <= i < k ==> infos@[i]@ == #[trigger] infos_at(e, wanted)[i],
            decreases n - k,
        {
            assert(positions@[n - 1 - k] < e.len());
            infos.push(self.chain_store.info_at(positions[n - 1 - k], false));
            k += 1;
        }
        proof {
            assert(chain_view(infos@) =~= infos_at(e, wanted));
        }
        Some(SuperChain(infos))
    }
}

impl Blockchain {
    /// The headers of up to `length` blocks that end with the entry at `p`,
    /// the lowest first.
    pub fn get_header_chain(&self, length: u32, p: usize) -> (headers: Vec<BlockHeader>)
        requires
            self.chain_store.wf(),
            p < self.chain_store.entries@.len(),
        ensures
            headers@ == header_chain(self.chain_store.entries@, p as int, length as nat),
    {
        let ghost e = self.chain_store.entries@;
        let mut down: Vec<BlockHeader> = Vec::new();
        let mut cur = p;
        let mut left = length;
        while left > 0
            invariant_except_break
                header_chain(e, p as int, length as nat) == header_chain(
                    e,
                    cur as int,
                    left as nat,
                ) + down@.reverse(),
            invariant
                self.chain_store.wf(),
                e == self.chain_store.entries@,
                cur < e.len(),
            ensures
                header_chain(e, p as int, length as nat) == down@.reverse(),
            decreases cur,
        {
            let ghost before = down@;
            down.push(self.chain_store.entries[cur].info.head.header);
            proof {
                assert(entry_ok(e, cur as int));
                assert(down@.reverse() =~= seq![e[cur as int].info.head.header] + before.reverse());
                if cur > 0 {
                    assert(header_chain(e, cur as int, left as nat) + before.reverse()
                        =~= header_chain(e, e[cur as int].parent as int, (left - 1) as nat)
                        + down@.reverse());
                } else {
                    assert(header_chain(e, cur as int, left as nat) + before.reverse()
                        =~= down@.reverse());
                }
            }
            if cur == 0 {
                break;
            }
            cur = self.chain_store.entries[cur].parent;
            left -= 1;
            proof {
                if left == 0 {
                    assert(header_chain(e, cur as int, 0) + down@.reverse() =~= down@.reverse());
                }
            }
        }
        proof {
            if length == 0 {
                assert(header_chain(e, p as int, 0) + down@.reverse() =~= down@.reverse());
            }
        }
        let mut headers: Vec<BlockHeader> = Vec::new();
        let n = down.len();
        let mut i: usize = 0;
        while i < n
            invariant
                i <= n,
                n == down@.len(),
                headers@.len() == i,
                forall|j: int| 0 <= j < i ==> headers@[j] == down@[n - 1 - j],
            decreases n - i,
        {
            headers.push(down[n - 1 - i]);
            i += 1;
        }
        assert(headers@ =~= down@.reverse());
        headers
    }

    /// A chain proof for the head of the main chain: a prefix of blocks of
    /// great depth up to the block `k` below the head, and the headers from
    /// there to the head. `None` where an interlink leads to a block that is
    /// not known.
    pub fn prove(&self, m: u32, k: u32, delta: u32) -> (r: Option<ChainProof>)
        requires
            self.wf(),
            m >= 1,
            delta <= 100,
        ensures
            is_chain_proof(self.chain_store, m, k, delta, r),
    {
        let ghost e = self.chain_store.entries@;
        let ghost main = self.chain_store.main@;
        let head_height = self.chain_store.main.len();
        proof {
            assert(main_entry_ok(e, main, head_height - 1));
        }
        let base_at: usize = if head_height as u64 > k as u64 + 1 {
            head_height - k as usize
        } else {
            1
        };
        proof {
            assert(base_at == base_height(main.len() as int, k));
            assert(main_entry_ok(e, main, base_at - 1));
            assert(entry_ok(e, main[base_at - 1] as int));
        }
        let base = self.chain_store.main[base_at - 1];
        let max_depth = self.chain_store.entries[base].info.super_block_counts.get_candidate_depth(m);
        let mut prefix: Vec<Block> = Vec::new();
        let mut start_height: u32 = 1;
        let mut depth: u8 = max_depth;
        let ghost wanted = proof_prefix(e, base as int, max_depth as int, 1, Seq::empty(), m, delta);
        proof {
            assert(Seq::new(prefix@.len(), |i: int| prefix@[i]@) =~= Seq::<BlockView>::empty());
        }
        loop
            invariant_except_break
                wanted == proof_prefix(
                    e,
                    base as int,
                    depth as int,
                    start_height,
                    Seq::new(prefix@.len(), |i: int| prefix@[i]@),
                    m,
                    delta,
                ),
            invariant
                self.wf(),
                e == self.chain_store.entries@,
                main == self.chain_store.main@,
                base == proof_base(main, k),
                max_depth == candidate_depth(
                    e[base as int].info.super_block_counts@,
                    m,
                    e[base as int].info.super_block_counts@.len() as int,
                ),
                wanted == proof_prefix(e, base as int, max_depth as int, 1, Seq::empty(), m, delta),
                base < e.len(),
                start_height >= 1,
                m >= 1,
                delta <= 100,
            ensures
                wanted == Some(Seq::new(prefix@.len(), |i: int| prefix@[i]@)),
            decreases depth,
        {
            let ghost so_far = Seq::new(prefix@.len(), |i: int| prefix@[i]@);
            proof {
                lemma_prefix_step(e, base as int, depth as int, start_height, so_far, m, delta);
            }
            let super_chain = match self.get_super_chain(depth, base, start_height) {
                None => {
                    return None;
                },
                Some(chain) => chain,
            };
            let mut next_start = start_height;
            if super_chain.is_good(depth, m, delta) {
                let at = super_chain.0.len() - m as usize;
                let height = super_chain.0[at].head.header.height;
                assert(chain_view(super_chain.0@)[at as int] == super_chain.0@[at as int]@);
                if height >= 1 {
                    next_start = height;
                }
            }
            prefix = merge_blocks(&prefix, &super_chain.0);
            start_height = next_start;
            if depth == 0 {
                proof {
                    lemma_prefix_done(
                        e,
                        base as int,
                        start_height,
                        Seq::new(prefix@.len(), |i: int| prefix@[i]@),
                        m,
                        delta,
                    );
                }
                break;
            }
            depth -= 1;
        }
        let head = self.chain_store.main[head_height - 1];
        let suffix = self.get_header_chain((head_height - base_at) as u32, head);
        Some(ChainProof { prefix, suffix })
    }

    /// The chain proof for the head of the main chain. It is made when it is
    /// first asked for and kept until the main chain changes.
    pub fn get_chain_proof(&mut self) -> (r: Option<ChainProof>)
        requires
            old(self).wf(),
        ensures
            final(self).wf(),
            crate::push::same_state(*final(self), *old(self)),
            final(self).events == old(self).events,
            final(self).history == old(self).history,
            old(self).chain_proof is Some ==> r is Some && r->0@ == old(self).chain_proof->0@,
            r is Some ==> final(self).chain_proof is Some && final(self).chain_proof->0@ == r->0@,
            r is None ==> final(self).chain_proof is None,
            old(self).chain_proof is None ==> is_chain_proof(
                old(self).chain_store,
                NIPOPOW_M,
                NIPOPOW_K,
                NIPOPOW_DELTA,
                r,
            ),
    {
        if self.chain_proof.is_none() {
            match self.prove(NIPOPOW_M, NIPOPOW_K, NIPOPOW_DELTA) {
                None => {
                    return None;
                },
                Some(chain_proof) => {
                    self.chain_proof = Some(chain_proof);
                },
            }
        }
        match &self.chain_proof {
            Some(chain_proof) => Some(chain_proof.clone()),
            None => None,
        }
    }
}

/// The prefix of a chain proof takes in the super chain of one depth, then
/// those of the lower depths.
proof fn lemma_prefix_step(
    e: Seq<StoreEntry>,
    p: int,
    depth: int,
    start_height: u32,
    prefix: Seq<BlockView>,
    m: u32,
    delta: u32,
)
    requires
        0 <= depth <= 255,
    ensures
        proof_prefix(e, p, depth, start_height, prefix, m, delta) == match super_chain_of(
            e,
            p,
            depth as u8,
            start_height,
        ) {
            None => None,
            Some(chain) => proof_prefix(
                e,
                p,
                depth - 1,
                if super_quality(chain, depth as u8, m, delta) && multi_level_quality(
                    chain,
                    depth as u8,
                    m,
                    delta,
                ) && chain[chain.len() - m].head.header.height >= 1 {
                    chain[chain.len() - m].head.header.height
                } else {
                    start_height
                },
                merged(prefix, chain_blocks(chain)),
                m,
                delta,
            ),
        },
{
}

/// Below depth zero the prefix of a chain proof is complete.
proof fn lemma_prefix_done(
    e: Seq<StoreEntry>,
    p: int,
    start_height: u32,
    prefix: Seq<BlockView>,
    m: u32,
    delta: u32,
)
    ensures
        proof_prefix(e, p, -1, start_height, prefix, m, delta) == Some(prefix),
{
}

/// The height of the block up to which the prefix of a chain proof stands
/// for the chain: `k` below the head, but not below the first block.
pub open spec fn base_height(height: int, k: u32) -> int {
    if height > k + 1 {
        height - k
    } else {
        1
    }
}

/// The position of the block up to which the prefix of a chain proof stands
/// for the chain.
pub open spec fn proof_base(main: Seq<usize>, k: u32) -> int {
    main[base_height(main.len() as int, k) - 1] as int
}

/// Positions as numbers.
pub open spec fn as_positions(positions: Seq<usize>) -> Seq<int> {
    Seq::new(positions.len(), |i: int| positions[i] as int)
}

} // verus!
