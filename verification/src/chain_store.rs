//! The store of all known blocks: each block with its place in the chain,
//! found by its hash, and the main chain found by height.

use vstd::prelude::*;
use crate::block::{follows, header_hash, Block};
use crate::chain_info::ChainInfo;
use crate::hash::Blake2bHash;
use crate::target::{compact_expand, difficulty_of};

verus! {

/// A stored block: its hash, the position of its predecessor in the store,
/// and its chain info.
#[derive(Debug)]
pub struct StoreEntry {
    pub hash: Blake2bHash,
    pub parent: usize,
    pub info: ChainInfo,
}

/// The store. Entries stay where they were put; `main` holds, for each height
/// of the main chain, the position of the block at that height.
#[derive(Debug)]
pub struct ChainStore {
    pub entries: Vec<StoreEntry>,
    pub main: Vec<usize>,
}

/// In which direction a walk along the main chain goes.
#[derive(Clone, Copy, Debug, PartialEq, Eq, Structural)]
pub enum Direction {
    Forward,
    Backward,
}

/// Whether the entry at a position is sound in itself and against its
/// predecessor: it is stored under the hash of its header, has a body, and,
/// unless it is the first entry, follows on an entry before it, whose total
/// difficulty it adds its own difficulty to.
pub open spec fn entry_ok(e: Seq<StoreEntry>, p: int) -> bool {
    let x = e[p];
    &&& x.hash@ == header_hash(x.info.head.header)
    &&& x.info.head.body is Some
    &&& x.info.counts_ok()
    &&& (!x.info.on_main_chain ==> x.info.main_chain_successor is None)
    &&& (p > 0 ==> {
        &&& x.parent < p
        &&& follows(x.info.head.header, e[x.parent as int].info.head.header)
        &&& x.info.total_difficulty@ == e[x.parent as int].info.total_difficulty@ + difficulty_of(
            compact_expand(x.info.head.header.n_bits.0),
        )
    })
}

/// The hash under which the entry at a position is stored.
pub open spec fn key_at(e: Seq<StoreEntry>, p: int) -> Seq<u8> {
    e[p].hash@
}

/// Whether the entries are sound: the first has height one, no hash is stored
/// twice, and each entry is sound.
pub open spec fn entries_ok(e: Seq<StoreEntry>) -> bool {
    &&& e.len() >= 1
    &&& e[0].info.head.header.height == 1
    &&& forall|p: int, q: int| 0 <= p < q < e.len() ==> #[trigger] key_at(e, p) != #[trigger] key_at(e, q)
    &&& forall|p: int| 0 <= p < e.len() ==> #[trigger] entry_ok(e, p)
}

/// Whether the block at position `i` of the main chain is sound: it has
/// height `i + 1`, is marked as on the main chain, has the block before it as
/// its predecessor, and the block after it, if there is one, as its successor.
pub open spec fn main_entry_ok(e: Seq<StoreEntry>, m: Seq<usize>, i: int) -> bool {
    &&& m[i] < e.len()
    &&& e[m[i] as int].info.head.header.height == i + 1
    &&& e[m[i] as int].info.on_main_chain
    &&& (i >= 1 ==> e[m[i] as int].parent == m[i - 1])
    &&& e[m[i] as int].info.main_chain_successor == if i + 1 < m.len() {
        Some(e[m[i + 1] as int].hash)
    } else {
        None
    }
}

/// Whether the entry at a position, if it is marked as on the main chain,
/// stands in the main chain at its height.
pub open spec fn marked_ok(e: Seq<StoreEntry>, m: Seq<usize>, p: int) -> bool {
    e[p].info.on_main_chain ==> 1 <= e[p].info.head.header.height <= m.len()
        && m[e[p].info.head.header.height - 1] == p
}

/// Whether the main chain is sound: it starts with the first entry; each of
/// its blocks is sound; and no other entry is marked.
pub open spec fn main_ok(e: Seq<StoreEntry>, m: Seq<usize>) -> bool {
    &&& m.len() >= 1
    &&& m[0] == 0
    &&& forall|i: int| 0 <= i < m.len() ==> #[trigger] main_entry_ok(e, m, i)
    &&& forall|p: int| 0 <= p < e.len() ==> #[trigger] marked_ok(e, m, p)
}

/// A chain info without the body of its block.
pub open spec fn without_body(info: crate::chain_info::ChainInfoView) -> crate::chain_info::ChainInfoView {
    crate::chain_info::ChainInfoView {
        head: crate::block::BlockView {
            header: info.head.header,
            interlink: info.head.interlink,
            body: None,
        },
        total_difficulty: info.total_difficulty,
        total_work: info.total_work,
        on_main_chain: info.on_main_chain,
        main_chain_successor: info.main_chain_successor,
        super_block_counts: info.super_block_counts,
    }
}

/// Whether two entries differ at most in the marks of the main chain.
pub open spec fn same_block(a: StoreEntry, b: StoreEntry) -> bool {
    &&& a.hash == b.hash
    &&& a.parent == b.parent
    &&& a.info.head == b.info.head
    &&& a.info.total_difficulty == b.info.total_difficulty
    &&& a.info.total_work == b.info.total_work
    &&& a.info.super_block_counts == b.info.super_block_counts
}

impl ChainStore {
    /// Whether the store is sound.
    pub open spec fn wf(&self) -> bool {
        entries_ok(self.entries@) && main_ok(self.entries@, self.main@)
    }

    /// The position of the head of the main chain.
    pub open spec fn head_position(&self) -> int {
        self.main@.last() as int
    }

    /// The height of the main chain.
    pub open spec fn spec_height(&self) -> nat {
        self.main@.len()
    }

    /// A store that holds a first block of height one, with a body, as its
    /// whole main chain.
    pub fn new(hash: Blake2bHash, info: ChainInfo) -> (r: ChainStore)
        requires
            hash@ == header_hash(info.head.header),
            info.head.header.height == 1,
            info.head.body is Some,
            info.counts_ok(),
            info.on_main_chain,
            info.main_chain_successor is None,
        ensures
            r.wf(),
            r.entries@.len() == 1,
            r.entries@[0].hash == hash,
            r.entries@[0].info == info,
            r.main@ == seq![0usize],
    {
        let mut entries: Vec<StoreEntry> = Vec::new();
        entries.push(StoreEntry { hash, parent: 0, info });
        let mut main: Vec<usize> = Vec::new();
        main.push(0);
        let r = ChainStore { entries, main };
        assert(entry_ok(r.entries@, 0));
        assert(main_entry_ok(r.entries@, r.main@, 0));
        assert(marked_ok(r.entries@, r.main@, 0));
        r
    }

    /// The position under which a hash is stored.
    pub fn find(&self, hash: &Blake2bHash) -> (r: Option<usize>)
        ensures
            match r {
                Some(p) => p < self.entries@.len() && self.entries@[p as int].hash@ == hash@,
                None => forall|p: int|
                    0 <= p < self.entries@.len() ==> (#[trigger] self.entries@[p]).hash@ != hash@,
            },
    {
        let mut p: usize = 0;
        while p < self.entries.len()
            invariant
                p <= self.entries@.len(),
                forall|q: int| 0 <= q < p ==> (#[trigger] self.entries@[q]).hash@ != hash@,
            decreases self.entries@.len() - p,
        {
            if self.entries[p].hash.same(hash) {
                return Some(p);
            }
            p += 1;
        }
        None
    }

    /// Whether a hash is stored.
    pub fn contains(&self, hash: &Blake2bHash) -> (b: bool)
        ensures
            b == exists|p: int|
                0 <= p < self.entries@.len() && (#[trigger] self.entries@[p]).hash@ == hash@,
    {
        self.find(hash).is_some()
    }

    /// The chain info at a position, with or without the body of its block.
    pub fn info_at(&self, p: usize, include_body: bool) -> (r: ChainInfo)
        requires
            p < self.entries@.len(),
        ensures
            r@.head.header == self.entries@[p as int].info@.head.header,
            r@.head.interlink == self.entries@[p as int].info@.head.interlink,
            r@.head.body == if include_body {
                self.entries@[p as int].info@.head.body
            } else {
                None
            },
            r@.total_difficulty == self.entries@[p as int].info@.total_difficulty,
            r@.total_work == self.entries@[p as int].info@.total_work,
            r@.on_main_chain == self.entries@[p as int].info@.on_main_chain,
            r@.main_chain_successor == self.entries@[p as int].info@.main_chain_successor,
            r@.super_block_counts == self.entries@[p as int].info@.super_block_counts,
            r.main_chain_successor == self.entries@[p as int].info.main_chain_successor,
            self.entries@[p as int].info.counts_ok() ==> r.counts_ok(),
            r@ == if include_body {
                self.entries@[p as int].info@
            } else {
                without_body(self.entries@[p as int].info@)
            },
    {
        let stored = &self.entries[p].info;
        let head = if include_body {
            stored.head.clone()
        } else {
            stored.head.without_body()
        };
        ChainInfo {
            head,
            total_difficulty: stored.total_difficulty.clone(),
            total_work: stored.total_work.clone(),
            on_main_chain: stored.on_main_chain,
            main_chain_successor: stored.main_chain_successor,
            super_block_counts: stored.super_block_counts.clone(),
        }
    }

    /// The chain info stored under a hash, with or without the body of its
    /// block.
    pub fn get_chain_info(&self, hash: &Blake2bHash, include_body: bool) -> (r: Option<ChainInfo>)
        requires
            self.wf(),
        ensures
            r is Some == self.find_spec(hash@) is Some,
            r is Some ==> r->0@ == if include_body {
                self.entries@[self.find_spec(hash@)->0].info@
            } else {
                without_body(self.entries@[self.find_spec(hash@)->0].info@)
            },
    {
        match self.find(hash) {
            None => {
                proof {
                    if self.find_spec(hash@) is Some {
                        let p = self.find_spec(hash@)->0;
                        assert(key_at(self.entries@, p) == hash@);
                        assert(self.entries@[p].hash@ == hash@);
                    }
                }
                None
            },
            Some(p) => {
                proof {
                    self.lemma_find(p as int, hash@);
                }
                Some(self.info_at(p, include_body))
            },
        }
    }

    /// The chain info of the main chain's block at a height.
    pub fn get_chain_info_at(&self, height: u32, include_body: bool) -> (r: Option<ChainInfo>)
        requires
            self.wf(),
        ensures
            r is Some == (1 <= height <= self.main@.len()),
            r is Some ==> r->0@ == if include_body {
                self.entries@[self.main@[height - 1] as int].info@
            } else {
                without_body(self.entries@[self.main@[height - 1] as int].info@)
            },
    {
        let h = height as usize;
        if h < 1 || h > self.main.len() {
            return None;
        }
        assert(main_entry_ok(self.entries@, self.main@, h - 1));
        Some(self.info_at(self.main[h - 1], include_body))
    }

    /// The block stored under a hash, with or without its body.
    pub fn get_block(&self, hash: &Blake2bHash, include_body: bool) -> (r: Option<Block>)
        requires
            self.wf(),
        ensures
            r is Some == self.find_spec(hash@) is Some,
            r is Some ==> r->0@.header == self.entries@[self.find_spec(hash@)->0].info@.head.header
                && r->0@.interlink == self.entries@[self.find_spec(hash@)->0].info@.head.interlink
                && r->0@.body == if include_body {
                self.entries@[self.find_spec(hash@)->0].info@.head.body
            } else {
                None
            },
    {
        match self.find(hash) {
            None => {
                proof {
                    if self.find_spec(hash@) is Some {
                        let p = self.find_spec(hash@)->0;
                        assert(key_at(self.entries@, p) == hash@);
                        assert(self.entries@[p].hash@ == hash@);
                    }
                }
                None
            },
            Some(p) => {
                proof {
                    self.lemma_find(p as int, hash@);
                }
                Some(self.block_at(p, include_body))
            },
        }
    }

    /// The block at a position, with or without its body.
    pub fn block_at(&self, p: usize, include_body: bool) -> (r: Block)
        requires
            p < self.entries@.len(),
        ensures
            r@.header == self.entries@[p as int].info@.head.header,
            r@.interlink == self.entries@[p as int].info@.head.interlink,
            r@.body == if include_body {
                self.entries@[p as int].info@.head.body
            } else {
                None
            },
    {
        if include_body {
            self.entries[p].info.head.clone()
        } else {
            self.entries[p].info.head.without_body()
        }
    }

    /// The main chain's block at a height, with its body.
    pub fn get_block_at(&self, height: u32) -> (r: Option<Block>)
        requires
            self.wf(),
        ensures
            r is Some == (1 <= height <= self.main@.len()),
            r is Some ==> r->0@ == self.entries@[self.main@[height - 1] as int].info@.head,
    {
        let h = height as usize;
        if h < 1 || h > self.main.len() {
            return None;
        }
        assert(main_entry_ok(self.entries@, self.main@, h - 1));
        Some(self.block_at(self.main[h - 1], true))
    }

    /// The hash of the head of the main chain.
    pub fn get_head(&self) -> (h: Blake2bHash)
        requires
            self.wf(),
        ensures
            h == self.entries@[self.head_position()].hash,
    {
        assert(main_entry_ok(self.entries@, self.main@, self.main@.len() - 1));
        self.entries[self.main[self.main.len() - 1]].hash
    }

    /// The height of the main chain.
    pub fn height(&self) -> (h: usize)
        ensures
            h == self.main@.len(),
    {
        self.main.len()
    }
}

/// Whether `path` leads from an entry off the main chain down to the main
/// chain: it starts with the entry, each of its entries is off the main chain
/// and has the next as its predecessor, and the predecessor of the last is on
/// the main chain.
pub open spec fn is_fork_path(e: Seq<StoreEntry>, path: Seq<usize>) -> bool {
    &&& path.len() >= 1
    &&& forall|k: int|
        0 <= k < path.len() ==> {
            &&& 0 < (#[trigger] path[k]) < e.len()
            &&& !e[path[k] as int].info.on_main_chain
            &&& e[path[k] as int].info.head.header.height + k
                == e[path[0] as int].info.head.header.height
        }
    &&& forall|k: int| 0 <= k < path.len() - 1 ==> e[#[trigger] path[k] as int].parent == path[k + 1]
    &&& e[e[path.last() as int].parent as int].info.on_main_chain
}

/// The positions from an entry down to the main chain: the entry, its
/// predecessor and so on, as long as they are off the main chain.
pub open spec fn fork_path_of(e: Seq<StoreEntry>, p: int) -> Seq<usize>
    decreases p,
{
    if p <= 0 || e[p].info.on_main_chain || !(e[p].parent < p) {
        Seq::empty()
    } else {
        seq![p as usize] + fork_path_of(e, e[p].parent as int)
    }
}

/// The height of the block at which a fork path leaves the main chain.
pub open spec fn fork_base(e: Seq<StoreEntry>, path: Seq<usize>) -> int {
    e[e[path.last() as int].parent as int].info.head.header.height as int
}

/// The main chain after a fork path was adopted: the blocks up to the one at
/// which the path leaves it, then the path from its last entry to its first.
pub open spec fn main_with(e: Seq<StoreEntry>, m: Seq<usize>, path: Seq<usize>) -> Seq<usize> {
    m.subrange(0, fork_base(e, path)) + path.reverse()
}

impl ChainStore {
    /// Stores a block that is not yet known, off the main chain. Its
    /// predecessor has to be stored already.
    pub fn put_chain_info(&mut self, hash: Blake2bHash, info: ChainInfo) -> (at: usize)
        requires
            old(self).wf(),
            forall|p: int|
                0 <= p < old(self).entries@.len() ==> (#[trigger] old(self).entries@[p]).hash@
                    != hash@,
            hash@ == header_hash(info.head.header),
            info.head.body is Some,
            info.counts_ok(),
            !info.on_main_chain,
            info.main_chain_successor is None,
            exists|q: int|
                0 <= q < old(self).entries@.len() && follows(
                    info.head.header,
                    (#[trigger] old(self).entries@[q]).info.head.header,
                ) && info.total_difficulty@ == old(self).entries@[q].info.total_difficulty@
                    + difficulty_of(compact_expand(info.head.header.n_bits.0)),
        ensures
            final(self).wf(),
            at == old(self).entries@.len(),
            final(self).entries@.len() == at + 1,
            final(self).entries@.subrange(0, at as int) == old(self).entries@,
            final(self).entries@[at as int].hash == hash,
            final(self).entries@[at as int].info == info,
            final(self).main@ == old(self).main@,
    {
        let ghost e0 = self.entries@;
        let ghost q = choose|q: int|
            0 <= q < e0.len() && follows(info.head.header, (#[trigger] e0[q]).info.head.header)
                && info.total_difficulty@ == e0[q].info.total_difficulty@ + difficulty_of(
                compact_expand(info.head.header.n_bits.0),
            );
        let parent = match self.find(&info.head.header.prev_hash) {
            Some(p) => p,
            None => {
                proof {
                    assert(entry_ok(e0, q));
                    assert(e0[q].hash@ == info.head.header.prev_hash@);
                }
                0
            },
        };
        proof {
            assert(entry_ok(e0, q));
            assert(entry_ok(e0, parent as int));
            assert(key_at(e0, q) == key_at(e0, parent as int));
            assert(q == parent);
        }
        let at = self.entries.len();
        self.entries.push(StoreEntry { hash, parent, info });
        proof {
            let e1 = self.entries@;
            assert(e1.subrange(0, at as int) =~= e0);
            assert forall|p: int| 0 <= p < e1.len() implies #[trigger] entry_ok(e1, p) by {
                if p < at {
                    assert(entry_ok(e0, p));
                    assert(e1[p] == e0[p]);
                    if p > 0 {
                        assert(e1[e1[p].parent as int] == e0[e0[p].parent as int]);
                    }
                }
            }
            assert forall|p: int, r: int| 0 <= p < r < e1.len() implies #[trigger] key_at(e1, p)
                != #[trigger] key_at(e1, r) by {
                if r < at {
                    assert(e1[p] == e0[p] && e1[r] == e0[r]);
                    assert(key_at(e0, p) != key_at(e0, r));
                } else {
                    assert(e1[p] == e0[p]);
                }
            }
            assert(main_ok(e1, self.main@)) by {
                let m = self.main@;
                assert forall|i: int| 0 <= i < m.len() implies #[trigger] main_entry_ok(
                    e1,
                    m,
                    i,
                ) by {
                    assert(main_entry_ok(e0, m, i));
                    assert(e1[m[i] as int] == e0[m[i] as int]);
                    if i + 1 < m.len() {
                        assert(main_entry_ok(e0, m, i + 1));
                        assert(e1[m[i + 1] as int] == e0[m[i + 1] as int]);
                    }
                }
                assert forall|p: int| 0 <= p < e1.len() implies #[trigger] marked_ok(e1, m, p) by {
                    if p < at {
                        assert(marked_ok(e0, m, p));
                        assert(e1[p] == e0[p]);
                    }
                }
            }
        }
        at
    }

    /// The path from an entry off the main chain down to the main chain.
    pub fn fork_path(&self, tip: usize) -> (path: Vec<usize>)
        requires
            self.wf(),
            tip < self.entries@.len(),
            !self.entries@[tip as int].info.on_main_chain,
        ensures
            is_fork_path(self.entries@, path@),
            path@[0] == tip,
            path@ == fork_path_of(self.entries@, tip as int),
    {
        let mut path: Vec<usize> = Vec::new();
        let mut cur: usize = tip;
        assert(path@ + fork_path_of(self.entries@, cur as int) =~= fork_path_of(
            self.entries@,
            tip as int,
        ));
        while !self.entries[cur].info.on_main_chain
            invariant
                self.wf(),
                fork_path_of(self.entries@, tip as int) == path@ + fork_path_of(
                    self.entries@,
                    cur as int,
                ),
                cur < self.entries@.len(),
                tip < self.entries@.len(),
                !self.entries@[tip as int].info.on_main_chain,
                path@.len() == 0 ==> cur == tip,
                path@.len() > 0 ==> path@[0] == tip && self.entries@[path@.last() as int].parent
                    == cur,
                self.entries@[cur as int].info.head.header.height + path@.len()
                    == self.entries@[tip as int].info.head.header.height,
                forall|k: int|
                    0 <= k < path@.len() ==> {
                        &&& 0 < (#[trigger] path@[k]) < self.entries@.len()
                        &&& !self.entries@[path@[k] as int].info.on_main_chain
                        &&& self.entries@[path@[k] as int].info.head.header.height + k
                            == self.entries@[tip as int].info.head.header.height
                    },
                forall|k: int|
                    0 <= k < path@.len() - 1 ==> self.entries@[#[trigger] path@[k] as int].parent
                        == path@[k + 1],
            decreases cur,
        {
            proof {
                assert(main_entry_ok(self.entries@, self.main@, 0));
                assert(cur > 0);
                assert(entry_ok(self.entries@, cur as int));
                assert(path@.push(cur) + fork_path_of(
                    self.entries@,
                    self.entries@[cur as int].parent as int,
                ) =~= path@ + fork_path_of(self.entries@, cur as int));
            }
            path.push(cur);
            cur = self.entries[cur].parent;
        }
        assert(path@ + fork_path_of(self.entries@, cur as int) =~= path@);
        path
    }
}

/// Whether two entries carry the same marks of the main chain.
pub open spec fn same_marks(a: StoreEntry, b: StoreEntry) -> bool {
    &&& a.info.on_main_chain == b.info.on_main_chain
    &&& a.info.main_chain_successor == b.info.main_chain_successor
}

/// Whether each entry holds the block that it held before.
#[verifier::opaque]
pub open spec fn blocks_kept(e: Seq<StoreEntry>, e0: Seq<StoreEntry>) -> bool {
    &&& e.len() == e0.len()
    &&& forall|p: int| 0 <= p < e0.len() ==> same_block(#[trigger] e[p], e0[p])
}

/// Whether the marks are those of `e0` but for the blocks of the main chain
/// above height `upto`, down to the height at which the path leaves it, which
/// have lost theirs.
#[verifier::opaque]
pub open spec fn marks_taken(e0: Seq<StoreEntry>, path: Seq<usize>, e: Seq<StoreEntry>, upto: int) -> bool {
    forall|p: int|
        0 <= p < e0.len() ==> if e0[p].info.on_main_chain && fork_base(e0, path)
            < e0[p].info.head.header.height <= upto {
            !(#[trigger] e[p]).info.on_main_chain && e[p].info.main_chain_successor is None
        } else {
            same_marks(e[p], e0[p])
        }
}

/// Whether the entries of the path from position `j` on are marked, each with
/// the entry before it in the path as its successor.
#[verifier::opaque]
pub open spec fn path_marked(e0: Seq<StoreEntry>, path: Seq<usize>, e: Seq<StoreEntry>, j: int) -> bool {
    forall|k: int|
        j <= k < path.len() ==> {
            &&& e[#[trigger] path[k] as int].info.on_main_chain
            &&& e[path[k] as int].info.main_chain_successor == if k > 0 {
                Some(e0[path[k - 1] as int].hash)
            } else {
                None
            }
        }
}

/// Whether the entries that are not on the path from position `j` on carry
/// the marks that they carry in `e2`.
#[verifier::opaque]
pub open spec fn others_kept(path: Seq<usize>, e: Seq<StoreEntry>, e2: Seq<StoreEntry>, j: int) -> bool {
    forall|p: int|
        0 <= p < e.len() && (forall|k: int| j <= k < path.len() ==> #[trigger] path[k] != p)
            ==> same_marks(#[trigger] e[p], e2[p])
}

impl ChainStore {
    /// Takes the marks from the blocks of the main chain above a height.
    fn take_marks(&mut self, a: usize, Ghost(path): Ghost<Seq<usize>>)
        requires
            old(self).wf(),
            a == fork_base(old(self).entries@, path),
            a <= old(self).main@.len(),
        ensures
            final(self).main@ == old(self).main@,
            blocks_kept(final(self).entries@, old(self).entries@),
            marks_taken(
                old(self).entries@,
                path,
                final(self).entries@,
                old(self).main@.len() as int,
            ),
    {
        let ghost e0 = self.entries@;
        let ghost m0 = self.main@;
        proof {
            assert(blocks_kept(e0, e0)) by {
                reveal(blocks_kept);
            }
            assert(marks_taken(e0, path, e0, a as int)) by {
                reveal(marks_taken);
            }
        }
        let mut i: usize = a;
        while i < self.main.len()
            invariant
                a <= i <= m0.len(),
                a == fork_base(e0, path),
                self.main@ == m0,
                entries_ok(e0),
                main_ok(e0, m0),
                blocks_kept(self.entries@, e0),
                marks_taken(e0, path, self.entries@, i as int),
            decreases m0.len() - i,
        {
            proof {
                assert(self.entries@.len() == e0.len()) by {
                    reveal(blocks_kept);
                }
                assert(main_entry_ok(e0, m0, i as int));
            }
            let pos = self.main[i];
            let ghost before = self.entries@;
            self.entries[pos].info.on_main_chain = false;
            self.entries[pos].info.main_chain_successor = None;
            proof {
                lemma_take_step(e0, m0, path, before, self.entries@, i as int);
            }
            i += 1;
        }
    }

    /// Gives an entry its successor on the main chain.
    fn link(&mut self, at: usize, successor: Blake2bHash)
        requires
            at < old(self).entries@.len(),
        ensures
            final(self).main@ == old(self).main@,
            final(self).entries@.len() == old(self).entries@.len(),
            forall|p: int|
                0 <= p < old(self).entries@.len() && p != at ==> #[trigger] final(self).entries@[p]
                    == old(self).entries@[p],
            same_block(final(self).entries@[at as int], old(self).entries@[at as int]),
            final(self).entries@[at as int].info.on_main_chain == old(
                self,
            ).entries@[at as int].info.on_main_chain,
            final(self).entries@[at as int].info.main_chain_successor == Some(successor),
    {
        self.entries[at].info.main_chain_successor = Some(successor);
    }

    /// Marks the blocks of a fork path and links each to the one after it.
    fn mark_path(&mut self, path: &Vec<usize>, Ghost(e0): Ghost<Seq<StoreEntry>>)
        requires
            entries_ok(e0),
            is_fork_path(e0, path@),
            blocks_kept(old(self).entries@, e0),
        ensures
            final(self).main@ == old(self).main@,
            blocks_kept(final(self).entries@, e0),
            path_marked(e0, path@, final(self).entries@, 0),
            others_kept(path@, final(self).entries@, old(self).entries@, 0),
    {
        let ghost e2 = self.entries@;
        let ghost m0 = self.main@;
        let n = path.len();
        proof {
            assert(path_marked(e0, path@, e2, n as int)) by {
                reveal(path_marked);
            }
            assert(others_kept(path@, e2, e2, n as int)) by {
                reveal(others_kept);
            }
        }
        let mut j: usize = n;
        while j > 0
            invariant
                0 <= j <= n,
                n == path@.len(),
                self.main@ == m0,
                entries_ok(e0),
                is_fork_path(e0, path@),
                blocks_kept(self.entries@, e0),
                path_marked(e0, path@, self.entries@, j as int),
                others_kept(path@, self.entries@, e2, j as int),
            decreases j,
        {
            proof {
                assert(self.entries@.len() == e0.len()) by {
                    reveal(blocks_kept);
                }
                assert(0 < path@[j - 1] < e0.len());
                if j - 1 > 0 {
                    assert(0 < path@[j - 2] < e0.len());
                    assert(same_block(
                        self.entries@[path@[j - 2] as int],
                        e0[path@[j - 2] as int],
                    )) by {
                        reveal(blocks_kept);
                    }
                }
            }
            let pos = path[j - 1];
            let successor = if j - 1 > 0 {
                Some(self.entries[path[j - 2]].hash)
            } else {
                None
            };
            let ghost before = self.entries@;
            self.entries[pos].info.on_main_chain = true;
            self.entries[pos].info.main_chain_successor = successor;
            proof {
                lemma_mark_step(e0, path@, e2, before, self.entries@, j as int);
            }
            j -= 1;
        }
    }

    /// Lets the main chain end at a height and go on along a fork path.
    fn relink_main(&mut self, a: usize, path: &Vec<usize>)
        requires
            a <= old(self).main@.len(),
        ensures
            final(self).entries@ == old(self).entries@,
            final(self).main@ == old(self).main@.subrange(0, a as int) + path@.reverse(),
    {
        let ghost m0 = self.main@;
        let ghost e3 = self.entries@;
        let n = path.len();
        self.main.truncate(a);
        let mut k: usize = n;
        assert(path@.subrange(n as int, n as int).reverse() =~= Seq::<usize>::empty());
        assert(self.main@ =~= m0.subrange(0, a as int) + path@.subrange(n as int, n as int).reverse());
        while k > 0
            invariant
                0 <= k <= n,
                n == path@.len(),
                self.entries@ == e3,
                self.main@ == m0.subrange(0, a as int) + path@.subrange(k as int, n as int).reverse(),
            decreases k,
        {
            self.main.push(path[k - 1]);
            assert(self.main@ =~= m0.subrange(0, a as int) + path@.subrange(
                k - 1,
                n as int,
            ).reverse());
            k -= 1;
        }
        assert(path@.subrange(0, n as int) =~= path@);
    }

    /// Makes the first entry of a fork path the head of the main chain: the
    /// blocks of the main chain above the one at which the path leaves it
    /// lose their marks, the blocks of the path get theirs.
    pub fn adopt(&mut self, path: &Vec<usize>)
        requires
            old(self).wf(),
            is_fork_path(old(self).entries@, path@),
        ensures
            final(self).wf(),
            final(self).entries@.len() == old(self).entries@.len(),
            forall|p: int|
                0 <= p < old(self).entries@.len() ==> same_block(
                    #[trigger] final(self).entries@[p],
                    old(self).entries@[p],
                ),
            final(self).main@ == main_with(old(self).entries@, old(self).main@, path@),
    {
        let ghost e0 = self.entries@;
        let ghost m0 = self.main@;
        let n = path.len();
        let last = path[n - 1];
        proof {
            assert(0 < path@[n - 1] < e0.len());
            assert(entry_ok(e0, last as int));
        }
        let anc = self.entries[last].parent;
        let a: usize = self.entries[anc].info.head.header.height as usize;
        let first_hash = self.entries[last].hash;
        proof {
            assert(e0[anc as int].info.on_main_chain);
            assert(marked_ok(e0, m0, anc as int));
            assert(1 <= a <= m0.len());
        }
        self.take_marks(a, Ghost(path@));
        let ghost e1 = self.entries@;
        proof {
            lemma_blocks_kept_open(e1, e0);
        }
        self.link(anc, first_hash);
        let ghost e2 = self.entries@;
        proof {
            lemma_blocks_kept_after_link(e0, e1, e2, anc as int);
        }
        self.mark_path(path, Ghost(e0));
        let ghost e3 = self.entries@;
        self.relink_main(a, path);
        proof {
            lemma_adopted(e0, m0, path@, e1, e2, e3, self.main@);
            lemma_blocks_kept_open(e3, e0);
        }
    }
}

/// One more block of the main chain has lost its marks.
proof fn lemma_take_step(
    e0: Seq<StoreEntry>,
    m0: Seq<usize>,
    path: Seq<usize>,
    before: Seq<StoreEntry>,
    after: Seq<StoreEntry>,
    i: int,
)
    requires
        entries_ok(e0),
        main_ok(e0, m0),
        fork_base(e0, path) <= i < m0.len(),
        blocks_kept(before, e0),
        marks_taken(e0, path, before, i),
        after.len() == before.len(),
        m0[i] < before.len(),
        same_block(after[m0[i] as int], before[m0[i] as int]),
        !after[m0[i] as int].info.on_main_chain,
        after[m0[i] as int].info.main_chain_successor is None,
        forall|p: int| 0 <= p < before.len() && p != m0[i] ==> #[trigger] after[p] == before[p],
    ensures
        blocks_kept(after, e0),
        marks_taken(e0, path, after, i + 1),
{
    reveal(blocks_kept);
    reveal(marks_taken);
    let pos = m0[i] as int;
    assert(main_entry_ok(e0, m0, i));
    assert forall|p: int| 0 <= p < e0.len() implies same_block(#[trigger] after[p], e0[p]) by {
        assert(same_block(before[p], e0[p]));
        if p != pos {
            assert(after[p] == before[p]);
        }
    }
    assert forall|p: int| 0 <= p < e0.len() implies if e0[p].info.on_main_chain && fork_base(
        e0,
        path,
    ) < e0[p].info.head.header.height <= i + 1 {
        !(#[trigger] after[p]).info.on_main_chain && after[p].info.main_chain_successor is None
    } else {
        same_marks(after[p], e0[p])
    } by {
        if p != pos {
            assert(after[p] == before[p]);
            assert(marked_ok(e0, m0, p));
        } else {
            assert(e0[pos].info.on_main_chain);
            assert(e0[pos].info.head.header.height == i + 1);
        }
    }
}

/// One more block of the path is marked.
proof fn lemma_mark_step(
    e0: Seq<StoreEntry>,
    path: Seq<usize>,
    e2: Seq<StoreEntry>,
    before: Seq<StoreEntry>,
    after: Seq<StoreEntry>,
    j: int,
)
    requires
        entries_ok(e0),
        is_fork_path(e0, path),
        1 <= j <= path.len(),
        blocks_kept(before, e0),
        path_marked(e0, path, before, j),
        others_kept(path, before, e2, j),
        after.len() == before.len(),
        same_block(after[path[j - 1] as int], before[path[j - 1] as int]),
        after[path[j - 1] as int].info.on_main_chain,
        after[path[j - 1] as int].info.main_chain_successor == if j - 1 > 0 {
            Some(e0[path[j - 2] as int].hash)
        } else {
            None
        },
        forall|p: int| 0 <= p < before.len() && p != path[j - 1] ==> #[trigger] after[p] == before[p],
    ensures
        blocks_kept(after, e0),
        path_marked(e0, path, after, j - 1),
        others_kept(path, after, e2, j - 1),
{
    reveal(blocks_kept);
    reveal(path_marked);
    reveal(others_kept);
    lemma_path_distinct(e0, path);
    let pos = path[j - 1] as int;
    assert(0 < path[j - 1] < e0.len());
    assert forall|p: int| 0 <= p < e0.len() implies same_block(#[trigger] after[p], e0[p]) by {
        assert(same_block(before[p], e0[p]));
        if p != pos {
            assert(after[p] == before[p]);
        }
    }
    assert forall|k: int| j - 1 <= k < path.len() implies {
        &&& after[#[trigger] path[k] as int].info.on_main_chain
        &&& after[path[k] as int].info.main_chain_successor == if k > 0 {
            Some(e0[path[k - 1] as int].hash)
        } else {
            None
        }
    } by {
        if k >= j {
            assert(path[k] != path[j - 1]);
            assert(0 < path[k] < e0.len());
            assert(after[path[k] as int] == before[path[k] as int]);
        }
    }
    assert forall|p: int|
        0 <= p < after.len() && (forall|k: int| j - 1 <= k < path.len() ==> #[trigger] path[k]
            != p) implies same_marks(#[trigger] after[p], e2[p]) by {
        assert(path[j - 1] != p);
        assert(after[p] == before[p]);
        assert(forall|k: int| j <= k < path.len() ==> #[trigger] path[k] != p);
    }
}

/// The entries of a fork path stand at different positions.
pub proof fn lemma_path_distinct(e: Seq<StoreEntry>, path: Seq<usize>)
    requires
        entries_ok(e),
        is_fork_path(e, path),
    ensures
        forall|k: int, l: int| 0 <= k < l < path.len() ==> #[trigger] path[k] != #[trigger] path[l],
{
    assert forall|k: int, l: int| 0 <= k < l < path.len() implies #[trigger] path[k]
        != #[trigger] path[l] by {
        assert(e[path[k] as int].info.head.header.height + k
            == e[path[0] as int].info.head.header.height);
        assert(e[path[l] as int].info.head.header.height + l
            == e[path[0] as int].info.head.header.height);
    }
}

/// Entries that keep their blocks have the same hashes, predecessors and
/// blocks.
proof fn lemma_blocks_kept_open(e: Seq<StoreEntry>, e0: Seq<StoreEntry>)
    requires
        blocks_kept(e, e0),
    ensures
        e.len() == e0.len(),
        forall|p: int| 0 <= p < e0.len() ==> same_block(#[trigger] e[p], e0[p]),
{
    reveal(blocks_kept);
}

/// Entries keep their blocks when one of them gets another successor.
proof fn lemma_blocks_kept_after_link(
    e0: Seq<StoreEntry>,
    e1: Seq<StoreEntry>,
    e2: Seq<StoreEntry>,
    at: int,
)
    requires
        blocks_kept(e1, e0),
        e2.len() == e1.len(),
        forall|p: int| 0 <= p < e1.len() && p != at ==> #[trigger] e2[p] == e1[p],
        0 <= at < e1.len(),
        same_block(e2[at], e1[at]),
    ensures
        blocks_kept(e2, e0),
{
    reveal(blocks_kept);
    assert forall|p: int| 0 <= p < e0.len() implies same_block(#[trigger] e2[p], e0[p]) by {
        assert(same_block(e1[p], e0[p]));
        if p != at {
            assert(e2[p] == e1[p]);
        }
    }
}

/// The marks of the entries off a fork path after the path was adopted: the
/// blocks of the main chain above the common ancestor have lost theirs, the
/// ancestor has its new successor, the others have kept theirs.
#[verifier::opaque]
pub open spec fn off_path_marks(e0: Seq<StoreEntry>, path: Seq<usize>, e3: Seq<StoreEntry>) -> bool {
    forall|p: int|
        0 <= p < e0.len() && (forall|k: int| 0 <= k < path.len() ==> #[trigger] path[k] != p) ==> {
            if e0[p].info.on_main_chain && fork_base(e0, path) < e0[p].info.head.header.height {
                !(#[trigger] e3[p]).info.on_main_chain && e3[p].info.main_chain_successor is None
            } else if p == e0[path.last() as int].parent {
                e3[p].info.on_main_chain && e3[p].info.main_chain_successor == Some(
                    e0[path.last() as int].hash,
                )
            } else {
                same_marks(e3[p], e0[p])
            }
        }
}

/// What the steps of adopting a fork path leave of the marks off the path.
proof fn lemma_off_path_marks(
    e0: Seq<StoreEntry>,
    m0: Seq<usize>,
    path: Seq<usize>,
    e1: Seq<StoreEntry>,
    e2: Seq<StoreEntry>,
    e3: Seq<StoreEntry>,
)
    requires
        entries_ok(e0),
        main_ok(e0, m0),
        is_fork_path(e0, path),
        e3.len() == e0.len(),
        marks_taken(e0, path, e1, m0.len() as int),
        e2.len() == e0.len(),
        forall|p: int|
            0 <= p < e0.len() && p != e0[path.last() as int].parent ==> #[trigger] e2[p] == e1[p],
        e2[e0[path.last() as int].parent as int].info.on_main_chain
            == e1[e0[path.last() as int].parent as int].info.on_main_chain,
        e2[e0[path.last() as int].parent as int].info.main_chain_successor == Some(
            e0[path.last() as int].hash,
        ),
        others_kept(path, e3, e2, 0),
    ensures
        off_path_marks(e0, path, e3),
{
    reveal(marks_taken);
    reveal(others_kept);
    reveal(off_path_marks);
    let n = path.len() as int;
    let anc = e0[path.last() as int].parent as int;
    let a = fork_base(e0, path);
    assert(entry_ok(e0, path.last() as int));
    assert(e0[anc].info.on_main_chain);
    assert(marked_ok(e0, m0, anc));
    assert forall|p: int|
        0 <= p < e0.len() && (forall|k: int| 0 <= k < n ==> #[trigger] path[k] != p) implies {
        if e0[p].info.on_main_chain && a < e0[p].info.head.header.height {
            !(#[trigger] e3[p]).info.on_main_chain && e3[p].info.main_chain_successor is None
        } else if p == anc {
            e3[p].info.on_main_chain && e3[p].info.main_chain_successor == Some(
                e0[path.last() as int].hash,
            )
        } else {
            same_marks(e3[p], e0[p])
        }
    } by {
        assert(same_marks(e3[p], e2[p]));
        if p != anc {
            assert(e2[p] == e1[p]);
        }
        assert(marked_ok(e0, m0, p));
        assert(e0[anc].info.head.header.height == a);
    }
}

/// A store stays sound when a fork path is adopted: the entries keep their
/// blocks, the blocks of the main chain above the common ancestor lose their
/// marks (`e1`), the ancestor gets its new successor (`e2`), and the blocks of
/// the path are marked and linked (`e3`).
proof fn lemma_adopted(
    e0: Seq<StoreEntry>,
    m0: Seq<usize>,
    path: Seq<usize>,
    e1: Seq<StoreEntry>,
    e2: Seq<StoreEntry>,
    e3: Seq<StoreEntry>,
    m3: Seq<usize>,
)
    requires
        entries_ok(e0),
        main_ok(e0, m0),
        is_fork_path(e0, path),
        m3 == main_with(e0, m0, path),
        blocks_kept(e3, e0),
        marks_taken(e0, path, e1, m0.len() as int),
        e2.len() == e0.len(),
        forall|p: int|
            0 <= p < e0.len() && p != e0[path.last() as int].parent ==> #[trigger] e2[p] == e1[p],
        e2[e0[path.last() as int].parent as int].info.on_main_chain
            == e1[e0[path.last() as int].parent as int].info.on_main_chain,
        e2[e0[path.last() as int].parent as int].info.main_chain_successor == Some(
            e0[path.last() as int].hash,
        ),
        path_marked(e0, path, e3, 0),
        others_kept(path, e3, e2, 0),
    ensures
        entries_ok(e3),
        main_ok(e3, m3),
{
    lemma_blocks_kept_open(e3, e0);
    lemma_off_path_marks(e0, m0, path, e1, e2, e3);
    lemma_adopted_sound(e0, m0, path, e3, m3);
}

/// Whether `e3` and `m3` are what adopting a fork path makes of a sound
/// store.
pub open spec fn adoption(
    e0: Seq<StoreEntry>,
    m0: Seq<usize>,
    path: Seq<usize>,
    e3: Seq<StoreEntry>,
    m3: Seq<usize>,
) -> bool {
    &&& entries_ok(e0)
    &&& main_ok(e0, m0)
    &&& is_fork_path(e0, path)
    &&& m3 == main_with(e0, m0, path)
    &&& e3.len() == e0.len()
    &&& forall|p: int| 0 <= p < e0.len() ==> same_block(#[trigger] e3[p], e0[p])
    &&& path_marked(e0, path, e3, 0)
    &&& off_path_marks(e0, path, e3)
}

/// Where the new main chain runs: up to the common ancestor as before, then
/// along the path; and how high the entries of the path are.
proof fn lemma_adopted_main(
    e0: Seq<StoreEntry>,
    m0: Seq<usize>,
    path: Seq<usize>,
    e3: Seq<StoreEntry>,
    m3: Seq<usize>,
)
    requires
        adoption(e0, m0, path, e3, m3),
    ensures
        1 <= fork_base(e0, path) <= m0.len(),
        m0[fork_base(e0, path) - 1] == e0[path.last() as int].parent,
        e0[path.last() as int].parent < e0.len(),
        e0[e0[path.last() as int].parent as int].info.head.header.height == fork_base(e0, path),
        m3.len() == fork_base(e0, path) + path.len(),
        forall|i: int|
            0 <= i < m3.len() ==> #[trigger] m3[i] == if i < fork_base(e0, path) {
                m0[i]
            } else {
                path[path.len() - 1 - (i - fork_base(e0, path))]
            },
        forall|k: int|
            0 <= k < path.len() ==> e0[#[trigger] path[k] as int].info.head.header.height + k
                == fork_base(e0, path) + path.len(),
        forall|i: int, k: int|
            0 <= i < fork_base(e0, path) && 0 <= k < path.len() ==> #[trigger] m0[i]
                != #[trigger] path[k],
{
    let n = path.len() as int;
    let anc = e0[path.last() as int].parent as int;
    let a = fork_base(e0, path);
    assert(entry_ok(e0, path.last() as int));
    assert(anc < path.last());
    assert(e0[anc].info.on_main_chain);
    assert(marked_ok(e0, m0, anc));
    assert(m3.len() == a + n);
    assert forall|i: int| 0 <= i < m3.len() implies #[trigger] m3[i] == if i < a {
        m0[i]
    } else {
        path[n - 1 - (i - a)]
    } by {
        if i >= a {
            assert(m3[i] == path.reverse()[i - a]);
        }
    }
    assert(follows(e0[path.last() as int].info.head.header, e0[anc].info.head.header));
    assert(e0[path[0] as int].info.head.header.height == a + n);
    assert forall|i: int, k: int| 0 <= i < a && 0 <= k < n implies #[trigger] m0[i]
        != #[trigger] path[k] by {
        assert(main_entry_ok(e0, m0, i));
    }
}

/// The entries are sound after a fork path was adopted.
proof fn lemma_adopted_entries(
    e0: Seq<StoreEntry>,
    m0: Seq<usize>,
    path: Seq<usize>,
    e3: Seq<StoreEntry>,
    m3: Seq<usize>,
)
    requires
        adoption(e0, m0, path, e3, m3),
    ensures
        entries_ok(e3),
{
    reveal(path_marked);
    reveal(off_path_marks);
    let n = path.len() as int;
    assert forall|p: int| 0 <= p < e3.len() implies #[trigger] entry_ok(e3, p) by {
        assert(entry_ok(e0, p));
        assert(same_block(e3[p], e0[p]));
        if p > 0 {
            assert(same_block(e3[e0[p].parent as int], e0[e0[p].parent as int]));
        }
        if !e3[p].info.on_main_chain {
            if forall|k: int| 0 <= k < n ==> #[trigger] path[k] != p {
            } else {
                let k = choose|k: int| 0 <= k < n && #[trigger] path[k] == p;
                assert(e3[path[k] as int].info.on_main_chain);
            }
        }
    }
    assert forall|p: int, q: int| 0 <= p < q < e3.len() implies #[trigger] key_at(e3, p)
        != #[trigger] key_at(e3, q) by {
        assert(same_block(e3[p], e0[p]));
        assert(same_block(e3[q], e0[q]));
        assert(key_at(e0, p) != key_at(e0, q));
    }
    assert(same_block(e3[0], e0[0]));
}

/// The block at a position of the new main chain is sound.
proof fn lemma_adopted_main_entry(
    e0: Seq<StoreEntry>,
    m0: Seq<usize>,
    path: Seq<usize>,
    e3: Seq<StoreEntry>,
    m3: Seq<usize>,
    i: int,
)
    requires
        adoption(e0, m0, path, e3, m3),
        0 <= i < m3.len(),
    ensures
        main_entry_ok(e3, m3, i),
{
    lemma_adopted_main(e0, m0, path, e3, m3);
    reveal(path_marked);
    reveal(off_path_marks);
    let n = path.len() as int;
    let anc = e0[path.last() as int].parent as int;
    let a = fork_base(e0, path);
    assert(m3[i] == if i < a {
        m0[i]
    } else {
        path[n - 1 - (i - a)]
    });
    if i + 1 < m3.len() {
        assert(m3[i + 1] == if i + 1 < a {
            m0[i + 1]
        } else {
            path[n - 1 - (i + 1 - a)]
        });
    }
    if i >= 1 {
        assert(m3[i - 1] == if i - 1 < a {
            m0[i - 1]
        } else {
            path[n - 1 - (i - 1 - a)]
        });
    }
    if i < a {
        let p = m0[i] as int;
        assert(main_entry_ok(e0, m0, i));
        assert(same_block(e3[p], e0[p]));
        assert forall|k: int| 0 <= k < n implies #[trigger] path[k] != p by {
            assert(m0[i] != path[k]);
        }
        if i == a - 1 {
            assert(p == anc);
            assert(0 < path[n - 1] < e0.len());
            assert(same_block(e3[path[n - 1] as int], e0[path[n - 1] as int]));
        } else {
            assert(p != anc);
            assert(same_marks(e3[p], e0[p]));
            assert(main_entry_ok(e0, m0, i + 1));
            assert(same_block(e3[m0[i + 1] as int], e0[m0[i + 1] as int]));
        }
    } else {
        let k = n - 1 - (i - a);
        assert(0 < path[k] < e0.len());
        assert(same_block(e3[path[k] as int], e0[path[k] as int]));
        assert(e3[path[k] as int].info.on_main_chain);
        assert(e0[path[k] as int].info.head.header.height + k == a + n);
        if i > a {
            assert(e0[path[k] as int].parent == path[k + 1]);
        }
        if k > 0 {
            assert(0 < path[k - 1] < e0.len());
            assert(same_block(e3[path[k - 1] as int], e0[path[k - 1] as int]));
        }
    }
}

/// An entry that is marked after the adoption stands in the new main chain.
proof fn lemma_adopted_marked(
    e0: Seq<StoreEntry>,
    m0: Seq<usize>,
    path: Seq<usize>,
    e3: Seq<StoreEntry>,
    m3: Seq<usize>,
    p: int,
)
    requires
        adoption(e0, m0, path, e3, m3),
        0 <= p < e3.len(),
    ensures
        marked_ok(e3, m3, p),
{
    lemma_adopted_main(e0, m0, path, e3, m3);
    reveal(path_marked);
    reveal(off_path_marks);
    let n = path.len() as int;
    let a = fork_base(e0, path);
    assert(same_block(e3[p], e0[p]));
    if e3[p].info.on_main_chain {
        if forall|k: int| 0 <= k < n ==> #[trigger] path[k] != p {
            assert(marked_ok(e0, m0, p));
            assert(e0[p].info.on_main_chain);
            let h = e0[p].info.head.header.height as int;
            assert(h <= a);
            assert(m3[h - 1] == m0[h - 1]);
        } else {
            let k = choose|k: int| 0 <= k < n && #[trigger] path[k] == p;
            assert(e0[path[k] as int].info.head.header.height + k == a + n);
            assert(m3[a + n - k - 1] == path[n - 1 - (a + n - k - 1 - a)]);
        }
    }
}

/// A store is sound after a fork path was adopted.
proof fn lemma_adopted_sound(
    e0: Seq<StoreEntry>,
    m0: Seq<usize>,
    path: Seq<usize>,
    e3: Seq<StoreEntry>,
    m3: Seq<usize>,
)
    requires
        adoption(e0, m0, path, e3, m3),
    ensures
        entries_ok(e3),
        main_ok(e3, m3),
{
    lemma_adopted_entries(e0, m0, path, e3, m3);
    lemma_adopted_main(e0, m0, path, e3, m3);
    assert forall|i: int| 0 <= i < m3.len() implies #[trigger] main_entry_ok(e3, m3, i) by {
        lemma_adopted_main_entry(e0, m0, path, e3, m3, i);
    }
    assert forall|p: int| 0 <= p < e3.len() implies #[trigger] marked_ok(e3, m3, p) by {
        lemma_adopted_marked(e0, m0, path, e3, m3, p);
    }
    assert(m3[0] == m0[0]);
}

/// The blocks below the entry at a position: that of its predecessor, of the
/// predecessor's predecessor and so on, up to `count` of them.
pub open spec fn blocks_below(e: Seq<StoreEntry>, p: int, count: nat) -> Seq<int>
    decreases p,
{
    if count == 0 || p <= 0 || !(e[p].parent < p) {
        Seq::empty()
    } else {
        seq![e[p].parent as int] + blocks_below(e, e[p].parent as int, (count - 1) as nat)
    }
}

/// The positions of the blocks of the main chain above a height, up to
/// `count` of them.
pub open spec fn blocks_above(m: Seq<usize>, height: int, count: nat) -> Seq<int> {
    Seq::new(
        if height + count <= m.len() {
            count
        } else {
            (m.len() - height) as nat
        },
        |i: int| m[height + i] as int,
    )
}

/// Whether blocks are those of the entries at given positions, with their
/// bodies or without.
pub open spec fn blocks_of(
    blocks: Seq<Block>,
    e: Seq<StoreEntry>,
    positions: Seq<int>,
    include_body: bool,
) -> bool {
    &&& blocks.len() == positions.len()
    &&& forall|i: int|
        0 <= i < blocks.len() ==> (#[trigger] blocks[i])@.header
            == e[positions[i]].info.head.header && (blocks[i]@.body is Some) == include_body
}

/// Whether blocks are those next to the block with a hash in a direction, up
/// to `count` of them: below it the highest first, above it along the main
/// chain the lowest first. There are none where the hash is not known, and
/// none above a block that is not on the main chain.
pub open spec fn is_walk(
    store: ChainStore,
    start: Seq<u8>,
    count: u32,
    include_body: bool,
    direction: Direction,
    blocks: Seq<Block>,
) -> bool {
    match store.find_spec(start) {
        None => blocks.len() == 0,
        Some(p) => match direction {
            Direction::Backward => blocks_of(
                blocks,
                store.entries@,
                blocks_below(store.entries@, p, count as nat),
                include_body,
            ),
            Direction::Forward => if store.entries@[p].info.on_main_chain {
                blocks_of(
                    blocks,
                    store.entries@,
                    blocks_above(
                        store.main@,
                        store.entries@[p].info.head.header.height as int,
                        count as nat,
                    ),
                    include_body,
                )
            } else {
                blocks.len() == 0
            },
        },
    }
}

impl ChainStore {
    /// The blocks below the block with a hash, the highest first, up to
    /// `count` of them; none where the hash is not known.
    pub fn get_blocks_backward(&self, start_block_hash: &Blake2bHash, count: u32, include_body: bool) -> (blocks:
        Vec<Block>)
        requires
            self.wf(),
        ensures
            match self.find_spec(start_block_hash@) {
                None => blocks@.len() == 0,
                Some(p) => blocks@.len() == blocks_below(self.entries@, p, count as nat).len()
                    && forall|i: int|
                    0 <= i < blocks@.len() ==> (#[trigger] blocks@[i])@.header
                        == self.entries@[blocks_below(
                        self.entries@,
                        p,
                        count as nat,
                    )[i]].info.head.header && (blocks@[i]@.body is Some) == include_body,
            },
    {
        let ghost e = self.entries@;
        let mut blocks: Vec<Block> = Vec::new();
        let start = match self.find(start_block_hash) {
            None => {
                return blocks;
            },
            Some(p) => p,
        };
        proof {
            self.lemma_find(start as int, start_block_hash@);
        }
        let ghost wanted = blocks_below(e, start as int, count as nat);
        let mut cur = start;
        let mut left = count;
        while left > 0 && cur > 0
            invariant
                self.wf(),
                e == self.entries@,
                cur < e.len(),
                wanted == Seq::new(blocks@.len(), |i: int| wanted[i]) + blocks_below(
                    e,
                    cur as int,
                    left as nat,
                ),
                blocks@.len() <= wanted.len(),
                forall|i: int|
                    0 <= i < blocks@.len() ==> (#[trigger] blocks@[i])@.header
                        == e[wanted[i]].info.head.header && (blocks@[i]@.body is Some)
                        == include_body,
            decreases cur,
        {
            proof {
                assert(entry_ok(e, cur as int));
                assert(entry_ok(e, e[cur as int].parent as int));
            }
            let parent = self.entries[cur].parent;
            let ghost n = blocks@.len();
            let ghost rest = blocks_below(e, cur as int, left as nat);
            proof {
                assert(rest =~= seq![parent as int] + blocks_below(
                    e,
                    parent as int,
                    (left - 1) as nat,
                ));
                assert(wanted[n as int] == rest[0]);
            }
            blocks.push(self.block_at(parent, include_body));
            proof {
                assert(Seq::new(n, |i: int| wanted[i]) + rest =~= Seq::new(
                    blocks@.len(),
                    |i: int| wanted[i],
                ) + blocks_below(e, parent as int, (left - 1) as nat));
            }
            cur = parent;
            left -= 1;
        }
        proof {
            assert(blocks_below(e, cur as int, left as nat) =~= Seq::<int>::empty());
        }
        blocks
    }

    /// The blocks of the main chain above the block with a hash, the lowest
    /// first, up to `count` of them; none where the block is not on the main
    /// chain.
    pub fn get_blocks_forward(&self, start_block_hash: &Blake2bHash, count: u32, include_body: bool) -> (blocks:
        Vec<Block>)
        requires
            self.wf(),
        ensures
            match self.find_spec(start_block_hash@) {
                None => blocks@.len() == 0,
                Some(p) => if self.entries@[p].info.on_main_chain {
                    blocks@.len() == blocks_above(
                        self.main@,
                        self.entries@[p].info.head.header.height as int,
                        count as nat,
                    ).len() && forall|i: int|
                        0 <= i < blocks@.len() ==> (#[trigger] blocks@[i])@.header
                            == self.entries@[blocks_above(
                            self.main@,
                            self.entries@[p].info.head.header.height as int,
                            count as nat,
                        )[i]].info.head.header && (blocks@[i]@.body is Some) == include_body
                } else {
                    blocks@.len() == 0
                },
            },
    {
        let ghost e = self.entries@;
        let ghost m = self.main@;
        let mut blocks: Vec<Block> = Vec::new();
        let start = match self.find(start_block_hash) {
            None => {
                return blocks;
            },
            Some(p) => p,
        };
        proof {
            self.lemma_find(start as int, start_block_hash@);
            assert(marked_ok(e, m, start as int));
        }
        if !self.entries[start].info.on_main_chain {
            return blocks;
        }
        let height = self.entries[start].info.head.header.height as usize;
        let ghost wanted = blocks_above(m, height as int, count as nat);
        let available = self.main.len() - height;
        let n: usize = if (count as usize) < available {
            count as usize
        } else {
            available
        };
        let mut i: usize = 0;
        while i < n
            invariant
                self.wf(),
                e == self.entries@,
                m == self.main@,
                height <= m.len(),
                wanted == blocks_above(m, height as int, count as nat),
                n == wanted.len(),
                i <= n,
                blocks@.len() == i,
                forall|j: int|
                    0 <= j < i ==> (#[trigger] blocks@[j])@.header == e[wanted[j]].info.head.header
                        && (blocks@[j]@.body is Some) == include_body,
            decreases m.len() - i,
        {
            proof {
                assert(main_entry_ok(e, m, height + i));
                assert(entry_ok(e, m[height + i] as int));
            }
            blocks.push(self.block_at(self.main[height + i], include_body));
            i += 1;
        }
        blocks
    }

    /// The blocks next to the block with a hash along the main chain, in a
    /// direction.
    pub fn get_blocks(
        &self,
        start_block_hash: &Blake2bHash,
        count: u32,
        include_body: bool,
        direction: Direction,
    ) -> (blocks: Vec<Block>)
        requires
            self.wf(),
        ensures
            blocks@.len() <= count,
            is_walk(*self, start_block_hash@, count, include_body, direction, blocks@),
    {
        match direction {
            Direction::Forward => {
                proof {
                    if self.find_spec(start_block_hash@) is Some {
                        assert(marked_ok(
                            self.entries@,
                            self.main@,
                            self.find_spec(start_block_hash@)->0,
                        ));
                    }
                }
                self.get_blocks_forward(start_block_hash, count, include_body)
            },
            Direction::Backward => {
                proof {
                    if self.find_spec(start_block_hash@) is Some {
                        lemma_below_bound(
                            self.entries@,
                            self.find_spec(start_block_hash@)->0,
                            count as nat,
                        );
                    }
                }
                self.get_blocks_backward(start_block_hash, count, include_body)
            },
        }
    }

    /// The position under which a hash is stored.
    pub open spec fn find_spec(&self, hash: Seq<u8>) -> Option<int> {
        if exists|p: int| 0 <= p < self.entries@.len() && #[trigger] key_at(self.entries@, p) == hash {
            Some(
                choose|p: int| 0 <= p < self.entries@.len() && #[trigger] key_at(self.entries@, p)
                    == hash,
            )
        } else {
            None
        }
    }

    /// The position at which a hash was found is the position under which it
    /// is stored.
    pub proof fn lemma_find(&self, p: int, hash: Seq<u8>)
        requires
            self.wf(),
            0 <= p < self.entries@.len(),
            self.entries@[p].hash@ == hash,
        ensures
            self.find_spec(hash) == Some(p),
    {
        assert(key_at(self.entries@, p) == hash);
        let q = choose|q: int| 0 <= q < self.entries@.len() && #[trigger] key_at(self.entries@, q)
            == hash;
        if q < p {
            assert(key_at(self.entries@, q) != key_at(self.entries@, p));
        } else if p < q {
            assert(key_at(self.entries@, p) != key_at(self.entries@, q));
        }
    }
}

/// There are no more blocks below a block than are asked for.
pub proof fn lemma_below_bound(e: Seq<StoreEntry>, p: int, count: nat)
    ensures
        blocks_below(e, p, count).len() <= count,
    decreases p,
{
    if !(count == 0 || p <= 0 || !(e[p].parent < p)) {
        lemma_below_bound(e, e[p].parent as int, (count - 1) as nat);
    }
}

/// The main chain is a chain: each of its blocks but the first names the hash
/// of the block before it as its predecessor, is marked as on the main chain,
/// and is the one successor of the block before it; the head has none.
pub proof fn lemma_main_chain_linked(store: ChainStore, i: int)
    requires
        store.wf(),
        0 <= i < store.main@.len(),
    ensures
        store.main@[i] < store.entries@.len(),
        store.entries@[store.main@[i] as int].info.on_main_chain,
        store.entries@[store.main@[i] as int].info.head.header.height == i + 1,
        i >= 1 ==> store.entries@[store.main@[i] as int].info.head.header.prev_hash@
            == store.entries@[store.main@[i - 1] as int].hash@,
        i + 1 < store.main@.len() ==> store.entries@[store.main@[i] as int].info.main_chain_successor
            == Some(store.entries@[store.main@[i + 1] as int].hash),
        i + 1 == store.main@.len() ==> store.entries@[store.main@[i] as int].info.main_chain_successor
            is None,
        i == 0 ==> store.main@[i] == 0,
{
    let e = store.entries@;
    let m = store.main@;
    assert(main_entry_ok(e, m, i));
    assert(entry_ok(e, m[i] as int));
    if i >= 1 {
        assert(main_entry_ok(e, m, i - 1));
        assert(entry_ok(e, m[i - 1] as int));
        if m[i] == 0 {
            assert(e[0].info.head.header.height == 1);
        }
    }
}

} // verus!
