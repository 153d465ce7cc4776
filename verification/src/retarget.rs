//! The target that the next block has to meet, from the time and the
//! difficulty of the blocks before it.

use vstd::prelude::*;
use vstd::arithmetic::power::pow;
use crate::bigint::{is_normal, lemma_value_lower, BigNat};
use crate::blockchain::Blockchain;
use crate::bytes::be_value;
use crate::chain_store::{entries_ok, entry_ok, key_at, main_entry_ok, main_ok, marked_ok, StoreEntry};
use crate::hash::Blake2bHash;
use crate::policy::{BLOCK_TIME, DIFFICULTY_BLOCK_WINDOW, DIFFICULTY_MAX_ADJUSTMENT_FACTOR};
use crate::target::{compact_expand, compact_fits, compact_of, lemma_first_nonzero_bound, target_max, Target, TargetCompact, DIFFICULTY_SCALE};

verus! {

/// The position of the predecessor, of its predecessor and so on, of the entry
/// at a position, down to the first that is not above a height.
#[verifier::opaque]
pub open spec fn ancestor_at(e: Seq<StoreEntry>, p: int, height: int) -> int
    decreases p,
{
    if p <= 0 || e[p].info.head.header.height <= height || !(e[p].parent < p) {
        p
    } else {
        ancestor_at(e, e[p].parent as int, height)
    }
}

/// The height of the block at which the window of the adjustment starts:
/// the window's length below the head, but not below the first block.
pub open spec fn tail_height(height: u32) -> int {
    if height > DIFFICULTY_BLOCK_WINDOW + 1 {
        height - DIFFICULTY_BLOCK_WINDOW
    } else {
        1
    }
}

/// The time that the window is meant to take, in seconds.
pub open spec fn expected_time() -> int {
    DIFFICULTY_BLOCK_WINDOW * BLOCK_TIME
}

/// The blocks that a head at a height lacks to fill the window; each counts
/// as one block of difficulty one, which is `DIFFICULTY_SCALE` parts, that
/// took the block time.
pub open spec fn missing_blocks(height: u32) -> int {
    if height <= DIFFICULTY_BLOCK_WINDOW {
        DIFFICULTY_BLOCK_WINDOW - height + 1
    } else {
        0
    }
}

/// The time that counts for the adjustment: the time taken, but at least the
/// expected time divided by the greatest factor and at most the expected time
/// multiplied with it.
pub open spec fn clamped_time(elapsed: int) -> int {
    if elapsed < expected_time() / (DIFFICULTY_MAX_ADJUSTMENT_FACTOR as int) {
        expected_time() / (DIFFICULTY_MAX_ADJUSTMENT_FACTOR as int)
    } else if elapsed > expected_time() * DIFFICULTY_MAX_ADJUSTMENT_FACTOR {
        expected_time() * DIFFICULTY_MAX_ADJUSTMENT_FACTOR
    } else {
        elapsed
    }
}

/// The next target as a number: the easiest target divided by the average
/// difficulty of the window and multiplied with the ratio of the time that
/// counts to the expected time, rounded down once; at least one and at most
/// the easiest target, which also stands where the window has no difficulty.
/// The difficulty of the window is counted in parts of `DIFFICULTY_SCALE`.
pub open spec fn next_target_value(difficulty: nat, elapsed: int) -> nat {
    if difficulty == 0 {
        target_max()
    } else {
        let value = (target_max() * (DIFFICULTY_SCALE as int * DIFFICULTY_BLOCK_WINDOW as int
            * clamped_time(elapsed)) as nat) / (difficulty * expected_time() as nat);
        if value > target_max() {
            target_max()
        } else if value < 1 {
            1
        } else {
            value
        }
    }
}

/// The 32 bytes that stand for a number below 256 to the 32.
pub open spec fn target_bytes(value: nat) -> Seq<u8> {
    choose|b: Seq<u8>| b.len() == 32 && be_value(b) == value
}

/// The compact form of the next target.
pub open spec fn rounded_compact(value: nat) -> u32 {
    compact_of(target_bytes(value))
}

/// The next target with the precision of the compact form.
pub open spec fn rounded_target(value: nat) -> Seq<u8> {
    compact_expand(rounded_compact(value))
}

/// The window's difficulty and time for the successor of the entry at a
/// position.
pub open spec fn window_value(e: Seq<StoreEntry>, p: int) -> nat {
    let head = e[p].info;
    let tail = e[ancestor_at(e, p, tail_height(head.head.header.height))].info;
    next_target_value(
        (head.total_difficulty@ - tail.total_difficulty@ + missing_blocks(
            head.head.header.height,
        ) * DIFFICULTY_SCALE as int) as nat,
        head.head.header.timestamp - tail.head.header.timestamp + missing_blocks(
            head.head.header.height,
        ) * BLOCK_TIME,
    )
}

/// The compact target that the successor of the entry at a position has to
/// name.
pub open spec fn next_compact(e: Seq<StoreEntry>, p: int) -> u32 {
    rounded_compact(window_value(e, p))
}

/// The target for the block that follows on the entry at a position.
pub open spec fn next_target(e: Seq<StoreEntry>, p: int) -> Seq<u8> {
    compact_expand(next_compact(e, p))
}

/// The compact target that fits a window's difficulty, in parts of
/// `DIFFICULTY_SCALE`, and its time in seconds.
pub fn compute_next_compact(difficulty: &BigNat, elapsed: u64) -> (c: TargetCompact)
    requires
        elapsed <= 0xFFFF_FFFF_FFFF,
    ensures
        c.0 == rounded_compact(next_target_value(difficulty@, elapsed as int)),
        compact_fits(c.0),
{
    let expected: u64 = (DIFFICULTY_BLOCK_WINDOW * BLOCK_TIME) as u64;
    let factor: u64 = DIFFICULTY_MAX_ADJUSTMENT_FACTOR as u64;
    // Clamp the time to [expected / factor, expected * factor].
    let time: u64 = if elapsed < expected / factor {
        expected / factor
    } else if elapsed > expected * factor {
        expected * factor
    } else {
        elapsed
    };
    assert(time == clamped_time(elapsed as int));
    let max = Target::max();
    let max_value = BigNat::from_be_bytes(max.bytes.as_slice());
    // Compute the next target.
    let target = if difficulty.is_zero() {
        max
    } else {
        let numerator = max_value.times(
            &BigNat::from_u64(DIFFICULTY_SCALE * (DIFFICULTY_BLOCK_WINDOW as u64) * time),
        );
        let denominator = difficulty.times(&BigNat::from_u64(expected));
        assert(denominator@ > 0) by (nonlinear_arith)
            requires
                denominator@ == difficulty@ * expected as nat,
                difficulty@ > 0,
                expected == 7200,
        ;
        let quotient = numerator.divided_by(&denominator);
        // Make sure the target is below or equal the maximum allowed target (difficulty 1).
        // Also enforce a minimum target of 1.
        if max_value.less_than(&quotient) {
            max
        } else if quotient.is_zero() {
            let mut bytes = [0u8; 32];
            bytes[31] = 1;
            let one = Target { bytes };
            proof {
                lemma_one(one@);
            }
            one
        } else {
            proof {
                lemma_fits(quotient.digits@);
            }
            match Target::from_digits(quotient.digits.as_slice()) {
                Some(t) => t,
                None => max,
            }
        }
    };
    proof {
        let value = next_target_value(difficulty@, elapsed as int);
        vstd::arithmetic::power::lemma_pow_positive(256, 30);
        assert(be_value(target@) == value);
        assert(value <= target_max());
        lemma_target_bytes(target@, value);
        lemma_small_target(target@);
    }
    // Reduce the target's precision to that of the compact form.
    let n_bits = target.to_compact();
    proof {
        lemma_first_nonzero_bound(target@);
    }
    n_bits
}

/// The target that fits a window's difficulty, in parts of
/// `DIFFICULTY_SCALE`, and its time in seconds.
pub fn compute_next_target(difficulty: &BigNat, elapsed: u64) -> (t: Target)
    requires
        elapsed <= 0xFFFF_FFFF_FFFF,
    ensures
        t@ == rounded_target(next_target_value(difficulty@, elapsed as int)),
{
    Target::from_compact(compute_next_compact(difficulty, elapsed))
}

impl Blockchain {
    /// The target for the block that follows on the block stored under a
    /// hash, or on the head of the main chain.
    pub fn get_next_target(&self, head_hash: Option<&Blake2bHash>) -> (t: Target)
        requires
            self.wf(),
            head_hash is Some ==> exists|p: int|
                0 <= p < self.chain_store.entries@.len() && key_at(self.chain_store.entries@, p)
                    == head_hash->0@,
        ensures
            exists|p: int|
                0 <= p < self.chain_store.entries@.len() && #[trigger] key_at(
                    self.chain_store.entries@,
                    p,
                ) == (match head_hash {
                    Some(h) => h@,
                    None => self.head_hash@,
                }) && t@ == next_target(self.chain_store.entries@, p),
    {
        let p = match head_hash {
            Some(hash) => match self.chain_store.find(hash) {
                Some(p) => p,
                None => {
                    proof {
                        let q = choose|q: int|
                            0 <= q < self.chain_store.entries@.len() && key_at(
                                self.chain_store.entries@,
                                q,
                            ) == hash@;
                        assert(self.chain_store.entries@[q].hash@ == hash@);
                    }
                    0
                },
            },
            None => {
                assert(main_entry_ok(
                    self.chain_store.entries@,
                    self.chain_store.main@,
                    self.chain_store.main@.len() - 1,
                ));
                self.chain_store.main[self.chain_store.main.len() - 1]
            },
        };
        let t = self.next_target_at(p);
        assert(key_at(self.chain_store.entries@, p as int) == (match head_hash {
            Some(h) => h@,
            None => self.head_hash@,
        }));
        t
    }

    /// The position of the block at which the window of the adjustment for
    /// the successor of an entry starts.
    #[verifier::rlimit(40)]
    pub fn tail_position(&self, p: usize) -> (tail: usize)
        requires
            self.chain_store.wf(),
            p < self.chain_store.entries@.len(),
        ensures
            tail == ancestor_at(
                self.chain_store.entries@,
                p as int,
                tail_height(self.chain_store.entries@[p as int].info.head.header.height),
            ),
            tail < self.chain_store.entries@.len(),
            self.chain_store.entries@[tail as int].info.head.header.timestamp
                <= self.chain_store.entries@[p as int].info.head.header.timestamp,
            self.chain_store.entries@[tail as int].info.total_difficulty@
                <= self.chain_store.entries@[p as int].info.total_difficulty@,
    {
        let ghost e = self.chain_store.entries@;
        let ghost m = self.chain_store.main@;
        let head = &self.chain_store.entries[p].info;
        let height = head.head.header.height;
        let tail_at: u32 = if height > DIFFICULTY_BLOCK_WINDOW + 1 {
            height - DIFFICULTY_BLOCK_WINDOW
        } else {
            1
        };
        proof {
            lemma_ancestor(e, p as int, tail_at as int);
            lemma_ancestor_monotone(e, p as int, tail_at as int);
            assert(main_entry_ok(e, m, 0));
        }
        if head.on_main_chain {
            proof {
                lemma_main_position(e, m, p as int);
                lemma_main_ancestor(e, m, height - 1, tail_at as int);
                assert(main_entry_ok(e, m, tail_at - 1));
            }
            return self.chain_store.main[(tail_at - 1) as usize];
        }
        proof {
            assert(p > 0);
            assert(entry_ok(e, p as int));
            lemma_height(e, p as int);
        }
        let mut cur: usize = self.chain_store.entries[p].parent;
        let mut steps: u32 = 1;
        while steps < DIFFICULTY_BLOCK_WINDOW && !self.chain_store.entries[cur].info.on_main_chain
            invariant
                entries_ok(e),
                e[0].info.on_main_chain,
                e == self.chain_store.entries@,
                p < e.len(),
                cur < e.len(),
                1 <= steps <= DIFFICULTY_BLOCK_WINDOW,
                height == e[p as int].info.head.header.height,
                tail_at == tail_height(height),
                e[cur as int].info.head.header.height + steps == height,
                ancestor_at(e, p as int, tail_at as int) == ancestor_at(
                    e,
                    cur as int,
                    tail_at as int,
                ),
            decreases DIFFICULTY_BLOCK_WINDOW - steps,
        {
            proof {
                assert(cur > 0);
                assert(entry_ok(e, cur as int));
                lemma_ancestor(e, cur as int, tail_at as int);
                lemma_height(e, cur as int);
            }
            cur = self.chain_store.entries[cur].parent;
            steps += 1;
        }
        proof {
            lemma_ancestor(e, cur as int, tail_at as int);
            lemma_height(e, cur as int);
        }
        if self.chain_store.entries[cur].info.on_main_chain
            && self.chain_store.entries[cur].info.head.header.height > tail_at {
            proof {
                let h = e[cur as int].info.head.header.height;
                lemma_main_position(e, m, cur as int);
                lemma_main_ancestor(e, m, h - 1, tail_at as int);
                assert(main_entry_ok(e, m, tail_at - 1));
            }
            self.chain_store.main[(tail_at - 1) as usize]
        } else {
            cur
        }
    }

    /// The target for the block that follows on the entry at a position.
    pub fn next_target_at(&self, p: usize) -> (t: Target)
        requires
            self.chain_store.wf(),
            p < self.chain_store.entries@.len(),
        ensures
            t@ == next_target(self.chain_store.entries@, p as int),
    {
        Target::from_compact(self.next_compact_at(p))
    }

    /// The compact target that the successor of the entry at a position has
    /// to name.
    pub fn next_compact_at(&self, p: usize) -> (c: TargetCompact)
        requires
            self.chain_store.wf(),
            p < self.chain_store.entries@.len(),
        ensures
            c.0 == next_compact(self.chain_store.entries@, p as int),
            compact_fits(c.0),
    {
        let tail = self.tail_position(p);
        let head_info = &self.chain_store.entries[p].info;
        let tail_info = &self.chain_store.entries[tail].info;
        let height = head_info.head.header.height;
        let mut difficulty = head_info.total_difficulty.value.minus(
            &tail_info.total_difficulty.value,
        );
        let mut elapsed: u64 = (head_info.head.header.timestamp
            - tail_info.head.header.timestamp) as u64;
        // Simulate that the block time was achieved for the blocks before the genesis
        // block, i.e. we simulate a sliding window that starts before the genesis block.
        // Assume difficulty = 1 for these blocks.
        if height <= DIFFICULTY_BLOCK_WINDOW {
            let missing: u64 = (DIFFICULTY_BLOCK_WINDOW - height + 1) as u64;
            elapsed = elapsed + missing * (BLOCK_TIME as u64);
            difficulty = difficulty.plus(&BigNat::from_u64(missing * DIFFICULTY_SCALE));
        }
        compute_next_compact(&difficulty, elapsed)
    }
}

/// The next target depends on nothing but the stored chain: two chains with
/// the same stored blocks ask the same target of the successor of a block.
pub proof fn lemma_next_target_deterministic(a: Blockchain, b: Blockchain, p: int)
    requires
        a.chain_store.entries@ == b.chain_store.entries@,
    ensures
        next_target(a.chain_store.entries@, p) == next_target(b.chain_store.entries@, p),
        next_compact(a.chain_store.entries@, p) == next_compact(b.chain_store.entries@, p),
{
}

/// The next target as a number is at least one and at most the easiest
/// target, whatever the difficulty and the time of the window.
pub proof fn lemma_next_target_bounds(difficulty: nat, elapsed: int)
    ensures
        1 <= next_target_value(difficulty, elapsed) <= target_max(),
{
    vstd::arithmetic::power::lemma_pow_positive(256, 30);
}

/// The 32 bytes that end in a one stand for one.
proof fn lemma_one(s: Seq<u8>)
    requires
        s.len() == 32,
        forall|i: int| 0 <= i < 31 ==> s[i] == 0,
        s[31] == 1,
    ensures
        be_value(s) == 1,
{
    assert(s.drop_last() =~= Seq::new(31, |i: int| 0u8));
    crate::bigint::lemma_zeros_value(31);
}

/// A number of at most 256 to the 30, written without leading zeros, has at
/// most 32 bytes.
proof fn lemma_fits(digits: Seq<u8>)
    requires
        is_normal(digits),
        be_value(digits) <= target_max(),
    ensures
        digits.len() <= 32,
{
    if digits.len() > 32 {
        lemma_value_lower(digits);
        vstd::arithmetic::power::lemma_pow_positive(256, 30);
        vstd::arithmetic::power::lemma_pow_strictly_increases(256, 30, 31);
        vstd::arithmetic::power::lemma_pow_increases(256, 31, (digits.len() - 1) as nat);
        assert(pow(256, 30) < pow(256, 31) <= pow(256, (digits.len() - 1) as nat));
    }
}

/// A target of at most 256 to the 30 starts with a zero byte.
proof fn lemma_small_target(s: Seq<u8>)
    requires
        s.len() == 32,
        be_value(s) <= target_max(),
    ensures
        s[0] == 0,
{
    if s[0] != 0 {
        lemma_value_lower(s);
        vstd::arithmetic::power::lemma_pow_positive(256, 30);
        vstd::arithmetic::power::lemma_pow_strictly_increases(256, 30, 31);
        assert(pow(256, 30) < pow(256, 31));
    }
}

/// Two byte strings of one length that stand for the same number are the same.
pub proof fn lemma_be_value_injective(a: Seq<u8>, b: Seq<u8>)
    requires
        a.len() == b.len(),
        be_value(a) == be_value(b),
    ensures
        a == b,
    decreases a.len(),
{
    if a.len() > 0 {
        let x = be_value(a.drop_last());
        let y = be_value(b.drop_last());
        assert(x * 256 + a.last() == y * 256 + b.last());
        assert(x == y && a.last() == b.last());
        lemma_be_value_injective(a.drop_last(), b.drop_last());
        assert(a =~= a.drop_last().push(a.last()));
        assert(b =~= b.drop_last().push(b.last()));
    } else {
        assert(a =~= b);
    }
}

/// The 32 bytes with a value are the bytes of that value.
proof fn lemma_target_bytes(s: Seq<u8>, value: nat)
    requires
        s.len() == 32,
        be_value(s) == value,
    ensures
        target_bytes(value) == s,
{
    lemma_be_value_injective(s, target_bytes(value));
}

/// An entry that is marked stands in the main chain at its height.
proof fn lemma_main_position(e: Seq<StoreEntry>, m: Seq<usize>, p: int)
    requires
        main_ok(e, m),
        0 <= p < e.len(),
        e[p].info.on_main_chain,
    ensures
        1 <= e[p].info.head.header.height <= m.len(),
        m[e[p].info.head.header.height - 1] == p,
{
    assert(marked_ok(e, m, p));
}

/// Every entry but the first has a height of at least two.
pub proof fn lemma_height(e: Seq<StoreEntry>, p: int)
    requires
        entries_ok(e),
        0 <= p < e.len(),
    ensures
        e[p].info.head.header.height >= 1,
        p > 0 ==> e[p].info.head.header.height >= 2,
    decreases p,
{
    assert(entry_ok(e, p));
    if p > 0 {
        lemma_height(e, e[p].parent as int);
    }
}

/// The search for an ancestor goes on from the predecessor.
proof fn lemma_ancestor(e: Seq<StoreEntry>, p: int, height: int)
    requires
        entries_ok(e),
        0 <= p < e.len(),
    ensures
        p == 0 || e[p].info.head.header.height <= height ==> ancestor_at(e, p, height) == p,
        p > 0 && e[p].info.head.header.height > height ==> ancestor_at(e, p, height)
            == ancestor_at(e, e[p].parent as int, height),
{
    reveal_with_fuel(ancestor_at, 2);
    assert(entry_ok(e, p));
}

/// On the main chain the ancestor at a height is the block at that height.
proof fn lemma_main_ancestor(e: Seq<StoreEntry>, m: Seq<usize>, i: int, height: int)
    requires
        entries_ok(e),
        main_ok(e, m),
        0 <= i < m.len(),
        1 <= height <= i + 1,
    ensures
        ancestor_at(e, m[i] as int, height) == m[height - 1],
    decreases i,
{
    assert(main_entry_ok(e, m, i));
    lemma_ancestor(e, m[i] as int, height);
    if i + 1 > height {
        assert(main_entry_ok(e, m, i - 1));
        if m[i] == 0 {
            assert(e[0].info.head.header.height == 1);
        }
        lemma_main_ancestor(e, m, i - 1, height);
    }
}

/// An ancestor is neither later nor of a higher total difficulty than its
/// descendant.
proof fn lemma_ancestor_monotone(e: Seq<StoreEntry>, p: int, height: int)
    requires
        entries_ok(e),
        0 <= p < e.len(),
    ensures
        0 <= ancestor_at(e, p, height) <= p,
        e[ancestor_at(e, p, height)].info.head.header.timestamp <= e[p].info.head.header.timestamp,
        e[ancestor_at(e, p, height)].info.total_difficulty@ <= e[p].info.total_difficulty@,
    decreases p,
{
    lemma_ancestor(e, p, height);
    assert(entry_ok(e, p));
    if p > 0 && e[p].info.head.header.height > height {
        lemma_ancestor_monotone(e, e[p].parent as int, height);
    }
}

} // verus!
