//! Block locators: hashes of blocks of the main chain, dense near the head
//! and ever sparser towards the first block, by which two nodes find the
//! last block that they share.

use vstd::prelude::*;
use crate::blockchain::Blockchain;
use crate::chain_store::main_entry_ok;
use crate::hash::Blake2bHash;

verus! {

/// For how many locators there is room: as many as are asked for, but one
/// at least, for the first block.
pub open spec fn room_for(max_count: int) -> int {
    if max_count < 1 {
        1
    } else {
        max_count
    }
}

/// How many heights next to the head are taken: the head's own and the ten
/// below it, as far as the chain goes and as there is room.
pub open spec fn near_count(height: int, room: int) -> nat {
    let most = if height < 11 {
        height
    } else {
        11
    };
    if room < most {
        room as nat
    } else {
        most as nat
    }
}

/// The heights next to the head: the head's own and those below it.
pub open spec fn near_heights(height: int, room: int) -> Seq<int> {
    Seq::new(near_count(height, room), |i: int| height - i)
}

/// The heights further down: from a height on downwards in steps that double
/// each time, until the chain ends or there are as many locators as asked for.
pub open spec fn far_heights(height: int, step: int, have: int, max_count: int) -> Seq<int>
    decreases height,
{
    if height < 1 || step < 1 {
        Seq::empty()
    } else if have + 1 >= max_count || height <= 2 * step {
        seq![height]
    } else {
        seq![height] + far_heights(height - 2 * step, 2 * step, have + 1, max_count)
    }
}

/// The far heights of a chain after its near ones: none where the near ones
/// have taken all the room.
pub open spec fn far_part(height: int, have: int, room: int) -> Seq<int> {
    if have >= room {
        Seq::empty()
    } else {
        far_heights(height - 12, 2, have, room)
    }
}

/// The heights of the locators of a chain: the near ones, then the far ones,
/// then that of the first block; where there are as many as asked for
/// already, the first block takes the place of the last of them. There are
/// never more than are asked for, but one at least.
pub open spec fn locator_heights(height: int, max_count: int) -> Seq<int> {
    let room = room_for(max_count);
    let near = near_heights(height, room);
    let all = near + far_part(height, near.len() as int, room);
    if all.last() == 1 {
        all
    } else if all.len() >= room {
        all.drop_last().push(1)
    } else {
        all.push(1)
    }
}

/// The heights of a list as numbers.
pub open spec fn as_ints(heights: Seq<usize>) -> Seq<int> {
    Seq::new(heights.len(), |j: int| heights[j] as int)
}

/// The heights of the locators of a chain of a height.
pub fn locator_height_list(height: usize, max_count: usize) -> (heights: Vec<usize>)
    requires
        height >= 1,
    ensures
        as_ints(heights@) == locator_heights(height as int, max_count as int),
{
    let room: usize = if max_count < 1 {
        1
    } else {
        max_count
    };
    let ghost near = near_heights(height as int, room as int);
    let mut heights: Vec<usize> = Vec::new();
    let most: usize = if height < 11 {
        height
    } else {
        11
    };
    let count: usize = if room < most {
        room
    } else {
        most
    };
    let mut i: usize = 0;
    while i < count
        invariant
            i <= count,
            near == near_heights(height as int, room as int),
            count == near.len(),
            count <= height,
            heights@.len() == i,
            forall|j: int| 0 <= j < i ==> heights@[j] == near[j],
        decreases count - i,
    {
        heights.push(height - i);
        i += 1;
    }
    assert(as_ints(heights@) =~= near);
    let ghost far = far_part(height as int, near.len() as int, room as int);
    if height > 12 && heights.len() < room {
        let mut step: usize = 2;
        let mut at: usize = height - 12;
        loop
            invariant_except_break
                near + far == as_ints(heights@) + far_heights(
                    at as int,
                    step as int,
                    heights@.len() as int,
                    room as int,
                ),
            invariant
                1 <= at <= height - 12,
                1 <= step <= height,
            ensures
                near + far == as_ints(heights@),
            decreases at,
        {
            let ghost before = heights@;
            heights.push(at);
            proof {
                assert(as_ints(heights@) =~= as_ints(before).push(at as int));
                let rest = far_heights(
                    at as int,
                    step as int,
                    before.len() as int,
                    room as int,
                );
                if before.len() + 1 >= room || at <= 2 * step {
                    assert(rest =~= seq![at as int]);
                    assert(as_ints(before) + rest =~= as_ints(heights@));
                } else {
                    let next = far_heights(
                        at - 2 * step,
                        2 * step,
                        (before.len() + 1) as int,
                        room as int,
                    );
                    assert(rest =~= seq![at as int] + next);
                    assert(as_ints(before) + rest =~= as_ints(heights@) + next);
                }
            }
            // Respect max count.
            if heights.len() >= room {
                break;
            }
            if at <= step || at - step <= step {
                // 0 or underflow means we need to end the loop
                break;
            }
            step = 2 * step;
            at = at - step;
        }
    } else {
        assert(far =~= Seq::<int>::empty());
        assert(near + far =~= as_ints(heights@));
    }
    // Push the genesis block height.
    let ghost all = as_ints(heights@);
    assert(all.last() == heights@.last());
    if heights[heights.len() - 1] != 1 {
        // Respect max count, make space for the first block if necessary
        if heights.len() >= room {
            heights.pop();
            heights.push(1);
            assert(as_ints(heights@) =~= all.drop_last().push(1));
        } else {
            heights.push(1);
            assert(as_ints(heights@) =~= all.push(1));
        }
    }
    heights
}

impl Blockchain {
    /// The locators of the main chain, the head's hash first: the hashes of
    /// the blocks at the locator heights.
    pub fn get_block_locators(&self, max_count: usize) -> (locators: Vec<Blake2bHash>)
        requires
            self.wf(),
        ensures
            locators@.len() == locator_heights(self.spec_height() as int, max_count as int).len(),
            forall|i: int|
                0 <= i < locators@.len() ==> 1 <= locator_heights(
                    self.spec_height() as int,
                    max_count as int,
                )[i] <= self.spec_height() && #[trigger] locators@[i]
                    == self.chain_store.entries@[self.chain_store.main@[locator_heights(
                    self.spec_height() as int,
                    max_count as int,
                )[i] - 1] as int].hash,
            locators@.len() >= 1,
            locators@.last() == self.genesis_hash,
            locators@[0] == self.head_hash || locators@.len() == 1,
            max_count >= 1 ==> locators@.len() <= max_count,
    {
        let ghost e = self.chain_store.entries@;
        let ghost m = self.chain_store.main@;
        let height: usize = self.chain_store.main.len();
        let heights = locator_height_list(height, max_count);
        let ghost wanted = locator_heights(height as int, max_count as int);
        proof {
            lemma_locators(height as int, max_count as int);
            assert forall|j: int| 0 <= j < heights@.len() implies 1 <= #[trigger] heights@[j]
                <= height by {
                assert(as_ints(heights@)[j] == wanted[j]);
            }
        }
        let mut locators: Vec<Blake2bHash> = Vec::new();
        let mut k: usize = 0;
        while k < heights.len()
            invariant
                k <= heights@.len(),
                self.wf(),
                e == self.chain_store.entries@,
                m == self.chain_store.main@,
                height == m.len(),
                locators@.len() == k,
                forall|j: int| 0 <= j < heights@.len() ==> 1 <= #[trigger] heights@[j] <= height,
                forall|j: int|
                    0 <= j < k ==> #[trigger] locators@[j] == e[m[heights@[j] - 1] as int].hash,
            decreases heights@.len() - k,
        {
            proof {
                assert(1 <= heights@[k as int] <= height);
                assert(main_entry_ok(e, m, heights@[k as int] - 1));
            }
            locators.push(self.chain_store.entries[self.chain_store.main[heights[k] - 1]].hash);
            k += 1;
        }
        proof {
            assert(main_entry_ok(e, m, 0));
            assert(main_entry_ok(e, m, m.len() - 1));
            assert forall|i: int| 0 <= i < locators@.len() implies #[trigger] locators@[i]
                == e[m[wanted[i] - 1] as int].hash by {
                assert(as_ints(heights@)[i] == wanted[i]);
            }
            assert(as_ints(heights@)[heights@.len() - 1] == wanted.last());
            assert(as_ints(heights@)[0] == wanted[0]);
        }
        locators
    }
}

/// The far heights are at least one and at most the height they start at,
/// go strictly down, and are no more than are asked for, but one at least
/// where the chain goes that far.
pub proof fn lemma_far(height: int, step: int, have: int, max_count: int)
    ensures
        forall|i: int|
            0 <= i < far_heights(height, step, have, max_count).len() ==> 1 <= #[trigger] far_heights(
                height,
                step,
                have,
                max_count,
            )[i] <= height,
        forall|i: int, j: int|
            0 <= i < j < far_heights(height, step, have, max_count).len() ==> #[trigger] far_heights(
                height,
                step,
                have,
                max_count,
            )[i] > #[trigger] far_heights(height, step, have, max_count)[j],
        far_heights(height, step, have, max_count).len() <= 1 || have + far_heights(
            height,
            step,
            have,
            max_count,
        ).len() <= max_count,
    decreases height,
{
    let far = far_heights(height, step, have, max_count);
    if height < 1 || step < 1 {
    } else if have + 1 >= max_count || height <= 2 * step {
    } else {
        lemma_far(height - 2 * step, 2 * step, have + 1, max_count);
        let rest = far_heights(height - 2 * step, 2 * step, have + 1, max_count);
        assert(far =~= seq![height] + rest);
        assert forall|i: int| 0 <= i < far.len() implies 1 <= #[trigger] far[i] <= height by {
            if i > 0 {
                assert(far[i] == rest[i - 1]);
            }
        }
        assert forall|i: int, j: int| 0 <= i < j < far.len() implies #[trigger] far[i]
            > #[trigger] far[j] by {
            assert(far[j] == rest[j - 1]);
            if i > 0 {
                assert(far[i] == rest[i - 1]);
            }
        }
    }
}

/// The heights of the locators start with the head's, go strictly down, end
/// with one, and are no more than are asked for.
pub proof fn lemma_locators(height: int, max_count: int)
    requires
        height >= 1,
    ensures
        locator_heights(height, max_count).len() >= 1,
        locator_heights(height, max_count).last() == 1,
        locator_heights(height, max_count)[0] == height || locator_heights(height, max_count).len()
            == 1,
        forall|i: int|
            0 <= i < locator_heights(height, max_count).len() ==> 1 <= #[trigger] locator_heights(
                height,
                max_count,
            )[i] <= height,
        forall|i: int, j: int|
            0 <= i < j < locator_heights(height, max_count).len() ==> #[trigger] locator_heights(
                height,
                max_count,
            )[i] > #[trigger] locator_heights(height, max_count)[j],
        max_count >= 1 ==> locator_heights(height, max_count).len() <= max_count,
{
    let room = room_for(max_count);
    let near = near_heights(height, room);
    let far = far_part(height, near.len() as int, room);
    let all = near + far;
    lemma_far(height - 12, 2, near.len() as int, room);
    assert forall|i: int| 0 <= i < all.len() implies 1 <= #[trigger] all[i] <= height by {
        if i >= near.len() {
            assert(all[i] == far[i - near.len()]);
        }
    }
    assert forall|i: int, j: int| 0 <= i < j < all.len() implies #[trigger] all[i]
        > #[trigger] all[j] by {
        if j >= near.len() {
            assert(all[j] == far[j - near.len()]);
            if i >= near.len() {
                assert(all[i] == far[i - near.len()]);
            }
        }
    }
    let wanted = locator_heights(height, max_count);
    assert(all[0] == height);
    if all.last() == 1 {
    } else if all.len() >= room {
        assert forall|i: int, j: int| 0 <= i < j < wanted.len() implies #[trigger] wanted[i]
            > #[trigger] wanted[j] by {
            assert(wanted[i] == all[i]);
            assert(all[i] > all[all.len() - 1]);
            if j < wanted.len() - 1 {
                assert(wanted[j] == all[j]);
            }
        }
    } else {
        assert forall|i: int, j: int| 0 <= i < j < wanted.len() implies #[trigger] wanted[i]
            > #[trigger] wanted[j] by {
            assert(wanted[i] == all[i]);
            if j < wanted.len() - 1 {
                assert(wanted[j] == all[j]);
            } else {
                if i < all.len() - 1 {
                    assert(all[i] > all[all.len() - 1]);
                }
            }
        }
    }
}

} // verus!
