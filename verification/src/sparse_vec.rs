//! A vector whose entries keep their positions: a removed entry leaves a gap
//! that a later entry fills.

use vstd::prelude::*;

verus! {

/// A vector with gaps. `free_indices` holds the positions of the gaps, the
/// one that has been free the longest first.
#[derive(Debug)]
pub struct SparseVec<T> {
    pub inner: Vec<Option<T>>,
    pub free_indices: Vec<usize>,
}

impl<T> SparseVec<T> {
    /// Whether the gaps are just the positions that `free_indices` holds,
    /// each once.
    pub open spec fn wf(&self) -> bool {
        &&& forall|k: int|
            0 <= k < self.free_indices@.len() ==> (#[trigger] self.free_indices@[k])
                < self.inner@.len() && self.inner@[self.free_indices@[k] as int] is None
        &&& forall|k: int, l: int|
            0 <= k < l < self.free_indices@.len() ==> #[trigger] self.free_indices@[k]
                != #[trigger] self.free_indices@[l]
        &&& forall|i: int|
            0 <= i < self.inner@.len() && (#[trigger] self.inner@[i]) is None
                ==> self.free_indices@.contains(i as usize)
    }

    /// The entry at a position, if there is one.
    pub open spec fn entry(&self, index: int) -> Option<T> {
        if 0 <= index < self.inner@.len() {
            self.inner@[index]
        } else {
            None
        }
    }

    /// The position that the next entry goes to.
    pub open spec fn next_index(&self) -> int {
        if self.free_indices@.len() > 0 {
            self.free_indices@[0] as int
        } else {
            self.inner@.len() as int
        }
    }

    /// A vector without entries.
    pub fn new() -> (r: Self)
        ensures
            r.wf(),
            r.inner@.len() == 0,
            r.free_indices@.len() == 0,
    {
        SparseVec { inner: Vec::new(), free_indices: Vec::new() }
    }

    /// A vector without entries, with room for some.
    pub fn with_capacity(capacity: usize) -> (r: Self)
        ensures
            r.wf(),
            r.inner@.len() == 0,
            r.free_indices@.len() == 0,
    {
        SparseVec { inner: Vec::with_capacity(capacity), free_indices: Vec::new() }
    }

    /// The entry at a position.
    pub fn get(&self, index: usize) -> (r: Option<&T>)
        ensures
            match r {
                Some(value) => self.entry(index as int) == Some(*value),
                None => self.entry(index as int) is None,
            },
    {
        if index < self.inner.len() {
            self.inner[index].as_ref()
        } else {
            None
        }
    }

    /// The entry at a position, to be changed in place.
    pub fn get_mut(&mut self, index: usize) -> (r: Option<&mut T>)
        ensures
            match r {
                Some(value) => {
                    &&& old(self).entry(index as int) == Some(*value)
                    &&& final(self).inner@ == old(self).inner@.update(
                        index as int,
                        Some(*final(value)),
                    )
                    &&& final(self).free_indices@ == old(self).free_indices@
                },
                None => old(self).entry(index as int) is None && final(self).inner@ == old(self).inner@ && final(self).free_indices@ == old(self).free_indices@,
            },
    {
        if index < self.inner.len() {
            self.inner[index].as_mut()
        } else {
            None
        }
    }

    /// Takes the entry at a position out, if there is one; its position is
    /// free from then on.
    pub fn remove(&mut self, index: usize) -> (r: Option<T>)
        requires
            old(self).wf(),
        ensures
            final(self).wf(),
            r == old(self).entry(index as int),
            r is None ==> *final(self) == *old(self),
            r is Some ==> final(self).inner@ == old(self).inner@.update(index as int, None)
                && final(self).free_indices@ == old(self).free_indices@.push(index),
    {
        let len = self.inner.len();
        if index >= len {
            return None;
        }
        if self.inner[index].is_none() {
            return None;
        }
        self.free_indices.push(index);
        let value = self.inner[index].take();
        proof {
            assert forall|i: int|
                0 <= i < self.inner@.len() && (#[trigger] self.inner@[i]) is None implies self.free_indices@.contains(
                i as usize,
            ) by {
                assert(i < len);
                if i == index {
                    assert(self.free_indices@[self.free_indices@.len() - 1] == index);
                } else {
                    assert(old(self).inner@[i] is None);
                    assert(old(self).free_indices@.contains(i as usize));
                    let k = choose|k: int|
                        0 <= k < old(self).free_indices@.len() && old(self).free_indices@[k]
                            == i as usize;
                    assert(self.free_indices@[k] == i);
                }
            }
        }
        value
    }

    /// Puts an entry into the gap that has been free the longest, or at the
    /// end where there is no gap, and gives its position.
    pub fn insert(&mut self, value: T) -> (index: usize)
        requires
            old(self).wf(),
        ensures
            final(self).wf(),
            index == old(self).next_index(),
            old(self).entry(index as int) is None,
            final(self).entry(index as int) == Some(value),
            forall|i: int| i != index ==> final(self).entry(i) == old(self).entry(i),
            final(self).inner@ == if index < old(self).inner@.len() {
                old(self).inner@.update(index as int, Some(value))
            } else {
                old(self).inner@.push(Some(value))
            },
            index <= old(self).inner@.len(),
    {
        let len = self.inner.len();
        if self.free_indices.len() > 0 {
            let index = self.free_indices.remove(0);
            self.inner[index] = Some(value);
            proof {
                assert forall|i: int|
                    0 <= i < self.inner@.len() && (#[trigger] self.inner@[i]) is None implies self.free_indices@.contains(
                    i as usize,
                ) by {
                    assert(i < len);
                    assert(old(self).inner@[i] is None);
                    assert(old(self).free_indices@.contains(i as usize));
                    let k = choose|k: int|
                        0 <= k < old(self).free_indices@.len() && old(self).free_indices@[k]
                            == i as usize;
                    assert(k > 0);
                    assert(self.free_indices@[k - 1] == i);
                }
                assert forall|k: int| 0 <= k < self.free_indices@.len() implies (
                #[trigger] self.free_indices@[k]) < self.inner@.len()
                    && self.inner@[self.free_indices@[k] as int] is None by {
                    assert(self.free_indices@[k] == old(self).free_indices@[k + 1]);
                }
            }
            index
        } else {
            let index = len;
            self.inner.push(Some(value));
            proof {
                assert forall|i: int|
                    0 <= i < self.inner@.len() && (#[trigger] self.inner@[i]) is None implies self.free_indices@.contains(
                    i as usize,
                ) by {
                    assert(i < len);
                    assert(old(self).inner@[i] is None);
                }
            }
            index
        }
    }
}

} // verus!
