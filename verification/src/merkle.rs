//! Merkle roots over lists of hashes.

use vstd::prelude::*;
use crate::bytes::put_bytes;
use crate::hash::{blake2b_digest, Blake2bHash};

verus! {

/// The root of a list of hashes: the hash of nothing for no hash, the hash
/// itself for one, and otherwise the hash of the roots of the two halves, the
/// first half being the longer one where the length is odd.
pub open spec fn merkle_root(hashes: Seq<Blake2bHash>) -> Seq<u8>
    decreases hashes.len(),
{
    if hashes.len() == 0 {
        blake2b_digest(Seq::empty())
    } else if hashes.len() == 1 {
        hashes[0]@
    } else {
        let mid = (hashes.len() + 1) as int / 2;
        blake2b_digest(
            merkle_root(hashes.subrange(0, mid)) + merkle_root(
                hashes.subrange(mid, hashes.len() as int),
            ),
        )
    }
}

/// The root of the hashes from position `from` up to `to`.
fn root_of_range(hashes: &Vec<Blake2bHash>, from: usize, to: usize) -> (root: Blake2bHash)
    requires
        from <= to <= hashes@.len(),
    ensures
        root@ == merkle_root(hashes@.subrange(from as int, to as int)),
    decreases to - from,
{
    let ghost part = hashes@.subrange(from as int, to as int);
    let n = to - from;
    if n == 0 {
        let empty: Vec<u8> = Vec::new();
        assert(empty@ =~= Seq::<u8>::empty());
        Blake2bHash::digest(empty.as_slice())
    } else if n == 1 {
        assert(part[0] == hashes@[from as int]);
        hashes[from]
    } else {
        let mid = from + (n - n / 2);
        let left = root_of_range(hashes, from, mid);
        let right = root_of_range(hashes, mid, to);
        let mut both: Vec<u8> = Vec::new();
        put_bytes(&mut both, left.bytes.as_slice());
        put_bytes(&mut both, right.bytes.as_slice());
        proof {
            assert(part.subrange(0, (part.len() + 1) as int / 2) =~= hashes@.subrange(
                from as int,
                mid as int,
            ));
            assert(part.subrange((part.len() + 1) as int / 2, part.len() as int) =~= hashes@.subrange(
                mid as int,
                to as int,
            ));
            assert(both@ =~= left@ + right@);
        }
        Blake2bHash::digest(both.as_slice())
    }
}

/// The Merkle root of a list of hashes.
pub fn compute_root_from_hashes(hashes: &Vec<Blake2bHash>) -> (root: Blake2bHash)
    ensures
        root@ == merkle_root(hashes@),
{
    assert(hashes@.subrange(0, hashes@.len() as int) =~= hashes@);
    root_of_range(hashes, 0, hashes.len())
}

} // verus!
