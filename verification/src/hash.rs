//! Digests. The hash functions themselves are outside code; the library names
//! their results and reasons about them only through those names.

use vstd::prelude::*;
use crate::bytes::{bytes_equal, bytes_less, lex_less};

verus! {

/// The 32-byte BLAKE2b digest of a byte string.
pub uninterp spec fn blake2b_digest(data: Seq<u8>) -> Seq<u8>;

/// The 32-byte Argon2d digest of a byte string under a salt, a memory size in
/// KiB, a number of passes and a number of lanes.
pub uninterp spec fn argon2d_digest(
    data: Seq<u8>,
    salt: Seq<u8>,
    memory: u32,
    passes: u32,
    lanes: u32,
) -> Seq<u8>;

/// Memory the proof-of-work hash fills, in KiB.
pub const POW_MEMORY: u32 = 512;

/// Passes the proof-of-work hash makes over its memory.
pub const POW_PASSES: u32 = 1;

/// Lanes of the proof-of-work hash.
pub const POW_LANES: u32 = 1;

/// The salt of the proof-of-work hash.
pub open spec fn pow_salt() -> Seq<u8> {
    seq![110u8, 105, 109, 105, 113, 114, 111, 99, 107, 115, 33]
}

/// A BLAKE2b digest of 32 bytes.
#[derive(Clone, Copy, Debug, PartialEq, Eq, PartialOrd, Ord, Hash)]
pub struct Blake2bHash {
    pub bytes: [u8; 32],
}

/// An Argon2d digest of 32 bytes.
#[derive(Clone, Copy, Debug, PartialEq, Eq, PartialOrd, Ord, Hash)]
pub struct Argon2dHash {
    pub bytes: [u8; 32],
}

/// `blake2_rfc::blake2b::blake2b` with a digest length of 32 and no key: the
/// result is the digest of `data`, which the library knows by name only.
#[verifier::external_body]
fn blake2b_256(data: &[u8]) -> (out: [u8; 32])
    ensures
        out@ == blake2b_digest(data@),
{
    let digest = blake2_rfc::blake2b::blake2b(32, &[], data);
    let mut out = [0u8; 32];
    out.copy_from_slice(digest.as_bytes());
    out
}

/// `argon2::Argon2::hash_password_into` for the Argon2d variant, version
/// 0x13, with an output of 32 bytes: the result is the digest of `data` under
/// the given salt and costs, known by name only. The inputs that the outside
/// function rejects are left out.
#[verifier::external_body]
fn argon2d_256(data: &[u8], salt: &[u8], memory: u32, passes: u32, lanes: u32) -> (out: [u8; 32])
    requires
        data@.len() <= 0xFFFF_FFFF,
        8 <= salt@.len() <= 0xFFFF_FFFF,
        1 <= passes,
        1 <= lanes <= 0xFF_FFFF,
        8 * lanes <= memory,
    ensures
        out@ == argon2d_digest(data@, salt@, memory, passes, lanes),
{
    let params = argon2::Params::new(memory, passes, lanes, Some(32)).unwrap();
    let hasher = argon2::Argon2::new(argon2::Algorithm::Argon2d, argon2::Version::V0x13, params);
    let mut out = [0u8; 32];
    hasher.hash_password_into(data, salt, &mut out).unwrap();
    out
}

impl View for Blake2bHash {
    type V = Seq<u8>;

    open spec fn view(&self) -> Seq<u8> {
        self.bytes@
    }
}

impl View for Argon2dHash {
    type V = Seq<u8>;

    open spec fn view(&self) -> Seq<u8> {
        self.bytes@
    }
}

impl Blake2bHash {
    /// The digest of all zeros.
    pub fn zero() -> (h: Blake2bHash)
        ensures
            h@ == Seq::new(32, |i: int| 0u8),
    {
        let h = Blake2bHash { bytes: [0u8; 32] };
        assert(h@ =~= Seq::new(32, |i: int| 0u8));
        h
    }

    /// Hashes a byte string.
    pub fn digest(data: &[u8]) -> (h: Blake2bHash)
        ensures
            h@ == blake2b_digest(data@),
    {
        Blake2bHash { bytes: blake2b_256(data) }
    }

    /// Whether two digests hold the same bytes.
    pub fn same(&self, other: &Blake2bHash) -> (b: bool)
        ensures
            b == (self@ == other@),
            b == (*self == *other),
    {
        let b = bytes_equal(self.bytes.as_slice(), other.bytes.as_slice());
        proof {
            if b {
                assert(self.bytes =~= other.bytes);
            }
        }
        b
    }

    /// Whether this digest comes before the other in byte order.
    pub fn less(&self, other: &Blake2bHash) -> (b: bool)
        ensures
            b == lex_less(self@, other@),
    {
        bytes_less(self.bytes.as_slice(), other.bytes.as_slice())
    }
}

impl Argon2dHash {
    /// Hashes a byte string of at most 4 GiB with the proof-of-work parameters.
    pub fn digest(data: &[u8]) -> (h: Argon2dHash)
        requires
            data@.len() <= 0xFFFF_FFFF,
        ensures
            h@ == argon2d_digest(data@, pow_salt(), POW_MEMORY, POW_PASSES, POW_LANES),
    {
        let salt: [u8; 11] = [110, 105, 109, 105, 113, 114, 111, 99, 107, 115, 33];
        assert(salt@ =~= pow_salt());
        Argon2dHash { bytes: argon2d_256(data, salt.as_slice(), POW_MEMORY, POW_PASSES, POW_LANES) }
    }
}

} // verus!
