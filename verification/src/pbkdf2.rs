//! Key derivation: PBKDF2 with HMAC-SHA-512.

use vstd::prelude::*;
use crate::bytes::{put_bytes, put_u32, u32_be};

verus! {

/// Number of bytes of a SHA-512 digest.
pub const SHA512_LENGTH: usize = 64;

/// Why a key could not be derived.
#[derive(Clone, Copy, Debug, PartialEq, Eq, Structural)]
pub enum Pbkdf2Error {
    KeyTooLong,
    IOError,
}

/// The HMAC-SHA-512 of a message under a key.
pub uninterp spec fn hmac_sha512_digest(key: Seq<u8>, data: Seq<u8>) -> Seq<u8>;

/// `hmac::Mac::new_from_slice`, `update` and `finalize` for
/// `hmac::Hmac<sha2::Sha512>`: the result is the HMAC of `data` under `key`,
/// known by name only. The outside code takes a key of any length.
#[verifier::external_body]
fn hmac_sha512(key: &[u8], data: &[u8]) -> (out: [u8; 64])
    ensures
        out@ == hmac_sha512_digest(key@, data@),
{
    let mut mac = <hmac::Hmac<sha2::Sha512> as hmac::Mac>::new_from_slice(key).unwrap();
    hmac::Mac::update(&mut mac, data);
    let mut out = [0u8; 64];
    out.copy_from_slice(&hmac::Mac::finalize(mac).into_bytes());
    out
}

/// The HMAC-SHA-512 of a message under a key.
pub fn compute_hmac_sha512(key: &[u8], data: &[u8]) -> (out: [u8; 64])
    ensures
        out@ == hmac_sha512_digest(key@, data@),
{
    hmac_sha512(key, data)
}

/// Two byte strings of one length, combined byte by byte with exclusive or.
pub open spec fn xor_bytes(a: Seq<u8>, b: Seq<u8>) -> Seq<u8> {
    Seq::new(a.len(), |k: int| a[k] ^ b[k])
}

/// The `j`-th value of the chain of block `i`: the HMAC of the salt followed
/// by the number of the block for the first, the HMAC of the value before for
/// the others.
pub open spec fn chain_value(password: Seq<u8>, salt: Seq<u8>, i: u32, j: nat) -> Seq<u8>
    decreases j,
{
    if j <= 1 {
        hmac_sha512_digest(password, salt + u32_be(i))
    } else {
        hmac_sha512_digest(password, chain_value(password, salt, i, (j - 1) as nat))
    }
}

/// Block `i` after `c` iterations: the first `c` values of its chain combined
/// with exclusive or; one value where `c` is zero.
pub open spec fn block_value(password: Seq<u8>, salt: Seq<u8>, i: u32, c: nat) -> Seq<u8>
    decreases c,
{
    if c <= 1 {
        chain_value(password, salt, i, 1)
    } else {
        xor_bytes(
            block_value(password, salt, i, (c - 1) as nat),
            chain_value(password, salt, i, c),
        )
    }
}

/// The first `l` blocks, one after the other.
pub open spec fn blocks(password: Seq<u8>, salt: Seq<u8>, c: nat, l: nat) -> Seq<u8>
    decreases l,
{
    if l == 0 {
        Seq::empty()
    } else {
        blocks(password, salt, c, (l - 1) as nat) + block_value(password, salt, l as u32, c)
    }
}

/// The number of blocks that a key of a length takes.
pub open spec fn block_count(length: nat) -> nat {
    ((length + 63) / 64) as nat
}

/// The derived key: as many blocks as the length takes, cut to the length.
pub open spec fn derived_key(password: Seq<u8>, salt: Seq<u8>, c: nat, length: nat) -> Seq<u8> {
    blocks(password, salt, c, block_count(length)).subrange(0, length as int)
}

/// The greatest length of a derived key.
pub open spec fn max_key_length() -> int {
    0xFFFF_FFFFint * 64
}

/// One block of the derived key.
fn compute_block(password: &[u8], salt: &[u8], iterations: usize, i: u32) -> (t: [u8; 64])
    ensures
        t@ == block_value(password@, salt@, i, iterations as nat),
{
    let mut u: Vec<u8> = Vec::new();
    put_bytes(&mut u, salt);
    put_u32(&mut u, i);
    assert(u@ =~= salt@ + u32_be(i));
    let mut t: [u8; 64] = compute_hmac_sha512(password, u.as_slice());
    let mut last: [u8; 64] = t;
    let mut j: usize = 1;
    while j < iterations
        invariant
            1 <= j,
            j <= iterations || (iterations == 0 && j == 1),
            last@ == chain_value(password@, salt@, i, j as nat),
            t@ == block_value(password@, salt@, i, j as nat),
        decreases iterations - j,
    {
        last = compute_hmac_sha512(password, last.as_slice());
        let ghost before = t@;
        let mut k: usize = 0;
        while k < 64
            invariant
                k <= 64,
                before.len() == 64,
                forall|m: int| 0 <= m < k ==> t@[m] == before[m] ^ last@[m],
                forall|m: int| k <= m < 64 ==> t@[m] == before[m],
            decreases 64 - k,
        {
            t[k] = t[k] ^ last[k];
            k += 1;
        }
        assert(t@ =~= xor_bytes(before, last@));
        j += 1;
    }
    assert(block_value(password@, salt@, i, 0) == block_value(password@, salt@, i, 1));
    t
}

/// Derives a key of a length from a password and a salt with PBKDF2 over
/// HMAC-SHA-512.
pub fn compute_pbkdf2_sha512(
    password: &[u8],
    salt: &[u8],
    iterations: usize,
    derived_key_length: usize,
) -> (r: Result<Vec<u8>, Pbkdf2Error>)
    ensures
        derived_key_length > max_key_length() ==> r == Err::<Vec<u8>, Pbkdf2Error>(
            Pbkdf2Error::KeyTooLong,
        ),
        derived_key_length <= max_key_length() ==> r is Ok && r->Ok_0@ == derived_key(
            password@,
            salt@,
            iterations as nat,
            derived_key_length as nat,
        ) && r->Ok_0@.len() == derived_key_length,
{
    // Following https://www.ietf.org/rfc/rfc2898.txt
    if derived_key_length as u128 > 0xFFFF_FFFFu128 * 64 {
        return Err(Pbkdf2Error::KeyTooLong);
    }
    let mut l: usize = derived_key_length / SHA512_LENGTH;
    if derived_key_length % SHA512_LENGTH != 0 {
        l += 1;
    }
    assert(l == block_count(derived_key_length as nat));
    let mut derived_key: Vec<u8> = Vec::new();
    let count: u64 = l as u64;
    let mut i: u64 = 1;
    while i <= count
        invariant
            1 <= i <= count + 1,
            count <= 0xFFFF_FFFF,
            derived_key@ == blocks(password@, salt@, iterations as nat, (i - 1) as nat),
            derived_key@.len() == (i - 1) * 64,
        decreases count + 1 - i,
    {
        let t = compute_block(password, salt, iterations, i as u32);
        put_bytes(&mut derived_key, t.as_slice());
        i += 1;
    }
    derived_key.truncate(derived_key_length);
    Ok(derived_key)
}

} // verus!
