//! Proof-of-work targets, their compact form, and difficulty.

use vstd::prelude::*;
use vstd::arithmetic::power::pow;
use crate::bigint::{BigNat, is_normal, lemma_leading_zeros, lemma_value_lower};
use crate::bytes::{be_value, bytes_less, lex_less};
use crate::hash::Argon2dHash;

verus! {

/// A target in compact form: one byte that counts the bytes of the number and
/// three bytes that hold its leading digits.
#[derive(Clone, Copy, Debug, PartialEq, Eq, Structural, PartialOrd, Ord, Hash)]
pub struct TargetCompact(pub u32);

/// A target: a number of 256 bits, most significant byte first. A block's
/// proof of work has to be at most its target.
#[derive(Clone, Copy, Debug, PartialEq, Eq, PartialOrd, Ord, Hash)]
pub struct Target {
    pub bytes: [u8; 32],
}

/// How hard a target is to meet: the easiest target divided by it. The
/// value counts parts of `DIFFICULTY_SCALE`, so a difficulty keeps the
/// fraction of that quotient to 32 binary places.
#[derive(Debug)]
pub struct Difficulty {
    pub value: BigNat,
}

/// The easiest target, two to the 240, as a number.
pub open spec fn target_max() -> nat {
    pow(256, 30) as nat
}

/// The easiest target as 32 bytes.
pub open spec fn target_max_bytes() -> Seq<u8> {
    Seq::new(32, |i: int| if i == 1 { 1u8 } else { 0u8 })
}

/// How many bytes the digits of a compact target are shifted to the left.
pub open spec fn compact_shift(n: u32) -> int {
    if n / 0x100_0000 >= 3 {
        n / 0x100_0000 - 3
    } else {
        0
    }
}

/// Whether a compact target fits into 256 bits.
pub open spec fn compact_fits(n: u32) -> bool {
    compact_shift(n) <= 29
}

/// The 32 bytes that a compact target expands to.
pub open spec fn compact_expand(n: u32) -> Seq<u8> {
    let shift = compact_shift(n);
    let digits = n % 0x100_0000;
    Seq::new(
        32,
        |i: int|
            if i == 29 - shift {
                (digits / 0x1_0000) as u8
            } else if i == 30 - shift {
                (digits / 0x100 % 0x100) as u8
            } else if i == 31 - shift {
                (digits % 0x100) as u8
            } else {
                0u8
            },
    )
}

/// The position of the first byte that is not zero, or the length.
pub open spec fn first_nonzero(s: Seq<u8>) -> int
    decreases s.len(),
{
    if s.len() == 0 {
        0
    } else if s[0] != 0 {
        0
    } else {
        1 + first_nonzero(s.skip(1))
    }
}

/// The compact form of 32 bytes: the length is counted from the first byte
/// that is not zero, or from the byte before it where that byte is 128 or
/// more, and the three digits start there (for a number of fewer than three
/// bytes, at the third byte from the end).
pub open spec fn compact_of(s: Seq<u8>) -> u32 {
    let f = first_nonzero(s);
    let first = if f == 32 {
        0
    } else if s[f] >= 0x80 {
        f - 1
    } else {
        f
    };
    let start = if first < 29 {
        first
    } else {
        29
    };
    ((32 - first) * 0x100_0000 + s[start] * 0x1_0000 + s[start + 1] * 0x100 + s[start + 2]) as u32
}

/// The number of bits of a byte: zero for zero.
pub open spec fn byte_bits(b: u8) -> nat {
    if b >= 128 {
        8
    } else if b >= 64 {
        7
    } else if b >= 32 {
        6
    } else if b >= 16 {
        5
    } else if b >= 8 {
        4
    } else if b >= 4 {
        3
    } else if b >= 2 {
        2
    } else if b >= 1 {
        1
    } else {
        0
    }
}

/// Whether a byte is a power of two.
pub open spec fn byte_is_power(b: u8) -> bool {
    b == 1 || b == 2 || b == 4 || b == 8 || b == 16 || b == 32 || b == 64 || b == 128
}

/// The least `k` such that the number is at most two to the `k`; zero for zero.
pub open spec fn ceil_log2(s: Seq<u8>) -> nat {
    let f = first_nonzero(s);
    if f >= s.len() {
        0
    } else {
        let bits = byte_bits(s[f]) + 8 * (s.len() - f - 1);
        if byte_is_power(s[f]) && first_nonzero(s.skip(f + 1)) == s.len() - f - 1 {
            (bits - 1) as nat
        } else {
            bits as nat
        }
    }
}

/// The depth of a target: how many times the easiest target has to be halved
/// to get at or below it, at least zero.
pub open spec fn target_depth(s: Seq<u8>) -> u8 {
    if ceil_log2(s) >= 240 {
        0
    } else {
        (240 - ceil_log2(s)) as u8
    }
}

impl View for Target {
    type V = Seq<u8>;

    open spec fn view(&self) -> Seq<u8> {
        self.bytes@
    }
}

impl View for Difficulty {
    type V = nat;

    open spec fn view(&self) -> nat {
        self.value@
    }
}

impl TargetCompact {
    /// Whether the target fits into 256 bits.
    pub fn fits(&self) -> (b: bool)
        ensures
            b == compact_fits(self.0),
    {
        self.0 / 0x100_0000 <= 32
    }

    /// Whether the target is a number from one to the easiest target.
    pub fn is_valid(&self) -> (b: bool)
        ensures
            b == (compact_fits(self.0) && 1 <= be_value(compact_expand(self.0)) <= target_max()),
    {
        if !self.fits() {
            return false;
        }
        let target = Target::from_compact(*self);
        let value = BigNat::from_be_bytes(target.bytes.as_slice());
        let max = Target::max();
        let max_value = BigNat::from_be_bytes(max.bytes.as_slice());
        !value.is_zero() && !max_value.less_than(&value)
    }
}

impl Target {
    /// The easiest target.
    pub fn max() -> (t: Target)
        ensures
            t@ == target_max_bytes(),
            be_value(t@) == target_max(),
    {
        let mut bytes = [0u8; 32];
        bytes[1] = 1;
        let t = Target { bytes };
        proof {
            assert(t@ =~= target_max_bytes());
            lemma_target_max();
        }
        t
    }

    /// Expands a compact target that fits into 256 bits.
    pub fn from_compact(compact: TargetCompact) -> (t: Target)
        requires
            compact_fits(compact.0),
        ensures
            t@ == compact_expand(compact.0),
    {
        let n: u32 = compact.0;
        let size: u32 = n / 0x100_0000;
        let shift: usize = if size >= 3 {
            (size - 3) as usize
        } else {
            0
        };
        let digits: u32 = n % 0x100_0000;
        let mut bytes = [0u8; 32];
        bytes[29 - shift] = (digits / 0x1_0000) as u8;
        bytes[30 - shift] = (digits / 0x100 % 0x100) as u8;
        bytes[31 - shift] = (digits % 0x100) as u8;
        let t = Target { bytes };
        assert(t@ =~= compact_expand(compact.0));
        t
    }

    /// The target with the bytes of a proof of work.
    pub fn from_pow(hash: &Argon2dHash) -> (t: Target)
        ensures
            t@ == hash@,
    {
        Target { bytes: hash.bytes }
    }

    /// The target with the number of a digit string without leading zeros, or
    /// `None` where the number does not fit into 256 bits.
    pub fn from_digits(digits: &[u8]) -> (t: Option<Target>)
        requires
            is_normal(digits@),
        ensures
            t is Some == (digits@.len() <= 32),
            t is Some ==> be_value(t->0@) == be_value(digits@),
    {
        let n = digits.len();
        if n > 32 {
            return None;
        }
        let mut bytes = [0u8; 32];
        let mut i: usize = 0;
        while i < n
            invariant
                n == digits@.len(),
                n <= 32,
                i <= n,
                forall|j: int| 0 <= j < 32 - n ==> bytes[j] == 0,
                forall|j: int| 0 <= j < i ==> bytes[32 - n + j] == digits[j],
            decreases n - i,
        {
            bytes[32 - n + i] = digits[i];
            i += 1;
        }
        let t = Target { bytes };
        proof {
            assert(t@ =~= Seq::new((32 - n) as nat, |i: int| 0u8) + digits@);
            lemma_leading_zeros((32 - n) as nat, digits@);
        }
        Some(t)
    }

    /// The position of the first byte that is not zero, or 32.
    fn leading_zero_bytes(&self) -> (f: usize)
        ensures
            f == first_nonzero(self@),
            f <= 32,
            f < 32 ==> self@[f as int] != 0,
            forall|j: int| 0 <= j < f ==> self@[j] == 0,
    {
        let mut f: usize = 0;
        assert(self@.skip(0) =~= self@);
        while f < 32 && self.bytes[f] == 0
            invariant
                f <= 32,
                first_nonzero(self@) == f + first_nonzero(self@.skip(f as int)),
                forall|j: int| 0 <= j < f ==> self@[j] == 0,
            decreases 32 - f,
        {
            proof {
                let s = self@.skip(f as int);
                assert(s[0] == self@[f as int]);
                assert(s.skip(1) =~= self@.skip(f + 1));
            }
            f += 1;
        }
        proof {
            let s = self@.skip(f as int);
            if f < 32 {
                assert(s[0] == self@[f as int]);
            } else {
                assert(s.len() == 0);
            }
        }
        f
    }

    /// The compact form of a target below two to the 255.
    pub fn to_compact(&self) -> (c: TargetCompact)
        requires
            self@[0] < 0x80,
        ensures
            c.0 == compact_of(self@),
    {
        let f = self.leading_zero_bytes();
        let first: usize = if f == 32 {
            0
        } else if self.bytes[f] >= 0x80 {
            f - 1
        } else {
            f
        };
        let start: usize = if first < 29 {
            first
        } else {
            29
        };
        let size: u32 = (32 - first) as u32;
        let b0: u32 = self.bytes[start] as u32;
        let b1: u32 = self.bytes[start + 1] as u32;
        let b2: u32 = self.bytes[start + 2] as u32;
        TargetCompact(size * 0x100_0000 + b0 * 0x1_0000 + b1 * 0x100 + b2)
    }

    /// Whether a proof of work is at most this target.
    pub fn is_met_by(&self, hash: &Argon2dHash) -> (b: bool)
        ensures
            b == !lex_less(self@, hash@),
    {
        !bytes_less(self.bytes.as_slice(), hash.bytes.as_slice())
    }

    /// Whether every byte from a position on is zero.
    fn zero_from(&self, from: usize) -> (b: bool)
        requires
            from <= 32,
        ensures
            b == (first_nonzero(self@.skip(from as int)) == 32 - from),
    {
        let mut i: usize = from;
        while i < 32 && self.bytes[i] == 0
            invariant
                from <= i <= 32,
                first_nonzero(self@.skip(from as int)) == (i - from) + first_nonzero(
                    self@.skip(i as int),
                ),
            decreases 32 - i,
        {
            proof {
                let s = self@.skip(i as int);
                assert(s[0] == self@[i as int]);
                assert(s.skip(1) =~= self@.skip(i + 1));
            }
            i += 1;
        }
        proof {
            let s = self@.skip(i as int);
            if i < 32 {
                assert(s[0] == self@[i as int]);
                lemma_first_nonzero_bound(s.skip(1));
            } else {
                assert(s.len() == 0);
            }
        }
        i == 32
    }

    /// The depth of the target.
    pub fn get_depth(&self) -> (d: u8)
        ensures
            d == target_depth(self@),
    {
        let f = self.leading_zero_bytes();
        if f == 32 {
            return 240;
        }
        let b = self.bytes[f];
        let byte_bits: usize = if b >= 128 {
            8
        } else if b >= 64 {
            7
        } else if b >= 32 {
            6
        } else if b >= 16 {
            5
        } else if b >= 8 {
            4
        } else if b >= 4 {
            3
        } else if b >= 2 {
            2
        } else {
            1
        };
        let power = b == 1 || b == 2 || b == 4 || b == 8 || b == 16 || b == 32 || b == 64 || b
            == 128;
        let mut bits: usize = byte_bits + 8 * (32 - f - 1);
        if power && self.zero_from(f + 1) {
            bits = bits - 1;
        }
        if bits >= 240 {
            0
        } else {
            (240 - bits) as u8
        }
    }
}

impl Clone for Difficulty {
    fn clone(&self) -> (r: Self)
        ensures
            r@ == self@,
    {
        Difficulty { value: self.value.clone() }
    }
}

/// The parts that make up a difficulty of one: a difficulty is counted in
/// parts of two to the 32, so that it keeps its fraction to 32 binary places.
pub const DIFFICULTY_SCALE: u64 = 0x1_0000_0000;

/// The difficulty of a target, in parts of `DIFFICULTY_SCALE`: the easiest
/// target divided by it, rounded down to a whole number of parts; a target of
/// zero counts as one.
pub open spec fn difficulty_of(target: Seq<u8>) -> nat {
    if be_value(target) == 0 {
        target_max() * DIFFICULTY_SCALE as nat
    } else {
        (target_max() * DIFFICULTY_SCALE as nat) / be_value(target)
    }
}

impl Difficulty {
    /// No difficulty at all.
    pub fn zero() -> (d: Difficulty)
        ensures
            d@ == 0,
    {
        Difficulty { value: BigNat::zero() }
    }

    /// The difficulty of a target, in parts of `DIFFICULTY_SCALE`.
    pub fn from_target(target: &Target) -> (d: Difficulty)
        ensures
            d@ == difficulty_of(target@),
    {
        let max = Target::max();
        let max_value = BigNat::from_be_bytes(max.bytes.as_slice());
        let scaled = max_value.times(&BigNat::from_u64(DIFFICULTY_SCALE));
        let value = BigNat::from_be_bytes(target.bytes.as_slice());
        if value.is_zero() {
            Difficulty { value: scaled }
        } else {
            Difficulty { value: scaled.divided_by(&value) }
        }
    }

    /// The sum of two difficulties.
    pub fn plus(&self, other: &Difficulty) -> (d: Difficulty)
        ensures
            d@ == self@ + other@,
    {
        Difficulty { value: self.value.plus(&other.value) }
    }

    /// Whether this difficulty is strictly greater than the other.
    pub fn greater_than(&self, other: &Difficulty) -> (b: bool)
        ensures
            b == (self@ > other@),
    {
        other.value.less_than(&self.value)
    }
}

/// The position of the first byte that is not zero is at most the length.
pub proof fn lemma_first_nonzero_bound(s: Seq<u8>)
    ensures
        0 <= first_nonzero(s) <= s.len(),
    decreases s.len(),
{
    if s.len() > 0 && s[0] == 0 {
        lemma_first_nonzero_bound(s.skip(1));
    }
}

/// The 32 bytes of the easiest target stand for 256 to the 30.
pub proof fn lemma_target_max()
    ensures
        be_value(target_max_bytes()) == target_max(),
{
    let s = target_max_bytes();
    let head = s.subrange(0, 2);
    assert(be_value(head.drop_last().drop_last()) == 0);
    assert(head.drop_last().last() == 0);
    assert(be_value(head.drop_last()) == 0);
    assert(be_value(head) == 1);
    lemma_shift_zero_bytes(s, 30);
    assert(s.subrange(0, s.len() - 30) =~= head);
    vstd::arithmetic::power::lemma_pow_positive(256, 30);
    assert(be_value(s) == 1 * pow(256, 30));
}

/// Where the last `k` bytes are zero, the number is the number of the bytes
/// before them times 256 to the `k`.
pub proof fn lemma_shift_zero_bytes(s: Seq<u8>, k: nat)
    requires
        k <= s.len(),
        forall|i: int| s.len() - k <= i < s.len() ==> s[i] == 0,
    ensures
        be_value(s) == be_value(s.subrange(0, s.len() - k)) * pow(256, k),
    decreases k,
{
    vstd::arithmetic::power::lemma_pow0(256);
    if k == 0 {
        assert(s.subrange(0, s.len() as int) =~= s);
    } else {
        let t = s.drop_last();
        lemma_shift_zero_bytes(t, (k - 1) as nat);
        assert(t.subrange(0, t.len() - (k - 1)) =~= s.subrange(0, s.len() - k));
        vstd::arithmetic::power::lemma_pow_adds(256, (k - 1) as nat, 1);
        vstd::arithmetic::power::lemma_pow1(256);
        let v = be_value(s.subrange(0, s.len() - k));
        let p = pow(256, (k - 1) as nat);
        assert(v * p * 256 == v * (p * 256)) by (nonlinear_arith);
    }
}

} // verus!
