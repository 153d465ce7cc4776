//! Natural numbers of any size, held as big-endian byte strings. The
//! arithmetic is done by an outside big-integer library; what each operation
//! returns is stated over the numbers that the byte strings stand for.

use vstd::prelude::*;
use vstd::arithmetic::power::pow;
use crate::bytes::be_value;

verus! {

/// A digit string without a needless leading zero byte; zero is the single
/// byte zero.
pub open spec fn is_normal(s: Seq<u8>) -> bool {
    s.len() >= 1 && (s.len() > 1 ==> s[0] != 0)
}

/// `BigUint::from_bytes_be`, `+` and `to_bytes_be` of `num_bigint`: the sum of
/// the two numbers, as a digit string without leading zeros.
#[verifier::external_body]
fn big_add(a: &[u8], b: &[u8]) -> (r: Vec<u8>)
    ensures
        be_value(r@) == be_value(a@) + be_value(b@),
        is_normal(r@),
{
    (num_bigint::BigUint::from_bytes_be(a) + num_bigint::BigUint::from_bytes_be(b)).to_bytes_be()
}

/// `BigUint::from_bytes_be`, `-` and `to_bytes_be` of `num_bigint`: the
/// difference of the two numbers. The outside subtraction stops the program
/// when the second is larger, so that is left out.
#[verifier::external_body]
fn big_sub(a: &[u8], b: &[u8]) -> (r: Vec<u8>)
    requires
        be_value(a@) >= be_value(b@),
    ensures
        be_value(r@) == be_value(a@) - be_value(b@),
        is_normal(r@),
{
    (num_bigint::BigUint::from_bytes_be(a) - num_bigint::BigUint::from_bytes_be(b)).to_bytes_be()
}

/// `BigUint::from_bytes_be`, `*` and `to_bytes_be` of `num_bigint`: the
/// product of the two numbers.
#[verifier::external_body]
fn big_mul(a: &[u8], b: &[u8]) -> (r: Vec<u8>)
    ensures
        be_value(r@) == be_value(a@) * be_value(b@),
        is_normal(r@),
{
    (num_bigint::BigUint::from_bytes_be(a) * num_bigint::BigUint::from_bytes_be(b)).to_bytes_be()
}

/// `BigUint::from_bytes_be`, `/` and `to_bytes_be` of `num_bigint`: the
/// quotient of the two numbers, rounded down. The outside division stops the
/// program on a divisor of zero, so that is left out.
#[verifier::external_body]
fn big_div(a: &[u8], b: &[u8]) -> (r: Vec<u8>)
    requires
        be_value(b@) > 0,
    ensures
        be_value(r@) == be_value(a@) / be_value(b@),
        is_normal(r@),
{
    (num_bigint::BigUint::from_bytes_be(a) / num_bigint::BigUint::from_bytes_be(b)).to_bytes_be()
}

/// `BigUint::from_bytes_be` and `<` of `num_bigint`: whether the first number
/// is the smaller one.
#[verifier::external_body]
fn big_less(a: &[u8], b: &[u8]) -> (r: bool)
    ensures
        r == (be_value(a@) < be_value(b@)),
{
    num_bigint::BigUint::from_bytes_be(a) < num_bigint::BigUint::from_bytes_be(b)
}

/// A natural number of any size.
#[derive(Debug)]
pub struct BigNat {
    pub digits: Vec<u8>,
}

impl View for BigNat {
    type V = nat;

    open spec fn view(&self) -> nat {
        be_value(self.digits@)
    }
}

impl Clone for BigNat {
    fn clone(&self) -> (r: Self)
        ensures
            r.digits@ == self.digits@,
            r@ == self@,
    {
        BigNat { digits: self.digits.clone() }
    }
}

impl BigNat {
    /// The number zero.
    pub fn zero() -> (r: BigNat)
        ensures
            r@ == 0,
    {
        let r = BigNat { digits: Vec::new() };
        assert(be_value(r.digits@) == 0);
        r
    }

    /// The number that a big-endian byte string stands for.
    pub fn from_be_bytes(bytes: &[u8]) -> (r: BigNat)
        ensures
            r@ == be_value(bytes@),
            r.digits@ == bytes@,
    {
        let mut digits = Vec::new();
        digits.extend_from_slice(bytes);
        assert(digits@ =~= bytes@);
        BigNat { digits }
    }

    /// A 64-bit number.
    pub fn from_u64(n: u64) -> (r: BigNat)
        ensures
            r@ == n,
    {
        let mut digits = Vec::new();
        crate::bytes::put_u64(&mut digits, n);
        proof {
            assert(digits@ =~= crate::bytes::u64_be(n));
            lemma_u64_be_value(n);
        }
        BigNat { digits }
    }

    /// The sum.
    pub fn plus(&self, other: &BigNat) -> (r: BigNat)
        ensures
            r@ == self@ + other@,
    {
        BigNat { digits: big_add(self.digits.as_slice(), other.digits.as_slice()) }
    }

    /// The difference, where the other number is not the larger one.
    pub fn minus(&self, other: &BigNat) -> (r: BigNat)
        requires
            self@ >= other@,
        ensures
            r@ == self@ - other@,
    {
        BigNat { digits: big_sub(self.digits.as_slice(), other.digits.as_slice()) }
    }

    /// The difference, or `None` where the other number is the larger one.
    pub fn checked_minus(&self, other: &BigNat) -> (r: Option<BigNat>)
        ensures
            self@ >= other@ ==> r is Some && r->0@ == self@ - other@,
            self@ < other@ ==> r is None,
    {
        if self.less_than(other) {
            None
        } else {
            Some(self.minus(other))
        }
    }

    /// The product.
    pub fn times(&self, other: &BigNat) -> (r: BigNat)
        ensures
            r@ == self@ * other@,
    {
        BigNat { digits: big_mul(self.digits.as_slice(), other.digits.as_slice()) }
    }

    /// The quotient, rounded down, by a number that is not zero.
    pub fn divided_by(&self, other: &BigNat) -> (r: BigNat)
        requires
            other@ > 0,
        ensures
            r@ == self@ / other@,
            is_normal(r.digits@),
    {
        BigNat { digits: big_div(self.digits.as_slice(), other.digits.as_slice()) }
    }

    /// Whether this number is the smaller one.
    pub fn less_than(&self, other: &BigNat) -> (r: bool)
        ensures
            r == (self@ < other@),
    {
        big_less(self.digits.as_slice(), other.digits.as_slice())
    }

    /// Whether this number is zero.
    pub fn is_zero(&self) -> (r: bool)
        ensures
            r == (self@ == 0),
    {
        let z = BigNat::zero();
        !z.less_than(self)
    }
}

/// Zero bytes in front of a digit string do not change its number.
pub proof fn lemma_leading_zeros(k: nat, s: Seq<u8>)
    ensures
        be_value(Seq::new(k, |i: int| 0u8) + s) == be_value(s),
    decreases s.len(),
{
    let z = Seq::new(k, |i: int| 0u8);
    if s.len() == 0 {
        assert(z + s =~= z);
        lemma_zeros_value(k);
    } else {
        assert((z + s).drop_last() =~= z + s.drop_last());
        lemma_leading_zeros(k, s.drop_last());
    }
}

/// A string of zero bytes stands for zero.
pub proof fn lemma_zeros_value(k: nat)
    ensures
        be_value(Seq::new(k, |i: int| 0u8)) == 0,
    decreases k,
{
    let z = Seq::new(k, |i: int| 0u8);
    if k > 0 {
        assert(z.drop_last() =~= Seq::new((k - 1) as nat, |i: int| 0u8));
        lemma_zeros_value((k - 1) as nat);
    }
}

/// A digit string of `n` bytes whose first byte is not zero stands for a
/// number of at least 256 to the `n - 1`.
pub proof fn lemma_value_lower(s: Seq<u8>)
    requires
        s.len() >= 1,
        s[0] != 0,
    ensures
        be_value(s) >= pow(256, (s.len() - 1) as nat),
    decreases s.len(),
{
    vstd::arithmetic::power::lemma_pow0(256);
    if s.len() == 1 {
        assert(s.drop_last().len() == 0);
        assert(be_value(s.drop_last()) == 0);
    } else {
        lemma_value_lower(s.drop_last());
        vstd::arithmetic::power::lemma_pow_adds(256, (s.len() - 2) as nat, 1);
        vstd::arithmetic::power::lemma_pow1(256);
        let p = pow(256, (s.len() - 2) as nat);
        assert(be_value(s.drop_last()) * 256 >= p * 256) by (nonlinear_arith)
            requires
                be_value(s.drop_last()) >= p,
        ;
    }
}

/// The eight big-endian bytes of a number stand for that number.
pub proof fn lemma_u64_be_value(n: u64)
    ensures
        be_value(crate::bytes::u64_be(n)) == n,
{
    let s = crate::bytes::u64_be(n);
    let s7 = s.drop_last();
    let s6 = s7.drop_last();
    let s5 = s6.drop_last();
    let s4 = s5.drop_last();
    let s3 = s4.drop_last();
    let s2 = s3.drop_last();
    let s1 = s2.drop_last();
    let s0 = s1.drop_last();
    assert(be_value(s0) == 0);
    assert(be_value(s1) == n / 0x100_0000_0000_0000);
    assert(be_value(s2) == n / 0x1_0000_0000_0000);
    assert(be_value(s3) == n / 0x100_0000_0000);
    assert(be_value(s4) == n / 0x1_0000_0000);
    assert(be_value(s5) == n / 0x100_0000);
    assert(be_value(s6) == n / 0x1_0000);
    assert(be_value(s7) == n / 0x100);
}

} // verus!
