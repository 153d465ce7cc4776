//! Strings of hexadecimal digits, the keys of the accounts tree.

use vstd::prelude::*;
use vstd::string::StringSliceAdditionalSpecFns;
use crate::address::Address;

verus! {

/// A string of up to forty hexadecimal digits. The digits stand in the first
/// `len` places; the places after them hold zero.
#[derive(Clone, Copy, Debug, PartialEq, Eq, PartialOrd, Ord, Hash)]
pub struct AddressNibbles {
    pub digits: [u8; 40],
    pub len: usize,
}

/// The hexadecimal digits of a byte string, two for each byte, the higher
/// one first.
pub open spec fn digits_of(bytes: Seq<u8>) -> Seq<u8> {
    Seq::new(bytes.len() * 2, |i: int| if i % 2 == 0 {
        bytes[i / 2] / 16
    } else {
        bytes[i / 2] % 16
    })
}

/// The value of a character that is a hexadecimal digit.
pub open spec fn digit_value(c: u8) -> Option<u8> {
    if 48 <= c <= 57 {
        Some((c - 48) as u8)
    } else if 97 <= c <= 102 {
        Some((c - 87) as u8)
    } else if 65 <= c <= 70 {
        Some((c - 55) as u8)
    } else {
        None
    }
}

/// Whether a text can be read as digits: it holds at most forty characters,
/// each a hexadecimal digit.
pub open spec fn readable(text: Seq<u8>) -> bool {
    text.len() <= 40 && forall|i: int| 0 <= i < text.len() ==> digit_value(#[trigger] text[i]) is Some
}

/// The character that stands for a digit.
pub open spec fn digit_char(d: u8) -> u8 {
    if d < 10 {
        (48 + d) as u8
    } else {
        (87 + d) as u8
    }
}

/// Whether one string of digits starts another.
pub open spec fn starts(a: Seq<u8>, b: Seq<u8>) -> bool {
    a.len() <= b.len() && b.subrange(0, a.len() as int) == a
}

impl View for AddressNibbles {
    type V = Seq<u8>;

    open spec fn view(&self) -> Seq<u8> {
        self.digits@.subrange(0, self.len as int)
    }
}

impl AddressNibbles {
    /// Whether the string is sound: at most forty digits, each below sixteen,
    /// and zero in the places after them.
    pub open spec fn wf(&self) -> bool {
        &&& self.len <= 40
        &&& forall|i: int| 0 <= i < self.len ==> self.digits@[i] < 16
        &&& forall|i: int| self.len <= i < 40 ==> self.digits@[i] == 0
    }

    /// The string without digits.
    pub fn empty() -> (r: AddressNibbles)
        ensures
            r.wf(),
            r@ == Seq::<u8>::empty(),
    {
        let r = AddressNibbles { digits: [0u8; 40], len: 0 };
        assert(r@ =~= Seq::<u8>::empty());
        r
    }

    /// The forty digits of an address.
    pub fn from_address(address: &Address) -> (r: AddressNibbles)
        ensures
            r.wf(),
            r@ == digits_of(address@),
    {
        let mut digits = [0u8; 40];
        let mut i: usize = 0;
        while i < 20
            invariant
                i <= 20,
                forall|j: int| 0 <= j < 2 * i ==> digits@[j] == digits_of(address@)[j],
            decreases 20 - i,
        {
            digits[2 * i] = address.0[i] / 16;
            digits[2 * i + 1] = address.0[i] % 16;
            i += 1;
        }
        let r = AddressNibbles { digits, len: 40 };
        assert(r@ =~= digits_of(address@));
        r
    }

    /// Reads a text of hexadecimal digits, or gives `None` where the text is
    /// longer than forty characters or holds another character.
    pub fn parse(text: &str) -> (r: Option<AddressNibbles>)
        ensures
            r is Some <==> readable(vstd::utf8::encode_utf8(text@)),
            r is Some ==> r->0.wf() && r->0@.len() == vstd::utf8::encode_utf8(text@).len() && forall|i: int|
                0 <= i < r->0@.len() ==> Some(#[trigger] r->0@[i]) == digit_value(
                    vstd::utf8::encode_utf8(text@)[i],
                ),
    {
        let bytes = text.as_bytes();
        if bytes.len() > 40 {
            return None;
        }
        let mut digits = [0u8; 40];
        let mut i: usize = 0;
        while i < bytes.len()
            invariant
                i <= bytes@.len(),
                bytes@.len() <= 40,
                bytes@ == vstd::utf8::encode_utf8(text@),
                forall|j: int| 0 <= j < i ==> Some(digits@[j]) == digit_value(#[trigger] bytes@[j]),
                forall|j: int| i <= j < 40 ==> digits@[j] == 0,
            decreases bytes@.len() - i,
        {
            let c = bytes[i];
            let d: u8 = if 48 <= c && c <= 57 {
                c - 48
            } else if 97 <= c && c <= 102 {
                c - 87
            } else if 65 <= c && c <= 70 {
                c - 55
            } else {
                assert(digit_value(bytes@[i as int]) is None);
                return None;
            };
            digits[i] = d;
            i += 1;
        }
        let r = AddressNibbles { digits, len: bytes.len() };
        proof {
            assert forall|j: int| 0 <= j < r@.len() implies Some(#[trigger] r@[j]) == digit_value(
                bytes@[j],
            ) by {
                assert(r@[j] == digits@[j]);
            }
            assert forall|j: int| 0 <= j < r.len implies r.digits@[j] < 16 by {
                assert(Some(digits@[j]) == digit_value(bytes@[j]));
            }
        }
        Some(r)
    }

    /// The number of digits.
    pub fn len(&self) -> (n: usize)
        ensures
            n == self.len,
    {
        self.len
    }

    /// The digit at a place, if there is one.
    pub fn get(&self, index: usize) -> (r: Option<usize>)
        requires
            self.wf(),
        ensures
            r == if index < self@.len() {
                Some(self@[index as int] as usize)
            } else {
                None
            },
    {
        if index < self.len {
            Some(self.digits[index] as usize)
        } else {
            None
        }
    }

    /// Whether two strings hold the same digits.
    pub fn same(&self, other: &AddressNibbles) -> (b: bool)
        requires
            self.wf(),
            other.wf(),
        ensures
            b == (self@ == other@),
    {
        assert(self@.len() == self.len && other@.len() == other.len);
        if self.len != other.len {
            return false;
        }
        let mut i: usize = 0;
        while i < self.len
            invariant
                i <= self.len,
                self.len == other.len,
                self.len <= 40,
                forall|j: int| 0 <= j < i ==> self.digits@[j] == other.digits@[j],
            decreases self.len - i,
        {
            if self.digits[i] != other.digits[i] {
                assert(self@[i as int] != other@[i as int]);
                return false;
            }
            i += 1;
        }
        assert(self@ =~= other@);
        true
    }

    /// Whether this string starts the other.
    pub fn is_prefix_of(&self, other: &AddressNibbles) -> (b: bool)
        requires
            self.wf(),
            other.wf(),
        ensures
            b == starts(self@, other@),
    {
        if self.len > other.len {
            return false;
        }
        let mut i: usize = 0;
        while i < self.len
            invariant
                i <= self.len,
                self.len <= other.len,
                other.len <= 40,
                forall|j: int| 0 <= j < i ==> self.digits@[j] == other.digits@[j],
            decreases self.len - i,
        {
            if self.digits[i] != other.digits[i] {
                assert(other@.subrange(0, self.len as int)[i as int] != self@[i as int]);
                return false;
            }
            i += 1;
        }
        assert(other@.subrange(0, self.len as int) =~= self@);
        true
    }

    /// The two strings one after the other, cut after forty digits.
    pub fn concat(&self, other: &AddressNibbles) -> (r: AddressNibbles)
        requires
            self.wf(),
            other.wf(),
        ensures
            r.wf(),
            self@.len() + other@.len() <= 40 ==> r@ == self@ + other@,
            self@.len() + other@.len() > 40 ==> r@ == (self@ + other@).subrange(0, 40),
    {
        let mut digits = self.digits;
        let mut n: usize = self.len;
        let mut i: usize = 0;
        while i < other.len && n < 40
            invariant
                i <= other.len,
                other.len <= 40,
                self.len <= 40,
                n == self.len + i,
                n <= 40,
                forall|j: int| 0 <= j < self.len ==> digits@[j] == self.digits@[j],
                forall|j: int| 0 <= j < i ==> digits@[self.len + j] == other.digits@[j],
                forall|j: int| 0 <= j < n ==> digits@[j] < 16,
                forall|j: int| n <= j < 40 ==> digits@[j] == 0,
                self.wf(),
                other.wf(),
            decreases other.len - i,
        {
            digits[n] = other.digits[i];
            n += 1;
            i += 1;
        }
        let r = AddressNibbles { digits, len: n };
        proof {
            if self@.len() + other@.len() <= 40 {
                assert(r@ =~= self@ + other@);
            } else {
                assert(r@ =~= (self@ + other@).subrange(0, 40));
            }
        }
        r
    }

    /// The digits as text.
    pub fn to_bytes(&self) -> (r: Vec<u8>)
        requires
            self.wf(),
        ensures
            r@.len() == self@.len(),
            forall|i: int| 0 <= i < r@.len() ==> r@[i] == digit_char(self@[i]),
    {
        let mut r: Vec<u8> = Vec::new();
        let mut i: usize = 0;
        while i < self.len
            invariant
                i <= self.len,
                self.wf(),
                r@.len() == i,
                forall|j: int| 0 <= j < i ==> r@[j] == digit_char(self@[j]),
            decreases self.len - i,
        {
            let d = self.digits[i];
            assert(self@[i as int] == d);
            if d < 10 {
                r.push(48 + d);
            } else {
                r.push(87 + d);
            }
            i += 1;
        }
        r
    }
}

} // verus!
