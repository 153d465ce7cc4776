//! Account addresses and their user-friendly text form.

use vstd::prelude::*;
use vstd::string::*;
use crate::hash::Blake2bHash;

verus! {

/// A twenty-byte account identifier.
#[derive(Clone, Copy, Debug, PartialEq, Eq, PartialOrd, Ord, Hash)]
pub struct Address(pub [u8; 20]);

/// Why a user-friendly address was not accepted.
#[derive(Clone, Copy, Debug, PartialEq, Eq, Structural)]
pub enum FriendlyAddressError {
    WrongCountryCode,
    WrongLength,
    InvalidChecksum,
}

impl View for Address {
    type V = Seq<u8>;

    open spec fn view(&self) -> Seq<u8> {
        self.0@
    }
}

/// The 32 symbols of the address alphabet, in order of their values:
/// the digits and the capital letters without I, O, W and Z.
pub open spec fn alphabet() -> Seq<u8> {
    seq![
        48u8, 49, 50, 51, 52, 53, 54, 55, 56, 57, 65, 66, 67, 68, 69, 70,
        71, 72, 74, 75, 76, 77, 78, 80, 81, 82, 83, 84, 85, 86, 88, 89,
    ]
}

/// Whether a byte is one of the given symbols.
pub open spec fn is_symbol(symbols: Seq<u8>, b: u8) -> bool {
    exists|q: int| 0 <= q < symbols.len() && symbols[q] == b
}

/// Whether a symbol table can stand for five bits a symbol: 32 ASCII bytes
/// that differ from each other.
pub open spec fn symbols_ok(symbols: Seq<u8>) -> bool {
    &&& symbols.len() == 32
    &&& forall|i: int| 0 <= i < 32 ==> symbols[i] < 128
    &&& forall|i: int, j: int| 0 <= i < j < 32 ==> symbols[i] != symbols[j]
}

/// Two to the `k`, for `k` up to seven.
pub open spec fn bit_weight(k: int) -> int {
    if k == 0 {
        1
    } else if k == 1 {
        2
    } else if k == 2 {
        4
    } else if k == 3 {
        8
    } else if k == 4 {
        16
    } else if k == 5 {
        32
    } else if k == 6 {
        64
    } else {
        128
    }
}

/// Bit `j` of a byte string, counted from the most significant bit of the
/// first byte.
#[verifier::opaque]
pub open spec fn bit_at(data: Seq<u8>, j: int) -> int {
    (data[j / 8] as int / bit_weight(7 - j % 8)) % 2
}

/// The value of the `i`-th group of five bits.
pub open spec fn quintet(data: Seq<u8>, i: int) -> int {
    16 * bit_at(data, 5 * i) + 8 * bit_at(data, 5 * i + 1) + 4 * bit_at(data, 5 * i + 2) + 2
        * bit_at(data, 5 * i + 3) + bit_at(data, 5 * i + 4)
}

/// The base-32 text of a byte string whose length is a multiple of five: one
/// symbol for each group of five bits, most significant bit first.
pub open spec fn base32_text(symbols: Seq<u8>, data: Seq<u8>) -> Seq<u8> {
    Seq::new((data.len() / 5 * 8) as nat, |i: int| symbols[quintet(data, i)])
}

/// `data_encoding::Specification::encoding` and `Encoding::encode`, for a
/// specification that holds the given 32 symbols and is otherwise the default
/// (most significant bit first, no padding), on an input whose length is a
/// multiple of five: the result holds one symbol for each five bits.
#[verifier::external_body]
fn base32_encode(symbols: &[u8], data: &[u8]) -> (text: Vec<u8>)
    requires
        symbols_ok(symbols@),
        data@.len() % 5 == 0,
        data@.len() <= 0xFF_FFFF,
    ensures
        text@ == base32_text(symbols@, data@),
{
    let mut spec = data_encoding::Specification::new();
    spec.symbols.push_str(std::str::from_utf8(symbols).unwrap());
    spec.encoding().unwrap().encode(data).into_bytes()
}

/// `data_encoding::Specification::encoding` and `Encoding::decode`, for the
/// same specification, on a text whose length is a multiple of eight: the
/// text is decoded exactly where each of its bytes is one of the symbols, and
/// then the result is the byte string that encodes to it.
#[verifier::external_body]
fn base32_decode(symbols: &[u8], text: &[u8]) -> (data: Option<Vec<u8>>)
    requires
        symbols_ok(symbols@),
        text@.len() % 8 == 0,
        text@.len() <= 0xFF_FFFF,
    ensures
        data is Some <==> forall|i: int| 0 <= i < text@.len() ==> is_symbol(symbols@, text@[i]),
        data is Some ==> data->0@.len() == text@.len() / 8 * 5 && base32_text(
            symbols@,
            data->0@,
        ) == text@,
{
    let mut spec = data_encoding::Specification::new();
    spec.symbols.push_str(std::str::from_utf8(symbols).unwrap());
    spec.encoding().unwrap().decode(text).ok()
}

/// `String::from_utf8` on ASCII bytes: the string holds one character for
/// each byte.
#[verifier::external_body]
pub(crate) fn ascii_string(bytes: Vec<u8>) -> (s: String)
    requires
        forall|i: int| 0 <= i < bytes@.len() ==> bytes@[i] < 128,
    ensures
        s@ == ascii_chars(bytes@),
{
    String::from_utf8(bytes).unwrap()
}

/// The characters that stand for ASCII bytes.
pub open spec fn ascii_chars(bytes: Seq<u8>) -> Seq<char> {
    Seq::new(bytes.len(), |i: int| bytes[i] as char)
}

/// A byte with a small letter made capital.
pub open spec fn upper(b: u8) -> u8 {
    if 97 <= b <= 122 {
        (b - 32) as u8
    } else {
        b
    }
}

/// Whether a byte can take part in a checksum: an ASCII byte from the digit
/// zero on.
pub open spec fn checkable(b: u8) -> bool {
    48 <= b < 128
}

/// Whether every byte can take part in a checksum.
pub open spec fn all_checkable(s: Seq<u8>) -> bool {
    forall|i: int| 0 <= i < s.len() ==> checkable(#[trigger] s[i])
}

/// The remainder modulo 97 after one more byte: a digit appends itself to the
/// decimal number; any other byte, made capital, appends its code less 55,
/// which has one decimal digit below ten and two from there on.
pub open spec fn iban_step(acc: nat, b: u8) -> nat {
    let u = upper(b);
    if u <= 57 {
        ((acc * 10 + (u - 48)) % 97) as nat
    } else if u < 65 {
        ((acc * 10 + (u - 55)) % 97) as nat
    } else {
        ((acc * 100 + (u - 55)) % 97) as nat
    }
}

/// The remainder modulo 97 of the decimal number that a text stands for.
pub open spec fn iban_rem(s: Seq<u8>) -> nat
    decreases s.len(),
{
    if s.len() == 0 {
        0
    } else {
        iban_step(iban_rem(s.drop_last()), s.last())
    }
}

/// A text without its spaces.
pub open spec fn strip_spaces(s: Seq<u8>) -> Seq<u8>
    decreases s.len(),
{
    if s.len() == 0 {
        Seq::empty()
    } else if s.last() == 32 {
        strip_spaces(s.drop_last())
    } else {
        strip_spaces(s.drop_last()).push(s.last())
    }
}

/// The two check digits for a base-32 text.
pub open spec fn check_digits(text: Seq<u8>) -> Seq<u8> {
    let check = 98 - iban_rem(text + seq![78u8, 81, 48, 48]);
    seq![(48 + check / 10) as u8, (48 + check % 10) as u8]
}

/// The friendly form without spaces: country code, check digits, base-32 text.
pub open spec fn friendly_plain(address: Seq<u8>) -> Seq<u8> {
    let text = base32_text(alphabet(), address);
    seq![78u8, 81] + check_digits(text) + text
}

/// The friendly form: the plain form in nine groups of four, with a space
/// between two groups.
pub open spec fn friendly_text(address: Seq<u8>) -> Seq<u8> {
    let p = friendly_plain(address);
    Seq::new(44, |i: int| if i % 5 == 4 { 32u8 } else { p[i / 5 * 4 + i % 5] })
}

/// The byte string whose base-32 text is the given one.
pub open spec fn base32_data(text: Seq<u8>) -> Seq<u8> {
    choose|d: Seq<u8>| d.len() == text.len() / 8 * 5 && base32_text(alphabet(), d) == text
}

/// What parsing a friendly address gives. Spaces do not count. The text has
/// to start with the country code in either case, to hold 36 bytes, to give
/// the remainder one once its first four bytes are moved to the end, and to
/// hold symbols of the alphabet from the fifth byte on.
pub open spec fn parse_friendly(text: Seq<u8>) -> Result<Seq<u8>, FriendlyAddressError> {
    let s = strip_spaces(text);
    if s.len() < 2 || upper(s[0]) != 78 || upper(s[1]) != 81 {
        Err(FriendlyAddressError::WrongCountryCode)
    } else if s.len() != 36 {
        Err(FriendlyAddressError::WrongLength)
    } else if !all_checkable(s) || iban_rem(s.subrange(4, 36) + s.subrange(0, 4)) != 1 {
        Err(FriendlyAddressError::InvalidChecksum)
    } else if !(forall|i: int| 4 <= i < 36 ==> is_symbol(alphabet(), s[i])) {
        Err(FriendlyAddressError::InvalidChecksum)
    } else {
        Ok(base32_data(s.subrange(4, 36)))
    }
}

/// The alphabet as bytes.
fn alphabet_bytes() -> (a: [u8; 32])
    ensures
        a@ == alphabet(),
        symbols_ok(a@),
{
    let a: [u8; 32] = [
        48, 49, 50, 51, 52, 53, 54, 55, 56, 57, 65, 66, 67, 68, 69, 70,
        71, 72, 74, 75, 76, 77, 78, 80, 81, 82, 83, 84, 85, 86, 88, 89,
    ];
    assert(a@ =~= alphabet());
    proof {
        lemma_alphabet();
    }
    a
}

/// Removes the spaces of a text.
fn without_spaces(text: &[u8]) -> (out: Vec<u8>)
    ensures
        out@ == strip_spaces(text@),
{
    let mut out: Vec<u8> = Vec::new();
    let mut i: usize = 0;
    while i < text.len()
        invariant
            i <= text.len(),
            out@ == strip_spaces(text@.subrange(0, i as int)),
        decreases text.len() - i,
    {
        proof {
            let next = text@.subrange(0, i + 1);
            assert(next.drop_last() =~= text@.subrange(0, i as int));
            assert(next.last() == text@[i as int]);
        }
        if text[i] != 32 {
            out.push(text[i]);
        }
        i += 1;
    }
    assert(text@.subrange(0, text@.len() as int) =~= text@);
    out
}

/// A byte with a small letter made capital.
fn to_upper(b: u8) -> (u: u8)
    ensures
        u == upper(b),
{
    if 97 <= b && b <= 122 {
        b - 32
    } else {
        b
    }
}

/// The remainder modulo 97 of a text of checkable bytes.
fn iban_rem_bytes(s: &[u8]) -> (r: u32)
    requires
        all_checkable(s@),
    ensures
        r == iban_rem(s@),
        r < 97,
{
    let mut acc: u32 = 0;
    let mut i: usize = 0;
    assert(s@.subrange(0, 0) =~= Seq::<u8>::empty());
    while i < s.len()
        invariant
            i <= s.len(),
            all_checkable(s@),
            acc == iban_rem(s@.subrange(0, i as int)),
            acc < 97,
        decreases s.len() - i,
    {
        proof {
            let next = s@.subrange(0, i + 1);
            assert(next.drop_last() =~= s@.subrange(0, i as int));
            assert(next.last() == s@[i as int]);
            assert(checkable(s@[i as int]));
        }
        let u = to_upper(s[i]);
        if u <= 57 {
            acc = (acc * 10 + (u - 48) as u32) % 97;
        } else if u < 65 {
            acc = (acc * 10 + (u - 55) as u32) % 97;
        } else {
            acc = (acc * 100 + (u - 55) as u32) % 97;
        }
        i += 1;
    }
    assert(s@.subrange(0, s@.len() as int) =~= s@);
    acc
}

/// Whether every byte is an ASCII byte from the digit zero on.
fn check_checkable(s: &[u8]) -> (b: bool)
    ensures
        b == all_checkable(s@),
{
    let mut i: usize = 0;
    while i < s.len()
        invariant
            i <= s.len(),
            forall|j: int| 0 <= j < i ==> checkable(#[trigger] s@[j]),
        decreases s.len() - i,
    {
        if s[i] < 48 || s[i] >= 128 {
            assert(!checkable(s@[i as int]));
            return false;
        }
        i += 1;
    }
    true
}

impl Address {
    /// Number of bytes in an address.
    pub const SIZE: usize = 20;

    /// Number of bytes in an address.
    pub fn len() -> (n: usize)
        ensures
            n == 20,
    {
        20
    }

    /// The address with the given twenty bytes.
    pub fn from_slice(slice: &[u8]) -> (a: Address)
        requires
            slice@.len() == 20,
        ensures
            a@ == slice@,
    {
        let mut bytes = [0u8; 20];
        let mut i: usize = 0;
        while i < 20
            invariant
                i <= 20,
                slice@.len() == 20,
                forall|j: int| 0 <= j < i ==> bytes[j] == slice[j],
            decreases 20 - i,
        {
            bytes[i] = slice[i];
            i += 1;
        }
        let a = Address(bytes);
        assert(a@ =~= slice@);
        a
    }

    /// The address of a hash: its first twenty bytes.
    pub fn from_hash(hash: &Blake2bHash) -> (a: Address)
        ensures
            a@ == hash@.subrange(0, 20),
    {
        let mut bytes = [0u8; 20];
        let mut i: usize = 0;
        while i < 20
            invariant
                i <= 20,
                forall|j: int| 0 <= j < i ==> bytes[j] == hash.bytes[j],
            decreases 20 - i,
        {
            bytes[i] = hash.bytes[i];
            i += 1;
        }
        let a = Address(bytes);
        assert(a@ =~= hash@.subrange(0, 20));
        a
    }

    /// The address of a public key: that of the hash of its bytes.
    pub fn from_public_key(key: &[u8]) -> (a: Address)
        ensures
            a@ == crate::hash::blake2b_digest(key@).subrange(0, 20),
    {
        let hash = Blake2bHash::digest(key);
        Address::from_hash(&hash)
    }

    /// Whether two addresses hold the same bytes.
    pub fn same(&self, other: &Address) -> (b: bool)
        ensures
            b == (self@ == other@),
            b == (*self == *other),
    {
        let b = crate::bytes::bytes_equal(self.0.as_slice(), other.0.as_slice());
        proof {
            if b {
                assert(self.0 =~= other.0);
            }
        }
        b
    }

    /// The remainder modulo 97 of the decimal number that a text of ASCII
    /// bytes from the digit zero on stands for.
    pub fn iban_check(s: &String) -> (r: u32)
        requires
            all_checkable(vstd::utf8::encode_utf8(s@)),
        ensures
            r == iban_rem(vstd::utf8::encode_utf8(s@)),
    {
        iban_rem_bytes(s.as_str().as_bytes())
    }

    /// Parses the user-friendly form of an address.
    pub fn from_user_friendly_address(friendly_addr: &String) -> (r: Result<
        Address,
        FriendlyAddressError,
    >)
        ensures
            match parse_friendly(vstd::utf8::encode_utf8(friendly_addr@)) {
                Ok(bytes) => r is Ok && r->Ok_0@ == bytes,
                Err(e) => r == Err::<Address, FriendlyAddressError>(e),
            },
    {
        let s = without_spaces(friendly_addr.as_str().as_bytes());
        if s.len() < 2 || to_upper(s[0]) != 78 || to_upper(s[1]) != 81 {
            return Err(FriendlyAddressError::WrongCountryCode);
        }
        if s.len() != 36 {
            return Err(FriendlyAddressError::WrongLength);
        }
        let mut twisted: Vec<u8> = Vec::new();
        let mut i: usize = 4;
        while i < 36
            invariant
                4 <= i <= 36,
                s@.len() == 36,
                twisted@ == s@.subrange(4, i as int),
            decreases 36 - i,
        {
            twisted.push(s[i]);
            assert(twisted@ =~= s@.subrange(4, i + 1));
            i += 1;
        }
        let text = twisted.clone();
        assert(text@ == s@.subrange(4, 36));
        twisted.push(s[0]);
        twisted.push(s[1]);
        twisted.push(s[2]);
        twisted.push(s[3]);
        assert(twisted@ =~= s@.subrange(4, 36) + s@.subrange(0, 4));
        if !check_checkable(s.as_slice()) {
            return Err(FriendlyAddressError::InvalidChecksum);
        }
        assert(all_checkable(twisted@)) by {
            assert forall|j: int| 0 <= j < twisted@.len() implies checkable(
                #[trigger] twisted@[j],
            ) by {
                if j < 32 {
                    assert(twisted@[j] == s@[j + 4]);
                } else {
                    assert(twisted@[j] == s@[j - 32]);
                }
            }
        }
        if iban_rem_bytes(twisted.as_slice()) != 1 {
            return Err(FriendlyAddressError::InvalidChecksum);
        }
        let symbols = alphabet_bytes();
        match base32_decode(symbols.as_slice(), text.as_slice()) {
            None => {
                proof {
                    let bad = choose|i: int| 0 <= i < 32 && !is_symbol(alphabet(), text@[i]);
                    assert(!is_symbol(alphabet(), s@[bad + 4]));
                }
                Err(FriendlyAddressError::InvalidChecksum)
            },
            Some(data) => {
                proof {
                    assert forall|i: int| 4 <= i < 36 implies is_symbol(alphabet(), s@[i]) by {
                        assert(s@[i] == text@[i - 4]);
                    }
                    lemma_alphabet();
                    lemma_base32_injective(alphabet(), data@, base32_data(text@));
                }
                Ok(Address::from_slice(data.as_slice()))
            },
        }
    }

    /// The user-friendly form of the address.
    pub fn to_user_friendly_address(&self) -> (r: String)
        ensures
            r@ == ascii_chars(friendly_text(self@)),
    {
        let symbols = alphabet_bytes();
        let text = base32_encode(symbols.as_slice(), self.0.as_slice());
        proof {
            lemma_text_bytes(self@);
        }
        let mut sum_input = text.clone();
        sum_input.push(78);
        sum_input.push(81);
        sum_input.push(48);
        sum_input.push(48);
        assert(sum_input@ =~= text@ + seq![78u8, 81, 48, 48]);
        assert(all_checkable(sum_input@)) by {
            assert forall|j: int| 0 <= j < sum_input@.len() implies checkable(
                #[trigger] sum_input@[j],
            ) by {
                if j < 32 {
                    assert(sum_input@[j] == text@[j]);
                }
            }
        }
        let check: u32 = 98 - iban_rem_bytes(sum_input.as_slice());
        let mut plain: Vec<u8> = Vec::new();
        plain.push(78);
        plain.push(81);
        plain.push((48 + check / 10) as u8);
        plain.push((48 + check % 10) as u8);
        plain.extend_from_slice(text.as_slice());
        assert(plain@ =~= friendly_plain(self@));
        let mut out: Vec<u8> = Vec::new();
        let mut i: usize = 0;
        while i < 44
            invariant
                i <= 44,
                plain@ == friendly_plain(self@),
                plain@.len() == 36,
                out@.len() == i,
                forall|j: int| 0 <= j < i ==> out@[j] == friendly_text(self@)[j],
                forall|j: int| 0 <= j < 36 ==> plain@[j] < 128,
            decreases 44 - i,
        {
            if i % 5 == 4 {
                out.push(32);
            } else {
                out.push(plain[i / 5 * 4 + i % 5]);
            }
            i += 1;
        }
        assert(out@ =~= friendly_text(self@));
        ascii_string(out)
    }
}

/// Formatting an address and parsing the text gives the address back, and
/// the text holds 36 characters in nine groups of four with a space after each
/// group but the last.
pub proof fn lemma_friendly_round_trip(address: Seq<u8>)
    requires
        address.len() == 20,
    ensures
        parse_friendly(friendly_text(address)) == Ok::<Seq<u8>, FriendlyAddressError>(address),
        friendly_text(address).len() == 44,
        forall|i: int| 0 <= i < 44 ==> (friendly_text(address)[i] == 32 <==> i % 5 == 4),
{
    let text = base32_text(alphabet(), address);
    let plain = friendly_plain(address);
    let full = friendly_text(address);
    lemma_text_bytes(address);
    lemma_alphabet();
    lemma_strip_friendly(address, 44);
    assert(full.subrange(0, 44) =~= full);
    assert(plain.subrange(0, 36) =~= plain);
    assert(strip_spaces(full) == plain);
    assert(all_checkable(plain));
    let digits = check_digits(text);
    assert(plain.subrange(4, 36) =~= text);
    assert(plain.subrange(0, 4) =~= seq![78u8, 81] + digits);
    let stem = text.push(78).push(81);
    let y = iban_rem(stem);
    lemma_iban_rem_range(stem);
    let zeros = stem.push(48).push(48);
    assert(zeros =~= text + seq![78u8, 81, 48, 48]);
    assert(zeros.drop_last() =~= stem.push(48));
    assert(stem.push(48).drop_last() =~= stem);
    let sum = iban_rem(zeros);
    assert(iban_rem(stem.push(48)) == iban_step(y, 48));
    assert(sum == iban_step(iban_step(y, 48), 48));
    assert(sum == ((y * 10 % 97) * 10) % 97);
    let check = 98 - sum;
    let twisted = stem.push(digits[0]).push(digits[1]);
    assert(twisted =~= plain.subrange(4, 36) + plain.subrange(0, 4));
    assert(twisted.drop_last() =~= stem.push(digits[0]));
    assert(stem.push(digits[0]).drop_last() =~= stem);
    assert(digits[0] == 48 + check / 10 && digits[1] == 48 + check % 10);
    assert(iban_rem(stem.push(digits[0])) == iban_step(y, digits[0]));
    assert(iban_rem(twisted) == iban_step(iban_step(y, digits[0]), digits[1]));
    assert(iban_rem(twisted) == (((y * 10 + check / 10) % 97) * 10 + check % 10) % 97);
    lemma_check_digits(y as int);
    assert forall|i: int| 4 <= i < 36 implies is_symbol(alphabet(), plain[i]) by {
        assert(plain[i] == text[i - 4]);
    }
    lemma_base32_injective(alphabet(), address, base32_data(text));
}

/// The check digits make the remainder one.
proof fn lemma_check_digits(y: int)
    requires
        0 <= y < 97,
    ensures
        ({
            let check = 98 - ((y * 10 % 97) * 10) % 97;
            (((y * 10 + check / 10) % 97) * 10 + check % 10) % 97 == 1
        }),
{
    let q1 = y * 10 / 97;
    let r1 = y * 10 % 97;
    assert(y * 10 == 97 * q1 + r1);
    let q2 = r1 * 10 / 97;
    let sum = r1 * 10 % 97;
    assert(r1 * 10 == 97 * q2 + sum);
    let check = 98 - sum;
    let d1 = check / 10;
    let d2 = check % 10;
    assert(check == 10 * d1 + d2);
    let q3 = (y * 10 + d1) / 97;
    let r2 = (y * 10 + d1) % 97;
    assert(y * 10 + d1 == 97 * q3 + r2);
    let k = 1 + 10 * q1 + q2 - 10 * q3;
    assert(r2 * 10 + d2 == 97 * k + 1);
    vstd::arithmetic::div_mod::lemma_mod_multiples_vanish(k, 1, 97);
}

/// The first `n` bytes of the friendly form, without their spaces, are the
/// bytes of the plain form that they were made from.
proof fn lemma_strip_friendly(address: Seq<u8>, n: int)
    requires
        address.len() == 20,
        0 <= n <= 44,
    ensures
        strip_spaces(friendly_text(address).subrange(0, n)) == friendly_plain(address).subrange(
            0,
            n / 5 * 4 + if n % 5 == 4 {
                4int
            } else {
                n % 5
            },
        ),
    decreases n,
{
    let full = friendly_text(address);
    let plain = friendly_plain(address);
    lemma_text_bytes(address);
    if n == 0 {
        assert(full.subrange(0, 0) =~= Seq::<u8>::empty());
        assert(plain.subrange(0, 0) =~= Seq::<u8>::empty());
    } else {
        let m = n - 1;
        lemma_strip_friendly(address, m);
        let part = full.subrange(0, n);
        assert(part.drop_last() =~= full.subrange(0, m));
        assert(part.last() == full[m]);
        let taken = m / 5 * 4 + if m % 5 == 4 {
            4int
        } else {
            m % 5
        };
        if m % 5 == 4 {
            assert(full[m] == 32);
        } else {
            assert(full[m] == plain[m / 5 * 4 + m % 5]);
            assert(plain[taken] >= 48);
            assert(plain.subrange(0, taken).push(plain[taken]) =~= plain.subrange(0, taken + 1));
        }
    }
}

/// The alphabet holds 32 different ASCII symbols, none of them below the
/// digit zero.
pub proof fn lemma_alphabet()
    ensures
        symbols_ok(alphabet()),
        forall|q: int| 0 <= q < 32 ==> 48 <= #[trigger] alphabet()[q] <= 89,
{
}

/// Every byte of an address's base-32 text, of its check digits and of its
/// plain form is a symbol or a digit.
pub proof fn lemma_text_bytes(address: Seq<u8>)
    requires
        address.len() == 20,
    ensures
        base32_text(alphabet(), address).len() == 32,
        forall|i: int|
            0 <= i < 32 ==> is_symbol(alphabet(), #[trigger] base32_text(alphabet(), address)[i]),
        forall|i: int| 0 <= i < 32 ==> 48 <= #[trigger] base32_text(alphabet(), address)[i] <= 89,
        friendly_plain(address).len() == 36,
        forall|i: int| 0 <= i < 36 ==> 48 <= #[trigger] friendly_plain(address)[i] <= 89,
{
    lemma_alphabet();
    let text = base32_text(alphabet(), address);
    assert forall|i: int| 0 <= i < 32 implies is_symbol(alphabet(), #[trigger] text[i]) && 48
        <= text[i] <= 89 by {
        lemma_quintet_range(address, i);
        let q = quintet(address, i);
        assert(text[i] == alphabet()[q]);
    }
    let sum = iban_rem(text + seq![78u8, 81, 48, 48]);
    lemma_iban_rem_range(text + seq![78u8, 81, 48, 48]);
    let check = 98 - sum;
    assert(0 <= check / 10 <= 9 && 0 <= check % 10 <= 9);
    let p = friendly_plain(address);
    assert forall|i: int| 0 <= i < 36 implies 48 <= #[trigger] p[i] <= 89 by {
        if i >= 4 {
            assert(p[i] == text[i - 4]);
        }
    }
}

/// A group of five bits has a value below 32.
pub proof fn lemma_quintet_range(data: Seq<u8>, i: int)
    ensures
        0 <= quintet(data, i) < 32,
{
    lemma_bit_range(data, 5 * i);
    lemma_bit_range(data, 5 * i + 1);
    lemma_bit_range(data, 5 * i + 2);
    lemma_bit_range(data, 5 * i + 3);
    lemma_bit_range(data, 5 * i + 4);
}

/// A bit is zero or one.
pub proof fn lemma_bit_range(data: Seq<u8>, j: int)
    ensures
        bit_at(data, j) == 0 || bit_at(data, j) == 1,
{
    reveal(bit_at);
}

/// A remainder modulo 97 is below 97.
pub proof fn lemma_iban_rem_range(s: Seq<u8>)
    ensures
        iban_rem(s) < 97,
    decreases s.len(),
{
    if s.len() > 0 {
        lemma_iban_rem_range(s.drop_last());
    }
}

/// A byte is the sum of its bits.
pub proof fn lemma_byte_bits(x: u8)
    ensures
        x as int == 128 * ((x as int / 128) % 2) + 64 * ((x as int / 64) % 2) + 32 * ((x as int
            / 32) % 2) + 16 * ((x as int / 16) % 2) + 8 * ((x as int / 8) % 2) + 4 * ((x as int / 4)
            % 2) + 2 * ((x as int / 2) % 2) + (x as int / 1) % 2,
{
    assert(x == 128 * ((x / 128) % 2) + 64 * ((x / 64) % 2) + 32 * ((x / 32) % 2) + 16 * ((x / 16)
        % 2) + 8 * ((x / 8) % 2) + 4 * ((x / 4) % 2) + 2 * ((x / 2) % 2) + (x / 1) % 2)
        by (bit_vector);
}

/// Five bits are known from the value of their group.
proof fn lemma_five_bits(a: Seq<int>, b: Seq<int>)
    requires
        a.len() == 5,
        b.len() == 5,
        forall|m: int| 0 <= m < 5 ==> (a[m] == 0 || a[m] == 1) && (b[m] == 0 || b[m] == 1),
        16 * a[0] + 8 * a[1] + 4 * a[2] + 2 * a[3] + a[4] == 16 * b[0] + 8 * b[1] + 4 * b[2] + 2
            * b[3] + b[4],
    ensures
        a == b,
{
    assert(a[0] == b[0]);
    assert(a[1] == b[1]);
    assert(a[2] == b[2]);
    assert(a[3] == b[3]);
    assert(a[4] == b[4]);
    assert(a =~= b);
}

/// Byte `k` is the sum of the eight bits from bit `8 * k` on.
proof fn lemma_byte_of_bits(data: Seq<u8>, k: int)
    requires
        0 <= k < data.len(),
    ensures
        data[k] as int == 128 * bit_at(data, 8 * k) + 64 * bit_at(data, 8 * k + 1) + 32 * bit_at(
            data,
            8 * k + 2,
        ) + 16 * bit_at(data, 8 * k + 3) + 8 * bit_at(data, 8 * k + 4) + 4 * bit_at(
            data,
            8 * k + 5,
        ) + 2 * bit_at(data, 8 * k + 6) + bit_at(data, 8 * k + 7),
{
    reveal(bit_at);
    lemma_byte_bits(data[k]);
}

/// Where two byte strings have the same base-32 text, they agree in each bit.
proof fn lemma_bit_equal(symbols: Seq<u8>, a: Seq<u8>, b: Seq<u8>, j: int)
    requires
        symbols_ok(symbols),
        a.len() == b.len(),
        a.len() % 5 == 0,
        base32_text(symbols, a) == base32_text(symbols, b),
        0 <= j < 8 * a.len(),
    ensures
        bit_at(a, j) == bit_at(b, j),
{
    let i = j / 5;
    let r = j % 5;
    assert(0 <= i < a.len() / 5 * 8);
    lemma_quintet_range(a, i);
    lemma_quintet_range(b, i);
    assert(base32_text(symbols, a)[i] == symbols[quintet(a, i)]);
    assert(base32_text(symbols, b)[i] == symbols[quintet(b, i)]);
    assert(quintet(a, i) == quintet(b, i));
    let sa = Seq::new(5, |m: int| bit_at(a, 5 * i + m));
    let sb = Seq::new(5, |m: int| bit_at(b, 5 * i + m));
    assert forall|m: int| 0 <= m < 5 implies (sa[m] == 0 || sa[m] == 1) && (sb[m] == 0 || sb[m]
        == 1) by {
        lemma_bit_range(a, 5 * i + m);
        lemma_bit_range(b, 5 * i + m);
    }
    lemma_five_bits(sa, sb);
    assert(sa[r] == sb[r]);
}

/// Two byte strings with the same base-32 text are the same.
pub proof fn lemma_base32_injective(symbols: Seq<u8>, a: Seq<u8>, b: Seq<u8>)
    requires
        symbols_ok(symbols),
        a.len() == b.len(),
        a.len() % 5 == 0,
        base32_text(symbols, a) == base32_text(symbols, b),
    ensures
        a == b,
{
    assert forall|k: int| 0 <= k < a.len() implies a[k] == b[k] by {
        lemma_byte_of_bits(a, k);
        lemma_byte_of_bits(b, k);
        lemma_bit_equal(symbols, a, b, 8 * k);
        lemma_bit_equal(symbols, a, b, 8 * k + 1);
        lemma_bit_equal(symbols, a, b, 8 * k + 2);
        lemma_bit_equal(symbols, a, b, 8 * k + 3);
        lemma_bit_equal(symbols, a, b, 8 * k + 4);
        lemma_bit_equal(symbols, a, b, 8 * k + 5);
        lemma_bit_equal(symbols, a, b, 8 * k + 6);
        lemma_bit_equal(symbols, a, b, 8 * k + 7);
    }
    assert(a =~= b);
}

} // verus!
