//! Bytes written as pairs of hexadecimal digits.
//!
//! Each byte becomes two digits out of `0`-`9` and `A`-`F`, the digit of its
//! low half first.

use crate::bytes::boxed_copy;
use crate::secret::Secret;
use vstd::prelude::*;

verus! {

/// Whether `byte` is one of the digits `0`-`9` (48 to 57) and `A`-`F` (65 to
/// 70).
pub open spec fn is_hex_digit(byte: u8) -> bool {
    48 <= byte <= 57 || 65 <= byte <= 70
}

/// Whether `bytes` holds hexadecimal digits only.
pub open spec fn is_hex(bytes: Seq<u8>) -> bool {
    forall|i: int| 0 <= i < bytes.len() ==> is_hex_digit(#[trigger] bytes[i])
}

/// The digit for a value below 16.
pub open spec fn digit_of(value: int) -> u8 {
    if value < 10 {
        (48 + value) as u8
    } else {
        (65 + value - 10) as u8
    }
}

/// The value of a hexadecimal digit.
pub open spec fn value_of(digit: u8) -> int {
    if 48 <= digit <= 57 {
        digit - 48
    } else {
        digit - 65 + 10
    }
}

/// The digits that stand for `bytes`: for each byte the digit of its low
/// half, then that of its high half.
pub open spec fn encoded(bytes: Seq<u8>) -> Seq<u8> {
    Seq::new(
        2 * bytes.len(),
        |i: int|
            if i % 2 == 0 {
                digit_of(bytes[i / 2] as int % 16)
            } else {
                digit_of(bytes[i / 2] as int / 16)
            },
    )
}

/// The bytes that the digits of `hex` stand for, two digits to a byte. A
/// last digit without a partner stands for nothing.
pub open spec fn decoded(hex: Seq<u8>) -> Seq<u8> {
    Seq::new(hex.len() / 2, |i: int| (16 * value_of(hex[2 * i + 1]) + value_of(hex[2 * i])) as u8)
}

/// Decoding what was encoded gives the bytes back, and what is encoded holds
/// hexadecimal digits only.
pub proof fn lemma_decode_inverts_encode(bytes: Seq<u8>)
    ensures
        is_hex(encoded(bytes)),
        decoded(encoded(bytes)) == bytes,
{
    let hex = encoded(bytes);
    assert forall|i: int| 0 <= i < hex.len() implies is_hex_digit(#[trigger] hex[i]) by {
        let byte = bytes[i / 2] as int;
        assert(0 <= byte % 16 < 16 && 0 <= byte / 16 < 16);
    }
    assert forall|i: int| 0 <= i < bytes.len() implies decoded(hex)[i] == bytes[i] by {
        let byte = bytes[i] as int;
        assert(hex[2 * i] == digit_of(byte % 16));
        assert(hex[2 * i + 1] == digit_of(byte / 16));
        assert(0 <= byte % 16 < 16 && 0 <= byte / 16 < 16);
        assert(value_of(digit_of(byte % 16)) == byte % 16);
        assert(value_of(digit_of(byte / 16)) == byte / 16);
        assert(16 * (byte / 16) + byte % 16 == byte);
    }
    assert(decoded(hex) =~= bytes);
}

/// The digit for `value`.
fn to_digit(value: u8) -> (digit: u8)
    requires
        value < 16,
    ensures
        digit == digit_of(value as int),
        is_hex_digit(digit),
{
    if value < 10 {
        48 + value
    } else {
        65 + value - 10
    }
}

/// The value of `digit`.
fn to_value(digit: u8) -> (value: u8)
    requires
        is_hex_digit(digit),
    ensures
        value == value_of(digit),
        value < 16,
{
    if 48 <= digit && digit <= 57 {
        digit - 48
    } else {
        digit - 65 + 10
    }
}

/// A string of hexadecimal digits, kept in a buffer that is wiped.
pub struct Hex {
    str: Secret,
}

impl View for Hex {
    type V = Seq<u8>;

    closed spec fn view(&self) -> Seq<u8> {
        self.str@
    }
}

impl Hex {
    #[verifier::type_invariant]
    spec fn holds_digits(&self) -> bool {
        is_hex(self.str@)
    }

    /// Takes a copy of `bytes` if they are hexadecimal digits, all of them.
    pub fn new(bytes: &[u8]) -> (hex: Option<Self>)
        ensures
            match hex {
                Some(hex) => is_hex(bytes@) && hex@ == bytes@,
                None => !is_hex(bytes@),
            },
    {
        let mut i: usize = 0;
        while i < bytes.len()
            invariant
                i <= bytes@.len(),
                forall|j: int| 0 <= j < i ==> is_hex_digit(#[trigger] bytes@[j]),
            decreases bytes@.len() - i,
        {
            let byte = bytes[i];
            if !(48 <= byte && byte <= 57) && !(65 <= byte && byte <= 70) {
                return None;
            }
            i += 1;
        }
        Some(Hex { str: Secret::new(boxed_copy(bytes)) })
    }

    /// Writes `bytes` in hexadecimal digits. Every byte string can be
    /// written so.
    pub fn encode(bytes: &[u8]) -> (hex: Self)
        requires
            2 * bytes@.len() <= usize::MAX,
        ensures
            hex@ == encoded(bytes@),
    {
        let mut str = Secret::zero(bytes.len() * 2);
        let out = str.expose_mut();
        let mut i: usize = 0;
        while i < bytes.len()
            invariant
                i <= bytes@.len(),
                out@.len() == 2 * bytes@.len(),
                2 * bytes@.len() <= usize::MAX,
                forall|j: int| 0 <= j < 2 * i ==> out@[j] == encoded(bytes@)[j],
            decreases bytes@.len() - i,
        {
            let byte = bytes[i];
            let upper = byte >> 4;
            let lower = byte & 15;
            proof {
                assert(byte >> 4 == byte / 16) by (bit_vector);
                assert(byte & 15 == byte % 16) by (bit_vector);
                assert((2 * i) / 2 == i && (2 * i + 1) / 2 == i);
            }
            out[2 * i] = to_digit(lower);
            out[2 * i + 1] = to_digit(upper);
            i += 1;
        }
        proof {
            assert(out@ =~= encoded(bytes@));
            lemma_decode_inverts_encode(bytes@);
        }
        Hex { str }
    }

    /// The bytes that the digits stand for.
    pub fn decode(&self) -> (bytes: Secret)
        requires
            self@.len() % 2 == 0,
        ensures
            bytes@ == decoded(self@),
    {
        proof {
            use_type_invariant(self);
        }
        let digits = self.str.expose();
        let mut bytes = Secret::zero(digits.len() / 2);
        let out = bytes.expose_mut();
        let mut i: usize = 0;
        while i < digits.len() / 2
            invariant
                i <= digits@.len() / 2,
                out@.len() == digits@.len() / 2,
                is_hex(digits@),
                forall|j: int| 0 <= j < i ==> out@[j] == decoded(digits@)[j],
            decreases digits@.len() / 2 - i,
        {
            let lower = to_value(digits[2 * i]);
            let upper = to_value(digits[2 * i + 1]);
            proof {
                assert(upper < 16 ==> (upper << 4) == 16 * upper) by (bit_vector);
            }
            out[i] = (upper << 4) + lower;
            i += 1;
        }
        proof {
            assert(out@ =~= decoded(digits@));
        }
        bytes
    }

    /// The digits.
    pub fn as_slice(&self) -> (digits: &[u8])
        ensures
            digits@ == self@,
            is_hex(digits@),
    {
        proof {
            use_type_invariant(self);
        }
        self.str.expose()
    }
}

} // verus!
