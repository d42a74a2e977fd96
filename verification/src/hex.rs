//! Reading an identifier from hexadecimal text.
//!
//! The text is a hexadecimal numeral, in either case of letters, with or
//! without the prefix `0x`. Only the empty text is refused as empty: a
//! numeral whose digits are all zero, or a prefix with no digit after it,
//! reads as zero.

use crate::bytes::be_value;
use crate::error::GuidError;
use crate::guid::{greatest, word_base, GUID, CAPACITY};
use crate::numeric::{
    byte_digits, digits_below, digits_value, lemma_power_adds, lemma_power_of_power,
    lemma_power_positive, lemma_value_bound, lemma_value_concat, lemma_value_push,
    lemma_value_single, lemma_value_zeros, power,
};
use vstd::prelude::*;

verus! {

/// Whether `c` is a hexadecimal digit, in either case.
pub open spec fn is_hex_digit(c: char) -> bool {
    ('0' <= c && c <= '9') || ('a' <= c && c <= 'f') || ('A' <= c && c <= 'F')
}

/// The number that the hexadecimal digit `c` stands for.
pub open spec fn hex_digit_value(c: char) -> nat {
    if '0' <= c && c <= '9' {
        (c as int - '0' as int) as nat
    } else if 'a' <= c && c <= 'f' {
        (c as int - 'a' as int + 10) as nat
    } else if 'A' <= c && c <= 'F' {
        (c as int - 'A' as int + 10) as nat
    } else {
        0
    }
}

/// Whether `text` begins with `0x` or `0X`.
pub open spec fn has_hex_prefix(text: Seq<char>) -> bool {
    text.len() >= 2 && text[0] == '0' && (text[1] == 'x' || text[1] == 'X')
}

/// The part of `text` that is to hold the digits: all of it but the prefix.
pub open spec fn hex_numeral(text: Seq<char>) -> Seq<char> {
    if has_hex_prefix(text) {
        text.skip(2)
    } else {
        text
    }
}

/// Whether every character of `numeral` is a hexadecimal digit.
pub open spec fn all_hex_digits(numeral: Seq<char>) -> bool {
    forall|i: int| 0 <= i < numeral.len() ==> is_hex_digit(#[trigger] numeral[i])
}

/// The digits that the characters of `numeral` stand for.
pub open spec fn hex_digits(numeral: Seq<char>) -> Seq<nat> {
    Seq::new(numeral.len(), |i: int| hex_digit_value(numeral[i]))
}

/// What `text` reads as: the number that its digits write in base sixteen, or
/// the reason why it is no numeral.
pub open spec fn hex_parse(text: Seq<char>) -> Result<nat, GuidError> {
    if text.len() == 0 {
        Err(GuidError::HexFormatEmpty)
    } else if !all_hex_digits(hex_numeral(text)) {
        Err(GuidError::HexFormatInvalid)
    } else {
        Ok(digits_value(hex_digits(hex_numeral(text)), 16))
    }
}

/// Digits that begin with a digit other than zero write a number that is at
/// least the weight of that digit's place.
proof fn lemma_value_at_least(digits: Seq<nat>, base: nat)
    requires
        digits.len() > 0,
        digits[0] > 0,
    ensures
        digits_value(digits, base) >= power(base, (digits.len() - 1) as nat),
{
    let first = seq![digits[0]];
    let rest = digits.drop_first();
    assert(digits =~= first + rest);
    lemma_value_concat(first, rest, base);
    lemma_value_single(digits[0], base);
    let weight = power(base, rest.len());
    assert(digits[0] * weight >= weight) by (nonlinear_arith)
        requires
            digits[0] > 0,
    ;
}

/// A numeral without a leading zero writes a number that an identifier can
/// hold exactly when it has no more digits than an identifier has room for.
proof fn lemma_digits_fit(digits: Seq<nat>)
    requires
        digits_below(digits, 16),
        digits.len() > 0 ==> digits[0] > 0,
    ensures
        digits_value(digits, 16) <= greatest() <==> digits.len() <= 2 * CAPACITY,
{
    lemma_power_of_power(16, 8, 5);
    assert(power(16, 8) == word_base()) by {
        reveal_with_fuel(power, 9);
    }
    assert(power(word_base(), 5) == greatest() + 1) by {
        reveal_with_fuel(power, 6);
    }
    let full = power(16, 40);
    if digits.len() > 40 {
        let extra = (digits.len() - 41) as nat;
        lemma_value_at_least(digits, 16);
        lemma_power_adds(16, 40, extra);
        lemma_power_positive(16, extra);
        let more = power(16, extra);
        assert(full * more >= full) by (nonlinear_arith)
            requires
                more > 0,
        ;
    } else {
        let spare = (40 - digits.len()) as nat;
        lemma_value_bound(digits, 16);
        lemma_power_adds(16, digits.len(), spare);
        lemma_power_positive(16, spare);
        let used = power(16, digits.len());
        let more = power(16, spare);
        assert(used * more >= used) by (nonlinear_arith)
            requires
                more > 0,
        ;
    }
}

/// The characters of `text`, in order.
fn chars_of(text: &str) -> (chars: Vec<char>)
    ensures
        chars@ == text@,
{
    let mut chars: Vec<char> = Vec::new();
    for c in it: text.chars()
        invariant
            chars@.len() == it.index(),
            forall|i: int| 0 <= i < chars@.len() ==> chars@[i] == it.seq()[i],
            it.seq() == text@,
    {
        chars.push(c);
    }
    assert(chars@ =~= text@);
    chars
}

/// The number that `c` stands for as a hexadecimal digit, if it is one.
fn hex_digit(c: char) -> (digit: Option<u8>)
    ensures
        match digit {
            Some(value) => is_hex_digit(c) && value == hex_digit_value(c) && value < 16,
            None => !is_hex_digit(c),
        },
{
    if c >= '0' && c <= '9' {
        Some(((c as u32) - ('0' as u32)) as u8)
    } else if c >= 'a' && c <= 'f' {
        Some(((c as u32) - ('a' as u32) + 10) as u8)
    } else if c >= 'A' && c <= 'F' {
        Some(((c as u32) - ('A' as u32) + 10) as u8)
    } else {
        None
    }
}

/// The digits of the numeral in `hex` from its first digit that is not zero
/// on, or the reason why `hex` is no numeral.
fn significant_digits(hex: &str) -> (result: Result<Vec<u8>, GuidError>)
    ensures
        match result {
            Ok(digits) => {
                &&& hex_parse(hex@) == Ok::<nat, GuidError>(
                    digits_value(byte_digits(digits@), 16),
                )
                &&& digits_below(byte_digits(digits@), 16)
                &&& digits@.len() > 0 ==> digits@[0] > 0
            },
            Err(error) => hex_parse(hex@) == Err::<nat, GuidError>(error),
        },
{
    if hex.is_empty() {
        return Err(GuidError::HexFormatEmpty);
    }
    let chars = chars_of(hex);
    let total = chars.len();
    let mut start: usize = 0;
    if total >= 2 && chars[0] == '0' && (chars[1] == 'x' || chars[1] == 'X') {
        start = 2;
    }
    let ghost numeral = hex_numeral(hex@);
    let ghost prefix = start;
    assert(numeral =~= chars@.subrange(prefix as int, total as int));
    while start < total && chars[start] == '0'
        invariant
            prefix <= start <= total,
            total == chars@.len(),
            forall|i: int| prefix <= i < start ==> chars@[i] == '0',
        decreases total - start,
    {
        start += 1;
    }
    let mut digits: Vec<u8> = Vec::new();
    let mut position = start;
    while position < total
        invariant
            prefix <= start <= position <= total,
            total == chars@.len(),
            hex@.len() > 0,
            numeral == hex_numeral(hex@),
            numeral == chars@.subrange(prefix as int, total as int),
            byte_digits(digits@) == hex_digits(chars@.subrange(start as int, position as int)),
            forall|i: int| start <= i < position ==> is_hex_digit(#[trigger] chars@[i]),
            digits_below(byte_digits(digits@), 16),
        decreases total - position,
    {
        match hex_digit(chars[position]) {
            Some(digit) => {
                let ghost before = digits@;
                digits.push(digit);
                proof {
                    assert(byte_digits(digits@) =~= byte_digits(before).push(digit as nat));
                    assert(hex_digits(chars@.subrange(start as int, position + 1)) =~= hex_digits(
                        chars@.subrange(start as int, position as int),
                    ).push(digit as nat));
                    assert forall|i: int| 0 <= i < digits@.len() implies #[trigger] byte_digits(
                        digits@,
                    )[i] < 16 by {
                        if i < before.len() {
                            assert(byte_digits(before)[i] < 16);
                        }
                    }
                }
            },
            None => {
                assert(!is_hex_digit(numeral[position - prefix]));
                return Err(GuidError::HexFormatInvalid);
            },
        }
        position += 1;
    }
    proof {
        let body = chars@.subrange(start as int, total as int);
        let zeros = hex_digits(chars@.subrange(prefix as int, start as int));
        assert(hex_digits(numeral) =~= zeros + hex_digits(body));
        lemma_value_concat(zeros, hex_digits(body), 16);
        lemma_value_zeros(zeros, 16);
        assert(0 * power(16, hex_digits(body).len()) == 0);
        assert forall|i: int| 0 <= i < numeral.len() implies is_hex_digit(
            #[trigger] numeral[i],
        ) by {
            assert(numeral[i] == chars@[i + prefix]);
        }
        assert(all_hex_digits(numeral));
        if digits@.len() > 0 {
            assert(byte_digits(digits@)[0] == hex_digit_value(chars@[start as int]));
            assert(is_hex_digit(chars@[start as int]));
            assert(chars@[start as int] != '0');
        }
    }
    Ok(digits)
}

impl GUID {
    /// Whether [`GUID::from_hex_str`] may be called on `hex`: whether `hex` is
    /// no numeral, or the numeral of a number that an identifier can hold.
    pub fn hex_str_fits(hex: &str) -> (fits: bool)
        ensures
            fits == (hex_parse(hex@) matches Ok(number) ==> number <= greatest()),
    {
        match significant_digits(hex) {
            Ok(digits) => {
                proof {
                    lemma_digits_fit(byte_digits(digits@));
                }
                digits.len() <= 2 * CAPACITY
            },
            Err(_) => true,
        }
    }

    /// Reads an identifier from a hexadecimal numeral, which may begin with
    /// `0x` and may have leading zeros. The digits are taken two to a byte,
    /// with a lone first digit where their number is odd, and the bytes are
    /// read with the most significant byte first.
    ///
    /// The empty text is refused as [`GuidError::HexFormatEmpty`], and a
    /// character after the prefix that is no hexadecimal digit as
    /// [`GuidError::HexFormatInvalid`]. The number written is to be one that
    /// an identifier can hold.
    pub fn from_hex_str(hex: &str) -> (result: Result<GUID, GuidError>)
        requires
            hex_parse(hex@) matches Ok(number) ==> number <= greatest(),
        ensures
            match result {
                Ok(guid) => hex_parse(hex@) == Ok::<nat, GuidError>(guid@),
                Err(error) => hex_parse(hex@) == Err::<nat, GuidError>(error),
            },
    {
        let digits = match significant_digits(hex) {
            Ok(digits) => digits,
            Err(error) => {
                return Err(error);
            },
        };
        let count = digits.len();
        let mut bytes: Vec<u8> = Vec::new();
        let mut position: usize = 0;
        proof {
            lemma_digits_fit(byte_digits(digits@));
            assert(byte_digits(digits@.subrange(0, 0)) =~= Seq::empty());
            assert(byte_digits(bytes@) =~= Seq::empty());
        }
        if count % 2 != 0 {
            let low = digits[0];
            bytes.push(low);
            position = 1;
            proof {
                assert(byte_digits(bytes@) =~= seq![low as nat]);
                assert(byte_digits(digits@.subrange(0, 1)) =~= seq![low as nat]);
                lemma_value_single(low as nat, 16);
                lemma_value_single(low as nat, 256);
            }
        }
        while position < count
            invariant
                position <= count,
                count == digits@.len(),
                count <= 2 * CAPACITY,
                (count - position) % 2 == 0,
                digits_below(byte_digits(digits@), 16),
                bytes@.len() * 2 == position || bytes@.len() * 2 == position + 1,
                be_value(bytes@) == digits_value(
                    byte_digits(digits@.subrange(0, position as int)),
                    16,
                ),
            decreases count - position,
        {
            let high = digits[position];
            let low = digits[position + 1];
            let byte = high << 4 | low;
            let ghost before = bytes@;
            bytes.push(byte);
            proof {
                assert(byte_digits(digits@)[position as int] < 16);
                assert(byte_digits(digits@)[position + 1] < 16);
                assert(high < 16 && low < 16 ==> (high << 4 | low) == high * 16 + low)
                    by (bit_vector);
                let read = byte_digits(digits@.subrange(0, position as int));
                let more = byte_digits(digits@.subrange(0, position + 2));
                assert(more =~= read.push(high as nat).push(low as nat));
                lemma_value_push(read, 16, high as nat);
                lemma_value_push(read.push(high as nat), 16, low as nat);
                assert(byte_digits(bytes@) =~= byte_digits(before).push(byte as nat));
                lemma_value_push(byte_digits(before), 256, byte as nat);
            }
            position += 2;
        }
        assert(digits@.subrange(0, count as int) =~= digits@);
        Ok(GUID::from_bytes_be(bytes.as_slice()))
    }
}

} // verus!
