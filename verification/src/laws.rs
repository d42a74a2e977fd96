//! What holds of identifiers whatever their values: the laws that relate the
//! ways of making, writing and reading them.

use crate::arith::{saturated_difference, saturated_sum};
use crate::bytes::{be_value, le_value};
use crate::error::GuidError;
use crate::guid::{greatest, GUID};
use crate::hex::{
    all_hex_digits, has_hex_prefix, hex_digit_value, hex_digits, hex_numeral, hex_parse,
    is_hex_digit,
};
use crate::numeric::{
    byte_digits, digits_below, digits_value, lemma_minimal_digits, minimal_digits,
};
use crate::radix::{digit_char, numeral};
use vstd::prelude::*;
use vstd::std_specs::convert::FromSpec;
use vstd::std_specs::ops::{AddSpec, SubSpec};

verus! {

/// Bytes read with the most significant byte first write the same number as
/// the same bytes in reverse order read with the least significant byte first.
pub proof fn lemma_byte_orders_agree(bytes: Seq<u8>)
    ensures
        be_value(bytes) == le_value(bytes.reverse()),
    decreases bytes.len(),
{
    if bytes.len() == 0 {
        assert(byte_digits(bytes) =~= Seq::empty());
        assert(bytes.reverse() =~= Seq::<u8>::empty());
    } else {
        let shorter = bytes.drop_last();
        lemma_byte_orders_agree(shorter);
        assert(byte_digits(bytes).drop_last() =~= byte_digits(shorter));
        assert(bytes.reverse().drop_first() =~= shorter.reverse());
        assert(bytes.reverse().first() == bytes.last());
    }
}

/// The identifier read from bytes in big-endian order is the identifier read
/// from the reversed bytes in little-endian order.
pub proof fn law_byte_order_round_trip(bytes: Seq<u8>, from_be: GUID, from_le: GUID)
    requires
        from_be@ == be_value(bytes),
        from_le@ == le_value(bytes.reverse()),
    ensures
        from_be == from_le,
{
    lemma_byte_orders_agree(bytes);
    from_be.lemma_view_injective(from_le);
}

/// The identifier made from an unsigned integer of any width is written in
/// hexadecimal as the integer itself is: by the shortest numeral of its
/// number.
pub proof fn law_hex_of_integer(n8: u8, n16: u16, n32: u32, n64: u64, n128: u128, upper: bool)
    ensures
        numeral(GUID::from_spec(n8)@, 16, upper) == numeral(n8 as nat, 16, upper),
        numeral(GUID::from_spec(n16)@, 16, upper) == numeral(n16 as nat, 16, upper),
        numeral(GUID::from_spec(n32)@, 16, upper) == numeral(n32 as nat, 16, upper),
        numeral(GUID::from_spec(n64)@, 16, upper) == numeral(n64 as nat, 16, upper),
        numeral(GUID::from_spec(n128)@, 16, upper) == numeral(n128 as nat, 16, upper),
{
    GUID::lemma_of_value_exists(n8 as nat);
    GUID::lemma_of_value_exists(n16 as nat);
    GUID::lemma_of_value_exists(n32 as nat);
    GUID::lemma_of_value_exists(n64 as nat);
    GUID::lemma_of_value_exists(n128 as nat);
}

/// Nothing added to the greatest identifier changes it, and nothing taken
/// from the least identifier changes it.
pub proof fn law_saturation(guid: GUID)
    ensures
        saturated_sum(greatest(), guid@) == greatest(),
        saturated_difference(0, guid@) == 0,
        GUID::of_value(greatest()).add_spec(guid) == GUID::of_value(greatest()),
        GUID::of_value(0).sub_spec(guid) == GUID::of_value(0),
{
    GUID::lemma_of_value_exists(greatest());
    GUID::lemma_of_value_exists(0);
}

/// Below the greatest identifier, sums and differences are those of the
/// numbers, and taking away what was added gives back the first identifier.
pub proof fn law_arithmetic_below_saturation(a: GUID, b: GUID)
    ensures
        a@ + b@ <= greatest() ==> a.add_spec(b)@ == a@ + b@,
        a@ >= b@ ==> a.sub_spec(b)@ == a@ - b@,
        a@ + b@ <= greatest() ==> a.add_spec(b).sub_spec(b) == a,
{
    a.lemma_of_value();
    b.lemma_of_value();
    if a@ + b@ <= greatest() {
        GUID::lemma_of_value_exists(a@ + b@);
    }
    if a@ >= b@ {
        GUID::lemma_of_value_exists((a@ - b@) as nat);
    }
}

/// The character of a hexadecimal digit, in either case, stands for the digit.
pub proof fn lemma_digit_char_reads_back(digit: nat, upper: bool)
    requires
        digit < 16,
    ensures
        is_hex_digit(digit_char(digit, upper)),
        hex_digit_value(digit_char(digit, upper)) == digit,
{
}

/// The hexadecimal text of a number reads back as that number.
pub proof fn law_hex_text_round_trip(number: nat, upper: bool)
    ensures
        hex_parse(numeral(number, 16, upper)) == Ok::<nat, GuidError>(number),
{
    let text = numeral(number, 16, upper);
    lemma_minimal_digits(number, 16);
    let digits = minimal_digits(number, 16);
    if number == 0 {
        assert(!has_hex_prefix(text));
        assert(hex_digits(text) =~= seq![0nat]);
        assert(seq![0nat].drop_last() =~= Seq::<nat>::empty());
        reveal_with_fuel(digits_value, 2);
    } else {
        assert(digits_below(digits, 16));
        lemma_digit_char_reads_back(digits[0], upper);
        assert(text[0] == digit_char(digits[0], upper));
        assert(text[0] != '0');
        assert(!has_hex_prefix(text));
        assert forall|i: int| 0 <= i < text.len() implies is_hex_digit(#[trigger] text[i]) by {
            assert(digits[i] < 16);
            lemma_digit_char_reads_back(digits[i], upper);
        }
        assert(all_hex_digits(hex_numeral(text)));
        assert forall|i: int| 0 <= i < text.len() implies hex_digits(text)[i] == digits[i] by {
            assert(digits[i] < 16);
            lemma_digit_char_reads_back(digits[i], upper);
        }
        assert(hex_digits(text) =~= digits);
    }
}

/// The lower-case form of a letter of the alphabet; any other character
/// unchanged.
pub open spec fn ascii_lower(c: char) -> char {
    if 'A' <= c && c <= 'Z' {
        ((c as int) + 32) as char
    } else {
        c
    }
}

/// The text with every letter in lower case.
pub open spec fn lower_case(text: Seq<char>) -> Seq<char> {
    Seq::new(text.len(), |i: int| ascii_lower(text[i]))
}

/// A text reads the same whatever the case of its letters.
pub proof fn law_hex_case_insensitive(text: Seq<char>)
    ensures
        hex_parse(lower_case(text)) == hex_parse(text),
{
    let lower = lower_case(text);
    assert(has_hex_prefix(lower) == has_hex_prefix(text)) by {
        if text.len() >= 2 {
            assert(lower[0] == ascii_lower(text[0]));
            assert(lower[1] == ascii_lower(text[1]));
        }
    }
    let numeral = hex_numeral(text);
    let lowered = hex_numeral(lower);
    assert(lowered =~= lower_case(numeral));
    assert forall|i: int| 0 <= i < numeral.len() implies is_hex_digit(#[trigger] lowered[i])
        == is_hex_digit(numeral[i]) && hex_digit_value(lowered[i]) == hex_digit_value(
        numeral[i],
    ) by {
        assert(lowered[i] == ascii_lower(numeral[i]));
    }
    if all_hex_digits(numeral) {
        assert forall|i: int| 0 <= i < lowered.len() implies is_hex_digit(
            #[trigger] lowered[i],
        ) by {
            assert(is_hex_digit(numeral[i]));
        }
    }
    if all_hex_digits(lowered) {
        assert forall|i: int| 0 <= i < numeral.len() implies is_hex_digit(
            #[trigger] numeral[i],
        ) by {
            assert(is_hex_digit(lowered[i]));
        }
    }
    assert(hex_digits(lowered) =~= hex_digits(numeral));
}

} // verus!
