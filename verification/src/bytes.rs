//! Identifiers from bytes and from unsigned integers.
//!
//! Bytes are packed into the words from the least significant byte of the
//! least significant word on, eight bits at a time. Bytes in big-endian order
//! are taken from the last to the first, bytes in little-endian order from the
//! first to the last.

use crate::guid::{
    lemma_zero_words, word_base, word_digits, words_value, CAPACITY, GUID, WORD_BITS, WORD_BYTES,
    WORD_COUNT,
};
use crate::numeric::{
    byte_digits, digits_value, lemma_power_adds, lemma_power_of_power, lemma_value_concat,
    lemma_value_single, lemma_value_update, power,
};
use vstd::prelude::*;
use vstd::std_specs::convert::FromSpecImpl;

verus! {

/// The number that `bytes` writes when the first byte is the most significant.
pub open spec fn be_value(bytes: Seq<u8>) -> nat {
    digits_value(byte_digits(bytes), 256)
}

/// The number that `bytes` writes when the first byte is the least significant.
pub open spec fn le_value(bytes: Seq<u8>) -> nat
    decreases bytes.len(),
{
    if bytes.len() == 0 {
        0
    } else {
        bytes.first() as nat + 256 * le_value(bytes.drop_first())
    }
}

/// The weight of the byte at place `place` within its word, counted from the
/// least significant byte.
spec fn byte_weight(place: int) -> nat {
    if place == 0 {
        1
    } else if place == 1 {
        0x100
    } else if place == 2 {
        0x1_0000
    } else {
        0x100_0000
    }
}

/// The words hold nothing above their `filled` least significant bytes.
spec fn packed(words: Seq<u32>, filled: int) -> bool {
    &&& words.len() == WORD_COUNT
    &&& forall|k: int|
        0 <= k < WORD_COUNT ==> {
            &&& k < WORD_COUNT - 1 - filled / 4 ==> #[trigger] words[k] == 0
            &&& k == WORD_COUNT - 1 - filled / 4 ==> words[k] < byte_weight(filled % 4)
        }
}

/// A byte appended at the most significant end of little-endian bytes adds
/// the byte at the weight of its position.
pub proof fn lemma_le_value_push(bytes: Seq<u8>, byte: u8)
    ensures
        le_value(bytes.push(byte)) == le_value(bytes) + byte * power(256, bytes.len()),
    decreases bytes.len(),
{
    let longer = bytes.push(byte);
    if bytes.len() == 0 {
        assert(longer.drop_first() =~= Seq::<u8>::empty());
        reveal_with_fuel(le_value, 2);
        assert(byte * 1 == byte);
    } else {
        let rest = bytes.drop_first();
        lemma_le_value_push(rest, byte);
        assert(longer.drop_first() =~= rest.push(byte));
        let weight = power(256, rest.len());
        assert(power(256, bytes.len()) == 256 * weight);
        assert(256 * (byte * weight) == byte * (256 * weight)) by (nonlinear_arith);
    }
}

/// A byte put before big-endian bytes adds the byte at the weight of its
/// position.
pub proof fn lemma_be_value_front(bytes: Seq<u8>)
    requires
        bytes.len() > 0,
    ensures
        be_value(bytes) == bytes[0] * power(256, (bytes.len() - 1) as nat) + be_value(
            bytes.drop_first(),
        ),
{
    let first = seq![bytes[0] as nat];
    let rest = byte_digits(bytes.drop_first());
    assert(byte_digits(bytes) =~= first + rest);
    lemma_value_concat(first, rest, 256);
    lemma_value_single(bytes[0] as nat, 256);
}

/// The byte at position `position`, counted from the least significant end,
/// weighs as much as its place in its word times the weight of that word.
proof fn lemma_byte_position(position: nat)
    ensures
        power(256, position) == byte_weight(position as int % 4) * power(
            word_base(),
            position / 4,
        ),
{
    let place = position % 4;
    let word = position / 4;
    assert(power(256, 4) == word_base()) by {
        reveal_with_fuel(power, 5);
    }
    assert(power(256, place) == byte_weight(place as int)) by {
        reveal_with_fuel(power, 4);
    }
    lemma_power_of_power(256, 4, word);
    lemma_power_adds(256, place, 4 * word);
}

/// Setting a byte in the clear part of a word adds the byte at its weight.
proof fn lemma_set_byte(word: u32, byte: u8, offset: u32)
    requires
        offset == 0 || offset == 8 || offset == 16 || offset == 24,
        word < byte_weight(offset as int / 8),
    ensures
        (word | ((byte as u32) << offset)) == word + byte * byte_weight(offset as int / 8),
{
    let b = byte as u32;
    if offset == 0 {
        assert(word < 1 ==> (word | (b << 0u32)) == word + b) by (bit_vector);
    } else if offset == 8 {
        assert(word < 0x100 && b < 0x100 ==> (word | (b << 8u32)) == word + b * 0x100)
            by (bit_vector);
    } else if offset == 16 {
        assert(word < 0x1_0000 && b < 0x100 ==> (word | (b << 16u32)) == word + b * 0x1_0000)
            by (bit_vector);
    } else {
        assert(word < 0x100_0000 && b < 0x100 ==> (word | (b << 24u32)) == word + b * 0x100_0000)
            by (bit_vector);
    }
}

/// Sets the byte at position `position`, counted from the least significant
/// end, in words that hold nothing at or above that position. `offset` is the
/// number of bits below the byte in its word.
fn set_byte(words: [u32; WORD_COUNT], position: usize, offset: u32, byte: u8) -> (filled: [
    u32;
    WORD_COUNT
])
    requires
        position < CAPACITY,
        offset == 8 * (position % 4),
        packed(words@, position as int),
    ensures
        packed(filled@, position + 1),
        words_value(filled@) == words_value(words@) + byte * power(256, position as nat),
{
    let index = WORD_COUNT - 1 - position / WORD_BYTES;
    let word = words[index];
    let shifted = (byte as u32) << offset;
    let mut filled = words;
    filled[index] = word | shifted;
    proof {
        lemma_set_byte(word, byte, offset);
        lemma_byte_position(position as nat);
        let weight = byte_weight(position as int % 4);
        let digits = word_digits(words@);
        assert(word_digits(filled@) =~= digits.update(index as int, (word + byte * weight) as nat));
        lemma_value_update(digits, word_base(), index as int, (word + byte * weight) as nat);
        let place = power(word_base(), (position / 4) as nat);
        assert((word + byte * weight) * place == word * place + byte * (weight * place))
            by (nonlinear_arith);
        assert forall|k: int| 0 <= k < WORD_COUNT implies {
            &&& k < WORD_COUNT - 1 - (position + 1) / 4 ==> #[trigger] filled@[k] == 0
            &&& k == WORD_COUNT - 1 - (position + 1) / 4 ==> filled@[k] < byte_weight(
                (position + 1) % 4,
            )
        } by {
            if k != index {
                assert(filled@[k] == words@[k]);
            }
        }
    }
    filled
}

/// The `width` bytes that write `value`, the most significant byte first.
fn be_bytes(value: u128, width: usize) -> (bytes: Vec<u8>)
    requires
        1 <= width <= 16,
        value < power(256, width as nat),
    ensures
        bytes@.len() == width,
        be_value(bytes@) == value,
{
    let mut bytes: Vec<u8> = vec![0; width];
    let mut rest = value;
    let mut filled: usize = 0;
    assert(byte_digits(bytes@.subrange(width as int, width as int)) =~= Seq::empty());
    assert(rest * power(256, 0) == rest) by {
        assert(power(256, 0) == 1);
    }
    while filled < width
        invariant
            bytes@.len() == width,
            filled <= width,
            value == rest * power(256, filled as nat) + be_value(
                bytes@.subrange(width - filled, width as int),
            ),
        decreases width - filled,
    {
        let byte = (rest % 256) as u8;
        let ghost before = bytes@;
        bytes.set(width - 1 - filled, byte);
        proof {
            let more = bytes@.subrange(width - filled - 1, width as int);
            assert(more.drop_first() =~= before.subrange(width - filled, width as int));
            lemma_be_value_front(more);
            let weight = power(256, filled as nat);
            assert(power(256, (filled + 1) as nat) == 256 * weight);
            let quotient = rest / 256;
            assert(rest == quotient * 256 + byte);
            assert((quotient * 256 + byte) * weight == quotient * (256 * weight) + byte * weight)
                by (nonlinear_arith);
        }
        rest = rest / 256;
        filled += 1;
    }
    proof {
        assert(bytes@.subrange(0, width as int) =~= bytes@);
        let weight = power(256, width as nat);
        assert(rest == 0) by (nonlinear_arith)
            requires
                rest * weight <= value,
                value < weight,
        ;
        assert(rest * weight == 0);
    }
    bytes
}

impl GUID {
    /// Reads an identifier from bytes, the most significant byte first. Fewer
    /// bytes than [`CAPACITY`] stand for a number with leading zero bytes.
    pub fn from_bytes_be(bytes: &[u8]) -> (guid: GUID)
        requires
            bytes@.len() <= CAPACITY,
        ensures
            guid@ == be_value(bytes@),
    {
        let count = bytes.len();
        let mut words: [u32; WORD_COUNT] = [0; WORD_COUNT];
        let mut offset: u32 = 0;
        let mut i: usize = 0;
        proof {
            assert(byte_digits(bytes@.subrange(count as int, count as int)) =~= Seq::empty());
            lemma_zero_words(words@);
        }
        while i < count
            invariant
                count == bytes@.len(),
                count <= CAPACITY,
                i <= count,
                offset == 8 * (i % 4),
                packed(words@, i as int),
                words_value(words@) == be_value(bytes@.subrange(count - i, count as int)),
            decreases count - i,
        {
            let byte = bytes[count - 1 - i];
            proof {
                let more = bytes@.subrange(count - i - 1, count as int);
                assert(more.drop_first() =~= bytes@.subrange(count - i, count as int));
                lemma_be_value_front(more);
            }
            words = set_byte(words, i, offset, byte);
            offset = (offset + 8) % WORD_BITS;
            i += 1;
        }
        assert(bytes@.subrange(0, count as int) =~= bytes@);
        GUID::from_words(words)
    }

    /// Reads an identifier from bytes, the least significant byte first. Fewer
    /// bytes than [`CAPACITY`] stand for a number with zero bytes above them.
    pub fn from_bytes_le(bytes: &[u8]) -> (guid: GUID)
        requires
            bytes@.len() <= CAPACITY,
        ensures
            guid@ == le_value(bytes@),
    {
        let count = bytes.len();
        let mut words: [u32; WORD_COUNT] = [0; WORD_COUNT];
        let mut offset: u32 = 0;
        let mut i: usize = 0;
        proof {
            lemma_zero_words(words@);
        }
        while i < count
            invariant
                count == bytes@.len(),
                count <= CAPACITY,
                i <= count,
                offset == 8 * (i % 4),
                packed(words@, i as int),
                words_value(words@) == le_value(bytes@.subrange(0, i as int)),
            decreases count - i,
        {
            let byte = bytes[i];
            proof {
                lemma_le_value_push(bytes@.subrange(0, i as int), byte);
                assert(bytes@.subrange(0, i + 1) =~= bytes@.subrange(0, i as int).push(byte));
            }
            words = set_byte(words, i, offset, byte);
            offset = (offset + 8) % WORD_BITS;
            i += 1;
        }
        assert(bytes@.subrange(0, count as int) =~= bytes@);
        GUID::from_words(words)
    }

    /// The identifier that stands for `value`, read from the `width` bytes
    /// that write it in big-endian order.
    fn from_integer(value: u128, width: usize) -> (guid: GUID)
        requires
            1 <= width <= 16,
            value < power(256, width as nat),
        ensures
            guid@ == value,
            guid == GUID::of_value(value as nat),
    {
        let bytes = be_bytes(value, width);
        let guid = GUID::from_bytes_be(bytes.as_slice());
        proof {
            guid.lemma_of_value();
        }
        guid
    }
}

impl From<u8> for GUID {
    fn from(value: u8) -> (guid: GUID)
        ensures
            guid@ == value,
    {
        proof {
            reveal_with_fuel(power, 2);
        }
        GUID::from_integer(value as u128, 1)
    }
}

impl FromSpecImpl<u8> for GUID {
    open spec fn obeys_from_spec() -> bool {
        true
    }

    open spec fn from_spec(value: u8) -> GUID {
        GUID::of_value(value as nat)
    }
}

impl From<u16> for GUID {
    fn from(value: u16) -> (guid: GUID)
        ensures
            guid@ == value,
    {
        proof {
            reveal_with_fuel(power, 3);
        }
        GUID::from_integer(value as u128, 2)
    }
}

impl FromSpecImpl<u16> for GUID {
    open spec fn obeys_from_spec() -> bool {
        true
    }

    open spec fn from_spec(value: u16) -> GUID {
        GUID::of_value(value as nat)
    }
}

impl From<u32> for GUID {
    fn from(value: u32) -> (guid: GUID)
        ensures
            guid@ == value,
    {
        proof {
            reveal_with_fuel(power, 5);
        }
        GUID::from_integer(value as u128, 4)
    }
}

impl FromSpecImpl<u32> for GUID {
    open spec fn obeys_from_spec() -> bool {
        true
    }

    open spec fn from_spec(value: u32) -> GUID {
        GUID::of_value(value as nat)
    }
}

impl From<u64> for GUID {
    fn from(value: u64) -> (guid: GUID)
        ensures
            guid@ == value,
    {
        proof {
            reveal_with_fuel(power, 9);
        }
        GUID::from_integer(value as u128, 8)
    }
}

impl FromSpecImpl<u64> for GUID {
    open spec fn obeys_from_spec() -> bool {
        true
    }

    open spec fn from_spec(value: u64) -> GUID {
        GUID::of_value(value as nat)
    }
}

impl From<u128> for GUID {
    fn from(value: u128) -> (guid: GUID)
        ensures
            guid@ == value,
    {
        proof {
            reveal_with_fuel(power, 17);
        }
        GUID::from_integer(value, 16)
    }
}

impl FromSpecImpl<u128> for GUID {
    open spec fn obeys_from_spec() -> bool {
        true
    }

    open spec fn from_spec(value: u128) -> GUID {
        GUID::of_value(value as nat)
    }
}

} // verus!
