//! The identifier type.
//!
//! An identifier is an unsigned integer of 160 bits. It is held as five words
//! of 32 bits, the most significant word first, so that the order of the
//! words, taken one after the other, is the order of the numbers.

pub use crate::carry::word_base;
use crate::numeric::{
    digits_below, digits_value, fixed_digits, lemma_fixed_digits, lemma_lex_less_is_numeric,
    lemma_value_bound, lemma_value_concat, lemma_value_injective, lemma_value_single, lex_less,
    power,
};
use vstd::prelude::*;

verus! {

/// The number of words that make up an identifier.
pub const WORD_COUNT: usize = 5;

/// The number of bits in a word.
pub const WORD_BITS: u32 = 32;

/// The number of bytes in a word.
pub const WORD_BYTES: usize = 4;

/// The number of bytes that an identifier holds.
pub const CAPACITY: usize = 20;

/// The number of the greatest identifier: two to the power 160, less one.
pub open spec fn greatest() -> nat {
    0xffff_ffff_ffff_ffff_ffff_ffff_ffff_ffff_ffff_ffffnat
}

/// The words as digits of base [`word_base`].
pub open spec fn word_digits(words: Seq<u32>) -> Seq<nat> {
    Seq::new(words.len(), |i: int| words[i] as nat)
}

/// The number that `words` writes, most significant word first.
pub open spec fn words_value(words: Seq<u32>) -> nat {
    digits_value(word_digits(words), word_base())
}

/// The value of words splits into the first word at its weight and the value
/// of the words after it.
pub proof fn lemma_words_value_front(words: Seq<u32>)
    requires
        words.len() > 0,
    ensures
        words_value(words) == words[0] * power(word_base(), (words.len() - 1) as nat) + words_value(
            words.drop_first(),
        ),
{
    let first = seq![words[0] as nat];
    let rest = word_digits(words.drop_first());
    assert(word_digits(words) =~= first + rest);
    lemma_value_concat(first, rest, word_base());
    lemma_value_single(words[0] as nat, word_base());
}

/// As many words as an identifier has write a number that is at most
/// [`greatest`], which is one less than the word base raised to their count.
pub proof fn lemma_words_value_bound(words: Seq<u32>)
    requires
        words.len() == WORD_COUNT,
    ensures
        words_value(words) <= greatest(),
        power(word_base(), WORD_COUNT as nat) == greatest() + 1,
{
    assert(digits_below(word_digits(words), word_base()));
    lemma_value_bound(word_digits(words), word_base());
    assert(power(word_base(), 5) == greatest() + 1) by {
        reveal_with_fuel(power, 6);
    }
}

/// Words that are all zero write zero.
pub proof fn lemma_zero_words(words: Seq<u32>)
    requires
        forall|k: int| 0 <= k < words.len() ==> words[k] == 0,
    ensures
        words_value(words) == 0,
    decreases words.len(),
{
    if words.len() > 0 {
        lemma_zero_words(words.drop_last());
        assert(word_digits(words).drop_last() =~= word_digits(words.drop_last()));
    }
}

/// Words that are all at their greatest value write the greatest number of
/// their count.
pub proof fn lemma_full_words(words: Seq<u32>)
    requires
        forall|k: int| 0 <= k < words.len() ==> words[k] == u32::MAX,
    ensures
        words_value(words) + 1 == power(word_base(), words.len()),
    decreases words.len(),
{
    if words.len() > 0 {
        lemma_full_words(words.drop_last());
        assert(word_digits(words).drop_last() =~= word_digits(words.drop_last()));
    }
}

/// A point of the identifier space: an unsigned integer of 160 bits, held as
/// [`WORD_COUNT`] words with the most significant word first.
///
/// Identifiers are values: no operation changes one in place, and each may be
/// copied freely.
#[derive(Clone, Copy, Debug, Eq, Ord, Hash)]
pub struct GUID {
    bytes: [u32; WORD_COUNT],
}

impl View for GUID {
    type V = nat;

    /// The number that the identifier stands for.
    open spec fn view(&self) -> nat {
        words_value(self.words())
    }
}

impl GUID {
    /// The words of the identifier, most significant first.
    pub closed spec fn words(&self) -> Seq<u32> {
        self.bytes@
    }

    /// The identifier that stands for `number`, which is at most [`greatest`].
    pub open spec fn of_value(number: nat) -> GUID {
        choose|guid: GUID| guid@ == number
    }

    /// An identifier always has [`WORD_COUNT`] words.
    pub proof fn lemma_word_count(&self)
        ensures
            self.words().len() == WORD_COUNT,
    {
    }

    /// Identifiers with the same words are the same identifier.
    pub proof fn lemma_words_injective(self, other: GUID)
        requires
            self.words() == other.words(),
        ensures
            self == other,
    {
        assert(self.bytes =~= other.bytes);
    }

    /// Identifiers that stand for the same number are the same identifier.
    pub proof fn lemma_view_injective(self, other: GUID)
        requires
            self@ == other@,
        ensures
            self == other,
    {
        let a = word_digits(self.words());
        let b = word_digits(other.words());
        assert(digits_below(a, word_base()));
        assert(digits_below(b, word_base()));
        lemma_value_injective(a, b, word_base());
        assert forall|k: int| 0 <= k < WORD_COUNT implies self.words()[k] == other.words()[k] by {
            assert(a[k] == b[k]);
        }
        assert(self.words() =~= other.words());
        self.lemma_words_injective(other);
    }

    /// Every number up to [`greatest`] is the number of an identifier.
    pub proof fn lemma_of_value_exists(number: nat)
        requires
            number <= greatest(),
        ensures
            GUID::of_value(number)@ == number,
    {
        assert(power(word_base(), 5) == greatest() + 1) by {
            reveal_with_fuel(power, 6);
        }
        lemma_fixed_digits(number, word_base(), 5);
        let digits = fixed_digits(number, word_base(), 5);
        let words: [u32; WORD_COUNT] = [
            digits[0] as u32,
            digits[1] as u32,
            digits[2] as u32,
            digits[3] as u32,
            digits[4] as u32,
        ];
        let guid = GUID { bytes: words };
        assert(word_digits(guid.words()) =~= digits);
        assert(guid@ == number);
    }

    /// An identifier is the one that [`GUID::of_value`] names for its number,
    /// and its number is at most [`greatest`].
    pub proof fn lemma_of_value(self)
        ensures
            self == GUID::of_value(self@),
            self@ <= greatest(),
    {
        self.lemma_view_injective(GUID::of_value(self@));
        lemma_words_value_bound(self.words());
    }

    /// The identifier with the given words, most significant first.
    pub(crate) fn from_words(words: [u32; WORD_COUNT]) -> (guid: GUID)
        ensures
            guid.words() == words@,
    {
        GUID { bytes: words }
    }

    /// The words of the identifier, most significant first.
    pub fn to_words(&self) -> (words: [u32; WORD_COUNT])
        ensures
            words@ == self.words(),
    {
        self.bytes
    }

    /// The least identifier: every word zero.
    pub fn min_value() -> (guid: GUID)
        ensures
            guid.words() == Seq::new(WORD_COUNT as nat, |i: int| 0u32),
            guid@ == 0,
    {
        let words: [u32; WORD_COUNT] = [0; WORD_COUNT];
        proof {
            lemma_zero_words(words@);
        }
        GUID { bytes: words }
    }

    /// The greatest identifier: every word at its greatest value.
    pub fn max_value() -> (guid: GUID)
        ensures
            guid.words() == Seq::new(WORD_COUNT as nat, |i: int| u32::MAX),
            guid@ == greatest(),
    {
        let words: [u32; WORD_COUNT] = [u32::MAX; WORD_COUNT];
        proof {
            lemma_full_words(words@);
            lemma_words_value_bound(words@);
        }
        GUID { bytes: words }
    }

    /// Whether this identifier comes before `other`: whether, at the first
    /// word in which the two differ, this one holds the lesser word. That is
    /// the case exactly when it stands for the lesser number.
    pub fn precedes(&self, other: &Self) -> (before: bool)
        ensures
            before == lex_less(word_digits(self.words()), word_digits(other.words())),
            before == (self@ < other@),
    {
        let ghost left = word_digits(self.words());
        let ghost right = word_digits(other.words());
        proof {
            assert(digits_below(left, word_base()));
            assert(digits_below(right, word_base()));
            lemma_lex_less_is_numeric(left, right, word_base());
            lemma_lex_less_is_numeric(right, left, word_base());
        }
        let mut i: usize = 0;
        while i < WORD_COUNT
            invariant
                i <= WORD_COUNT,
                left == word_digits(self.words()),
                right == word_digits(other.words()),
                lex_less(left, right) <==> self@ < other@,
                lex_less(right, left) <==> other@ < self@,
                forall|k: int| 0 <= k < i ==> self.bytes@[k] == other.bytes@[k],
            decreases WORD_COUNT - i,
        {
            if self.bytes[i] < other.bytes[i] {
                proof {
                    assert(left.subrange(0, i as int) =~= right.subrange(0, i as int));
                    assert(left[i as int] < right[i as int]);
                }
                return true;
            }
            if self.bytes[i] > other.bytes[i] {
                proof {
                    assert(right.subrange(0, i as int) =~= left.subrange(0, i as int));
                    assert(right[i as int] < left[i as int]);
                }
                return false;
            }
            i += 1;
        }
        proof {
            assert(left =~= right);
        }
        false
    }
}

impl Default for GUID {
    /// The least identifier.
    fn default() -> (guid: GUID)
        ensures
            guid@ == 0,
            guid == GUID::of_value(0),
    {
        let guid = GUID::min_value();
        proof {
            guid.lemma_of_value();
        }
        guid
    }
}

} // verus!
