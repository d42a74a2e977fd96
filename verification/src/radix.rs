//! The text forms of an identifier: hexadecimal and binary.
//!
//! An identifier is written as the shortest numeral of its number: the first
//! word that is not zero without padding, every word after it padded with
//! zeros to the full width of a word, and the single digit `0` for zero.

use crate::guid::{word_base, word_digits, words_value, GUID, WORD_COUNT};
use crate::numeric::{
    byte_digits, digits_below, digits_value, fixed_digits, lemma_fixed_digits,
    lemma_minimal_digits, lemma_minimal_digits_unique, lemma_power_of_power, lemma_value_concat,
    lemma_value_zeros, minimal_digits, power,
};
use vstd::prelude::*;
use vstd::string::StringExecFns;

verus! {

/// The character that writes `digit`, a digit of a base up to sixteen, with
/// the letters in upper case if `upper` says so.
pub open spec fn digit_char(digit: nat, upper: bool) -> char {
    if digit == 0 {
        '0'
    } else if digit == 1 {
        '1'
    } else if digit == 2 {
        '2'
    } else if digit == 3 {
        '3'
    } else if digit == 4 {
        '4'
    } else if digit == 5 {
        '5'
    } else if digit == 6 {
        '6'
    } else if digit == 7 {
        '7'
    } else if digit == 8 {
        '8'
    } else if digit == 9 {
        '9'
    } else if digit == 10 {
        if upper {
            'A'
        } else {
            'a'
        }
    } else if digit == 11 {
        if upper {
            'B'
        } else {
            'b'
        }
    } else if digit == 12 {
        if upper {
            'C'
        } else {
            'c'
        }
    } else if digit == 13 {
        if upper {
            'D'
        } else {
            'd'
        }
    } else if digit == 14 {
        if upper {
            'E'
        } else {
            'e'
        }
    } else {
        if upper {
            'F'
        } else {
            'f'
        }
    }
}

/// The numeral of `number` in base `base`: its shortest digits, each written
/// as a character, and `0` for zero.
pub open spec fn numeral(number: nat, base: nat, upper: bool) -> Seq<char> {
    if number == 0 {
        seq!['0']
    } else {
        let digits = minimal_digits(number, base);
        Seq::new(digits.len(), |i: int| digit_char(digits[i], upper))
    }
}

/// The base whose digits hold `bits` bits each: two for one bit, sixteen for
/// four.
spec fn base_of(bits: u32) -> nat {
    if bits == 4 {
        16
    } else {
        2
    }
}

/// The number of digits of `bits` bits each that fill a word.
spec fn digits_per_word(bits: u32) -> nat {
    if bits == 4 {
        8
    } else {
        32
    }
}

/// A word is as many digits as fill it.
proof fn lemma_word_is_digits(bits: u32)
    requires
        bits == 1 || bits == 4,
    ensures
        power(base_of(bits), digits_per_word(bits)) == word_base(),
{
    assert(power(16, 8) == word_base()) by {
        reveal_with_fuel(power, 9);
    }
    assert(power(2, 4) == 16) by {
        reveal_with_fuel(power, 5);
    }
    if bits == 1 {
        lemma_power_of_power(2, 4, 8);
    }
}

/// The digits of `word` in full width, most significant first: with leading
/// zeros where the word is short.
fn padded_digits(word: u32, bits: u32) -> (digits: Vec<u8>)
    requires
        bits == 1 || bits == 4,
    ensures
        byte_digits(digits@) == fixed_digits(word as nat, base_of(bits), digits_per_word(bits)),
{
    let base: u32 = if bits == 4 { 16 } else { 2 };
    let count: usize = if bits == 4 { 8 } else { 32 };
    let mut digits: Vec<u8> = vec![0; count];
    let mut rest = word;
    let mut done: usize = 0;
    proof {
        let all = fixed_digits(word as nat, base as nat, count as nat);
        assert(byte_digits(digits@.subrange(count as int, count as int)) =~= Seq::empty());
        assert(all =~= all + Seq::empty());
    }
    while done < count
        invariant
            digits@.len() == count,
            done <= count,
            base == base_of(bits),
            count == digits_per_word(bits),
            fixed_digits(word as nat, base as nat, count as nat) == fixed_digits(
                rest as nat,
                base as nat,
                (count - done) as nat,
            ) + byte_digits(digits@.subrange(count - done, count as int)),
        decreases count - done,
    {
        let digit = (rest % base) as u8;
        let ghost before = digits@;
        digits.set(count - 1 - done, digit);
        proof {
            let low = byte_digits(before.subrange(count - done, count as int));
            let more = byte_digits(digits@.subrange(count - done - 1, count as int));
            assert(more =~= seq![digit as nat] + low);
            let high = fixed_digits((rest / base) as nat, base as nat, (count - done - 1) as nat);
            assert(fixed_digits(rest as nat, base as nat, (count - done) as nat) == high.push(
                digit as nat,
            ));
            assert(high.push(digit as nat) + low =~= high + more);
        }
        rest = rest / base;
        done += 1;
    }
    proof {
        assert(digits@.subrange(0, count as int) =~= digits@);
        assert(fixed_digits(rest as nat, base as nat, 0) + byte_digits(digits@) =~= byte_digits(
            digits@,
        ));
    }
    digits
}

/// The number of zeros with which `digits` begins.
fn leading_zeros(digits: &Vec<u8>) -> (count: usize)
    ensures
        count <= digits@.len(),
        forall|j: int| 0 <= j < count ==> digits@[j] == 0,
        count < digits@.len() ==> digits@[count as int] != 0,
{
    let mut count: usize = 0;
    while count < digits.len() && digits[count] == 0
        invariant
            count <= digits@.len(),
            forall|j: int| 0 <= j < count ==> digits@[j] == 0,
        decreases digits@.len() - count,
    {
        count += 1;
    }
    count
}

/// Appends the digits of `source` from the place `from` on to `digits`.
fn append_digits(digits: &mut Vec<u8>, source: &Vec<u8>, from: usize)
    requires
        from <= source@.len(),
    ensures
        final(digits)@ == old(digits)@ + source@.subrange(from as int, source@.len() as int),
{
    let mut k = from;
    assert(source@.subrange(from as int, from as int) =~= Seq::empty());
    assert(digits@ =~= old(digits)@ + Seq::empty());
    while k < source.len()
        invariant
            from <= k <= source@.len(),
            digits@ == old(digits)@ + source@.subrange(from as int, k as int),
        decreases source@.len() - k,
    {
        digits.push(source[k]);
        proof {
            assert(source@.subrange(from as int, k + 1) =~= source@.subrange(
                from as int,
                k as int,
            ).push(source@[k as int]));
            assert(digits@ =~= old(digits)@ + source@.subrange(from as int, k + 1));
        }
        k += 1;
    }
}

/// The text of one digit of a base up to sixteen.
fn digit_text(digit: u8, upper: bool) -> (text: &'static str)
    requires
        digit < 16,
    ensures
        text@ == seq![digit_char(digit as nat, upper)],
{
    proof {
        reveal_strlit("0");
        reveal_strlit("1");
        reveal_strlit("2");
        reveal_strlit("3");
        reveal_strlit("4");
        reveal_strlit("5");
        reveal_strlit("6");
        reveal_strlit("7");
        reveal_strlit("8");
        reveal_strlit("9");
        reveal_strlit("a");
        reveal_strlit("b");
        reveal_strlit("c");
        reveal_strlit("d");
        reveal_strlit("e");
        reveal_strlit("f");
        reveal_strlit("A");
        reveal_strlit("B");
        reveal_strlit("C");
        reveal_strlit("D");
        reveal_strlit("E");
        reveal_strlit("F");
    }
    let text = match digit {
        0 => "0",
        1 => "1",
        2 => "2",
        3 => "3",
        4 => "4",
        5 => "5",
        6 => "6",
        7 => "7",
        8 => "8",
        9 => "9",
        10 => if upper { "A" } else { "a" },
        11 => if upper { "B" } else { "b" },
        12 => if upper { "C" } else { "c" },
        13 => if upper { "D" } else { "d" },
        14 => if upper { "E" } else { "e" },
        _ => if upper { "F" } else { "f" },
    };
    assert(text@ =~= seq![digit_char(digit as nat, upper)]);
    text
}

impl GUID {
    /// The shortest digits of the identifier's number in the base whose digits
    /// hold `bits` bits each, most significant first; none for zero.
    ///
    /// The words are taken from the most significant on. Words that are zero
    /// are passed over until one is not; that word gives its digits without
    /// leading zeros, and every word after it gives all the digits of a word.
    fn radix_digits(&self, bits: u32) -> (digits: Vec<u8>)
        requires
            bits == 1 || bits == 4,
        ensures
            byte_digits(digits@) == minimal_digits(self@, base_of(bits)),
    {
        let words = self.to_words();
        let ghost base = base_of(bits);
        let mut digits: Vec<u8> = Vec::new();
        let mut i: usize = 0;
        proof {
            self.lemma_word_count();
            assert(word_digits(words@.subrange(0, 0)) =~= Seq::empty());
            assert(byte_digits(digits@) =~= Seq::empty());
        }
        while i < WORD_COUNT
            invariant
                i <= WORD_COUNT,
                bits == 1 || bits == 4,
                base == base_of(bits),
                words@.len() == WORD_COUNT,
                digits_below(byte_digits(digits@), base),
                digits@.len() > 0 ==> digits@[0] != 0,
                digits_value(byte_digits(digits@), base) == words_value(
                    words@.subrange(0, i as int),
                ),
            decreases WORD_COUNT - i,
        {
            let word = words[i];
            let padded = padded_digits(word, bits);
            let from = if digits.len() == 0 {
                leading_zeros(&padded)
            } else {
                0
            };
            let ghost before = byte_digits(digits@);
            append_digits(&mut digits, &padded, from);
            proof {
                let full = byte_digits(padded@);
                let skipped = full.subrange(0, from as int);
                let kept = full.subrange(from as int, full.len() as int);
                lemma_word_is_digits(bits);
                lemma_fixed_digits(word as nat, base, digits_per_word(bits));
                assert(full =~= skipped + kept);
                lemma_value_concat(skipped, kept, base);
                lemma_value_zeros(skipped, base);
                assert(0 * power(base, kept.len()) == 0);
                assert(digits_value(kept, base) == word);
                assert(byte_digits(digits@) =~= before + kept);
                lemma_value_concat(before, kept, base);
                if before.len() > 0 {
                    assert(kept =~= full);
                }
                assert(word_digits(words@.subrange(0, i + 1)).drop_last() =~= word_digits(
                    words@.subrange(0, i as int),
                ));
                assert forall|j: int| 0 <= j < digits@.len() implies #[trigger] byte_digits(
                    digits@,
                )[j] < base by {
                    if j < before.len() {
                        assert(before[j] < base);
                    } else {
                        assert(kept[j - before.len()] == full[j - before.len() + from]);
                    }
                }
                if digits@.len() > 0 {
                    if before.len() > 0 {
                        assert(byte_digits(digits@)[0] == before[0]);
                    } else {
                        assert(byte_digits(digits@)[0] == full[from as int]);
                    }
                }
            }
            i += 1;
        }
        proof {
            assert(words@.subrange(0, WORD_COUNT as int) =~= words@);
            assert(byte_digits(digits@).len() > 0 ==> byte_digits(digits@)[0] != 0);
            lemma_minimal_digits_unique(byte_digits(digits@), base);
        }
        digits
    }

    /// The numeral of the identifier in the base whose digits hold `bits` bits
    /// each.
    fn to_numeral(&self, bits: u32, upper: bool) -> (text: String)
        requires
            bits == 1 || bits == 4,
        ensures
            text@ == numeral(self@, base_of(bits), upper),
    {
        let digits = self.radix_digits(bits);
        let ghost base = base_of(bits);
        let ghost shortest = minimal_digits(self@, base);
        proof {
            lemma_minimal_digits(self@, base);
        }
        let mut text = String::new();
        if digits.len() == 0 {
            text.append(digit_text(0, upper));
            return text;
        }
        let mut i: usize = 0;
        while i < digits.len()
            invariant
                i <= digits@.len(),
                byte_digits(digits@) == shortest,
                digits_below(shortest, base),
                base <= 16,
                text@ == Seq::new(i as nat, |k: int| digit_char(shortest[k], upper)),
            decreases digits@.len() - i,
        {
            let digit = digits[i];
            proof {
                assert(shortest[i as int] == digit);
                assert(shortest[i as int] < base);
            }
            text.append(digit_text(digit, upper));
            proof {
                assert(text@ =~= Seq::new((i + 1) as nat, |k: int| digit_char(shortest[k], upper)));
            }
            i += 1;
        }
        text
    }

    /// The identifier in hexadecimal, with the letters in lower case.
    pub fn to_lower_hex(&self) -> (text: String)
        ensures
            text@ == numeral(self@, 16, false),
    {
        self.to_numeral(4, false)
    }

    /// The identifier in hexadecimal, with the letters in upper case.
    pub fn to_upper_hex(&self) -> (text: String)
        ensures
            text@ == numeral(self@, 16, true),
    {
        self.to_numeral(4, true)
    }

    /// The identifier in binary.
    pub fn to_binary(&self) -> (text: String)
        ensures
            text@ == numeral(self@, 2, false),
    {
        self.to_numeral(1, false)
    }
}

} // verus!
