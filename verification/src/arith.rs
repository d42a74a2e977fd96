//! Saturating arithmetic on identifiers.
//!
//! Sums and differences are taken word by word from the least significant
//! word to the most significant, with a single-bit carry handed from each word
//! to the next. A carry out of the most significant word means that the result
//! does not fit: the sum is then the greatest identifier and the difference the
//! least. The operators `+`, `+=`, `-` and `-=` are these same operations.

use crate::carry::{add_carry, sub_carry};
use crate::guid::{
    greatest, lemma_words_value_bound, lemma_words_value_front, word_base, words_value, GUID,
    WORD_COUNT,
};
use crate::numeric::power;
use core::ops::{Add, AddAssign, Sub, SubAssign};
use vstd::prelude::*;
use vstd::std_specs::ops::{AddSpecImpl, SubSpecImpl};

verus! {

/// The sum of two numbers, held at [`greatest`] where it would pass it.
pub open spec fn saturated_sum(a: nat, b: nat) -> nat {
    if a + b <= greatest() {
        a + b
    } else {
        greatest()
    }
}

/// The difference of two numbers, held at zero where the second is the
/// greater.
pub open spec fn saturated_difference(a: nat, b: nat) -> nat {
    if a >= b {
        (a - b) as nat
    } else {
        0
    }
}

/// The words from `from` on.
spec fn low_words(words: Seq<u32>, from: int) -> Seq<u32> {
    words.subrange(from, words.len() as int)
}

/// The value of the words from `from` on splits into the word at `from`, at
/// its weight, and the value of the words after it.
proof fn lemma_low_words_step(words: Seq<u32>, from: int)
    requires
        0 <= from < words.len(),
    ensures
        words_value(low_words(words, from)) == words[from] * power(
            word_base(),
            (words.len() - 1 - from) as nat,
        ) + words_value(low_words(words, from + 1)),
{
    assert(low_words(words, from).drop_first() =~= low_words(words, from + 1));
    lemma_words_value_front(low_words(words, from));
}

impl GUID {
    /// The sum of two identifiers, or the greatest identifier where the sum
    /// would pass it.
    pub fn saturating_add(&self, rhs: &Self) -> (sum: Self)
        ensures
            sum@ == saturated_sum(self@, rhs@),
    {
        let a = self.to_words();
        let b = rhs.to_words();
        let mut words: [u32; WORD_COUNT] = [0; WORD_COUNT];
        let mut carry: u8 = 0;
        let mut i: usize = WORD_COUNT;
        proof {
            assert(low_words(words@, i as int) =~= Seq::<u32>::empty());
            assert(low_words(a@, i as int) =~= Seq::<u32>::empty());
            assert(low_words(b@, i as int) =~= Seq::<u32>::empty());
            assert(words_value(Seq::<u32>::empty()) == 0);
        }
        while i > 0
            invariant
                i <= WORD_COUNT,
                carry <= 1,
                words_value(low_words(words@, i as int)) + carry * power(
                    word_base(),
                    (WORD_COUNT - i) as nat,
                ) == words_value(low_words(a@, i as int)) + words_value(low_words(b@, i as int)),
            decreases i,
        {
            i -= 1;
            let ghost before = words@;
            let ghost carry_in = carry;
            let mut out: u32 = 0;
            carry = add_carry(carry, a[i], b[i], &mut out);
            words[i] = out;
            proof {
                assert(low_words(words@, i + 1) =~= low_words(before, i + 1));
                lemma_low_words_step(words@, i as int);
                lemma_low_words_step(a@, i as int);
                lemma_low_words_step(b@, i as int);
                let weight = power(word_base(), (WORD_COUNT - 1 - i) as nat);
                assert(power(word_base(), (WORD_COUNT - i) as nat) == word_base() * weight);
                assert((out + carry * word_base()) * weight == (a[i as int] + b[i as int]
                    + carry_in) * weight);
                assert((out + carry * word_base()) * weight == out * weight + carry * (word_base()
                    * weight)) by (nonlinear_arith);
                assert((a[i as int] + b[i as int] + carry_in) * weight == a[i as int] * weight
                    + b[i as int] * weight + carry_in * weight) by (nonlinear_arith);
            }
        }
        proof {
            assert(low_words(words@, 0) =~= words@);
            assert(low_words(a@, 0) =~= a@);
            assert(low_words(b@, 0) =~= b@);
            lemma_words_value_bound(words@);
        }
        if carry > 0 {
            GUID::max_value()
        } else {
            GUID::from_words(words)
        }
    }

    /// The difference of two identifiers, or the least identifier where the
    /// second is the greater.
    pub fn saturating_sub(&self, rhs: &Self) -> (difference: Self)
        ensures
            difference@ == saturated_difference(self@, rhs@),
    {
        let a = self.to_words();
        let b = rhs.to_words();
        let mut words: [u32; WORD_COUNT] = [0; WORD_COUNT];
        let mut borrow: u8 = 0;
        let mut i: usize = WORD_COUNT;
        proof {
            assert(low_words(words@, i as int) =~= Seq::<u32>::empty());
            assert(low_words(a@, i as int) =~= Seq::<u32>::empty());
            assert(low_words(b@, i as int) =~= Seq::<u32>::empty());
            assert(words_value(Seq::<u32>::empty()) == 0);
        }
        while i > 0
            invariant
                i <= WORD_COUNT,
                borrow <= 1,
                words_value(low_words(words@, i as int)) - borrow * power(
                    word_base(),
                    (WORD_COUNT - i) as nat,
                ) == words_value(low_words(a@, i as int)) - words_value(low_words(b@, i as int)),
            decreases i,
        {
            i -= 1;
            let ghost before = words@;
            let ghost borrow_in = borrow;
            let mut out: u32 = 0;
            borrow = sub_carry(borrow, a[i], b[i], &mut out);
            words[i] = out;
            proof {
                assert(low_words(words@, i + 1) =~= low_words(before, i + 1));
                lemma_low_words_step(words@, i as int);
                lemma_low_words_step(a@, i as int);
                lemma_low_words_step(b@, i as int);
                let weight = power(word_base(), (WORD_COUNT - 1 - i) as nat);
                assert(power(word_base(), (WORD_COUNT - i) as nat) == word_base() * weight);
                assert((out - borrow * word_base()) * weight == (a[i as int] - b[i as int]
                    - borrow_in) * weight);
                assert((out - borrow * word_base()) * weight == out * weight - borrow * (
                word_base() * weight)) by (nonlinear_arith);
                assert((a[i as int] - b[i as int] - borrow_in) * weight == a[i as int] * weight
                    - b[i as int] * weight - borrow_in * weight) by (nonlinear_arith);
            }
        }
        proof {
            assert(low_words(words@, 0) =~= words@);
            assert(low_words(a@, 0) =~= a@);
            assert(low_words(b@, 0) =~= b@);
            lemma_words_value_bound(words@);
        }
        if borrow > 0 {
            GUID::min_value()
        } else {
            GUID::from_words(words)
        }
    }
}

impl Add for GUID {
    type Output = GUID;

    fn add(self, rhs: GUID) -> (sum: GUID)
        ensures
            sum@ == saturated_sum(self@, rhs@),
    {
        let sum = self.saturating_add(&rhs);
        proof {
            sum.lemma_of_value();
        }
        sum
    }
}

impl AddSpecImpl for GUID {
    open spec fn obeys_add_spec() -> bool {
        true
    }

    open spec fn add_req(self, rhs: GUID) -> bool {
        true
    }

    open spec fn add_spec(self, rhs: GUID) -> GUID {
        GUID::of_value(saturated_sum(self@, rhs@))
    }
}

impl Sub for GUID {
    type Output = GUID;

    fn sub(self, rhs: GUID) -> (difference: GUID)
        ensures
            difference@ == saturated_difference(self@, rhs@),
    {
        let difference = self.saturating_sub(&rhs);
        proof {
            difference.lemma_of_value();
        }
        difference
    }
}

impl SubSpecImpl for GUID {
    open spec fn obeys_sub_spec() -> bool {
        true
    }

    open spec fn sub_req(self, rhs: GUID) -> bool {
        true
    }

    open spec fn sub_spec(self, rhs: GUID) -> GUID {
        GUID::of_value(saturated_difference(self@, rhs@))
    }
}

impl AddAssign for GUID {
    fn add_assign(&mut self, rhs: GUID)
        ensures
            final(self)@ == saturated_sum(old(self)@, rhs@),
    {
        *self = self.saturating_add(&rhs);
    }
}

impl SubAssign for GUID {
    fn sub_assign(&mut self, rhs: GUID)
        ensures
            final(self)@ == saturated_difference(old(self)@, rhs@),
    {
        *self = self.saturating_sub(&rhs);
    }
}

} // verus!
