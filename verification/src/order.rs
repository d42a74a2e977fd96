//! Equality and order of identifiers.
//!
//! Identifiers are compared word by word from the most significant word. With
//! every identifier holding the same number of words, that is the order of the
//! numbers they stand for.

use crate::guid::{word_base, word_digits, GUID, WORD_COUNT};
use crate::numeric::{digits_below, lemma_lex_less_is_numeric, lex_less};
use core::cmp::Ordering;
use vstd::prelude::*;
use vstd::std_specs::cmp::{PartialEqSpec, PartialEqSpecImpl, PartialOrdSpec, PartialOrdSpecImpl};

verus! {

impl PartialEq for GUID {
    fn eq(&self, other: &Self) -> (equal: bool) {
        let a = self.to_words();
        let b = other.to_words();
        let mut i: usize = 0;
        while i < WORD_COUNT
            invariant
                i <= WORD_COUNT,
                a@ == self.words(),
                b@ == other.words(),
                forall|k: int| 0 <= k < i ==> a@[k] == b@[k],
            decreases WORD_COUNT - i,
        {
            if a[i] != b[i] {
                return false;
            }
            i += 1;
        }
        proof {
            assert(a@ =~= b@);
            self.lemma_words_injective(*other);
        }
        true
    }
}

impl PartialEqSpecImpl for GUID {
    open spec fn obeys_eq_spec() -> bool {
        true
    }

    open spec fn eq_spec(&self, other: &GUID) -> bool {
        *self == *other
    }
}

impl PartialOrd for GUID {
    fn partial_cmp(&self, other: &Self) -> (order: Option<Ordering>) {
        if self.precedes(other) {
            Some(Ordering::Less)
        } else if other.precedes(self) {
            Some(Ordering::Greater)
        } else {
            Some(Ordering::Equal)
        }
    }
}

impl PartialOrdSpecImpl for GUID {
    open spec fn obeys_partial_cmp_spec() -> bool {
        true
    }

    open spec fn partial_cmp_spec(&self, other: &GUID) -> Option<Ordering> {
        if lex_less(word_digits(self.words()), word_digits(other.words())) {
            Some(Ordering::Less)
        } else if lex_less(word_digits(other.words()), word_digits(self.words())) {
            Some(Ordering::Greater)
        } else {
            Some(Ordering::Equal)
        }
    }
}

/// The order of identifiers is the order in which their words first differ,
/// and that is the order of the numbers they stand for.
pub proof fn law_order_is_numeric(a: GUID, b: GUID)
    ensures
        PartialOrdSpec::partial_cmp_spec(&a, &b) == Some(Ordering::Less) <==> lex_less(
            word_digits(a.words()),
            word_digits(b.words()),
        ),
        PartialOrdSpec::partial_cmp_spec(&a, &b) == Some(Ordering::Less) <==> a@ < b@,
        PartialOrdSpec::partial_cmp_spec(&a, &b) == Some(Ordering::Equal) <==> a@ == b@,
        PartialOrdSpec::partial_cmp_spec(&a, &b) == Some(Ordering::Greater) <==> a@ > b@,
        PartialEqSpec::eq_spec(&a, &b) <==> a@ == b@,
{
    let left = word_digits(a.words());
    let right = word_digits(b.words());
    a.lemma_word_count();
    b.lemma_word_count();
    assert(digits_below(left, word_base()));
    assert(digits_below(right, word_base()));
    lemma_lex_less_is_numeric(left, right, word_base());
    lemma_lex_less_is_numeric(right, left, word_base());
    if a@ == b@ {
        a.lemma_view_injective(b);
    }
}

} // verus!
