//! The order of binary64 numbers.
use crate::binary64::{
    lemma_magnitude_of_increases, lemma_magnitude_of_infinity, Binary64, INFINITY_BITS,
};
use crate::datum::precedes;
use vstd::prelude::*;

verus! {

impl Binary64 {
    /// Whether this number is less than the other. Nothing is less than a
    /// NaN, a NaN is less than nothing, and the two zeros are equal.
    pub fn less_than(self, other: Binary64) -> (r: bool)
        ensures
            r == precedes(self@, other@),
    {
        let ua: u64 = self.unsigned();
        let ub: u64 = other.unsigned();
        if ua > INFINITY_BITS || ub > INFINITY_BITS {
            return false;
        }
        proof {
            lemma_magnitude_of_infinity();
            if ua < ub {
                lemma_magnitude_of_increases(ua as nat, ub as nat);
            }
            if ub < ua {
                lemma_magnitude_of_increases(ub as nat, ua as nat);
            }
            if 0 < ua {
                lemma_magnitude_of_increases(0, ua as nat);
            }
            if 0 < ub {
                lemma_magnitude_of_increases(0, ub as nat);
            }
            if ua < INFINITY_BITS {
                lemma_magnitude_of_increases(ua as nat, INFINITY_BITS as nat);
            }
            if ub < INFINITY_BITS {
                lemma_magnitude_of_increases(ub as nat, INFINITY_BITS as nat);
            }
        }
        if self.is_negative() {
            if other.is_negative() {
                ub < ua
            } else {
                ua > 0 || ub > 0
            }
        } else {
            !other.is_negative() && ua < ub
        }
    }
}

} // verus!
