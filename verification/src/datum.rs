//! The mathematical reading of a binary64 bit pattern.
use vstd::arithmetic::power2::pow2;
use vstd::prelude::*;

verus! {

/// What a binary64 bit pattern denotes.
///
/// Finite magnitudes are counted in quanta. One quantum is 2^-1074, the
/// smallest positive binary64 value, so every finite binary64 value is a whole
/// number of quanta and the number one is `pow2(1074)` quanta.
pub enum Datum {
    NaN,
    Infinite { negative: bool },
    Finite { negative: bool, magnitude: nat },
}

/// The number of quanta that make up the number one.
pub open spec fn unit() -> nat {
    pow2(1074)
}

/// The first magnitude, in quanta, that is too large to be finite.
pub open spec fn overflow_threshold() -> nat {
    pow2(2098)
}

pub open spec fn zero(negative: bool) -> Datum {
    Datum::Finite { negative, magnitude: 0 }
}

/// The signed number of quanta of a finite datum.
pub open spec fn signed(negative: bool, magnitude: nat) -> int {
    if negative {
        -(magnitude as int)
    } else {
        magnitude as int
    }
}

/// The place of a datum on the extended number line, in quanta. Infinities sit
/// at the overflow threshold; a NaN has no place and is given 0.
pub open spec fn ordinate(d: Datum) -> int {
    match d {
        Datum::NaN => 0,
        Datum::Infinite { negative } => signed(negative, overflow_threshold()),
        Datum::Finite { negative, magnitude } => signed(negative, magnitude),
    }
}

/// `a < b` as IEEE 754 orders numbers: false whenever a NaN is involved, and
/// the two zeros are equal.
pub open spec fn precedes(a: Datum, b: Datum) -> bool {
    !(a is NaN) && !(b is NaN) && ordinate(a) < ordinate(b)
}

/// The datum of opposite sign.
pub open spec fn negated(d: Datum) -> Datum {
    match d {
        Datum::NaN => Datum::NaN,
        Datum::Infinite { negative } => Datum::Infinite { negative: !negative },
        Datum::Finite { negative, magnitude } => Datum::Finite { negative: !negative, magnitude },
    }
}

} // verus!
