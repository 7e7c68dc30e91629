//! A binary64 number held as its 64-bit pattern.
use crate::datum::{negated, overflow_threshold, Datum};
use vstd::arithmetic::div_mod::lemma_fundamental_div_mod_converse;
use vstd::arithmetic::power2::{
    lemma2_to64, lemma2_to64_rest, lemma_pow2_adds, lemma_pow2_pos,
    lemma_pow2_strictly_increases, lemma_pow2_unfold, pow2,
};
use vstd::prelude::*;

verus! {

/// Two to the 52nd: the weight of the exponent field within a bit pattern.
pub const FRACTION_SPAN: u64 = 0x10_0000_0000_0000;

/// Two to the 63rd: the sign bit.
pub const SIGN_BIT: u64 = 0x8000_0000_0000_0000;

/// The bit pattern of positive infinity; every larger unsigned pattern is a NaN.
pub const INFINITY_BITS: u64 = 0x7ff0_0000_0000_0000;

/// The bit pattern that this library produces whenever a result is a NaN.
pub const NAN_BITS: u64 = 0x7ff8_0000_0000_0000;

/// An IEEE 754 binary64 number, held as its bit pattern: one sign bit, eleven
/// exponent bits and fifty-two fraction bits, from the top down.
#[derive(Clone, Copy, Debug)]
pub struct Binary64 {
    pub bits: u64,
}

/// The magnitude, in quanta, that a pattern without its sign bit denotes. The
/// formula is also applied to the patterns of infinity and NaN, where it keeps
/// growing with the pattern.
pub open spec fn magnitude_of(unsigned: nat) -> nat {
    let exponent = unsigned / (FRACTION_SPAN as nat);
    let fraction = unsigned % (FRACTION_SPAN as nat);
    if exponent == 0 {
        fraction
    } else {
        (FRACTION_SPAN + fraction) as nat * pow2((exponent - 1) as nat)
    }
}

/// What a bit pattern denotes: the top bit is the sign, and the rest is the
/// pattern of infinity, or lies above it and is a NaN, or lies below it and
/// is a finite magnitude.
pub open spec fn datum_of(bits: u64) -> Datum {
    let negative = bits >= SIGN_BIT;
    let unsigned = (bits % SIGN_BIT) as nat;
    if unsigned > INFINITY_BITS {
        Datum::NaN
    } else if unsigned == INFINITY_BITS {
        Datum::Infinite { negative }
    } else {
        Datum::Finite { negative, magnitude: magnitude_of(unsigned) }
    }
}

impl View for Binary64 {
    type V = Datum;

    open spec fn view(&self) -> Datum {
        datum_of(self.bits)
    }
}

impl Binary64 {
    /// Whether the number, if it is a NaN, is written in the one pattern that
    /// this library produces for a NaN. Every other datum has one pattern
    /// only, so that a canonical number is determined by its datum.
    pub open spec fn is_canonical(self) -> bool {
        self@ is NaN ==> self.bits == NAN_BITS
    }

    /// The number with the given bit pattern.
    pub fn from_bits(bits: u64) -> (r: Binary64)
        ensures
            r.bits == bits,
    {
        Binary64 { bits }
    }

    /// The bit pattern of the number.
    pub fn to_bits(self) -> (bits: u64)
        ensures
            bits == self.bits,
    {
        self.bits
    }

    /// Whether the number is a NaN.
    pub fn is_nan(self) -> (r: bool)
        ensures
            r == (self@ is NaN),
    {
        self.bits % SIGN_BIT > INFINITY_BITS
    }

    /// Whether the sign bit is set.
    pub fn is_negative(self) -> (r: bool)
        ensures
            r == (self.bits >= SIGN_BIT),
    {
        self.bits >= SIGN_BIT
    }

    /// The pattern without its sign bit.
    pub fn unsigned(self) -> (r: u64)
        ensures
            r == self.bits % SIGN_BIT,
    {
        self.bits % SIGN_BIT
    }

    /// The number of opposite sign: the same pattern but for the sign bit.
    pub fn negate(self) -> (r: Binary64)
        ensures
            r@ == negated(self@),
            r.bits % SIGN_BIT == self.bits % SIGN_BIT,
            (r.bits >= SIGN_BIT) != (self.bits >= SIGN_BIT),
    {
        if self.bits >= SIGN_BIT {
            Binary64 { bits: self.bits - SIGN_BIT }
        } else {
            Binary64 { bits: self.bits + SIGN_BIT }
        }
    }
}

/// The significand and the spacing exponent of a finite pattern without its
/// sign bit: the magnitude is the significand times two to the exponent.
pub(crate) fn significand_of(unsigned: u64) -> (r: (u64, i64))
    requires
        unsigned < INFINITY_BITS,
    ensures
        r.0 as nat * pow2(r.1 as nat) == magnitude_of(unsigned as nat),
        r.0 < pow2(53),
        0 <= r.1 <= 2045,
        r.1 > 0 ==> r.0 >= pow2(52),
        (r.0 == 0) == (unsigned == 0),
{
    proof {
        lemma2_to64();
        lemma2_to64_rest();
    }
    let exponent: u64 = unsigned / FRACTION_SPAN;
    let fraction: u64 = unsigned % FRACTION_SPAN;
    if exponent == 0 {
        proof {
            assert(fraction as nat * pow2(0) == fraction) by (nonlinear_arith)
                requires
                    pow2(0) == 1,
            ;
        }
        (fraction, 0)
    } else {
        (FRACTION_SPAN + fraction, (exponent - 1) as i64)
    }
}

/// A significand `m` of at most 53 bits, placed at spacing exponent `e`, is
/// written as the pattern `e * 2^52 + m`: the leading bit of a full
/// significand carries into the exponent field, and so does a significand
/// that rounding has pushed to 2^53.
pub proof fn lemma_magnitude_of_packed(m: nat, e: nat)
    requires
        m <= pow2(53),
        e > 0 ==> m >= pow2(52),
    ensures
        magnitude_of(e * pow2(52) + m) == m * pow2(e),
{
    lemma2_to64();
    lemma2_to64_rest();
    let span: int = FRACTION_SPAN as int;
    let pattern: int = e * span + m;
    assert(e * pow2(52) + m == pattern);
    if m < span {
        lemma_fundamental_div_mod_converse(pattern, span, e as int, m as int);
        if e == 0 {
            assert(m * pow2(0) == m) by (nonlinear_arith)
                requires
                    pow2(0) == 1,
            ;
        }
    } else if m < 2 * span {
        lemma_fundamental_div_mod_converse(pattern, span, (e + 1) as int, m - span);
    } else {
        lemma_fundamental_div_mod_converse(pattern, span, (e + 2) as int, 0);
        lemma_pow2_unfold(e + 1);
        assert(span * (2 * pow2(e)) == (2 * span) * pow2(e)) by (nonlinear_arith);
    }
}

/// A larger pattern denotes a larger magnitude.
pub proof fn lemma_magnitude_of_increases(a: nat, b: nat)
    requires
        a < b,
    ensures
        magnitude_of(a) < magnitude_of(b),
{
    lemma2_to64();
    let span: nat = FRACTION_SPAN as nat;
    let ea: nat = a / span;
    let fa: nat = a % span;
    let eb: nat = b / span;
    let fb: nat = b % span;
    if ea == eb {
        if ea > 0 {
            let w: nat = pow2((ea - 1) as nat);
            lemma_pow2_pos((ea - 1) as nat);
            assert((span + fa) * w < (span + fb) * w) by (nonlinear_arith)
                requires
                    fa < fb,
                    w > 0,
            ;
        }
    } else {
        // Everything in the binade of `a` lies below 2^52 * 2^ea, where the
        // binade of `b` begins at the earliest.
        let wb: nat = pow2((eb - 1) as nat);
        let bound: nat = span * pow2(ea);
        assert(magnitude_of(a) < bound) by {
            if ea == 0 {
                assert(span * pow2(0) == span) by (nonlinear_arith)
                    requires
                        pow2(0) == 1,
                ;
            } else {
                let w: nat = pow2((ea - 1) as nat);
                lemma_pow2_unfold(ea);
                lemma_pow2_pos((ea - 1) as nat);
                assert((span + fa) * w < span * (2 * w)) by (nonlinear_arith)
                    requires
                        fa < span,
                        w > 0,
                ;
            }
        }
        assert(bound <= magnitude_of(b)) by {
            if ea < eb - 1 {
                lemma_pow2_strictly_increases(ea, (eb - 1) as nat);
            }
            assert(span * pow2(ea) <= (span + fb) * wb) by (nonlinear_arith)
                requires
                    pow2(ea) <= wb,
            ;
        }
    }
}

/// Two canonical numbers that denote the same datum are the same pattern.
pub proof fn lemma_canonical_is_determined(a: Binary64, b: Binary64)
    requires
        a@ == b@,
        a.is_canonical(),
        b.is_canonical(),
    ensures
        a == b,
{
    let ua: nat = (a.bits % SIGN_BIT) as nat;
    let ub: nat = (b.bits % SIGN_BIT) as nat;
    if ua < ub {
        lemma_magnitude_of_increases(ua, ub);
    }
    if ub < ua {
        lemma_magnitude_of_increases(ub, ua);
    }
}

/// The pattern of infinity continues the finite magnitudes at exactly the
/// overflow threshold.
pub proof fn lemma_magnitude_of_infinity()
    ensures
        magnitude_of(INFINITY_BITS as nat) == overflow_threshold(),
{
    lemma2_to64_rest();
    lemma_magnitude_of_packed(pow2(53), 2045);
    lemma_pow2_adds(53, 2045);
    assert(2045 * pow2(52) + pow2(53) == INFINITY_BITS);
}

} // verus!
