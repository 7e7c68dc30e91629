//! Multiplication, and the conversion of a count.
use crate::binary64::{significand_of, Binary64, INFINITY_BITS, NAN_BITS};
use crate::datum::{unit, Datum};
use crate::pack::{lemma_pow2_values, round_to_nearest, with_sign};
use crate::rounding::rounded;
use vstd::arithmetic::power2::{lemma2_to64_rest, lemma_pow2_adds, lemma_pow2_pos, pow2};
use vstd::prelude::*;

verus! {

/// The product of two data. Zero times infinity has no product.
pub open spec fn product(a: Datum, b: Datum) -> Datum {
    match (a, b) {
        (Datum::NaN, _) => Datum::NaN,
        (_, Datum::NaN) => Datum::NaN,
        (Datum::Infinite { negative: na }, Datum::Infinite { negative: nb }) => Datum::Infinite {
            negative: na != nb,
        },
        (Datum::Infinite { negative: na }, Datum::Finite { negative: nb, magnitude }) => {
            if magnitude == 0 {
                Datum::NaN
            } else {
                Datum::Infinite { negative: na != nb }
            }
        },
        (Datum::Finite { negative: na, magnitude }, Datum::Infinite { negative: nb }) => {
            if magnitude == 0 {
                Datum::NaN
            } else {
                Datum::Infinite { negative: na != nb }
            }
        },
        (
            Datum::Finite { negative: na, magnitude: ma },
            Datum::Finite { negative: nb, magnitude: mb },
        ) => rounded(na != nb, ma * mb, unit()),
    }
}

/// The datum of a whole number: exact up to 2^53, rounded beyond.
pub open spec fn of_count(n: nat) -> Datum {
    rounded(false, n * unit(), 1)
}

/// The product of two magnitudes, each a significand times a power of two,
/// is the product of the significands, exact in 128 bits, times a power of
/// two.
proof fn lemma_product_truncates(ma: nat, ka: nat, mb: nat, kb: nat)
    requires
        ka + kb <= 8000,
    ensures
        crate::pack::truncates(
            (ma * pow2(ka)) * (mb * pow2(kb)),
            unit(),
            ma * mb,
            ka + kb - 1074,
            0,
        ),
{
    let a: nat = pow2(ka);
    let b: nat = pow2(kb);
    let ab: nat = pow2(ka + kb);
    let k: int = ka + kb - 1074;
    lemma_pow2_adds(ka, kb);
    lemma_pow2_pos(1074);
    let num: nat = (ma * a) * (mb * b);
    assert(num == (ma * mb) * ab) by (nonlinear_arith)
        requires
            num == (ma * a) * (mb * b),
            ab == a * b,
    ;
    if k >= 0 {
        lemma_pow2_adds(1074, k as nat);
        lemma_pow2_pos((ka + kb) as nat);
    } else {
        let c: nat = pow2((-k) as nat);
        lemma_pow2_adds((ka + kb) as nat, (-k) as nat);
        assert(num * c == (ma * mb) * unit()) by (nonlinear_arith)
            requires
                num == (ma * mb) * ab,
                ab * c == unit(),
        ;
    }
}

impl Binary64 {
    /// The product, rounded to nearest.
    pub fn times(self, other: Binary64) -> (r: Binary64)
        ensures
            r@ == product(self@, other@),
            r.is_canonical(),
    {
        let negative: bool = self.is_negative() != other.is_negative();
        let ua: u64 = self.unsigned();
        let ub: u64 = other.unsigned();
        if ua > INFINITY_BITS || ub > INFINITY_BITS {
            return Binary64 { bits: NAN_BITS };
        }
        if ua == INFINITY_BITS || ub == INFINITY_BITS {
            if ua == 0 || ub == 0 {
                return Binary64 { bits: NAN_BITS };
            }
            proof {
                crate::binary64::lemma_magnitude_of_increases(0, ua as nat);
                crate::binary64::lemma_magnitude_of_increases(0, ub as nat);
            }
            return with_sign(negative, INFINITY_BITS);
        }
        let (ma, ka) = significand_of(ua);
        let (mb, kb) = significand_of(ub);
        proof {
            lemma2_to64_rest();
            lemma_pow2_values();
            assert(ma * mb < 0x20_0000_0000_0000 * 0x20_0000_0000_0000) by (nonlinear_arith)
                requires
                    ma < 0x20_0000_0000_0000,
                    mb < 0x20_0000_0000_0000,
            ;
            lemma_product_truncates(ma as nat, ka as nat, mb as nat, kb as nat);
            lemma_pow2_pos(1074);
        }
        let p: u128 = (ma as u128) * (mb as u128);
        round_to_nearest(
            negative,
            p,
            ka + kb - 1074,
            false,
            Ghost((ma as nat * pow2(ka as nat)) * (mb as nat * pow2(kb as nat))),
            Ghost(unit()),
            Ghost(0),
        )
    }

    /// The number nearest to a count.
    pub fn from_count(n: usize) -> (r: Binary64)
        ensures
            r@ == of_count(n as nat),
            r.is_canonical(),
    {
        proof {
            lemma_pow2_values();
            lemma_pow2_pos(1074);
            assert(n as nat * unit() == n as nat * (1 * pow2(1074))) by (nonlinear_arith);
        }
        round_to_nearest(false, n as u128, 1074, false, Ghost(n as nat * unit()), Ghost(1), Ghost(0))
    }
}

} // verus!
