//! Addition and subtraction.
use crate::binary64::{significand_of, Binary64, INFINITY_BITS, NAN_BITS};
use crate::datum::{negated, signed, zero, Datum};
use crate::pack::{lemma_pow2_increases, power_of_two, round_to_nearest, with_sign};
use crate::rounding::rounded;
use vstd::arithmetic::power2::{
    lemma2_to64, lemma2_to64_rest, lemma_pow2_adds, lemma_pow2_pos, pow2,
};
use vstd::prelude::*;

verus! {

/// The sum of two finite numbers given by sign and magnitude: the exact sum
/// rounded once. An exact zero is negative only when both terms are.
pub open spec fn finite_sum(na: bool, a: nat, nb: bool, b: nat) -> Datum {
    let s = signed(na, a) + signed(nb, b);
    if s == 0 {
        zero(na && nb)
    } else if s < 0 {
        rounded(true, (-s) as nat, 1)
    } else {
        rounded(false, s as nat, 1)
    }
}

/// The sum of two data. Infinities of opposite sign have no sum.
pub open spec fn sum(a: Datum, b: Datum) -> Datum {
    match (a, b) {
        (Datum::NaN, _) => Datum::NaN,
        (_, Datum::NaN) => Datum::NaN,
        (Datum::Infinite { negative: na }, Datum::Infinite { negative: nb }) => if na == nb {
            a
        } else {
            Datum::NaN
        },
        (Datum::Infinite { .. }, Datum::Finite { .. }) => a,
        (Datum::Finite { .. }, Datum::Infinite { .. }) => b,
        (
            Datum::Finite { negative: na, magnitude: ma },
            Datum::Finite { negative: nb, magnitude: mb },
        ) => finite_sum(na, ma, nb, mb),
    }
}

/// The difference of two data.
pub open spec fn difference(a: Datum, b: Datum) -> Datum {
    sum(a, negated(b))
}

/// Adds two finite numbers whose spacing exponents are at most 64 apart: the
/// exact sum then fits in 128 bits as a multiple of the finer spacing.
fn add_near(na: bool, ma: u64, ka: i64, nb: bool, mb: u64, kb: i64) -> (r: Binary64)
    requires
        ma < pow2(53),
        mb < pow2(53),
        0 <= kb <= ka <= 2045,
        ka - kb <= 64,
    ensures
        r@ == finite_sum(na, ma as nat * pow2(ka as nat), nb, mb as nat * pow2(kb as nat)),
{
    let d: u32 = (ka - kb) as u32;
    let ghost unit: nat = pow2(kb as nat);
    proof {
        lemma2_to64();
        lemma2_to64_rest();
        lemma_pow2_increases(d as nat, 64);
        lemma_pow2_pos(d as nat);
        lemma_pow2_pos(kb as nat);
        lemma_pow2_adds(d as nat, kb as nat);
        assert(ma * pow2(d as nat) < 0x20_0000_0000_0000 * 0x1_0000_0000_0000_0000)
            by (nonlinear_arith)
            requires
                ma < 0x20_0000_0000_0000,
                0 < pow2(d as nat) <= 0x1_0000_0000_0000_0000,
        ;
    }
    let a: u128 = (ma as u128) * power_of_two(d);
    proof {
        assert(ma as nat * pow2(ka as nat) == a * unit) by (nonlinear_arith)
            requires
                a == ma * pow2(d as nat),
                pow2(ka as nat) == pow2(d as nat) * unit,
        ;
        assert(1 * unit == unit) by (nonlinear_arith);
    }
    if na == nb {
        let s: u128 = a + mb as u128;
        if s == 0 {
            proof {
                assert(0 * unit == 0) by (nonlinear_arith);
            }
            return with_sign(na, 0);
        }
        proof {
            assert(s * unit == a * unit + mb * unit) by (nonlinear_arith)
                requires
                    s == a + mb,
            ;
            assert(s * unit > 0) by (nonlinear_arith)
                requires
                    s > 0,
                    unit > 0,
            ;
        }
        round_to_nearest(na, s, kb, false, Ghost(s as nat * unit), Ghost(1), Ghost(0))
    } else if a >= mb as u128 {
        let s: u128 = a - mb as u128;
        if s == 0 {
            return with_sign(false, 0);
        }
        proof {
            assert(s * unit == a * unit - mb * unit) by (nonlinear_arith)
                requires
                    s == a - mb,
            ;
            assert(s * unit > 0) by (nonlinear_arith)
                requires
                    s > 0,
                    unit > 0,
            ;
        }
        round_to_nearest(na, s, kb, false, Ghost(s as nat * unit), Ghost(1), Ghost(0))
    } else {
        let s: u128 = mb as u128 - a;
        proof {
            assert(s * unit == mb * unit - a * unit) by (nonlinear_arith)
                requires
                    s == mb - a,
            ;
            assert(s * unit > 0) by (nonlinear_arith)
                requires
                    s > 0,
                    unit > 0,
            ;
        }
        round_to_nearest(nb, s, kb, false, Ghost(s as nat * unit), Ghost(1), Ghost(0))
    }
}

/// Adds two finite numbers of which the first has by far the coarser
/// spacing: the second only tells on which side of the first the sum lies.
fn add_far(na: bool, ma: u64, ka: i64, nb: bool, mb: u64, kb: i64) -> (r: Binary64)
    requires
        pow2(52) <= ma < pow2(53),
        mb < pow2(53),
        0 <= kb,
        kb + 64 < ka <= 2045,
    ensures
        r@ == finite_sum(na, ma as nat * pow2(ka as nat), nb, mb as nat * pow2(kb as nat)),
{
    let k: i64 = ka - 4;
    let ghost unit: nat = pow2(k as nat);
    let ghost a: nat = ma as nat * pow2(ka as nat);
    let ghost b: nat = mb as nat * pow2(kb as nat);
    proof {
        lemma2_to64();
        lemma2_to64_rest();
        lemma_pow2_pos(k as nat);
        lemma_pow2_pos(kb as nat);
        lemma_pow2_adds(4, k as nat);
        lemma_pow2_adds(53, kb as nat);
        lemma_pow2_increases((53 + kb) as nat, k as nat);
        assert(a == (16 * ma) * unit) by (nonlinear_arith)
            requires
                a == ma * pow2(ka as nat),
                pow2(ka as nat) == 16 * unit,
        ;
        assert(b < pow2(53) * pow2(kb as nat)) by (nonlinear_arith)
            requires
                b == mb * pow2(kb as nat),
                mb < pow2(53),
                pow2(kb as nat) > 0,
        ;
        assert(b < unit);
        assert(1 * unit == unit) by (nonlinear_arith);
        assert((16 * ma) * unit >= unit) by (nonlinear_arith)
            requires
                ma >= 1,
        ;
        assert((mb == 0) == (b == 0)) by (nonlinear_arith)
            requires
                b == mb * pow2(kb as nat),
                pow2(kb as nat) > 0,
        ;
    }
    let whole: u128 = 16 * (ma as u128);
    if na == nb || mb == 0 {
        round_to_nearest(na, whole, k, mb != 0, Ghost(a + b), Ghost(1), Ghost(b))
    } else {
        proof {
            assert((whole - 1) * unit + (unit - b) == a - b) by (nonlinear_arith)
                requires
                    a == whole * unit,
            ;
        }
        round_to_nearest(
            na,
            whole - 1,
            k,
            true,
            Ghost((a - b) as nat),
            Ghost(1),
            Ghost((unit - b) as nat),
        )
    }
}

/// Adds two finite numbers given by sign, significand and spacing exponent,
/// the first with the coarser spacing.
fn add_ordered(na: bool, ma: u64, ka: i64, nb: bool, mb: u64, kb: i64) -> (r: Binary64)
    requires
        ma < pow2(53),
        mb < pow2(53),
        0 <= kb <= ka <= 2045,
        ka > 0 ==> ma >= pow2(52),
    ensures
        r@ == finite_sum(na, ma as nat * pow2(ka as nat), nb, mb as nat * pow2(kb as nat)),
{
    if ka - kb <= 64 {
        add_near(na, ma, ka, nb, mb, kb)
    } else {
        add_far(na, ma, ka, nb, mb, kb)
    }
}

impl Binary64 {
    /// The sum, rounded to nearest.
    pub fn plus(self, other: Binary64) -> (r: Binary64)
        ensures
            r@ == sum(self@, other@),
            r.is_canonical(),
    {
        let na: bool = self.is_negative();
        let nb: bool = other.is_negative();
        let ua: u64 = self.unsigned();
        let ub: u64 = other.unsigned();
        if ua > INFINITY_BITS || ub > INFINITY_BITS {
            return Binary64 { bits: NAN_BITS };
        }
        if ua == INFINITY_BITS {
            if ub == INFINITY_BITS && na != nb {
                return Binary64 { bits: NAN_BITS };
            }
            return self;
        }
        if ub == INFINITY_BITS {
            return other;
        }
        let (ma, ka) = significand_of(ua);
        let (mb, kb) = significand_of(ub);
        if ka >= kb {
            add_ordered(na, ma, ka, nb, mb, kb)
        } else {
            add_ordered(nb, mb, kb, na, ma, ka)
        }
    }

    /// The difference, rounded to nearest.
    pub fn minus(self, other: Binary64) -> (r: Binary64)
        ensures
            r@ == difference(self@, other@),
            r.is_canonical(),
    {
        self.plus(other.negate())
    }
}

} // verus!
