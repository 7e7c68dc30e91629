//! Division.
use crate::binary64::{significand_of, Binary64, INFINITY_BITS, NAN_BITS};
use crate::datum::{unit, zero, Datum};
use crate::pack::{
    bit_length, lemma_pow2_increases, lemma_pow2_values, power_of_two, round_to_nearest,
    truncates, with_sign,
};
use crate::rounding::{lemma_nearest_zero, rounded};
use vstd::arithmetic::power2::{
    lemma2_to64, lemma2_to64_rest, lemma_pow2_adds, lemma_pow2_pos, pow2,
};
use vstd::prelude::*;

verus! {

/// The quotient of two data. Zero by zero and infinity by infinity have no
/// quotient; anything else by zero is infinite.
pub open spec fn quotient(a: Datum, b: Datum) -> Datum {
    match (a, b) {
        (Datum::NaN, _) => Datum::NaN,
        (_, Datum::NaN) => Datum::NaN,
        (Datum::Infinite { .. }, Datum::Infinite { .. }) => Datum::NaN,
        (Datum::Infinite { negative: na }, Datum::Finite { negative: nb, .. }) => Datum::Infinite {
            negative: na != nb,
        },
        (Datum::Finite { negative: na, .. }, Datum::Infinite { negative: nb }) => zero(na != nb),
        (
            Datum::Finite { negative: na, magnitude: ma },
            Datum::Finite { negative: nb, magnitude: mb },
        ) => {
            if mb != 0 {
                rounded(na != nb, ma * unit(), mb)
            } else if ma != 0 {
                Datum::Infinite { negative: na != nb }
            } else {
                Datum::NaN
            }
        },
    }
}

/// Long division of significands. The dividend `ma * 2^ka` has its
/// significand shifted up by `sa + 64` bits before it is divided by `mb`; the
/// quotient `q` then counts units of `2^k` quanta, where `k` undoes the shift
/// and brings in the two exponents and the unit.
proof fn lemma_quotient_truncates(
    ma: nat,
    ka: nat,
    mb: nat,
    kb: nat,
    sa: nat,
    q: nat,
    r: nat,
    k: int,
)
    requires
        mb > 0,
        r < mb,
        (ma * pow2(sa)) * pow2(64) == q * mb + r,
        k == ka + 1074 - kb - sa - 64,
    ensures
        truncates(
            (ma * pow2(ka)) * unit(),
            mb * pow2(kb),
            q,
            k,
            if k >= 0 {
                r * pow2((kb + k) as nat)
            } else {
                r * pow2(kb)
            },
        ),
{
    let num: nat = (ma * pow2(ka)) * unit();
    let den: nat = mb * pow2(kb);
    // Both sides of the claim are `ma` times two to the `total`.
    let up: nat = if k >= 0 { 0 } else { (-k) as nat };
    let down: nat = if k >= 0 { (kb + k) as nat } else { kb };
    let total: nat = ka + 1074 + up;
    assert(total == sa + 64 + down);
    let w: nat = pow2(down);
    lemma_pow2_pos(down);
    assert(num * pow2(up) == ma * pow2(total)) by {
        lemma_pow2_adds(ka, 1074);
        lemma_pow2_adds(ka + 1074, up);
        assert(num * pow2(up) == ma * pow2(total)) by (nonlinear_arith)
            requires
                num == (ma * pow2(ka)) * pow2(1074),
                pow2(ka + 1074) == pow2(ka) * pow2(1074),
                pow2(total) == pow2(ka + 1074) * pow2(up),
        ;
    }
    assert((q * mb + r) * w == ma * pow2(total)) by {
        lemma_pow2_adds(sa, 64);
        lemma_pow2_adds(sa + 64, down);
        assert((q * mb + r) * w == ma * pow2(total)) by (nonlinear_arith)
            requires
                (ma * pow2(sa)) * pow2(64) == q * mb + r,
                pow2(sa + 64) == pow2(sa) * pow2(64),
                pow2(total) == pow2(sa + 64) * w,
        ;
    }
    assert((q * mb + r) * w == q * (mb * w) + r * w) by (nonlinear_arith);
    assert(r * w < mb * w) by (nonlinear_arith)
        requires
            r < mb,
            w > 0,
    ;
    if k >= 0 {
        lemma2_to64();
        lemma_pow2_adds(kb, k as nat);
        assert(den * pow2(k as nat) == mb * w) by (nonlinear_arith)
            requires
                den == mb * pow2(kb),
                w == pow2(kb) * pow2(k as nat),
        ;
        assert(num * pow2(up) == num) by (nonlinear_arith)
            requires
                pow2(up) == 1,
        ;
    }
}

impl Binary64 {
    /// The quotient, rounded to nearest.
    pub fn divided_by(self, other: Binary64) -> (r: Binary64)
        ensures
            r@ == quotient(self@, other@),
            r.is_canonical(),
    {
        let negative: bool = self.is_negative() != other.is_negative();
        let ua: u64 = self.unsigned();
        let ub: u64 = other.unsigned();
        if ua > INFINITY_BITS || ub > INFINITY_BITS {
            return Binary64 { bits: NAN_BITS };
        }
        if ua == INFINITY_BITS {
            if ub == INFINITY_BITS {
                return Binary64 { bits: NAN_BITS };
            }
            return with_sign(negative, INFINITY_BITS);
        }
        if ub == INFINITY_BITS {
            return with_sign(negative, 0);
        }
        proof {
            if ua > 0 {
                crate::binary64::lemma_magnitude_of_increases(0, ua as nat);
            }
            if ub > 0 {
                crate::binary64::lemma_magnitude_of_increases(0, ub as nat);
            }
        }
        if ub == 0 {
            if ua == 0 {
                return Binary64 { bits: NAN_BITS };
            }
            return with_sign(negative, INFINITY_BITS);
        }
        let (ma, ka) = significand_of(ua);
        let (mb, kb) = significand_of(ub);
        proof {
            lemma_pow2_pos(kb as nat);
            assert(mb as nat * pow2(kb as nat) > 0) by (nonlinear_arith)
                requires
                    mb > 0,
                    pow2(kb as nat) > 0,
            ;
        }
        if ua == 0 {
            proof {
                lemma_pow2_pos(2098);
                lemma_nearest_zero(mb as nat * pow2(kb as nat));
                assert(0 * unit() == 0) by (nonlinear_arith);
            }
            return with_sign(negative, 0);
        }
        proof {
            lemma2_to64();
            lemma2_to64_rest();
            lemma_pow2_values();
        }
        let t: u32 = bit_length(ma as u128);
        proof {
            if t > 53 {
                lemma_pow2_increases(53, (t - 1) as nat);
            }
        }
        let sa: u32 = 53 - t;
        proof {
            lemma_pow2_adds(t as nat, sa as nat);
            lemma_pow2_adds((t - 1) as nat, sa as nat);
            lemma_pow2_pos(sa as nat);
            lemma_pow2_increases(sa as nat, 52);
            assert(ma * pow2(sa as nat) < pow2(t as nat) * pow2(sa as nat)) by (nonlinear_arith)
                requires
                    ma < pow2(t as nat),
                    pow2(sa as nat) > 0,
            ;
            assert(pow2((t - 1) as nat) * pow2(sa as nat) <= ma * pow2(sa as nat))
                by (nonlinear_arith)
                requires
                    pow2((t - 1) as nat) <= ma,
            ;
        }
        let shifted: u128 = (ma as u128) * power_of_two(sa);
        let n: u128 = shifted * 0x1_0000_0000_0000_0000;
        let q: u128 = n / (mb as u128);
        let rest: u128 = n % (mb as u128);
        let k: i64 = ka + 1010 - kb - sa as i64;
        proof {
            vstd::arithmetic::div_mod::lemma_fundamental_div_mod(n as int, mb as int);
            assert(n == q * mb + rest) by (nonlinear_arith)
                requires
                    n == mb * q + rest,
            ;
            assert(q <= n) by (nonlinear_arith)
                requires
                    n == q * mb + rest,
                    mb >= 1,
                    rest >= 0,
                    q >= 0,
            ;
            assert(q >= 0x8000_0000_0000_0000) by (nonlinear_arith)
                requires
                    n == q * mb + rest,
                    rest < mb,
                    mb < 0x20_0000_0000_0000,
                    n >= 0x10_0000_0000_0000 * 0x1_0000_0000_0000_0000,
            ;
            lemma_quotient_truncates(
                ma as nat,
                ka as nat,
                mb as nat,
                kb as nat,
                sa as nat,
                q as nat,
                rest as nat,
                k as int,
            );
            let w: nat = if k >= 0 { pow2((kb + k) as nat) } else { pow2(kb as nat) };
            lemma_pow2_pos((kb + k) as nat);
            assert((rest * w == 0) == (rest == 0)) by (nonlinear_arith)
                requires
                    w > 0,
                    rest >= 0,
            ;
        }
        round_to_nearest(
            negative,
            q,
            k,
            rest != 0,
            Ghost((ma as nat * pow2(ka as nat)) * unit()),
            Ghost(mb as nat * pow2(kb as nat)),
            Ghost(
                if k >= 0 {
                    rest as nat * pow2((kb + k) as nat)
                } else {
                    rest as nat * pow2(kb as nat)
                },
            ),
        )
    }
}

} // verus!
