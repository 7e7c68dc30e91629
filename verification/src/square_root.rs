//! The square root.
use crate::binary64::{significand_of, Binary64, INFINITY_BITS, NAN_BITS};
use crate::datum::{overflow_threshold, unit, Datum};
use crate::pack::{
    bit_length, cut, cut_and_assemble, lemma_pow2_values, lemma_pow2_increases, power_of_two,
};
use crate::rounding::{lemma_spacing_exponent, spacing_exponent};
use vstd::arithmetic::div_mod::lemma_fundamental_div_mod_converse;
use vstd::arithmetic::power2::{
    lemma2_to64, lemma2_to64_rest, lemma_pow2_adds, lemma_pow2_pos, pow2,
};
use vstd::prelude::*;

verus! {

/// Whether `s` is the whole part of the square root of `w`.
pub open spec fn is_floor_root(w: nat, s: nat) -> bool {
    s * s <= w < (s + 1) * (s + 1)
}

/// The whole part of the square root of `w`.
pub open spec fn floor_root(w: nat) -> nat {
    choose|s: nat| is_floor_root(w, s)
}

/// The magnitude, in quanta, of the binary64 value nearest to the square root
/// of the value of the given magnitude, ties going to the even neighbour.
///
/// A magnitude of `x` quanta is the number `x / unit()`, whose square root is
/// the square root of `x * unit()` quanta. Twice the middle between two
/// neighbouring candidates is compared with twice that root by comparing the
/// squares.
pub open spec fn nearest_root(magnitude: nat) -> nat {
    let w = magnitude * unit();
    let spacing = pow2(spacing_exponent(floor_root(w)));
    let below = floor_root(w) / spacing;
    let middle = (2 * below + 1) * spacing;
    if middle * middle < 4 * w || (middle * middle == 4 * w && below % 2 == 1) {
        (below + 1) * spacing
    } else {
        below * spacing
    }
}

/// The square root of a datum. Only zero keeps a negative sign; no other
/// negative datum has a root.
pub open spec fn root(a: Datum) -> Datum {
    match a {
        Datum::NaN => Datum::NaN,
        Datum::Infinite { negative } => if negative {
            Datum::NaN
        } else {
            a
        },
        Datum::Finite { negative, magnitude } => if magnitude == 0 {
            a
        } else if negative {
            Datum::NaN
        } else {
            Datum::Finite { negative: false, magnitude: nearest_root(magnitude) }
        },
    }
}

/// Every number has a whole square root.
pub proof fn lemma_floor_root_exists(w: nat)
    ensures
        is_floor_root(w, floor_root(w)),
    decreases w,
{
    if w == 0 {
        assert(0nat * 0nat <= w < (0nat + 1) * (0nat + 1)) by (nonlinear_arith)
            requires
                w == 0,
        ;
        assert(is_floor_root(w, 0));
    } else {
        lemma_floor_root_exists((w - 1) as nat);
        let t: nat = floor_root((w - 1) as nat);
        if (t + 1) * (t + 1) <= w {
            let u: nat = t + 1;
            assert(w < (u + 1) * (u + 1)) by (nonlinear_arith)
                requires
                    w - 1 < (t + 1) * (t + 1),
                    u == t + 1,
            ;
            assert(is_floor_root(w, u));
        } else {
            assert(is_floor_root(w, t));
        }
    }
}

/// A root bracketed by two neighbouring multiples of the spacing `2^e` is
/// rounded to one of them, as the comparison of squares decides.
proof fn lemma_nearest_root_from_bracket(magnitude: nat, m: nat, e: nat)
    requires
        m < pow2(53),
        e > 0 ==> m >= pow2(52),
        (m * pow2(e)) * (m * pow2(e)) <= magnitude * unit(),
        magnitude * unit() < ((m + 1) * pow2(e)) * ((m + 1) * pow2(e)),
    ensures
        nearest_root(magnitude) == if ((2 * m + 1) * pow2(e)) * ((2 * m + 1) * pow2(e)) < 4 * (
        magnitude * unit()) || (((2 * m + 1) * pow2(e)) * ((2 * m + 1) * pow2(e)) == 4 * (magnitude
            * unit()) && m % 2 == 1) {
            (m + 1) * pow2(e)
        } else {
            m * pow2(e)
        },
{
    let w: nat = magnitude * unit();
    let g: nat = pow2(e);
    let f: nat = floor_root(w);
    let low: nat = m * g;
    let high: nat = (m + 1) * g;
    lemma_pow2_pos(e);
    lemma_floor_root_exists(w);
    assert(low <= f) by {
        if f < low {
            assert((f + 1) * (f + 1) <= low * low) by (nonlinear_arith)
                requires
                    f + 1 <= low,
            ;
        }
    }
    assert(f < high) by {
        if f >= high {
            assert(high * high <= f * f) by (nonlinear_arith)
                requires
                    high <= f,
            ;
        }
    }
    assert(high == low + g) by (nonlinear_arith)
        requires
            high == (m + 1) * g,
            low == m * g,
    ;
    assert(high <= pow2(53) * g) by (nonlinear_arith)
        requires
            high == (m + 1) * g,
            m + 1 <= pow2(53),
    ;
    if e > 0 {
        assert(pow2(52) * g <= low) by (nonlinear_arith)
            requires
                low == m * g,
                pow2(52) <= m,
        ;
    }
    lemma_spacing_exponent(f, e);
    lemma_fundamental_div_mod_converse(f as int, g as int, m as int, f - low);
}

/// The whole part of the square root of `n`.
pub(crate) fn floor_sqrt(n: u128) -> (s: u128)
    requires
        n < 0x1_0000_0000_0000_0000_0000_0000_0000,
    ensures
        s * s <= n < (s + 1) * (s + 1),
        s < 0x100_0000_0000_0000,
{
    let mut s: u128 = 0;
    let mut i: u32 = 56;
    let mut span: u128 = 0x100_0000_0000_0000;
    proof {
        lemma2_to64_rest();
        assert(0x100_0000_0000_0000int * 0x100_0000_0000_0000int
            == 0x1_0000_0000_0000_0000_0000_0000_0000int) by (nonlinear_arith);
        assert(0int * 0int == 0) by (nonlinear_arith);
    }
    while i > 0
        invariant
            i <= 56,
            span == pow2(i as nat),
            s + span <= 0x100_0000_0000_0000,
            s * s <= n < (s + span) * (s + span),
        decreases i,
    {
        proof {
            vstd::arithmetic::power2::lemma_pow2_unfold(i as nat);
            lemma_pow2_pos((i - 1) as nat);
        }
        let half: u128 = span / 2;
        let c: u128 = s + half;
        proof {
            assert(c * c <= 0x100_0000_0000_0000 * 0x100_0000_0000_0000) by (nonlinear_arith)
                requires
                    0 <= c <= 0x100_0000_0000_0000,
            ;
        }
        if c * c <= n {
            s = c;
        }
        span = half;
        i = i - 1;
    }
    proof {
        lemma2_to64();
        assert(s + 1 <= 0x100_0000_0000_0000);
    }
    s
}

/// The operand of a root, rewritten for the whole square root: the
/// significand is shifted up by `sa + j + 58` bits, and what is left of the
/// exponent is even.
proof fn lemma_root_operand(ma: nat, ka: nat, sa: nat, j: nat, k: nat)
    requires
        sa + j + 58 + 2 * k == ka + 1074,
    ensures
        (ma * pow2(ka)) * unit() == (((ma * pow2(sa)) * pow2(j)) * pow2(58)) * (pow2(k) * pow2(k)),
{
    lemma_pow2_adds(ka, 1074);
    lemma_pow2_adds(sa, j);
    lemma_pow2_adds(sa + j, 58);
    lemma_pow2_adds(k, k);
    lemma_pow2_adds(sa + j + 58, 2 * k);
    let total: nat = pow2(ka + 1074);
    assert((ma * pow2(ka)) * unit() == ma * total) by (nonlinear_arith)
        requires
            total == pow2(ka) * pow2(1074),
            unit() == pow2(1074),
    ;
    assert((((ma * pow2(sa)) * pow2(j)) * pow2(58)) * (pow2(k) * pow2(k)) == ma * total)
        by (nonlinear_arith)
        requires
            pow2(sa + j) == pow2(sa) * pow2(j),
            pow2(sa + j + 58) == pow2(sa + j) * pow2(58),
            pow2(2 * k) == pow2(k) * pow2(k),
            total == pow2(sa + j + 58) * pow2(2 * k),
    ;
}

/// Rounding a root read off the whole square root `s` of the 112-bit operand
/// `n`: three low bits of `s` are cut, and the root lies above `s` unless `n`
/// is a square.
proof fn lemma_root_rounds(magnitude: nat, n: nat, s: nat, k: nat)
    requires
        magnitude * unit() == n * (pow2(k) * pow2(k)),
        s * s <= n < (s + 1) * (s + 1),
        pow2(55) <= s < pow2(56),
        k <= 2000,
    ensures
        nearest_root(magnitude) == cut(s, 8, s * s != n) * pow2(k + 3),
        nearest_root(magnitude) < overflow_threshold(),
{
    lemma2_to64();
    lemma2_to64_rest();
    let w: nat = magnitude * unit();
    let g: nat = pow2(k);
    let gg: nat = g * g;
    let m: nat = s / 8;
    let r: nat = s % 8;
    let e: nat = k + 3;
    let step: nat = pow2(e);
    lemma_pow2_pos(k);
    lemma_pow2_adds(k, 3);
    assert(step == 8 * g);
    assert(gg > 0) by (nonlinear_arith)
        requires
            gg == g * g,
            g > 0,
    ;
    let low: nat = m * step;
    let high: nat = (m + 1) * step;
    let mid: nat = (2 * m + 1) * step;
    let a: nat = 8 * m + 4;
    assert(low * low == ((8 * m) * (8 * m)) * gg) by (nonlinear_arith)
        requires
            low == m * step,
            step == 8 * g,
            gg == g * g,
    ;
    assert(high * high == ((8 * m + 8) * (8 * m + 8)) * gg) by (nonlinear_arith)
        requires
            high == (m + 1) * step,
            step == 8 * g,
            gg == g * g,
    ;
    assert(mid * mid == 4 * ((a * a) * gg)) by (nonlinear_arith)
        requires
            mid == (2 * m + 1) * step,
            step == 8 * g,
            gg == g * g,
            a == 8 * m + 4,
    ;
    assert((8 * m) * (8 * m) <= s * s) by (nonlinear_arith)
        requires
            0 <= 8 * m <= s,
    ;
    assert((s + 1) * (s + 1) <= (8 * m + 8) * (8 * m + 8)) by (nonlinear_arith)
        requires
            0 <= s + 1 <= 8 * m + 8,
    ;
    assert(low * low <= w) by (nonlinear_arith)
        requires
            low * low == ((8 * m) * (8 * m)) * gg,
            (8 * m) * (8 * m) <= n,
            w == n * gg,
            gg > 0,
    ;
    assert(w < high * high) by (nonlinear_arith)
        requires
            high * high == ((8 * m + 8) * (8 * m + 8)) * gg,
            n < (8 * m + 8) * (8 * m + 8),
            w == n * gg,
            gg > 0,
    ;
    lemma_nearest_root_from_bracket(magnitude, m, e);
    // How the operand compares with the square of the middle.
    if r > 4 {
        assert(a * a < s * s) by (nonlinear_arith)
            requires
                0 <= a < s,
        ;
    } else if r < 4 {
        assert((s + 1) * (s + 1) <= a * a) by (nonlinear_arith)
            requires
                0 <= s + 1 <= a,
        ;
    }
    if a * a < n {
        assert((a * a) * gg < n * gg) by (nonlinear_arith)
            requires
                a * a < n,
                gg > 0,
        ;
    } else if a * a == n {
    } else {
        assert((a * a) * gg > n * gg) by (nonlinear_arith)
            requires
                a * a > n,
                gg > 0,
        ;
    }
    assert(cut(s, 8, s * s != n) <= pow2(53));
    lemma_pow2_adds(53, e);
    lemma_pow2_increases(53 + e, 2098);
    assert(cut(s, 8, s * s != n) * step <= pow2(53) * step) by (nonlinear_arith)
        requires
            cut(s, 8, s * s != n) <= pow2(53),
    ;
    lemma_pow2_increases(53 + e, 2097);
    vstd::arithmetic::power2::lemma_pow2_strictly_increases(2097, 2098);
}

impl Binary64 {
    /// The square root, rounded to nearest.
    pub fn sqrt(self) -> (r: Binary64)
        ensures
            r@ == root(self@),
            r.is_canonical(),
    {
        let u: u64 = self.unsigned();
        if u > INFINITY_BITS {
            return Binary64 { bits: NAN_BITS };
        }
        proof {
            if u > 0 {
                crate::binary64::lemma_magnitude_of_increases(0, u as nat);
            }
        }
        if u == 0 {
            return self;
        }
        if self.is_negative() {
            return Binary64 { bits: NAN_BITS };
        }
        if u == INFINITY_BITS {
            return self;
        }
        let (ma, ka) = significand_of(u);
        proof {
            lemma2_to64();
            lemma2_to64_rest();
            lemma_pow2_values();
        }
        let t: u32 = bit_length(ma as u128);
        proof {
            if t > 53 {
                lemma_pow2_increases(53, (t - 1) as nat);
            }
        }
        let sa: u32 = 53 - t;
        proof {
            lemma_pow2_adds(t as nat, sa as nat);
            lemma_pow2_adds((t - 1) as nat, sa as nat);
            lemma_pow2_pos(sa as nat);
            lemma_pow2_increases(sa as nat, 52);
            assert(ma * pow2(sa as nat) < pow2(t as nat) * pow2(sa as nat)) by (nonlinear_arith)
                requires
                    ma < pow2(t as nat),
                    pow2(sa as nat) > 0,
            ;
            assert(pow2((t - 1) as nat) * pow2(sa as nat) <= ma * pow2(sa as nat))
                by (nonlinear_arith)
                requires
                    pow2((t - 1) as nat) <= ma,
            ;
        }
        let shifted: u128 = (ma as u128) * power_of_two(sa);
        // The exponent that is left, moved up by 2148 to keep it positive,
        // has to be even before it can be halved.
        let left: i64 = ka - sa as i64 + 1016;
        let j: u32 = if left % 2 == 1 { 1 } else { 0 };
        let even: u128 = if j == 1 { shifted * 2 } else { shifted };
        let k: i64 = (left - j as i64) / 2;
        let n: u128 = even * 0x400_0000_0000_0000;
        let s: u128 = floor_sqrt(n);
        let sticky: bool = s * s != n;
        proof {
            assert(s >= 0x80_0000_0000_0000) by (nonlinear_arith)
                requires
                    n < (s + 1) * (s + 1),
                    n >= 0x10_0000_0000_0000 * 0x400_0000_0000_0000,
                    s >= 0,
            ;
            assert(even == (ma * pow2(sa as nat)) * pow2(j as nat));
            lemma_root_operand(ma as nat, ka as nat, sa as nat, j as nat, k as nat);
            lemma_root_rounds(
                ma as nat * pow2(ka as nat),
                n as nat,
                s as nat,
                k as nat,
            );
            lemma_pow2_adds(53, 3);
            lemma_pow2_adds(52, 3);
        }
        cut_and_assemble(false, s, sticky, 3, k + 3)
    }
}

} // verus!
