//! Rounding to the nearest binary64 magnitude, ties to even.
use crate::datum::{overflow_threshold, Datum};
use vstd::arithmetic::div_mod::{
    lemma_div_is_ordered, lemma_div_multiples_vanish, lemma_fundamental_div_mod,
    lemma_fundamental_div_mod_converse, lemma_multiply_divide_lt,
};
use vstd::arithmetic::power2::{
    lemma2_to64, lemma2_to64_rest, lemma_pow2_pos, lemma_pow2_unfold, pow2,
};
use vstd::prelude::*;

verus! {

/// The exponent of the spacing between neighbouring binary64 magnitudes around
/// `q` quanta: below 2^53 quanta every whole number is representable, and the
/// spacing doubles each time the magnitude does.
pub open spec fn spacing_exponent(q: nat) -> nat
    decreases q,
{
    if q < 0x20_0000_0000_0000 {
        0
    } else {
        1 + spacing_exponent(q / 2)
    }
}

/// Whether a value that lies `excess / step` of the way from the multiple
/// `below` of the spacing to the next one is rounded to the next one: past
/// the middle always, at the middle when `below` is odd.
pub open spec fn rounds_up(excess: nat, step: nat, below: nat) -> bool {
    2 * excess > step || (2 * excess == step && below % 2 == 1)
}

/// The magnitude, in quanta, of the binary64 value nearest to `num / den`
/// quanta when exponents are unbounded above, ties going to the even
/// neighbour.
pub open spec fn nearest(num: nat, den: nat) -> nat
    recommends
        den > 0,
{
    let spacing = pow2(spacing_exponent(num / den));
    let step = den * spacing;
    let below = num / step;
    let excess = num % step;
    if rounds_up(excess, step, below) {
        (below + 1) * spacing
    } else {
        below * spacing
    }
}

/// The datum of the given sign and magnitude, which is infinite once the
/// magnitude reaches the overflow threshold.
pub open spec fn bounded(negative: bool, magnitude: nat) -> Datum {
    if magnitude >= overflow_threshold() {
        Datum::Infinite { negative }
    } else {
        Datum::Finite { negative, magnitude }
    }
}

/// The datum that `num / den` quanta round to under the given sign.
pub open spec fn rounded(negative: bool, num: nat, den: nat) -> Datum
    recommends
        den > 0,
{
    bounded(negative, nearest(num, den))
}

/// A magnitude below `2^53 * 2^e`, and not below `2^52 * 2^e` unless `e` is
/// zero, has spacing exponent `e`.
pub proof fn lemma_spacing_exponent(q: nat, e: nat)
    requires
        q < pow2(53) * pow2(e),
        e > 0 ==> pow2(52) * pow2(e) <= q,
    ensures
        spacing_exponent(q) == e,
    decreases e,
{
    lemma2_to64_rest();
    if e == 0 {
        lemma2_to64();
        assert(pow2(53) * pow2(0) == pow2(53)) by (nonlinear_arith)
            requires
                pow2(0) == 1,
        ;
    } else {
        let h: nat = pow2((e - 1) as nat);
        lemma_pow2_unfold(e);
        lemma_pow2_pos((e - 1) as nat);
        assert(pow2(52) * pow2(e) == 2 * (pow2(52) * h)) by (nonlinear_arith)
            requires
                pow2(e) == 2 * h,
        ;
        assert(pow2(53) * pow2(e) == 2 * (pow2(53) * h)) by (nonlinear_arith)
            requires
                pow2(e) == 2 * h,
        ;
        assert(pow2(52) * h >= pow2(52)) by (nonlinear_arith)
            requires
                h >= 1,
        ;
        assert(pow2(53) * h == 2 * (pow2(52) * h)) by (nonlinear_arith)
            requires
                pow2(53) == 2 * pow2(52),
        ;
        assert(q >= 0x20_0000_0000_0000);
        lemma_spacing_exponent(q / 2, (e - 1) as nat);
    }
}

/// A value bracketed by two neighbouring multiples of the spacing `2^e` is
/// rounded to one of them, as its distance from the lower one decides.
pub proof fn lemma_nearest_from_bracket(num: nat, den: nat, m: nat, e: nat)
    requires
        den > 0,
        m < pow2(53),
        e > 0 ==> m >= pow2(52),
        m * (den * pow2(e)) <= num < (m + 1) * (den * pow2(e)),
    ensures
        nearest(num, den) == if rounds_up(
            (num - m * (den * pow2(e))) as nat,
            den * pow2(e),
            m,
        ) {
            (m + 1) * pow2(e)
        } else {
            m * pow2(e)
        },
{
    let spacing: nat = pow2(e);
    let step: nat = den * spacing;
    lemma_pow2_pos(e);
    assert(step > 0) by (nonlinear_arith)
        requires
            step == den * spacing,
            den > 0,
            spacing > 0,
    ;
    let excess: int = num - m * step;
    assert((m + 1) * step == m * step + step) by (nonlinear_arith);
    lemma_fundamental_div_mod_converse(num as int, step as int, m as int, excess);
    // The whole number of quanta below the value lies in the same bracket.
    let q: nat = num / den;
    assert(m * spacing <= q) by {
        let low: int = (m * spacing) as int;
        assert(m * step == den * low) by (nonlinear_arith)
            requires
                step == den * spacing,
                low == m * spacing,
        ;
        lemma_div_multiples_vanish(low, den as int);
        lemma_div_is_ordered(den * low, num as int, den as int);
    }
    assert(q < (m + 1) * spacing) by {
        assert((m + 1) * step == den * ((m + 1) * spacing)) by (nonlinear_arith)
            requires
                step == den * spacing,
        ;
        lemma_multiply_divide_lt(num as int, den as int, ((m + 1) * spacing) as int);
    }
    assert((m + 1) * spacing <= pow2(53) * spacing) by (nonlinear_arith)
        requires
            m + 1 <= pow2(53),
    ;
    if e > 0 {
        assert(pow2(52) * spacing <= m * spacing) by (nonlinear_arith)
            requires
                pow2(52) <= m,
        ;
    }
    lemma_spacing_exponent(q, e);
}

/// Zero rounds to zero.
pub proof fn lemma_nearest_zero(den: nat)
    requires
        den > 0,
    ensures
        nearest(0, den) == 0,
{
    lemma2_to64();
    lemma2_to64_rest();
    assert(den * pow2(0) == den) by (nonlinear_arith)
        requires
            pow2(0) == 1,
    ;
    assert(0 * (den * pow2(0)) == 0) by (nonlinear_arith);
    assert((0 + 1) * (den * pow2(0)) == den * pow2(0)) by (nonlinear_arith);
    lemma_nearest_from_bracket(0, den, 0, 0);
    assert(0 * pow2(0) == 0) by (nonlinear_arith);
}

/// Rounding sees the value only: a fraction rounds as it does in any other
/// terms.
pub proof fn lemma_nearest_scales(num: nat, den: nat, c: nat)
    requires
        den > 0,
        c > 0,
    ensures
        nearest(num * c, den * c) == nearest(num, den),
{
    let q: nat = num / den;
    let spacing: nat = pow2(spacing_exponent(q));
    let step: nat = den * spacing;
    lemma_pow2_pos(spacing_exponent(q));
    assert(step > 0) by (nonlinear_arith)
        requires
            step == den * spacing,
            den > 0,
            spacing > 0,
    ;
    assert(den * c > 0) by (nonlinear_arith)
        requires
            den > 0,
            c > 0,
    ;
    assert((num * c) / (den * c) == q) by {
        let r: nat = num % den;
        lemma_fundamental_div_mod(num as int, den as int);
        assert(num * c == q * (den * c) + r * c && r * c < den * c) by (nonlinear_arith)
            requires
                num == den * q + r,
                r < den,
                c > 0,
        ;
        lemma_fundamental_div_mod_converse(
            (num * c) as int,
            (den * c) as int,
            q as int,
            (r * c) as int,
        );
    }
    let below: nat = num / step;
    let excess: nat = num % step;
    let scaled: nat = (den * c) * spacing;
    lemma_fundamental_div_mod(num as int, step as int);
    assert(scaled == step * c && scaled > 0 && num * c == below * scaled + excess * c && excess * c
        < scaled) by (nonlinear_arith)
        requires
            scaled == (den * c) * spacing,
            step == den * spacing,
            num == step * below + excess,
            excess < step,
            step > 0,
            c > 0,
    ;
    lemma_fundamental_div_mod_converse(
        (num * c) as int,
        scaled as int,
        below as int,
        (excess * c) as int,
    );
    assert(rounds_up(excess * c, scaled, below) == rounds_up(excess, step, below))
        by (nonlinear_arith)
        requires
            scaled == step * c,
            c > 0,
    ;
}

/// A significand of at most 53 bits times a power of two is representable:
/// it rounds to itself.
pub proof fn lemma_nearest_of_representable(m: nat, e: nat)
    requires
        m < pow2(53),
    ensures
        nearest(m * pow2(e), 1) == m * pow2(e),
    decreases e,
{
    lemma2_to64_rest();
    if e > 0 && m < pow2(52) {
        lemma_pow2_unfold(e);
        assert(m * pow2(e) == (2 * m) * pow2((e - 1) as nat)) by (nonlinear_arith)
            requires
                pow2(e) == 2 * pow2((e - 1) as nat),
        ;
        lemma_nearest_of_representable(2 * m, (e - 1) as nat);
    } else {
        let step: nat = 1 * pow2(e);
        lemma_pow2_pos(e);
        assert(m * step == m * pow2(e) && (m + 1) * step == m * pow2(e) + step) by (nonlinear_arith)
            requires
                step == 1 * pow2(e),
        ;
        lemma_nearest_from_bracket(m * pow2(e), 1, m, e);
    }
}

} // verus!
