//! What holds of the statistics whatever the sample.
use crate::addition::{difference, sum};
use crate::binary64::{
    datum_of, lemma_canonical_is_determined, lemma_magnitude_of_increases,
    lemma_magnitude_of_infinity, lemma_magnitude_of_packed, Binary64, INFINITY_BITS,
};
use crate::datum::{negated, ordinate, signed, unit, Datum};
use crate::division::quotient;
use crate::multiplication::{of_count, product};
use crate::rounding::{
    lemma_nearest_from_bracket, lemma_nearest_of_representable, lemma_nearest_scales,
    lemma_nearest_zero, rounded, rounds_up,
};
use crate::stats::{
    EIGHTY_TO_SIGMA, FIFTY_TO_SIGMA, NINETY_FIVE_TO_SIGMA, NINETY_NINE_TO_SIGMA, NINETY_TO_SIGMA,
    ONE_SIGMA, SEVENTY_TO_SIGMA, SIXTY_TO_SIGMA, THREE_SIGMA, TWO_SIGMA,
};
use crate::stats::{
    mean, population_variance, standard_deviation, total, total_squared_deviation,
    within_one_deviation,
};
use vstd::arithmetic::power2::{
    lemma2_to64, lemma2_to64_rest, lemma_pow2_adds, lemma_pow2_pos,
    lemma_pow2_strictly_increases, pow2,
};
use vstd::math::abs;
use vstd::prelude::*;

verus! {

/// Whether a datum is a zero of either sign.
pub open spec fn is_zero(d: Datum) -> bool {
    d matches Datum::Finite { magnitude, .. } && magnitude == 0
}

/// Whether `b` is `a` with the opposite sign, where the sign of a zero does
/// not count.
pub open spec fn mirrors(a: Datum, b: Datum) -> bool {
    b == negated(a) || (is_zero(a) && is_zero(b))
}

/// Whether `y` is the sample `x` with the sign of every element changed.
pub open spec fn is_negation_of(y: Seq<Binary64>, x: Seq<Binary64>) -> bool {
    y.len() == x.len() && forall|i: int| 0 <= i < y.len() ==> (#[trigger] y[i])@ == negated(x[i]@)
}

/// Rounding is symmetric: the sum of mirrored terms mirrors the sum.
proof fn lemma_sum_mirrors(a: Datum, b: Datum, a2: Datum, b2: Datum)
    requires
        mirrors(a, a2),
        mirrors(b, b2),
    ensures
        mirrors(sum(a, b), sum(a2, b2)),
{
}

/// The quotient of a mirrored dividend mirrors the quotient.
proof fn lemma_quotient_mirrors(a: Datum, a2: Datum, c: Datum)
    requires
        mirrors(a, a2),
    ensures
        mirrors(quotient(a, c), quotient(a2, c)),
{
    lemma_pow2_pos(2098);
    if let Datum::Finite { magnitude, .. } = c {
        if magnitude != 0 {
            lemma_nearest_zero(magnitude);
            assert(0 * unit() == 0) by (nonlinear_arith);
        }
    }
}

/// A square does not see the sign.
proof fn lemma_square_mirrors(d: Datum, d2: Datum)
    requires
        mirrors(d, d2),
    ensures
        product(d, d) == product(d2, d2),
{
}

proof fn lemma_total_mirrors(x: Seq<Binary64>, y: Seq<Binary64>)
    requires
        is_negation_of(y, x),
    ensures
        mirrors(total(x), total(y)),
    decreases x.len(),
{
    if x.len() > 0 {
        assert(is_negation_of(y.drop_last(), x.drop_last()));
        lemma_total_mirrors(x.drop_last(), y.drop_last());
        lemma_sum_mirrors(total(x.drop_last()), x.last()@, total(y.drop_last()), y.last()@);
    }
}

proof fn lemma_total_squared_deviation_mirrors(
    x: Seq<Binary64>,
    y: Seq<Binary64>,
    cx: Datum,
    cy: Datum,
)
    requires
        is_negation_of(y, x),
        mirrors(cx, cy),
    ensures
        total_squared_deviation(x, cx) == total_squared_deviation(y, cy),
    decreases x.len(),
{
    if x.len() > 0 {
        assert(is_negation_of(y.drop_last(), x.drop_last()));
        lemma_total_squared_deviation_mirrors(x.drop_last(), y.drop_last(), cx, cy);
        lemma_sum_mirrors(x.last()@, negated(cx), y.last()@, negated(cy));
        lemma_square_mirrors(difference(x.last()@, cx), difference(y.last()@, cy));
    }
}

/// Changing the sign of every element changes the sign of the mean, where
/// the sign of a zero does not count.
pub proof fn mean_of_negated_sample(x: Seq<Binary64>, y: Seq<Binary64>)
    requires
        is_negation_of(y, x),
    ensures
        mirrors(mean(x), mean(y)),
{
    lemma_total_mirrors(x, y);
    lemma_quotient_mirrors(total(x), total(y), of_count(x.len()));
}

/// Changing the sign of every element leaves the variance as it is, and with
/// it the standard deviation.
pub proof fn variance_of_negated_sample(x: Seq<Binary64>, y: Seq<Binary64>)
    requires
        is_negation_of(y, x),
    ensures
        population_variance(y) == population_variance(x),
        standard_deviation(y) == standard_deviation(x),
{
    mean_of_negated_sample(x, y);
    lemma_total_squared_deviation_mirrors(x, y, mean(x), mean(y));
}

/// Whether the sign of a datum is negative. A NaN has no sign.
pub open spec fn is_negative(d: Datum) -> bool {
    match d {
        Datum::NaN => false,
        Datum::Infinite { negative } => negative,
        Datum::Finite { negative, .. } => negative,
    }
}

proof fn lemma_total_squared_deviation_is_not_negative(x: Seq<Binary64>, center: Datum)
    ensures
        !is_negative(total_squared_deviation(x, center)),
    decreases x.len(),
{
    if x.len() > 0 {
        lemma_total_squared_deviation_is_not_negative(x.drop_last(), center);
    }
}

/// The variance and the standard deviation are never negative, and a zero
/// among them is the positive zero.
pub proof fn variance_is_not_negative(x: Seq<Binary64>)
    ensures
        !is_negative(population_variance(x)),
        !is_negative(standard_deviation(x)),
{
    lemma_total_squared_deviation_is_not_negative(x, mean(x));
}

/// The sum of the elements in quanta, as a whole number: what the total
/// would be if nothing were rounded. An element that is not finite counts
/// for nothing.
pub open spec fn exact_total(sample: Seq<Binary64>) -> int
    decreases sample.len(),
{
    if sample.len() == 0 {
        0
    } else {
        exact_total(sample.drop_last()) + (match sample.last()@ {
            Datum::Finite { negative, magnitude } => signed(negative, magnitude),
            _ => 0,
        })
    }
}

/// Whether adding up the sample from the left never rounds: every element is
/// finite, and every partial sum is finite and exact.
pub open spec fn adds_up_exactly(sample: Seq<Binary64>) -> bool
    decreases sample.len(),
{
    sample.len() == 0 || (adds_up_exactly(sample.drop_last()) && sample.last()@ is Finite
        && total(sample) is Finite && ordinate(total(sample)) == exact_total(sample))
}

proof fn lemma_exact_total(x: Seq<Binary64>)
    requires
        adds_up_exactly(x),
    ensures
        total(x) == (Datum::Finite {
            negative: exact_total(x) < 0,
            magnitude: abs(exact_total(x)) as nat,
        }),
    decreases x.len(),
{
    if x.len() > 0 {
        lemma_exact_total(x.drop_last());
    }
}

/// Where adding up the sample never rounds, and the length is below 2^53,
/// the mean is the arithmetic average, the exact sum by the length, rounded
/// once.
pub proof fn mean_is_the_rounded_average(x: Seq<Binary64>)
    requires
        0 < x.len() < pow2(53),
        adds_up_exactly(x),
    ensures
        mean(x) == rounded(exact_total(x) < 0, abs(exact_total(x)) as nat, x.len()),
{
    let n: nat = x.len();
    let t: nat = abs(exact_total(x)) as nat;
    lemma_exact_total(x);
    // The length is represented exactly.
    lemma_nearest_of_representable(n, 1074);
    lemma_pow2_adds(53, 1074);
    lemma_pow2_strictly_increases(1127, 2098);
    lemma_pow2_pos(1074);
    assert(0 < n * unit() < pow2(53) * pow2(1074)) by (nonlinear_arith)
        requires
            0 < n < pow2(53),
            unit() == pow2(1074),
            pow2(1074) > 0,
    ;
    assert(of_count(n) == Datum::Finite { negative: false, magnitude: n * unit() });
    lemma_nearest_scales(t, n, unit());
}

/// Whether `y` is the sample `x` with `c` quanta added to every element, all
/// elements being finite and none of the additions rounded.
pub open spec fn is_shift_of(y: Seq<Binary64>, x: Seq<Binary64>, c: int) -> bool {
    y.len() == x.len() && forall|i: int|
        0 <= i < y.len() ==> (#[trigger] y[i])@ is Finite && x[i]@ is Finite && ordinate(y[i]@)
            == ordinate(x[i]@) + c
}

/// Whether the mean of the sample is finite and is the arithmetic average
/// exactly, neither the total nor the quotient having been rounded.
pub open spec fn has_exact_mean(x: Seq<Binary64>) -> bool {
    mean(x) is Finite && ordinate(mean(x)) * x.len() == exact_total(x)
}

/// Whether the distance of every element from the mean is finite and exact.
pub open spec fn has_exact_deviations(x: Seq<Binary64>) -> bool {
    forall|i: int|
        0 <= i < x.len() ==> difference((#[trigger] x[i])@, mean(x)) is Finite && ordinate(
            difference(x[i]@, mean(x)),
        ) == ordinate(x[i]@) - ordinate(mean(x))
}

proof fn lemma_exact_total_of_shift(x: Seq<Binary64>, y: Seq<Binary64>, c: int)
    requires
        is_shift_of(y, x, c),
    ensures
        exact_total(y) == exact_total(x) + x.len() * c,
    decreases x.len(),
{
    if x.len() > 0 {
        assert(is_shift_of(y.drop_last(), x.drop_last(), c));
        lemma_exact_total_of_shift(x.drop_last(), y.drop_last(), c);
        assert(x.len() * c == (x.len() - 1) * c + c) by (nonlinear_arith);
        assert(y.last() == y[y.len() - 1]);
    } else {
        assert(x.len() * c == 0) by (nonlinear_arith)
            requires
                x.len() == 0,
        ;
    }
}

proof fn lemma_equal_deviations(
    x: Seq<Binary64>,
    y: Seq<Binary64>,
    cx: Datum,
    cy: Datum,
)
    requires
        x.len() == y.len(),
        forall|i: int|
            0 <= i < x.len() ==> difference((#[trigger] x[i])@, cx) is Finite && difference(
                y[i]@,
                cy,
            ) is Finite && ordinate(difference(x[i]@, cx)) == ordinate(difference(y[i]@, cy)),
    ensures
        total_squared_deviation(x, cx) == total_squared_deviation(y, cy),
    decreases x.len(),
{
    if x.len() > 0 {
        lemma_equal_deviations(x.drop_last(), y.drop_last(), cx, cy);
        assert(x.last() == x[x.len() - 1]);
    }
}

/// Where nothing is rounded on the way from the two samples to the distances
/// of their elements from their means, adding a constant to every element
/// adds it to the mean and leaves the variance and the standard deviation as
/// they are.
pub proof fn shift_without_rounding(x: Seq<Binary64>, y: Seq<Binary64>, c: int)
    requires
        x.len() > 0,
        is_shift_of(y, x, c),
        has_exact_mean(x),
        has_exact_mean(y),
        has_exact_deviations(x),
        has_exact_deviations(y),
    ensures
        ordinate(mean(y)) == ordinate(mean(x)) + c,
        population_variance(y) == population_variance(x),
        standard_deviation(y) == standard_deviation(x),
{
    let n: int = x.len() as int;
    let mx: int = ordinate(mean(x));
    let my: int = ordinate(mean(y));
    lemma_exact_total_of_shift(x, y, c);
    assert(my == mx + c) by (nonlinear_arith)
        requires
            n > 0,
            my * n == mx * n + n * c,
    ;
    assert forall|i: int| 0 <= i < x.len() implies difference((#[trigger] x[i])@, mean(x))
        is Finite && difference(y[i]@, mean(y)) is Finite && ordinate(
        difference(x[i]@, mean(x)),
    ) == ordinate(difference(y[i]@, mean(y))) by {
        assert(y[i]@ is Finite);
    }
    lemma_equal_deviations(x, y, mean(x), mean(y));
}

/// A pattern with a full significand denotes the number nearest to the
/// fraction `num / den` if its significand is the whole part `m` of the
/// fraction, counted in the spacing that the exponent field stands for, or
/// the next one where the rest of the fraction rounds up.
proof fn lemma_nearest_to_fraction(bits: u64, num: nat, den: nat, field: nat, m: nat)
    requires
        den > 0,
        1 <= field <= 1075,
        pow2(52) <= m < pow2(53) - 1,
        m * den <= num * pow2((1075 - field) as nat) < (m + 1) * den,
        bits == field * pow2(52) + m - pow2(52) + (if rounds_up(
            (num * pow2((1075 - field) as nat) - m * den) as nat,
            den,
            m,
        ) {
            1nat
        } else {
            0nat
        }),
    ensures
        datum_of(bits) == rounded(false, num * unit(), den),
{
    let e: nat = (field - 1) as nat;
    let f: nat = (1075 - field) as nat;
    let g: nat = pow2(e);
    let scaled: int = (num * pow2(f)) as int;
    let excess: int = scaled - m * den;
    let up: bool = rounds_up(excess as nat, den, m);
    let total: nat = if up { m + 1 } else { m };
    lemma2_to64_rest();
    lemma_pow2_adds(f, e);
    lemma_pow2_pos(e);
    assert(num * unit() == scaled * g) by (nonlinear_arith)
        requires
            scaled == num * pow2(f),
            unit() == pow2(f) * g,
    ;
    assert(m * (den * g) == (m * den) * g && (m + 1) * (den * g) == ((m + 1) * den) * g)
        by (nonlinear_arith);
    assert((m * den) * g <= scaled * g < ((m + 1) * den) * g) by (nonlinear_arith)
        requires
            m * den <= scaled < (m + 1) * den,
            g > 0,
    ;
    lemma_nearest_from_bracket(num * unit(), den, m, e);
    assert(num * unit() - m * (den * g) == excess * g) by (nonlinear_arith)
        requires
            num * unit() == scaled * g,
            excess == scaled - m * den,
    ;
    assert(rounds_up((excess * g) as nat, den * g, m) == up) by (nonlinear_arith)
        requires
            up == rounds_up(excess as nat, den, m),
            excess >= 0,
            g > 0,
    ;
    lemma_magnitude_of_packed(total, e);
    lemma_magnitude_of_infinity();
    lemma_magnitude_of_increases(bits as nat, INFINITY_BITS as nat);
}

/// Each sigma constant is the pattern of the number nearest to the decimal
/// fraction that it is named for.
pub proof fn sigma_constants_are_nearest()
    ensures
        datum_of(ONE_SIGMA) == rounded(false, 1 * unit(), 1),
        datum_of(TWO_SIGMA) == rounded(false, 2 * unit(), 1),
        datum_of(THREE_SIGMA) == rounded(false, 3 * unit(), 1),
        datum_of(FIFTY_TO_SIGMA) == rounded(false, 675 * unit(), 1000),
        datum_of(SIXTY_TO_SIGMA) == rounded(false, 842 * unit(), 1000),
        datum_of(SEVENTY_TO_SIGMA) == rounded(false, 1036 * unit(), 1000),
        datum_of(EIGHTY_TO_SIGMA) == rounded(false, 1282 * unit(), 1000),
        datum_of(NINETY_TO_SIGMA) == rounded(false, 1645 * unit(), 1000),
        datum_of(NINETY_FIVE_TO_SIGMA) == rounded(false, 1960 * unit(), 1000),
        datum_of(NINETY_NINE_TO_SIGMA) == rounded(false, 2576 * unit(), 1000),
{
    lemma2_to64();
    lemma2_to64_rest();
    lemma_nearest_to_fraction(ONE_SIGMA, 1, 1, 1023, 0x10000000000000);
    lemma_nearest_to_fraction(TWO_SIGMA, 2, 1, 1024, 0x10000000000000);
    lemma_nearest_to_fraction(THREE_SIGMA, 3, 1, 1024, 0x18000000000000);
    lemma_nearest_to_fraction(FIFTY_TO_SIGMA, 675, 1000, 1022, 0x15999999999999);
    lemma_nearest_to_fraction(SIXTY_TO_SIGMA, 842, 1000, 1022, 0x1af1a9fbe76c8b);
    lemma_nearest_to_fraction(SEVENTY_TO_SIGMA, 1036, 1000, 1023, 0x109374bc6a7ef9);
    lemma_nearest_to_fraction(EIGHTY_TO_SIGMA, 1282, 1000, 1023, 0x1483126e978d4f);
    lemma_nearest_to_fraction(NINETY_TO_SIGMA, 1645, 1000, 1023, 0x1a51eb851eb851);
    lemma_nearest_to_fraction(NINETY_FIVE_TO_SIGMA, 1960, 1000, 1023, 0x1f5c28f5c28f5c);
    lemma_nearest_to_fraction(NINETY_NINE_TO_SIGMA, 2576, 1000, 1024, 0x149ba5e353f7ce);
}

/// The statistics are functions of the sample: two results for samples that
/// hold the same data are the same number, bit for bit.
pub proof fn results_are_determined(
    x: Seq<Binary64>,
    y: Seq<Binary64>,
    first: Binary64,
    second: Binary64,
)
    requires
        x.len() == y.len(),
        forall|i: int| 0 <= i < x.len() ==> (#[trigger] x[i])@ == y[i]@,
        first.is_canonical(),
        second.is_canonical(),
    ensures
        first@ == mean(x) && second@ == mean(y) ==> first == second,
        first@ == population_variance(x) && second@ == population_variance(y) ==> first
            == second,
        first@ == standard_deviation(x) && second@ == standard_deviation(y) ==> first == second,
        forall|v: Datum| within_one_deviation(x, v) == within_one_deviation(y, v),
{
    lemma_same_data(x, y);
    if first@ == second@ {
        lemma_canonical_is_determined(first, second);
    }
}

/// Samples that hold the same data have the same statistics.
proof fn lemma_same_data(x: Seq<Binary64>, y: Seq<Binary64>)
    requires
        x.len() == y.len(),
        forall|i: int| 0 <= i < x.len() ==> (#[trigger] x[i])@ == y[i]@,
    ensures
        total(x) == total(y),
        mean(x) == mean(y),
        forall|c: Datum| total_squared_deviation(x, c) == total_squared_deviation(y, c),
        population_variance(x) == population_variance(y),
    decreases x.len(),
{
    if x.len() > 0 {
        lemma_same_data(x.drop_last(), y.drop_last());
        assert forall|c: Datum| total_squared_deviation(x, c) == total_squared_deviation(y, c) by {
            assert(total_squared_deviation(x.drop_last(), c) == total_squared_deviation(
                y.drop_last(),
                c,
            ));
        }
    } else {
        assert forall|c: Datum| total_squared_deviation(x, c) == total_squared_deviation(y, c) by {
        }
    }
}

} // verus!
