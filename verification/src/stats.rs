//! Mean, population variance and standard deviation of a sample, and the
//! test whether a value lies within one standard deviation of the mean.
use crate::addition::{difference, sum};
use crate::binary64::Binary64;
use crate::datum::{precedes, zero, Datum};
use crate::division::quotient;
use crate::multiplication::{of_count, product};
use crate::square_root::root;
use vstd::prelude::*;

verus! {

/// The one way in which a statistic can fail: the sample has no elements, so
/// that there is nothing to divide by.
#[derive(Clone, Copy, Debug, PartialEq, Eq, Structural)]
pub struct EmptyInputError;

// Multiples of the standard deviation, as binary64 bit patterns: three whole
// multiples, and the multiples that hold a given share of a normal
// distribution.
/// One standard deviation: about 68.27 % of a normal distribution lies within it.
pub const ONE_SIGMA: u64 = 0x3ff0_0000_0000_0000;

/// Two standard deviations: about 95.45 %.
pub const TWO_SIGMA: u64 = 0x4000_0000_0000_0000;

/// Three standard deviations: about 99.73 %.
pub const THREE_SIGMA: u64 = 0x4008_0000_0000_0000;

/// The multiple of the standard deviation that holds 50 %: 0.675.
pub const FIFTY_TO_SIGMA: u64 = 0x3fe5_9999_9999_999a;

/// The multiple that holds 60 %: 0.842.
pub const SIXTY_TO_SIGMA: u64 = 0x3fea_f1a9_fbe7_6c8b;

/// The multiple that holds 70 %: 1.036.
pub const SEVENTY_TO_SIGMA: u64 = 0x3ff0_9374_bc6a_7efa;

/// The multiple that holds 80 %: 1.282.
pub const EIGHTY_TO_SIGMA: u64 = 0x3ff4_8312_6e97_8d50;

/// The multiple that holds 90 %: 1.645.
pub const NINETY_TO_SIGMA: u64 = 0x3ffa_51eb_851e_b852;

/// The multiple that holds 95 %: 1.960.
pub const NINETY_FIVE_TO_SIGMA: u64 = 0x3fff_5c28_f5c2_8f5c;

/// The multiple that holds 99 %: 2.576.
pub const NINETY_NINE_TO_SIGMA: u64 = 0x4004_9ba5_e353_f7cf;

/// The elements of a sample added up from the left, starting at zero, each
/// partial sum rounded.
pub open spec fn total(sample: Seq<Binary64>) -> Datum
    decreases sample.len(),
{
    if sample.len() == 0 {
        zero(false)
    } else {
        sum(total(sample.drop_last()), sample.last()@)
    }
}

/// The mean of a sample: its total divided by its length.
pub open spec fn mean(sample: Seq<Binary64>) -> Datum {
    quotient(total(sample), of_count(sample.len()))
}

/// The square of the distance of `x` from `center`.
pub open spec fn squared_deviation(x: Datum, center: Datum) -> Datum {
    product(difference(x, center), difference(x, center))
}

/// The squared deviations of the elements from `center`, added up from the
/// left, starting at zero.
pub open spec fn total_squared_deviation(sample: Seq<Binary64>, center: Datum) -> Datum
    decreases sample.len(),
{
    if sample.len() == 0 {
        zero(false)
    } else {
        sum(
            total_squared_deviation(sample.drop_last(), center),
            squared_deviation(sample.last()@, center),
        )
    }
}

/// The population variance of a sample: the mean of the squared deviations
/// from the mean, the divisor being the length.
pub open spec fn population_variance(sample: Seq<Binary64>) -> Datum {
    quotient(total_squared_deviation(sample, mean(sample)), of_count(sample.len()))
}

/// The standard deviation of a sample: the square root of its population
/// variance.
pub open spec fn standard_deviation(sample: Seq<Binary64>) -> Datum {
    root(population_variance(sample))
}

/// Whether `value` lies strictly between the mean less one standard
/// deviation and the mean plus one standard deviation.
pub open spec fn within_one_deviation(sample: Seq<Binary64>, value: Datum) -> bool {
    let m = mean(sample);
    let s = standard_deviation(sample);
    precedes(difference(m, s), value) && precedes(value, sum(m, s))
}

/// The arithmetic mean of the sample, or the error if the sample is empty.
pub fn average(data: &Vec<Binary64>) -> (r: Result<Binary64, EmptyInputError>)
    ensures
        data.len() == 0 <==> r is Err,
        r is Ok ==> r->Ok_0@ == mean(data@) && r->Ok_0.is_canonical(),
{
    if data.len() == 0 {
        return Err(EmptyInputError);
    }
    let mut acc: Binary64 = Binary64::from_bits(0);
    let mut i: usize = 0;
    while i < data.len()
        invariant
            i <= data.len(),
            acc@ == total(data@.take(i as int)),
        decreases data.len() - i,
    {
        proof {
            assert(data@.take(i + 1).drop_last() =~= data@.take(i as int));
        }
        acc = acc.plus(data[i]);
        i = i + 1;
    }
    proof {
        assert(data@.take(i as int) =~= data@);
    }
    Ok(acc.divided_by(Binary64::from_count(data.len())))
}

/// The population variance of the sample, or the error if the sample is
/// empty.
pub fn variance(data: &Vec<Binary64>) -> (r: Result<Binary64, EmptyInputError>)
    ensures
        data.len() == 0 <==> r is Err,
        r is Ok ==> r->Ok_0@ == population_variance(data@) && r->Ok_0.is_canonical(),
{
    let center: Binary64 = match average(data) {
        Ok(m) => m,
        Err(e) => {
            return Err(e);
        },
    };
    let mut acc: Binary64 = Binary64::from_bits(0);
    let mut i: usize = 0;
    while i < data.len()
        invariant
            i <= data.len(),
            acc@ == total_squared_deviation(data@.take(i as int), center@),
        decreases data.len() - i,
    {
        proof {
            assert(data@.take(i + 1).drop_last() =~= data@.take(i as int));
        }
        let d: Binary64 = data[i].minus(center);
        acc = acc.plus(d.times(d));
        i = i + 1;
    }
    proof {
        assert(data@.take(i as int) =~= data@);
    }
    Ok(acc.divided_by(Binary64::from_count(data.len())))
}

/// The standard deviation of the sample, or the error if the sample is empty.
pub fn empiric_deviation(data: &Vec<Binary64>) -> (r: Result<Binary64, EmptyInputError>)
    ensures
        data.len() == 0 <==> r is Err,
        r is Ok ==> r->Ok_0@ == standard_deviation(data@) && r->Ok_0.is_canonical(),
{
    match variance(data) {
        Ok(v) => Ok(v.sqrt()),
        Err(e) => Err(e),
    }
}

/// Whether `to_check` lies within one standard deviation of the mean of the
/// sample, both bounds excluded, or the error if the sample is empty.
///
/// The interval is always one standard deviation wide on either side:
/// `sigma` is accepted and has no influence on the answer.
pub fn matches_sigma_environment(data: &Vec<Binary64>, sigma: Binary64, to_check: Binary64) -> (r:
    Result<bool, EmptyInputError>)
    ensures
        data.len() == 0 <==> r is Err,
        r is Ok ==> r->Ok_0 == within_one_deviation(data@, to_check@),
{
    let center: Binary64 = match average(data) {
        Ok(m) => m,
        Err(e) => {
            return Err(e);
        },
    };
    let deviation: Binary64 = match empiric_deviation(data) {
        Ok(d) => d,
        Err(e) => {
            return Err(e);
        },
    };
    Ok(center.minus(deviation).less_than(to_check) && to_check.less_than(center.plus(deviation)))
}

} // verus!
