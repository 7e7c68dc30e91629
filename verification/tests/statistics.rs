use basic_stochastics::{
    average, empiric_deviation, matches_sigma_environment, variance, Binary64, EmptyInputError,
    EIGHTY_TO_SIGMA, FIFTY_TO_SIGMA, NINETY_FIVE_TO_SIGMA, NINETY_NINE_TO_SIGMA, NINETY_TO_SIGMA,
    ONE_SIGMA, SEVENTY_TO_SIGMA, SIXTY_TO_SIGMA, THREE_SIGMA, TWO_SIGMA,
};

fn from(x: f64) -> Binary64 {
    Binary64::from_bits(x.to_bits())
}

fn sample(values: &[f64]) -> Vec<Binary64> {
    values.iter().map(|x| from(*x)).collect()
}

fn number(x: Binary64) -> f64 {
    f64::from_bits(x.to_bits())
}

/// The statistics as the machine's own arithmetic computes them.
fn machine_average(values: &[f64]) -> f64 {
    let mut sum: f64 = 0.0;
    for x in values {
        sum += *x;
    }
    sum / values.len() as f64
}

fn machine_variance(values: &[f64]) -> f64 {
    let center = machine_average(values);
    let mut acc: f64 = 0.0;
    for x in values {
        let d = *x - center;
        acc += d * d;
    }
    acc / values.len() as f64
}

#[test]
fn test_average() {
    let data = sample(&[1.0, 2.0, 3.0, 4.0, 2.0]);
    assert_eq!(number(average(&data).unwrap()), 2.4);
}

#[test]
fn test_variance() {
    let data = sample(&[1.0, 2.0, 3.0, 4.0, 2.0]);
    assert_eq!(number(variance(&data).unwrap()), 1.04);
}

#[test]
fn test_empiric_deviation() {
    let data = sample(&[1.0, 2.0, 3.0, 4.0, 2.0]);
    assert_eq!(number(empiric_deviation(&data).unwrap()), 1.019803902718557);
}

#[test]
fn test_sigma_environment() {
    let data = sample(&[1.0, 2.0, 3.0, 4.0, 2.0]);
    let one = Binary64::from_bits(ONE_SIGMA);
    let two = Binary64::from_bits(TWO_SIGMA);

    assert_eq!(matches_sigma_environment(&data, one, from(3.4)).unwrap(), true);
    assert_eq!(matches_sigma_environment(&data, one, from(1.4)).unwrap(), true);
    assert_eq!(matches_sigma_environment(&data, one, from(5.0)).unwrap(), false);

    assert_eq!(matches_sigma_environment(&data, two, from(3.4)).unwrap(), true);
    assert_eq!(matches_sigma_environment(&data, two, from(5.0)).unwrap(), false);
}

#[test]
fn sigma_does_not_widen_the_interval() {
    // Three standard deviations around 2.4 would reach past 5.0.
    let data = sample(&[1.0, 2.0, 3.0, 4.0, 2.0]);
    let three = Binary64::from_bits(THREE_SIGMA);
    assert_eq!(matches_sigma_environment(&data, three, from(5.0)).unwrap(), false);
    assert_eq!(matches_sigma_environment(&data, from(2.576), from(3.4)).unwrap(), true);
    assert_eq!(matches_sigma_environment(&data, from(f64::NAN), from(3.4)).unwrap(), true);
}

#[test]
fn bounds_of_the_interval_are_excluded() {
    // Mean 2 and deviation 1: the interval is (1, 3).
    let data = sample(&[1.0, 3.0]);
    let one = Binary64::from_bits(ONE_SIGMA);
    assert_eq!(number(average(&data).unwrap()), 2.0);
    assert_eq!(number(empiric_deviation(&data).unwrap()), 1.0);
    assert_eq!(matches_sigma_environment(&data, one, from(1.0)).unwrap(), false);
    assert_eq!(matches_sigma_environment(&data, one, from(3.0)).unwrap(), false);
    assert_eq!(matches_sigma_environment(&data, one, from(1.0000000000000002)).unwrap(), true);
    assert_eq!(matches_sigma_environment(&data, one, from(2.9999999999999996)).unwrap(), true);
    assert_eq!(matches_sigma_environment(&data, one, from(f64::NAN)).unwrap(), false);
}

#[test]
fn average_of_nothing_is_an_error() {
    assert_eq!(average(&Vec::new()).err(), Some(EmptyInputError));
}

#[test]
fn variance_of_nothing_is_an_error() {
    assert_eq!(variance(&Vec::new()).err(), Some(EmptyInputError));
}

#[test]
fn empiric_deviation_of_nothing_is_an_error() {
    assert_eq!(empiric_deviation(&Vec::new()).err(), Some(EmptyInputError));
}

#[test]
fn sigma_environment_of_nothing_is_an_error() {
    let one = Binary64::from_bits(ONE_SIGMA);
    assert_eq!(matches_sigma_environment(&Vec::new(), one, from(0.0)).err(), Some(EmptyInputError));
}

#[test]
fn a_single_element_is_its_own_mean() {
    let data = sample(&[-7.25]);
    assert_eq!(number(average(&data).unwrap()), -7.25);
    assert_eq!(number(variance(&data).unwrap()), 0.0);
    assert_eq!(number(empiric_deviation(&data).unwrap()), 0.0);
}

#[test]
fn summation_runs_from_the_left() {
    // From the left the small terms are absorbed one by one; from the right
    // they would add up first.
    let values = [9007199254740992.0, 1.0, 1.0, 1.0, 1.0];
    let data = sample(&values);
    assert_eq!(number(average(&data).unwrap()), 9007199254740992.0 / 5.0);
    assert_eq!(number(average(&data).unwrap()), machine_average(&values));
}

#[test]
fn statistics_match_machine_arithmetic() {
    let samples: [&[f64]; 6] = [
        &[1.0, 2.0, 3.0, 4.0, 2.0],
        &[0.1, 0.2, 0.3],
        &[-1e308, 1e308, 3.5],
        &[1e-320, 3e-320, 2e-323],
        &[1e16, 1.0, -1e16, 0.3333333333333333],
        &[12345.678, -0.000123, 99.5, 1e10, 7.0, 7.0, 7.0],
    ];
    for values in samples.iter() {
        let data = sample(values);
        let m = machine_average(values);
        let v = machine_variance(values);
        assert_eq!(average(&data).unwrap().to_bits(), m.to_bits());
        assert_eq!(variance(&data).unwrap().to_bits(), v.to_bits());
        assert_eq!(empiric_deviation(&data).unwrap().to_bits(), v.sqrt().to_bits());
    }
}

#[test]
fn overflowing_samples_give_what_the_arithmetic_gives() {
    let values = [1.7976931348623157e308, 1.7976931348623157e308];
    let data = sample(&values);
    assert_eq!(number(average(&data).unwrap()), f64::INFINITY);
    assert_eq!(number(variance(&data).unwrap()), f64::INFINITY);
    assert_eq!(number(empiric_deviation(&data).unwrap()), f64::INFINITY);
    // Both bounds are infinity less infinity or infinity itself.
    let one = Binary64::from_bits(ONE_SIGMA);
    assert_eq!(matches_sigma_environment(&data, one, from(0.0)).unwrap(), false);
    // An infinite element leaves no variance at all.
    let data = sample(&[f64::INFINITY, 1.0]);
    assert_eq!(number(average(&data).unwrap()), f64::INFINITY);
    assert!(variance(&data).unwrap().is_nan());
    assert!(empiric_deviation(&data).unwrap().is_nan());
}

#[test]
fn results_do_not_change_between_calls() {
    let data = sample(&[0.1, 0.7, -3.0, 2.5e10]);
    assert_eq!(average(&data).unwrap().to_bits(), average(&data).unwrap().to_bits());
    assert_eq!(variance(&data).unwrap().to_bits(), variance(&data).unwrap().to_bits());
    assert_eq!(
        empiric_deviation(&data).unwrap().to_bits(),
        empiric_deviation(&data).unwrap().to_bits()
    );
}

#[test]
fn variance_ignores_the_sign_of_the_sample() {
    let values = [0.1, 0.7, -3.0, 2.5e10, 0.0];
    let negated: Vec<f64> = values.iter().map(|x| -x).collect();
    assert_eq!(
        variance(&sample(&values)).unwrap().to_bits(),
        variance(&sample(&negated)).unwrap().to_bits()
    );
}

#[test]
fn shifting_shifts_the_mean_and_keeps_the_variance_while_nothing_is_rounded() {
    let values = [1.0, 3.0, 5.0];
    let shifted: Vec<f64> = values.iter().map(|x| x + 8.0).collect();
    assert_eq!(number(average(&sample(&values)).unwrap()), 3.0);
    assert_eq!(number(average(&sample(&shifted)).unwrap()), 3.0 + 8.0);
    assert_eq!(number(variance(&sample(&values)).unwrap()), 8.0 / 3.0);
    assert_eq!(number(variance(&sample(&shifted)).unwrap()), 8.0 / 3.0);
}

#[test]
fn shifting_changes_the_variance_once_the_mean_is_rounded() {
    let values = [1.0, 2.0, 3.0, 4.0, 2.0];
    let shifted: Vec<f64> = values.iter().map(|x| x + 8.0).collect();
    assert_eq!(number(average(&sample(&shifted)).unwrap()), 10.4);
    assert_eq!(number(variance(&sample(&values)).unwrap()), 1.04);
    assert_eq!(number(variance(&sample(&shifted)).unwrap()), 1.0399999999999998);
    assert_eq!(number(variance(&sample(&shifted)).unwrap()), machine_variance(&shifted));
}

#[test]
fn shifting_by_a_large_number_loses_the_sample_to_rounding() {
    // 2^53 + 1 is not representable: the shifted sample is [2^53, 2^53 + 2],
    // and its sum, 2^54 + 2, is rounded down to 2^54.
    let c = 9007199254740992.0;
    let values = [1.0, 2.0];
    let shifted: Vec<f64> = values.iter().map(|x| x + c).collect();
    assert_eq!(number(variance(&sample(&values)).unwrap()), 0.25);
    assert_eq!(number(variance(&sample(&shifted)).unwrap()), 2.0);
    assert_eq!(number(average(&sample(&shifted)).unwrap()), c);
    assert_eq!(number(average(&sample(&values)).unwrap()) + c, c + 2.0);
}

#[test]
fn sigma_constants_are_the_nearest_numbers() {
    assert_eq!(f64::from_bits(ONE_SIGMA), 1.0);
    assert_eq!(f64::from_bits(TWO_SIGMA), 2.0);
    assert_eq!(f64::from_bits(THREE_SIGMA), 3.0);
    assert_eq!(f64::from_bits(FIFTY_TO_SIGMA), 0.675);
    assert_eq!(f64::from_bits(SIXTY_TO_SIGMA), 0.842);
    assert_eq!(f64::from_bits(SEVENTY_TO_SIGMA), 1.036);
    assert_eq!(f64::from_bits(EIGHTY_TO_SIGMA), 1.282);
    assert_eq!(f64::from_bits(NINETY_TO_SIGMA), 1.645);
    assert_eq!(f64::from_bits(NINETY_FIVE_TO_SIGMA), 1.960);
    assert_eq!(f64::from_bits(NINETY_NINE_TO_SIGMA), 2.576);
}
