use enm::model::{DEFAULT_MASS, LENGTH_UNIT, MASS_UNIT, STIFFNESS_UNIT};
use enm::modes::FREQUENCY_FACTOR;
use enm::quantize::to_count;

fn count(value: f64, unit: u64) -> Option<i64> {
    to_count(value.to_bits(), unit)
}

#[test]
fn to_count_scales_by_the_unit() {
    assert_eq!(count(1.0, 1000), Some(1000));
    assert_eq!(count(-1.723, 1000), Some(-1723));
    assert_eq!(count(1.188, 1000), Some(1188));
    assert_eq!(count(15.0, LENGTH_UNIT), Some(15_000));
    assert_eq!(count(1.0, STIFFNESS_UNIT as u64), Some(1_000_000_000));
    assert_eq!(count(12.011, MASS_UNIT), Some(DEFAULT_MASS as i64));
    assert_eq!(count(1302.79, 100), Some(FREQUENCY_FACTOR as i64));
    assert_eq!(count(7.0, 1), Some(7));
    assert_eq!(count(123.456, 0), Some(0));
}

#[test]
fn to_count_gives_back_every_thousandth() {
    for k in -5000i64..=5000 {
        assert_eq!(count(k as f64 / 1000.0, 1000), Some(k));
    }
}

#[test]
fn to_count_rounds_to_nearest_and_halves_away_from_zero() {
    assert_eq!(count(0.5, 1), Some(1));
    assert_eq!(count(-0.5, 1), Some(-1));
    assert_eq!(count(1.5, 1), Some(2));
    assert_eq!(count(2.5, 1), Some(3));
    assert_eq!(count(-2.5, 1), Some(-3));
    assert_eq!(count(0.25, 2), Some(1));
    assert_eq!(count(0.49999999999999994, 1), Some(0));
    assert_eq!(count(0.5000000000000001, 1), Some(1));
    assert_eq!(count(1.4999999999999998, 1), Some(1));
    assert_eq!(count(0.3, 10), Some(3));
    assert_eq!(count(0.74, 10), Some(7));
    assert_eq!(count(0.76, 10), Some(8));
}

#[test]
fn to_count_of_zero_and_of_tiny_values_is_zero() {
    assert_eq!(count(0.0, 1000), Some(0));
    assert_eq!(count(-0.0, 1000), Some(0));
    assert_eq!(count(5e-324, 1000), Some(0));
    assert_eq!(count(-5e-324, u64::MAX), Some(0));
    assert_eq!(count(f64::MIN_POSITIVE, u64::MAX), Some(0));
    assert_eq!(count(1e-30, 1_000_000_000), Some(0));
    assert_eq!(count(4e-10, 1_000_000_000), Some(0));
    assert_eq!(count(6e-10, 1_000_000_000), Some(1));
}

#[test]
fn to_count_refuses_what_is_not_a_number() {
    assert_eq!(count(f64::INFINITY, 1), None);
    assert_eq!(count(f64::NEG_INFINITY, 1), None);
    assert_eq!(count(f64::NAN, 1), None);
    assert_eq!(count(-f64::NAN, 0), None);
    assert_eq!(to_count(u64::MAX, 1), None);
}

#[test]
fn to_count_refuses_what_does_not_fit() {
    assert_eq!(count(1e300, 1), None);
    assert_eq!(count(-1e300, 1000), None);
    assert_eq!(count(f64::MAX, u64::MAX), None);
    assert_eq!(count(9_223_372_036_854_775_808.0, 1), None);
    // a count of -2^63 exactly is refused, as one of 2^63 is
    assert_eq!(count(-9_223_372_036_854_775_808.0, 1), None);
    assert_eq!(count(-0.5, u64::MAX), None);
    assert_eq!(count(-9_223_372_036_854_774_784.0, 1), Some(-9_223_372_036_854_774_784));
    assert_eq!(count(1e16, 1000), None);
    assert_eq!(count(3.0, u64::MAX), None);
}

#[test]
fn to_count_reaches_the_largest_counts() {
    assert_eq!(count(4_611_686_018_427_387_904.0, 1), Some(1 << 62));
    assert_eq!(count(-4_611_686_018_427_387_904.0, 1), Some(-(1 << 62)));
    assert_eq!(count(9_223_372_036_854_774_784.0, 1), Some(9_223_372_036_854_774_784));
    assert_eq!(count(4_503_599_627_370_496.0, 1000), Some(4_503_599_627_370_496_000));
    assert_eq!(count(9e15, 1000), Some(9_000_000_000_000_000_000));
    assert_eq!(count(0.25, u64::MAX), Some(4_611_686_018_427_387_904));
    assert_eq!(count(0.4999999999999999, u64::MAX), Some(9_223_372_036_854_773_760));
}
