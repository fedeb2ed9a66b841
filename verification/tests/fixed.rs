use sum3_solver::fixed::{number_from_bits, numbers_from_bits, to_hundredths, InvalidInput};

#[test]
fn whole_numbers_decode_to_their_millionths() {
    assert_eq!(number_from_bits(1.0f64.to_bits()), Ok(1_000_000));
    assert_eq!(number_from_bits(5.0f64.to_bits()), Ok(5_000_000));
    assert_eq!(number_from_bits(0.0f64.to_bits()), Ok(0));
    assert_eq!(number_from_bits((-0.0f64).to_bits()), Ok(0));
    assert_eq!(number_from_bits((-3.0f64).to_bits()), Ok(-3_000_000));
}

#[test]
fn fractions_decode_to_the_nearest_millionth() {
    assert_eq!(number_from_bits(0.1f64.to_bits()), Ok(100_000));
    assert_eq!(number_from_bits(0.3f64.to_bits()), Ok(300_000));
    assert_eq!(number_from_bits((-2.5f64).to_bits()), Ok(-2_500_000));
    assert_eq!(number_from_bits(1.2345678f64.to_bits()), Ok(1_234_568));
    assert_eq!(number_from_bits(1.2345674f64.to_bits()), Ok(1_234_567));
    assert_eq!(number_from_bits(123456.789f64.to_bits()), Ok(123_456_789_000));
}

#[test]
fn ties_go_to_the_even_millionth() {
    assert_eq!(number_from_bits(0.0078125f64.to_bits()), Ok(7_812));
    assert_eq!(number_from_bits(0.0234375f64.to_bits()), Ok(23_438));
    assert_eq!(number_from_bits((-0.0078125f64).to_bits()), Ok(-7_812));
}

#[test]
fn tiny_numbers_decode_to_zero() {
    assert_eq!(number_from_bits(1e-7f64.to_bits()), Ok(0));
    assert_eq!(number_from_bits(4e-7f64.to_bits()), Ok(0));
    assert_eq!(number_from_bits(6e-7f64.to_bits()), Ok(1));
    assert_eq!(number_from_bits(f64::MIN_POSITIVE.to_bits()), Ok(0));
    assert_eq!(number_from_bits(5e-324f64.to_bits()), Ok(0));
    assert_eq!(number_from_bits(1e-30f64.to_bits()), Ok(0));
}

#[test]
fn nan_and_infinities_are_not_finite() {
    assert_eq!(number_from_bits(f64::NAN.to_bits()), Err(InvalidInput::NotFinite));
    assert_eq!(number_from_bits(f64::INFINITY.to_bits()), Err(InvalidInput::NotFinite));
    assert_eq!(number_from_bits(f64::NEG_INFINITY.to_bits()), Err(InvalidInput::NotFinite));
}

#[test]
fn large_numbers_are_out_of_range() {
    assert_eq!(number_from_bits(1e13f64.to_bits()), Err(InvalidInput::OutOfRange));
    assert_eq!(number_from_bits((-1e13f64).to_bits()), Err(InvalidInput::OutOfRange));
    assert_eq!(number_from_bits(f64::MAX.to_bits()), Err(InvalidInput::OutOfRange));
    assert_eq!(number_from_bits(1e300f64.to_bits()), Err(InvalidInput::OutOfRange));
    assert_eq!(number_from_bits(9e12f64.to_bits()), Ok(9_000_000_000_000_000_000));
    assert_eq!(number_from_bits((-9e12f64).to_bits()), Ok(-9_000_000_000_000_000_000));
    assert_eq!(number_from_bits(9223372036854.775f64.to_bits()), Ok(9_223_372_036_854_775_391));
    assert_eq!(number_from_bits(9223372036854.777f64.to_bits()), Err(InvalidInput::OutOfRange));
}

#[test]
fn sequences_decode_number_by_number() {
    let bits: Vec<u64> = [1.0f64, 2.5, -0.25].iter().map(|x| x.to_bits()).collect();
    assert_eq!(numbers_from_bits(&bits), Ok(vec![1_000_000, 2_500_000, -250_000]));
    assert_eq!(numbers_from_bits(&[]), Ok(vec![]));
}

#[test]
fn first_double_that_cannot_be_decoded_is_the_error() {
    let bits: Vec<u64> = [1.0f64, f64::NAN, 1e20].iter().map(|x| x.to_bits()).collect();
    assert_eq!(numbers_from_bits(&bits), Err(InvalidInput::NotFinite));
    let bits: Vec<u64> = [1.0f64, 1e20, f64::NAN].iter().map(|x| x.to_bits()).collect();
    assert_eq!(numbers_from_bits(&bits), Err(InvalidInput::OutOfRange));
}

#[test]
fn hundredths_round_to_the_nearest() {
    assert_eq!(to_hundredths(5_000_000), 500);
    assert_eq!(to_hundredths(5_004_999), 500);
    assert_eq!(to_hundredths(5_005_001), 501);
    assert_eq!(to_hundredths(0), 0);
    assert_eq!(to_hundredths(4_999), 0);
    assert_eq!(to_hundredths(-4_999), 0);
    assert_eq!(to_hundredths(-5_001), -1);
}

#[test]
fn hundredths_ties_go_to_the_even() {
    assert_eq!(to_hundredths(5_000), 0);
    assert_eq!(to_hundredths(15_000), 2);
    assert_eq!(to_hundredths(25_000), 2);
    assert_eq!(to_hundredths(-15_000), -2);
    assert_eq!(to_hundredths(-25_000), -2);
}

#[test]
fn hundredths_of_the_extremes() {
    assert_eq!(to_hundredths(i64::MAX), 922_337_203_685_478);
    assert_eq!(to_hundredths(i64::MIN), -922_337_203_685_478);
}
