use species_tree_sampler::decimal::{read_decimal, write_decimal, SCALE};

fn written(units: u64) -> String {
    let mut out = Vec::new();
    write_decimal(units, &mut out);
    String::from_utf8(out).unwrap()
}

#[test]
fn one_is_a_thousand_million_units() {
    assert_eq!(SCALE, 1_000_000_000);
    assert_eq!(read_decimal(b"1", 0), Ok((1_000_000_000, 1)));
}

#[test]
fn reads_whole_numbers() {
    assert_eq!(read_decimal(b"0", 0), Ok((0, 1)));
    assert_eq!(read_decimal(b"42", 0), Ok((42_000_000_000, 2)));
    assert_eq!(read_decimal(b"007", 0), Ok((7_000_000_000, 3)));
}

#[test]
fn reads_decimal_places() {
    assert_eq!(read_decimal(b"2.5", 0), Ok((2_500_000_000, 3)));
    assert_eq!(read_decimal(b"0.000000001", 0), Ok((1, 11)));
    assert_eq!(read_decimal(b"0.123456789", 0), Ok((123_456_789, 11)));
    assert_eq!(read_decimal(b"3.10", 0), Ok((3_100_000_000, 4)));
}

#[test]
fn drops_places_behind_the_ninth() {
    assert_eq!(read_decimal(b"0.1234567899", 0), Ok((123_456_789, 12)));
    assert_eq!(read_decimal(b"1.00000000099", 0), Ok((1_000_000_000, 13)));
}

#[test]
fn reads_from_the_start_index_and_stops_at_the_first_other_byte() {
    assert_eq!(read_decimal(b"A:1.5,B", 2), Ok((1_500_000_000, 5)));
    assert_eq!(read_decimal(b"12)", 0), Ok((12_000_000_000, 2)));
    assert_eq!(read_decimal(b"1.5.2", 0), Ok((1_500_000_000, 3)));
    assert_eq!(read_decimal(b"1x5", 0), Ok((1_000_000_000, 1)));
}

#[test]
fn reports_a_missing_digit() {
    assert_eq!(read_decimal(b"", 0), Err(0));
    assert_eq!(read_decimal(b"x", 0), Err(0));
    assert_eq!(read_decimal(b".5", 0), Err(0));
    assert_eq!(read_decimal(b"-1", 0), Err(0));
    assert_eq!(read_decimal(b"A:,", 2), Err(2));
    assert_eq!(read_decimal(b"5.", 0), Err(2));
    assert_eq!(read_decimal(b"5.x", 0), Err(2));
}

#[test]
fn reports_an_amount_that_is_too_great() {
    assert_eq!(read_decimal(b"18446744073.709551615", 0), Ok((u64::MAX, 21)));
    assert_eq!(read_decimal(b"18446744073.709551616", 0), Err(0));
    assert_eq!(read_decimal(b"18446744074", 0), Err(0));
    assert_eq!(read_decimal(b"x:99999999999999999999999999999", 2), Err(2));
    assert_eq!(read_decimal(b"99999999999999999999999999999.", 0), Err(30));
}

#[test]
fn multiplies_by_the_power_of_ten_of_the_exponent() {
    assert_eq!(read_decimal(b"1e5", 0), Ok((100_000_000_000_000, 3)));
    assert_eq!(read_decimal(b"1E5", 0), Ok((100_000_000_000_000, 3)));
    assert_eq!(read_decimal(b"1e+5", 0), Ok((100_000_000_000_000, 4)));
    assert_eq!(read_decimal(b"1.5e3", 0), Ok((1_500_000_000_000, 5)));
    assert_eq!(read_decimal(b"1.5e0", 0), Ok((1_500_000_000, 5)));
    assert_eq!(read_decimal(b"12.345e1", 0), Ok((123_450_000_000, 8)));
    assert_eq!(read_decimal(b"0.000123e4", 0), Ok((1_230_000_000, 10)));
    assert_eq!(read_decimal(b"1e10", 0), Ok((10_000_000_000_000_000_000, 4)));
}

#[test]
fn divides_by_the_power_of_ten_of_a_negative_exponent() {
    assert_eq!(read_decimal(b"1e-5", 0), Ok((10_000, 4)));
    assert_eq!(read_decimal(b"1.5E-3", 0), Ok((1_500_000, 6)));
    assert_eq!(read_decimal(b"123456e-6", 0), Ok((123_456_000, 9)));
    assert_eq!(read_decimal(b"1e-9", 0), Ok((1, 4)));
    assert_eq!(read_decimal(b"25e-1", 0), Ok((2_500_000_000, 5)));
    assert_eq!(read_decimal(b"1e-0", 0), Ok((1_000_000_000, 4)));
}

#[test]
fn drops_what_an_exponent_moves_behind_the_ninth_place() {
    assert_eq!(read_decimal(b"1e-10", 0), Ok((0, 5)));
    assert_eq!(read_decimal(b"19e-10", 0), Ok((1, 6)));
    assert_eq!(read_decimal(b"1.23456789e-3", 0), Ok((1_234_567, 13)));
    assert_eq!(read_decimal(b"987654321e-18", 0), Ok((0, 13)));
    assert_eq!(read_decimal(b"987654321e-17", 0), Ok((9, 13)));
    assert_eq!(read_decimal(b"5e-99999999999999999999999999999999999999999", 0), Ok((0, 44)));
}

#[test]
fn reads_an_amount_of_many_digits_that_an_exponent_makes_small() {
    assert_eq!(
        read_decimal(b"1234567890123456789012345678901234567890e-30", 0),
        Ok((1_234_567_890_123_456_789, 44))
    );
    assert_eq!(read_decimal(b"0.00000000000000000000000000005e30", 0), Ok((50_000_000_000, 34)));
}

#[test]
fn reads_zero_with_any_exponent() {
    assert_eq!(read_decimal(b"0e5", 0), Ok((0, 3)));
    let text = b"0.000e99999999999999999999999999999999999999999999";
    assert_eq!(read_decimal(text, 0), Ok((0, text.len())));
    assert_eq!(read_decimal(b"0e-7", 0), Ok((0, 4)));
}

#[test]
fn reports_an_exponent_without_digits() {
    assert_eq!(read_decimal(b"1e", 0), Err(2));
    assert_eq!(read_decimal(b"1e+", 0), Err(3));
    assert_eq!(read_decimal(b"1e-,", 0), Err(3));
    assert_eq!(read_decimal(b"1.5Ex", 0), Err(4));
    assert_eq!(read_decimal(b"1e++1", 0), Err(3));
}

#[test]
fn reports_an_amount_that_an_exponent_makes_too_great() {
    assert_eq!(read_decimal(b"1e11", 0), Err(0));
    assert_eq!(read_decimal(b"A:2e10", 2), Err(2));
    assert_eq!(read_decimal(b"1.8446744073709551615e10", 0), Ok((u64::MAX, 24)));
    assert_eq!(read_decimal(b"1.8446744073709551616e10", 0), Err(0));
    assert_eq!(read_decimal(b"1e99999999999999999999999999999999999999999999", 0), Err(0));
    assert_eq!(read_decimal(b"0.0001e25", 0), Err(0));
}

#[test]
fn writes_whole_numbers_without_a_point() {
    assert_eq!(written(0), "0");
    assert_eq!(written(2_000_000_000), "2");
    assert_eq!(written(120_000_000_000), "120");
}

#[test]
fn writes_decimal_places_up_to_the_last_that_is_not_zero() {
    assert_eq!(written(2_500_000_000), "2.5");
    assert_eq!(written(1), "0.000000001");
    assert_eq!(written(100_000_000), "0.1");
    assert_eq!(written(1_010_000_000), "1.01");
    assert_eq!(written(123_456_789), "0.123456789");
    assert_eq!(written(u64::MAX), "18446744073.709551615");
}

#[test]
fn appends_to_what_is_there() {
    let mut out = b"A:".to_vec();
    write_decimal(1_250_000_000, &mut out);
    assert_eq!(out, b"A:1.25".to_vec());
}

#[test]
fn reads_what_was_written() {
    let amounts =
        [0u64, 1, 9, 10, 999_999_999, 1_000_000_000, 1_000_000_001, 12_345_678_900, u64::MAX];
    for units in amounts {
        let text = written(units);
        assert_eq!(read_decimal(text.as_bytes(), 0), Ok((units, text.len())));
    }
}
