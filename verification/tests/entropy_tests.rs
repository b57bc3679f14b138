use passgen::entropy::{checked_power, combination_count};

#[test]
fn six_words_of_7776_give_six_times_the_bits_of_one() {
    let count = combination_count(7776, 6, 0, 0).unwrap();
    assert_eq!(count, 221073919720733357899776u128);
    let bits = (count as f64).log2();
    assert!((bits - 6.0 * 7776f64.log2()).abs() < 1e-9);
    assert!((bits - 77.55).abs() < 0.01);
    assert!((bits / 7.0 - 6.0 * 7776f64.log2() / 7.0).abs() < 1e-9);
    assert!((bits / 7.0 - 11.08).abs() < 0.01);
}

#[test]
fn one_word_of_two_gives_one_bit() {
    let count = combination_count(2, 1, 0, 0).unwrap();
    assert_eq!(count, 2);
    assert_eq!((count as f64).log2(), 1.0);
}

#[test]
fn salt_multiplies_by_positions_and_characters() {
    assert_eq!(combination_count(10, 2, 1, 10), Some(100 * 2 * 10));
    assert_eq!(combination_count(10, 3, 2, 4), Some(1000 * 3 * 16));
    assert_eq!(combination_count(7776, 7, 1, 10), Some(7776u128.pow(7) * 70));
}

#[test]
fn salt_characters_are_ignored_without_salt() {
    assert_eq!(combination_count(10, 2, 0, 10), Some(100));
}

#[test]
fn degenerate_requests_count_zero_or_one() {
    assert_eq!(combination_count(0, 5, 0, 0), Some(0));
    assert_eq!(combination_count(5, 0, 0, 0), Some(1));
    assert_eq!(combination_count(0, 0, 0, 0), Some(1));
    assert_eq!(combination_count(5, 0, 2, 10), Some(0));
    assert_eq!(combination_count(5, 2, 2, 0), Some(0));
    assert_eq!(combination_count(0, 2, 1000, 10), Some(0));
    assert_eq!(combination_count(1, usize::MAX, 0, 0), Some(1));
}

#[test]
fn counts_beyond_128_bits_are_not_given() {
    assert_eq!(combination_count(7776, 100, 0, 0), None);
    assert_eq!(combination_count(2, 127, 0, 0), Some(1u128 << 127));
    assert_eq!(combination_count(2, 128, 0, 0), None);
    assert_eq!(combination_count(2, 100, 30, 2), None);
    assert_eq!(combination_count(2, 2, 200, 2), None);
}

#[test]
fn checked_power_is_exact() {
    assert_eq!(checked_power(3, 4), Some(81));
    assert_eq!(checked_power(0, 0), Some(1));
    assert_eq!(checked_power(0, 3), Some(0));
    assert_eq!(checked_power(1, 1000), Some(1));
    assert_eq!(checked_power(10, 38), Some(10u128.pow(38)));
    assert_eq!(checked_power(10, 39), None);
}
