use fft_multiply::resolve::{fft_result_to_biguint, fold_digits, propagate_carries};
use num_bigint::BigUint;

fn number(text: &str) -> BigUint {
    BigUint::parse_bytes(text.as_bytes(), 10).unwrap()
}

#[test]
fn carry_runs_into_a_new_digit() {
    assert_eq!(propagate_carries(&vec![56], 10), vec![6, 5]);
    assert_eq!(propagate_carries(&vec![999], 10), vec![9, 9, 9]);
}

#[test]
fn carry_runs_through_the_coefficients() {
    assert_eq!(propagate_carries(&vec![18, 27, 28, 13, 4], 10), vec![8, 8, 0, 6, 5]);
}

#[test]
fn digits_below_the_base_are_kept() {
    assert_eq!(propagate_carries(&vec![1, 2, 3], 10), vec![1, 2, 3]);
    assert_eq!(propagate_carries(&vec![0, 0, 1], 10), vec![0, 0, 1]);
}

#[test]
fn zeros_at_the_top_are_stripped() {
    assert_eq!(propagate_carries(&vec![0, 0, 1, 0], 10), vec![0, 0, 1]);
    assert_eq!(propagate_carries(&vec![0, 0, 1, 0, 0, 0, 0, 0], 10), vec![0, 0, 1]);
}

#[test]
fn all_zero_coefficients_leave_one_zero() {
    assert_eq!(propagate_carries(&vec![0], 10), vec![0]);
    assert_eq!(propagate_carries(&vec![0, 0, 0, 0], 10), vec![0]);
}

#[test]
fn no_coefficients_give_no_digits() {
    assert_eq!(propagate_carries(&Vec::new(), 10), Vec::<u64>::new());
    assert_eq!(fft_result_to_biguint(&Vec::new(), 10), BigUint::from(0u64));
}

#[test]
fn negative_values_are_clamped_at_zero() {
    assert_eq!(propagate_carries(&vec![-3, 7], 10), vec![0, 7]);
    assert_eq!(propagate_carries(&vec![-1], 10), vec![0]);
    assert_eq!(propagate_carries(&vec![i64::MIN, 4], 10), vec![0, 4]);
}

#[test]
fn carry_is_added_before_clamping() {
    assert_eq!(propagate_carries(&vec![15, -1], 10), vec![5]);
    assert_eq!(propagate_carries(&vec![15, -3, 2], 10), vec![5, 0, 2]);
    assert_eq!(propagate_carries(&vec![25, -1, 0], 10), vec![5, 1]);
}

#[test]
fn other_bases() {
    assert_eq!(propagate_carries(&vec![255], 16), vec![15, 15]);
    assert_eq!(propagate_carries(&vec![5], 2), vec![1, 0, 1]);
    assert_eq!(propagate_carries(&vec![12345, 6789], 10_000), vec![2345, 6790]);
}

#[test]
fn largest_coefficients_do_not_overflow() {
    let digits = propagate_carries(&vec![i64::MAX, i64::MAX, i64::MAX], 10);
    let expected = BigUint::from(i64::MAX as u64) * BigUint::from(111u64);
    assert_eq!(fold_digits(&digits, 10), expected);
    assert_eq!(fft_result_to_biguint(&vec![i64::MAX, i64::MAX, i64::MAX], 10), expected);
    assert_eq!(
        fft_result_to_biguint(&vec![i64::MAX, i64::MAX], 2),
        BigUint::from(i64::MAX as u64) * BigUint::from(3u64)
    );
}

#[test]
fn fold_digits_from_the_most_significant_down() {
    assert_eq!(fold_digits(&vec![3, 2, 1], 10), BigUint::from(123u64));
    assert_eq!(fold_digits(&vec![8, 8, 0, 6, 5], 10), BigUint::from(56088u64));
    assert_eq!(fold_digits(&vec![15, 15], 16), BigUint::from(255u64));
}

#[test]
fn fold_digits_of_nothing_is_zero() {
    assert_eq!(fold_digits(&Vec::new(), 10), BigUint::from(0u64));
    assert_eq!(fold_digits(&vec![0], 10), BigUint::from(0u64));
}

#[test]
fn fold_digits_takes_any_digit_and_base() {
    assert_eq!(fold_digits(&vec![12, 1], 10), BigUint::from(22u64));
    assert_eq!(fold_digits(&vec![5, 7], 1), BigUint::from(12u64));
    assert_eq!(fold_digits(&vec![5, 7], 0), BigUint::from(5u64));
    assert_eq!(
        fold_digits(&vec![u64::MAX, u64::MAX], u64::MAX),
        BigUint::from(u64::MAX) * BigUint::from(u64::MAX) + BigUint::from(u64::MAX)
    );
}

#[test]
fn fold_digits_beyond_a_machine_word() {
    let digits: Vec<u64> = "123456789012345678901234567890"
        .bytes()
        .rev()
        .map(|symbol| u64::from(symbol - b'0'))
        .collect();
    assert_eq!(fold_digits(&digits, 10), number("123456789012345678901234567890"));
}

#[test]
fn resolve_single_coefficient() {
    assert_eq!(fft_result_to_biguint(&vec![56], 10), BigUint::from(56u64));
    assert_eq!(fft_result_to_biguint(&vec![0], 10), BigUint::from(0u64));
}

#[test]
fn resolve_exact_convolution() {
    assert_eq!(fft_result_to_biguint(&vec![18, 27, 28, 13, 4, 0, 0, 0], 10), BigUint::from(56088u64));
    assert_eq!(fft_result_to_biguint(&vec![0, 0, 1, 0], 10), BigUint::from(100u64));
}

#[test]
fn resolve_is_the_value_at_the_base() {
    let coeffs: Vec<i64> = vec![81, 162, 243, 324, 405, 324, 243, 162, 81];
    let mut expected = BigUint::from(0u64);
    for coefficient in coeffs.iter().rev() {
        expected = expected * BigUint::from(10u64) + BigUint::from(*coefficient as u64);
    }
    assert_eq!(fft_result_to_biguint(&coeffs, 10), expected);
    assert_eq!(expected, BigUint::from(99999u64) * BigUint::from(99999u64));
}

#[test]
fn resolve_clamps_noise_below_zero() {
    assert_eq!(fft_result_to_biguint(&vec![-1, 5], 10), BigUint::from(50u64));
    assert_eq!(fft_result_to_biguint(&vec![15, -3, 2], 10), BigUint::from(205u64));
}
