use fft_multiply::sizing::{calculate_length_power_of_2, supplement, MAX_COEFFICIENTS};

#[test]
fn length_for_no_coefficient_is_one() {
    assert_eq!(calculate_length_power_of_2(0), 1);
}

#[test]
fn length_for_one_coefficient_is_one() {
    assert_eq!(calculate_length_power_of_2(1), 1);
}

#[test]
fn length_of_a_power_of_two_is_itself() {
    assert_eq!(calculate_length_power_of_2(2), 2);
    assert_eq!(calculate_length_power_of_2(8), 8);
    assert_eq!(calculate_length_power_of_2(1024), 1024);
    assert_eq!(calculate_length_power_of_2(1 << 30), 1 << 30);
}

#[test]
fn length_rounds_up_to_the_next_power_of_two() {
    assert_eq!(calculate_length_power_of_2(3), 4);
    assert_eq!(calculate_length_power_of_2(5), 8);
    assert_eq!(calculate_length_power_of_2(9), 16);
    assert_eq!(calculate_length_power_of_2(399), 512);
    assert_eq!(calculate_length_power_of_2(1000), 1024);
    assert_eq!(calculate_length_power_of_2(1025), 2048);
}

#[test]
fn length_at_the_limit() {
    assert_eq!(MAX_COEFFICIENTS, 2_147_483_648);
    assert_eq!(calculate_length_power_of_2(MAX_COEFFICIENTS), MAX_COEFFICIENTS);
    assert_eq!(calculate_length_power_of_2(MAX_COEFFICIENTS - 1), MAX_COEFFICIENTS);
    assert_eq!(calculate_length_power_of_2((1 << 30) + 1), MAX_COEFFICIENTS);
}

#[test]
fn length_is_the_smallest_sufficient_power_of_two() {
    for count in 0u32..5000 {
        let length = calculate_length_power_of_2(count);
        assert!(length.is_power_of_two());
        assert!(length >= count);
        assert!(length == 1 || length / 2 < count);
    }
}

#[test]
fn supplement_pads_with_zeros() {
    let mut value: Vec<i64> = vec![3, 2, 1];
    supplement(&mut value, 8);
    assert_eq!(value, vec![3, 2, 1, 0, 0, 0, 0, 0]);
}

#[test]
fn supplement_fills_an_empty_vector() {
    let mut value: Vec<i64> = Vec::new();
    supplement(&mut value, 4);
    assert_eq!(value, vec![0, 0, 0, 0]);
}

#[test]
fn supplement_leaves_a_full_vector() {
    let mut value: Vec<i64> = vec![9, 8, 7, 6];
    supplement(&mut value, 4);
    assert_eq!(value, vec![9, 8, 7, 6]);
}

#[test]
fn supplement_never_shortens() {
    let mut value: Vec<i64> = vec![1, 2, 3];
    supplement(&mut value, 2);
    assert_eq!(value, vec![1, 2, 3]);
    supplement(&mut value, 0);
    assert_eq!(value, vec![1, 2, 3]);
}

#[test]
fn supplement_keeps_negative_coefficients() {
    let mut value: Vec<i64> = vec![-5, i64::MAX, i64::MIN];
    supplement(&mut value, 5);
    assert_eq!(value, vec![-5, i64::MAX, i64::MIN, 0, 0]);
}
