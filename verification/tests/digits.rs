use fft_multiply::digits::represent_as_vector;
use num_bigint::BigUint;

fn number(text: &str) -> BigUint {
    BigUint::parse_bytes(text.as_bytes(), 10).unwrap()
}

#[test]
fn zero_has_one_digit() {
    assert_eq!(represent_as_vector(&BigUint::from(0u64)), vec![0]);
}

#[test]
fn single_digits() {
    for digit in 0u64..10 {
        assert_eq!(represent_as_vector(&BigUint::from(digit)), vec![digit as i64]);
    }
}

#[test]
fn digits_come_least_significant_first() {
    assert_eq!(represent_as_vector(&BigUint::from(123u64)), vec![3, 2, 1]);
    assert_eq!(represent_as_vector(&BigUint::from(456u64)), vec![6, 5, 4]);
    assert_eq!(represent_as_vector(&BigUint::from(9_876_543_210u64)), vec![0, 1, 2, 3, 4, 5, 6, 7, 8, 9]);
}

#[test]
fn inner_and_low_zeros_are_kept() {
    assert_eq!(represent_as_vector(&BigUint::from(10u64)), vec![0, 1]);
    assert_eq!(represent_as_vector(&BigUint::from(1000u64)), vec![0, 0, 0, 1]);
    assert_eq!(represent_as_vector(&BigUint::from(10203u64)), vec![3, 0, 2, 0, 1]);
}

#[test]
fn digits_beyond_a_machine_word() {
    let value = number("340282366920938463463374607431768211456");
    let expected: Vec<i64> = "340282366920938463463374607431768211456"
        .bytes()
        .rev()
        .map(|symbol| i64::from(symbol - b'0'))
        .collect();
    assert_eq!(expected.len(), 39);
    assert_eq!(represent_as_vector(&value), expected);
}

#[test]
fn digit_count_is_the_length_of_the_numeral() {
    let mut text = String::from("7");
    for round in 0..300 {
        let digits = represent_as_vector(&number(&text));
        assert_eq!(digits.len(), text.len());
        assert!(digits.iter().all(|digit| (0..=9).contains(digit)));
        assert_eq!(*digits.last().unwrap(), 7);
        text.push(char::from(b'0' + (round % 10) as u8));
    }
}
