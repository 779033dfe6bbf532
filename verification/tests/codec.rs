use spin_chains::basis::get_digits;
use spin_chains::encoding::pow_usize;
use spin_chains::model::{get_base_powers, get_flippers};

#[test]
fn digits_of_small_value() {
    assert_eq!(get_digits(5, 3, 3), vec![2, 1, 0]);
}

#[test]
fn digits_of_zero() {
    assert_eq!(get_digits(0, 2, 4), vec![0, 0, 0, 0]);
}

#[test]
fn digits_of_largest_in_range() {
    assert_eq!(get_digits(80, 3, 4), vec![2, 2, 2, 2]);
}

#[test]
fn pow_usize_values() {
    assert_eq!(pow_usize(3, 0), 1);
    assert_eq!(pow_usize(3, 4), 81);
    assert_eq!(pow_usize(2, 10), 1024);
}

#[test]
fn base_powers_wrap() {
    assert_eq!(get_base_powers(3, 3), vec![1, 3, 9, 1]);
    assert_eq!(get_base_powers(2, 2), vec![1, 2, 1]);
}

#[test]
fn flippers_are_power_differences() {
    let powers = get_base_powers(3, 3);
    assert_eq!(get_flippers(&powers), vec![2, 6, -8]);
    let powers_2 = get_base_powers(3, 2);
    assert_eq!(get_flippers(&powers_2), vec![2, -2]);
}

#[test]
fn digits_re_encode_to_original_value() {
    let base: u8 = 3;
    let length: u8 = 4;
    let powers = get_base_powers(base, length);
    for value in 0..81usize {
        let digits = get_digits(value, base, length);
        let mut re_encoded: usize = 0;
        for site in 0..length as usize {
            re_encoded += digits[site] as usize * powers[site];
        }
        assert_eq!(re_encoded, value);
    }
}
