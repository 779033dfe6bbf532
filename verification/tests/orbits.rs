use spin_chains::basis::get_digits;
use spin_chains::model::get_base_powers;
use spin_chains::symmetries::{get_eq_class, get_symmetry_factors, SymmetrySign};

fn sign(time_reversal: bool, reflection: bool, translation: bool) -> SymmetrySign {
    SymmetrySign { time_reversal, reflection, translation }
}

#[test]
fn eq_class_of_two_site_chain() {
    let powers = get_base_powers(2, 2);
    let digits = get_digits(1, 2, 2);
    let eq_class = get_eq_class(digits, 2, 2, &powers);
    let expected = vec![
        (1, sign(false, false, false)),
        (2, sign(false, false, true)),
        (2, sign(true, false, false)),
        (1, sign(true, false, true)),
        (2, sign(false, true, false)),
        (1, sign(false, true, true)),
        (1, sign(true, true, false)),
        (2, sign(true, true, true)),
    ];
    assert_eq!(eq_class, expected);
}

#[test]
fn eq_class_length_is_four_times_length() {
    let powers = get_base_powers(3, 3);
    let digits = get_digits(5, 3, 3);
    let eq_class = get_eq_class(digits, 3, 3, &powers);
    assert_eq!(eq_class.len(), 12);
}

#[test]
fn trivial_sector_factor_counts_entries() {
    let signs = vec![
        vec![],
        vec![sign(false, false, false), sign(true, false, true)],
        vec![sign(true, true, true); 8],
    ];
    let factors = get_symmetry_factors(&signs, false, false, false);
    assert_eq!(factors, vec![0, 2, 8]);
}

#[test]
fn factor_cancellation_in_odd_sector() {
    // one entry with the flag, one without: flipping that eigenvalue
    // cancels the pair
    let signs = vec![vec![sign(false, false, false), sign(true, false, false)]];
    assert_eq!(get_symmetry_factors(&signs, false, false, false), vec![2]);
    assert_eq!(get_symmetry_factors(&signs, true, false, false), vec![0]);
    // lists without the flag do not react to it
    let unaffected = vec![vec![sign(false, true, true), sign(false, false, true)]];
    let with_flag = get_symmetry_factors(&unaffected, true, true, true);
    let without_flag = get_symmetry_factors(&unaffected, false, true, true);
    assert_eq!(with_flag, without_flag);
}

#[test]
fn factor_combines_flags_by_parity() {
    // a triple with two active flags contributes +1: the signs cancel
    let signs = vec![vec![sign(true, true, false)]];
    assert_eq!(get_symmetry_factors(&signs, true, true, false), vec![1]);
    assert_eq!(get_symmetry_factors(&signs, true, false, false), vec![-1]);
    assert_eq!(get_symmetry_factors(&signs, false, true, false), vec![-1]);
    assert_eq!(get_symmetry_factors(&signs, false, false, true), vec![1]);
}
