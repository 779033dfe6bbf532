use spin_chains::basis::BasisStates;
use spin_chains::hamiltonians::{project_2, shifted_basis_state, Projection};
use spin_chains::model::{get_base_powers, Model};
use spin_chains::symmetries::{get_symmetry_factors, SymmetrySign};

fn sign(time_reversal: bool, reflection: bool, translation: bool) -> SymmetrySign {
    SymmetrySign { time_reversal, reflection, translation }
}

#[test]
fn basis_of_two_site_spin_one_chain() {
    let powers = get_base_powers(3, 2);
    let basis = BasisStates::new(3, 2, 0, &powers);
    // sector digit sum 2: raw indices 2 = (2,0), 4 = (1,1), 6 = (0,2)
    assert_eq!(basis.length, 2);
    assert_eq!(basis.representers.len(), 2);
    assert_eq!(basis.representers[0].value, 2);
    assert_eq!(basis.representers[1].value, 4);
    assert_eq!(basis.representer_map, vec![9, 9, 0, 9, 1, 9, 0, 9, 9]);
}

#[test]
fn representers_carry_wrapped_digits_and_doubled_sigmas() {
    let powers = get_base_powers(3, 2);
    let basis = BasisStates::new(3, 2, 0, &powers);
    assert_eq!(basis.representers[0].digits, vec![2, 0, 2]);
    assert_eq!(basis.representers[0].two_sigmas, vec![2, -2, 2]);
    assert_eq!(basis.representers[1].digits, vec![1, 1, 1]);
    assert_eq!(basis.representers[1].two_sigmas, vec![0, 0, 0]);
}

#[test]
fn representer_map_is_self_consistent() {
    let powers = get_base_powers(3, 4);
    let basis = BasisStates::new(3, 4, 0, &powers);
    assert!(basis.length > 0);
    for (slot, representer) in basis.representers.iter().enumerate() {
        assert_eq!(basis.representer_map[representer.value], slot);
        if slot > 0 {
            assert!(basis.representers[slot - 1].value < representer.value);
        }
    }
}

#[test]
fn sector_indices_are_claimed_exactly_when_sum_matches() {
    let powers = get_base_powers(3, 4);
    let basis = BasisStates::new(3, 4, 0, &powers);
    let size = 81usize;
    for value in 1..size - 1 {
        let mut digit_sum = 0usize;
        let mut rest = value;
        for _ in 0..4 {
            digit_sum += rest % 3;
            rest /= 3;
        }
        let claimed = basis.representer_map[value] != size;
        if digit_sum == 4 {
            assert!(claimed);
            assert!(!basis.symmetry_signs[value].is_empty());
        }
        if claimed {
            assert!(basis.representer_map[value] < basis.length);
        } else {
            assert!(basis.symmetry_signs[value].is_empty());
        }
    }
}

#[test]
fn symmetry_sign_lists_of_two_site_chain() {
    let powers = get_base_powers(3, 2);
    let basis = BasisStates::new(3, 2, 0, &powers);
    assert_eq!(
        basis.symmetry_signs[2],
        vec![
            sign(false, false, false),
            sign(true, false, true),
            sign(false, true, true),
            sign(true, true, false),
        ]
    );
    assert_eq!(
        basis.symmetry_signs[6],
        vec![
            sign(false, false, true),
            sign(true, false, false),
            sign(false, true, false),
            sign(true, true, true),
        ]
    );
    assert_eq!(basis.symmetry_signs[4].len(), 8);
    assert_eq!(basis.symmetry_signs[0].len(), 0);
    assert_eq!(basis.symmetry_signs[8].len(), 0);
}

fn group_element_reaches(
    rep_core: &[u8],
    base: u8,
    sign: &SymmetrySign,
    target: usize,
    powers: &[usize],
) -> bool {
    let length = rep_core.len();
    let mut digits: Vec<u8> = rep_core.to_vec();
    if sign.reflection {
        digits.reverse();
    }
    if sign.time_reversal {
        for digit in digits.iter_mut() {
            *digit = base - 1 - *digit;
        }
    }
    for shift in 0..length {
        if (shift % 2 == 1) != sign.translation {
            continue;
        }
        let mut value = 0usize;
        for site in 0..length {
            value += digits[(shift + site) % length] as usize * powers[site];
        }
        if value == target {
            return true;
        }
    }
    false
}

#[test]
fn every_sign_triple_traces_to_its_representative() {
    let powers = get_base_powers(3, 4);
    let basis = BasisStates::new(3, 4, 0, &powers);
    for value in 0..81usize {
        let slot = basis.representer_map[value];
        if slot == 81 {
            continue;
        }
        let representer = &basis.representers[slot];
        let core = &representer.digits[0..4];
        assert!(!basis.symmetry_signs[value].is_empty());
        for sign in &basis.symmetry_signs[value] {
            assert!(group_element_reaches(core, 3, sign, value, &powers));
        }
    }
}

#[test]
fn factors_of_two_site_chain_by_sector() {
    let powers = get_base_powers(3, 2);
    let basis = BasisStates::new(3, 2, 0, &powers);
    let trivial = get_symmetry_factors(&basis.symmetry_signs, false, false, false);
    assert_eq!(trivial, vec![0, 0, 4, 0, 8, 0, 4, 0, 0]);
    let time_reversal_odd = get_symmetry_factors(&basis.symmetry_signs, true, false, false);
    assert_eq!(time_reversal_odd, vec![0, 0, 0, 0, 0, 0, 0, 0, 0]);
    let all_odd = get_symmetry_factors(&basis.symmetry_signs, true, true, true);
    assert_eq!(all_odd, vec![0, 0, 4, 0, 0, 0, -4, 0, 0]);
}

#[test]
fn unreachable_sector_leaves_the_basis_empty() {
    let powers = get_base_powers(3, 2);
    // no pair of digits below 3 sums to 202: nothing is claimed
    let basis = BasisStates::new(3, 2, 200, &powers);
    assert_eq!(basis.length, 0);
    assert_eq!(basis.representers.len(), 0);
    assert_eq!(basis.representer_map, vec![9; 9]);
    for signs in &basis.symmetry_signs {
        assert!(signs.is_empty());
    }
}

#[test]
fn half_integer_spin_chain() {
    // two spin-1/2 sites: the zero-magnetization sector holds the two
    // one-quantum states, one orbit
    let powers = get_base_powers(2, 2);
    let basis = BasisStates::new(2, 2, 0, &powers);
    assert_eq!(basis.length, 1);
    assert_eq!(basis.representers[0].value, 1);
    assert_eq!(basis.representers[0].digits, vec![1, 0, 1]);
    assert_eq!(basis.representers[0].two_sigmas, vec![1, -1, 1]);
    assert_eq!(basis.representer_map, vec![4, 0, 0, 4]);
}

#[test]
fn half_integer_midpoint_rounds_up() {
    // three spin-1/2 sites: spin * length = 1.5, so the zero-magnetization
    // sector keeps the digit sequences summing to round(1.5) = 2
    let powers = get_base_powers(2, 3);
    let basis = BasisStates::new(2, 3, 0, &powers);
    assert_eq!(basis.length, 1);
    assert_eq!(basis.representers[0].value, 3);
    assert_eq!(basis.representers[0].digits, vec![1, 1, 0, 1]);
    // the orbit's time-reversed members carry the complementary sum and
    // are claimed too: every interior raw index lands in the one orbit
    assert_eq!(basis.representer_map, vec![8, 0, 0, 0, 0, 0, 0, 8]);
}

#[test]
fn shifted_basis_state_moves_one_quantum() {
    let powers = get_base_powers(3, 2);
    // raw index 2 is the digit pair (2, 0), wrap-extended to [2, 0, 2]
    let digits = vec![2u8, 0, 2];
    let moved = shifted_basis_state(2, &digits, 3, 2, 0, 1, true, &powers);
    assert_eq!(moved, Some(4)); // (2, 0) -> (1, 1)
    let blocked = shifted_basis_state(2, &digits, 3, 2, 0, 1, false, &powers);
    assert_eq!(blocked, None); // site 1 holds no quantum to lose
    let wrapped = shifted_basis_state(2, &digits, 3, 2, 1, 1, false, &powers);
    assert_eq!(wrapped, Some(4)); // bond (1, 0): site 0 loses, site 1 gains
    let two_quanta = shifted_basis_state(2, &digits, 3, 2, 0, 2, true, &powers);
    assert_eq!(two_quanta, Some(6)); // (2, 0) -> (0, 2)
}

#[test]
fn shifted_basis_state_respects_digit_range() {
    let powers = get_base_powers(2, 3);
    // raw index 3 is digits (1, 1, 0), wrap-extended
    let digits = vec![1u8, 1, 0, 1];
    assert_eq!(shifted_basis_state(3, &digits, 2, 3, 0, 1, true, &powers), None);
    assert_eq!(shifted_basis_state(3, &digits, 2, 3, 1, 1, true, &powers), Some(5));
}

#[test]
fn projector_table_row_for_two_zeros() {
    let row = project_2(0, 0);
    assert_eq!(row.len(), 3);
    assert_eq!(
        row[0],
        Projection { amount: 0, lower_first: true, numerator: 1, denominator: 1 }
    );
    assert_eq!(row[1].numerator, 0);
    assert_eq!(row[2].numerator, 0);
}

#[test]
fn projector_table_row_for_middle_pair() {
    let row = project_2(1, 1);
    assert_eq!(
        row,
        vec![
            Projection { amount: 0, lower_first: true, numerator: 2, denominator: 3 },
            Projection { amount: 1, lower_first: false, numerator: 1, denominator: 3 },
            Projection { amount: 1, lower_first: true, numerator: 1, denominator: 3 },
        ]
    );
}

#[test]
fn projector_table_row_with_double_move() {
    let row = project_2(2, 0);
    assert_eq!(
        row,
        vec![
            Projection { amount: 0, lower_first: true, numerator: 1, denominator: 6 },
            Projection { amount: 1, lower_first: true, numerator: 1, denominator: 3 },
            Projection { amount: 2, lower_first: true, numerator: 1, denominator: 6 },
        ]
    );
}

#[test]
fn model_bundles_consistent_tables() {
    let model = Model::new(3, 2, 0);
    assert_eq!(model.base, 3);
    assert_eq!(model.length, 2);
    assert_eq!(model.total_s_z, 0);
    assert_eq!(model.base_powers, vec![1, 3, 1]);
    assert_eq!(model.flippers, vec![2, -2]);
    assert_eq!(model.basis_states.length, 2);
}

#[test]
fn model_dimension_grows_with_chain() {
    // spin-1 ring of four sites, zero magnetization: 19 digit sequences
    // with digit sum 4 sit strictly between the all-minimum and
    // all-maximum states
    let model = Model::new(3, 4, 0);
    let mut claimed = 0usize;
    for value in 0..81usize {
        if model.basis_states.representer_map[value] != 81 {
            claimed += 1;
        }
    }
    assert_eq!(claimed, 19);
    // the 19 sequences fall into 5 orbits: the constant sequence, two
    // orbits of the (2,2,0,0) pattern, and two of the (2,1,1,0) pattern
    assert_eq!(model.basis_states.length, 5);
}
