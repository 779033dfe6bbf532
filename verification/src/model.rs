//! The chain configuration and its precomputed tables.
//!
//! A [`Model`] fixes the chain shape (`base`, `length`, `total_s_z`) and
//! carries the tables every other component reads: the place values of
//! each site, the raw-index deltas of a one-quantum exchange across each
//! bond, and the symmetry-reduced basis of the chosen magnetization
//! sector.

use vstd::prelude::*;
use vstd::arithmetic::power::{
    pow, lemma_pow0, lemma_pow1, lemma_pow_adds, lemma_pow_increases, lemma_pow_positive,
};
use vstd::arithmetic::div_mod::{lemma_small_mod, lemma_mod_self_0};
use crate::encoding::base_powers_wf;
use crate::basis::{BasisStates, basis_states_wf, sector_digit_sum};

verus! {

/// Each flipper is the signed raw-index delta of moving one quantum from
/// a bond's first site to its second: the difference of the neighboring
/// place values.
pub open spec fn flippers_wf(flippers: Seq<isize>, powers: Seq<usize>) -> bool {
    &&& flippers.len() + 1 == powers.len()
    &&& forall|i: int|
        0 <= i < flippers.len() ==> (#[trigger] flippers[i]) as int == powers[i + 1] - powers[i]
}

/// A chain configuration with every derived table attached.
pub struct Model {
    /// Number of values a single site can take.
    pub base: u8,
    /// Number of sites on the ring.
    pub length: u8,
    /// Offset of the magnetization sector's digit sum above the rounded
    /// midpoint `round(spin * length)`.
    pub total_s_z: u8,
    /// Place values `base^(i mod length)`, wrap-extended.
    pub base_powers: Vec<usize>,
    /// Raw-index delta of a one-quantum exchange across each bond.
    pub flippers: Vec<isize>,
    /// The symmetry-reduced basis of the sector.
    pub basis_states: BasisStates,
}

/// Everything a consumer may rely on after [`Model::new`].
pub open spec fn model_wf(m: Model) -> bool {
    &&& m.base >= 2
    &&& m.length >= 2
    &&& pow(m.base as int, m.length as nat) <= usize::MAX
    &&& base_powers_wf(m.base_powers@, m.base as nat, m.length as nat)
    &&& flippers_wf(m.flippers@, m.base_powers@)
    &&& basis_states_wf(
        m.basis_states,
        m.base as nat,
        m.length as nat,
        sector_digit_sum(m.base as nat, m.length as nat, m.total_s_z as nat),
    )
}

/// The place value of every site: `[base^0, ..., base^(length-1), base^0]`,
/// with the last entry wrapping so that site `length` aliases site 0.
pub fn get_base_powers(base: u8, length: u8) -> (powers: Vec<usize>)
    requires
        base >= 1,
        length >= 1,
        pow(base as int, (length - 1) as nat) <= usize::MAX,
    ensures
        base_powers_wf(powers@, base as nat, length as nat),
{
    let mut powers: Vec<usize> = Vec::new();
    let mut current: usize = 1;
    let length_usize: usize = length as usize;
    proof {
        lemma_pow0(base as int);
    }
    for i in 0..length_usize
        invariant
            base >= 1,
            length >= 1,
            length_usize == length as nat,
            pow(base as int, (length - 1) as nat) <= usize::MAX,
            powers@.len() == i,
            i < length_usize ==> current as int == pow(base as int, i as nat),
            forall|v: int|
                0 <= v < i ==> (#[trigger] powers@[v]) as int == pow(base as int, v as nat),
    {
        powers.push(current);
        if i + 1 < length_usize {
            proof {
                lemma_pow1(base as int);
                lemma_pow_adds(base as int, i as nat, 1);
                lemma_pow_increases(base as nat, (i + 1) as nat, (length - 1) as nat);
                lemma_pow_positive(base as int, i as nat);
            }
            current = current * base as usize;
        }
    }
    powers.push(1);
    proof {
        lemma_pow0(base as int);
        assert forall|i: int| 0 <= i <= length as int implies (#[trigger] powers@[i]) as int
            == pow(base as int, (i % length as int) as nat) by {
            if i < length as int {
                lemma_small_mod(i as nat, length as nat);
            } else {
                lemma_mod_self_0(length as int);
            }
        }
    }
    powers
}

/// The signed raw-index delta of each bond's one-quantum exchange:
/// `flippers[i] = base_powers[i + 1] - base_powers[i]`.
pub fn get_flippers(base_powers: &Vec<usize>) -> (flippers: Vec<isize>)
    requires
        base_powers@.len() >= 1,
        forall|i: int|
            0 <= i < base_powers@.len() ==> (#[trigger] base_powers@[i]) as int <= isize::MAX,
    ensures
        flippers_wf(flippers@, base_powers@),
{
    let mut flippers: Vec<isize> = Vec::new();
    let count: usize = base_powers.len() - 1;
    for index in 0..count
        invariant
            count + 1 == base_powers@.len(),
            forall|i: int|
                0 <= i < base_powers@.len() ==> (#[trigger] base_powers@[i]) as int <= isize::MAX,
            flippers@.len() == index,
            forall|i: int|
                0 <= i < index ==> (#[trigger] flippers@[i]) as int == base_powers@[i + 1]
                    - base_powers@[i],
    {
        flippers.push(base_powers[index + 1] as isize - base_powers[index] as isize);
    }
    flippers
}

impl Model {
    /// Builds the configuration: place values, exchange deltas, and the
    /// symmetry-reduced basis of the requested sector.
    pub fn new(base: u8, length: u8, total_s_z: u8) -> (model: Model)
        requires
            base >= 2,
            length >= 2,
            pow(base as int, length as nat) <= isize::MAX,
        ensures
            model_wf(model),
            model.base == base,
            model.length == length,
            model.total_s_z == total_s_z,
    {
        proof {
            lemma_pow_increases(base as nat, (length - 1) as nat, length as nat);
        }
        let base_powers = get_base_powers(base, length);
        proof {
            assert forall|i: int| 0 <= i < base_powers@.len() implies (
            #[trigger] base_powers@[i]) as int <= isize::MAX by {
                if i < length as int {
                    lemma_small_mod(i as nat, length as nat);
                    lemma_pow_increases(base as nat, i as nat, length as nat);
                } else {
                    lemma_mod_self_0(length as int);
                    lemma_pow0(base as int);
                    lemma_pow_increases(base as nat, 0, length as nat);
                }
            }
        }
        let flippers = get_flippers(&base_powers);
        let basis_states = BasisStates::new(base, length, total_s_z, &base_powers);
        Model { base, length, total_s_z, base_powers, flippers, basis_states }
    }
}

} // verus!
