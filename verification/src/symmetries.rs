//! Orbit enumeration under the chain's symmetry group.
//!
//! The group combines time reversal (each digit `d` becomes `base-1-d`),
//! spatial reflection (the digit sequence is reversed) and the `length`
//! cyclic translations of the ring.  [`get_eq_class`] lists, for a digit
//! sequence, the raw index of every image under the four sign combinations
//! of {time reversal, reflection} composed with every translation, tagged
//! with the flags relating the image back to the original.  Duplicate raw
//! indices are kept on purpose: when an orbit has internal symmetry the
//! repeated entries are what later encodes reinforcement or cancellation
//! within a symmetry sector.

use vstd::prelude::*;
use vstd::arithmetic::power::{pow, lemma_pow_increases, lemma_pow0, lemma_pow_positive};
use crate::encoding::{
    encoded, digits_in_base, lemma_encoded_bound, lemma_encoded_take_succ, lemma_encoded_update,
};

verus! {

/// How one orbit member relates to the sequence the orbit was generated
/// from: which of the three symmetries pick up a sign on the way.
#[derive(Clone, Copy, PartialEq, Eq, Structural, Debug)]
pub struct SymmetrySign {
    /// Whether time reversal was applied.
    pub time_reversal: bool,
    /// Whether reflection was applied.
    pub reflection: bool,
    /// Parity of the translation applied (true for an odd shift).
    pub translation: bool,
}

/// The digit sequence with time reversal applied.
pub open spec fn time_reversed_seq(digits: Seq<u8>, base: nat) -> Seq<u8> {
    Seq::new(digits.len(), |i: int| (base - 1 - digits[i]) as u8)
}

/// The digit sequence reversed in space.
pub open spec fn reflected_seq(digits: Seq<u8>) -> Seq<u8> {
    Seq::new(digits.len(), |i: int| digits[digits.len() - 1 - i])
}

/// The digit sequence translated by `shift` sites around the ring.
pub open spec fn rotated_seq(digits: Seq<u8>, shift: int) -> Seq<u8> {
    Seq::new(digits.len(), |i: int| digits[(shift + i) % (digits.len() as int)])
}

/// One of the four sign combinations: reflection first, then time reversal.
pub open spec fn combo_digits(digits: Seq<u8>, base: nat, time_reversal: bool, reflection: bool) -> Seq<u8> {
    let placed = if reflection {
        reflected_seq(digits)
    } else {
        digits
    };
    if time_reversal {
        time_reversed_seq(placed, base)
    } else {
        placed
    }
}

/// Whether the combination numbered `j` applies time reversal.
pub open spec fn combo_time_reversal(j: int) -> bool {
    j == 1 || j == 3
}

/// Whether the combination numbered `j` applies reflection.
pub open spec fn combo_reflection(j: int) -> bool {
    j == 2 || j == 3
}

/// The raw index of orbit entry `m` of a digit sequence: sign
/// combination `m / length` translated by `m % length` sites.
pub open spec fn orbit_value(digits: Seq<u8>, base: nat, length: nat, m: int) -> int {
    let j = m / length as int;
    let k = m % length as int;
    encoded(
        rotated_seq(combo_digits(digits, base, combo_time_reversal(j), combo_reflection(j)), k),
        base,
    )
}

/// The sign triple of orbit entry `m`.
pub open spec fn orbit_sign(length: nat, m: int) -> SymmetrySign {
    let j = m / length as int;
    let k = m % length as int;
    SymmetrySign {
        time_reversal: combo_time_reversal(j),
        reflection: combo_reflection(j),
        translation: k % 2 == 1,
    }
}

/// What entry `m` of an orbit list must hold: the entry's raw index and
/// sign triple, with the raw index inside the raw space.
pub open spec fn eq_class_entry(
    digits: Seq<u8>,
    base: nat,
    length: nat,
    m: int,
    entry: (usize, SymmetrySign),
) -> bool {
    &&& entry.0 as int == orbit_value(digits, base, length, m)
    &&& entry.0 < pow(base as int, length)
    &&& entry.1 == orbit_sign(length, m)
}

/// A sign combination keeps the digits in base and keeps the length.
pub proof fn lemma_combo_in_base(digits: Seq<u8>, base: nat, time_reversal: bool, reflection: bool)
    requires
        base >= 1,
        digits_in_base(digits, base),
    ensures
        combo_digits(digits, base, time_reversal, reflection).len() == digits.len(),
        digits_in_base(combo_digits(digits, base, time_reversal, reflection), base),
{
}

/// A translation keeps the digits in base and keeps the length.
pub proof fn lemma_rotated_in_base(digits: Seq<u8>, base: nat, shift: int)
    requires
        digits_in_base(digits, base),
    ensures
        rotated_seq(digits, shift).len() == digits.len(),
        digits_in_base(rotated_seq(digits, shift), base),
{
}

/// The contribution of one sign triple in the sector picked out by the
/// three eigenvalue flags.
pub open spec fn sign_contribution(
    sign: SymmetrySign,
    time_reversal_eigenvalue: bool,
    reflection_eigenvalue: bool,
    translation_eigenvalue: bool,
) -> int {
    let negative = ((sign.time_reversal && time_reversal_eigenvalue) != (
    (sign.reflection && reflection_eigenvalue) != (sign.translation && translation_eigenvalue)));
    if negative {
        -1
    } else {
        1
    }
}

/// The symmetry factor of a sign list: the sum of its contributions.
pub open spec fn factor_of(
    signs: Seq<SymmetrySign>,
    time_reversal_eigenvalue: bool,
    reflection_eigenvalue: bool,
    translation_eigenvalue: bool,
) -> int
    decreases signs.len(),
{
    if signs.len() == 0 {
        0
    } else {
        sign_contribution(
            signs[0],
            time_reversal_eigenvalue,
            reflection_eigenvalue,
            translation_eigenvalue,
        ) + factor_of(
            signs.drop_first(),
            time_reversal_eigenvalue,
            reflection_eigenvalue,
            translation_eigenvalue,
        )
    }
}

/// Extending a prefix of the sign list by one entry adds its contribution.
pub proof fn lemma_factor_take_succ(
    signs: Seq<SymmetrySign>,
    time_reversal_eigenvalue: bool,
    reflection_eigenvalue: bool,
    translation_eigenvalue: bool,
    i: int,
)
    requires
        0 <= i < signs.len(),
    ensures
        factor_of(
            signs.take(i + 1),
            time_reversal_eigenvalue,
            reflection_eigenvalue,
            translation_eigenvalue,
        ) == factor_of(
            signs.take(i),
            time_reversal_eigenvalue,
            reflection_eigenvalue,
            translation_eigenvalue,
        ) + sign_contribution(
            signs[i],
            time_reversal_eigenvalue,
            reflection_eigenvalue,
            translation_eigenvalue,
        ),
    decreases i,
{
    if i == 0 {
        assert(signs.take(1).drop_first() =~= signs.take(0));
        assert(signs.take(1)[0] == signs[0]);
    } else {
        let rest = signs.drop_first();
        assert(signs.take(i + 1).drop_first() =~= rest.take(i));
        assert(signs.take(i).drop_first() =~= rest.take(i - 1));
        assert(signs.take(i + 1)[0] == signs[0]);
        assert(signs.take(i)[0] == signs[0]);
        lemma_factor_take_succ(
            rest,
            time_reversal_eigenvalue,
            reflection_eigenvalue,
            translation_eigenvalue,
            i - 1,
        );
    }
}

/// In the trivial sector, with all three eigenvalue flags false, every
/// contribution is `+1`, so the factor of a sign list is its length.
pub proof fn lemma_trivial_sector_factor(signs: Seq<SymmetrySign>)
    ensures
        factor_of(signs, false, false, false) == signs.len(),
    decreases signs.len(),
{
    if signs.len() > 0 {
        lemma_trivial_sector_factor(signs.drop_first());
    }
}

/// A sign list in which no entry carries the time-reversal flag gives the
/// same factor whatever the time-reversal eigenvalue: flipping that
/// eigenvalue changes no factor whose list never sets the flag.
pub proof fn lemma_factor_independent_of_time_reversal(
    signs: Seq<SymmetrySign>,
    eigenvalue_a: bool,
    eigenvalue_b: bool,
    reflection_eigenvalue: bool,
    translation_eigenvalue: bool,
)
    requires
        forall|i: int| 0 <= i < signs.len() ==> !signs[i].time_reversal,
    ensures
        factor_of(signs, eigenvalue_a, reflection_eigenvalue, translation_eigenvalue) == factor_of(
            signs,
            eigenvalue_b,
            reflection_eigenvalue,
            translation_eigenvalue,
        ),
    decreases signs.len(),
{
    if signs.len() > 0 {
        assert(forall|i: int|
            0 <= i < signs.drop_first().len() ==> signs.drop_first()[i] == signs[i + 1]);
        lemma_factor_independent_of_time_reversal(
            signs.drop_first(),
            eigenvalue_a,
            eigenvalue_b,
            reflection_eigenvalue,
            translation_eigenvalue,
        );
    }
}

/// As [`lemma_factor_independent_of_time_reversal`], for the reflection flag.
pub proof fn lemma_factor_independent_of_reflection(
    signs: Seq<SymmetrySign>,
    time_reversal_eigenvalue: bool,
    eigenvalue_a: bool,
    eigenvalue_b: bool,
    translation_eigenvalue: bool,
)
    requires
        forall|i: int| 0 <= i < signs.len() ==> !signs[i].reflection,
    ensures
        factor_of(signs, time_reversal_eigenvalue, eigenvalue_a, translation_eigenvalue)
            == factor_of(signs, time_reversal_eigenvalue, eigenvalue_b, translation_eigenvalue),
    decreases signs.len(),
{
    if signs.len() > 0 {
        assert(forall|i: int|
            0 <= i < signs.drop_first().len() ==> signs.drop_first()[i] == signs[i + 1]);
        lemma_factor_independent_of_reflection(
            signs.drop_first(),
            time_reversal_eigenvalue,
            eigenvalue_a,
            eigenvalue_b,
            translation_eigenvalue,
        );
    }
}

/// As [`lemma_factor_independent_of_time_reversal`], for the translation flag.
pub proof fn lemma_factor_independent_of_translation(
    signs: Seq<SymmetrySign>,
    time_reversal_eigenvalue: bool,
    reflection_eigenvalue: bool,
    eigenvalue_a: bool,
    eigenvalue_b: bool,
)
    requires
        forall|i: int| 0 <= i < signs.len() ==> !signs[i].translation,
    ensures
        factor_of(signs, time_reversal_eigenvalue, reflection_eigenvalue, eigenvalue_a)
            == factor_of(signs, time_reversal_eigenvalue, reflection_eigenvalue, eigenvalue_b),
    decreases signs.len(),
{
    if signs.len() > 0 {
        assert(forall|i: int|
            0 <= i < signs.drop_first().len() ==> signs.drop_first()[i] == signs[i + 1]);
        lemma_factor_independent_of_translation(
            signs.drop_first(),
            time_reversal_eigenvalue,
            reflection_eigenvalue,
            eigenvalue_a,
            eigenvalue_b,
        );
    }
}

/// Collapses every sign list into its factor for the chosen sector.  A
/// factor of zero marks a raw state that the sector projects out.
pub fn get_symmetry_factors(
    symmetry_signs: &Vec<Vec<SymmetrySign>>,
    time_reversal_eigenvalue: bool,
    reflection_eigenvalue: bool,
    translation_eigenvalue: bool,
) -> (factors: Vec<i64>)
    requires
        forall|i: int|
            0 <= i < symmetry_signs@.len() ==> (#[trigger] symmetry_signs@[i])@.len()
                <= i64::MAX,
    ensures
        factors@.len() == symmetry_signs@.len(),
        forall|i: int|
            0 <= i < factors@.len() ==> (#[trigger] factors@[i]) as int == factor_of(
                symmetry_signs@[i]@,
                time_reversal_eigenvalue,
                reflection_eigenvalue,
                translation_eigenvalue,
            ),
{
    let mut factors: Vec<i64> = Vec::new();
    let outer_len: usize = symmetry_signs.len();
    for i in 0..outer_len
        invariant
            outer_len == symmetry_signs@.len(),
            factors@.len() == i,
            forall|v: int|
                0 <= v < symmetry_signs@.len() ==> (#[trigger] symmetry_signs@[v])@.len()
                    <= i64::MAX,
            forall|v: int|
                0 <= v < i ==> (#[trigger] factors@[v]) as int == factor_of(
                    symmetry_signs@[v]@,
                    time_reversal_eigenvalue,
                    reflection_eigenvalue,
                    translation_eigenvalue,
                ),
    {
        let signs = &symmetry_signs[i];
        let inner_len: usize = signs.len();
        let mut factor: i64 = 0;
        for e in 0..inner_len
            invariant
                inner_len == signs@.len(),
                inner_len <= i64::MAX,
                -(e as int) <= factor as int <= e as int,
                e <= inner_len,
                factor as int == factor_of(
                    signs@.take(e as int),
                    time_reversal_eigenvalue,
                    reflection_eigenvalue,
                    translation_eigenvalue,
                ),
        {
            proof {
                lemma_factor_take_succ(
                    signs@,
                    time_reversal_eigenvalue,
                    reflection_eigenvalue,
                    translation_eigenvalue,
                    e as int,
                );
            }
            let sign = signs[e];
            let negative: bool = ((sign.time_reversal && time_reversal_eigenvalue) != (
            (sign.reflection && reflection_eigenvalue) != (sign.translation
                && translation_eigenvalue)));
            if negative {
                factor = factor - 1;
            } else {
                factor = factor + 1;
            }
        }
        proof {
            assert(signs@.take(inner_len as int) =~= signs@);
        }
        factors.push(factor);
    }
    factors
}

/// The raw index of the digit sequence translated by `translate` sites:
/// digit `(translate + i) mod length` is read at place value `base^i`.
fn get_translation(
    digits: &Vec<u8>,
    translate: u8,
    base: u8,
    length: u8,
    base_powers: &Vec<usize>,
) -> (basis_state: usize)
    requires
        base >= 1,
        length >= 1,
        digits@.len() == length as nat,
        digits_in_base(digits@, base as nat),
        crate::encoding::base_powers_wf(base_powers@, base as nat, length as nat),
        pow(base as int, length as nat) <= usize::MAX,
    ensures
        basis_state as int == encoded(rotated_seq(digits@, translate as int), base as nat),
        basis_state < pow(base as int, length as nat),
{
    let ghost rotated = rotated_seq(digits@, translate as int);
    proof {
        lemma_rotated_in_base(digits@, base as nat, translate as int);
        lemma_pow0(base as int);
    }
    let length_usize: usize = length as usize;
    let mut basis_state: usize = 0;
    for index in 0..length_usize
        invariant
            base >= 1,
            length_usize == length as nat,
            length >= 1,
            digits@.len() == length as nat,
            digits_in_base(digits@, base as nat),
            rotated == rotated_seq(digits@, translate as int),
            rotated.len() == length as nat,
            digits_in_base(rotated, base as nat),
            crate::encoding::base_powers_wf(base_powers@, base as nat, length as nat),
            pow(base as int, length as nat) <= usize::MAX,
            basis_state as int == encoded(rotated.take(index as int), base as nat),
            (basis_state as int) < pow(base as int, index as nat),
    {
        let digit_index: usize = (translate as usize + index) % length_usize;
        proof {
            assert(rotated[index as int] == digits@[(translate as int + index) % (
            length as int)]);
            vstd::arithmetic::div_mod::lemma_small_mod(index as nat, length as nat);
            assert(base_powers@[index as int] as int == pow(base as int, index as nat));
            assert(digits@[digit_index as int] == rotated[index as int]);
            lemma_encoded_take_succ(rotated, base as nat, index as int);
            lemma_encoded_bound(rotated.take(index as int + 1), base as nat);
            lemma_pow_increases(base as nat, (index + 1) as nat, length as nat);
            lemma_encoded_bound(rotated.take(index as int), base as nat);
        }
        basis_state = basis_state + digits[digit_index] as usize * base_powers[index];
    }
    proof {
        assert(rotated.take(length as int) =~= rotated);
        lemma_encoded_bound(rotated, base as nat);
    }
    basis_state
}

/// All `length` translations of the digit sequence, each tagged with the
/// given flags, with the translation-parity flag toggled on every step.
fn get_translations(
    digits: &Vec<u8>,
    base: u8,
    length: u8,
    base_powers: &Vec<usize>,
    symmetry_sign: SymmetrySign,
) -> (translations: Vec<(usize, SymmetrySign)>)
    requires
        base >= 1,
        length >= 1,
        digits@.len() == length as nat,
        digits_in_base(digits@, base as nat),
        crate::encoding::base_powers_wf(base_powers@, base as nat, length as nat),
        pow(base as int, length as nat) <= usize::MAX,
    ensures
        translations@.len() == length as nat,
        forall|k: int|
            0 <= k < length as int ==> {
                &&& (#[trigger] translations@[k]).0 as int == encoded(
                    rotated_seq(digits@, k),
                    base as nat,
                )
                &&& translations@[k].0 < pow(base as int, length as nat)
                &&& translations@[k].1 == (SymmetrySign {
                    time_reversal: symmetry_sign.time_reversal,
                    reflection: symmetry_sign.reflection,
                    translation: symmetry_sign.translation != (k % 2 == 1),
                })
            },
{
    let basis_state = get_translation(digits, 0, base, length, base_powers);
    let mut sign = symmetry_sign;
    let mut translations: Vec<(usize, SymmetrySign)> = Vec::new();
    translations.push((basis_state, sign));
    let length_usize: usize = length as usize;
    for translate in 1..length_usize
        invariant
            base >= 1,
            length >= 1,
            length_usize == length as nat,
            digits@.len() == length as nat,
            digits_in_base(digits@, base as nat),
            crate::encoding::base_powers_wf(base_powers@, base as nat, length as nat),
            pow(base as int, length as nat) <= usize::MAX,
            translations@.len() == translate as nat,
            sign.time_reversal == symmetry_sign.time_reversal,
            sign.reflection == symmetry_sign.reflection,
            sign.translation == (symmetry_sign.translation != ((translate - 1) % 2 == 1)),
            forall|k: int|
                0 <= k < translate as int ==> {
                    &&& (#[trigger] translations@[k]).0 as int == encoded(
                        rotated_seq(digits@, k),
                        base as nat,
                    )
                    &&& translations@[k].0 < pow(base as int, length as nat)
                    &&& translations@[k].1 == (SymmetrySign {
                        time_reversal: symmetry_sign.time_reversal,
                        reflection: symmetry_sign.reflection,
                        translation: symmetry_sign.translation != (k % 2 == 1),
                    })
                },
    {
        sign.translation = !sign.translation;
        let translation = get_translation(digits, translate as u8, base, length, base_powers);
        translations.push((translation, sign));
    }
    translations
}

/// The original digit sequence together with its time reversal, in which
/// every digit `d` becomes `base - 1 - d`.
fn time_reverse_digits(digits: Vec<u8>, base: u8) -> (r: (Vec<u8>, Vec<u8>))
    requires
        base >= 1,
        digits_in_base(digits@, base as nat),
    ensures
        r.0@ == digits@,
        r.1@ == time_reversed_seq(digits@, base as nat),
{
    let len: usize = digits.len();
    let mut time_reversed_digits: Vec<u8> = Vec::new();
    for i in 0..len
        invariant
            base >= 1,
            len == digits@.len(),
            digits_in_base(digits@, base as nat),
            time_reversed_digits@.len() == i,
            forall|v: int|
                0 <= v < i ==> time_reversed_digits@[v] == (base - 1 - digits@[v]) as u8,
    {
        time_reversed_digits.push(base - 1 - digits[i]);
    }
    proof {
        assert(time_reversed_digits@ =~= time_reversed_seq(digits@, base as nat));
    }
    (digits, time_reversed_digits)
}

/// The original digit sequence together with its spatial reflection.
fn reflect_digits(digits: Vec<u8>) -> (r: (Vec<u8>, Vec<u8>))
    ensures
        r.0@ == digits@,
        r.1@ == reflected_seq(digits@),
{
    let len: usize = digits.len();
    let mut reflected: Vec<u8> = Vec::new();
    for i in 0..len
        invariant
            len == digits@.len(),
            reflected@.len() == i,
            forall|v: int| 0 <= v < i ==> reflected@[v] == digits@[len - 1 - v],
    {
        reflected.push(digits[len - 1 - i]);
    }
    proof {
        assert(reflected@ =~= reflected_seq(digits@));
    }
    (digits, reflected)
}

/// The four sign combinations of {time reversal, reflection} applied to
/// the digit sequence, each tagged with its flags and an untranslated
/// parity.
fn time_reverse_reflect_digits(digits: Vec<u8>, base: u8) -> (r: Vec<(Vec<u8>, SymmetrySign)>)
    requires
        base >= 1,
        digits_in_base(digits@, base as nat),
    ensures
        r@.len() == 4,
        forall|j: int|
            0 <= j < 4 ==> {
                &&& (#[trigger] r@[j]).0@ == combo_digits(
                    digits@,
                    base as nat,
                    combo_time_reversal(j),
                    combo_reflection(j),
                )
                &&& r@[j].1 == (SymmetrySign {
                    time_reversal: combo_time_reversal(j),
                    reflection: combo_reflection(j),
                    translation: false,
                })
            },
{
    let (digits, time_reversed_digits) = time_reverse_digits(digits, base);
    let (digits, reflected_digits) = reflect_digits(digits);
    proof {
        assert(digits_in_base(reflected_digits@, base as nat));
    }
    let (reflected_digits, time_reversed_reflected_digits) = time_reverse_digits(
        reflected_digits,
        base,
    );
    let mut r: Vec<(Vec<u8>, SymmetrySign)> = Vec::new();
    r.push(
        (
            digits,
            SymmetrySign { time_reversal: false, reflection: false, translation: false },
        ),
    );
    r.push(
        (
            time_reversed_digits,
            SymmetrySign { time_reversal: true, reflection: false, translation: false },
        ),
    );
    r.push(
        (
            reflected_digits,
            SymmetrySign { time_reversal: false, reflection: true, translation: false },
        ),
    );
    r.push(
        (
            time_reversed_reflected_digits,
            SymmetrySign { time_reversal: true, reflection: true, translation: false },
        ),
    );
    r
}

/// The full orbit of a digit sequence: all four sign combinations, each
/// under every translation, `4 * length` entries in all.  Entry
/// `j * length + k` holds combination `j` translated by `k` with the
/// flags that relate it back to the given sequence.
pub fn get_eq_class(
    digits: Vec<u8>,
    base: u8,
    length: u8,
    base_powers: &Vec<usize>,
) -> (eq_class: Vec<(usize, SymmetrySign)>)
    requires
        base >= 1,
        length >= 1,
        digits@.len() == length as nat,
        digits_in_base(digits@, base as nat),
        crate::encoding::base_powers_wf(base_powers@, base as nat, length as nat),
        pow(base as int, length as nat) <= usize::MAX,
    ensures
        eq_class@.len() == 4 * length as nat,
        forall|m: int|
            0 <= m < eq_class@.len() ==> eq_class_entry(
                digits@,
                base as nat,
                length as nat,
                m,
                #[trigger] eq_class@[m],
            ),
{
    let ghost original = digits@;
    let all_time_reversed_reflected_digits = time_reverse_reflect_digits(digits, base);
    let mut eq_class: Vec<(usize, SymmetrySign)> = Vec::new();
    proof {
        assert(0 * length as nat == 0) by (nonlinear_arith);
    }
    for j in 0..4usize
        invariant
            base >= 1,
            length >= 1,
            original.len() == length as nat,
            digits_in_base(original, base as nat),
            crate::encoding::base_powers_wf(base_powers@, base as nat, length as nat),
            pow(base as int, length as nat) <= usize::MAX,
            all_time_reversed_reflected_digits@.len() == 4,
            forall|v: int|
                0 <= v < 4 ==> {
                    &&& (#[trigger] all_time_reversed_reflected_digits@[v]).0@ == combo_digits(
                        original,
                        base as nat,
                        combo_time_reversal(v),
                        combo_reflection(v),
                    )
                    &&& all_time_reversed_reflected_digits@[v].1 == (SymmetrySign {
                        time_reversal: combo_time_reversal(v),
                        reflection: combo_reflection(v),
                        translation: false,
                    })
                },
            eq_class@.len() == j * length as nat,
            forall|m: int|
                0 <= m < eq_class@.len() ==> eq_class_entry(
                    original,
                    base as nat,
                    length as nat,
                    m,
                    #[trigger] eq_class@[m],
                ),
    {
        let entry = &all_time_reversed_reflected_digits[j];
        proof {
            lemma_combo_in_base(
                original,
                base as nat,
                combo_time_reversal(j as int),
                combo_reflection(j as int),
            );
        }
        let mut translations = get_translations(&entry.0, base, length, base_powers, entry.1);
        let ghost old_eq_class = eq_class@;
        let ghost translations_view = translations@;
        eq_class.append(&mut translations);
        proof {
            assert((j + 1) * length as int == j * length as int + length as int)
                by (nonlinear_arith);
            assert forall|m: int| 0 <= m < eq_class@.len() implies eq_class_entry(
                original,
                base as nat,
                length as nat,
                m,
                #[trigger] eq_class@[m],
            ) by {
                if m < old_eq_class.len() {
                    assert(eq_class@[m] == old_eq_class[m]);
                } else {
                    let k = m - j * length as int;
                    vstd::arithmetic::div_mod::lemma_fundamental_div_mod_converse(
                        m,
                        length as int,
                        j as int,
                        k,
                    );
                    assert(eq_class@[m] == translations_view[k]);
                }
            }
        }
    }
    eq_class
}


/// The all-minimum and all-maximum basis states are fixed points of every
/// group element, so the orbit of an interior raw index never reaches
/// them: every orbit entry of an interior state is itself interior.
pub proof fn lemma_orbit_value_interior(digits: Seq<u8>, base: nat, length: nat, m: int)
    requires
        2 <= base <= 256,
        length >= 1,
        digits.len() == length,
        digits_in_base(digits, base),
        1 <= encoded(digits, base) < pow(base as int, length) - 1,
        0 <= m,
    ensures
        1 <= orbit_value(digits, base, length, m) < pow(base as int, length) - 1,
{
    let j = m / length as int;
    let k = m % length as int;
    let tr = combo_time_reversal(j);
    let rf = combo_reflection(j);
    let placed = if rf {
        reflected_seq(digits)
    } else {
        digits
    };
    let u = combo_digits(digits, base, tr, rf);
    let t = rotated_seq(u, k);
    let w = orbit_value(digits, base, length, m);
    lemma_combo_in_base(digits, base, tr, rf);
    lemma_rotated_in_base(u, base, k);
    lemma_encoded_bound(t, base);
    vstd::arithmetic::div_mod::lemma_mod_division_less_than_divisor(m, length as int);
    assert(digits_in_base(placed, base)) by {
        if rf {
            assert(forall|i2: int| 0 <= i2 < length ==> placed[i2] == digits[length - 1 - i2]);
        }
    }
    lemma_time_reversed_pointwise(placed, base);
    if w == 0 {
        assert forall|i: int| 0 <= i < length implies t[i] == 0 by {
            lemma_encoded_update(t, base, i, 0u8);
            assert(digits_in_base(t.update(i, 0u8), base));
            lemma_encoded_bound(t.update(i, 0u8), base);
            lemma_pow_positive(base as int, i as nat);
            assert(t[i] == 0) by (nonlinear_arith)
                requires
                    encoded(t.update(i, 0u8), base) == 0 + (0 - t[i] as int) * pow(
                        base as int,
                        i as nat,
                    ),
                    encoded(t.update(i, 0u8), base) >= 0,
                    pow(base as int, i as nat) >= 1,
                    t[i] >= 0,
            ;
        }
        lemma_rotation_covers(u, length, k);
        assert(forall|i2: int| 0 <= i2 < length ==> u[i2] == 0);
        if tr {
            assert forall|i2: int| 0 <= i2 < length implies placed[i2] as int == base - 1 by {
                assert(u[i2] == time_reversed_seq(placed, base)[i2]);
                assert((time_reversed_seq(placed, base)[i2]) as int == base - 1 - placed[i2]);
            }
            assert(forall|i2: int| 0 <= i2 < length ==> digits[i2] as int == base - 1) by {
                if rf {
                    assert(forall|i2: int|
                        0 <= i2 < length ==> digits[i2] == placed[length - 1 - i2]);
                }
            }
            crate::encoding::lemma_encoded_all_max(digits, base);
            assert(false);
        } else {
            assert(forall|i2: int| 0 <= i2 < length ==> placed[i2] == 0);
            assert(forall|i2: int| 0 <= i2 < length ==> digits[i2] == 0) by {
                if rf {
                    assert(forall|i2: int|
                        0 <= i2 < length ==> digits[i2] == placed[length - 1 - i2]);
                }
            }
            crate::encoding::lemma_encoded_all_zero(digits, base);
            assert(false);
        }
    }
    if w == pow(base as int, length) - 1 {
        assert forall|i: int| 0 <= i < length implies t[i] as int == base - 1 by {
            lemma_encoded_update(t, base, i, (base - 1) as u8);
            assert(digits_in_base(t.update(i, (base - 1) as u8), base));
            lemma_encoded_bound(t.update(i, (base - 1) as u8), base);
            lemma_pow_positive(base as int, i as nat);
            assert(t[i] as int == base - 1) by (nonlinear_arith)
                requires
                    encoded(t.update(i, (base - 1) as u8), base) == pow(base as int, length) - 1
                        + (((base - 1) as u8) as int - t[i] as int) * pow(base as int, i as nat),
                    encoded(t.update(i, (base - 1) as u8), base) <= pow(base as int, length) - 1,
                    ((base - 1) as u8) as int == base - 1,
                    t[i] as int <= base - 1,
                    pow(base as int, i as nat) >= 1,
            ;
        }
        lemma_rotation_covers(u, length, k);
        assert(forall|i2: int| 0 <= i2 < length ==> u[i2] as int == base - 1);
        if tr {
            assert forall|i2: int| 0 <= i2 < length implies placed[i2] == 0 by {
                assert(u[i2] == time_reversed_seq(placed, base)[i2]);
                assert((time_reversed_seq(placed, base)[i2]) as int == base - 1 - placed[i2]);
            }
            assert(forall|i2: int| 0 <= i2 < length ==> digits[i2] == 0) by {
                if rf {
                    assert(forall|i2: int|
                        0 <= i2 < length ==> digits[i2] == placed[length - 1 - i2]);
                }
            }
            crate::encoding::lemma_encoded_all_zero(digits, base);
            assert(false);
        } else {
            assert(forall|i2: int| 0 <= i2 < length ==> placed[i2] as int == base - 1);
            assert(forall|i2: int| 0 <= i2 < length ==> digits[i2] as int == base - 1) by {
                if rf {
                    assert(forall|i2: int|
                        0 <= i2 < length ==> digits[i2] == placed[length - 1 - i2]);
                }
            }
            crate::encoding::lemma_encoded_all_max(digits, base);
            assert(false);
        }
    }
}

/// Time reversal maps each digit `d` to exactly `base - 1 - d` when the
/// digits lie below the base.
proof fn lemma_time_reversed_pointwise(placed: Seq<u8>, base: nat)
    requires
        1 <= base <= 256,
        digits_in_base(placed, base),
    ensures
        forall|i2: int|
            0 <= i2 < placed.len() ==> (#[trigger] time_reversed_seq(placed, base)[i2]) as int
                == base - 1 - placed[i2],
{
}

/// A rotation only permutes the sites: every digit of the rotated
/// sequence is a digit of the unrotated one and conversely.
proof fn lemma_rotation_covers(u: Seq<u8>, length: nat, k: int)
    requires
        u.len() == length,
        length >= 1,
        0 <= k < length,
    ensures
        forall|i2: int|
            0 <= i2 < length ==> #[trigger] u[i2] == rotated_seq(u, k)[(i2 - k + length) % (
            length as int)],
{
    assert forall|i2: int| 0 <= i2 < length implies #[trigger] u[i2] == rotated_seq(u, k)[(i2 - k
        + length) % (length as int)] by {
        let n = length as int;
        let i0 = (i2 - k + n) % n;
        vstd::arithmetic::div_mod::lemma_mod_division_less_than_divisor(i2 - k + n, n);
        assert(rotated_seq(u, k)[i0] == u[(k + i0) % n]);
        vstd::arithmetic::div_mod::lemma_add_mod_noop_right(k, i2 - k + n, n);
        vstd::arithmetic::div_mod::lemma_mod_multiples_vanish(1, i2, n);
        vstd::arithmetic::div_mod::lemma_small_mod(i2 as nat, length);
        assert((k + i0) % n == i2);
    }
}

} // verus!
