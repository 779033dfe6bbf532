//! The integer bookkeeping of the Hamiltonian terms.
//!
//! Every off-diagonal term of the supported models moves a number of
//! quanta across one bond of the ring: one site's digit drops, the
//! neighboring site's digit rises by the same amount.
//! [`shifted_basis_state`] performs that move on the raw index directly —
//! adding or subtracting multiples of the neighboring place values — and
//! is proved to land exactly on the encoding of the exchanged digit
//! sequence, inside the raw space, with the digit sum unchanged
//! ([`lemma_exchange_preserves_digit_sum`]): the move never leaves the
//! magnetization sector, so its target is always claimed in a basis that
//! covers the sector ([`lemma_exchange_target_claimed`]).  [`project_2`]
//! is the fixed two-site spin-2 projector table used by the projector
//! model, with exact rational coefficients.

use vstd::prelude::*;
use vstd::arithmetic::power::{pow, lemma_pow1, lemma_pow_adds, lemma_pow_increases,
    lemma_pow_positive};
use vstd::arithmetic::div_mod::{lemma_small_mod, lemma_mod_self_0};
use crate::encoding::{
    encoded, digits_in_base, digit_sum, base_powers_wf, lemma_encoded_bound,
    lemma_encoded_update, lemma_digit_sum_update, lemma_digits_of_encoded,
};
use crate::basis::{BasisStates, basis_states_wf};

verus! {

/// A Hamiltonian operator, carrying the parameters of one concrete model.
pub struct Hamiltonian<T> {
    /// The parameters of the Hamiltonian.
    pub parameters: T,
}

/// The second site of the bond starting at site `i`: its neighbor on the
/// ring, wrapping from the last site back to site 0.
pub open spec fn bond_partner(i: int, length: nat) -> int {
    if i + 1 < length {
        i + 1
    } else {
        0
    }
}

/// Whether moving `amount` quanta across the bond at `i` stays inside the
/// digit range: the losing site holds enough quanta and the gaining site
/// has enough room.
pub open spec fn exchange_allowed(
    core: Seq<u8>,
    base: nat,
    length: nat,
    i: int,
    amount: int,
    lower_first: bool,
) -> bool {
    let j = bond_partner(i, length);
    let lo = if lower_first {
        i
    } else {
        j
    };
    let hi = if lower_first {
        j
    } else {
        i
    };
    core[lo] >= amount && core[hi] + amount < base
}

/// The digit sequence after moving `amount` quanta across the bond at
/// `i`: the losing site drops, the gaining site rises.
pub open spec fn exchanged_digits(
    core: Seq<u8>,
    length: nat,
    i: int,
    amount: int,
    lower_first: bool,
) -> Seq<u8> {
    let j = bond_partner(i, length);
    let lo = if lower_first {
        i
    } else {
        j
    };
    let hi = if lower_first {
        j
    } else {
        i
    };
    core.update(lo, (core[lo] - amount) as u8).update(hi, (core[hi] + amount) as u8)
}

/// An allowed exchange moves quanta between two sites and leaves the
/// total digit sum — the magnetization sector — unchanged.
pub proof fn lemma_exchange_preserves_digit_sum(
    core: Seq<u8>,
    base: nat,
    length: nat,
    i: int,
    amount: int,
    lower_first: bool,
)
    requires
        2 <= base <= 256,
        length >= 2,
        core.len() == length,
        0 <= i < length,
        amount >= 1,
        exchange_allowed(core, base, length, i, amount, lower_first),
    ensures
        digit_sum(exchanged_digits(core, length, i, amount, lower_first)) == digit_sum(core),
{
    let j = bond_partner(i, length);
    let lo = if lower_first {
        i
    } else {
        j
    };
    let hi = if lower_first {
        j
    } else {
        i
    };
    assert(((core[lo] - amount) as u8) as int == core[lo] - amount);
    assert(((core[hi] + amount) as u8) as int == core[hi] + amount);
    let first = core.update(lo, (core[lo] - amount) as u8);
    lemma_digit_sum_update(core, lo, (core[lo] - amount) as u8);
    lemma_digit_sum_update(first, hi, (core[hi] + amount) as u8);
    assert(first[hi] == core[hi]);
}

/// The raw index reached by moving `amount` quanta across the bond at
/// `chain_index`, or `None` when the move would leave the digit range.
/// With `lower_first` the site `chain_index` loses the quanta and its
/// ring neighbor gains them; otherwise the roles are swapped.  The result
/// is exactly the encoding of the exchanged digit sequence and stays
/// inside the raw space.
pub fn shifted_basis_state(
    value: usize,
    digits: &Vec<u8>,
    base: u8,
    length: u8,
    chain_index: usize,
    amount: u8,
    lower_first: bool,
    base_powers: &Vec<usize>,
) -> (result: Option<usize>)
    requires
        base >= 2,
        length >= 2,
        chain_index < length as nat,
        amount >= 1,
        digits@.len() == length + 1,
        digits_in_base(digits@, base as nat),
        digits@[length as int] == digits@[0],
        encoded(digits@.take(length as int), base as nat) == value as int,
        base_powers_wf(base_powers@, base as nat, length as nat),
        pow(base as int, length as nat) <= usize::MAX,
    ensures
        result is Some <==> exchange_allowed(
            digits@.take(length as int),
            base as nat,
            length as nat,
            chain_index as int,
            amount as int,
            lower_first,
        ),
        result is Some ==> result->0 as int == encoded(
            exchanged_digits(
                digits@.take(length as int),
                length as nat,
                chain_index as int,
                amount as int,
                lower_first,
            ),
            base as nat,
        ),
        result is Some ==> (result->0 as int) < pow(base as int, length as nat),
{
    let ghost core = digits@.take(length as int);
    let digit = digits[chain_index];
    let next_digit = digits[chain_index + 1];
    proof {
        assert(core[chain_index as int] == digit);
        assert(core[bond_partner(chain_index as int, length as nat)] == next_digit);
    }
    let lower_digit: u8 = if lower_first {
        digit
    } else {
        next_digit
    };
    let higher_digit: u8 = if lower_first {
        next_digit
    } else {
        digit
    };
    if lower_digit >= amount && (higher_digit as usize) + (amount as usize) < base as usize {
        let lower_position: usize = if lower_first {
            chain_index
        } else {
            chain_index + 1
        };
        let higher_position: usize = if lower_first {
            chain_index + 1
        } else {
            chain_index
        };
        let ghost i = chain_index as int;
        let ghost j = bond_partner(i, length as nat);
        let ghost lo = if lower_first { i } else { j };
        let ghost hi = if lower_first { j } else { i };
        let ghost exchanged = exchanged_digits(
            core,
            length as nat,
            i,
            amount as int,
            lower_first,
        );
        proof {
            if lower_position < length as usize {
                lemma_small_mod(lower_position as nat, length as nat);
            } else {
                lemma_mod_self_0(length as int);
            }
            if higher_position < length as usize {
                lemma_small_mod(higher_position as nat, length as nat);
            } else {
                lemma_mod_self_0(length as int);
            }
            let p_lo = pow(base as int, lo as nat);
            let p_hi = pow(base as int, hi as nat);
            assert(base_powers@[lower_position as int] as int == p_lo);
            assert(base_powers@[higher_position as int] as int == p_hi);
            lemma_pow_positive(base as int, lo as nat);
            lemma_pow_positive(base as int, hi as nat);
            lemma_pow1(base as int);
            lemma_pow_adds(base as int, lo as nat, 1);
            lemma_pow_adds(base as int, hi as nat, 1);
            lemma_pow_increases(base as nat, (lo + 1) as nat, length as nat);
            lemma_pow_increases(base as nat, (hi + 1) as nat, length as nat);
            assert((lo + 1) as nat == lo as nat + 1);
            assert((hi + 1) as nat == hi as nat + 1);
            assert(p_lo * (base as int) == pow(base as int, (lo + 1) as nat));
            assert(p_hi * (base as int) == pow(base as int, (hi + 1) as nat));
            // the two step sizes fit below base^length
            assert((amount as int) * p_lo <= pow(base as int, length as nat))
                by (nonlinear_arith)
                requires
                    1 <= amount as int <= base as int - 1,
                    p_lo >= 1,
                    p_lo * (base as int) == pow(base as int, (lo + 1) as nat),
                    pow(base as int, (lo + 1) as nat) <= pow(base as int, length as nat),
            ;
            assert((amount as int) * p_hi <= pow(base as int, length as nat))
                by (nonlinear_arith)
                requires
                    1 <= amount as int <= base as int - 1,
                    p_hi >= 1,
                    p_hi * (base as int) == pow(base as int, (hi + 1) as nat),
                    pow(base as int, (hi + 1) as nat) <= pow(base as int, length as nat),
            ;
            // the losing site's quanta are present in the encoded value
            let zeroed = core.update(lo, 0u8);
            lemma_encoded_update(core, base as nat, lo, 0u8);
            assert(digits_in_base(zeroed, base as nat));
            lemma_encoded_bound(zeroed, base as nat);
            assert(value as int >= (amount as int) * p_lo) by (nonlinear_arith)
                requires
                    encoded(zeroed, base as nat) == value as int + (0 - core[lo] as int) * p_lo,
                    encoded(zeroed, base as nat) >= 0,
                    1 <= amount as int <= core[lo] as int,
                    p_lo >= 1,
            ;
            // the move lands exactly on the exchanged digit sequence
            let first = core.update(lo, (core[lo] - amount) as u8);
            lemma_encoded_update(core, base as nat, lo, (core[lo] - amount) as u8);
            assert(first[hi] == core[hi]);
            lemma_encoded_update(first, base as nat, hi, (core[hi] + amount) as u8);
            assert(digits_in_base(exchanged, base as nat));
            lemma_encoded_bound(exchanged, base as nat);
            assert(value as int - (amount as int) * p_lo + (amount as int) * p_hi == encoded(
                exchanged,
                base as nat,
            )) by (nonlinear_arith)
                requires
                    encoded(first, base as nat) == value as int + (((core[lo] - amount) as u8)
                        as int - core[lo] as int) * p_lo,
                    encoded(exchanged, base as nat) == encoded(first, base as nat) + (((
                    core[hi] + amount) as u8) as int - first[hi] as int) * p_hi,
                    ((core[lo] - amount) as u8) as int == core[lo] as int - amount,
                    ((core[hi] + amount) as u8) as int == core[hi] as int + amount,
                    first[hi] == core[hi],
            ;
        }
        let step_down = (amount as usize) * base_powers[lower_position];
        let step_up = (amount as usize) * base_powers[higher_position];
        Some(value - step_down + step_up)
    } else {
        None
    }
}

/// An exchange target keeps the digit sum, so in a well-formed basis of
/// the matching sector it is always claimed: looking its slot up in the
/// representer map never hits the sentinel.
pub proof fn lemma_exchange_target_claimed(
    bs: BasisStates,
    base: nat,
    length: nat,
    target: int,
    core: Seq<u8>,
    i: int,
    amount: int,
    lower_first: bool,
    w: int,
)
    requires
        2 <= base <= 256,
        length >= 2,
        basis_states_wf(bs, base, length, target),
        core.len() == length,
        digits_in_base(core, base),
        digit_sum(core) == target,
        0 <= i < length,
        amount >= 1,
        exchange_allowed(core, base, length, i, amount, lower_first),
        w == encoded(exchanged_digits(core, length, i, amount, lower_first), base),
    ensures
        1 <= w < pow(base as int, length) - 1,
        (bs.representer_map@[w] as int) < bs.representers@.len(),
{
    let exchanged = exchanged_digits(core, length, i, amount, lower_first);
    let j = bond_partner(i, length);
    let lo = if lower_first {
        i
    } else {
        j
    };
    let hi = if lower_first {
        j
    } else {
        i
    };
    assert(digits_in_base(exchanged, base));
    lemma_encoded_bound(exchanged, base);
    lemma_exchange_preserves_digit_sum(core, base, length, i, amount, lower_first);
    lemma_digits_of_encoded(exchanged, base);
    assert(exchanged[lo] == core[lo] - amount);
    assert(exchanged[hi] == core[hi] + amount);
    // the gaining site holds at least one quantum, so the encoded value
    // sits at or above its place value: the all-minimum state is not hit
    let floored = exchanged.update(hi, 0u8);
    lemma_encoded_update(exchanged, base, hi, 0u8);
    assert(digits_in_base(floored, base));
    lemma_encoded_bound(floored, base);
    lemma_pow_positive(base as int, hi as nat);
    assert(w >= pow(base as int, hi as nat)) by (nonlinear_arith)
        requires
            encoded(floored, base) == w + (0 - exchanged[hi] as int) * pow(base as int, hi as nat),
            encoded(floored, base) >= 0,
            exchanged[hi] as int >= 1,
            pow(base as int, hi as nat) >= 1,
    ;
    // the losing site sits below the maximal digit, so raising it to the
    // maximum moves the encoded value strictly up without leaving the raw
    // space: the all-maximum state is not hit either
    let ceiled = exchanged.update(lo, (base - 1) as u8);
    lemma_encoded_update(exchanged, base, lo, (base - 1) as u8);
    assert(digits_in_base(ceiled, base));
    lemma_encoded_bound(ceiled, base);
    lemma_pow_positive(base as int, lo as nat);
    assert(w < pow(base as int, length) - 1) by (nonlinear_arith)
        requires
            encoded(ceiled, base) == w + (((base - 1) as u8) as int - exchanged[lo] as int) * pow(
                base as int,
                lo as nat,
            ),
            encoded(ceiled, base) <= pow(base as int, length) - 1,
            ((base - 1) as u8) as int == base as int - 1,
            exchanged[lo] as int <= base as int - 2,
            pow(base as int, lo as nat) >= 1,
    ;
}

/// One entry of the two-site spin-2 projector table: move `amount`
/// quanta across the bond (`lower_first` fixes the direction) with the
/// rational amplitude `numerator / denominator`.  A zero numerator is the
/// end-of-row mark: no further transitions for this bond.
#[derive(Clone, Copy, PartialEq, Eq, Structural, Debug)]
pub struct Projection {
    /// How many quanta the move carries; zero for a diagonal entry.
    pub amount: u8,
    /// The bond's first site loses the quanta when true, gains them
    /// otherwise.
    pub lower_first: bool,
    /// Numerator of the amplitude; zero marks the end of the row.
    pub numerator: u8,
    /// Denominator of the amplitude.
    pub denominator: u8,
}

/// An end-of-row entry.
pub open spec fn projection_none() -> Projection {
    Projection { amount: 0, lower_first: true, numerator: 0, denominator: 1 }
}

/// The projector table row for a bond holding the digits
/// `(digit, next_digit)`: the projection onto the two-site total-spin-2
/// subspace for three-valued sites.
pub open spec fn project_2_spec(digit: u8, next_digit: u8) -> Seq<Projection> {
    if digit == 0 && next_digit == 0 {
        seq![
            Projection { amount: 0, lower_first: true, numerator: 1, denominator: 1 },
            projection_none(),
            projection_none(),
        ]
    } else if digit == 1 && next_digit == 0 {
        seq![
            Projection { amount: 0, lower_first: true, numerator: 1, denominator: 2 },
            Projection { amount: 1, lower_first: true, numerator: 1, denominator: 2 },
            projection_none(),
        ]
    } else if digit == 0 && next_digit == 1 {
        seq![
            Projection { amount: 0, lower_first: true, numerator: 1, denominator: 2 },
            Projection { amount: 1, lower_first: false, numerator: 1, denominator: 2 },
            projection_none(),
        ]
    } else if digit == 2 && next_digit == 0 {
        seq![
            Projection { amount: 0, lower_first: true, numerator: 1, denominator: 6 },
            Projection { amount: 1, lower_first: true, numerator: 1, denominator: 3 },
            Projection { amount: 2, lower_first: true, numerator: 1, denominator: 6 },
        ]
    } else if digit == 1 && next_digit == 1 {
        seq![
            Projection { amount: 0, lower_first: true, numerator: 2, denominator: 3 },
            Projection { amount: 1, lower_first: false, numerator: 1, denominator: 3 },
            Projection { amount: 1, lower_first: true, numerator: 1, denominator: 3 },
        ]
    } else if digit == 0 && next_digit == 2 {
        seq![
            Projection { amount: 0, lower_first: true, numerator: 1, denominator: 6 },
            Projection { amount: 1, lower_first: false, numerator: 1, denominator: 3 },
            Projection { amount: 2, lower_first: false, numerator: 1, denominator: 6 },
        ]
    } else if digit == 2 && next_digit == 1 {
        seq![
            Projection { amount: 0, lower_first: true, numerator: 1, denominator: 2 },
            Projection { amount: 1, lower_first: true, numerator: 1, denominator: 2 },
            projection_none(),
        ]
    } else if digit == 1 && next_digit == 2 {
        seq![
            Projection { amount: 0, lower_first: true, numerator: 1, denominator: 2 },
            Projection { amount: 1, lower_first: false, numerator: 1, denominator: 2 },
            projection_none(),
        ]
    } else if digit == 2 && next_digit == 2 {
        seq![
            Projection { amount: 0, lower_first: true, numerator: 1, denominator: 1 },
            projection_none(),
            projection_none(),
        ]
    } else {
        seq![projection_none(), projection_none(), projection_none()]
    }
}

/// A non-tombstone moving entry of the table always respects the digit
/// range of three-valued sites: its exchange is allowed on the very bond
/// the row was looked up for.
pub open spec fn projection_applicable(digit: u8, next_digit: u8, p: Projection) -> bool {
    (p.numerator != 0 && p.amount >= 1) ==> {
        if p.lower_first {
            digit >= p.amount && next_digit + p.amount < 3
        } else {
            next_digit >= p.amount && digit + p.amount < 3
        }
    }
}

/// Projects a bond onto the two-site total-spin-2 subspace: the table of
/// transitions for the bond's digit pair.  Rows end at the first zero
/// numerator.
pub fn project_2(digit: u8, next_digit: u8) -> (entries: Vec<Projection>)
    ensures
        entries@ == project_2_spec(digit, next_digit),
        entries@.len() == 3,
        forall|e: int|
            0 <= e < 3 ==> projection_applicable(digit, next_digit, #[trigger] entries@[e]),
{
    let tombstone = Projection { amount: 0, lower_first: true, numerator: 0, denominator: 1 };
    let mut entries: Vec<Projection> = Vec::new();
    if digit == 0 && next_digit == 0 {
        entries.push(Projection { amount: 0, lower_first: true, numerator: 1, denominator: 1 });
        entries.push(tombstone);
        entries.push(tombstone);
    } else if digit == 1 && next_digit == 0 {
        entries.push(Projection { amount: 0, lower_first: true, numerator: 1, denominator: 2 });
        entries.push(Projection { amount: 1, lower_first: true, numerator: 1, denominator: 2 });
        entries.push(tombstone);
    } else if digit == 0 && next_digit == 1 {
        entries.push(Projection { amount: 0, lower_first: true, numerator: 1, denominator: 2 });
        entries.push(Projection { amount: 1, lower_first: false, numerator: 1, denominator: 2 });
        entries.push(tombstone);
    } else if digit == 2 && next_digit == 0 {
        entries.push(Projection { amount: 0, lower_first: true, numerator: 1, denominator: 6 });
        entries.push(Projection { amount: 1, lower_first: true, numerator: 1, denominator: 3 });
        entries.push(Projection { amount: 2, lower_first: true, numerator: 1, denominator: 6 });
    } else if digit == 1 && next_digit == 1 {
        entries.push(Projection { amount: 0, lower_first: true, numerator: 2, denominator: 3 });
        entries.push(Projection { amount: 1, lower_first: false, numerator: 1, denominator: 3 });
        entries.push(Projection { amount: 1, lower_first: true, numerator: 1, denominator: 3 });
    } else if digit == 0 && next_digit == 2 {
        entries.push(Projection { amount: 0, lower_first: true, numerator: 1, denominator: 6 });
        entries.push(Projection { amount: 1, lower_first: false, numerator: 1, denominator: 3 });
        entries.push(Projection { amount: 2, lower_first: false, numerator: 1, denominator: 6 });
    } else if digit == 2 && next_digit == 1 {
        entries.push(Projection { amount: 0, lower_first: true, numerator: 1, denominator: 2 });
        entries.push(Projection { amount: 1, lower_first: true, numerator: 1, denominator: 2 });
        entries.push(tombstone);
    } else if digit == 1 && next_digit == 2 {
        entries.push(Projection { amount: 0, lower_first: true, numerator: 1, denominator: 2 });
        entries.push(Projection { amount: 1, lower_first: false, numerator: 1, denominator: 2 });
        entries.push(tombstone);
    } else if digit == 2 && next_digit == 2 {
        entries.push(Projection { amount: 0, lower_first: true, numerator: 1, denominator: 1 });
        entries.push(tombstone);
        entries.push(tombstone);
    } else {
        entries.push(tombstone);
        entries.push(tombstone);
        entries.push(tombstone);
    }
    proof {
        assert(entries@ =~= project_2_spec(digit, next_digit));
    }
    entries
}

} // verus!
