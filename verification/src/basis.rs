//! The symmetry-reduced basis.
//!
//! [`BasisStates::new`] scans every raw index of the chain once.  A raw
//! index whose digit sum matches the chosen magnetization sector and that
//! no earlier orbit has claimed becomes the representative of a new orbit:
//! its whole orbit is enumerated, every member is claimed in
//! `representer_map`, and the symmetry flags relating each member to the
//! representative are appended to `symmetry_signs`.  The well-formedness
//! predicate [`basis_states_wf`] pins the outcome down from both sides:
//! every raw index in the sector is claimed by a slot, a representative's
//! own value maps to its own slot, every recorded sign triple traces back
//! to the representative's digits through an actual group element, every
//! orbit entry of a representative is claimed no later than its slot with
//! its sign triple recorded, sign lists never exceed the orbit size, and
//! the all-minimum and all-maximum states stay outside every orbit.

use vstd::prelude::*;
use vstd::arithmetic::power::{pow, lemma_pow1, lemma_pow_increases};
use crate::encoding::{
    encoded, digits_in_base, digits_of, digit_sum, base_powers_wf, lemma_encoded_digits_of,
    lemma_digit_sum_take_succ, lemma_digits_of_encoded,
};
use crate::symmetries::{
    SymmetrySign, combo_digits, rotated_seq, eq_class_entry, get_eq_class, lemma_combo_in_base,
    lemma_rotated_in_base, orbit_value, orbit_sign, lemma_orbit_value_interior,
};

verus! {

/// The representative of one equivalence class of basis states.
pub struct Representer {
    /// The raw index of the representative.
    pub value: usize,
    /// Its digits, wrap-extended: digit 0 is repeated at position `length`
    /// so every bond `(i, i + 1)` can be read as a contiguous window.
    pub digits: Vec<u8>,
    /// Twice the z-spin eigenvalue at each site: `2 * digit - (base - 1)`,
    /// kept doubled so that half-integer spins stay in integers.
    pub two_sigmas: Vec<i16>,
}

/// The first `length` digits of a representative: its digit sequence
/// without the wrap sentinel.
pub open spec fn representer_core(r: Representer, length: nat) -> Seq<u8> {
    r.digits@.take(length as int)
}

/// What a well-formed representative looks like for a given chain shape.
pub open spec fn representer_wf(r: Representer, base: nat, length: nat) -> bool {
    &&& r.digits@.len() == length + 1
    &&& digits_in_base(r.digits@, base)
    &&& r.digits@[length as int] == r.digits@[0]
    &&& r.two_sigmas@.len() == length + 1
    &&& (forall|i: int|
        0 <= i <= length ==> (#[trigger] r.two_sigmas@[i]) as int == 2 * r.digits@[i] - (base
            - 1))
    &&& (r.value as int) < pow(base as int, length)
    &&& encoded(representer_core(r, length), base) == r.value
}

impl Representer {
    /// Wrap-extends the digits and caches the doubled sigma of every site.
    fn new(value: usize, digits: &Vec<u8>, base: u8) -> (r: Representer)
        requires
            base >= 1,
            digits@.len() >= 1,
            digits_in_base(digits@, base as nat),
            encoded(digits@, base as nat) == value as int,
            (value as int) < pow(base as int, digits@.len()),
        ensures
            representer_wf(r, base as nat, digits@.len()),
            r.value == value,
            representer_core(r, digits@.len()) == digits@,
    {
        let mut wrapped: Vec<u8> = Vec::new();
        let len: usize = digits.len();
        for i in 0..len
            invariant
                len == digits@.len(),
                wrapped@.len() == i,
                forall|v: int| 0 <= v < i ==> wrapped@[v] == digits@[v],
        {
            wrapped.push(digits[i]);
        }
        wrapped.push(digits[0]);
        let wrapped_len: usize = wrapped.len();
        let mut two_sigmas: Vec<i16> = Vec::new();
        for i in 0..wrapped_len
            invariant
                base >= 1,
                len == digits@.len(),
                wrapped_len == len + 1,
                wrapped@.len() == len + 1,
                forall|v: int| 0 <= v < len ==> wrapped@[v] == digits@[v],
                wrapped@[len as int] == digits@[0],
                digits_in_base(digits@, base as nat),
                two_sigmas@.len() == i,
                forall|v: int|
                    0 <= v < i ==> (#[trigger] two_sigmas@[v]) as int == 2 * wrapped@[v] - (
                    base as int - 1),
        {
            let digit = wrapped[i];
            two_sigmas.push(2 * (digit as i16) - (base as i16 - 1));
        }
        let r = Representer { value, digits: wrapped, two_sigmas };
        proof {
            assert(representer_core(r, digits@.len()) =~= digits@);
        }
        r
    }
}

/// All basis states arranged into equivalence classes: the symmetrized
/// basis of one magnetization sector.
pub struct BasisStates {
    /// Number of equivalence classes: the reduced Hilbert-space dimension.
    pub length: usize,
    /// Representatives in discovery order; the order is the reduced-basis
    /// indexing used everywhere else.
    pub representers: Vec<Representer>,
    /// For each raw index, the slot of its representative; the size of the
    /// raw space serves as the sentinel for raw indices outside every
    /// orbit of the sector.
    pub representer_map: Vec<usize>,
    /// For each raw index, the sign triples of every group element mapping
    /// its representative onto it; duplicates are kept on purpose.
    pub symmetry_signs: Vec<Vec<SymmetrySign>>,
}

/// The digit sum that selects the magnetization sector: the digit sum of
/// a sequence equals the chain's spin times its length plus its total
/// z-magnetization, so the sector keeps the sequences summing to
/// `round(spin * length) + total_s_z`, with the half-integer midpoint
/// (even base, odd length) rounded up.
pub open spec fn sector_digit_sum(base: nat, length: nat, total_s_z: nat) -> int {
    ((base - 1) * length + 1) / 2 + total_s_z
}

/// One recorded sign triple of raw index `v` traces back to the claimed
/// representative: some translation `k` of the matching parity, composed
/// with the triple's sign combination, carries the representative's digits
/// to a sequence that encodes exactly to `v`.
pub open spec fn sign_entry_traces(
    representers: Seq<Representer>,
    representer_map: Seq<usize>,
    symmetry_signs: Seq<Vec<SymmetrySign>>,
    base: nat,
    length: nat,
    v: int,
    e: int,
) -> bool {
    let slot = representer_map[v] as int;
    &&& 0 <= slot < representers.len()
    &&& {
        let rep = representers[slot];
        let sign = symmetry_signs[v]@[e];
        exists|k: int|
            0 <= k < length && v == encoded(
                #[trigger] rotated_seq(
                    combo_digits(
                        representer_core(rep, length),
                        base,
                        sign.time_reversal,
                        sign.reflection,
                    ),
                    k,
                ),
                base,
            ) && sign.translation == (k % 2 == 1)
    }
}

/// Orbit entry `m` of the representative at slot `s` is accounted for:
/// its raw index lies in the raw space and is claimed no later than slot
/// `s`, and when slot `s` itself claims it the entry's sign triple stands
/// in that raw index's list.  Together with the traceability of every
/// recorded triple this pins the sign lists from both sides: nothing is
/// recorded that the group does not produce, and nothing the group
/// produces for a slot goes unrecorded.
pub open spec fn orbit_recorded(
    representers: Seq<Representer>,
    representer_map: Seq<usize>,
    symmetry_signs: Seq<Vec<SymmetrySign>>,
    base: nat,
    length: nat,
    s: int,
    m: int,
) -> bool {
    let w = orbit_value(representer_core(representers[s], length), base, length, m);
    &&& 0 <= w < pow(base as int, length)
    &&& 0 <= (representer_map[w] as int) <= s
    &&& ((representer_map[w] as int) == s ==> exists|e: int|
        0 <= e < symmetry_signs[w]@.len() && (#[trigger] symmetry_signs[w]@[e]) == orbit_sign(
            length,
            m,
        ))
}

/// An accounted orbit entry stays accounted when the tables change
/// anywhere but at its own raw index: the claim never moves and recorded
/// sign triples never leave the list.
proof fn lemma_orbit_recorded_stable(
    old_representers: Seq<Representer>,
    new_representers: Seq<Representer>,
    old_map: Seq<usize>,
    old_signs: Seq<Vec<SymmetrySign>>,
    new_map: Seq<usize>,
    new_signs: Seq<Vec<SymmetrySign>>,
    base: nat,
    length: nat,
    s: int,
    m: int,
    w: int,
)
    requires
        orbit_recorded(old_representers, old_map, old_signs, base, length, s, m),
        0 <= s < old_representers.len(),
        new_representers.len() >= old_representers.len(),
        forall|t: int|
            0 <= t < old_representers.len() ==> #[trigger] new_representers[t]
                == old_representers[t],
        w == orbit_value(representer_core(old_representers[s], length), base, length, m),
        new_map[w] == old_map[w],
        new_signs[w]@.len() >= old_signs[w]@.len(),
        forall|e: int|
            0 <= e < old_signs[w]@.len() ==> #[trigger] new_signs[w]@[e] == old_signs[w]@[e],
    ensures
        orbit_recorded(new_representers, new_map, new_signs, base, length, s, m),
{
    assert(new_representers[s] == old_representers[s]);
    if (old_map[w] as int) == s {
        let e = choose|e: int|
            0 <= e < old_signs[w]@.len() && (#[trigger] old_signs[w]@[e]) == orbit_sign(
                length,
                m,
            );
        assert(0 <= e < new_signs[w]@.len() && new_signs[w]@[e] == orbit_sign(length, m));
    }
}

/// Well-formedness of the three tables while (and after) the scan fills
/// them: lengths, representative invariants, self-consistency of the map,
/// the claimed-iff-signed correspondence, and the traceability of every
/// recorded sign triple.
pub open spec fn reduction_state_wf(
    representers: Seq<Representer>,
    representer_map: Seq<usize>,
    symmetry_signs: Seq<Vec<SymmetrySign>>,
    base: nat,
    length: nat,
    target: int,
) -> bool {
    let size = pow(base as int, length);
    &&& representer_map.len() == size
    &&& symmetry_signs.len() == size
    &&& (forall|s: int|
        0 <= s < representers.len() ==> representer_wf(#[trigger] representers[s], base, length))
    &&& (forall|s: int|
        0 <= s < representers.len() ==> digit_sum(
            representer_core(#[trigger] representers[s], length),
        ) == target)
    &&& (forall|s: int|
        0 <= s < representers.len() ==> (representer_map[(
        #[trigger] representers[s]).value as int]) as int == s)
    &&& (forall|v: int|
        0 <= v < size ==> (#[trigger] representer_map[v]) as int == size || (
        representer_map[v] as int) < representers.len())
    &&& (forall|v: int|
        0 <= v < size ==> (((#[trigger] representer_map[v]) as int == size) <==> symmetry_signs[v]@.len()
            == 0))
    &&& (forall|v: int, e: int|
        0 <= v < size && 0 <= e < symmetry_signs[v]@.len() ==> #[trigger] sign_entry_traces(
            representers,
            representer_map,
            symmetry_signs,
            base,
            length,
            v,
            e,
        ))
    &&& (forall|v: int| 0 <= v < size ==> (#[trigger] symmetry_signs[v])@.len() <= 4 * length)
}

/// Well-formedness of a finished [`BasisStates`].  Beyond the scan
/// invariants it states sector coverage — every raw index strictly
/// between the all-minimum and all-maximum states whose digit sum matches
/// the sector is claimed by some slot — and the discovery order: slots
/// carry strictly increasing representative values, and no representative
/// sits above a sector member it claims.
pub open spec fn basis_states_wf(bs: BasisStates, base: nat, length: nat, target: int) -> bool {
    let size = pow(base as int, length);
    &&& bs.length == bs.representers@.len()
    &&& reduction_state_wf(
        bs.representers@,
        bs.representer_map@,
        bs.symmetry_signs@,
        base,
        length,
        target,
    )
    &&& (forall|v: int|
        1 <= v < size - 1 && digit_sum(digits_of(v as nat, base, length)) == target ==> ((
        #[trigger] bs.representer_map@[v]) as int) < bs.representers@.len())
    &&& (forall|s1: int, s2: int|
        0 <= s1 < s2 < bs.representers@.len() ==> (#[trigger] bs.representers@[s1]).value < (
        #[trigger] bs.representers@[s2]).value)
    &&& (forall|v: int|
        0 <= v < size && ((#[trigger] bs.representer_map@[v]) as int) < bs.representers@.len()
            && digit_sum(digits_of(v as nat, base, length)) == target
            ==> bs.representers@[bs.representer_map@[v] as int].value <= v)
    &&& (forall|s: int, m: int|
        0 <= s < bs.representers@.len() && 0 <= m < 4 * length ==> #[trigger] orbit_recorded(
            bs.representers@,
            bs.representer_map@,
            bs.symmetry_signs@,
            base,
            length,
            s,
            m,
        ))
    &&& (bs.representer_map@[0] as int) == size
    &&& (bs.representer_map@[size - 1] as int) == size
}

/// Orbit symmetry closure: every sign triple recorded for a raw index
/// names a concrete group element — a sign combination and a translation
/// of the recorded parity — that carries the claimed representative's
/// digits exactly onto the digit sequence of that raw index.
pub proof fn lemma_sign_entry_recovers_digits(
    bs: BasisStates,
    base: nat,
    length: nat,
    target: int,
    v: int,
    e: int,
)
    requires
        1 <= base,
        length >= 1,
        basis_states_wf(bs, base, length, target),
        0 <= v < pow(base as int, length),
        0 <= e < bs.symmetry_signs@[v]@.len(),
    ensures
        ((bs.representer_map@[v]) as int) < bs.representers@.len(),
        exists|k: int|
            0 <= k < length && #[trigger] rotated_seq(
                combo_digits(
                    representer_core(bs.representers@[bs.representer_map@[v] as int], length),
                    base,
                    bs.symmetry_signs@[v]@[e].time_reversal,
                    bs.symmetry_signs@[v]@[e].reflection,
                ),
                k,
            ) == digits_of(v as nat, base, length) && bs.symmetry_signs@[v]@[e].translation == (k
            % 2 == 1),
{
    assert(sign_entry_traces(
        bs.representers@,
        bs.representer_map@,
        bs.symmetry_signs@,
        base,
        length,
        v,
        e,
    ));
    let slot = bs.representer_map@[v] as int;
    let rep = bs.representers@[slot];
    let sign = bs.symmetry_signs@[v]@[e];
    let k = choose|k: int|
        0 <= k < length && v == encoded(
            #[trigger] rotated_seq(
                combo_digits(
                    representer_core(rep, length),
                    base,
                    sign.time_reversal,
                    sign.reflection,
                ),
                k,
            ),
            base,
        ) && sign.translation == (k % 2 == 1);
    let combined = combo_digits(
        representer_core(rep, length),
        base,
        sign.time_reversal,
        sign.reflection,
    );
    let image = rotated_seq(combined, k);
    assert(representer_wf(rep, base, length));
    assert(digits_in_base(representer_core(rep, length), base));
    lemma_combo_in_base(representer_core(rep, length), base, sign.time_reversal, sign.reflection);
    lemma_rotated_in_base(combined, base, k);
    lemma_digits_of_encoded(image, base);
    assert(image == digits_of(v as nat, base, length));
}

/// A recorded sign triple keeps tracing to its representative when the
/// tables change anywhere but at its own raw index and slot.
proof fn lemma_traces_stable(
    old_representers: Seq<Representer>,
    new_representers: Seq<Representer>,
    old_map: Seq<usize>,
    old_signs: Seq<Vec<SymmetrySign>>,
    new_map: Seq<usize>,
    new_signs: Seq<Vec<SymmetrySign>>,
    base: nat,
    length: nat,
    v: int,
    e: int,
)
    requires
        sign_entry_traces(old_representers, old_map, old_signs, base, length, v, e),
        0 <= e < old_signs[v]@.len(),
        new_map[v] == old_map[v],
        new_signs[v]@.len() >= old_signs[v]@.len(),
        new_signs[v]@[e] == old_signs[v]@[e],
        new_representers.len() >= old_representers.len(),
        forall|s: int|
            0 <= s < old_representers.len() ==> #[trigger] new_representers[s]
                == old_representers[s],
    ensures
        sign_entry_traces(new_representers, new_map, new_signs, base, length, v, e),
{
    let slot = old_map[v] as int;
    let rep = old_representers[slot];
    let sign = old_signs[v]@[e];
    let k = choose|k: int|
        0 <= k < length && v == encoded(
            #[trigger] rotated_seq(
                combo_digits(
                    representer_core(rep, length),
                    base,
                    sign.time_reversal,
                    sign.reflection,
                ),
                k,
            ),
            base,
        ) && sign.translation == (k % 2 == 1);
    let new_rep = new_representers[new_map[v] as int];
    let new_sign = new_signs[v]@[e];
    assert(new_rep == rep);
    assert(new_sign == sign);
    assert(0 <= k < length && v == encoded(
        rotated_seq(
            combo_digits(
                representer_core(new_rep, length),
                base,
                new_sign.time_reversal,
                new_sign.reflection,
            ),
            k,
        ),
        base,
    ) && new_sign.translation == (k % 2 == 1));
}

/// The all-minimum raw index decodes to all-zero digits: its digit sum
/// vanishes, so it never belongs to a sector with a positive digit sum.
proof fn lemma_digit_sum_of_zero(base: nat, length: nat)
    requires
        base >= 1,
    ensures
        digit_sum(digits_of(0, base, length)) == 0,
    decreases length,
{
    if length > 0 {
        vstd::arithmetic::div_mod::lemma_small_mod(0, base);
        vstd::arithmetic::div_mod::lemma_div_of0(base as int);
        lemma_digit_sum_of_zero(base, (length - 1) as nat);
        assert(digits_of(0, base, length).drop_first() =~= digits_of(
            0,
            base,
            (length - 1) as nat,
        ));
        assert(digits_of(0, base, length)[0] == 0);
    }
}

/// A vector of `count` copies of the sentinel value.
fn fill_sentinels(sentinel: usize, count: usize) -> (v: Vec<usize>)
    ensures
        v@.len() == count,
        forall|i: int| 0 <= i < count ==> v@[i] == sentinel,
{
    let mut v: Vec<usize> = Vec::new();
    for i in 0..count
        invariant
            v@.len() == i,
            forall|w: int| 0 <= w < i ==> v@[w] == sentinel,
    {
        v.push(sentinel);
    }
    v
}

/// A vector of `count` empty sign lists.
fn fill_empty_sign_lists(count: usize) -> (v: Vec<Vec<SymmetrySign>>)
    ensures
        v@.len() == count,
        forall|i: int| 0 <= i < count ==> (#[trigger] v@[i])@.len() == 0,
{
    let mut v: Vec<Vec<SymmetrySign>> = Vec::new();
    for i in 0..count
        invariant
            v@.len() == i,
            forall|w: int| 0 <= w < i ==> (#[trigger] v@[w])@.len() == 0,
    {
        v.push(Vec::new());
    }
    v
}

/// Sums the digits of a decoded sequence.
fn sum_digits(digits: &Vec<u8>) -> (s: usize)
    requires
        digits@.len() <= 255,
    ensures
        s as int == digit_sum(digits@),
{
    let len: usize = digits.len();
    let mut s: usize = 0;
    for i in 0..len
        invariant
            len == digits@.len(),
            len <= 255,
            s as int == digit_sum(digits@.take(i as int)),
            s <= i * 255,
    {
        proof {
            lemma_digit_sum_take_succ(digits@, i as int);
            assert((i + 1) * 255 == i * 255 + 255) by (nonlinear_arith);
        }
        s = s + digits[i] as usize;
    }
    proof {
        assert(digits@.take(len as int) =~= digits@);
    }
    s
}

/// Converts an integer into its digits, least-significant first.
pub fn get_digits(value: usize, base: u8, length: u8) -> (digits: Vec<u8>)
    requires
        base >= 1,
        (value as int) < pow(base as int, length as nat),
    ensures
        digits@ == digits_of(value as nat, base as nat, length as nat),
        digits@.len() == length as nat,
        digits_in_base(digits@, base as nat),
        encoded(digits@, base as nat) == value as int,
{
    let ghost original_value = value as nat;
    let mut value = value;
    let mut digits: Vec<u8> = Vec::new();
    let length_usize: usize = length as usize;
    for i in 0..length_usize
        invariant
            base >= 1,
            length_usize == length as nat,
            digits@.len() == i,
            digits_of(original_value, base as nat, length as nat) == digits@ + digits_of(
                value as nat,
                base as nat,
                (length_usize - i) as nat,
            ),
    {
        let ghost previous_value = value as nat;
        let ghost previous_digits = digits@;
        let digit: u8 = (value % base as usize) as u8;
        digits.push(digit);
        value = value / base as usize;
        proof {
            assert(digits_of(previous_value, base as nat, (length_usize - i) as nat)
                == seq![digit] + digits_of(value as nat, base as nat, (length_usize - i - 1) as nat));
            assert(previous_digits + (seq![digit] + digits_of(
                value as nat,
                base as nat,
                (length_usize - i - 1) as nat,
            )) =~= digits@ + digits_of(value as nat, base as nat, (length_usize - i - 1) as nat));
        }
    }
    proof {
        assert(digits@ + digits_of(value as nat, base as nat, 0) =~= digits@);
        lemma_encoded_digits_of(original_value, base as nat, length as nat);
    }
    digits
}

impl BasisStates {
    /// Builds the symmetry-reduced basis of one magnetization sector.
    ///
    /// Scans raw indices from `1` to `base^length - 2` (the all-minimum
    /// and all-maximum states are trivial one-element orbits and are left
    /// out).  An unclaimed index whose digit sum matches the sector opens
    /// a new slot; its orbit claims every member and records the signs.
    /// An orbit member already claimed by this very slot only appends its
    /// sign triple: that is how internal symmetry of an orbit accumulates
    /// several triples on one raw index.
    pub fn new(base: u8, length: u8, total_s_z: u8, base_powers: &Vec<usize>) -> (bs: BasisStates)
        requires
            base >= 2,
            length >= 2,
            base_powers_wf(base_powers@, base as nat, length as nat),
            pow(base as int, length as nat) <= usize::MAX,
        ensures
            basis_states_wf(
                bs,
                base as nat,
                length as nat,
                sector_digit_sum(base as nat, length as nat, total_s_z as nat),
            ),
            bs.representer_map@.len() == pow(base as int, length as nat),
    {
        let ghost size = pow(base as int, length as nat);
        let ghost target = sector_digit_sum(base as nat, length as nat, total_s_z as nat);
        let max_representer_value = crate::encoding::pow_usize(base, length);
        proof {
            lemma_pow1(base as int);
            lemma_pow_increases(base as nat, 1, length as nat);
        }
        let mut representers: Vec<Representer> = Vec::new();
        let mut representer_map: Vec<usize> = fill_sentinels(
            max_representer_value,
            max_representer_value,
        );
        let mut symmetry_signs: Vec<Vec<SymmetrySign>> = fill_empty_sign_lists(
            max_representer_value,
        );
        proof {
            assert((base as int - 1) * (length as int) <= 64770) by (nonlinear_arith)
                requires
                    base <= 255,
                    length <= 255,
            ;
        }
        let allowed_digit_sum: usize = ((base as usize - 1) * (length as usize) + 1) / 2
            + total_s_z as usize;
        let mut index: usize = 0;
        let upper: usize = max_representer_value - 1;
        let mut representer_value: usize = 1;
        while representer_value < upper
            invariant
                base >= 2,
                length >= 2,
                upper as int == size - 1,
                1 <= representer_value,
                representer_value <= upper,
                index as int <= representer_value as int - 1,
                size == pow(base as int, length as nat),
                size <= usize::MAX,
                max_representer_value as int == size,
                base_powers_wf(base_powers@, base as nat, length as nat),
                target == sector_digit_sum(base as nat, length as nat, total_s_z as nat),
                allowed_digit_sum as int == target,
                index == representers@.len(),
                representer_map@.len() == size,
                symmetry_signs@.len() == size,
                reduction_state_wf(
                    representers@,
                    representer_map@,
                    symmetry_signs@,
                    base as nat,
                    length as nat,
                    target,
                ),
                forall|v: int|
                    1 <= v < representer_value && digit_sum(
                        digits_of(v as nat, base as nat, length as nat),
                    ) == target ==> ((#[trigger] representer_map@[v]) as int)
                        < representers@.len(),
                forall|s: int|
                    0 <= s < representers@.len() ==> ((#[trigger] representers@[s]).value as int)
                        < representer_value as int,
                forall|s1: int, s2: int|
                    0 <= s1 < s2 < representers@.len() ==> (#[trigger] representers@[s1]).value
                        < (#[trigger] representers@[s2]).value,
                forall|v: int|
                    0 <= v < size && ((#[trigger] representer_map@[v]) as int)
                        < representers@.len() && digit_sum(
                        digits_of(v as nat, base as nat, length as nat),
                    ) == target ==> representers@[representer_map@[v] as int].value <= v,
                forall|s: int, m2: int|
                    0 <= s < representers@.len() && 0 <= m2 < 4 * length as int
                        ==> #[trigger] orbit_recorded(
                        representers@,
                        representer_map@,
                        symmetry_signs@,
                        base as nat,
                        length as nat,
                        s,
                        m2,
                    ),
                (representer_map@[0] as int) == size,
                (representer_map@[size - 1] as int) == size,
            decreases upper - representer_value,
        {
            if representer_map[representer_value] == max_representer_value {
                let digits = get_digits(representer_value, base, length);
                let digit_sum_value = sum_digits(&digits);
                if digit_sum_value == allowed_digit_sum {
                    let ghost d = digits@;
                    let representer = Representer::new(representer_value, &digits, base);
                    let ghost old_representers = representers@;
                    representers.push(representer);
                    proof {
                        assert forall|v: int, e: int|
                            0 <= v < size && 0 <= e < symmetry_signs@[v]@.len()
                                implies #[trigger] sign_entry_traces(
                                representers@,
                                representer_map@,
                                symmetry_signs@,
                                base as nat,
                                length as nat,
                                v,
                                e,
                            ) by {
                            lemma_traces_stable(
                                old_representers,
                                representers@,
                                representer_map@,
                                symmetry_signs@,
                                representer_map@,
                                symmetry_signs@,
                                base as nat,
                                length as nat,
                                v,
                                e,
                            );
                        }
                        assert forall|s: int, m2: int|
                            0 <= s < index && 0 <= m2 < 4 * length as int
                                implies #[trigger] orbit_recorded(
                                representers@,
                                representer_map@,
                                symmetry_signs@,
                                base as nat,
                                length as nat,
                                s,
                                m2,
                            ) by {
                            assert(orbit_recorded(
                                old_representers,
                                representer_map@,
                                symmetry_signs@,
                                base as nat,
                                length as nat,
                                s,
                                m2,
                            ));
                            lemma_orbit_recorded_stable(
                                old_representers,
                                representers@,
                                representer_map@,
                                symmetry_signs@,
                                representer_map@,
                                symmetry_signs@,
                                base as nat,
                                length as nat,
                                s,
                                m2,
                                orbit_value(
                                    representer_core(old_representers[s], length as nat),
                                    base as nat,
                                    length as nat,
                                    m2,
                                ),
                            );
                        }
                    }
                    let eq_class = get_eq_class(digits, base, length, base_powers);
                    let eq_len = eq_class.len();
                    for m in 0..eq_len
                        invariant
                            base >= 2,
                            length >= 2,
                            size == pow(base as int, length as nat),
                            size <= usize::MAX,
                            max_representer_value as int == size,
                            representer_map@.len() == size,
                            symmetry_signs@.len() == size,
                            representers@.len() == index + 1,
                            (representer_value as int) < size - 1,
                            1 <= representer_value as int,
                            index as int <= representer_value as int - 1,
                            target == sector_digit_sum(
                                base as nat,
                                length as nat,
                                total_s_z as nat,
                            ),
                            eq_len == eq_class@.len(),
                            eq_class@.len() == 4 * length as nat,
                            forall|mm: int|
                                0 <= mm < eq_class@.len() ==> eq_class_entry(
                                    d,
                                    base as nat,
                                    length as nat,
                                    mm,
                                    #[trigger] eq_class@[mm],
                                ),
                            d.len() == length as nat,
                            digits_in_base(d, base as nat),
                            encoded(d, base as nat) == representer_value as int,
                            digit_sum(d) == target,
                            representers@[index as int].value == representer_value,
                            representer_core(representers@[index as int], length as nat) == d,
                            forall|s: int|
                                0 <= s < representers@.len() ==> representer_wf(
                                    #[trigger] representers@[s],
                                    base as nat,
                                    length as nat,
                                ),
                            forall|s: int|
                                0 <= s < representers@.len() ==> digit_sum(
                                    representer_core(#[trigger] representers@[s], length as nat),
                                ) == target,
                            forall|s: int|
                                0 <= s < index ==> (representer_map@[(
                                #[trigger] representers@[s]).value as int]) as int == s,
                            m == 0 ==> (representer_map@[representer_value as int]) as int == size,
                            m > 0 ==> (representer_map@[representer_value as int]) as int == index,
                            forall|v: int|
                                0 <= v < size ==> (#[trigger] representer_map@[v]) as int == size
                                    || (representer_map@[v] as int) < representers@.len(),
                            forall|v: int|
                                0 <= v < size ==> (((#[trigger] representer_map@[v]) as int
                                    == size) <==> symmetry_signs@[v]@.len() == 0),
                            forall|v: int, e: int|
                                0 <= v < size && 0 <= e < symmetry_signs@[v]@.len()
                                    ==> #[trigger] sign_entry_traces(
                                    representers@,
                                    representer_map@,
                                    symmetry_signs@,
                                    base as nat,
                                    length as nat,
                                    v,
                                    e,
                                ),
                            forall|v: int|
                                1 <= v < representer_value && digit_sum(
                                    digits_of(v as nat, base as nat, length as nat),
                                ) == target ==> ((#[trigger] representer_map@[v]) as int)
                                    < representers@.len(),
                            forall|s: int|
                                0 <= s < index ==> ((#[trigger] representers@[s]).value as int)
                                    < representer_value as int,
                            forall|s1: int, s2: int|
                                0 <= s1 < s2 < representers@.len() ==> (
                                #[trigger] representers@[s1]).value < (
                                #[trigger] representers@[s2]).value,
                            forall|v: int|
                                0 <= v < size && ((#[trigger] representer_map@[v]) as int)
                                    < representers@.len() && digit_sum(
                                    digits_of(v as nat, base as nat, length as nat),
                                ) == target ==> representers@[representer_map@[v] as int].value
                                    <= v,
                            forall|s: int, m2: int|
                                0 <= s < index && 0 <= m2 < 4 * length as int
                                    ==> #[trigger] orbit_recorded(
                                    representers@,
                                    representer_map@,
                                    symmetry_signs@,
                                    base as nat,
                                    length as nat,
                                    s,
                                    m2,
                                ),
                            forall|m2: int|
                                0 <= m2 < m as int ==> #[trigger] orbit_recorded(
                                    representers@,
                                    representer_map@,
                                    symmetry_signs@,
                                    base as nat,
                                    length as nat,
                                    index as int,
                                    m2,
                                ),
                            forall|v: int|
                                0 <= v < size && (representer_map@[v] as int) == index ==> (
                                #[trigger] symmetry_signs@[v])@.len() <= m as int,
                            forall|v: int|
                                0 <= v < size ==> (#[trigger] symmetry_signs@[v])@.len() <= 4
                                    * length as int,
                            (representer_map@[0] as int) == size,
                            (representer_map@[size - 1] as int) == size,
                    {
                        let pair = eq_class[m];
                        let other_value = pair.0;
                        let sign = pair.1;
                        proof {
                            assert(eq_class_entry(
                                d,
                                base as nat,
                                length as nat,
                                m as int,
                                eq_class@[m as int],
                            ));
                            vstd::arithmetic::div_mod::lemma_mod_division_less_than_divisor(
                                m as int,
                                length as int,
                            );
                            lemma_orbit_value_interior(
                                d,
                                base as nat,
                                length as nat,
                                m as int,
                            );
                            if m == 0 {
                                vstd::arithmetic::div_mod::lemma_div_of0(length as int);
                                vstd::arithmetic::div_mod::lemma_small_mod(0, length as nat);
                                assert forall|i: int| 0 <= i < d.len() implies rotated_seq(
                                    d,
                                    0,
                                )[i] == d[i] by {
                                    vstd::arithmetic::div_mod::lemma_small_mod(
                                        i as nat,
                                        d.len(),
                                    );
                                }
                                assert(rotated_seq(d, 0) =~= d);
                                assert(combo_digits(d, base as nat, false, false) == d);
                                assert(other_value == representer_value);
                            }
                        }
                        let ghost old_map = representer_map@;
                        let ghost old_signs = symmetry_signs@;
                        if representer_map[other_value] == max_representer_value {
                            representer_map[other_value] = index;
                            symmetry_signs[other_value].push(sign);
                            proof {
                                let w = other_value as int;
                                assert(old_signs[w]@.len() == 0);
                                assert(symmetry_signs@[w]@ == old_signs[w]@.push(sign));
                                lemma_digit_sum_of_zero(base as nat, length as nat);
                                assert((base as int - 1) * (length as int) >= 2)
                                    by (nonlinear_arith)
                                    requires
                                        base >= 2,
                                        length >= 2,
                                ;
                                assert forall|v: int|
                                    0 <= v < size && ((representer_map@[v]) as int)
                                        < representers@.len() && digit_sum(
                                        digits_of(v as nat, base as nat, length as nat),
                                    ) == target implies representers@[representer_map@[v] as int].value
                                    <= v by {
                                    if v == w {
                                        assert(v >= 1);
                                        if v < representer_value as int {
                                            assert((old_map[v] as int) < representers@.len());
                                            assert(false);
                                        }
                                    }
                                }
                                assert forall|v: int, e: int|
                                    0 <= v < size && 0 <= e < symmetry_signs@[v]@.len()
                                        implies #[trigger] sign_entry_traces(
                                        representers@,
                                        representer_map@,
                                        symmetry_signs@,
                                        base as nat,
                                        length as nat,
                                        v,
                                        e,
                                    ) by {
                                    if v == w {
                                        assert(e == 0);
                                        let k = m as int % length as int;
                                        assert(symmetry_signs@[v]@[e] == sign);
                                        assert(representer_map@[v] as int == index as int);
                                        let srep = representers@[representer_map@[v] as int];
                                        let ssign = symmetry_signs@[v]@[e];
                                        assert(representer_core(srep, length as nat) == d);
                                        assert(0 <= k < length as nat && v == encoded(
                                            rotated_seq(
                                                combo_digits(
                                                    representer_core(srep, length as nat),
                                                    base as nat,
                                                    ssign.time_reversal,
                                                    ssign.reflection,
                                                ),
                                                k,
                                            ),
                                            base as nat,
                                        ) && ssign.translation == (k % 2 == 1));
                                    } else {
                                        lemma_traces_stable(
                                            representers@,
                                            representers@,
                                            old_map,
                                            old_signs,
                                            representer_map@,
                                            symmetry_signs@,
                                            base as nat,
                                            length as nat,
                                            v,
                                            e,
                                        );
                                    }
                                }
                                assert forall|s: int, m2: int|
                                    0 <= s < index && 0 <= m2 < 4 * length as int
                                        implies #[trigger] orbit_recorded(
                                        representers@,
                                        representer_map@,
                                        symmetry_signs@,
                                        base as nat,
                                        length as nat,
                                        s,
                                        m2,
                                    ) by {
                                    assert(orbit_recorded(
                                        representers@,
                                        old_map,
                                        old_signs,
                                        base as nat,
                                        length as nat,
                                        s,
                                        m2,
                                    ));
                                    lemma_orbit_recorded_stable(
                                        representers@,
                                        representers@,
                                        old_map,
                                        old_signs,
                                        representer_map@,
                                        symmetry_signs@,
                                        base as nat,
                                        length as nat,
                                        s,
                                        m2,
                                        orbit_value(
                                            representer_core(representers@[s], length as nat),
                                            base as nat,
                                            length as nat,
                                            m2,
                                        ),
                                    );
                                }
                                assert forall|m2: int|
                                    0 <= m2 < m as int + 1 implies #[trigger] orbit_recorded(
                                        representers@,
                                        representer_map@,
                                        symmetry_signs@,
                                        base as nat,
                                        length as nat,
                                        index as int,
                                        m2,
                                    ) by {
                                    if m2 < m as int {
                                        assert(orbit_recorded(
                                            representers@,
                                            old_map,
                                            old_signs,
                                            base as nat,
                                            length as nat,
                                            index as int,
                                            m2,
                                        ));
                                        lemma_orbit_recorded_stable(
                                            representers@,
                                            representers@,
                                            old_map,
                                            old_signs,
                                            representer_map@,
                                            symmetry_signs@,
                                            base as nat,
                                            length as nat,
                                            index as int,
                                            m2,
                                            orbit_value(
                                                representer_core(
                                                    representers@[index as int],
                                                    length as nat,
                                                ),
                                                base as nat,
                                                length as nat,
                                                m2,
                                            ),
                                        );
                                    } else {
                                        assert(orbit_value(
                                            representer_core(
                                                representers@[index as int],
                                                length as nat,
                                            ),
                                            base as nat,
                                            length as nat,
                                            m2,
                                        ) == w);
                                        assert((symmetry_signs@[w]@[old_signs[w]@.len() as int])
                                            == orbit_sign(length as nat, m as int));
                                    }
                                }
                            }
                        } else if representer_map[other_value] == index {
                            symmetry_signs[other_value].push(sign);
                            proof {
                                let w = other_value as int;
                                assert(symmetry_signs@[w]@ == old_signs[w]@.push(sign));
                                assert forall|v: int, e: int|
                                    0 <= v < size && 0 <= e < symmetry_signs@[v]@.len()
                                        implies #[trigger] sign_entry_traces(
                                        representers@,
                                        representer_map@,
                                        symmetry_signs@,
                                        base as nat,
                                        length as nat,
                                        v,
                                        e,
                                    ) by {
                                    if v == w && e == old_signs[w]@.len() {
                                        let k = m as int % length as int;
                                        assert(symmetry_signs@[v]@[e] == sign);
                                        assert(representer_map@[v] as int == index as int);
                                        let srep = representers@[representer_map@[v] as int];
                                        let ssign = symmetry_signs@[v]@[e];
                                        assert(representer_core(srep, length as nat) == d);
                                        assert(0 <= k < length as nat && v == encoded(
                                            rotated_seq(
                                                combo_digits(
                                                    representer_core(srep, length as nat),
                                                    base as nat,
                                                    ssign.time_reversal,
                                                    ssign.reflection,
                                                ),
                                                k,
                                            ),
                                            base as nat,
                                        ) && ssign.translation == (k % 2 == 1));
                                    } else {
                                        lemma_traces_stable(
                                            representers@,
                                            representers@,
                                            old_map,
                                            old_signs,
                                            representer_map@,
                                            symmetry_signs@,
                                            base as nat,
                                            length as nat,
                                            v,
                                            e,
                                        );
                                    }
                                }
                                assert forall|s: int, m2: int|
                                    0 <= s < index && 0 <= m2 < 4 * length as int
                                        implies #[trigger] orbit_recorded(
                                        representers@,
                                        representer_map@,
                                        symmetry_signs@,
                                        base as nat,
                                        length as nat,
                                        s,
                                        m2,
                                    ) by {
                                    assert(orbit_recorded(
                                        representers@,
                                        old_map,
                                        old_signs,
                                        base as nat,
                                        length as nat,
                                        s,
                                        m2,
                                    ));
                                    lemma_orbit_recorded_stable(
                                        representers@,
                                        representers@,
                                        old_map,
                                        old_signs,
                                        representer_map@,
                                        symmetry_signs@,
                                        base as nat,
                                        length as nat,
                                        s,
                                        m2,
                                        orbit_value(
                                            representer_core(representers@[s], length as nat),
                                            base as nat,
                                            length as nat,
                                            m2,
                                        ),
                                    );
                                }
                                assert forall|m2: int|
                                    0 <= m2 < m as int + 1 implies #[trigger] orbit_recorded(
                                        representers@,
                                        representer_map@,
                                        symmetry_signs@,
                                        base as nat,
                                        length as nat,
                                        index as int,
                                        m2,
                                    ) by {
                                    if m2 < m as int {
                                        assert(orbit_recorded(
                                            representers@,
                                            old_map,
                                            old_signs,
                                            base as nat,
                                            length as nat,
                                            index as int,
                                            m2,
                                        ));
                                        lemma_orbit_recorded_stable(
                                            representers@,
                                            representers@,
                                            old_map,
                                            old_signs,
                                            representer_map@,
                                            symmetry_signs@,
                                            base as nat,
                                            length as nat,
                                            index as int,
                                            m2,
                                            orbit_value(
                                                representer_core(
                                                    representers@[index as int],
                                                    length as nat,
                                                ),
                                                base as nat,
                                                length as nat,
                                                m2,
                                            ),
                                        );
                                    } else {
                                        assert(orbit_value(
                                            representer_core(
                                                representers@[index as int],
                                                length as nat,
                                            ),
                                            base as nat,
                                            length as nat,
                                            m2,
                                        ) == w);
                                        assert((symmetry_signs@[w]@[old_signs[w]@.len() as int])
                                            == orbit_sign(length as nat, m as int));
                                    }
                                }
                            }
                        } else {
                            proof {
                                assert(orbit_value(
                                    representer_core(
                                        representers@[index as int],
                                        length as nat,
                                    ),
                                    base as nat,
                                    length as nat,
                                    m as int,
                                ) == other_value as int);
                                assert(orbit_recorded(
                                    representers@,
                                    representer_map@,
                                    symmetry_signs@,
                                    base as nat,
                                    length as nat,
                                    index as int,
                                    m as int,
                                ));
                            }
                        }
                    }
                    proof {
                        assert(eq_len > 0);
                        assert(index < usize::MAX) by {
                            assert(representers@.len() == index + 1);
                        }
                    }
                    index = index + 1;
                }
            }
            representer_value = representer_value + 1;
        }
        BasisStates {
            length: representers.len(),
            representers,
            representer_map,
            symmetry_signs,
        }
    }
}

} // verus!
