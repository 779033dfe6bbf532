//! Mixed-radix encoding of chain configurations.
//!
//! A basis state of the chain is a sequence of digits, one per site, each in
//! `[0, base)`.  Its raw index is the little-endian positional encoding: digit
//! `i` has place value `base^i`.  This module holds the specification of that
//! encoding together with the lemmas the rest of the crate builds on: the
//! encoded value of a digit sequence is bounded by `base^length`, encoding and
//! decoding invert each other, and updating one digit shifts the encoded
//! value by a multiple of the digit's place value.

use vstd::prelude::*;
use vstd::arithmetic::power::{
    pow, lemma_pow_positive, lemma_pow0, lemma_pow1, lemma_pow_adds, lemma_pow_increases,
};
use vstd::arithmetic::mul::{
    lemma_mul_inequality, lemma_mul_nonnegative, lemma_mul_is_distributive_add,
    lemma_mul_is_distributive_sub,
};
use vstd::arithmetic::div_mod::{
    lemma_fundamental_div_mod_converse, lemma_mod_division_less_than_divisor,
    lemma_fundamental_div_mod, lemma_div_pos_is_pos,
};

verus! {

/// The raw index of a digit sequence: little-endian positional value.
pub open spec fn encoded(digits: Seq<u8>, base: nat) -> int
    decreases digits.len(),
{
    if digits.len() == 0 {
        0
    } else {
        digits[0] + base * encoded(digits.drop_first(), base)
    }
}

/// Every digit of the sequence lies below the base.
pub open spec fn digits_in_base(digits: Seq<u8>, base: nat) -> bool {
    forall|i: int| 0 <= i < digits.len() ==> digits[i] < base
}

/// The canonical digit sequence of a value: repeated remainder and quotient.
pub open spec fn digits_of(value: nat, base: nat, length: nat) -> Seq<u8>
    decreases length,
{
    if length == 0 {
        Seq::empty()
    } else {
        seq![(value % base) as u8] + digits_of(value / base, base, (length - 1) as nat)
    }
}

/// The table of place values handed around the crate: entry `i` holds
/// `base^(i mod length)`, with `length + 1` entries so that the pair of
/// sites `(length - 1, length)` reads site `length` as an alias of site 0.
pub open spec fn base_powers_wf(powers: Seq<usize>, base: nat, length: nat) -> bool {
    &&& powers.len() == length + 1
    &&& forall|i: int|
        0 <= i <= length ==> (#[trigger] powers[i]) as int == pow(
            base as int,
            (i % length as int) as nat,
        )
}

/// Sum of all digits of a sequence.
pub open spec fn digit_sum(digits: Seq<u8>) -> int
    decreases digits.len(),
{
    if digits.len() == 0 {
        0
    } else {
        digits[0] + digit_sum(digits.drop_first())
    }
}

/// Computes `base^exponent` as a machine integer.
pub fn pow_usize(base: u8, exponent: u8) -> (r: usize)
    requires
        base >= 1,
        pow(base as int, exponent as nat) <= usize::MAX,
    ensures
        r as int == pow(base as int, exponent as nat),
{
    let mut r: usize = 1;
    let e: usize = exponent as usize;
    proof {
        lemma_pow0(base as int);
    }
    for i in 0..e
        invariant
            base >= 1,
            e == exponent as nat,
            pow(base as int, exponent as nat) <= usize::MAX,
            r as int == pow(base as int, i as nat),
    {
        proof {
            lemma_pow1(base as int);
            lemma_pow_adds(base as int, i as nat, 1);
            lemma_pow_increases(base as nat, (i + 1) as nat, exponent as nat);
            lemma_pow_positive(base as int, i as nat);
        }
        r = r * base as usize;
    }
    r
}

/// The encoded value of an in-base digit sequence is bounded by
/// `base^length`.
pub proof fn lemma_encoded_bound(digits: Seq<u8>, base: nat)
    requires
        base >= 1,
        digits_in_base(digits, base),
    ensures
        0 <= encoded(digits, base) < pow(base as int, digits.len()),
    decreases digits.len(),
{
    reveal(pow);
    if digits.len() == 0 {
    } else {
        let rest = digits.drop_first();
        assert(forall|i: int| 0 <= i < rest.len() ==> rest[i] == digits[i + 1]);
        lemma_encoded_bound(rest, base);
        let p: int = pow(base as int, rest.len());
        lemma_mul_inequality(encoded(rest, base), p - 1, base as int);
        lemma_mul_nonnegative(base as int, encoded(rest, base));
        lemma_mul_is_distributive_sub(base as int, p, 1);
        assert(base * encoded(rest, base) <= base * p - base);
    }
}

/// Extending a prefix by one digit adds that digit at its place value.
pub proof fn lemma_encoded_take_succ(digits: Seq<u8>, base: nat, i: int)
    requires
        0 <= i < digits.len(),
    ensures
        encoded(digits.take(i + 1), base) == encoded(digits.take(i), base) + digits[i] * pow(
            base as int,
            i as nat,
        ),
    decreases i,
{
    reveal(pow);
    if i == 0 {
        assert(digits.take(1).drop_first() =~= digits.take(0));
        assert(digits.take(1)[0] == digits[0]);
        assert(encoded(digits.take(0), base) == 0);
        assert(encoded(digits.take(1), base) == digits[0] + base * 0);
    } else {
        let rest = digits.drop_first();
        assert(digits.take(i + 1).drop_first() =~= rest.take(i));
        assert(digits.take(i).drop_first() =~= rest.take((i - 1) as int));
        lemma_encoded_take_succ(rest, base, i - 1);
        let p: int = pow(base as int, (i - 1) as nat);
        assert(rest[i - 1] == digits[i]);
        assert(encoded(digits.take(i + 1), base) == digits[0] + base * (encoded(
            rest.take((i - 1) as int),
            base,
        ) + rest[i - 1] * p)) by {
            assert(digits.take(i + 1)[0] == digits[0]);
        }
        lemma_mul_is_distributive_add(
            base as int,
            encoded(rest.take((i - 1) as int), base),
            rest[i - 1] * p,
        );
        assert(base * (digits[i] * p) == digits[i] * (base * p)) by (nonlinear_arith);
    }
}

/// The all-zero digit sequence encodes to zero.
pub proof fn lemma_encoded_all_zero(digits: Seq<u8>, base: nat)
    requires
        forall|i: int| 0 <= i < digits.len() ==> digits[i] == 0,
    ensures
        encoded(digits, base) == 0,
    decreases digits.len(),
{
    if digits.len() > 0 {
        let rest = digits.drop_first();
        assert(forall|i: int| 0 <= i < rest.len() ==> rest[i] == digits[i + 1]);
        lemma_encoded_all_zero(rest, base);
        assert(digits[0] == 0);
    }
}

/// The all-maximum digit sequence encodes to the largest raw index.
pub proof fn lemma_encoded_all_max(digits: Seq<u8>, base: nat)
    requires
        base >= 1,
        forall|i: int| 0 <= i < digits.len() ==> digits[i] as int == base - 1,
    ensures
        encoded(digits, base) == pow(base as int, digits.len()) - 1,
    decreases digits.len(),
{
    reveal(pow);
    if digits.len() > 0 {
        let rest = digits.drop_first();
        assert(forall|i: int| 0 <= i < rest.len() ==> rest[i] == digits[i + 1]);
        lemma_encoded_all_max(rest, base);
        let p: int = pow(base as int, rest.len());
        assert(base * (p - 1) == base * p - base) by (nonlinear_arith);
        assert(pow(base as int, digits.len()) == base * p);
    }
}

/// Extending a prefix by one digit adds that digit to the digit sum.
pub proof fn lemma_digit_sum_take_succ(digits: Seq<u8>, i: int)
    requires
        0 <= i < digits.len(),
    ensures
        digit_sum(digits.take(i + 1)) == digit_sum(digits.take(i)) + digits[i],
    decreases i,
{
    if i == 0 {
        assert(digits.take(1).drop_first() =~= digits.take(0));
    } else {
        let rest = digits.drop_first();
        assert(digits.take(i + 1).drop_first() =~= rest.take(i));
        assert(digits.take(i).drop_first() =~= rest.take((i - 1) as int));
        lemma_digit_sum_take_succ(rest, i - 1);
    }
}

/// Overwriting one digit shifts the encoded value by a multiple of the
/// digit's place value.
pub proof fn lemma_encoded_update(digits: Seq<u8>, base: nat, i: int, x: u8)
    requires
        0 <= i < digits.len(),
    ensures
        encoded(digits.update(i, x), base) == encoded(digits, base) + (x - digits[i]) * pow(
            base as int,
            i as nat,
        ),
    decreases i,
{
    reveal(pow);
    if i == 0 {
        assert(digits.update(0, x).drop_first() =~= digits.drop_first());
    } else {
        let rest = digits.drop_first();
        assert(digits.update(i, x).drop_first() =~= rest.update(i - 1, x));
        assert(digits.update(i, x)[0] == digits[0]);
        lemma_encoded_update(rest, base, i - 1, x);
        let p: int = pow(base as int, (i - 1) as nat);
        lemma_mul_is_distributive_add(base as int, encoded(rest, base), (x - rest[i - 1]) * p);
        assert(base * ((x - rest[i - 1]) * p) == (x - rest[i - 1]) * (base * p))
            by (nonlinear_arith);
    }
}

/// Overwriting one digit shifts the digit sum by the difference.
pub proof fn lemma_digit_sum_update(digits: Seq<u8>, i: int, x: u8)
    requires
        0 <= i < digits.len(),
    ensures
        digit_sum(digits.update(i, x)) == digit_sum(digits) + x - digits[i],
    decreases i,
{
    if i == 0 {
        assert(digits.update(0, x).drop_first() =~= digits.drop_first());
    } else {
        let rest = digits.drop_first();
        assert(digits.update(i, x).drop_first() =~= rest.update(i - 1, x));
        assert(digits.update(i, x)[0] == digits[0]);
        lemma_digit_sum_update(rest, i - 1, x);
    }
}

/// Decoding the encoded value of an in-base digit sequence gives the
/// sequence back: the encoding is injective.
pub proof fn lemma_digits_of_encoded(digits: Seq<u8>, base: nat)
    requires
        base >= 1,
        digits_in_base(digits, base),
    ensures
        encoded(digits, base) >= 0,
        digits_of(encoded(digits, base) as nat, base, digits.len()) == digits,
    decreases digits.len(),
{
    lemma_encoded_bound(digits, base);
    if digits.len() == 0 {
        assert(digits_of(0, base, 0) =~= digits);
    } else {
        let rest = digits.drop_first();
        assert(forall|i: int| 0 <= i < rest.len() ==> rest[i] == digits[i + 1]);
        lemma_encoded_bound(rest, base);
        let v: int = encoded(digits, base);
        let r: int = encoded(rest, base);
        assert(digits[0] < base);
        assert(v == digits[0] + base * r);
        assert(base * r == r * base as int) by (nonlinear_arith);
        assert(v == r * base as int + digits[0]);
        lemma_fundamental_div_mod_converse(v, base as int, r, digits[0] as int);
        assert(v % base as int == digits[0]);
        assert(v / base as int == r);
        lemma_digits_of_encoded(rest, base);
        assert(digits_of(v as nat, base, digits.len()) =~= digits);
    }
}

/// Decoded digit sequences are in base, have the requested length, and
/// encode back to the original value: the decoding is a right inverse of
/// the encoding on `[0, base^length)`.
pub proof fn lemma_encoded_digits_of(value: nat, base: nat, length: nat)
    requires
        base >= 1,
        base <= 256,
        value < pow(base as int, length),
    ensures
        digits_of(value, base, length).len() == length,
        digits_in_base(digits_of(value, base, length), base),
        encoded(digits_of(value, base, length), base) == value,
    decreases length,
{
    reveal(pow);
    if length == 0 {
    } else {
        let d0: int = value as int % base as int;
        let q: int = value as int / base as int;
        lemma_mod_division_less_than_divisor(value as int, base as int);
        lemma_fundamental_div_mod(value as int, base as int);
        let p: int = pow(base as int, (length - 1) as nat);
        lemma_pow_positive(base as int, (length - 1) as nat);
        lemma_div_pos_is_pos(value as int, base as int);
        assert(q < p) by (nonlinear_arith)
            requires
                base >= 1,
                value < base * p,
                value == base * q + d0,
                d0 >= 0,
                p >= 1,
        ;
        lemma_encoded_digits_of(q as nat, base, (length - 1) as nat);
        let s = digits_of(value, base, length);
        let rest = digits_of(q as nat, base, (length - 1) as nat);
        assert(s.drop_first() =~= rest);
        assert(0 <= d0 < 256);
        assert(s[0] == d0 as u8);
        assert(encoded(s, base) == d0 + base * q);
    }
}

} // verus!
