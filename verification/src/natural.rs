//! Natural numbers without an upper bound, for counting device cycles.

use num_bigint::BigUint;
use vstd::arithmetic::power2::{lemma2_to64, lemma_pow2_adds, pow2};
use vstd::prelude::*;

verus! {

/// The number that `digits` denote in base 2^32, least significant digit first.
pub open spec fn digits_value(digits: Seq<u32>) -> nat
    decreases digits.len(),
{
    if digits.len() == 0 {
        0
    } else {
        digits[0] as nat + 0x1_0000_0000 * digits_value(digits.drop_first())
    }
}

/// The digit at place `k` counts `2^(32 k)`: a further digit behind `k` others adds that many
/// times its value. No digits denote zero.
pub proof fn digits_count_by_place(digits: Seq<u32>, digit: u32)
    ensures
        digits_value(digits.push(digit)) == digits_value(digits) + digit * pow2(
            32 * digits.len(),
        ),
        digits_value(Seq::empty()) == 0,
    decreases digits.len(),
{
    let more = digits.push(digit);
    if digits.len() == 0 {
        reveal_with_fuel(digits_value, 2);
        lemma2_to64();
        assert(more.drop_first() =~= Seq::<u32>::empty());
        assert(digit * pow2(32 * digits.len()) == digit) by (nonlinear_arith)
            requires
                pow2(32 * digits.len()) == 1,
        ;
    } else {
        let rest = digits.drop_first();
        let weight = pow2(32 * rest.len()) as int;
        digits_count_by_place(rest, digit);
        assert(more.drop_first() =~= rest.push(digit));
        assert(pow2(32 * digits.len()) == 0x1_0000_0000 * weight) by {
            lemma2_to64();
            lemma_pow2_adds(32, 32 * rest.len());
        }
        assert(0x1_0000_0000 * (digits_value(rest) + digit * weight) == 0x1_0000_0000
            * digits_value(rest) + digit * (0x1_0000_0000 * weight)) by (nonlinear_arith);
    }
}

/// A natural number, kept as its base 2^32 digits, least significant digit first. Digits beyond
/// the most significant one may be zero.
#[derive(Debug)]
pub struct Natural {
    digits: Vec<u32>,
}

impl View for Natural {
    type V = nat;

    closed spec fn view(&self) -> nat {
        digits_value(self.digits@)
    }
}

impl Natural {
    /// The number whose base 2^32 digits, least significant first, are `digits`.
    pub fn from_digits(digits: Vec<u32>) -> (number: Self)
        ensures
            number@ == digits_value(digits@),
    {
        Natural { digits }
    }

    pub fn from_u32(value: u32) -> (number: Self)
        ensures
            number@ == value,
    {
        let number = Natural { digits: vec![value] };
        proof {
            reveal_with_fuel(digits_value, 2);
            assert(number.digits@ =~= seq![value]);
        }
        number
    }

    /// The base 2^32 digits of the number, least significant first.
    pub fn digits(&self) -> (digits: &Vec<u32>)
        ensures
            digits_value(digits@) == self@,
    {
        &self.digits
    }
}

/// The product that `u64 * &BigUint` of num-bigint computes: the exact product, as the result
/// grows with it.
#[verifier::external_body]
pub(crate) fn scaled(factor: u64, number: &Natural) -> (product: Natural)
    ensures
        product@ == factor * number@,
{
    let product = factor * &BigUint::from_slice(&number.digits);
    Natural { digits: product.to_u32_digits() }
}

/// The quotient that `BigUint / &BigUint` of num-bigint computes, rounded down. That division
/// panics on a zero divisor.
#[verifier::external_body]
pub(crate) fn divided(number: &Natural, divisor: &Natural) -> (quotient: Natural)
    requires
        divisor@ != 0,
    ensures
        quotient@ == number@ / divisor@,
{
    let quotient = BigUint::from_slice(&number.digits) / &BigUint::from_slice(&divisor.digits);
    Natural { digits: quotient.to_u32_digits() }
}

/// The comparison `BigUint < BigUint` of num-bigint: it orders the numbers by their values.
#[verifier::external_body]
pub(crate) fn less_than(left: &Natural, right: &Natural) -> (less: bool)
    ensures
        less == (left@ < right@),
{
    BigUint::from_slice(&left.digits) < BigUint::from_slice(&right.digits)
}

/// The addition `BigUint += u32` of num-bigint: it makes the number larger by exactly `amount`,
/// growing it by a digit where the sum needs one.
#[verifier::external_body]
pub(crate) fn increase(number: &mut Natural, amount: u32)
    ensures
        final(number)@ == old(number)@ + amount,
{
    let mut sum = BigUint::from_slice(&number.digits);
    sum += amount;
    number.digits = sum.to_u32_digits();
}

} // verus!
