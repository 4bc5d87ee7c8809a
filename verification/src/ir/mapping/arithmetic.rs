//! What the bit-level adders of the lowering mean as numbers.

use super::combinational::{carry_bit, increment_bit, ones_below, sum_bit};
use vstd::arithmetic::power2::{lemma_pow2_pos, lemma_pow2_unfold, pow2};
use vstd::prelude::*;

verus! {

/// The number whose lowest `width` bits are given, lowest first.
pub open spec fn bits_number(bits: spec_fn(int) -> bool, width: nat) -> nat
    decreases width,
{
    if width == 0 {
        0
    } else {
        bits_number(bits, (width - 1) as nat) + (if bits(width - 1) {
            pow2((width - 1) as nat)
        } else {
            0
        })
    }
}

/// A number of `width` bits is below two to the `width`.
pub proof fn bits_number_bounded(bits: spec_fn(int) -> bool, width: nat)
    ensures
        bits_number(bits, width) < pow2(width),
    decreases width,
{
    if width == 0 {
        lemma_pow2_pos(0);
    } else {
        bits_number_bounded(bits, (width - 1) as nat);
        lemma_pow2_unfold(width);
    }
}

/// Ripple-carry sums with the last carry are exact sums.
pub proof fn ripple_carry_is_exact(left: spec_fn(int) -> bool, right: spec_fn(int) -> bool, width: nat)
    ensures
        bits_number(|bit: int| sum_bit(left, right, bit), width) + (if carry_bit(left, right, width) {
            pow2(width)
        } else {
            0
        }) == bits_number(left, width) + bits_number(right, width),
    decreases width,
{
    if width > 0 {
        ripple_carry_is_exact(left, right, (width - 1) as nat);
        lemma_pow2_unfold(width);
    }
}

/// The ripple-carry sum of two buses is their sum modulo two to their width.
pub proof fn ripple_carry_adds(left: spec_fn(int) -> bool, right: spec_fn(int) -> bool, width: nat)
    ensures
        bits_number(|bit: int| sum_bit(left, right, bit), width) == (bits_number(left, width) + bits_number(
            right,
            width,
        )) % pow2(width),
{
    let sum = bits_number(|bit: int| sum_bit(left, right, bit), width);
    ripple_carry_is_exact(left, right, width);
    bits_number_bounded(|bit: int| sum_bit(left, right, bit), width);
    let carry: nat = if carry_bit(left, right, width) { 1 } else { 0 };
    let modulus = pow2(width);
    let total = bits_number(left, width) + bits_number(right, width);
    assert(total == sum + carry * modulus) by (nonlinear_arith)
        requires
            carry == 1 || carry == 0,
            carry == 1 ==> total == sum + modulus,
            carry == 0 ==> total == sum,
    ;
    assert(total % modulus == sum) by (nonlinear_arith)
        requires
            total == sum + carry * modulus,
            carry == 1 || carry == 0,
            sum < modulus,
    ;
}

/// An increment with its last carry is exact.
pub proof fn increment_is_exact(value: spec_fn(int) -> bool, width: nat)
    ensures
        bits_number(|bit: int| increment_bit(value, bit), width) + (if ones_below(value, width) {
            pow2(width)
        } else {
            0
        }) == bits_number(value, width) + 1,
    decreases width,
{
    if width > 0 {
        increment_is_exact(value, (width - 1) as nat);
        lemma_pow2_unfold(width);
    } else {
        vstd::arithmetic::power2::lemma2_to64();
    }
}

/// The increment of a bus is its number plus one modulo two to its width.
pub proof fn increment_adds_one(value: spec_fn(int) -> bool, width: nat)
    ensures
        bits_number(|bit: int| increment_bit(value, bit), width) == (bits_number(value, width) + 1) % pow2(width),
{
    let sum = bits_number(|bit: int| increment_bit(value, bit), width);
    increment_is_exact(value, width);
    bits_number_bounded(|bit: int| increment_bit(value, bit), width);
    let carry: nat = if ones_below(value, width) { 1 } else { 0 };
    let modulus = pow2(width);
    let total = bits_number(value, width) + 1;
    assert(total == sum + carry * modulus) by (nonlinear_arith)
        requires
            carry == 1 || carry == 0,
            carry == 1 ==> total == sum + modulus,
            carry == 0 ==> total == sum,
    ;
    assert(total % modulus == sum) by (nonlinear_arith)
        requires
            total == sum + carry * modulus,
            carry == 1 || carry == 0,
            sum < modulus,
    ;
}

} // verus!
