//! Modular addition and subtraction on byte-range digits, written with
//! wrapping arithmetic so that no intermediate step overflows for any base up
//! to 255.

use vstd::arithmetic::div_mod::lemma_mod_add_multiples_vanish;
use vstd::arithmetic::div_mod::lemma_mod_sub_multiples_vanish;
use vstd::prelude::*;

verus! {

/// Adds two digits modulo `base`.
///
/// Both operands must already be digits of the given base; the result is then
/// exactly `(lhs + rhs) mod base`, even when the raw byte sum wraps.
pub fn add_mod(lhs: u8, rhs: u8, base: u8) -> (result: u8)
    requires
        lhs < base,
        rhs < base,
    ensures
        result == (lhs + rhs) % (base as int),
        result < base,
{
    let mut result = lhs.wrapping_add(rhs);

    if result < lhs {
        result = result.wrapping_sub(base);
        proof {
            lemma_mod_sub_multiples_vanish(lhs + rhs, base as int);
        }
    }

    result % base
}

/// Subtracts `rhs` from `lhs` modulo `base`.
///
/// Both operands must already be digits of the given base; the result is then
/// exactly `(lhs - rhs) mod base` (mathematical remainder, always in
/// `[0, base)`), even when the raw byte difference wraps below zero.
pub fn sub_mod(lhs: u8, rhs: u8, base: u8) -> (result: u8)
    requires
        lhs < base,
        rhs < base,
    ensures
        result == (lhs - rhs) % (base as int),
        result < base,
{
    let mut result = lhs.wrapping_sub(rhs);

    if result > lhs {
        result = result.wrapping_add(base);
        proof {
            lemma_mod_add_multiples_vanish(lhs - rhs, base as int);
        }
    }

    result % base
}

} // verus!
