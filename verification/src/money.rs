//! Balance helpers for tokens quoted with a decimal exponent: one whole
//! token, and its centesimal subdivisions, saturating at the largest
//! representable balance.

use vstd::prelude::*;

use vstd::arithmetic::power::{lemma_pow0, lemma_pow1, lemma_pow_adds, lemma_pow_increases, pow};

verus! {

/// `10^decimals`, saturated at `u128::MAX`.
pub open spec fn unit_value(decimals: u32) -> int {
    if pow(10, decimals as nat) <= u128::MAX {
        pow(10, decimals as nat)
    } else {
        u128::MAX as int
    }
}

/// One whole token of a currency with `decimals` fractional digits.
pub fn unit(decimals: u32) -> (r: u128)
    ensures
        r == unit_value(decimals),
{
    let mut acc: u128 = 1;
    let mut i: u32 = 0;
    proof {
        lemma_pow0(10);
    }
    while i < decimals
        invariant
            i <= decimals,
            acc == pow(10, i as nat),
        decreases decimals - i,
    {
        acc = match acc.checked_mul(10) {
            Some(v) => v,
            None => {
                proof {
                    lemma_pow1(10);
                    lemma_pow_adds(10, i as nat, 1);
                    lemma_pow_increases(10, (i + 1) as nat, decimals as nat);
                }
                return u128::MAX;
            },
        };
        proof {
            lemma_pow1(10);
            lemma_pow_adds(10, i as nat, 1);
        }
        i += 1;
    }
    acc
}

/// A hundredth of a whole token.
pub fn cent(decimals: u32) -> (r: u128)
    ensures
        r == unit_value(decimals) / 100,
{
    unit(decimals) / 100
}

/// A thousandth of a cent.
pub fn millicent(decimals: u32) -> (r: u128)
    ensures
        r == unit_value(decimals) / 100 / 1000,
{
    cent(decimals) / 1000
}

/// A millionth of a cent.
pub fn microcent(decimals: u32) -> (r: u128)
    ensures
        r == unit_value(decimals) / 100 / 1000 / 1000,
{
    millicent(decimals) / 1000
}

} // verus!
