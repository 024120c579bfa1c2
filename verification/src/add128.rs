//! Wraparound addition modulo 2^128: the commutative combination algebra on
//! numeric identifiers, parallel to (and never mixed with) the permutation
//! group.

use vstd::arithmetic::div_mod::lemma_mod_multiples_vanish;
use vstd::arithmetic::div_mod::lemma_mod_self_0;
use vstd::arithmetic::div_mod::lemma_small_mod;
use vstd::prelude::*;

verus! {

/// 2^128, the order of the additive identifier group.
pub open spec fn n128() -> int {
    0x100000000000000000000000000000000int
}

/// Sum of two identifiers, reduced modulo 2^128.
pub open spec fn add_mod(a: int, b: int) -> int {
    (a + b) % n128()
}

/// Additive inverse modulo 2^128.
pub open spec fn ainv_mod(a: int) -> int {
    (n128() - a) % n128()
}

/// 128-bit addition with silent wraparound modulo 2^128.
pub fn add(a: &u128, b: &u128) -> (r: u128)
    ensures
        r == add_mod(*a as int, *b as int),
{
    proof {
        if *a + *b > u128::MAX {
            lemma_mod_multiples_vanish(1, *a + *b - n128(), n128());
            lemma_small_mod((*a + *b - n128()) as nat, n128() as nat);
        } else {
            lemma_small_mod((*a + *b) as nat, n128() as nat);
        }
    }
    a.wrapping_add(*b)
}

/// Additive inverse modulo 2^128, so that `add(a, ainv(a))` is zero.
pub fn ainv(a: &u128) -> (r: u128)
    ensures
        r == ainv_mod(*a as int),
{
    if *a == 0 {
        proof {
            lemma_mod_self_0(n128());
        }
        0
    } else {
        proof {
            lemma_small_mod((n128() - *a) as nat, n128() as nat);
        }
        (u128::MAX - *a) + 1
    }
}

/// Law: adding an identifier to its additive inverse yields zero.
pub proof fn lemma_add_ainv(a: u128)
    ensures
        add_mod(a as int, ainv_mod(a as int)) == 0,
{
    if a == 0 {
        lemma_mod_self_0(n128());
        lemma_small_mod(0, n128() as nat);
    } else {
        lemma_small_mod((n128() - a) as nat, n128() as nat);
        lemma_mod_self_0(n128());
    }
}

} // verus!
