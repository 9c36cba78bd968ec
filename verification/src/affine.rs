//! The odd affine map `x -> 2x + 1` and its inverse. Its image is the odd
//! numbers, which are the units of the ring of integers modulo 512.

use vstd::prelude::*;
use vstd::arithmetic::div_mod::{
    lemma_fundamental_div_mod,
    lemma_fundamental_div_mod_converse,
};
use crate::error::CipherError;

verus! {

/// The odd affine map on the integers.
pub open spec fn odd_map(x: int) -> int {
    2 * x + 1
}

/// The inverse of the odd affine map, defined on odd numbers.
pub open spec fn odd_unmap(y: int) -> int {
    (y - 1) / 2
}

/// The odd affine map followed by reduction modulo 512.
pub open spec fn odd_residue(x: int) -> int {
    odd_map(x) % 512
}

/// The two maps are a matched pair: the odd map only produces odd numbers,
/// and on those its inverse undoes it.
pub proof fn lemma_odd_map_inverts(x: int)
    ensures
        odd_map(x) % 2 == 1,
        odd_unmap(odd_map(x)) == x,
{
    lemma_fundamental_div_mod_converse(2 * x + 1, 2, x, 1);
    lemma_fundamental_div_mod_converse(2 * x, 2, x, 0);
}

/// On an odd number the inverse map is undone by the odd map.
pub proof fn lemma_odd_unmap_inverts(y: int)
    requires
        y % 2 == 1,
    ensures
        odd_map(odd_unmap(y)) == y,
{
    lemma_fundamental_div_mod(y, 2);
    lemma_fundamental_div_mod_converse(y - 1, 2, y / 2, 0);
}

/// The reduced odd map is an odd residue in `[0, 512)`, and only the low
/// eight bits of its argument matter.
pub proof fn lemma_odd_residue(x: int)
    ensures
        odd_residue(x) == 2 * (x % 256) + 1,
        0 <= odd_residue(x) < 512,
        odd_residue(x) % 2 == 1,
{
    lemma_fundamental_div_mod(x, 256);
    lemma_fundamental_div_mod_converse(2 * x + 1, 512, x / 256, 2 * (x % 256) + 1);
    lemma_odd_map_inverts(x % 256);
}

/// Applies the odd affine map.
pub fn substitute(x: i64) -> (y: i64)
    requires
        i64::MIN <= odd_map(x as int) <= i64::MAX,
    ensures
        y == odd_map(x as int),
{
    2 * x + 1
}

/// Applies the inverse of the odd affine map, which exists for odd numbers
/// only.
pub fn inv_substitute(x: i64) -> (r: Result<i64, CipherError>)
    ensures
        match r {
            Ok(y) => x % 2 == 1 && y == odd_unmap(x as int),
            Err(e) => x % 2 == 0 && e == CipherError::OddnessViolation,
        },
{
    if x >= 0 {
        if x % 2 == 1 {
            proof {
                lemma_fundamental_div_mod(x as int, 2);
                lemma_fundamental_div_mod_converse(x - 1, 2, x as int / 2, 0);
            }
            Ok((x - 1) / 2)
        } else {
            Err(CipherError::OddnessViolation)
        }
    } else {
        // For a negative `x`, work on the non-negative number `-(x + 1)`,
        // which is even exactly when `x` is odd.
        let t: i64 = -(x + 1);
        let h: i64 = t / 2;
        proof {
            lemma_fundamental_div_mod(t as int, 2);
            if t % 2 == 0 {
                lemma_fundamental_div_mod_converse(x as int, 2, -h - 1, 1);
                lemma_fundamental_div_mod_converse(x - 1, 2, -h - 1, 0);
            } else {
                lemma_fundamental_div_mod_converse(x as int, 2, -h - 1, 0);
            }
        }
        if t % 2 == 0 {
            Ok(-h - 1)
        } else {
            Err(CipherError::OddnessViolation)
        }
    }
}

} // verus!
