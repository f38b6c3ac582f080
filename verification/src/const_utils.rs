//! The greatest common divisor and the totient by their definitions: short
//! loops over unsigned integers with nothing but remainders and comparisons.
use crate::divisibility::{gcd, lemma_gcd_step, lemma_gcd_zero};
use crate::totient::{
    coprime_residues, lemma_coprime_residues_extend, lemma_totient_small, lemma_units_from_one,
    totient,
};
use vstd::arithmetic::div_mod::lemma_fundamental_div_mod;
use vstd::prelude::*;

verus! {

/// The greatest common divisor of `a` and `b`, by the Euclidean algorithm.
pub fn const_gcd(a: usize, b: usize) -> (g: usize)
    ensures
        g == gcd(a as int, b as int),
{
    let mut x: usize = a;
    let mut y: usize = b;
    while y != 0
        invariant
            gcd(x as int, y as int) == gcd(a as int, b as int),
        decreases y,
    {
        proof {
            lemma_fundamental_div_mod(x as int, y as int);
            let q = (x as int) / (y as int);
            assert(x as int - q * (y as int) == (x % y) as int) by (nonlinear_arith)
                requires
                    x as int == (y as int) * q + (x as int) % (y as int),
            ;
            lemma_gcd_step(x as int, y as int, q);
        }
        let r: usize = x % y;
        x = y;
        y = r;
    }
    proof {
        lemma_gcd_zero(x as int);
    }
    x
}

/// Euler's totient function by its definition: counts the integers in
/// `[1, n)` that are coprime to `n`.
///
/// From two on this is the number of units modulo `n`. Modulo one the only
/// residue is zero, which lies outside `[1, n)`: the count is zero there,
/// though the single residue is a unit.
pub fn const_totient(n: usize) -> (count: usize)
    ensures
        count == coprime_residues(n as int, 1, n as int).len(),
        n != 1 ==> count == totient(n as int),
{
    let mut count: usize = 0;
    let mut i: usize = 1;
    proof {
        assert(coprime_residues(n as int, 1, 1) =~= Set::<int>::empty());
    }
    while i < n
        invariant
            1 <= i,
            i <= n || (n == 0 && i == 1),
            count == coprime_residues(n as int, 1, i as int).len(),
        decreases n - i,
    {
        proof {
            lemma_coprime_residues_extend(n as int, 1, i as int);
        }
        if const_gcd(i, n) == 1 {
            count += 1;
        }
        i += 1;
    }
    proof {
        if n >= 2 {
            lemma_units_from_one(n as int);
        } else if n == 0 {
            lemma_totient_small();
            assert(coprime_residues(0, 1, 0) =~= coprime_residues(0, 1, 1));
        }
    }
    count
}

} // verus!
