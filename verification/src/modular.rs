//! Arithmetic modulo `n`: congruences and multiplicative inverses.
use crate::divisibility::{
    coprime, divides, lemma_bezout, lemma_coprime_cancel, lemma_coprime_from_bezout,
};
use vstd::arithmetic::div_mod::{
    lemma_fundamental_div_mod, lemma_mod_bound, lemma_mod_equivalence, lemma_mod_multiples_vanish,
    lemma_mul_mod_noop_general, lemma_small_mod,
};
use vstd::prelude::*;

verus! {

/// `x` is the residue in `[0, n)` whose product with `a` is congruent to one.
pub open spec fn is_inverse_mod(x: int, a: int, n: int) -> bool {
    0 <= x < n && (a * x) % n == 1int % n
}

/// The multiplicative inverse of `a` modulo `n`, reduced into `[0, n)`, where
/// there is one: exactly when `a` and `n` are coprime.
pub open spec fn mod_inverse(a: int, n: int) -> Option<int> {
    if coprime(a, n) {
        Some(choose|x: int| is_inverse_mod(x, a, n))
    } else {
        None
    }
}

/// Every integer is coprime to one.
pub proof fn lemma_coprime_one(a: int)
    ensures
        coprime(a, 1),
        coprime(1, a),
{
    assert(a * 0 + 1 * 1 == 1) by (nonlinear_arith);
    lemma_coprime_from_bezout(a, 1, 0, 1);
    assert(1 * 1 + a * 0 == 1) by (nonlinear_arith);
    lemma_coprime_from_bezout(1, a, 1, 0);
}

/// A Bezout cofactor of `a`, reduced modulo `n`, is the inverse of `a`.
pub proof fn lemma_inverse_from_bezout(a: int, x: int, n: int, y: int)
    requires
        n > 0,
        a * x + n * y == 1,
    ensures
        is_inverse_mod(x % n, a, n),
{
    lemma_mod_bound(x, n);
    lemma_mod_multiples_vanish(-y, 1, n);
    assert(a * x == n * (-y) + 1) by (nonlinear_arith)
        requires
            a * x + n * y == 1,
    ;
    lemma_mul_mod_noop_general(a, x, n);
}

/// Only numbers coprime to `n` have an inverse modulo `n`, and the inverse is
/// coprime to `n` too.
pub proof fn lemma_inverse_coprime(x: int, a: int, n: int)
    requires
        n > 0,
        is_inverse_mod(x, a, n),
    ensures
        coprime(a, n),
        coprime(x, n),
{
    if n == 1 {
        lemma_coprime_one(a);
        lemma_coprime_one(x);
    } else {
        lemma_small_mod(1, n as nat);
        lemma_fundamental_div_mod(a * x, n);
        let k = (a * x) / n;
        assert(a * x + n * (-k) == 1 && x * a + n * (-k) == 1) by (nonlinear_arith)
            requires
                a * x == n * k + 1,
        ;
        lemma_coprime_from_bezout(a, n, x, -k);
        lemma_coprime_from_bezout(x, n, a, -k);
    }
}

/// A factor coprime to the modulus can be cancelled from a congruence.
pub proof fn lemma_mod_cancel(a: int, x: int, y: int, n: int)
    requires
        n > 0,
        coprime(a, n),
        (a * x) % n == (a * y) % n,
    ensures
        x % n == y % n,
{
    lemma_mod_equivalence(a * x, a * y, n);
    assert(a * x - a * y == a * (x - y)) by (nonlinear_arith);
    assert(divides(n, a * (x - y)));
    lemma_coprime_cancel(n, a, x - y);
    lemma_mod_equivalence(x, y, n);
}

/// There is at most one inverse in `[0, n)`.
pub proof fn lemma_inverse_unique(a: int, n: int, x: int, y: int)
    requires
        n > 0,
        is_inverse_mod(x, a, n),
        is_inverse_mod(y, a, n),
    ensures
        x == y,
{
    lemma_inverse_coprime(x, a, n);
    lemma_mod_cancel(a, x, y, n);
    lemma_small_mod(x as nat, n as nat);
    lemma_small_mod(y as nat, n as nat);
}

/// An inverse, once found, is the one that `mod_inverse` names.
pub proof fn lemma_mod_inverse_is(a: int, n: int, x: int)
    requires
        n > 0,
        is_inverse_mod(x, a, n),
    ensures
        mod_inverse(a, n) == Some(x),
{
    lemma_inverse_coprime(x, a, n);
    let c = choose|z: int| is_inverse_mod(z, a, n);
    lemma_inverse_unique(a, n, c, x);
}

/// Every number coprime to `n` has an inverse modulo `n`.
pub proof fn lemma_mod_inverse_exists(a: int, n: int)
    requires
        n > 0,
        coprime(a, n),
    ensures
        mod_inverse(a, n) is Some,
        is_inverse_mod(mod_inverse(a, n).unwrap(), a, n),
{
    let c = lemma_bezout(a, n);
    lemma_inverse_from_bezout(a, c.0, n, c.1);
    lemma_mod_inverse_is(a, n, c.0 % n);
}

/// Inverting twice gives the residue of the number one started with: for `a`
/// coprime to `n`, the inverse of the inverse of `a` is `a % n`, which is
/// `a` itself when `a` is already reduced.
pub proof fn lemma_mod_inverse_round_trip(a: int, n: int)
    requires
        n > 0,
        coprime(a, n),
    ensures
        mod_inverse(a, n) is Some,
        mod_inverse(mod_inverse(a, n).unwrap(), n) == Some(a % n),
        0 <= a < n ==> mod_inverse(mod_inverse(a, n).unwrap(), n) == Some(a),
{
    lemma_mod_inverse_exists(a, n);
    let x = mod_inverse(a, n).unwrap();
    lemma_mul_mod_noop_general(x, a, n);
    assert(x * a == a * x) by (nonlinear_arith);
    lemma_mod_bound(a, n);
    lemma_mod_inverse_is(x, n, a % n);
    if 0 <= a < n {
        lemma_small_mod(a as nat, n as nat);
    }
}

} // verus!
