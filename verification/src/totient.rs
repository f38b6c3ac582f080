//! Euler's totient function: the number of residues modulo `n` that are
//! coprime to `n`, and how it behaves when `n` gains a prime factor.
use crate::counting::{
    count_range, filter_range, lemma_count_agree, lemma_count_multiples, lemma_count_partition,
    lemma_count_periodic, lemma_filter_range_len,
};
use crate::divisibility::{
    coprime, divides, is_prime, lemma_coprime_factor, lemma_coprime_from_bezout,
    lemma_coprime_product, lemma_coprime_shift, lemma_coprime_symmetric, lemma_divides_quotient,
    lemma_multiple_divides, lemma_prime_coprime,
};
use vstd::arithmetic::power::{lemma_pow0, lemma_pow1, lemma_pow_positive, pow};
use vstd::prelude::*;

verus! {

/// The integers of `[lo, hi)` that are coprime to `n`.
pub open spec fn coprime_residues(n: int, lo: int, hi: int) -> Set<int> {
    Set::new(|v: int| lo <= v < hi && coprime(v, n))
}

/// The units modulo `n`: the residues in `[0, n)` that are coprime to `n`,
/// which are those with a multiplicative inverse.
pub open spec fn units(n: int) -> Set<int> {
    coprime_residues(n, 0, n)
}

/// Euler's totient function: the number of units modulo `n`.
///
/// For `n >= 2` zero is no unit and this is the number of integers in
/// `[1, n)` coprime to `n`; modulo one the single residue is a unit.
pub open spec fn totient(n: int) -> nat {
    units(n).len()
}

/// The predicate "is coprime to `n`".
pub open spec fn coprime_to(n: int) -> spec_fn(int) -> bool {
    |v: int| coprime(v, n)
}

/// The coprime residues of a range are finitely many, as many as the
/// recursive count says.
pub proof fn lemma_coprime_residues_count(n: int, lo: int, hi: int)
    ensures
        coprime_residues(n, lo, hi).finite(),
        coprime_residues(n, lo, hi).len() == count_range(coprime_to(n), lo, hi),
        coprime_residues(n, lo, hi).len() <= hi - lo || hi <= lo,
{
    lemma_filter_range_len(coprime_to(n), lo, hi);
    assert(coprime_residues(n, lo, hi) =~= filter_range(coprime_to(n), lo, hi));
}

/// Extending a range by one integer adds it to the coprime residues exactly
/// when it is coprime to `n`.
pub proof fn lemma_coprime_residues_extend(n: int, lo: int, hi: int)
    requires
        lo <= hi,
    ensures
        coprime_residues(n, lo, hi + 1).len() == coprime_residues(n, lo, hi).len() + (if coprime(
            hi,
            n,
        ) {
            1nat
        } else {
            0nat
        }),
        coprime_residues(n, lo, hi).len() <= hi - lo,
{
    lemma_coprime_residues_count(n, lo, hi);
    lemma_coprime_residues_count(n, lo, hi + 1);
    assert(coprime_to(n)(hi) == coprime(hi, n));
    assert(coprime_residues(n, lo, lo) =~= Set::<int>::empty());
}

/// Zero is a unit only modulo one, so from two on the units are the coprime
/// residues of `[1, n)`.
pub proof fn lemma_units_from_one(n: int)
    requires
        n >= 2,
    ensures
        units(n) == coprime_residues(n, 1, n),
{
    if coprime(0, n) {
        crate::divisibility::lemma_divides_self(n);
        crate::divisibility::lemma_coprime_common_divisor(n, 0, n);
    }
    assert(units(n) =~= coprime_residues(n, 1, n));
}

/// The two ways of counting agree everywhere but at one: the number of units
/// modulo `n` is the number of integers in `[1, n)` coprime to `n`. Modulo
/// one the residue zero is a unit, and `[1, 1)` is empty.
pub proof fn lemma_totient_counts_from_one(n: int)
    requires
        n >= 0,
        n != 1,
    ensures
        totient(n) == coprime_residues(n, 1, n).len(),
{
    if n >= 2 {
        lemma_units_from_one(n);
    } else {
        assert(units(0) =~= coprime_residues(0, 1, 0));
    }
}

/// The totient of zero is zero and that of one is one.
pub proof fn lemma_totient_small()
    ensures
        totient(0) == 0,
        totient(1) == 1,
{
    assert(units(0) =~= Set::<int>::empty());
    assert(0 * 0 + 1 * 1 == 1int);
    lemma_coprime_from_bezout(0, 1, 0, 1);
    assert(units(1) =~= Set::<int>::empty().insert(0));
}

/// If `p` divides `m`, being coprime to `p * m` is being coprime to `m`.
pub proof fn lemma_coprime_with_multiple(v: int, p: int, m: int)
    requires
        divides(p, m),
    ensures
        coprime(v, p * m) == coprime(v, m),
{
    if coprime(v, p * m) {
        lemma_coprime_factor(v, p, m);
    }
    if coprime(v, m) {
        lemma_divides_quotient(p, m);
        lemma_coprime_factor(v, p, m / p);
        lemma_coprime_product(v, p, m);
    }
}

/// For a prime `p`, being coprime to `p * m` is being coprime to `m` and no
/// multiple of `p`.
pub proof fn lemma_coprime_with_prime_multiple(v: int, p: int, m: int)
    requires
        is_prime(p),
    ensures
        coprime(v, p * m) == (coprime(v, m) && !divides(p, v)),
{
    lemma_prime_coprime(p, v);
    if coprime(v, p * m) {
        lemma_coprime_factor(v, p, m);
        lemma_coprime_symmetric(v, p);
    }
    if coprime(v, m) && !divides(p, v) {
        lemma_coprime_symmetric(p, v);
        lemma_coprime_product(v, p, m);
    }
}

/// Scaling by a factor coprime to `m` does not change coprimality to `m`.
pub proof fn lemma_coprime_scaled(w: int, p: int, m: int)
    requires
        coprime(p, m),
    ensures
        coprime(p * w, m) == coprime(w, m),
{
    lemma_coprime_symmetric(p, m);
    if coprime(p * w, m) {
        lemma_coprime_symmetric(p * w, m);
        lemma_coprime_factor(m, p, w);
        lemma_coprime_symmetric(m, w);
    }
    if coprime(w, m) {
        lemma_coprime_symmetric(w, m);
        lemma_coprime_product(m, p, w);
        lemma_coprime_symmetric(m, p * w);
    }
}

/// Over `p` periods the residues coprime to `m` are `p` times the totient.
proof fn lemma_coprime_count_periods(p: int, m: int)
    requires
        p > 0,
        m > 0,
    ensures
        count_range(coprime_to(m), 0, p * m) == p * totient(m),
{
    let g = coprime_to(m);
    assert forall|v: int| #[trigger] g(v) == g(v + m) by {
        lemma_coprime_shift(v, m, 1);
        assert(v + 1 * m == v + m);
    }
    lemma_count_periodic(g, m, p);
    lemma_coprime_residues_count(m, 0, m);
}

/// Multiplying `m` by a factor that it already has multiplies the totient by
/// that factor.
pub proof fn lemma_totient_repeated_factor(p: int, m: int)
    requires
        p > 0,
        m > 0,
        divides(p, m),
    ensures
        totient(p * m) == p * totient(m),
{
    let f = coprime_to(p * m);
    let g = coprime_to(m);
    assert forall|v: int| #[trigger] f(v) == g(v) by {
        lemma_coprime_with_multiple(v, p, m);
    }
    lemma_count_agree(f, g, 0, p * m);
    lemma_coprime_count_periods(p, m);
    lemma_coprime_residues_count(p * m, 0, p * m);
}

/// Multiplying `m` by a prime that does not divide it multiplies the totient
/// by one less than the prime.
pub proof fn lemma_totient_new_prime_factor(p: int, m: int)
    requires
        is_prime(p),
        m > 0,
        !divides(p, m),
    ensures
        totient(p * m) == (p - 1) * totient(m),
{
    let f = coprime_to(p * m);
    let g = coprime_to(m);
    let h = |v: int| coprime(v, m) && divides(p, v);
    let hq = |w: int| h(p * w);
    lemma_prime_coprime(p, m);
    assert forall|v: int| (#[trigger] g(v) == (f(v) || h(v))) && !(f(v) && h(v)) by {
        lemma_coprime_with_prime_multiple(v, p, m);
    }
    lemma_count_partition(g, f, h, 0, p * m);
    lemma_coprime_count_periods(p, m);
    assert forall|w: int| #[trigger] hq(w) == h(p * w) by {}
    lemma_count_multiples(h, hq, p, m);
    assert forall|w: int| 0 <= w < m implies #[trigger] hq(w) == g(w) by {
        lemma_multiple_divides(p, w);
        lemma_coprime_scaled(w, p, m);
    }
    lemma_count_agree(hq, g, 0, m);
    lemma_coprime_residues_count(m, 0, m);
    lemma_coprime_residues_count(p * m, 0, p * m);
    assert(p * totient(m) - totient(m) == (p - 1) * totient(m)) by (nonlinear_arith);
}

/// The totient of `m` times a power of a prime that does not divide `m`.
pub proof fn lemma_totient_prime_power_factor(p: int, j: nat, m: int)
    requires
        is_prime(p),
        m > 0,
        !divides(p, m),
        j >= 1,
    ensures
        totient(pow(p, j) * m) == pow(p, (j - 1) as nat) * (p - 1) * totient(m),
    decreases j,
{
    if j == 1 {
        lemma_pow1(p);
        lemma_pow0(p);
        lemma_totient_new_prime_factor(p, m);
        assert(1 * (p - 1) * totient(m) == (p - 1) * totient(m)) by (nonlinear_arith);
    } else {
        lemma_totient_prime_power_factor(p, (j - 1) as nat, m);
        let lower = pow(p, (j - 2) as nat);
        let prev = pow(p, (j - 1) as nat);
        let q = prev * m;
        assert(prev == p * lower && pow(p, j) == p * prev) by {
            reveal(pow);
        }
        lemma_pow_positive(p, (j - 1) as nat);
        assert(q == p * (lower * m) && q > 0 && pow(p, j) * m == p * q) by (nonlinear_arith)
            requires
                q == prev * m,
                prev == p * lower,
                pow(p, j) == p * prev,
                prev > 0,
                m > 0,
        ;
        lemma_multiple_divides(p, lower * m);
        lemma_totient_repeated_factor(p, q);
        assert(p * (lower * (p - 1) * totient(m)) == prev * (p - 1) * totient(m))
            by (nonlinear_arith)
            requires
                prev == p * lower,
        ;
    }
}

/// A power of a number coprime to `x` is coprime to `x`.
pub proof fn lemma_coprime_power(p: int, j: nat, x: int)
    requires
        coprime(x, p),
    ensures
        coprime(x, pow(p, j)),
    decreases j,
{
    reveal(pow);
    if j == 0 {
        assert(x * 0 + 1 * 1 == 1int);
        lemma_coprime_from_bezout(x, 1, 0, 1);
    } else {
        lemma_coprime_power(p, (j - 1) as nat, x);
        lemma_coprime_product(x, p, pow(p, (j - 1) as nat));
    }
}

} // verus!
