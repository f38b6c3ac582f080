//! The group of units modulo `n` on mathematical integers: multiplication of
//! residues, powers, and the order of an element.
use crate::divisibility::{
    coprime, lemma_coprime_mod, lemma_coprime_product, lemma_coprime_symmetric,
};
use crate::modular::{
    lemma_coprime_one, lemma_inverse_coprime, lemma_mod_cancel, lemma_mod_inverse_exists,
    mod_inverse,
};
use crate::totient::{lemma_coprime_residues_count, totient, units};
use vstd::arithmetic::div_mod::{lemma_mod_bound, lemma_mul_mod_noop_general, lemma_small_mod};
use vstd::arithmetic::mul::{lemma_mul_is_associative, lemma_mul_is_commutative};
use vstd::prelude::*;
use vstd::set_lib::lemma_len_subset;

verus! {

/// The product of two residues modulo `n`.
pub open spec fn mul_mod(a: int, b: int, n: int) -> int {
    (a * b) % n
}

/// `v` is a unit modulo `n`: a residue in `[0, n)` coprime to `n`.
pub open spec fn is_unit(v: int, n: int) -> bool {
    0 <= v < n && coprime(v, n)
}

/// The `k`-th power of `e` modulo `n`: the identity multiplied `k` times by `e`.
pub open spec fn power_mod(e: int, k: nat, n: int) -> int
    decreases k,
{
    if k == 0 {
        1int % n
    } else {
        mul_mod(power_mod(e, (k - 1) as nat, n), e, n)
    }
}

/// `k` is the order of `e` modulo `n`: the least positive exponent that takes
/// `e` to the identity.
pub open spec fn is_element_order(e: int, n: int, k: nat) -> bool {
    &&& k >= 1
    &&& power_mod(e, k, n) == 1int % n
    &&& forall|j: nat| 1 <= j < k ==> #[trigger] power_mod(e, j, n) != 1int % n
}

/// The order of the unit `e` modulo `n`.
pub open spec fn element_order(e: int, n: int) -> nat {
    choose|k: nat| is_element_order(e, n, k)
}

/// The first `m` powers of `e`: `e^0, ..., e^(m-1)`.
pub open spec fn powers_below(e: int, n: int, m: nat) -> Set<int> {
    Set::new(|x: int| exists|i: nat| i < m && #[trigger] power_mod(e, i, n) == x)
}

/// The identity `1 % n` is a unit.
pub proof fn lemma_identity_unit(n: int)
    requires
        n > 0,
    ensures
        is_unit(1int % n, n),
{
    lemma_coprime_one(n);
    lemma_coprime_mod(1, n);
    lemma_mod_bound(1, n);
}

/// The units are closed under multiplication.
pub proof fn lemma_unit_product(a: int, b: int, n: int)
    requires
        n > 0,
        is_unit(a, n),
        is_unit(b, n),
    ensures
        is_unit(mul_mod(a, b, n), n),
{
    lemma_coprime_symmetric(a, n);
    lemma_coprime_symmetric(b, n);
    lemma_coprime_product(n, a, b);
    lemma_coprime_symmetric(n, a * b);
    lemma_coprime_mod(a * b, n);
    lemma_mod_bound(a * b, n);
}

/// Multiplication modulo `n` is associative.
pub proof fn lemma_mul_mod_associative(a: int, b: int, c: int, n: int)
    requires
        n > 0,
    ensures
        mul_mod(mul_mod(a, b, n), c, n) == mul_mod(a, mul_mod(b, c, n), n),
{
    lemma_mul_mod_noop_general(a * b, c, n);
    lemma_mul_mod_noop_general(a, b * c, n);
    lemma_mul_is_associative(a, b, c);
}

/// Multiplication modulo `n` is commutative.
pub proof fn lemma_mul_mod_commutative(a: int, b: int, n: int)
    ensures
        mul_mod(a, b, n) == mul_mod(b, a, n),
{
    lemma_mul_is_commutative(a, b);
}

/// `1 % n` is neutral for multiplication of residues.
pub proof fn lemma_mul_mod_identity(a: int, n: int)
    requires
        n > 0,
        0 <= a < n,
    ensures
        mul_mod(1int % n, a, n) == a,
        mul_mod(a, 1int % n, n) == a,
{
    lemma_mul_mod_noop_general(1, a, n);
    lemma_mul_mod_noop_general(a, 1, n);
    lemma_small_mod(a as nat, n as nat);
    assert(1 * a == a && a * 1 == a) by (nonlinear_arith);
}

/// Every unit has an inverse, which is a unit and cancels it on both sides.
pub proof fn lemma_unit_inverse(a: int, n: int)
    requires
        n > 0,
        is_unit(a, n),
    ensures
        mod_inverse(a, n) is Some,
        is_unit(mod_inverse(a, n).unwrap(), n),
        mul_mod(a, mod_inverse(a, n).unwrap(), n) == 1int % n,
        mul_mod(mod_inverse(a, n).unwrap(), a, n) == 1int % n,
{
    lemma_mod_inverse_exists(a, n);
    let x = mod_inverse(a, n).unwrap();
    lemma_inverse_coprime(x, a, n);
    lemma_mul_is_commutative(a, x);
}

/// A unit can be cancelled from a product of residues.
pub proof fn lemma_unit_cancel(u: int, x: int, y: int, n: int)
    requires
        n > 0,
        is_unit(u, n),
        0 <= x < n,
        0 <= y < n,
        mul_mod(u, x, n) == mul_mod(u, y, n),
    ensures
        x == y,
{
    lemma_mod_cancel(u, x, y, n);
    lemma_small_mod(x as nat, n as nat);
    lemma_small_mod(y as nat, n as nat);
}

/// Every power of a unit is a unit.
pub proof fn lemma_power_unit(e: int, k: nat, n: int)
    requires
        n > 0,
        is_unit(e, n),
    ensures
        is_unit(power_mod(e, k, n), n),
    decreases k,
{
    if k == 0 {
        lemma_identity_unit(n);
    } else {
        lemma_power_unit(e, (k - 1) as nat, n);
        lemma_unit_product(power_mod(e, (k - 1) as nat, n), e, n);
    }
}

/// The first power of a residue is the residue.
pub proof fn lemma_power_one(e: int, n: int)
    requires
        n > 0,
        0 <= e < n,
    ensures
        power_mod(e, 1, n) == e,
{
    reveal_with_fuel(power_mod, 2);
    lemma_mul_mod_identity(e, n);
}

/// Exponents add up when powers are multiplied.
pub proof fn lemma_power_add(e: int, i: nat, j: nat, n: int)
    requires
        n > 0,
        is_unit(e, n),
    ensures
        power_mod(e, i + j, n) == mul_mod(power_mod(e, i, n), power_mod(e, j, n), n),
    decreases j,
{
    lemma_power_unit(e, i, n);
    if j == 0 {
        lemma_mul_mod_identity(power_mod(e, i, n), n);
    } else {
        let prev = (j - 1) as nat;
        lemma_power_add(e, i, prev, n);
        lemma_mul_mod_associative(power_mod(e, i, n), power_mod(e, prev, n), e, n);
        assert(((i + j) - 1) as nat == i + prev);
    }
}

/// Two equal powers differ by an exponent that takes `e` to the identity.
pub proof fn lemma_power_cancel(e: int, n: int, i: nat, j: nat)
    requires
        n > 0,
        is_unit(e, n),
        i <= j,
        power_mod(e, i, n) == power_mod(e, j, n),
    ensures
        power_mod(e, (j - i) as nat, n) == 1int % n,
{
    let d = (j - i) as nat;
    lemma_power_add(e, i, d, n);
    lemma_power_unit(e, i, n);
    lemma_power_unit(e, d, n);
    lemma_identity_unit(n);
    lemma_mul_mod_identity(power_mod(e, i, n), n);
    assert(i + d == j);
    lemma_unit_cancel(power_mod(e, i, n), power_mod(e, d, n), 1int % n, n);
}

/// As long as no power returns to the identity, the powers are all different
/// units.
proof fn lemma_powers_distinct(e: int, n: int, m: nat)
    requires
        n > 0,
        is_unit(e, n),
        forall|j: nat| 1 <= j < m ==> #[trigger] power_mod(e, j, n) != 1int % n,
    ensures
        powers_below(e, n, m).finite(),
        powers_below(e, n, m).len() == m,
        powers_below(e, n, m).subset_of(units(n)),
    decreases m,
{
    if m == 0 {
        assert(powers_below(e, n, m) =~= Set::<int>::empty());
    } else {
        let prev = (m - 1) as nat;
        lemma_powers_distinct(e, n, prev);
        let x = power_mod(e, prev, n);
        lemma_power_unit(e, prev, n);
        if powers_below(e, n, prev).contains(x) {
            let i = choose|i: nat| i < prev && #[trigger] power_mod(e, i, n) == x;
            lemma_power_cancel(e, n, i, prev);
            assert(power_mod(e, (prev - i) as nat, n) == 1int % n);
            assert(false);
        }
        assert(powers_below(e, n, m) =~= powers_below(e, n, prev).insert(x));
    }
}

/// Some power of a unit, with an exponent between one and the number of
/// units, is the identity.
pub proof fn lemma_power_returns(e: int, n: int)
    requires
        n > 0,
        is_unit(e, n),
    ensures
        exists|k: nat| 1 <= k <= totient(n) && #[trigger] power_mod(e, k, n) == 1int % n,
{
    let t = totient(n);
    if forall|k: nat| 1 <= k <= t ==> #[trigger] power_mod(e, k, n) != 1int % n {
        lemma_powers_distinct(e, n, t + 1);
        lemma_coprime_residues_count(n, 0, n);
        lemma_len_subset(powers_below(e, n, t + 1), units(n));
        assert(false);
    }
}

/// Below an exponent that takes `e` to the identity there is a least one.
proof fn lemma_least_return(e: int, n: int, w: nat) -> (k: nat)
    requires
        w >= 1,
        power_mod(e, w, n) == 1int % n,
    ensures
        is_element_order(e, n, k),
        k <= w,
    decreases w,
{
    if exists|j: nat| 1 <= j < w && #[trigger] power_mod(e, j, n) == 1int % n {
        let j = choose|j: nat| 1 <= j < w && #[trigger] power_mod(e, j, n) == 1int % n;
        lemma_least_return(e, n, j)
    } else {
        w
    }
}

/// An element has at most one order.
pub proof fn lemma_element_order_unique(e: int, n: int, k1: nat, k2: nat)
    requires
        is_element_order(e, n, k1),
        is_element_order(e, n, k2),
    ensures
        k1 == k2,
{
}

/// Every unit has an order, which is at most the number of units.
pub proof fn lemma_element_order(e: int, n: int)
    requires
        n > 0,
        is_unit(e, n),
    ensures
        is_element_order(e, n, element_order(e, n)),
        1 <= element_order(e, n) <= totient(n),
{
    lemma_power_returns(e, n);
    let w = choose|k: nat| 1 <= k <= totient(n) && #[trigger] power_mod(e, k, n) == 1int % n;
    let k = lemma_least_return(e, n, w);
    lemma_element_order_unique(e, n, k, element_order(e, n));
}

} // verus!
