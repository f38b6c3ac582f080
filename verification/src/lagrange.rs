//! Lagrange's theorem for the units modulo `n`: the order of a unit divides
//! the number of units.
//!
//! The proof counts. Multiplying by the powers of `e` moves every unit round
//! an orbit of exactly `order(e)` units. Taking the least unit of each orbit
//! as its representative, the units fall into `order(e)` layers (the
//! representatives multiplied by `e^0`, by `e^1`, and so on) of equal size.
use crate::divisibility::{divides, lemma_multiple_divides};
use crate::totient::{lemma_coprime_residues_count, totient, units};
use crate::unit_group::{
    element_order, is_element_order, is_unit, lemma_element_order, lemma_identity_unit,
    lemma_mul_mod_associative, lemma_mul_mod_commutative, lemma_mul_mod_identity,
    lemma_power_add, lemma_power_cancel, lemma_power_unit, lemma_unit_cancel,
    lemma_unit_product, mul_mod, power_mod,
};
use vstd::arithmetic::div_mod::{
    lemma_fundamental_div_mod, lemma_mod_bound, lemma_mod_self_0, lemma_small_mod,
};
use vstd::prelude::*;
use vstd::relations::injective_on;
use vstd::set_lib::{lemma_len_subset, lemma_map_size, lemma_set_disjoint_lens};

verus! {

/// The unit `u` multiplied by the `j`-th power of `e`.
pub open spec fn orbit_point(u: int, e: int, j: nat, n: int) -> int {
    mul_mod(u, power_mod(e, j, n), n)
}

/// Multiplication by the `j`-th power of `e`, as a function.
pub open spec fn orbit_map(e: int, j: nat, n: int) -> spec_fn(int) -> int {
    |u: int| orbit_point(u, e, j, n)
}

/// `u` is the least unit among its products with the powers of `e`.
pub open spec fn is_representative(u: int, e: int, k: nat, n: int) -> bool {
    is_unit(u, n) && forall|j: nat| j < k ==> u <= #[trigger] orbit_point(u, e, j, n)
}

/// The least unit of every orbit.
pub open spec fn representatives(e: int, k: nat, n: int) -> Set<int> {
    Set::new(|u: int| is_representative(u, e, k, n))
}

/// The representatives multiplied by the `j`-th power of `e`.
pub open spec fn layer(e: int, k: nat, n: int, j: nat) -> Set<int> {
    representatives(e, k, n).map(orbit_map(e, j, n))
}

/// The first `m` layers together.
pub open spec fn layers(e: int, k: nat, n: int, m: nat) -> Set<int>
    decreases m,
{
    if m == 0 {
        Set::empty()
    } else {
        layers(e, k, n, (m - 1) as nat) + layer(e, k, n, (m - 1) as nat)
    }
}

/// A unit multiplied by a power of `e` is a unit.
proof fn lemma_orbit_point_unit(u: int, e: int, j: nat, n: int)
    requires
        n > 0,
        is_unit(e, n),
        is_unit(u, n),
    ensures
        is_unit(orbit_point(u, e, j, n), n),
{
    lemma_power_unit(e, j, n);
    lemma_unit_product(u, power_mod(e, j, n), n);
}

/// Moving `i` steps and then `j` steps is moving `i + j` steps.
proof fn lemma_orbit_point_add(u: int, e: int, i: nat, j: nat, n: int)
    requires
        n > 0,
        is_unit(e, n),
    ensures
        orbit_point(orbit_point(u, e, i, n), e, j, n) == orbit_point(u, e, i + j, n),
{
    lemma_mul_mod_associative(u, power_mod(e, i, n), power_mod(e, j, n), n);
    lemma_power_add(e, i, j, n);
}

/// Exponents count modulo the order.
proof fn lemma_power_reduce(e: int, n: int, k: nat, x: nat)
    requires
        n > 0,
        is_unit(e, n),
        is_element_order(e, n, k),
    ensures
        power_mod(e, x, n) == power_mod(e, x % k, n),
    decreases x,
{
    if x < k {
        lemma_small_mod(x, k);
    } else {
        let y = (x - k) as nat;
        lemma_power_reduce(e, n, k, y);
        lemma_power_add(e, y, k, n);
        lemma_power_unit(e, y, n);
        lemma_mul_mod_identity(power_mod(e, y, n), n);
        assert(y + k == x);
        lemma_fundamental_div_mod(y as int, k as int);
        lemma_mod_bound(y as int, k as int);
        let q = (y as int) / (k as int);
        assert(x == (q + 1) * k + (y % k)) by (nonlinear_arith)
            requires
                y == k * q + (y % k),
                x == y + k,
        ;
        vstd::arithmetic::div_mod::lemma_fundamental_div_mod_converse(
            x as int,
            k as int,
            q + 1,
            (y % k) as int,
        );
    }
}

/// Steps count modulo the order.
proof fn lemma_orbit_point_reduce(u: int, e: int, n: int, k: nat, x: nat)
    requires
        n > 0,
        is_unit(e, n),
        is_element_order(e, n, k),
    ensures
        orbit_point(u, e, x, n) == orbit_point(u, e, x % k, n),
        x % k < k,
{
    lemma_power_reduce(e, n, k, x);
    lemma_mod_bound(x as int, k as int);
}

/// Different exponents below the order move a unit to different units.
proof fn lemma_orbit_point_exponents(u: int, e: int, n: int, k: nat, i: nat, j: nat)
    requires
        n > 0,
        is_unit(e, n),
        is_unit(u, n),
        is_element_order(e, n, k),
        i <= j < k,
        orbit_point(u, e, i, n) == orbit_point(u, e, j, n),
    ensures
        i == j,
{
    lemma_power_unit(e, i, n);
    lemma_power_unit(e, j, n);
    lemma_unit_cancel(u, power_mod(e, i, n), power_mod(e, j, n), n);
    lemma_power_cancel(e, n, i, j);
}

/// Multiplication by a power of `e` is injective on the units.
proof fn lemma_orbit_point_injective(u: int, v: int, e: int, j: nat, n: int)
    requires
        n > 0,
        is_unit(e, n),
        is_unit(u, n),
        is_unit(v, n),
        orbit_point(u, e, j, n) == orbit_point(v, e, j, n),
    ensures
        u == v,
{
    let p = power_mod(e, j, n);
    lemma_power_unit(e, j, n);
    lemma_mul_mod_commutative(u, p, n);
    lemma_mul_mod_commutative(v, p, n);
    lemma_unit_cancel(p, u, v, n);
}

/// A representative is no larger than any unit its orbit reaches.
proof fn lemma_representative_least(r: int, e: int, n: int, k: nat, x: nat)
    requires
        n > 0,
        is_unit(e, n),
        is_element_order(e, n, k),
        is_representative(r, e, k, n),
    ensures
        r <= orbit_point(r, e, x, n),
{
    lemma_orbit_point_reduce(r, e, n, k, x);
}

/// Two representatives whose orbits meet are the same.
proof fn lemma_representatives_meet(r: int, s: int, e: int, n: int, k: nat, i: nat, j: nat)
    requires
        n > 0,
        is_unit(e, n),
        is_element_order(e, n, k),
        is_representative(r, e, k, n),
        is_representative(s, e, k, n),
        i < k,
        j < k,
        orbit_point(r, e, i, n) == orbit_point(s, e, j, n),
    ensures
        r == s,
{
    lemma_return_to_start(r, e, n, k, i);
    lemma_orbit_point_add(s, e, j, (k - i) as nat, n);
    lemma_representative_least(s, e, n, k, j + (k - i) as nat);
    lemma_return_to_start(s, e, n, k, j);
    lemma_orbit_point_add(r, e, i, (k - j) as nat, n);
    lemma_representative_least(r, e, n, k, i + (k - j) as nat);
}

/// After `i` steps, `k - i` more steps bring a unit back to where it started.
proof fn lemma_return_to_start(u: int, e: int, n: int, k: nat, i: nat)
    requires
        n > 0,
        is_unit(e, n),
        is_unit(u, n),
        is_element_order(e, n, k),
        i <= k,
    ensures
        orbit_point(orbit_point(u, e, i, n), e, (k - i) as nat, n) == u,
{
    lemma_orbit_point_add(u, e, i, (k - i) as nat, n);
    assert(i + (k - i) as nat == k);
    lemma_mul_mod_identity(u, n);
}

/// Every layer has as many units as there are representatives.
proof fn lemma_layer_size(e: int, n: int, k: nat, j: nat)
    requires
        n > 0,
        is_unit(e, n),
    ensures
        representatives(e, k, n).finite(),
        layer(e, k, n, j).finite(),
        layer(e, k, n, j).len() == representatives(e, k, n).len(),
        layer(e, k, n, j).subset_of(units(n)),
{
    let reps = representatives(e, k, n);
    let f = orbit_map(e, j, n);
    lemma_coprime_residues_count(n, 0, n);
    lemma_len_subset(reps, units(n));
    assert forall|a: int, b: int|
        reps.contains(a) && reps.contains(b) && #[trigger] f(a) == #[trigger] f(b) implies a
        == b by {
        lemma_orbit_point_injective(a, b, e, j, n);
    }
    assert(injective_on(f, reps));
    lemma_map_size(reps, layer(e, k, n, j), f);
    assert forall|v: int| layer(e, k, n, j).contains(v) implies units(n).contains(v) by {
        let r = choose|r: int| reps.contains(r) && v == f(r);
        lemma_orbit_point_unit(r, e, j, n);
    }
}

/// A unit of the first `m` layers is a representative moved fewer than `m` steps.
proof fn lemma_layers_member(e: int, n: int, k: nat, m: nat, v: int) -> (w: (int, nat))
    requires
        layers(e, k, n, m).contains(v),
    ensures
        is_representative(w.0, e, k, n),
        w.1 < m,
        v == orbit_point(w.0, e, w.1, n),
    decreases m,
{
    if m == 0 {
        (0, 0)
    } else {
        let prev = (m - 1) as nat;
        if layers(e, k, n, prev).contains(v) {
            lemma_layers_member(e, n, k, prev, v)
        } else {
            let f = orbit_map(e, prev, n);
            let reps = representatives(e, k, n);
            assert(layer(e, k, n, prev).contains(v));
            let r = choose|r: int| reps.contains(r) && v == f(r);
            (r, prev)
        }
    }
}

/// A representative moved fewer than `m` steps lies in the first `m` layers.
proof fn lemma_layers_contain(e: int, n: int, k: nat, m: nat, r: int, j: nat)
    requires
        is_representative(r, e, k, n),
        j < m,
    ensures
        layers(e, k, n, m).contains(orbit_point(r, e, j, n)),
    decreases m,
{
    let prev = (m - 1) as nat;
    if j < prev {
        lemma_layers_contain(e, n, k, prev, r, j);
    } else {
        let f = orbit_map(e, j, n);
        assert(representatives(e, k, n).contains(r));
        assert(f(r) == orbit_point(r, e, j, n));
        assert(layer(e, k, n, j).contains(orbit_point(r, e, j, n)));
    }
}

/// The first `m` layers, for `m` up to the order, are disjoint: together they
/// hold `m` times as many units as there are representatives.
proof fn lemma_layers_size(e: int, n: int, k: nat, m: nat)
    requires
        n > 0,
        is_unit(e, n),
        is_element_order(e, n, k),
        m <= k,
    ensures
        layers(e, k, n, m).finite(),
        layers(e, k, n, m).len() == m * representatives(e, k, n).len(),
        layers(e, k, n, m).subset_of(units(n)),
    decreases m,
{
    let size = representatives(e, k, n).len();
    if m == 0 {
        assert(m * size == 0) by (nonlinear_arith)
            requires
                m == 0,
        ;
    } else {
        let prev = (m - 1) as nat;
        lemma_layers_size(e, n, k, prev);
        lemma_layer_size(e, n, k, prev);
        let low = layers(e, k, n, prev);
        let top = layer(e, k, n, prev);
        assert forall|v: int| low.contains(v) implies !top.contains(v) by {
            if top.contains(v) {
                let w = lemma_layers_member(e, n, k, prev, v);
                let f = orbit_map(e, prev, n);
                let r = choose|r: int| representatives(e, k, n).contains(r) && v == f(r);
                lemma_representatives_meet(w.0, r, e, n, k, w.1, prev);
                lemma_orbit_point_exponents(r, e, n, k, w.1, prev);
            }
        }
        assert(low.disjoint(top));
        lemma_set_disjoint_lens(low, top);
        assert(prev * size + size == m * size) by (nonlinear_arith)
            requires
                prev == m - 1,
        ;
    }
}

/// Among the first `m` places that the powers of `e` move `v` to, one is least.
proof fn lemma_orbit_least(v: int, e: int, n: int, m: nat) -> (least: nat)
    requires
        m >= 1,
    ensures
        least < m,
        forall|j: nat| j < m ==> orbit_point(v, e, least, n) <= #[trigger] orbit_point(v, e, j, n),
    decreases m,
{
    if m == 1 {
        0
    } else {
        let prev = (m - 1) as nat;
        let candidate = lemma_orbit_least(v, e, n, prev);
        if orbit_point(v, e, prev, n) < orbit_point(v, e, candidate, n) {
            prev
        } else {
            candidate
        }
    }
}

/// Every unit lies in one of the `k` layers.
proof fn lemma_layers_cover(e: int, n: int, k: nat, v: int)
    requires
        n > 0,
        is_unit(e, n),
        is_element_order(e, n, k),
        is_unit(v, n),
    ensures
        layers(e, k, n, k).contains(v),
{
    let least = lemma_orbit_least(v, e, n, k);
    let r = orbit_point(v, e, least, n);
    lemma_orbit_point_unit(v, e, least, n);
    assert forall|j: nat| j < k implies r <= #[trigger] orbit_point(r, e, j, n) by {
        lemma_orbit_point_add(v, e, least, j, n);
        lemma_orbit_point_reduce(v, e, n, k, least + j);
    }
    assert(is_representative(r, e, k, n));
    let back = ((k - least) as nat) % k;
    lemma_mod_bound((k - least) as int, k as int);
    lemma_orbit_point_reduce(r, e, n, k, (k - least) as nat);
    lemma_return_to_start(v, e, n, k, least);
    lemma_layers_contain(e, n, k, k, r, back);
}

/// Lagrange's theorem: the order of a unit divides the number of units.
pub proof fn lemma_order_divides_totient(e: int, n: int)
    requires
        n > 0,
        is_unit(e, n),
    ensures
        divides(element_order(e, n) as int, totient(n) as int),
{
    let k = element_order(e, n);
    lemma_element_order(e, n);
    lemma_layers_size(e, n, k, k);
    assert forall|v: int| units(n).contains(v) implies layers(e, k, n, k).contains(v) by {
        lemma_layers_cover(e, n, k, v);
    }
    assert(layers(e, k, n, k) =~= units(n));
    lemma_multiple_divides(k as int, representatives(e, k, n).len() as int);
}

} // verus!
