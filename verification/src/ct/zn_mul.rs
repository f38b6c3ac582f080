//! The multiplicative group of units modulo `N`.
use crate::ct::{elements, is_order, power, Group, GroupElement, GroupOrder};
use crate::divisibility::coprime;
use crate::lagrange::lemma_order_divides_totient;
use crate::modular::{lemma_coprime_one, mod_inverse};
use crate::totient::{lemma_coprime_residues_count, totient, units};
use crate::unit_group::{
    element_order, is_element_order, is_unit, lemma_element_order, lemma_element_order_unique,
    lemma_identity_unit, lemma_mul_mod_associative, lemma_mul_mod_identity, lemma_power_returns,
    lemma_power_unit, lemma_unit_inverse, lemma_unit_product, mul_mod, power_mod,
};
use crate::utils::{euler_totient, mod_inv};
use vstd::arithmetic::div_mod::lemma_small_mod;
use vstd::prelude::*;
use vstd::set_lib::lemma_map_size;
use vstd::std_specs::cmp::PartialEqSpecImpl;

verus! {

/// A unit modulo `N`: an element of the group `ZnMul`.
#[derive(Copy, Clone, Debug, Eq)]
pub struct ZnMulElement<const N: usize> {
    /// The residue, reduced into `[0, N)`.
    pub value: usize,
}

impl<const N: usize> PartialEq for ZnMulElement<N> {
    fn eq(&self, other: &Self) -> (r: bool) {
        self.value == other.value
    }
}

impl<const N: usize> PartialEqSpecImpl for ZnMulElement<N> {
    open spec fn obeys_eq_spec() -> bool {
        true
    }

    open spec fn eq_spec(&self, other: &Self) -> bool {
        self.value == other.value
    }
}

impl<const N: usize> GroupElement for ZnMulElement<N> {
    type Group = ZnMul<N>;
}

impl<const N: usize> ZnMulElement<N> {
    /// What `new` makes of `value`: its residue, provided that `value` is
    /// coprime to the modulus.
    pub open spec fn new_spec(value: usize) -> Option<Self> {
        if coprime(value as int, N as int) {
            Some(ZnMulElement { value: (value % N) as usize })
        } else {
            None
        }
    }

    /// The element that `value` stands for, or `None` where `value` has a
    /// factor in common with the modulus.
    pub fn new(value: usize) -> (e: Option<Self>)
        requires
            ZnMul::<N>::valid(),
        ensures
            e == Self::new_spec(value),
    {
        if mod_inv(value, N).is_some() {
            Some(Self { value: value % N })
        } else {
            None
        }
    }
}

/// The group of units modulo `N` under multiplication.
pub struct ZnMul<const N: usize>;

impl<const N: usize> ZnMul<N> {
    /// The powers of an element are the elements of the powers of its residue.
    pub proof fn lemma_power_value(e: &ZnMulElement<N>, k: nat)
        requires
            Self::valid(),
            Self::contains(e),
        ensures
            power::<Self>(e, k) == (ZnMulElement::<N> {
                value: power_mod(e.value as int, k, N as int) as usize,
            }),
            Self::contains(&power::<Self>(e, k)),
        decreases k,
    {
        lemma_power_unit(e.value as int, k, N as int);
        if k > 0 {
            Self::lemma_power_value(e, (k - 1) as nat);
            lemma_power_unit(e.value as int, (k - 1) as nat, N as int);
        }
    }

    /// An order in the group is an order among the residues.
    pub proof fn lemma_order_value(e: &ZnMulElement<N>, k: nat)
        requires
            Self::valid(),
            Self::contains(e),
        ensures
            is_order::<Self>(e, k) == is_element_order(e.value as int, N as int, k),
    {
        let n = N as int;
        let v = e.value as int;
        lemma_identity_unit(n);
        assert forall|j: nat|
            (#[trigger] power::<Self>(e, j) == Self::identity_spec()) == (power_mod(v, j, n)
                == 1int % n) by {
            Self::lemma_power_value(e, j);
            lemma_power_unit(v, j, n);
        }
        if is_order::<Self>(e, k) {
            assert forall|j: nat| 1 <= j < k implies #[trigger] power_mod(v, j, n) != 1int % n by {
                assert(power::<Self>(e, j) != Self::identity_spec());
            }
        }
        if is_element_order(v, n, k) {
            assert forall|j: nat| 1 <= j < k implies #[trigger] power::<Self>(e, j)
                != Self::identity_spec() by {
                assert(power_mod(v, j, n) != 1int % n);
            }
        }
    }
}

impl<const N: usize> Group for ZnMul<N> {
    type Element = ZnMulElement<N>;

    open spec fn valid() -> bool {
        1 <= N <= isize::MAX
    }

    open spec fn contains(e: &ZnMulElement<N>) -> bool {
        is_unit(e.value as int, N as int)
    }

    open spec fn identity_spec() -> ZnMulElement<N> {
        ZnMulElement { value: (1int % (N as int)) as usize }
    }

    open spec fn op_spec(a: &ZnMulElement<N>, b: &ZnMulElement<N>) -> ZnMulElement<N> {
        ZnMulElement { value: mul_mod(a.value as int, b.value as int, N as int) as usize }
    }

    open spec fn inv_spec(a: &ZnMulElement<N>) -> ZnMulElement<N> {
        ZnMulElement { value: mod_inverse(a.value as int, N as int).unwrap() as usize }
    }

    fn identity() -> (e: ZnMulElement<N>) {
        proof {
            lemma_coprime_one(N as int);
        }
        ZnMulElement::new(1).unwrap()
    }

    fn op(a: &ZnMulElement<N>, b: &ZnMulElement<N>) -> (c: ZnMulElement<N>) {
        proof {
            lemma_unit_product(a.value as int, b.value as int, N as int);
            assert(a.value * b.value <= 0xFFFF_FFFF_FFFF_FFFF * 0xFFFF_FFFF_FFFF_FFFF)
                by (nonlinear_arith)
                requires
                    a.value <= 0xFFFF_FFFF_FFFF_FFFF,
                    b.value <= 0xFFFF_FFFF_FFFF_FFFF,
            ;
        }
        let product: u128 = (a.value as u128) * (b.value as u128);
        let value: usize = (product % (N as u128)) as usize;
        proof {
            lemma_small_mod(value as nat, N as nat);
        }
        ZnMulElement::new(value).unwrap()
    }

    fn inv(a: &ZnMulElement<N>) -> (c: ZnMulElement<N>) {
        proof {
            lemma_unit_inverse(a.value as int, N as int);
            lemma_small_mod(mod_inverse(a.value as int, N as int).unwrap() as nat, N as nat);
        }
        ZnMulElement::new(mod_inv(a.value, N).unwrap()).unwrap()
    }

    proof fn lemma_closed(a: &ZnMulElement<N>, b: &ZnMulElement<N>) {
        let n = N as int;
        lemma_identity_unit(n);
        lemma_unit_product(a.value as int, b.value as int, n);
        lemma_unit_inverse(a.value as int, n);
    }

    proof fn lemma_associative(a: &ZnMulElement<N>, b: &ZnMulElement<N>, c: &ZnMulElement<N>) {
        let n = N as int;
        lemma_unit_product(a.value as int, b.value as int, n);
        lemma_unit_product(b.value as int, c.value as int, n);
        lemma_mul_mod_associative(a.value as int, b.value as int, c.value as int, n);
    }

    proof fn lemma_identity(a: &ZnMulElement<N>) {
        lemma_identity_unit(N as int);
        lemma_mul_mod_identity(a.value as int, N as int);
    }

    proof fn lemma_inverse(a: &ZnMulElement<N>) {
        lemma_identity_unit(N as int);
        lemma_unit_inverse(a.value as int, N as int);
    }
}

impl<const N: usize> GroupOrder for ZnMul<N> {
    open spec fn order_spec() -> nat {
        totient(N as int)
    }

    fn order() -> (t: usize) {
        euler_totient(N)
    }

    proof fn lemma_order_counts() {
        let n = N as int;
        let f = |v: int| ZnMulElement::<N> { value: v as usize };
        lemma_coprime_residues_count(n, 0, n);
        assert forall|e: ZnMulElement<N>| elements::<Self>().contains(e) implies units(n).map(
            f,
        ).contains(e) by {
            assert(units(n).contains(e.value as int) && f(e.value as int) == e);
        }
        assert(units(n).map(f) =~= elements::<Self>());
        lemma_map_size(units(n), elements::<Self>(), f);
    }

    proof fn lemma_power_returns(e: &ZnMulElement<N>) {
        let n = N as int;
        let v = e.value as int;
        lemma_power_returns(v, n);
        let w = choose|w: nat| 1 <= w <= totient(n) && #[trigger] power_mod(v, w, n) == 1int % n;
        Self::lemma_power_value(e, w);
    }

    proof fn lemma_order_divides(e: &ZnMulElement<N>, k: nat) {
        let n = N as int;
        let v = e.value as int;
        Self::lemma_order_value(e, k);
        lemma_element_order(v, n);
        lemma_element_order_unique(v, n, k, element_order(v, n));
        lemma_order_divides_totient(v, n);
    }
}

impl<const N: usize> std::ops::Mul for ZnMulElement<N> {
    type Output = Self;

    /// The product of two units.
    fn mul(self, rhs: Self) -> (c: Self) {
        ZnMul::<N>::op(&self, &rhs)
    }
}

impl<const N: usize> vstd::std_specs::ops::MulSpecImpl for ZnMulElement<N> {
    open spec fn obeys_mul_spec() -> bool {
        true
    }

    open spec fn mul_req(self, rhs: Self) -> bool {
        ZnMul::<N>::valid() && ZnMul::<N>::contains(&self) && ZnMul::<N>::contains(&rhs)
    }

    open spec fn mul_spec(self, rhs: Self) -> Self {
        ZnMul::<N>::op_spec(&self, &rhs)
    }
}

impl<const N: usize> std::ops::Neg for ZnMulElement<N> {
    type Output = Self;

    /// The inverse of the unit.
    fn neg(self) -> (c: Self) {
        ZnMul::<N>::inv(&self)
    }
}

impl<const N: usize> vstd::std_specs::ops::NegSpecImpl for ZnMulElement<N> {
    open spec fn obeys_neg_spec() -> bool {
        true
    }

    open spec fn neg_req(self) -> bool {
        ZnMul::<N>::valid() && ZnMul::<N>::contains(&self)
    }

    open spec fn neg_spec(self) -> Self {
        ZnMul::<N>::inv_spec(&self)
    }
}

} // verus!
