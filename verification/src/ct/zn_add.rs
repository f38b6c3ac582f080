//! The additive group of the residues modulo `N`.
use crate::ct::{Group, GroupElement};
use vstd::arithmetic::div_mod::{lemma_add_mod_noop, lemma_mod_self_0, lemma_small_mod};
use vstd::prelude::*;

verus! {

/// A residue modulo `N`: an element of the group `Zn`.
#[derive(Copy, Clone, Debug, PartialEq, Eq)]
pub struct ZnElement<const N: usize> {
    /// The residue, reduced into `[0, N)`.
    pub value: usize,
}

impl<const N: usize> GroupElement for ZnElement<N> {
    type Group = Zn<N>;
}

impl<const N: usize> ZnElement<N> {
    /// The residue of `value`: every number stands for an element.
    pub fn new(value: usize) -> (e: Self)
        requires
            N >= 1,
        ensures
            e.value == value % N,
            value < N ==> e.value == value,
            Zn::<N>::contains(&e),
    {
        proof {
            if value < N {
                lemma_small_mod(value as nat, N as nat);
            }
        }
        Self { value: value % N }
    }
}

/// The group of the residues modulo `N` under addition.
pub struct Zn<const N: usize>;

impl<const N: usize> Group for Zn<N> {
    type Element = ZnElement<N>;

    open spec fn valid() -> bool {
        N >= 1
    }

    open spec fn contains(e: &ZnElement<N>) -> bool {
        e.value < N
    }

    open spec fn identity_spec() -> ZnElement<N> {
        ZnElement { value: 0 }
    }

    open spec fn op_spec(a: &ZnElement<N>, b: &ZnElement<N>) -> ZnElement<N> {
        ZnElement { value: ((a.value + b.value) % (N as int)) as usize }
    }

    open spec fn inv_spec(a: &ZnElement<N>) -> ZnElement<N> {
        ZnElement { value: ((N - a.value) % (N as int)) as usize }
    }

    fn identity() -> (e: ZnElement<N>) {
        ZnElement::new(0)
    }

    fn op(a: &ZnElement<N>, b: &ZnElement<N>) -> (c: ZnElement<N>) {
        let sum: u128 = (a.value as u128) + (b.value as u128);
        let reduced: usize = (sum % (N as u128)) as usize;
        proof {
            lemma_small_mod(reduced as nat, N as nat);
        }
        ZnElement::new(reduced)
    }

    fn inv(a: &ZnElement<N>) -> (c: ZnElement<N>) {
        proof {
            lemma_mod_self_0(N as int);
        }
        if a.value == 0 {
            Self::identity()
        } else {
            ZnElement::new(N - a.value)
        }
    }

    proof fn lemma_closed(a: &ZnElement<N>, b: &ZnElement<N>) {
    }

    proof fn lemma_associative(a: &ZnElement<N>, b: &ZnElement<N>, c: &ZnElement<N>) {
        let n = N as int;
        lemma_add_mod_noop(a.value + b.value, c.value as int, n);
        lemma_add_mod_noop(a.value as int, b.value + c.value, n);
        lemma_small_mod(a.value as nat, N as nat);
        lemma_small_mod(c.value as nat, N as nat);
    }

    proof fn lemma_identity(a: &ZnElement<N>) {
        lemma_small_mod(a.value as nat, N as nat);
    }

    proof fn lemma_inverse(a: &ZnElement<N>) {
        let n = N as int;
        let v = a.value as int;
        lemma_mod_self_0(n);
        lemma_small_mod(0, N as nat);
        if v != 0 {
            lemma_small_mod((n - v) as nat, N as nat);
            assert(v + (n - v) == n && (n - v) + v == n);
        } else {
            assert((n - v) % n == 0);
        }
    }
}

impl<const N: usize> std::ops::Add for ZnElement<N> {
    type Output = Self;

    /// The sum of two residues.
    fn add(self, rhs: Self) -> (c: Self) {
        Zn::<N>::op(&self, &rhs)
    }
}

impl<const N: usize> vstd::std_specs::ops::AddSpecImpl for ZnElement<N> {
    open spec fn obeys_add_spec() -> bool {
        true
    }

    open spec fn add_req(self, rhs: Self) -> bool {
        Zn::<N>::valid() && Zn::<N>::contains(&self) && Zn::<N>::contains(&rhs)
    }

    open spec fn add_spec(self, rhs: Self) -> Self {
        Zn::<N>::op_spec(&self, &rhs)
    }
}

impl<const N: usize> std::ops::Neg for ZnElement<N> {
    type Output = Self;

    /// The residue that adds up to zero with this one.
    fn neg(self) -> (c: Self) {
        Zn::<N>::inv(&self)
    }
}

impl<const N: usize> vstd::std_specs::ops::NegSpecImpl for ZnElement<N> {
    open spec fn obeys_neg_spec() -> bool {
        true
    }

    open spec fn neg_req(self) -> bool {
        Zn::<N>::valid() && Zn::<N>::contains(&self)
    }

    open spec fn neg_spec(self) -> Self {
        Zn::<N>::inv_spec(&self)
    }
}

} // verus!
