//! Groups whose parameters are chosen at run time.
//!
//! A group is a value; its elements carry a copy of it, so that an element
//! can be multiplied, inverted and measured without naming its group again.
use crate::divisibility::divides;
use vstd::prelude::*;

pub mod zn_mul;

pub use zn_mul::{ZnMul, ZnMulElement, ZnMulIterator};

verus! {

/// An algebraic group: its operations, each with the function it computes,
/// and the group axioms, which every implementation proves.
pub trait Group: Sized {
    type Element;

    /// The parameters of the group are ones that it can work with.
    spec fn valid(&self) -> bool;

    /// `e` is an element of this group.
    spec fn contains(&self, e: &Self::Element) -> bool;

    /// The neutral element.
    spec fn identity_spec(&self) -> Self::Element;

    /// The group operation.
    spec fn op_spec(&self, a: &Self::Element, b: &Self::Element) -> Self::Element;

    /// The inverse of an element.
    spec fn inv_spec(&self, a: &Self::Element) -> Self::Element;

    /// The element that a number stands for, where it stands for one.
    spec fn element_spec(&self, a: usize) -> Option<Self::Element>;

    /// Yields the group identity.
    fn identity(&self) -> (e: Self::Element)
        requires
            self.valid(),
        ensures
            e == self.identity_spec(),
    ;

    /// Applies the group operation to two elements.
    fn op(&self, a: &Self::Element, b: &Self::Element) -> (c: Self::Element)
        requires
            self.valid(),
            self.contains(a),
            self.contains(b),
        ensures
            c == self.op_spec(a, b),
    ;

    /// Yields the inverse of an element.
    fn inv(&self, a: &Self::Element) -> (c: Self::Element)
        requires
            self.valid(),
            self.contains(a),
        ensures
            c == self.inv_spec(a),
    ;

    /// Makes the element that `a` stands for, or `None` where it stands for none.
    fn element(&self, a: usize) -> (e: Option<Self::Element>)
        requires
            self.valid(),
        ensures
            e == self.element_spec(a),
    ;

    /// The group is closed under its operations, and what `element` makes is
    /// an element.
    proof fn lemma_closed(&self, a: &Self::Element, b: &Self::Element, x: usize)
        requires
            self.valid(),
            self.contains(a),
            self.contains(b),
        ensures
            self.contains(&self.identity_spec()),
            self.contains(&self.op_spec(a, b)),
            self.contains(&self.inv_spec(a)),
            self.element_spec(x) matches Some(e) ==> self.contains(&e),
    ;

    /// The operation is associative.
    proof fn lemma_associative(&self, a: &Self::Element, b: &Self::Element, c: &Self::Element)
        requires
            self.valid(),
            self.contains(a),
            self.contains(b),
            self.contains(c),
        ensures
            self.op_spec(&self.op_spec(a, b), c) == self.op_spec(a, &self.op_spec(b, c)),
    ;

    /// The identity is neutral on both sides.
    proof fn lemma_identity(&self, a: &Self::Element)
        requires
            self.valid(),
            self.contains(a),
        ensures
            self.op_spec(&self.identity_spec(), a) == *a,
            self.op_spec(a, &self.identity_spec()) == *a,
    ;

    /// An element and its inverse combine to the identity.
    proof fn lemma_inverse(&self, a: &Self::Element)
        requires
            self.valid(),
            self.contains(a),
        ensures
            self.op_spec(a, &self.inv_spec(a)) == self.identity_spec(),
            self.op_spec(&self.inv_spec(a), a) == self.identity_spec(),
    ;
}

/// The set of the elements of a group.
pub open spec fn elements<G: Group>(g: &G) -> Set<G::Element> {
    Set::new(|e: G::Element| g.contains(&e))
}

/// The `k`-fold combination of `e` with itself; the identity for `k == 0`.
pub open spec fn power<G: Group>(g: &G, e: &G::Element, k: nat) -> G::Element
    decreases k,
{
    if k == 0 {
        g.identity_spec()
    } else {
        g.op_spec(&power(g, e, (k - 1) as nat), e)
    }
}

/// `k` is the order of `e`: the least positive number of times that `e` is
/// combined with itself to give the identity.
pub open spec fn is_order<G: Group>(g: &G, e: &G::Element, k: nat) -> bool {
    &&& k >= 1
    &&& power(g, e, k) == g.identity_spec()
    &&& forall|j: nat| 1 <= j < k ==> #[trigger] power(g, e, j) != g.identity_spec()
}

/// `s` is the cyclic subgroup that `e` generates, in the order in which the
/// powers of `e` reach its elements: `e, e^2, ...`, ending in the identity.
pub open spec fn is_cyclic_subgroup<G: Group>(g: &G, e: &G::Element, s: Seq<G::Element>) -> bool {
    &&& is_order(g, e, s.len())
    &&& forall|i: int| 0 <= i < s.len() ==> #[trigger] s[i] == power(g, e, (i + 1) as nat)
}

/// An element of a `Group`.
pub trait GroupElement: Sized {
    type Group: Group<Element = Self>;

    /// The group that the element belongs to.
    spec fn group_spec(&self) -> Self::Group;

    /// The order of the element in its group.
    fn order(&self) -> (k: usize)
        requires
            self.group_spec().valid(),
            self.group_spec().contains(self),
        ensures
            is_order(&self.group_spec(), self, k as nat),
    ;

    /// The cyclic subgroup that the element generates: its powers from the
    /// element itself up to the identity.
    fn subgroup(&self) -> (s: Vec<Self>)
        requires
            self.group_spec().valid(),
            self.group_spec().contains(self),
        ensures
            is_cyclic_subgroup(&self.group_spec(), self, s@),
            s@.last() == self.group_spec().identity_spec(),
    ;
}

/// A `Group` that knows how many elements it has.
pub trait Finite: Group {
    /// The number of elements of the group.
    spec fn order_spec(&self) -> nat;

    /// The order of the group: the number of its elements.
    fn order(&self) -> (t: usize)
        requires
            self.valid(),
        ensures
            t == self.order_spec(),
    ;

    /// The order of the group is the number of its elements.
    proof fn lemma_order_counts(&self)
        requires
            self.valid(),
        ensures
            elements(self).finite(),
            elements(self).len() == self.order_spec(),
    ;

    /// Lagrange's theorem: the order of every element divides the order of
    /// the group.
    proof fn lemma_order_divides(&self, e: &Self::Element, k: nat)
        requires
            self.valid(),
            self.contains(e),
            is_order(self, e, k),
        ensures
            divides(k as int, self.order_spec() as int),
    ;
}

} // verus!
