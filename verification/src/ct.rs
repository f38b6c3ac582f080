//! Groups whose parameters are part of their type.
//!
//! A group is a type without values; its operations are associated
//! functions, and an element needs no reference to its group.
use crate::divisibility::divides;
use vstd::prelude::*;
use vstd::std_specs::cmp::PartialEqSpec;

pub mod zn_add;
pub mod zn_mul;

pub use zn_add::{Zn, ZnElement};
pub use zn_mul::{ZnMul, ZnMulElement};

verus! {

/// An algebraic group: its operations, each with the function it computes,
/// and the group axioms, which every implementation proves.
pub trait Group: Sized {
    type Element;

    /// The parameters of the group are ones that it can work with.
    spec fn valid() -> bool;

    /// `e` is an element of this group.
    spec fn contains(e: &Self::Element) -> bool;

    /// The neutral element.
    spec fn identity_spec() -> Self::Element;

    /// The group operation.
    spec fn op_spec(a: &Self::Element, b: &Self::Element) -> Self::Element;

    /// The inverse of an element.
    spec fn inv_spec(a: &Self::Element) -> Self::Element;

    /// Yields the group identity.
    fn identity() -> (e: Self::Element)
        requires
            Self::valid(),
        ensures
            e == Self::identity_spec(),
    ;

    /// Applies the group operation to two elements.
    fn op(a: &Self::Element, b: &Self::Element) -> (c: Self::Element)
        requires
            Self::valid(),
            Self::contains(a),
            Self::contains(b),
        ensures
            c == Self::op_spec(a, b),
    ;

    /// Yields the inverse of an element.
    fn inv(a: &Self::Element) -> (c: Self::Element)
        requires
            Self::valid(),
            Self::contains(a),
        ensures
            c == Self::inv_spec(a),
    ;

    /// The group is closed under its operations.
    proof fn lemma_closed(a: &Self::Element, b: &Self::Element)
        requires
            Self::valid(),
            Self::contains(a),
            Self::contains(b),
        ensures
            Self::contains(&Self::identity_spec()),
            Self::contains(&Self::op_spec(a, b)),
            Self::contains(&Self::inv_spec(a)),
    ;

    /// The operation is associative.
    proof fn lemma_associative(a: &Self::Element, b: &Self::Element, c: &Self::Element)
        requires
            Self::valid(),
            Self::contains(a),
            Self::contains(b),
            Self::contains(c),
        ensures
            Self::op_spec(&Self::op_spec(a, b), c) == Self::op_spec(a, &Self::op_spec(b, c)),
    ;

    /// The identity is neutral on both sides.
    proof fn lemma_identity(a: &Self::Element)
        requires
            Self::valid(),
            Self::contains(a),
        ensures
            Self::op_spec(&Self::identity_spec(), a) == *a,
            Self::op_spec(a, &Self::identity_spec()) == *a,
    ;

    /// An element and its inverse combine to the identity.
    proof fn lemma_inverse(a: &Self::Element)
        requires
            Self::valid(),
            Self::contains(a),
        ensures
            Self::op_spec(a, &Self::inv_spec(a)) == Self::identity_spec(),
            Self::op_spec(&Self::inv_spec(a), a) == Self::identity_spec(),
    ;
}

/// The set of the elements of a group.
pub open spec fn elements<G: Group>() -> Set<G::Element> {
    Set::new(|e: G::Element| G::contains(&e))
}

/// The `k`-fold combination of `e` with itself; the identity for `k == 0`.
pub open spec fn power<G: Group>(e: &G::Element, k: nat) -> G::Element
    decreases k,
{
    if k == 0 {
        G::identity_spec()
    } else {
        G::op_spec(&power::<G>(e, (k - 1) as nat), e)
    }
}

/// `k` is the order of `e`: the least positive number of times that `e` is
/// combined with itself to give the identity.
pub open spec fn is_order<G: Group>(e: &G::Element, k: nat) -> bool {
    &&& k >= 1
    &&& power::<G>(e, k) == G::identity_spec()
    &&& forall|j: nat| 1 <= j < k ==> #[trigger] power::<G>(e, j) != G::identity_spec()
}

/// An element of a `Group`.
pub trait GroupElement: Sized {
    type Group: Group<Element = Self>;

    /// The order of the element in its group.
    ///
    /// Combines the element with itself until the identity comes up, and
    /// counts. The count cannot pass the order of the group, by which some
    /// power has come back to the identity. The search compares elements
    /// with `==`, which has to mean that they are the same.
    fn order(&self) -> (k: usize) where Self::Group: GroupOrder, Self: Clone + PartialEq
        requires
            <Self::Group as Group>::valid(),
            <Self::Group as Group>::contains(self),
            Self::obeys_eq_spec(),
            forall|a: Self, b: Self| #[trigger] a.eq_spec(&b) == (a == b),
        ensures
            is_order::<Self::Group>(self, k as nat),
    {
        proof {
            <Self::Group as Group>::lemma_closed(self, self);
        }
        let identity = <Self::Group as Group>::identity();
        let total = <Self::Group as GroupOrder>::order();
        let mut pow = <Self::Group as Group>::op(&identity, self);
        let mut k: usize = 1;
        proof {
            <Self::Group as Group>::lemma_closed(&identity, self);
            <Self::Group as GroupOrder>::lemma_power_returns(self);
            reveal_with_fuel(power, 2);
        }
        while pow != identity
            invariant
                <Self::Group as Group>::valid(),
                <Self::Group as Group>::contains(self),
                <Self::Group as Group>::contains(&pow),
                Self::obeys_eq_spec(),
                forall|a: Self, b: Self| #[trigger] a.eq_spec(&b) == (a == b),
                identity == <Self::Group as Group>::identity_spec(),
                total == <Self::Group as GroupOrder>::order_spec(),
                1 <= k <= total,
                pow == power::<Self::Group>(self, k as nat),
                forall|j: nat| 1 <= j < k ==> #[trigger] power::<Self::Group>(self, j) != identity,
                exists|w: nat|
                    1 <= w <= total && #[trigger] power::<Self::Group>(self, w) == identity,
            decreases total - k,
        {
            proof {
                <Self::Group as Group>::lemma_closed(&pow, self);
            }
            pow = <Self::Group as Group>::op(&pow, self);
            k += 1;
        }
        k
    }
}

/// A `Group` that knows how many elements it has.
pub trait GroupOrder: Group {
    /// The number of elements of the group.
    spec fn order_spec() -> nat;

    /// The order of the group: the number of its elements.
    fn order() -> (t: usize)
        requires
            Self::valid(),
        ensures
            t == Self::order_spec(),
    ;

    /// The order of the group is the number of its elements.
    proof fn lemma_order_counts()
        requires
            Self::valid(),
        ensures
            elements::<Self>().finite(),
            elements::<Self>().len() == Self::order_spec(),
    ;

    /// Some power of every element, with an exponent between one and the
    /// order of the group, is the identity.
    proof fn lemma_power_returns(e: &Self::Element)
        requires
            Self::valid(),
            Self::contains(e),
        ensures
            exists|k: nat|
                1 <= k <= Self::order_spec() && #[trigger] power::<Self>(e, k)
                    == Self::identity_spec(),
    ;

    /// Lagrange's theorem: the order of every element divides the order of
    /// the group.
    proof fn lemma_order_divides(e: &Self::Element, k: nat)
        requires
            Self::valid(),
            Self::contains(e),
            is_order::<Self>(e, k),
        ensures
            divides(k as int, Self::order_spec() as int),
    ;
}

} // verus!
