//! The multiplicative group of units modulo `n`, for an `n` chosen at run
//! time.
use crate::divisibility::{coprime, lemma_coprime_mod};
use crate::lagrange::lemma_order_divides_totient;
use crate::modular::{lemma_coprime_one, mod_inverse};
use crate::rt::{elements, is_cyclic_subgroup, is_order, power, Finite, Group, GroupElement};
use crate::totient::{
    coprime_residues, lemma_coprime_residues_count, lemma_coprime_residues_extend,
    lemma_units_from_one, totient, units,
};
use crate::unit_group::{
    element_order, is_element_order, is_unit, lemma_element_order, lemma_element_order_unique,
    lemma_identity_unit, lemma_mul_mod_associative, lemma_mul_mod_identity, lemma_power_one,
    lemma_power_returns, lemma_power_unit, lemma_unit_inverse, lemma_unit_product, mul_mod,
    power_mod,
};
use crate::utils::{euler_totient, mod_inv};
use vstd::arithmetic::div_mod::{lemma_mod_bound, lemma_small_mod};
use vstd::prelude::*;
use vstd::set_lib::lemma_map_size;

verus! {

/// A unit modulo `n`: an element of the group `ZnMul`.
#[derive(Copy, Clone, Debug, PartialEq, Eq, Structural)]
pub struct ZnMulElement {
    /// The residue, reduced into `[0, n)`.
    pub value: usize,
    /// The group that the element belongs to.
    pub group: ZnMul,
}

/// The group of units modulo `n` under multiplication.
#[derive(Copy, Clone, Debug, PartialEq, Eq, Structural)]
pub struct ZnMul {
    /// The modulus.
    pub n: usize,
}

impl ZnMulElement {
    /// The element of `group` that `value` stands for: the residue of
    /// `value`, provided that `value` is coprime to the modulus.
    pub fn new(value: usize, group: &ZnMul) -> (e: Option<Self>)
        requires
            group.valid(),
        ensures
            e == group.element_spec(value),
    {
        if mod_inv(value, group.n).is_some() {
            Some(Self { value: value % group.n, group: *group })
        } else {
            None
        }
    }
}

impl ZnMul {
    /// The group of units modulo `n`.
    ///
    /// Every `n` makes a value; the group operations ask for a modulus from
    /// one up to `isize::MAX`.
    pub fn new(n: usize) -> (g: Self)
        ensures
            g.n == n,
    {
        Self { n }
    }

    /// An enumeration of the units in `[1, n)` in ascending order.
    pub fn iter(&self) -> (it: ZnMulIterator)
        requires
            self.n <= isize::MAX,
        ensures
            it.wf(),
            it.group() == *self,
            it.position() == 1,
    {
        proof {
            assert(coprime_residues(self.n as int, 1, 1) =~= Set::<int>::empty());
        }
        ZnMulIterator { candidate: 1, group: *self, yielded: 0, total: euler_totient(self.n) }
    }

    /// The cyclic subgroup that `a` generates: `a, a^2, ...`, up to the
    /// identity.
    pub fn subgroup(&self, a: &ZnMulElement) -> (s: Vec<ZnMulElement>)
        requires
            self.valid(),
            self.contains(a),
        ensures
            is_cyclic_subgroup(self, a, s@),
            s@.last() == self.identity_spec(),
    {
        let count = a.order();
        let mut subgroup: Vec<ZnMulElement> = Vec::with_capacity(count);
        let mut pow = *a;
        let mut i: usize = 0;
        proof {
            self.lemma_power_value(a, 1);
            lemma_power_one(a.value as int, self.n as int);
        }
        while i < count
            invariant
                self.valid(),
                self.contains(a),
                self.contains(&pow),
                i <= count,
                is_order(self, a, count as nat),
                subgroup@.len() == i,
                pow == power(self, a, (i + 1) as nat),
                forall|j: int|
                    0 <= j < i ==> #[trigger] subgroup@[j] == power(self, a, (j + 1) as nat),
            decreases count - i,
        {
            subgroup.push(pow);
            proof {
                self.lemma_closed(&pow, a, 0);
            }
            pow = self.op(&pow, a);
            i += 1;
        }
        subgroup
    }

    /// The powers of an element are the elements of the powers of its residue.
    pub proof fn lemma_power_value(&self, e: &ZnMulElement, k: nat)
        requires
            self.valid(),
            self.contains(e),
        ensures
            power(self, e, k) == (ZnMulElement {
                value: power_mod(e.value as int, k, self.n as int) as usize,
                group: *self,
            }),
            self.contains(&power(self, e, k)),
        decreases k,
    {
        lemma_power_unit(e.value as int, k, self.n as int);
        if k > 0 {
            self.lemma_power_value(e, (k - 1) as nat);
            lemma_power_unit(e.value as int, (k - 1) as nat, self.n as int);
        }
    }

    /// An order in the group is an order among the residues.
    pub proof fn lemma_order_value(&self, e: &ZnMulElement, k: nat)
        requires
            self.valid(),
            self.contains(e),
        ensures
            is_order(self, e, k) == is_element_order(e.value as int, self.n as int, k),
    {
        let n = self.n as int;
        let v = e.value as int;
        lemma_identity_unit(n);
        assert forall|j: nat|
            (#[trigger] power(self, e, j) == self.identity_spec()) == (power_mod(v, j, n) == 1int
                % n) by {
            self.lemma_power_value(e, j);
            lemma_power_unit(v, j, n);
        }
        if is_order(self, e, k) {
            assert forall|j: nat| 1 <= j < k implies #[trigger] power_mod(v, j, n) != 1int % n by {
                assert(power(self, e, j) != self.identity_spec());
            }
        }
        if is_element_order(v, n, k) {
            assert forall|j: nat| 1 <= j < k implies #[trigger] power(self, e, j)
                != self.identity_spec() by {
                assert(power_mod(v, j, n) != 1int % n);
            }
        }
    }
}

impl Group for ZnMul {
    type Element = ZnMulElement;

    open spec fn valid(&self) -> bool {
        1 <= self.n <= isize::MAX
    }

    open spec fn contains(&self, e: &ZnMulElement) -> bool {
        e.group == *self && is_unit(e.value as int, self.n as int)
    }

    open spec fn identity_spec(&self) -> ZnMulElement {
        ZnMulElement { value: (1int % (self.n as int)) as usize, group: *self }
    }

    open spec fn op_spec(&self, a: &ZnMulElement, b: &ZnMulElement) -> ZnMulElement {
        ZnMulElement {
            value: mul_mod(a.value as int, b.value as int, self.n as int) as usize,
            group: *self,
        }
    }

    open spec fn inv_spec(&self, a: &ZnMulElement) -> ZnMulElement {
        ZnMulElement {
            value: mod_inverse(a.value as int, self.n as int).unwrap() as usize,
            group: *self,
        }
    }

    open spec fn element_spec(&self, a: usize) -> Option<ZnMulElement> {
        if coprime(a as int, self.n as int) {
            Some(ZnMulElement { value: (a % self.n) as usize, group: *self })
        } else {
            None
        }
    }

    fn identity(&self) -> (e: ZnMulElement) {
        proof {
            lemma_coprime_one(self.n as int);
        }
        ZnMulElement::new(1, self).unwrap()
    }

    fn op(&self, a: &ZnMulElement, b: &ZnMulElement) -> (c: ZnMulElement) {
        proof {
            lemma_unit_product(a.value as int, b.value as int, self.n as int);
            assert(a.value * b.value <= 0xFFFF_FFFF_FFFF_FFFF * 0xFFFF_FFFF_FFFF_FFFF)
                by (nonlinear_arith)
                requires
                    a.value <= 0xFFFF_FFFF_FFFF_FFFF,
                    b.value <= 0xFFFF_FFFF_FFFF_FFFF,
            ;
        }
        let product: u128 = (a.value as u128) * (b.value as u128);
        let value: usize = (product % (self.n as u128)) as usize;
        proof {
            lemma_small_mod(value as nat, self.n as nat);
        }
        ZnMulElement::new(value, self).unwrap()
    }

    fn inv(&self, a: &ZnMulElement) -> (c: ZnMulElement) {
        proof {
            lemma_unit_inverse(a.value as int, self.n as int);
            lemma_small_mod(
                mod_inverse(a.value as int, self.n as int).unwrap() as nat,
                self.n as nat,
            );
        }
        ZnMulElement::new(mod_inv(a.value, self.n).unwrap(), self).unwrap()
    }

    fn element(&self, a: usize) -> (e: Option<ZnMulElement>) {
        ZnMulElement::new(a, self)
    }

    proof fn lemma_closed(&self, a: &ZnMulElement, b: &ZnMulElement, x: usize) {
        let n = self.n as int;
        lemma_identity_unit(n);
        lemma_unit_product(a.value as int, b.value as int, n);
        lemma_unit_inverse(a.value as int, n);
        lemma_coprime_mod(x as int, n);
        lemma_mod_bound(x as int, n);
    }

    proof fn lemma_associative(&self, a: &ZnMulElement, b: &ZnMulElement, c: &ZnMulElement) {
        let n = self.n as int;
        lemma_unit_product(a.value as int, b.value as int, n);
        lemma_unit_product(b.value as int, c.value as int, n);
        lemma_mul_mod_associative(a.value as int, b.value as int, c.value as int, n);
    }

    proof fn lemma_identity(&self, a: &ZnMulElement) {
        lemma_identity_unit(self.n as int);
        lemma_mul_mod_identity(a.value as int, self.n as int);
    }

    proof fn lemma_inverse(&self, a: &ZnMulElement) {
        lemma_identity_unit(self.n as int);
        lemma_unit_inverse(a.value as int, self.n as int);
    }
}

impl Finite for ZnMul {
    open spec fn order_spec(&self) -> nat {
        totient(self.n as int)
    }

    fn order(&self) -> (t: usize) {
        euler_totient(self.n)
    }

    proof fn lemma_order_counts(&self) {
        let n = self.n as int;
        let f = |v: int| ZnMulElement { value: v as usize, group: *self };
        lemma_coprime_residues_count(n, 0, n);
        assert forall|e: ZnMulElement| elements(self).contains(e) implies units(n).map(
            f,
        ).contains(e) by {
            assert(units(n).contains(e.value as int) && f(e.value as int) == e);
        }
        assert(units(n).map(f) =~= elements(self));
        lemma_map_size(units(n), elements(self), f);
    }

    proof fn lemma_order_divides(&self, e: &ZnMulElement, k: nat) {
        let n = self.n as int;
        let v = e.value as int;
        self.lemma_order_value(e, k);
        lemma_element_order(v, n);
        lemma_element_order_unique(v, n, k, element_order(v, n));
        lemma_order_divides_totient(v, n);
    }
}

impl GroupElement for ZnMulElement {
    type Group = ZnMul;

    open spec fn group_spec(&self) -> ZnMul {
        self.group
    }

    /// Multiplies the element by itself until the identity comes up, and
    /// counts. The count cannot pass the order of the group: by then some
    /// power has come back to the identity.
    fn order(&self) -> (k: usize) {
        let identity = self.group.identity();
        let total = self.group.order();
        let mut pow = *self;
        let mut k: usize = 1;
        proof {
            let n = self.group.n as int;
            lemma_power_returns(self.value as int, n);
            let w = choose|w: nat|
                1 <= w <= totient(n) && #[trigger] power_mod(self.value as int, w, n) == 1int
                    % n;
            self.group.lemma_power_value(self, w);
            self.group.lemma_power_value(self, 1);
            lemma_power_one(self.value as int, n);
            lemma_identity_unit(n);
        }
        while pow != identity
            invariant
                self.group.valid(),
                self.group.contains(self),
                self.group.contains(&pow),
                identity == self.group.identity_spec(),
                total == totient(self.group.n as int),
                1 <= k <= total,
                pow == power(&self.group, self, k as nat),
                forall|j: nat|
                    1 <= j < k ==> #[trigger] power(&self.group, self, j)
                        != self.group.identity_spec(),
                exists|w: nat|
                    1 <= w <= total && #[trigger] power(&self.group, self, w)
                        == self.group.identity_spec(),
            decreases total - k,
        {
            proof {
                self.group.lemma_closed(&pow, self, 0);
            }
            pow = self.group.op(&pow, self);
            k += 1;
        }
        k
    }

    fn subgroup(&self) -> (s: Vec<Self>) {
        self.group.subgroup(self)
    }
}

impl std::ops::Mul for ZnMulElement {
    type Output = Self;

    /// The product of two elements of one group.
    fn mul(self, rhs: Self) -> (c: Self) {
        self.group.op(&self, &rhs)
    }
}

impl vstd::std_specs::ops::MulSpecImpl for ZnMulElement {
    open spec fn obeys_mul_spec() -> bool {
        true
    }

    open spec fn mul_req(self, rhs: Self) -> bool {
        self.group.valid() && self.group.contains(&self) && self.group.contains(&rhs)
    }

    open spec fn mul_spec(self, rhs: Self) -> Self {
        self.group.op_spec(&self, &rhs)
    }
}

impl std::ops::Neg for ZnMulElement {
    type Output = Self;

    /// The inverse of the element in its group.
    fn neg(self) -> (c: Self) {
        self.group.inv(&self)
    }
}

impl vstd::std_specs::ops::NegSpecImpl for ZnMulElement {
    open spec fn obeys_neg_spec() -> bool {
        true
    }

    open spec fn neg_req(self) -> bool {
        self.group.valid() && self.group.contains(&self)
    }

    open spec fn neg_spec(self) -> Self {
        self.group.inv_spec(&self)
    }
}

/// An enumeration of the units of a group in ascending order.
pub struct ZnMulIterator {
    candidate: usize,
    group: ZnMul,
    yielded: usize,
    total: usize,
}

impl ZnMulIterator {
    /// The group whose units are enumerated.
    pub closed spec fn group(&self) -> ZnMul {
        self.group
    }

    /// The least number that has not been looked at yet.
    pub closed spec fn position(&self) -> int {
        self.candidate as int
    }

    /// The enumeration has counted what it has yielded, and knows how many
    /// units there are.
    pub closed spec fn wf(&self) -> bool {
        &&& self.group.n <= isize::MAX
        &&& 1 <= self.candidate
        &&& self.candidate <= self.group.n || self.candidate == 1
        &&& self.total == totient(self.group.n as int)
        &&& self.yielded == coprime_residues(
            self.group.n as int,
            1,
            self.candidate as int,
        ).len()
    }

    /// Yields the next unit: the least one from `position()` on, if there
    /// is one below the modulus.
    pub fn next(&mut self) -> (r: Option<ZnMulElement>)
        requires
            old(self).wf(),
        ensures
            final(self).wf(),
            final(self).group() == old(self).group(),
            match r {
                Some(e) => {
                    &&& old(self).group().contains(&e)
                    &&& old(self).position() <= e.value
                    &&& final(self).position() == e.value + 1
                    &&& forall|v: int|
                        old(self).position() <= v < e.value ==> !coprime(
                            v,
                            old(self).group().n as int,
                        )
                },
                None => {
                    &&& final(self).position() == (if old(self).position() < old(
                        self,
                    ).group().n {
                        old(self).group().n as int
                    } else {
                        old(self).position()
                    })
                    &&& forall|v: int|
                        old(self).position() <= v < old(self).group().n ==> !coprime(
                            v,
                            old(self).group().n as int,
                        )
                },
            },
    {
        while self.candidate < self.group.n
            invariant
                self.wf(),
                self.group == old(self).group,
                self.candidate >= old(self).candidate,
                forall|v: int|
                    old(self).candidate <= v < self.candidate ==> !coprime(
                        v,
                        self.group.n as int,
                    ),
            decreases self.group.n - self.candidate,
        {
            proof {
                lemma_coprime_residues_extend(self.group.n as int, 1, self.candidate as int);
                lemma_small_mod(self.candidate as nat, self.group.n as nat);
            }
            if let Some(el) = self.group.element(self.candidate) {
                self.candidate += 1;
                self.yielded += 1;
                return Some(el);
            }
            self.candidate += 1;
        }
        None
    }

    /// How many units the enumeration counts as not yet yielded: the number
    /// of units of the group less the units passed.
    ///
    /// From modulus two on these are the units that `next` will still yield.
    pub fn len(&self) -> (l: usize)
        requires
            self.wf(),
        ensures
            l == totient(self.group().n as int) - coprime_residues(
                self.group().n as int,
                1,
                self.position(),
            ).len(),
            self.group().n >= 2 ==> l == coprime_residues(
                self.group().n as int,
                self.position(),
                self.group().n as int,
            ).len(),
    {
        proof {
            let n = self.group.n as int;
            let c = self.candidate as int;
            lemma_coprime_residues_count(n, 1, c);
            lemma_coprime_residues_count(n, c, n);
            lemma_coprime_residues_count(n, 1, n);
            if n >= 2 {
                lemma_units_from_one(n);
                crate::counting::lemma_count_split(crate::totient::coprime_to(n), 1, c, n);
            } else if n == 1 {
                crate::totient::lemma_totient_small();
                assert(coprime_residues(n, 1, c) =~= Set::<int>::empty());
            } else {
                assert(coprime_residues(n, 1, c) =~= Set::<int>::empty());
            }
        }
        self.total - self.yielded
    }
}

} // verus!
