use group::const_utils::const_gcd;
use group::ct;
use group::ct::{
    Group as StaticGroup, GroupElement as StaticGroupElement, GroupOrder, Zn, ZnElement,
};
use group::rt::{Finite, Group, GroupElement, ZnMul, ZnMulElement, ZnMulIterator};
use group::utils::euler_totient;

fn collect_values(mut it: ZnMulIterator) -> Vec<usize> {
    let mut values = Vec::new();
    while let Some(e) = it.next() {
        values.push(e.value);
    }
    values
}

#[test]
fn zn_mul_z_4() {
    let g = ZnMul::new(4);
    let id = g.identity();
    assert!(ZnMul::new(4).element(2).is_none());
    assert!(ZnMul::new(4).element(1).is_some());
    assert!(ZnMul::new(4).element(3).is_some());

    assert_eq!(g.order(), 2);
    assert_eq!(ZnMul::new(4).element(1).unwrap().order(), 1);
    assert_eq!(ZnMul::new(4).element(3).unwrap().order(), 2);

    let elements: Vec<usize> = collect_values(g.iter());
    assert_eq!(elements, vec![1, 3]);
    assert_eq!(id.value, 1);

    let id = <ct::ZnMul<4> as StaticGroup>::identity();
    assert!(ct::ZnMulElement::<4>::new(2).is_none());
    assert!(ct::ZnMulElement::<4>::new(1).is_some());
    assert_eq!(id.value, 1);
}

#[test]
fn z_4() {
    let id = <ct::ZnMul<4> as StaticGroup>::identity();
    assert!(ct::ZnMulElement::<4>::new(2).is_none());
    assert!(ct::ZnMulElement::<4>::new(1).is_some());
    assert_eq!(id, ct::ZnMulElement::<4>::new(1).unwrap());

    let g = ZnMul::new(4);
    let id = g.identity();
    assert!(ZnMul::new(4).element(2).is_none());
    assert!(ZnMul::new(4).element(1).is_some());
    assert!(ZnMul::new(4).element(3).is_some());

    assert_eq!(g.order(), 2);
    assert_eq!(ZnMul::new(4).element(1).unwrap().order(), 1);
    assert_eq!(ZnMul::new(4).element(3).unwrap().order(), 2);

    let elements: Vec<usize> = collect_values(g.iter());
    assert_eq!(elements, vec![1, 3]);
    assert_eq!(id, ZnMulElement::new(1, &g).unwrap());
}

#[test]
fn units_modulo_eight() {
    let g = ZnMul::new(8);
    assert_eq!(collect_values(g.iter()), vec![1, 3, 5, 7]);
    assert_eq!(g.order(), 4);
}

#[test]
fn element_is_reduced() {
    let g = ZnMul::new(8);
    assert_eq!(g.element(7).unwrap().value, 7);
    assert_eq!(g.element(15).unwrap().value, 7);
    assert_eq!(ZnMulElement::new(9, &g).unwrap().value, 1);
    assert!(g.element(8).is_none());
    assert!(g.element(0).is_none());
    assert_eq!(ct::ZnMulElement::<8>::new(15).unwrap().value, 7);
    assert_eq!(ZnElement::<7>::new(12).value, 5);
}

#[test]
fn multiplication_and_inverse() {
    let g = ZnMul::new(26);
    let a = g.element(7).unwrap();
    let b = g.element(15).unwrap();
    assert_eq!(g.op(&a, &b), g.identity());
    assert_eq!(g.inv(&a), b);
    assert_eq!(a * b, g.identity());
    assert_eq!(-a, b);
    let c = g.element(5).unwrap();
    assert_eq!(g.op(&a, &c).value, 9);
    assert_eq!((a * c).value, 9);
}

#[test]
fn multiplication_does_not_overflow() {
    let n: usize = isize::MAX as usize;
    let g = ZnMul::new(n);
    let a = g.element(n - 1).unwrap();
    assert_eq!(g.op(&a, &a).value, 1);
    assert_eq!(g.inv(&a).value, n - 1);
}

#[test]
fn group_axioms_modulo_thirty() {
    let g = ZnMul::new(30);
    let units: Vec<ZnMulElement> = (0..30).filter_map(|v| g.element(v)).collect();
    assert_eq!(units.len(), 8);
    let id = g.identity();
    for a in units.iter() {
        assert_eq!(g.op(&id, a), *a);
        assert_eq!(g.op(a, &id), *a);
        assert_eq!(g.op(a, &g.inv(a)), id);
        assert_eq!(g.op(&g.inv(a), a), id);
        for b in units.iter() {
            assert!(units.contains(&g.op(a, b)));
            for c in units.iter() {
                assert_eq!(g.op(&g.op(a, b), c), g.op(a, &g.op(b, c)));
            }
        }
    }
}

#[test]
fn order_divides_group_order() {
    for n in 1usize..80 {
        let g = ZnMul::new(n);
        let total = g.order();
        assert_eq!(total, euler_totient(n));
        for v in 0..n {
            if let Some(e) = g.element(v) {
                let k = e.order();
                assert!(k >= 1);
                assert_eq!(total % k, 0);
            }
        }
    }
}

#[test]
fn order_is_the_least_exponent() {
    let g = ZnMul::new(7);
    let orders: Vec<usize> = (1..7).map(|v| g.element(v).unwrap().order()).collect();
    assert_eq!(orders, vec![1, 3, 6, 3, 6, 2]);
}

#[test]
fn subgroup_ends_in_identity() {
    for n in 1usize..60 {
        let g = ZnMul::new(n);
        for v in 0..n {
            if let Some(e) = g.element(v) {
                let s = e.subgroup();
                assert_eq!(s.len(), e.order());
                assert_eq!(*s.last().unwrap(), g.identity());
                assert_eq!(s[0], e);
                assert_eq!(g.subgroup(&e), s);
            }
        }
    }
}

#[test]
fn subgroup_lists_the_powers() {
    let g = ZnMul::new(7);
    let values: Vec<usize> = g.element(3).unwrap().subgroup().iter().map(|e| e.value).collect();
    assert_eq!(values, vec![3, 2, 6, 4, 5, 1]);
    let values: Vec<usize> = g.element(2).unwrap().subgroup().iter().map(|e| e.value).collect();
    assert_eq!(values, vec![2, 4, 1]);
}

#[test]
fn enumeration_reports_its_length() {
    let g = ZnMul::new(15);
    let mut it = g.iter();
    let mut expected = 8;
    assert_eq!(it.len(), expected);
    while let Some(e) = it.next() {
        expected -= 1;
        assert_eq!(it.len(), expected);
        assert_eq!(const_gcd(e.value, 15), 1);
    }
    assert_eq!(it.len(), 0);
    assert!(it.next().is_none());
    assert_eq!(collect_values(g.iter()), vec![1, 2, 4, 7, 8, 11, 13, 14]);
    assert_eq!(collect_values(g.iter()), vec![1, 2, 4, 7, 8, 11, 13, 14]);
}

#[test]
fn enumeration_of_small_groups() {
    assert_eq!(collect_values(ZnMul::new(0).iter()), Vec::<usize>::new());
    assert_eq!(collect_values(ZnMul::new(1).iter()), Vec::<usize>::new());
    assert_eq!(collect_values(ZnMul::new(2).iter()), vec![1]);
    assert_eq!(ZnMul::new(0).iter().len(), 0);
    assert_eq!(ZnMul::new(1).iter().len(), 1);
    assert_eq!(ZnMul::new(2).iter().len(), 1);
}

#[test]
fn trivial_group_modulo_one() {
    let g = ZnMul::new(1);
    let id = g.identity();
    assert_eq!(id.value, 0);
    assert_eq!(g.order(), 1);
    assert_eq!(id.order(), 1);
    assert_eq!(g.element(5), Some(id));
    assert_eq!(id.subgroup(), vec![id]);
}

#[test]
fn additive_identity_is_neutral() {
    let id = <Zn<9> as StaticGroup>::identity();
    assert_eq!(id.value, 0);
    for v in 0..9 {
        let e = ZnElement::<9>::new(v);
        assert_eq!(e.value, v);
        assert_eq!(<Zn<9> as StaticGroup>::op(&id, &e), e);
        assert_eq!(<Zn<9> as StaticGroup>::op(&e, &id), e);
    }
}

#[test]
fn additive_group_operations() {
    let a = ZnElement::<7>::new(5);
    let b = ZnElement::<7>::new(4);
    assert_eq!(<Zn<7> as StaticGroup>::op(&a, &b).value, 2);
    assert_eq!((a + b).value, 2);
    assert_eq!(<Zn<7> as StaticGroup>::inv(&a).value, 2);
    assert_eq!((-a).value, 2);
    assert_eq!(<Zn<7> as StaticGroup>::inv(&ZnElement::<7>::new(0)).value, 0);
    let zero = ZnElement::<1>::new(3);
    assert_eq!(<Zn<1> as StaticGroup>::op(&zero, &ZnElement::<1>::new(4)).value, 0);
    let top = ZnElement::<{ usize::MAX }>::new(usize::MAX - 1);
    assert_eq!((top + top).value, usize::MAX - 2);
}

#[test]
fn additive_inverses_cancel() {
    let id = <Zn<12> as StaticGroup>::identity();
    for v in 0..12 {
        let e = ZnElement::<12>::new(v);
        let inverse = <Zn<12> as StaticGroup>::inv(&e);
        assert_eq!(<Zn<12> as StaticGroup>::op(&e, &inverse), id);
    }
}

#[test]
fn static_group_matches_the_runtime_group() {
    let g = ZnMul::new(20);
    assert_eq!(<ct::ZnMul<20> as GroupOrder>::order(), g.order());
    for v in 0usize..40 {
        let here = ct::ZnMulElement::<20>::new(v);
        let there = g.element(v);
        assert_eq!(here.is_some(), there.is_some());
        if let (Some(a), Some(b)) = (here, there) {
            assert_eq!(a.value, b.value);
            assert_eq!(StaticGroupElement::order(&a), b.order());
            assert_eq!(<ct::ZnMul<20> as StaticGroup>::inv(&a).value, g.inv(&b).value);
            assert_eq!((a * a).value, (b * b).value);
            assert_eq!((-a).value, (-b).value);
        }
    }
}

#[test]
fn static_order_divides_group_order() {
    let total = <ct::ZnMul<36> as GroupOrder>::order();
    assert_eq!(total, 12);
    for v in 0usize..36 {
        if let Some(e) = ct::ZnMulElement::<36>::new(v) {
            assert_eq!(total % StaticGroupElement::order(&e), 0);
        }
    }
}
