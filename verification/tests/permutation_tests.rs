use bagalstreatcrab::algebraic_objects::{GroupT, WithCarrier};
use bagalstreatcrab::ops::{Associative, Identity, Inverse, Op, OP};
use bagalstreatcrab::permutations::{
    check_disjoint_cycles, identity_vec, symmetric_group, IdentityCache, Permutation,
};
use bagalstreatcrab::set::{Cardinality, SetT};

fn perm4(v: Vec<usize>) -> Permutation<4> {
    Permutation::<4>::try_new(v).unwrap()
}

#[test]
fn cycle_of_five_on_six_points_has_order_five() {
    let r = Permutation::<6>::new_from_disjoint(vec![vec![1, 3, 4, 5, 6]]);
    let s = Permutation::<6>::new_from_disjoint(vec![vec![1, 3, 2]]);
    let group = symmetric_group::<6>();
    assert!(group.get_set().contains(&r));
    assert!(group.get_set().contains(&s));
    assert!(group.order_of_element(r) == 5);
    assert!(group.order_of_element(s) == 3);
}

#[test]
fn symmetric_group_has_factorial_order() {
    assert!(matches!(symmetric_group::<6>().order(), Ok(Cardinality::Finite(720))));
    assert!(matches!(symmetric_group::<0>().order(), Ok(Cardinality::Finite(1))));
    assert!(matches!(symmetric_group::<1>().order(), Ok(Cardinality::Finite(1))));
    assert!(matches!(symmetric_group::<4>().order(), Ok(Cardinality::Finite(24))));
}

#[test]
fn cycles_give_the_expected_mapping() {
    let r = Permutation::<6>::new_from_disjoint(vec![vec![1, 3, 4, 5, 6]]);
    assert!(r == Permutation::<6>::try_new(vec![2, 1, 3, 4, 5, 0]).unwrap());
    let s = Permutation::<6>::new_from_disjoint(vec![vec![1, 3, 2]]);
    assert!(s == Permutation::<6>::try_new(vec![2, 0, 1, 3, 4, 5]).unwrap());
    let two = Permutation::<6>::new_from_disjoint(vec![vec![1, 2], vec![4, 6, 5]]);
    assert!(two == Permutation::<6>::try_new(vec![1, 0, 2, 5, 3, 4]).unwrap());
    let none = Permutation::<3>::new_from_disjoint(vec![]);
    assert!(none == <Permutation<3> as Identity<OP<1>>>::identity());
    let fixed = Permutation::<3>::new_from_disjoint(vec![vec![2], vec![]]);
    assert!(fixed == <Permutation<3> as Identity<OP<1>>>::identity());
}

#[test]
fn disjointness_of_cycles_is_checked() {
    assert!(check_disjoint_cycles(&vec![vec![1, 3, 4, 5, 6]], 6));
    assert!(check_disjoint_cycles(&vec![vec![1, 2], vec![4, 6, 5]], 6));
    assert!(check_disjoint_cycles(&vec![], 0));
    assert!(!check_disjoint_cycles(&vec![vec![1, 2], vec![2, 3]], 6));
    assert!(!check_disjoint_cycles(&vec![vec![1, 2, 1]], 6));
    assert!(!check_disjoint_cycles(&vec![vec![0, 1]], 6));
    assert!(!check_disjoint_cycles(&vec![vec![1, 7]], 6));
}

#[test]
fn validated_construction_rejects_what_is_no_permutation() {
    assert!(Permutation::<3>::try_new(vec![0, 1, 2]).is_ok());
    assert!(Permutation::<3>::try_new(vec![2, 0, 1]).is_ok());
    assert!(Permutation::<0>::try_new(vec![]).is_ok());
    assert!(Permutation::<3>::try_new(vec![0, 1]).is_err());
    assert!(Permutation::<3>::try_new(vec![0, 1, 2, 3]).is_err());
    assert!(Permutation::<3>::try_new(vec![0, 1, 3]).is_err());
    assert!(Permutation::<3>::try_new(vec![0, 1, 1]).is_err());
}

#[test]
fn unchecked_construction_keeps_the_mapping() {
    let p = Permutation::<3>::new_unchecked(vec![1, 2, 0]);
    assert!(p == Permutation::<3>::try_new(vec![1, 2, 0]).unwrap());
    assert!(p != Permutation::<3>::try_new(vec![0, 1, 2]).unwrap());
}

#[test]
fn composition_applies_self_then_other() {
    let a = perm4(vec![1, 2, 3, 0]);
    let b = perm4(vec![0, 2, 1, 3]);
    assert!(a.op(b.clone()) == perm4(vec![2, 1, 3, 0]));
    assert!(b.op(a.clone()) == perm4(vec![1, 3, 2, 0]));
}

#[test]
fn composition_regroups() {
    let a = perm4(vec![1, 2, 3, 0]);
    let b = perm4(vec![0, 2, 1, 3]);
    let c = perm4(vec![3, 2, 1, 0]);
    assert!(a.op(b.clone()).op(c.clone()) == a.op(b.op(c)));
}

#[test]
fn inverse_undoes_a_permutation() {
    let a = perm4(vec![2, 0, 3, 1]);
    let inv = a.inverse();
    assert!(inv == perm4(vec![1, 3, 0, 2]));
    let id = <Permutation<4> as Identity<OP<1>>>::identity();
    assert!(inv.op(a.clone()) == id);
    assert!(a.op(inv.clone()) == id);
    assert!(inv.inverse() == a);
}

#[test]
fn identity_mapping_counts_up() {
    assert_eq!(identity_vec(0), Vec::<usize>::new());
    assert_eq!(identity_vec(4), vec![0, 1, 2, 3]);
    let id = <Permutation<4> as Identity<OP<1>>>::identity();
    assert!(id == perm4(vec![0, 1, 2, 3]));
}

#[test]
fn cache_keeps_one_mapping_per_size() {
    let mut cache = IdentityCache::new();
    let first = cache.identity_for(5);
    let second = cache.identity_for(5);
    assert_eq!(*first, vec![0, 1, 2, 3, 4]);
    assert!(std::sync::Arc::ptr_eq(&first, &second));
    let other = cache.identity_for(2);
    assert_eq!(*other, vec![0, 1]);
    let p = Permutation::<5>::identity_cached(&mut cache);
    assert!(p == <Permutation<5> as Identity<OP<1>>>::identity());
}

#[test]
fn clone_is_equal() {
    let a = perm4(vec![2, 0, 3, 1]);
    assert!(a.clone() == a);
}

#[test]
fn universal_carrier_of_the_symmetric_group() {
    let group = symmetric_group::<3>();
    let set = group.get_set();
    assert!(set.contains(&Permutation::<3>::new_unchecked(vec![0, 0, 0])));
    assert!(!set.is_empty());
}
