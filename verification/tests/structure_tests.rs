use bagalstreatcrab::algebraic_objects::{
    Group, GroupLike, GroupT, HasSet, Magma, MagmaT, Monoid, MonoidT, Quasigroup, QuasigroupT,
    Semigroup, SemigroupT, WithCarrier,
};
use bagalstreatcrab::closure::{generate, generate_group};
use bagalstreatcrab::errors::AlgebraError;
use bagalstreatcrab::mod_ints::{U32CoprimeMod, U32Mod};
use bagalstreatcrab::ops::{ADD, MUL, OP};
use bagalstreatcrab::permutations::Permutation;
use bagalstreatcrab::set::{Cardinality, FiniteSet, PredicateSet, SetT, SmallSet, UniversalSet, Universe};
use std::rc::Rc;

#[test]
#[allow(non_snake_case)]
fn test_order() {
    let G = Group::<ADD, u8, _>::new_unchecked(Rc::new(UniversalSet::new(Cardinality::Finite(256))));
    let _H = Group::<ADD, u8, _>::new_unchecked(Rc::new(SmallSet::new(vec![0, 128])));

    assert!(G.order_of_element(0) == 1);
    assert!(G.order_of_element(128) == 2);
    assert!(G.order_of_element(1) == 256);
    assert!(G.order_of_element(2) == 128);
    assert!(G.order_of_element(3) == 256);
    assert!(G.order_of_element(4) == 64);
}

fn gcd(a: usize, b: usize) -> usize {
    if b == 0 {
        a
    } else {
        gcd(b, a % b)
    }
}

#[test]
fn order_of_every_byte_follows_the_gcd() {
    let group = Group::<ADD, u8, _>::new_unchecked(Rc::new(Universe::new(Cardinality::Finite(256))));
    for k in 1..=255u8 {
        assert_eq!(group.order_of_element(k), 256 / gcd(k as usize, 256));
    }
    assert_eq!(group.order_of_element(0), 1);
}

#[test]
fn order_of_a_residue() {
    let group = Group::<ADD, U32Mod<12>, _>::new_unchecked(Rc::new(Universe::new(Cardinality::Finite(12))));
    assert_eq!(group.order_of_element(U32Mod(8)), 3);
    assert_eq!(group.order_of_element(U32Mod(5)), 12);
    let units = Group::<MUL, U32CoprimeMod<7>, _>::new_unchecked(Rc::new(Universe::new(Cardinality::Finite(6))));
    assert_eq!(units.order_of_element(U32CoprimeMod::new(3).unwrap()), 6);
    assert_eq!(units.order_of_element(U32CoprimeMod::new(2).unwrap()), 3);
    assert_eq!(units.order_of_element(U32CoprimeMod::new(1).unwrap()), 1);
}

#[test]
fn group_order_is_the_size_of_the_carrier() {
    let group = Group::<ADD, u8, _>::new_unchecked(Rc::new(Universe::new(Cardinality::Finite(256))));
    assert!(matches!(group.order(), Ok(Cardinality::Finite(256))));
    let small = Group::<ADD, u8, _>::new_unchecked(Rc::new(FiniteSet::new(vec![0u8, 128])));
    assert!(matches!(small.order(), Ok(Cardinality::Finite(2))));
    let open = Group::<ADD, u8, _>::new_unchecked(Rc::new(PredicateSet::new(|x: u8| x % 2 == 0, None)));
    assert_eq!(open.order().err(), Some(AlgebraError::CardinalityUnresolved));
}

#[test]
fn validated_construction_asks_for_the_identity() {
    let with = Rc::new(FiniteSet::new(vec![0u8, 128]));
    let without = Rc::new(FiniteSet::new(vec![1u8, 2]));
    assert!(Group::<ADD, u8, _>::try_new(with.clone()).is_ok());
    assert_eq!(Group::<ADD, u8, _>::try_new(without.clone()).err(), Some(AlgebraError::MissingIdentity));
    assert!(Monoid::<ADD, u8, _>::try_new(with.clone()).is_ok());
    assert_eq!(Monoid::<ADD, u8, _>::try_new(without.clone()).err(), Some(AlgebraError::MissingIdentity));
    assert_eq!(Monoid::<MUL, u8, _>::try_new(with.clone()).err(), Some(AlgebraError::MissingIdentity));
    assert!(Monoid::<MUL, u8, _>::try_new(without.clone()).is_ok());
    assert!(Magma::<ADD, u8, _>::try_new(without.clone()).is_ok());
    assert!(Semigroup::<ADD, u8, _>::try_new(without.clone()).is_ok());
    assert!(Quasigroup::<ADD, u8, _>::try_new(without.clone()).is_ok());
    let unchecked = Group::<ADD, u8, _>::new_unchecked(without);
    assert!(!unchecked.get_set().contains(&0));
}

#[test]
fn subset_test_is_strict_in_size() {
    let g = Group::<ADD, u8, _>::new_unchecked(Rc::new(Universe::new(Cardinality::Finite(256))));
    let h = Group::<ADD, u8, _>::new_unchecked(Rc::new(FiniteSet::new(vec![0u8, 128])));
    let k = Group::<ADD, u8, _>::new_unchecked(Rc::new(FiniteSet::new(vec![0u8, 64, 128, 192])));
    let odd = Group::<ADD, u8, _>::new_unchecked(Rc::new(FiniteSet::new(vec![1u8])));
    assert_eq!(h.is_subset_of(&g), Ok(true));
    assert_eq!(h.is_subset_of(&k), Ok(true));
    assert_eq!(k.is_subset_of(&h), Ok(false));
    assert_eq!(h.is_subset_of(&h), Ok(false));
    assert_eq!(odd.is_subset_of(&h), Ok(false));
    assert_eq!(g.is_subset_of(&h), Ok(false));
    let inf = Group::<ADD, u8, _>::new_unchecked(Rc::new(Universe::new(Cardinality::Infinite)));
    assert_eq!(g.is_subset_of(&inf), Err(AlgebraError::NotEnumerable));
    assert_eq!(inf.is_subset_of(&inf), Ok(false));
    let open = Group::<ADD, u8, _>::new_unchecked(Rc::new(PredicateSet::new(|x: u8| x % 2 == 0, None)));
    assert_eq!(h.is_subset_of(&open), Err(AlgebraError::CardinalityUnresolved));
    assert_eq!(open.is_subset_of(&g), Err(AlgebraError::CardinalityUnresolved));
}

#[test]
fn substructure_tests_follow_the_subset_test() {
    let g = Group::<ADD, u8, _>::new_unchecked(Rc::new(Universe::new(Cardinality::Finite(256))));
    let h = Group::<ADD, u8, _>::new_unchecked(Rc::new(FiniteSet::new(vec![0u8, 128])));
    let odd = Group::<ADD, u8, _>::new_unchecked(Rc::new(FiniteSet::new(vec![1u8, 3, 5])));
    assert_eq!(h.is_submagma_of(&g), Ok(true));
    assert_eq!(h.is_subsemigroup_of(&g), Ok(true));
    assert_eq!(h.is_submonoid_of(&g), Ok(true));
    assert_eq!(h.is_subgroup_of(&g), Ok(true));
    assert_eq!(h.is_subgroup_of(&odd), Ok(false));
    assert_eq!(h.is_submagma_of(&odd), Ok(false));
    let one = Group::<ADD, u8, _>::new_unchecked(Rc::new(FiniteSet::new(vec![1u8])));
    assert_eq!(one.is_submagma_of(&odd), Ok(true));
    assert_eq!(one.is_submonoid_of(&odd), Ok(false));
    assert_eq!(one.is_subgroup_of(&odd), Ok(false));
    let q = Quasigroup::<ADD, u8, _>::new_unchecked(Rc::new(FiniteSet::new(vec![0u8, 128])));
    assert_eq!(q.is_subquasigroup_of(&g), Ok(true));
}

#[test]
fn structures_convert_over_the_same_carrier() {
    let h = Group::<ADD, u8, _>::new_unchecked(Rc::new(FiniteSet::new(vec![0u8, 128])));
    assert!(h.as_magma().get_set().contains(&128));
    assert!(h.as_semigroup().get_set().contains(&128));
    assert!(h.as_monoid().get_set().contains(&128));
    assert!(h.as_group().get_set().contains(&128));
    assert!(!h.as_group().get_set().contains(&1));
    let q = Quasigroup::<ADD, u8, _>::new_unchecked(Rc::new(FiniteSet::new(vec![0u8, 128])));
    assert!(q.as_quasigroup().get_set().contains(&0));
}

#[test]
fn divisibility_is_searched_in_the_carrier() {
    let q = Quasigroup::<ADD, u8, _>::new_unchecked(Rc::new(FiniteSet::new(vec![0u8, 64, 128, 192])));
    assert_eq!(q.test_divisibility(64, 0), Ok(true));
    assert_eq!(q.test_divisibility(64, 128), Ok(true));
    assert_eq!(q.test_divisibility(64, 1), Ok(false));
    assert_eq!(q.test_divisibility(1, 2), Ok(false));
    assert_eq!(q.test_divisibility(1, 129), Ok(true));
    let all = Quasigroup::<ADD, u8, _>::new_unchecked(Rc::new(Universe::new(Cardinality::Finite(256))));
    assert_eq!(all.test_divisibility(1, 2), Err(AlgebraError::NotEnumerable));
}

fn sorted(set: &FiniteSet<u8>) -> Vec<u8> {
    let mut v: Vec<u8> = set.iter().unwrap().into_iter().copied().collect();
    v.sort();
    v
}

#[test]
fn generators_give_their_closure() {
    let gens = Rc::new(FiniteSet::new(vec![64u8]));
    let magma = Magma::<ADD, u8, _>::new_from_generators(gens.clone(), 256).unwrap();
    assert_eq!(sorted(&magma.get_set()), vec![0, 64, 128, 192]);
    let group = Group::<ADD, u8, _>::new_from_generators(gens.clone(), 256).unwrap();
    assert_eq!(sorted(&group.get_set()), vec![0, 64, 128, 192]);
    let semigroup = Semigroup::<MUL, u8, _>::new_from_generators(Rc::new(FiniteSet::new(vec![2u8])), 256).unwrap();
    assert_eq!(sorted(&semigroup.get_set()), vec![0, 2, 4, 8, 16, 32, 64, 128]);
    let monoid = Monoid::<MUL, u8, _>::new_from_generators(Rc::new(FiniteSet::new(vec![2u8])), 256).unwrap();
    assert_eq!(sorted(&monoid.get_set()), vec![0, 1, 2, 4, 8, 16, 32, 64, 128]);
    let quasi = Quasigroup::<ADD, u8, _>::new_from_generators(Rc::new(FiniteSet::new(vec![128u8])), 256).unwrap();
    assert_eq!(sorted(&quasi.get_set()), vec![0, 128]);
    let empty_group = Group::<ADD, u8, _>::new_from_generators(Rc::new(FiniteSet::new(vec![])), 256).unwrap();
    assert_eq!(sorted(&empty_group.get_set()), vec![0]);
    let empty_magma = Magma::<ADD, u8, _>::new_from_generators(Rc::new(FiniteSet::new(vec![])), 0).unwrap();
    assert_eq!(sorted(&empty_magma.get_set()), Vec::<u8>::new());
    let whole = Group::<ADD, u8, _>::new_from_generators(Rc::new(FiniteSet::new(vec![3u8])), 256).unwrap();
    assert!(matches!(whole.order(), Ok(Cardinality::Finite(256))));
}

#[test]
fn generators_fail_beyond_the_bound_or_without_a_list() {
    let gens = Rc::new(FiniteSet::new(vec![64u8]));
    assert_eq!(Group::<ADD, u8, _>::new_from_generators(gens.clone(), 3).err(), Some(AlgebraError::ClosureTooLarge));
    assert!(Group::<ADD, u8, _>::new_from_generators(gens.clone(), 4).is_ok());
    assert_eq!(Magma::<ADD, u8, _>::new_from_generators(gens.clone(), 0).err(), Some(AlgebraError::ClosureTooLarge));
    let all = Rc::new(Universe::<u8>::new(Cardinality::Finite(256)));
    assert_eq!(Group::<ADD, u8, _>::new_from_generators(all.clone(), 256).err(), Some(AlgebraError::NotEnumerable));
    assert_eq!(Monoid::<ADD, u8, _>::new_from_generators(all, 256).err(), Some(AlgebraError::NotEnumerable));
}

#[test]
fn permutations_generate_the_symmetric_group() {
    let swap = Permutation::<3>::new_from_disjoint(vec![vec![1, 2]]);
    let turn = Permutation::<3>::new_from_disjoint(vec![vec![1, 2, 3]]);
    let list = generate_group::<OP<1>, Permutation<3>>(vec![swap.clone(), turn.clone()], 6).unwrap();
    assert_eq!(list.len(), 6);
    let only_turn = generate_group::<OP<1>, Permutation<3>>(vec![turn.clone()], 6).unwrap();
    assert_eq!(only_turn.len(), 3);
    let plain = generate::<OP<1>, Permutation<3>>(vec![swap], 6).unwrap();
    assert_eq!(plain.len(), 2);
    assert!(generate_group::<OP<1>, Permutation<3>>(vec![turn], 2).is_err());
}
