use bagalstreatcrab::errors::AlgebraError;
use bagalstreatcrab::set::cardinality::decimal_text;
use bagalstreatcrab::set::{Cardinality, FiniteSet, PredicateSet, SetT, SmallSet, UniversalSet, Universe};
use std::cmp::Ordering;
use std::collections::HashSet;

#[test]
fn test_small_set() {
    let set = FiniteSet::new(vec![1, 2, 3]);
    assert!(set.contains(&1));
    assert!(!set.contains(&4));
}

#[test]
fn test_predicate_set() {
    let set = PredicateSet::new(Box::new(|x: i32| x % 2 == 0), Some(false));
    assert!(set.contains(&2));
    assert!(!set.contains(&3));
}

#[test]
fn test_hash_set() {
    let mut set = HashSet::new();
    set.insert(1);
    set.insert(2);
    set.insert(3);
    assert!(SetT::contains(&set, &1));
    assert!(!SetT::contains(&set, &4));
}

#[test]
fn test_universe() {
    let set = UniversalSet::new(Cardinality::Infinite);
    assert!(set.contains(&1));
}

#[test]
fn finite_set_reports_its_length() {
    let set = SmallSet::new(vec![1, 2, 3]);
    assert!(set.contains(&1));
    assert!(!set.contains(&4));
    assert!(matches!(set.cardinality(), Ok(Cardinality::Finite(3))));
    assert!(!set.is_empty());
    let empty: FiniteSet<i32> = FiniteSet::new(vec![]);
    assert!(empty.is_empty());
    assert!(matches!(empty.cardinality(), Ok(Cardinality::Finite(0))));
    let twice = FiniteSet::new(vec![7u8, 7u8]);
    assert!(matches!(twice.cardinality(), Ok(Cardinality::Finite(2))));
}

#[test]
fn finite_set_lists_its_elements() {
    let set = FiniteSet::new(vec![5u8, 9u8]);
    let list = set.iter().unwrap();
    assert_eq!(list, vec![&5u8, &9u8]);
}

#[test]
fn universe_holds_every_value() {
    let bytes: Universe<u8> = Universe::new(Cardinality::Infinite);
    assert!(bytes.contains(&0));
    assert!(bytes.contains(&255));
    let wide: Universe<i64> = Universe::new(Cardinality::Finite(3));
    assert!(wide.contains(&i64::MIN));
    assert!(wide.contains(&i64::MAX));
    assert!(matches!(wide.cardinality(), Ok(Cardinality::Finite(3))));
    assert!(matches!(bytes.cardinality(), Ok(Cardinality::Infinite)));
    assert!(!wide.is_empty());
    assert_eq!(wide.iter().err(), Some(AlgebraError::NotEnumerable));
}

#[test]
fn predicate_set_does_not_know_its_size() {
    let set = PredicateSet::new(|x: u32| x > 10, None);
    assert!(set.contains(&11));
    assert!(!set.contains(&10));
    assert!(!set.is_empty());
    assert_eq!(set.cardinality().err(), Some(AlgebraError::CardinalityUnresolved));
    assert_eq!(set.iter().err(), Some(AlgebraError::NotEnumerable));
    let hinted = PredicateSet::new(|_x: u32| false, Some(true));
    assert!(hinted.is_empty());
}

#[test]
fn hash_set_as_carrier() {
    let mut set: HashSet<u32> = HashSet::new();
    assert!(SetT::is_empty(&set));
    set.insert(4);
    set.insert(8);
    assert!(!SetT::is_empty(&set));
    assert!(matches!(set.cardinality(), Ok(Cardinality::Finite(2))));
    let mut list: Vec<u32> = SetT::iter(&set).unwrap().into_iter().copied().collect();
    list.sort();
    assert_eq!(list, vec![4, 8]);
}

#[test]
fn cardinality_equality() {
    assert!(Cardinality::Finite(3) == Cardinality::Finite(3));
    assert!(Cardinality::Finite(3) != Cardinality::Finite(4));
    assert!(Cardinality::Finite(3) != Cardinality::Infinite);
    assert!(Cardinality::Infinite != Cardinality::Infinite);
}

#[test]
fn cardinality_order() {
    assert_eq!(Cardinality::Finite(1).partial_cmp(&Cardinality::Finite(2)), Some(Ordering::Less));
    assert_eq!(Cardinality::Finite(2).partial_cmp(&Cardinality::Finite(2)), Some(Ordering::Equal));
    assert_eq!(Cardinality::Finite(3).partial_cmp(&Cardinality::Finite(2)), Some(Ordering::Greater));
    assert_eq!(Cardinality::Infinite.partial_cmp(&Cardinality::Infinite), None);
    assert_eq!(Cardinality::Infinite.partial_cmp(&Cardinality::Finite(9)), Some(Ordering::Greater));
    assert_eq!(Cardinality::Finite(9).partial_cmp(&Cardinality::Infinite), Some(Ordering::Less));
    assert!(Cardinality::Finite(1) < Cardinality::Finite(2));
    assert!(Cardinality::Finite(1).is_below(&Cardinality::Finite(2)));
    assert!(!Cardinality::Finite(2).is_below(&Cardinality::Finite(2)));
    assert!(Cardinality::Finite(usize::MAX).is_below(&Cardinality::Infinite));
    assert!(!Cardinality::Infinite.is_below(&Cardinality::Infinite));
    assert!(!Cardinality::Infinite.is_below(&Cardinality::Finite(0)));
}

#[test]
fn cardinality_as_text() {
    assert_eq!(Cardinality::Finite(0).to_string(), "0");
    assert_eq!(Cardinality::Finite(7).to_string(), "7");
    assert_eq!(Cardinality::Finite(256).to_string(), "256");
    assert_eq!(Cardinality::Finite(1234567890).to_string(), "1234567890");
    assert_eq!(Cardinality::Infinite.to_string(), "\u{221e}");
    assert_eq!(decimal_text(usize::MAX), format!("{}", usize::MAX));
}
