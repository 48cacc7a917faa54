//! Carrier collections: what a structure is built over.
//!
//! A carrier answers membership, says how many elements it has where it knows,
//! and lists its elements where it can.

use std::collections::HashSet;
use std::hash::Hash;
use std::hash::RandomState;
use std::marker::PhantomData;
use vstd::laws_eq::obeys_view_eq;
use vstd::prelude::*;
use vstd::std_specs::hash::builds_valid_hashers;
use vstd::std_specs::hash::obeys_key_model;
use vstd::std_specs::hash::spec_hash_keys_iter;
use vstd::std_specs::iter::IteratorSpec;

use crate::errors::AlgebraError;

pub mod cardinality;

pub use cardinality::Cardinality;

verus! {

/// `list` holds the values that satisfy `member`, all of them and no others.
pub open spec fn lists<T: View>(list: Seq<&T>, member: spec_fn(T::V) -> bool) -> bool {
    &&& forall|i: int| 0 <= i < list.len() ==> member(#[trigger] list[i]@)
    &&& forall|v: T::V| #[trigger]
        member(v) ==> exists|i: int| 0 <= i < list.len() && #[trigger] list[i]@ == v
}

/// A collection of elements of one type, possibly infinite.
pub trait SetT<T: View>: Sized {
    /// What the collection needs of its element type to answer at all.
    spec fn wf(&self) -> bool;

    /// The values that belong to the collection.
    spec fn has(&self, v: T::V) -> bool;

    /// What the collection says of being empty.
    spec fn spec_is_empty(&self) -> bool;

    /// The size of the collection, where it is known.
    spec fn spec_cardinality(&self) -> Option<Cardinality>;

    /// The collection can list its elements.
    spec fn enumerable(&self) -> bool;

    /// Whether `element` belongs to the collection.
    fn contains(&self, element: &T) -> (r: bool)
        requires
            self.wf(),
        ensures
            r == self.has(element@),
    ;

    /// Whether the collection holds no element, as far as it knows.
    fn is_empty(&self) -> (r: bool)
        requires
            self.wf(),
        ensures
            r == self.spec_is_empty(),
    ;

    /// The size of the collection; `CardinalityUnresolved` where it is not known.
    fn cardinality(&self) -> (r: Result<Cardinality, AlgebraError>)
        requires
            self.wf(),
        ensures
            r == (match self.spec_cardinality() {
                Some(c) => Ok::<Cardinality, AlgebraError>(c),
                None => Err(AlgebraError::CardinalityUnresolved),
            }),
    ;

    /// The elements of the collection, each at least once; `NotEnumerable` where
    /// the collection cannot list them.
    fn iter(&self) -> (r: Result<Vec<&T>, AlgebraError>)
        requires
            self.wf(),
        ensures
            match r {
                Ok(list) => self.enumerable() && lists(list@, |v: T::V| self.has(v)),
                Err(e) => !self.enumerable() && e == AlgebraError::NotEnumerable,
            },
    ;
}

/// A collection given by the list of its elements.
pub struct FiniteSet<T> {
    elements: Vec<T>,
}

/// A short name for [`FiniteSet`].
pub type SmallSet<T> = FiniteSet<T>;

impl<T> View for FiniteSet<T> {
    type V = Seq<T>;

    closed spec fn view(&self) -> Seq<T> {
        self.elements@
    }
}

impl<T> FiniteSet<T> {
    /// The collection of the listed elements, in their order.
    pub fn new(elements: Vec<T>) -> (s: Self)
        ensures
            s@ == elements@,
    {
        FiniteSet { elements }
    }
}

impl<T: View + PartialEq> SetT<T> for FiniteSet<T> {
    open spec fn wf(&self) -> bool {
        obeys_view_eq::<T>()
    }

    open spec fn has(&self, v: T::V) -> bool {
        exists|i: int| 0 <= i < self@.len() && #[trigger] self@[i]@ == v
    }

    open spec fn spec_is_empty(&self) -> bool {
        self@.len() == 0
    }

    /// The length of the list: an element listed twice counts twice.
    open spec fn spec_cardinality(&self) -> Option<Cardinality> {
        Some(Cardinality::Finite(self@.len() as usize))
    }

    open spec fn enumerable(&self) -> bool {
        true
    }

    fn contains(&self, element: &T) -> (r: bool) {
        let mut i: usize = 0;
        while i < self.elements.len()
            invariant
                i <= self.elements.len(),
                obeys_view_eq::<T>(),
                forall|j: int| 0 <= j < i ==> self@[j]@ != element@,
            decreases self.elements.len() - i,
        {
            proof {
                reveal(obeys_view_eq);
            }
            if self.elements[i] == *element {
                assert(self@[i as int]@ == element@);
                return true;
            }
            i += 1;
        }
        false
    }

    fn is_empty(&self) -> (r: bool) {
        self.elements.len() == 0
    }

    fn cardinality(&self) -> (r: Result<Cardinality, AlgebraError>) {
        Ok(Cardinality::Finite(self.elements.len()))
    }

    /// The elements in the order of the list.
    fn iter(&self) -> (r: Result<Vec<&T>, AlgebraError>)
        ensures
            r matches Ok(list) && list@.len() == self@.len() && forall|j: int|
                0 <= j < list@.len() ==> *(#[trigger] list@[j]) == self@[j],
    {
        let mut list: Vec<&T> = Vec::new();
        let mut i: usize = 0;
        while i < self.elements.len()
            invariant
                i <= self.elements.len(),
                list@.len() == i,
                forall|j: int| 0 <= j < i ==> *(#[trigger] list@[j]) == self@[j],
            decreases self.elements.len() - i,
        {
            list.push(&self.elements[i]);
            i += 1;
        }
        proof {
            assert forall|v: T::V| self.has(v) implies exists|i: int|
                0 <= i < list@.len() && #[trigger] list@[i]@ == v by {
                let k = choose|k: int| 0 <= k < self@.len() && #[trigger] self@[k]@ == v;
                assert(list@[k]@ == v);
            }
            assert forall|i: int| 0 <= i < list@.len() implies self.has(#[trigger] list@[i]@) by {
                assert(self@[i]@ == list@[i]@);
            }
        }
        Ok(list)
    }
}

/// The collection of every value of the element type. Its size is whatever it
/// was told at construction.
pub struct Universe<T> {
    cardinality: Cardinality,
    _boo: PhantomData<T>,
}

/// A short name for [`Universe`].
pub type UniversalSet<T> = Universe<T>;

impl<T> Universe<T> {
    /// The size the collection was made with.
    pub closed spec fn size(&self) -> Cardinality {
        self.cardinality
    }

    /// The collection of all values of `T`, reporting `cardinality` as its size.
    pub fn new(cardinality: Cardinality) -> (s: Self)
        ensures
            s.size() == cardinality,
    {
        Universe { cardinality, _boo: PhantomData }
    }
}

impl<T: View> SetT<T> for Universe<T> {
    open spec fn wf(&self) -> bool {
        true
    }

    open spec fn has(&self, v: T::V) -> bool {
        true
    }

    open spec fn spec_is_empty(&self) -> bool {
        false
    }

    open spec fn spec_cardinality(&self) -> Option<Cardinality> {
        Some(self.size())
    }

    open spec fn enumerable(&self) -> bool {
        false
    }

    fn contains(&self, _element: &T) -> (r: bool) {
        true
    }

    fn is_empty(&self) -> (r: bool) {
        false
    }

    fn cardinality(&self) -> (r: Result<Cardinality, AlgebraError>) {
        Ok(self.cardinality)
    }

    fn iter(&self) -> (r: Result<Vec<&T>, AlgebraError>) {
        Err(AlgebraError::NotEnumerable)
    }
}

/// What a collection given by a test takes itself for where it is told nothing
/// of being empty: inhabited.
pub const DEFAULT_IS_EMPTY_HINT: bool = false;

/// A collection given by a test on its elements. How many pass the test is
/// not known.
pub struct PredicateSet<T, F: Fn(T) -> bool> {
    predicate: F,
    is_empty_hint: bool,
    _boo: PhantomData<T>,
}

impl<T, F: Fn(T) -> bool> PredicateSet<T, F> {
    /// The test the collection was made with.
    pub closed spec fn predicate(&self) -> F {
        self.predicate
    }

    /// What the collection was told of being empty.
    pub closed spec fn hint(&self) -> bool {
        self.is_empty_hint
    }

    /// The collection of the values that pass `predicate`. `is_empty_hint` says
    /// whether none does; left out, the collection takes itself for inhabited.
    pub fn new(predicate: F, is_empty_hint: Option<bool>) -> (s: Self)
        ensures
            s.predicate() == predicate,
            s.hint() == (match is_empty_hint {
                Some(h) => h,
                None => DEFAULT_IS_EMPTY_HINT,
            }),
    {
        let hint = match is_empty_hint {
            Some(h) => h,
            None => DEFAULT_IS_EMPTY_HINT,
        };
        PredicateSet { predicate, is_empty_hint: hint, _boo: PhantomData }
    }
}

impl<T: View + Clone, F: Fn(T) -> bool> SetT<T> for PredicateSet<T, F> {
    /// The test accepts every input and answers by value, and cloning keeps the
    /// value.
    open spec fn wf(&self) -> bool {
        &&& forall|x: T| call_requires(self.predicate(), (x,))
        &&& forall|x: T, y: T, p: bool, q: bool|
            x@ == y@ && #[trigger] call_ensures(self.predicate(), (x,), p) && #[trigger] call_ensures(
                self.predicate(),
                (y,),
                q,
            ) ==> p == q
        &&& forall|x: T, y: T| #[trigger] cloned::<T>(x, y) ==> x@ == y@
    }

    open spec fn has(&self, v: T::V) -> bool {
        exists|x: T| x@ == v && #[trigger] call_ensures(self.predicate(), (x,), true)
    }

    open spec fn spec_is_empty(&self) -> bool {
        self.hint()
    }

    open spec fn spec_cardinality(&self) -> Option<Cardinality> {
        None
    }

    open spec fn enumerable(&self) -> bool {
        false
    }

    fn contains(&self, element: &T) -> (r: bool) {
        let x = element.clone();
        assert(cloned::<T>(*element, x));
        assert(call_requires(self.predicate(), (x,)));
        let r = (self.predicate)(x);
        proof {
            assert(call_ensures(self.predicate(), (x,), r));
            if self.has(element@) {
                let y = choose|y: T|
                    y@ == element@ && #[trigger] call_ensures(self.predicate(), (y,), true);
                assert(call_ensures(self.predicate(), (y,), true));
                assert(r);
            }
        }
        r
    }

    fn is_empty(&self) -> (r: bool) {
        self.is_empty_hint
    }

    fn cardinality(&self) -> (r: Result<Cardinality, AlgebraError>) {
        Err(AlgebraError::CardinalityUnresolved)
    }

    fn iter(&self) -> (r: Result<Vec<&T>, AlgebraError>) {
        Err(AlgebraError::NotEnumerable)
    }
}

impl<T: View + Eq + Hash> SetT<T> for HashSet<T> {
    /// Hashing and `==` on `T` agree with equality, and equal values mean equal
    /// elements.
    open spec fn wf(&self) -> bool {
        &&& obeys_key_model::<T>()
        &&& builds_valid_hashers::<RandomState>()
        &&& forall|x: T, y: T| #[trigger] x@ == #[trigger] y@ ==> x == y
    }

    open spec fn has(&self, v: T::V) -> bool {
        exists|x: T| #[trigger] self@.contains(x) && x@ == v
    }

    open spec fn spec_is_empty(&self) -> bool {
        self@.is_empty()
    }

    open spec fn spec_cardinality(&self) -> Option<Cardinality> {
        Some(Cardinality::Finite(self@.len() as usize))
    }

    open spec fn enumerable(&self) -> bool {
        true
    }

    fn contains(&self, element: &T) -> (r: bool) {
        broadcast use vstd::std_specs::hash::group_hash_axioms;
        let r = HashSet::contains(self, element);
        proof {
            if self.has(element@) {
                let x = choose|x: T| #[trigger] self@.contains(x) && x@ == element@;
                assert(x == *element);
            }
        }
        r
    }

    fn is_empty(&self) -> (r: bool) {
        broadcast use vstd::std_specs::hash::group_hash_axioms;
        HashSet::is_empty(self)
    }

    fn cardinality(&self) -> (r: Result<Cardinality, AlgebraError>) {
        broadcast use vstd::std_specs::hash::group_hash_axioms;
        Ok(Cardinality::Finite(self.len()))
    }

    /// The elements in the order in which the table is walked.
    fn iter(&self) -> (r: Result<Vec<&T>, AlgebraError>) {
        broadcast use vstd::std_specs::hash::group_hash_axioms;
        let mut list: Vec<&T> = Vec::new();
        let ghost keys = spec_hash_keys_iter(self).remaining();
        for x in walk: HashSet::iter(self)
            invariant
                walk.seq() == keys,
                list@.len() == walk.index(),
                forall|j: int| 0 <= j < list@.len() ==> list@[j] == keys[j],
        {
            list.push(x);
        }
        proof {
            assert(list@ =~= keys);
            assert(keys.unref().to_set() == self@);
            assert forall|i: int| 0 <= i < list@.len() implies self.has(#[trigger] list@[i]@) by {
                assert(keys.unref()[i] == *list@[i]);
                assert(keys.unref().to_set().contains(keys.unref()[i]));
                assert(self@.contains(*list@[i]));
            }
            assert forall|v: T::V| self.has(v) implies exists|i: int|
                0 <= i < list@.len() && #[trigger] list@[i]@ == v by {
                let x = choose|x: T| #[trigger] self@.contains(x) && x@ == v;
                assert(keys.unref().to_set().contains(x));
                let i = choose|i: int| 0 <= i < keys.unref().len() && keys.unref()[i] == x;
                assert(list@[i]@ == v);
            }
        }
        Ok(list)
    }
}

} // verus!
