//! The hierarchy of structures: a carrier together with an operation tag,
//! classified as magma, semigroup, quasigroup, monoid or group.
//!
//! A structure shares its carrier and never changes it.

use std::marker::PhantomData;
use std::rc::Rc;
use vstd::laws_eq::obeys_view_eq;
use vstd::prelude::*;

use crate::closure::close_to_group;
use crate::closure::close_under_op;
use crate::closure::close_with_identity;
use crate::closure::closure_exceeds;
use crate::closure::group_closure_exceeds;
use crate::closure::is_group_closure;
use crate::closure::is_op_closure;
use crate::closure::members;
use crate::closure::within_type;
use crate::errors::AlgebraError;
use crate::ops::inverse_closed;
use crate::set::FiniteSet;
use crate::ops::element_order;
use crate::ops::has_finite_order;
use crate::ops::is_period;
use crate::ops::lemma_order_exists;
use crate::ops::power;
use crate::ops::Associative;
use crate::ops::Element;
use crate::ops::Identity;
use crate::ops::Inverse;
use crate::ops::Op;
use crate::ops::OpFlag;
use crate::set::Cardinality;
use crate::set::SetT;

verus! {

/// What the subset test on two carriers gives: the sizes must be known and
/// the first strictly smaller than the second, and then the first carrier must
/// be able to list its elements, each of which is looked up in the second.
///
/// A carrier is thus never a subset of one of its own size, itself included.
pub open spec fn subset_outcome<T: View, A: SetT<T>, B: SetT<T>>(a: &A, b: &B) -> Result<
    bool,
    AlgebraError,
> {
    match (a.spec_cardinality(), b.spec_cardinality()) {
        (Some(x), Some(y)) => {
            if !x.below(y) {
                Ok(false)
            } else if !a.enumerable() {
                Err(AlgebraError::NotEnumerable)
            } else {
                Ok(forall|v: T::V| a.has(v) ==> b.has(v))
            }
        },
        _ => Err(AlgebraError::CardinalityUnresolved),
    }
}

/// The subset test on two carriers.
pub fn carrier_subset<T: View, A: SetT<T>, B: SetT<T>>(a: &A, b: &B) -> (r: Result<
    bool,
    AlgebraError,
>)
    requires
        a.wf(),
        b.wf(),
    ensures
        r == subset_outcome::<T, A, B>(a, b),
{
    let x = a.cardinality()?;
    let y = b.cardinality()?;
    if !x.is_below(&y) {
        return Ok(false);
    }
    let list = a.iter()?;
    let ghost member = |v: T::V| a.has(v);
    let mut i: usize = 0;
    while i < list.len()
        invariant
            i <= list.len(),
            b.wf(),
            a.enumerable(),
            a.spec_cardinality() == Some(x),
            b.spec_cardinality() == Some(y),
            x.below(y),
            member == (|v: T::V| a.has(v)),
            crate::set::lists(list@, member),
            forall|j: int| 0 <= j < i ==> b.has(#[trigger] list@[j]@),
        decreases list.len() - i,
    {
        if !b.contains(list[i]) {
            proof {
                assert(member(list@[i as int]@));
            }
            return Ok(false);
        }
        i += 1;
    }
    proof {
        assert forall|v: T::V| a.has(v) implies b.has(v) by {
            assert(member(v));
            let j = choose|j: int| 0 <= j < list@.len() && #[trigger] list@[j]@ == v;
            assert(b.has(list@[j]@));
        }
    }
    Ok(true)
}

/// Something built over a carrier: this much is what a subset test needs of
/// the structure it compares with.
pub trait WithCarrier<T: View>: Sized {
    /// The kind of collection the carrier is.
    type Carrier: SetT<T>;

    /// The carrier.
    spec fn carrier(&self) -> Self::Carrier;

    /// A handle on the carrier.
    fn get_set(&self) -> (r: Rc<Self::Carrier>)
        ensures
            *r == self.carrier(),
    ;
}

/// Something built over a carrier, with the subset test on carriers.
pub trait HasSet<T: View>: WithCarrier<T> {
    /// Whether the carrier of `self` is a subset of that of `other`, as
    /// [`subset_outcome`] puts it.
    fn is_subset_of<H: WithCarrier<T>>(&self, other: &H) -> (r: Result<bool, AlgebraError>)
        requires
            self.carrier().wf(),
            other.carrier().wf(),
        ensures
            r == subset_outcome::<T, Self::Carrier, H::Carrier>(&self.carrier(), &other.carrier()),
    {
        let set = self.get_set();
        let other_set = other.get_set();
        carrier_subset::<T, Self::Carrier, H::Carrier>(&*set, &*other_set)
    }
}

/// How a structure of some level is made from a carrier.
pub trait GroupLike<O: OpFlag, T: Op<O>>: HasSet<T> {
    /// What the level asks of a carrier before it accepts it.
    spec fn admits(set: &Self::Carrier) -> bool;

    /// The structure over `set`, or `MissingIdentity` where the level asks for
    /// the identity and `set` lacks it.
    fn try_new(set: Rc<Self::Carrier>) -> (r: Result<Self, AlgebraError>)
        requires
            set.wf(),
        ensures
            match r {
                Ok(s) => Self::admits(&*set) && s.carrier() == *set,
                Err(e) => !Self::admits(&*set) && e == AlgebraError::MissingIdentity,
            },
    ;

    /// The structure over `set`; that `set` suits the level is left to the
    /// caller.
    fn new_unchecked(set: Rc<Self::Carrier>) -> (r: Self)
        ensures
            r.carrier() == *set,
    ;
}

/// A carrier with an operation.
pub struct Magma<O: OpFlag, T: Op<O>, S: SetT<T>> {
    set: Rc<S>,
    _boo: PhantomData<(O, T)>,
}

impl<O: OpFlag, T: Op<O>, S: SetT<T>> WithCarrier<T> for Magma<O, T, S> {
    type Carrier = S;

    closed spec fn carrier(&self) -> S {
        *self.set
    }

    fn get_set(&self) -> (r: Rc<S>) {
        self.set.clone()
    }
}

impl<O: OpFlag, T: Op<O>, S: SetT<T>> HasSet<T> for Magma<O, T, S> {

}

impl<O: OpFlag, T: Op<O>, S: SetT<T>> GroupLike<O, T> for Magma<O, T, S> {
    open spec fn admits(set: &S) -> bool {
        true
    }

    fn try_new(set: Rc<S>) -> (r: Result<Self, AlgebraError>) {
        Ok(Magma { set, _boo: PhantomData })
    }

    fn new_unchecked(set: Rc<S>) -> (r: Self) {
        Magma { set, _boo: PhantomData }
    }
}

/// What every magma offers.
pub trait MagmaT<O: OpFlag, T: Op<O>>: HasSet<T> {
    /// The magma over the same carrier.
    fn as_magma(&self) -> (r: Magma<O, T, Self::Carrier>)
        ensures
            r.carrier() == self.carrier(),
    {
        Magma::new_unchecked(self.get_set())
    }

    /// Whether `self` is a submagma of `other`: both are closed under the one
    /// operation, so this is the subset test on the carriers.
    fn is_submagma_of<M: HasSet<T>>(&self, other: &M) -> (r: Result<bool, AlgebraError>)
        requires
            self.carrier().wf(),
            other.carrier().wf(),
        ensures
            r == subset_outcome::<T, Self::Carrier, M::Carrier>(&self.carrier(), &other.carrier()),
    {
        self.is_subset_of(other)
    }
}

impl<O: OpFlag, T: Op<O>, S: SetT<T>> MagmaT<O, T> for Magma<O, T, S> {

}

/// An element of a semigroup: its operation regroups, and it can be compared.
pub trait SemigroupElement<O: OpFlag>: Associative<O> + PartialEq {

}

impl<O: OpFlag, T: Associative<O> + PartialEq> SemigroupElement<O> for T {

}

/// An element of a quasigroup: it has an inverse, and it can be compared and
/// duplicated by value.
pub trait QuasigroupElement<O: OpFlag>: Inverse<O> + Element {

}

impl<O: OpFlag, T: Inverse<O> + Element> QuasigroupElement<O> for T {

}

/// An element of a monoid: its operation regroups and has an identity, and it
/// can be compared.
pub trait MonoidElement<O: OpFlag>: Identity<O> + Associative<O> + PartialEq {

}

impl<O: OpFlag, T: Identity<O> + Associative<O> + PartialEq> MonoidElement<O> for T {

}

/// An element of a group: its operation regroups and has an identity and
/// inverses, and it can be compared and duplicated by value.
pub trait GroupElement<O: OpFlag>: Inverse<O> + Associative<O> + Element {

}

impl<O: OpFlag, T: Inverse<O> + Associative<O> + Element> GroupElement<O> for T {

}

/// A magma whose operation regroups.
pub struct Semigroup<O: OpFlag, T: SemigroupElement<O>, S: SetT<T>> {
    set: Rc<S>,
    _boo: PhantomData<(O, T)>,
}

impl<O: OpFlag, T: SemigroupElement<O>, S: SetT<T>> WithCarrier<T> for Semigroup<O, T, S> {
    type Carrier = S;

    closed spec fn carrier(&self) -> S {
        *self.set
    }

    fn get_set(&self) -> (r: Rc<S>) {
        self.set.clone()
    }
}

impl<O: OpFlag, T: SemigroupElement<O>, S: SetT<T>> HasSet<T> for Semigroup<O, T, S> {

}

impl<O: OpFlag, T: SemigroupElement<O>, S: SetT<T>> GroupLike<O, T> for Semigroup<O, T, S> {
    open spec fn admits(set: &S) -> bool {
        true
    }

    fn try_new(set: Rc<S>) -> (r: Result<Self, AlgebraError>) {
        Ok(Semigroup { set, _boo: PhantomData })
    }

    fn new_unchecked(set: Rc<S>) -> (r: Self) {
        Semigroup { set, _boo: PhantomData }
    }
}

impl<O: OpFlag, T: SemigroupElement<O>, S: SetT<T>> MagmaT<O, T> for Semigroup<O, T, S> {

}

/// What every semigroup offers.
pub trait SemigroupT<O: OpFlag, T: SemigroupElement<O>>: MagmaT<O, T> {
    /// The semigroup over the same carrier.
    fn as_semigroup(&self) -> (r: Semigroup<O, T, Self::Carrier>)
        ensures
            r.carrier() == self.carrier(),
    {
        Semigroup::new_unchecked(self.get_set())
    }

    /// Whether `self` is a subsemigroup of `other`: the subset test on the
    /// carriers, since that the operation regroups is a matter of the element
    /// type.
    fn is_subsemigroup_of<M: MagmaT<O, T>>(&self, other: &M) -> (r: Result<bool, AlgebraError>)
        requires
            self.carrier().wf(),
            other.carrier().wf(),
        ensures
            r == subset_outcome::<T, Self::Carrier, M::Carrier>(&self.carrier(), &other.carrier()),
    {
        self.is_subset_of(other)
    }
}

impl<O: OpFlag, T: SemigroupElement<O>, S: SetT<T>> SemigroupT<O, T> for Semigroup<O, T, S> {

}

/// Some element of `set` combined after `a` gives `b`.
pub open spec fn solvable<O: OpFlag, T: Op<O>, S: SetT<T>>(set: &S, a: T::V, b: T::V) -> bool {
    exists|x: T::V| set.has(x) && #[trigger] T::op_spec(a, x) == b
}

/// Where the operation regroups, `a x == b` has a solution in `set` exactly
/// when `set` holds the product of the inverse of `a` with `b`: that product
/// is the one solution there is.
pub proof fn lemma_divisibility_by_inverse<
    O: OpFlag,
    T: Inverse<O> + Associative<O>,
    S: SetT<T>,
>(set: &S, a: T::V, b: T::V)
    requires
        within_type::<O, T, S>(set),
        T::is_element(a),
        T::is_element(b),
        T::is_element(T::inverse_spec(a)),
    ensures
        solvable::<O, T, S>(set, a, b) <==> set.has(T::op_spec(T::inverse_spec(a), b)),
{
    let i = T::inverse_spec(a);
    let x = T::op_spec(i, b);
    T::lemma_inverse(a);
    T::lemma_identity(b);
    T::lemma_associative(a, i, b);
    assert(T::op_spec(a, x) == b);
    if solvable::<O, T, S>(set, a, b) {
        let y = choose|y: T::V| set.has(y) && #[trigger] T::op_spec(a, y) == b;
        T::lemma_identity(y);
        T::lemma_associative(i, a, y);
        assert(y == x);
    }
}

/// A magma with inverses.
pub struct Quasigroup<O: OpFlag, T: QuasigroupElement<O>, S: SetT<T>> {
    set: Rc<S>,
    _boo: PhantomData<(O, T)>,
}

impl<O: OpFlag, T: QuasigroupElement<O>, S: SetT<T>> WithCarrier<T> for Quasigroup<O, T, S> {
    type Carrier = S;

    closed spec fn carrier(&self) -> S {
        *self.set
    }

    fn get_set(&self) -> (r: Rc<S>) {
        self.set.clone()
    }
}

impl<O: OpFlag, T: QuasigroupElement<O>, S: SetT<T>> HasSet<T> for Quasigroup<O, T, S> {

}

impl<O: OpFlag, T: QuasigroupElement<O>, S: SetT<T>> GroupLike<O, T> for Quasigroup<O, T, S> {
    open spec fn admits(set: &S) -> bool {
        true
    }

    fn try_new(set: Rc<S>) -> (r: Result<Self, AlgebraError>) {
        Ok(Quasigroup { set, _boo: PhantomData })
    }

    fn new_unchecked(set: Rc<S>) -> (r: Self) {
        Quasigroup { set, _boo: PhantomData }
    }
}

impl<O: OpFlag, T: QuasigroupElement<O>, S: SetT<T>> MagmaT<O, T> for Quasigroup<O, T, S> {

}

/// What every quasigroup offers.
pub trait QuasigroupT<O: OpFlag, T: QuasigroupElement<O>>: MagmaT<O, T> {
    /// Whether some `x` of the carrier satisfies `a x == b`, found by trying
    /// each element of the carrier in turn; `NotEnumerable` where the carrier
    /// cannot list its elements.
    fn test_divisibility(&self, a: T, b: T) -> (r: Result<bool, AlgebraError>)
        requires
            self.carrier().wf(),
            within_type::<O, T, Self::Carrier>(&self.carrier()),
            T::is_element(a@),
        ensures
            match r {
                Ok(found) => self.carrier().enumerable() && found == solvable::<
                    O,
                    T,
                    Self::Carrier,
                >(&self.carrier(), a@, b@),
                Err(e) => !self.carrier().enumerable() && e == AlgebraError::NotEnumerable,
            },
    {
        let set = self.get_set();
        let list = set.iter()?;
        let ghost member = |v: T::V| set.has(v);
        proof {
            T::lemma_eq_by_value();
        }
        let mut i: usize = 0;
        while i < list.len()
            invariant
                i <= list.len(),
                *set == self.carrier(),
                self.carrier().enumerable(),
                within_type::<O, T, Self::Carrier>(&self.carrier()),
                T::is_element(a@),
                obeys_view_eq::<T>(),
                member == (|v: T::V| set.has(v)),
                crate::set::lists(list@, member),
                forall|j: int| 0 <= j < i ==> T::op_spec(a@, #[trigger] list@[j]@) != b@,
            decreases list.len() - i,
        {
            let x = list[i].clone();
            proof {
                reveal(obeys_view_eq);
                T::lemma_clone_by_value(*list@[i as int], x);
                assert(member(list@[i as int]@));
            }
            if a.op(x) == b {
                return Ok(true);
            }
            i += 1;
        }
        proof {
            if solvable::<O, T, Self::Carrier>(&self.carrier(), a@, b@) {
                let x = choose|x: T::V| set.has(x) && #[trigger] T::op_spec(a@, x) == b@;
                assert(member(x));
                let j = choose|j: int| 0 <= j < list@.len() && #[trigger] list@[j]@ == x;
                assert(T::op_spec(a@, list@[j]@) != b@);
            }
        }
        Ok(false)
    }

    /// The quasigroup over the same carrier.
    fn as_quasigroup(&self) -> (r: Quasigroup<O, T, Self::Carrier>)
        ensures
            r.carrier() == self.carrier(),
    {
        Quasigroup::new_unchecked(self.get_set())
    }

    /// Whether `self` is a subquasigroup of `other`: the subset test on the
    /// carriers.
    fn is_subquasigroup_of<M: MagmaT<O, T>>(&self, other: &M) -> (r: Result<bool, AlgebraError>)
        requires
            self.carrier().wf(),
            other.carrier().wf(),
        ensures
            r == subset_outcome::<T, Self::Carrier, M::Carrier>(&self.carrier(), &other.carrier()),
    {
        self.is_subset_of(other)
    }
}

impl<O: OpFlag, T: QuasigroupElement<O>, S: SetT<T>> QuasigroupT<O, T> for Quasigroup<O, T, S> {

}

/// A semigroup with an identity. Made by `try_new`, its carrier holds the
/// identity; made by `new_unchecked`, that is the caller's word.
pub struct Monoid<O: OpFlag, T: MonoidElement<O>, S: SetT<T>> {
    set: Rc<S>,
    _boo: PhantomData<(O, T)>,
}

impl<O: OpFlag, T: MonoidElement<O>, S: SetT<T>> WithCarrier<T> for Monoid<O, T, S> {
    type Carrier = S;

    closed spec fn carrier(&self) -> S {
        *self.set
    }

    fn get_set(&self) -> (r: Rc<S>) {
        self.set.clone()
    }
}

impl<O: OpFlag, T: MonoidElement<O>, S: SetT<T>> HasSet<T> for Monoid<O, T, S> {

}

impl<O: OpFlag, T: MonoidElement<O>, S: SetT<T>> GroupLike<O, T> for Monoid<O, T, S> {
    /// The carrier holds the identity of the element type.
    open spec fn admits(set: &S) -> bool {
        set.has(T::identity_spec())
    }

    fn try_new(set: Rc<S>) -> (r: Result<Self, AlgebraError>) {
        if set.contains(&T::identity()) {
            Ok(Monoid { set, _boo: PhantomData })
        } else {
            Err(AlgebraError::MissingIdentity)
        }
    }

    fn new_unchecked(set: Rc<S>) -> (r: Self) {
        Monoid { set, _boo: PhantomData }
    }
}

impl<O: OpFlag, T: MonoidElement<O>, S: SetT<T>> MagmaT<O, T> for Monoid<O, T, S> {

}

impl<O: OpFlag, T: MonoidElement<O>, S: SetT<T>> SemigroupT<O, T> for Monoid<O, T, S> {

}

/// What the submonoid test gives: `false` where the second carrier lacks the
/// identity, else what the subset test gives.
pub open spec fn submonoid_outcome<O: OpFlag, T: Identity<O>, A: SetT<T>, B: SetT<T>>(
    a: &A,
    b: &B,
) -> Result<bool, AlgebraError> {
    if b.has(T::identity_spec()) {
        subset_outcome::<T, A, B>(a, b)
    } else {
        Ok(false)
    }
}

/// What every monoid offers.
pub trait MonoidT<O: OpFlag, T: MonoidElement<O>>: SemigroupT<O, T> {
    /// The monoid over the same carrier.
    fn as_monoid(&self) -> (r: Monoid<O, T, Self::Carrier>)
        ensures
            r.carrier() == self.carrier(),
    {
        Monoid::new_unchecked(self.get_set())
    }

    /// Whether `self` is a submonoid of `other`: the carrier of `other` holds
    /// the identity, and `self` is a submagma of `other`.
    fn is_submonoid_of<M: SemigroupT<O, T>>(&self, other: &M) -> (r: Result<bool, AlgebraError>)
        requires
            self.carrier().wf(),
            other.carrier().wf(),
        ensures
            r == submonoid_outcome::<O, T, Self::Carrier, M::Carrier>(
                &self.carrier(),
                &other.carrier(),
            ),
    {
        if !other.get_set().contains(&T::identity()) {
            return Ok(false);
        }
        self.is_submagma_of(other)
    }
}

impl<O: OpFlag, T: MonoidElement<O>, S: SetT<T>> MonoidT<O, T> for Monoid<O, T, S> {

}

/// A monoid with inverses. Made by `try_new`, its carrier holds the identity;
/// made by `new_unchecked`, that is the caller's word.
pub struct Group<O: OpFlag, T: GroupElement<O>, S: SetT<T>> {
    set: Rc<S>,
    _boo: PhantomData<(O, T)>,
}

impl<O: OpFlag, T: GroupElement<O>, S: SetT<T>> WithCarrier<T> for Group<O, T, S> {
    type Carrier = S;

    closed spec fn carrier(&self) -> S {
        *self.set
    }

    fn get_set(&self) -> (r: Rc<S>) {
        self.set.clone()
    }
}

impl<O: OpFlag, T: GroupElement<O>, S: SetT<T>> HasSet<T> for Group<O, T, S> {

}

impl<O: OpFlag, T: GroupElement<O>, S: SetT<T>> GroupLike<O, T> for Group<O, T, S> {
    /// The carrier holds the identity of the element type.
    open spec fn admits(set: &S) -> bool {
        set.has(T::identity_spec())
    }

    fn try_new(set: Rc<S>) -> (r: Result<Self, AlgebraError>) {
        if set.contains(&T::identity()) {
            Ok(Group { set, _boo: PhantomData })
        } else {
            Err(AlgebraError::MissingIdentity)
        }
    }

    fn new_unchecked(set: Rc<S>) -> (r: Self) {
        Group { set, _boo: PhantomData }
    }
}

impl<O: OpFlag, T: GroupElement<O>, S: SetT<T>> MagmaT<O, T> for Group<O, T, S> {

}

impl<O: OpFlag, T: GroupElement<O>, S: SetT<T>> SemigroupT<O, T> for Group<O, T, S> {

}

impl<O: OpFlag, T: GroupElement<O>, S: SetT<T>> MonoidT<O, T> for Group<O, T, S> {

}

/// What every group offers.
pub trait GroupT<O: OpFlag, T: GroupElement<O>>: MonoidT<O, T> {
    /// The group over the same carrier.
    fn as_group(&self) -> (r: Group<O, T, Self::Carrier>)
        ensures
            r.carrier() == self.carrier(),
    {
        Group::new_unchecked(self.get_set())
    }

    /// Whether `self` is a subgroup of `other`: the submonoid test.
    fn is_subgroup_of<M: MonoidT<O, T>>(&self, other: &M) -> (r: Result<bool, AlgebraError>)
        requires
            self.carrier().wf(),
            other.carrier().wf(),
        ensures
            r == submonoid_outcome::<O, T, Self::Carrier, M::Carrier>(
                &self.carrier(),
                &other.carrier(),
            ),
    {
        self.is_submonoid_of(other)
    }

    /// The order of the group: the size of its carrier.
    fn order(&self) -> (r: Result<Cardinality, AlgebraError>)
        requires
            self.carrier().wf(),
        ensures
            r == (match self.carrier().spec_cardinality() {
                Some(c) => Ok::<Cardinality, AlgebraError>(c),
                None => Err(AlgebraError::CardinalityUnresolved),
            }),
    {
        self.get_set().cardinality()
    }

    /// The order of `element`: the smallest positive `k` such that `element`
    /// combined with itself until it occurs `k` times is the identity. It is
    /// found by combining once more and counting, from 1, until the identity
    /// shows.
    ///
    /// An element of no finite order would keep this from returning; `requires`
    /// leaves such elements out.
    fn order_of_element(&self, element: T) -> (count: usize)
        requires
            T::is_element(element@),
            has_finite_order::<O, T>(element@),
            element_order::<O, T>(element@) <= usize::MAX,
        ensures
            count == element_order::<O, T>(element@),
    {
        let ghost order = element_order::<O, T>(element@);
        proof {
            lemma_order_exists::<O, T>(element@);
            T::lemma_eq_by_value();
        }
        let mut cur = element.clone();
        proof {
            T::lemma_clone_by_value(element, cur);
        }
        let mut count: usize = 1;
        while cur != T::identity()
            invariant
                T::is_element(element@),
                obeys_view_eq::<T>(),
                order == element_order::<O, T>(element@),
                order <= usize::MAX,
                is_period::<O, T>(element@, order),
                forall|j: nat| is_period::<O, T>(element@, j) ==> order <= j,
                1 <= count <= order,
                cur@ == power::<O, T>(element@, count as nat),
                forall|j: nat| 1 <= j < count ==> !is_period::<O, T>(element@, j),
            decreases order - count,
        {
            proof {
                reveal(obeys_view_eq);
                crate::ops::lemma_power_is_element::<O, T>(element@, count as nat);
            }
            let next = element.clone();
            proof {
                T::lemma_clone_by_value(element, next);
            }
            cur = cur.op(next);
            count += 1;
        }
        proof {
            reveal(obeys_view_eq);
            assert(is_period::<O, T>(element@, count as nat));
        }
        count
    }
}

impl<O: OpFlag, T: GroupElement<O>, S: SetT<T>> GroupT<O, T> for Group<O, T, S> {

}

impl<O: OpFlag, T: Op<O> + Element> Magma<O, T, FiniteSet<T>> {
    /// The magma that the elements of `generators` generate: its carrier is
    /// their closure under the operation, each value listed once. Fails with
    /// `NotEnumerable` where `generators` cannot list its elements, and with
    /// `ClosureTooLarge` where the closure has more than `bound` values.
    pub fn new_from_generators<G: SetT<T>>(generators: Rc<G>, bound: usize) -> (r: Result<
        Self,
        AlgebraError,
    >)
        requires
            generators.wf(),
            within_type::<O, T, G>(&*generators),
        ensures
            match r {
                Ok(made) => {
                    &&& generators.enumerable()
                    &&& made.carrier().wf()
                    &&& made.carrier()@.len() <= bound
                    &&& within_type::<O, T, FiniteSet<T>>(&made.carrier())
                    &&& is_op_closure::<O, T>(
                        members::<T, G>(&*generators),
                        members::<T, FiniteSet<T>>(&made.carrier()),
                    )
                },
                Err(e) => if generators.enumerable() {
                    e == AlgebraError::ClosureTooLarge && closure_exceeds::<O, T>(
                        members::<T, G>(&*generators),
                        bound as nat,
                    )
                } else {
                    e == AlgebraError::NotEnumerable
                },
            },
    {
        match close_under_op::<O, T, G>(&*generators, bound) {
            Ok(set) => Ok(Magma::new_unchecked(Rc::new(set))),
            Err(e) => Err(e),
        }
    }
}

impl<O: OpFlag, T: SemigroupElement<O> + Element> Semigroup<O, T, FiniteSet<T>> {
    /// The semigroup that the elements of `generators` generate: its carrier is
    /// their closure under the operation, each value listed once. Fails with
    /// `NotEnumerable` where `generators` cannot list its elements, and with
    /// `ClosureTooLarge` where the closure has more than `bound` values.
    pub fn new_from_generators<G: SetT<T>>(generators: Rc<G>, bound: usize) -> (r: Result<
        Self,
        AlgebraError,
    >)
        requires
            generators.wf(),
            within_type::<O, T, G>(&*generators),
        ensures
            match r {
                Ok(made) => {
                    &&& generators.enumerable()
                    &&& made.carrier().wf()
                    &&& made.carrier()@.len() <= bound
                    &&& within_type::<O, T, FiniteSet<T>>(&made.carrier())
                    &&& is_op_closure::<O, T>(
                        members::<T, G>(&*generators),
                        members::<T, FiniteSet<T>>(&made.carrier()),
                    )
                },
                Err(e) => if generators.enumerable() {
                    e == AlgebraError::ClosureTooLarge && closure_exceeds::<O, T>(
                        members::<T, G>(&*generators),
                        bound as nat,
                    )
                } else {
                    e == AlgebraError::NotEnumerable
                },
            },
    {
        match close_under_op::<O, T, G>(&*generators, bound) {
            Ok(set) => Ok(Semigroup::new_unchecked(Rc::new(set))),
            Err(e) => Err(e),
        }
    }
}

impl<O: OpFlag, T: QuasigroupElement<O>> Quasigroup<O, T, FiniteSet<T>> {
    /// The quasigroup that the elements of `generators` generate: its carrier is
    /// their closure under the operation, each value listed once. Fails with
    /// `NotEnumerable` where `generators` cannot list its elements, and with
    /// `ClosureTooLarge` where the closure has more than `bound` values.
    pub fn new_from_generators<G: SetT<T>>(generators: Rc<G>, bound: usize) -> (r: Result<
        Self,
        AlgebraError,
    >)
        requires
            generators.wf(),
            within_type::<O, T, G>(&*generators),
        ensures
            match r {
                Ok(made) => {
                    &&& generators.enumerable()
                    &&& made.carrier().wf()
                    &&& made.carrier()@.len() <= bound
                    &&& within_type::<O, T, FiniteSet<T>>(&made.carrier())
                    &&& is_op_closure::<O, T>(
                        members::<T, G>(&*generators),
                        members::<T, FiniteSet<T>>(&made.carrier()),
                    )
                },
                Err(e) => if generators.enumerable() {
                    e == AlgebraError::ClosureTooLarge && closure_exceeds::<O, T>(
                        members::<T, G>(&*generators),
                        bound as nat,
                    )
                } else {
                    e == AlgebraError::NotEnumerable
                },
            },
    {
        match close_under_op::<O, T, G>(&*generators, bound) {
            Ok(set) => Ok(Quasigroup::new_unchecked(Rc::new(set))),
            Err(e) => Err(e),
        }
    }
}

impl<O: OpFlag, T: MonoidElement<O> + Element> Monoid<O, T, FiniteSet<T>> {
    /// The monoid that the elements of `generators` generate: its carrier is
    /// the closure, under the operation, of the identity and the generators,
    /// each value listed once. Fails with `NotEnumerable` where `generators`
    /// cannot list its elements, and with `ClosureTooLarge` where the closure
    /// has more than `bound` values.
    pub fn new_from_generators<G: SetT<T>>(generators: Rc<G>, bound: usize) -> (r: Result<
        Self,
        AlgebraError,
    >)
        requires
            generators.wf(),
            within_type::<O, T, G>(&*generators),
            T::is_element(T::identity_spec()),
        ensures
            match r {
                Ok(made) => {
                    &&& generators.enumerable()
                    &&& made.carrier().wf()
                    &&& made.carrier()@.len() <= bound
                    &&& within_type::<O, T, FiniteSet<T>>(&made.carrier())
                    &&& made.carrier().has(T::identity_spec())
                    &&& is_op_closure::<O, T>(
                        members::<T, G>(&*generators).insert(T::identity_spec()),
                        members::<T, FiniteSet<T>>(&made.carrier()),
                    )
                },
                Err(e) => if generators.enumerable() {
                    e == AlgebraError::ClosureTooLarge && closure_exceeds::<O, T>(
                        members::<T, G>(&*generators).insert(T::identity_spec()),
                        bound as nat,
                    )
                } else {
                    e == AlgebraError::NotEnumerable
                },
            },
    {
        match close_with_identity::<O, T, G>(&*generators, bound) {
            Ok(set) => Ok(Monoid::new_unchecked(Rc::new(set))),
            Err(e) => Err(e),
        }
    }
}

impl<O: OpFlag, T: GroupElement<O>> Group<O, T, FiniteSet<T>> {
    /// The subgroup that the elements of `generators` generate: its carrier is
    /// the least set that holds them and the identity and is closed under the
    /// operation and under inverses, each value listed once. Fails with
    /// `NotEnumerable` where `generators` cannot list its elements, and with
    /// `ClosureTooLarge` where that set has more than `bound` values.
    pub fn new_from_generators<G: SetT<T>>(generators: Rc<G>, bound: usize) -> (r: Result<
        Self,
        AlgebraError,
    >)
        requires
            generators.wf(),
            within_type::<O, T, G>(&*generators),
            T::is_element(T::identity_spec()),
            inverse_closed::<O, T>(),
        ensures
            match r {
                Ok(made) => {
                    &&& generators.enumerable()
                    &&& made.carrier().wf()
                    &&& made.carrier()@.len() <= bound
                    &&& within_type::<O, T, FiniteSet<T>>(&made.carrier())
                    &&& is_group_closure::<O, T>(
                        members::<T, G>(&*generators),
                        members::<T, FiniteSet<T>>(&made.carrier()),
                    )
                },
                Err(e) => if generators.enumerable() {
                    e == AlgebraError::ClosureTooLarge && group_closure_exceeds::<O, T>(
                        members::<T, G>(&*generators),
                        bound as nat,
                    )
                } else {
                    e == AlgebraError::NotEnumerable
                },
            },
    {
        match close_to_group::<O, T, G>(&*generators, bound) {
            Ok(set) => Ok(Group::new_unchecked(Rc::new(set))),
            Err(e) => Err(e),
        }
    }
}

} // verus!
