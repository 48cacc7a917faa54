//! Operation tags and the capabilities an element type declares for a tag.
//!
//! Every capability is stated over the mathematical value of an element (its
//! view): which values are elements, what the operation computes, and the laws
//! that an implementation proves once for the whole type.

use vstd::prelude::*;

verus! {

/// Marks a type as the name of an operation.
pub trait OpFlag {}

/// The operation written additively.
pub struct ADD {}

/// The operation written multiplicatively.
pub struct MUL {}

/// Any further operation, told apart by its index.
pub struct OP<const T: usize> {}

impl OpFlag for ADD {}

impl OpFlag for MUL {}

impl<const T: usize> OpFlag for OP<T> {}

/// A total binary operation, under the tag `O`, under which the elements of the
/// type are closed.
pub trait Op<O: OpFlag>: Sized + View {
    /// The values that are elements of the type under this operation.
    spec fn is_element(v: Self::V) -> bool;

    /// The operation on values.
    spec fn op_spec(a: Self::V, b: Self::V) -> Self::V;

    /// Combining two elements gives an element.
    proof fn lemma_op_closed(a: Self::V, b: Self::V)
        requires
            Self::is_element(a),
            Self::is_element(b),
        ensures
            Self::is_element(Self::op_spec(a, b)),
    ;

    /// Combines `self` with `other`, in this order.
    fn op(&self, other: Self) -> (r: Self)
        requires
            Self::is_element(self@),
            Self::is_element(other@),
        ensures
            r@ == Self::op_spec(self@, other@),
    ;
}

/// `e` combined with itself until it occurs `n` times, from the left; `e` itself
/// for `n <= 1`.
pub open spec fn power<O: OpFlag, T: Op<O>>(e: T::V, n: nat) -> T::V
    decreases n,
{
    if n <= 1 {
        e
    } else {
        T::op_spec(power::<O, T>(e, (n - 1) as nat), e)
    }
}

/// Every power of an element is an element.
pub proof fn lemma_power_is_element<O: OpFlag, T: Op<O>>(e: T::V, n: nat)
    requires
        T::is_element(e),
    ensures
        T::is_element(power::<O, T>(e, n)),
    decreases n,
{
    if n > 1 {
        lemma_power_is_element::<O, T>(e, (n - 1) as nat);
        T::lemma_op_closed(power::<O, T>(e, (n - 1) as nat), e);
    }
}

/// The operation of `T` under `O` may be regrouped freely on elements.
pub open spec fn regroups<O: OpFlag, T: Op<O>>() -> bool {
    forall|a: T::V, b: T::V, c: T::V|
        T::is_element(a) && T::is_element(b) && T::is_element(c) ==> #[trigger] T::op_spec(
            T::op_spec(a, b),
            c,
        ) == T::op_spec(a, T::op_spec(b, c))
}

/// Where the operation regroups, powers of one element multiply by adding
/// exponents.
pub proof fn lemma_power_add_regrouped<O: OpFlag, T: Op<O>>(e: T::V, a: nat, b: nat)
    requires
        regroups::<O, T>(),
        T::is_element(e),
        a >= 1,
        b >= 1,
    ensures
        T::op_spec(power::<O, T>(e, a), power::<O, T>(e, b)) == power::<O, T>(e, a + b),
    decreases b,
{
    if b > 1 {
        let pa = power::<O, T>(e, a);
        let pb = power::<O, T>(e, (b - 1) as nat);
        lemma_power_is_element::<O, T>(e, a);
        lemma_power_is_element::<O, T>(e, (b - 1) as nat);
        lemma_power_add_regrouped::<O, T>(e, a, (b - 1) as nat);
        assert(T::op_spec(T::op_spec(pa, pb), e) == T::op_spec(pa, T::op_spec(pb, e)));
        assert(power::<O, T>(e, a + b) == T::op_spec(power::<O, T>(e, (a + b - 1) as nat), e));
    }
}

/// An operation that may be regrouped freely.
pub trait Associative<O: OpFlag>: Op<O> {
    /// `(a b) c == a (b c)` for all elements.
    proof fn lemma_associative(a: Self::V, b: Self::V, c: Self::V)
        requires
            Self::is_element(a),
            Self::is_element(b),
            Self::is_element(c),
        ensures
            Self::op_spec(Self::op_spec(a, b), c) == Self::op_spec(a, Self::op_spec(b, c)),
    ;

    /// The `n`-th power of `self`, by squaring: the result picks up the current
    /// multiplier for every set bit of `n - 1`, and the multiplier doubles its
    /// exponent at every step.
    fn repeated_op(&self, n: usize) -> (r: Self) where Self: Copy
        requires
            Self::is_element(self@),
            n >= 1,
        ensures
            r@ == power::<O, Self>(self@, n as nat),
    {
        let mut k: usize = n - 1;
        let mut mult: Self = *self;
        let mut result: Self = *self;
        let ghost mut m: nat = 1;
        let ghost mut done: nat = 1;
        while k > 0
            invariant
                Self::is_element(self@),
                m >= 1,
                done >= 1,
                done + m * k == n,
                mult@ == power::<O, Self>(self@, m),
                result@ == power::<O, Self>(self@, done),
            decreases k,
        {
            proof {
                assert(regroups::<O, Self>()) by {
                    assert forall|a: Self::V, b: Self::V, c: Self::V|
                        Self::is_element(a) && Self::is_element(b) && Self::is_element(
                            c,
                        ) implies #[trigger] Self::op_spec(Self::op_spec(a, b), c)
                        == Self::op_spec(a, Self::op_spec(b, c)) by {
                        Self::lemma_associative(a, b, c);
                    }
                }
                lemma_power_is_element::<O, Self>(self@, m);
                lemma_power_is_element::<O, Self>(self@, done);
                lemma_power_add_regrouped::<O, Self>(self@, done, m);
                lemma_power_add_regrouped::<O, Self>(self@, m, m);
                assert(k & 1 == k % 2) by (bit_vector);
                let half = (k / 2) as nat;
                let low = (k % 2) as nat;
                assert(m * k == (m + m) * half + m * low) by (nonlinear_arith)
                    requires
                        k == 2 * half + low,
                ;
                assert(m * low == (if low == 1 {
                    m
                } else {
                    0
                })) by (nonlinear_arith)
                    requires
                        low == 0 || low == 1,
                ;
            }
            if k & 1 == 1 {
                result = result.op(mult);
                proof {
                    done = done + m;
                }
            }
            k /= 2;
            mult = mult.op(mult);
            proof {
                m = m + m;
            }
        }
        result
    }
}

/// An associative operation regroups.
pub proof fn lemma_regroups<O: OpFlag, T: Associative<O>>()
    ensures
        regroups::<O, T>(),
{
    assert forall|a: T::V, b: T::V, c: T::V|
        T::is_element(a) && T::is_element(b) && T::is_element(c) implies #[trigger] T::op_spec(
        T::op_spec(a, b),
        c,
    ) == T::op_spec(a, T::op_spec(b, c)) by {
        T::lemma_associative(a, b, c);
    }
}

/// Powers of one element multiply by adding exponents.
pub proof fn lemma_power_add<O: OpFlag, T: Associative<O>>(e: T::V, a: nat, b: nat)
    requires
        T::is_element(e),
        a >= 1,
        b >= 1,
    ensures
        T::op_spec(power::<O, T>(e, a), power::<O, T>(e, b)) == power::<O, T>(e, a + b),
{
    lemma_regroups::<O, T>();
    lemma_power_add_regrouped::<O, T>(e, a, b);
}

/// A two-sided identity of the whole type under the operation.
pub trait Identity<O: OpFlag>: Op<O> {
    /// The value of the identity.
    spec fn identity_spec() -> Self::V;

    /// The identity is an element wherever there is one at all, and combining
    /// with it on either side changes nothing.
    proof fn lemma_identity(a: Self::V)
        requires
            Self::is_element(a),
        ensures
            Self::is_element(Self::identity_spec()),
            Self::op_spec(a, Self::identity_spec()) == a,
            Self::op_spec(Self::identity_spec(), a) == a,
    ;

    /// The identity of the type.
    fn identity() -> (r: Self)
        ensures
            r@ == Self::identity_spec(),
    ;
}

/// A two-sided inverse for every element.
///
/// Nothing is said here of whether the inverse is again an element: see
/// [`inverse_closed`].
pub trait Inverse<O: OpFlag>: Identity<O> {
    /// The value of the inverse of `a`.
    spec fn inverse_spec(a: Self::V) -> Self::V;

    /// An element combined with its inverse, on either side, is the identity.
    proof fn lemma_inverse(a: Self::V)
        requires
            Self::is_element(a),
        ensures
            Self::op_spec(a, Self::inverse_spec(a)) == Self::identity_spec(),
            Self::op_spec(Self::inverse_spec(a), a) == Self::identity_spec(),
    ;

    /// The inverse of `self`.
    fn inverse(&self) -> (r: Self)
        requires
            Self::is_element(self@),
        ensures
            r@ == Self::inverse_spec(self@),
    ;
}

/// The inverse of every element is an element.
pub open spec fn inverse_closed<O: OpFlag, T: Inverse<O>>() -> bool {
    forall|a: T::V| T::is_element(a) ==> T::is_element(#[trigger] T::inverse_spec(a))
}

/// Elements that `==` compares by value and `clone` duplicates by value.
pub trait Element: Sized + View + PartialEq + Clone {
    /// `==` holds of two elements exactly when their values are equal.
    proof fn lemma_eq_by_value()
        ensures
            vstd::laws_eq::obeys_view_eq::<Self>(),
    ;

    /// A clone has the value of what it was cloned from.
    proof fn lemma_clone_by_value(a: Self, b: Self)
        requires
            cloned::<Self>(a, b),
        ensures
            a@ == b@,
    ;
}

/// `k` is positive and the `k`-th power of `e` is the identity.
pub open spec fn is_period<O: OpFlag, T: Identity<O>>(e: T::V, k: nat) -> bool {
    k >= 1 && power::<O, T>(e, k) == T::identity_spec()
}

/// Some positive power of `e` is the identity.
pub open spec fn has_finite_order<O: OpFlag, T: Identity<O>>(e: T::V) -> bool {
    exists|k: nat| is_period::<O, T>(e, k)
}

/// `k` is the smallest positive exponent that takes `e` to the identity.
pub open spec fn is_order<O: OpFlag, T: Identity<O>>(e: T::V, k: nat) -> bool {
    is_period::<O, T>(e, k) && forall|j: nat| is_period::<O, T>(e, j) ==> k <= j
}

/// The order of `e`: the smallest positive exponent that takes it to the
/// identity, where there is one.
pub open spec fn element_order<O: OpFlag, T: Identity<O>>(e: T::V) -> nat {
    choose|k: nat| is_order::<O, T>(e, k)
}

/// Below any period of `e` lies its order.
proof fn lemma_least_period<O: OpFlag, T: Identity<O>>(e: T::V, k: nat) -> (least: nat)
    requires
        is_period::<O, T>(e, k),
    ensures
        is_order::<O, T>(e, least),
        least <= k,
    decreases k,
{
    if exists|j: nat| j < k && is_period::<O, T>(e, j) {
        let j = choose|j: nat| j < k && is_period::<O, T>(e, j);
        lemma_least_period::<O, T>(e, j)
    } else {
        k
    }
}

/// An element of finite order has an order, and no two.
pub proof fn lemma_order_exists<O: OpFlag, T: Identity<O>>(e: T::V)
    requires
        has_finite_order::<O, T>(e),
    ensures
        is_order::<O, T>(e, element_order::<O, T>(e)),
        forall|k: nat| is_order::<O, T>(e, k) ==> k == element_order::<O, T>(e),
{
    let k = choose|k: nat| is_period::<O, T>(e, k);
    let least = lemma_least_period::<O, T>(e, k);
}

/// In a group, what multiplies an element to the identity from the right is
/// its inverse.
pub proof fn lemma_inverse_unique<O: OpFlag, T: Inverse<O> + Associative<O>>(a: T::V, b: T::V)
    requires
        T::is_element(a),
        T::is_element(b),
        T::is_element(T::inverse_spec(a)),
        T::op_spec(a, b) == T::identity_spec(),
    ensures
        b == T::inverse_spec(a),
{
    let e = T::identity_spec();
    let i = T::inverse_spec(a);
    T::lemma_identity(b);
    T::lemma_identity(i);
    T::lemma_inverse(a);
    T::lemma_associative(i, a, b);
}

/// In a group, the inverse of the inverse of an element is the element.
pub proof fn lemma_inverse_involution<O: OpFlag, T: Inverse<O> + Associative<O>>(a: T::V)
    requires
        T::is_element(a),
        inverse_closed::<O, T>(),
    ensures
        T::inverse_spec(T::inverse_spec(a)) == a,
{
    let i = T::inverse_spec(a);
    T::lemma_inverse(a);
    assert(T::is_element(T::inverse_spec(i)));
    lemma_inverse_unique::<O, T>(i, a);
}

/// In a group, the identity is its own inverse.
pub proof fn lemma_identity_self_inverse<O: OpFlag, T: Inverse<O> + Associative<O>>()
    requires
        T::is_element(T::identity_spec()),
        inverse_closed::<O, T>(),
    ensures
        T::inverse_spec(T::identity_spec()) == T::identity_spec(),
{
    let e = T::identity_spec();
    T::lemma_identity(e);
    assert(T::is_element(T::inverse_spec(e)));
    lemma_inverse_unique::<O, T>(e, e);
}

/// In a group, the inverse of a product is the product of the inverses in
/// the opposite order.
pub proof fn lemma_inverse_of_product<O: OpFlag, T: Inverse<O> + Associative<O>>(a: T::V, b: T::V)
    requires
        T::is_element(a),
        T::is_element(b),
        inverse_closed::<O, T>(),
    ensures
        T::inverse_spec(T::op_spec(a, b)) == T::op_spec(T::inverse_spec(b), T::inverse_spec(a)),
{
    let e = T::identity_spec();
    let ia = T::inverse_spec(a);
    let ib = T::inverse_spec(b);
    let ab = T::op_spec(a, b);
    let w = T::op_spec(ib, ia);
    assert(T::is_element(ia) && T::is_element(ib));
    T::lemma_op_closed(a, b);
    T::lemma_op_closed(ib, ia);
    assert(T::is_element(T::inverse_spec(ab)));
    // (a b) (b' a') == a ((b b') a') == a a' == e
    T::lemma_associative(a, b, w);
    T::lemma_associative(b, ib, ia);
    T::lemma_inverse(b);
    T::lemma_identity(ia);
    T::lemma_inverse(a);
    lemma_inverse_unique::<O, T>(ab, w);
}

/// In a group, a common factor on the left may be struck out.
pub proof fn lemma_cancel_left<O: OpFlag, T: Inverse<O> + Associative<O>>(a: T::V, x: T::V, y: T::V)
    requires
        T::is_element(a),
        T::is_element(x),
        T::is_element(y),
        T::is_element(T::inverse_spec(a)),
        T::op_spec(a, x) == T::op_spec(a, y),
    ensures
        x == y,
{
    let i = T::inverse_spec(a);
    T::lemma_inverse(a);
    T::lemma_identity(x);
    T::lemma_identity(y);
    T::lemma_associative(i, a, x);
    T::lemma_associative(i, a, y);
}

/// In a group with finitely many elements, every element has finite order,
/// and its order is at most the number of elements.
pub proof fn lemma_finite_order<O: OpFlag, T: Inverse<O> + Associative<O>>(e: T::V, all: Set<T::V>)
    requires
        all.finite(),
        forall|v: T::V| T::is_element(v) ==> all.contains(v),
        inverse_closed::<O, T>(),
        T::is_element(e),
    ensures
        has_finite_order::<O, T>(e),
        element_order::<O, T>(e) <= all.len(),
{
    let n = all.len();
    let powers = Seq::new(n + 1, |i: int| power::<O, T>(e, (i + 1) as nat));
    assert forall|i: int| 0 <= i < powers.len() implies all.contains(#[trigger] powers[i]) by {
        lemma_power_is_element::<O, T>(e, (i + 1) as nat);
    }
    if powers.no_duplicates() {
        powers.unique_seq_to_set();
        assert(powers.to_set().subset_of(all)) by {
            assert forall|v: T::V| powers.to_set().contains(v) implies all.contains(v) by {
                let i = choose|i: int| 0 <= i < powers.len() && powers[i] == v;
                assert(all.contains(powers[i]));
            }
        }
        vstd::set_lib::lemma_len_subset(powers.to_set(), all);
        assert(false);
    }
    let (i, j) = choose|i: int, j: int|
        0 <= i < powers.len() && 0 <= j < powers.len() && i != j && powers[i] == powers[j];
    let lo = if i < j {
        i
    } else {
        j
    };
    let hi = if i < j {
        j
    } else {
        i
    };
    let d = (hi - lo) as nat;
    let a = power::<O, T>(e, (lo + 1) as nat);
    assert(powers[lo] == powers[hi]);
    lemma_power_is_element::<O, T>(e, (lo + 1) as nat);
    lemma_power_is_element::<O, T>(e, d);
    lemma_power_add::<O, T>(e, (lo + 1) as nat, d);
    T::lemma_identity(a);
    lemma_cancel_left::<O, T>(a, power::<O, T>(e, d), T::identity_spec());
    assert(is_period::<O, T>(e, d));
    lemma_order_exists::<O, T>(e);
}

} // verus!
