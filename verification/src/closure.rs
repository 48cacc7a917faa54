//! The closure of a set of generators under an operation: the least set that
//! holds the generators and, with any two of its elements, their product.

use vstd::laws_eq::obeys_view_eq;
use vstd::prelude::*;

use crate::errors::AlgebraError;
use crate::ops::inverse_closed;
use crate::ops::lemma_identity_self_inverse;
use crate::ops::lemma_inverse_involution;
use crate::ops::lemma_inverse_of_product;
use crate::ops::Associative;
use crate::ops::Element;
use crate::ops::Identity;
use crate::ops::Inverse;
use crate::ops::Op;
use crate::ops::OpFlag;
use crate::set::FiniteSet;
use crate::set::SetT;

verus! {

/// The values of the elements of `list`, in their order.
pub open spec fn views<T: View>(list: Seq<T>) -> Seq<T::V> {
    Seq::new(list.len(), |i: int| list[i]@)
}

/// With any two of its values, `s` holds their product.
pub open spec fn op_closed<O: OpFlag, T: Op<O>>(s: Set<T::V>) -> bool {
    forall|a: T::V, b: T::V| s.contains(a) && s.contains(b) ==> s.contains(#[trigger] T::op_spec(a, b))
}

/// `v` lies in every set that holds `gens` and is closed under the operation:
/// it is a product of generators, however grouped.
pub open spec fn generated<O: OpFlag, T: Op<O>>(gens: Set<T::V>, v: T::V) -> bool {
    forall|t: Set<T::V>| gens.subset_of(t) && #[trigger] op_closed::<O, T>(t) ==> t.contains(v)
}

/// `s` is the closure of `gens` under the operation: it holds `gens`, is
/// closed, and lies within every closed set that holds `gens`.
pub open spec fn is_op_closure<O: OpFlag, T: Op<O>>(gens: Set<T::V>, s: Set<T::V>) -> bool {
    &&& gens.subset_of(s)
    &&& op_closed::<O, T>(s)
    &&& forall|v: T::V| s.contains(v) ==> generated::<O, T>(gens, v)
}

/// Every closed set that holds `gens` has more than `bound` values: so, then,
/// has the closure of `gens`.
pub open spec fn closure_exceeds<O: OpFlag, T: Op<O>>(gens: Set<T::V>, bound: nat) -> bool {
    forall|s: Set<T::V>|
        gens.subset_of(s) && #[trigger] op_closed::<O, T>(s) ==> !(s.finite() && s.len() <= bound)
}

/// The product of the elements at `p` and `q` of `list` is a value of `list`.
pub open spec fn product_in<O: OpFlag, T: Op<O>>(list: Seq<T>, p: int, q: int) -> bool {
    views(list).contains(T::op_spec(list[p]@, list[q]@))
}

/// One more element at the end keeps what the list held.
proof fn lemma_views_push<T: View>(list: Seq<T>, x: T)
    ensures
        views(list.push(x)) == views(list).push(x@),
        forall|v: T::V| views(list).contains(v) ==> views(list.push(x)).contains(v),
        views(list.push(x)).contains(x@),
{
    assert(views(list.push(x)) =~= views(list).push(x@));
    assert forall|v: T::V| views(list).contains(v) implies views(list.push(x)).contains(v) by {
        let i = choose|i: int| 0 <= i < views(list).len() && views(list)[i] == v;
        assert(views(list.push(x))[i] == v);
    }
    assert(views(list.push(x))[list.len() as int] == x@);
}

/// Appends `x` to `list` unless an equal element is there; fails where that
/// would take the list beyond `bound` elements.
fn push_new<T: Element>(list: &mut Vec<T>, x: T, bound: usize) -> (r: Result<(), AlgebraError>)
    requires
        views(old(list)@).no_duplicates(),
    ensures
        views(final(list)@).no_duplicates(),
        match r {
            Ok(_) => if views(old(list)@).contains(x@) {
                final(list)@ == old(list)@
            } else {
                old(list)@.len() < bound && final(list)@ == old(list)@.push(x)
            },
            Err(e) => e == AlgebraError::ClosureTooLarge && !views(old(list)@).contains(x@) && old(
                list,
            )@.len() >= bound && final(list)@ == old(list)@,
        },
{
    proof {
        T::lemma_eq_by_value();
    }
    let mut k: usize = 0;
    while k < list.len()
        invariant
            k <= list.len(),
            list@ == old(list)@,
            views(list@).no_duplicates(),
            obeys_view_eq::<T>(),
            forall|j: int| 0 <= j < k ==> list@[j]@ != x@,
        decreases list.len() - k,
    {
        proof {
            reveal(obeys_view_eq);
        }
        if list[k] == x {
            proof {
                assert(views(list@)[k as int] == x@);
            }
            return Ok(());
        }
        k += 1;
    }
    proof {
        if views(list@).contains(x@) {
            let i = choose|i: int| 0 <= i < views(list@).len() && views(list@)[i] == x@;
            assert(list@[i]@ == x@);
        }
    }
    if list.len() >= bound {
        return Err(AlgebraError::ClosureTooLarge);
    }
    proof {
        lemma_views_push(list@, x);
        assert(views(list@).push(x@).no_duplicates());
    }
    list.push(x);
    Ok(())
}

/// What holds of the list all the while a closure is built: no value twice,
/// and every value an element that the generators generate.
pub open spec fn sound<O: OpFlag, T: Op<O>>(gens: Set<T::V>, list: Seq<T>) -> bool {
    &&& views(list).no_duplicates()
    &&& forall|k: int| 0 <= k < list.len() ==> T::is_element(#[trigger] list[k]@)
    &&& forall|k: int| 0 <= k < list.len() ==> generated::<O, T>(gens, #[trigger] list[k]@)
}

/// `b` begins with `a`.
pub open spec fn grows<T>(a: Seq<T>, b: Seq<T>) -> bool {
    a.len() <= b.len() && forall|k: int| 0 <= k < a.len() ==> #[trigger] b[k] == a[k]
}

/// What a list held, it holds after it grew.
proof fn lemma_grows<O: OpFlag, T: Op<O>>(a: Seq<T>, b: Seq<T>)
    requires
        grows(a, b),
    ensures
        forall|v: T::V| views(a).contains(v) ==> views(b).contains(v),
        forall|p: int, q: int|
            0 <= p < a.len() && 0 <= q < a.len() && #[trigger] product_in::<O, T>(a, p, q)
                ==> product_in::<O, T>(b, p, q),
{
    assert forall|v: T::V| views(a).contains(v) implies views(b).contains(v) by {
        let i = choose|i: int| 0 <= i < views(a).len() && views(a)[i] == v;
        assert(views(b)[i] == v);
    }
}

/// The product of two generated values is generated.
proof fn lemma_generated_product<O: OpFlag, T: Op<O>>(gens: Set<T::V>, a: T::V, b: T::V)
    requires
        generated::<O, T>(gens, a),
        generated::<O, T>(gens, b),
    ensures
        generated::<O, T>(gens, T::op_spec(a, b)),
{
    assert forall|t: Set<T::V>| gens.subset_of(t) && #[trigger] op_closed::<O, T>(t) implies t.contains(
        T::op_spec(a, b),
    ) by {
        assert(t.contains(a) && t.contains(b));
    }
}

/// A list of `bound` distinct generated values and one more beside them show
/// that the closure has more than `bound` values.
proof fn lemma_exceeds<O: OpFlag, T: Op<O>>(gens: Set<T::V>, list: Seq<T>, x: T::V, bound: nat)
    requires
        sound::<O, T>(gens, list),
        generated::<O, T>(gens, x),
        !views(list).contains(x),
        list.len() >= bound,
    ensures
        closure_exceeds::<O, T>(gens, bound),
{
    let w = views(list).push(x);
    assert(w.no_duplicates());
    w.unique_seq_to_set();
    assert forall|s: Set<T::V>| gens.subset_of(s) && #[trigger] op_closed::<O, T>(s) implies !(
    s.finite() && s.len() <= bound) by {
        if s.finite() {
            assert(w.to_set().subset_of(s)) by {
                assert forall|v: T::V| w.to_set().contains(v) implies s.contains(v) by {
                    let i = choose|i: int| 0 <= i < w.len() && w[i] == v;
                    if i < list.len() {
                        assert(generated::<O, T>(gens, list[i]@));
                    }
                }
            }
            vstd::set_lib::lemma_len_subset(w.to_set(), s);
        }
    }
}

/// Takes `x` into the list unless it is there; where the list is full, the
/// closure is too large.
fn take_in<O: OpFlag, T: Op<O> + Element>(
    list: &mut Vec<T>,
    x: T,
    bound: usize,
    Ghost(gens): Ghost<Set<T::V>>,
) -> (r: Result<(), AlgebraError>)
    requires
        sound::<O, T>(gens, old(list)@),
        T::is_element(x@),
        generated::<O, T>(gens, x@),
        old(list)@.len() <= bound,
    ensures
        match r {
            Ok(_) => sound::<O, T>(gens, final(list)@) && grows(old(list)@, final(list)@) && views(
                final(list)@,
            ).contains(x@) && final(list)@.len() <= bound,
            Err(e) => e == AlgebraError::ClosureTooLarge && closure_exceeds::<O, T>(
                gens,
                bound as nat,
            ),
        },
{
    let ghost before = list@;
    let r = push_new(list, x, bound);
    proof {
        match r {
            Ok(_) => {
                if !views(before).contains(x@) {
                    lemma_views_push(before, x);
                }
            },
            Err(_) => {
                lemma_exceeds::<O, T>(gens, before, x@, bound as nat);
            },
        }
    }
    r
}

/// The closure of the elements of `seed` under the operation, each value once,
/// found by multiplying every pair of elements found so far until nothing new
/// comes; `ClosureTooLarge` as soon as more than `bound` values are found.
pub fn generate<O: OpFlag, T: Op<O> + Element>(seed: Vec<T>, bound: usize) -> (r: Result<
    Vec<T>,
    AlgebraError,
>)
    requires
        forall|k: int| 0 <= k < seed@.len() ==> T::is_element(#[trigger] seed@[k]@),
    ensures
        match r {
            Ok(list) => {
                &&& is_op_closure::<O, T>(views(seed@).to_set(), views(list@).to_set())
                &&& views(list@).no_duplicates()
                &&& list@.len() <= bound
                &&& forall|k: int| 0 <= k < list@.len() ==> T::is_element(#[trigger] list@[k]@)
            },
            Err(e) => e == AlgebraError::ClosureTooLarge && closure_exceeds::<O, T>(
                views(seed@).to_set(),
                bound as nat,
            ),
        },
{
    let ghost gens = views(seed@).to_set();
    let mut list: Vec<T> = Vec::new();
    let mut k: usize = 0;
    while k < seed.len()
        invariant
            k <= seed.len(),
            gens == views(seed@).to_set(),
            forall|j: int| 0 <= j < seed@.len() ==> T::is_element(#[trigger] seed@[j]@),
            sound::<O, T>(gens, list@),
            list@.len() <= bound,
            forall|j: int| 0 <= j < k ==> views(list@).contains(#[trigger] seed@[j]@),
        decreases seed.len() - k,
    {
        let x = seed[k].clone();
        proof {
            T::lemma_clone_by_value(seed@[k as int], x);
            assert(views(seed@)[k as int] == x@);
            assert(gens.contains(x@));
        }
        let ghost before = list@;
        match take_in::<O, T>(&mut list, x, bound, Ghost(gens)) {
            Ok(_) => {},
            Err(e) => {
                return Err(e);
            },
        }
        proof {
            lemma_grows::<O, T>(before, list@);
        }
        k += 1;
    }
    let mut i: usize = 0;
    while i < list.len()
        invariant
            i <= list.len(),
            gens == views(seed@).to_set(),
            sound::<O, T>(gens, list@),
            list@.len() <= bound,
            forall|j: int| 0 <= j < seed@.len() ==> views(list@).contains(#[trigger] seed@[j]@),
            forall|p: int, q: int| 0 <= p < i && 0 <= q < i ==> #[trigger] product_in::<O, T>(list@, p, q),
        decreases bound - list.len(), list.len() - i,
    {
        let ghost start = list@.len();
        let mut j: usize = 0;
        while j <= i
            invariant
                j <= i + 1,
                i < list.len(),
                gens == views(seed@).to_set(),
                sound::<O, T>(gens, list@),
                list@.len() <= bound,
                forall|j: int| 0 <= j < seed@.len() ==> views(list@).contains(#[trigger] seed@[j]@),
                forall|p: int, q: int|
                    0 <= p < i && 0 <= q < i ==> #[trigger] product_in::<O, T>(list@, p, q),
                forall|q: int| 0 <= q < j ==> #[trigger] product_in::<O, T>(list@, i as int, q),
                forall|q: int| 0 <= q < j ==> #[trigger] product_in::<O, T>(list@, q, i as int),
                list@.len() >= start,
            decreases i + 1 - j,
        {
            let a = list[i].clone();
            let b = list[j].clone();
            proof {
                T::lemma_clone_by_value(list@[i as int], a);
                T::lemma_clone_by_value(list@[j as int], b);
                lemma_generated_product::<O, T>(gens, a@, b@);
                lemma_generated_product::<O, T>(gens, b@, a@);
                T::lemma_op_closed(a@, b@);
                T::lemma_op_closed(b@, a@);
            }
            let b2 = b.clone();
            let a2 = a.clone();
            proof {
                T::lemma_clone_by_value(b, b2);
                T::lemma_clone_by_value(a, a2);
            }
            let ab = a.op(b);
            let ba = b2.op(a2);
            let ghost first = list@;
            match take_in::<O, T>(&mut list, ab, bound, Ghost(gens)) {
                Ok(_) => {},
                Err(e) => {
                    return Err(e);
                },
            }
            let ghost second = list@;
            match take_in::<O, T>(&mut list, ba, bound, Ghost(gens)) {
                Ok(_) => {},
                Err(e) => {
                    return Err(e);
                },
            }
            proof {
                lemma_grows::<O, T>(first, second);
                lemma_grows::<O, T>(second, list@);
                lemma_grows::<O, T>(first, list@);
                assert(product_in::<O, T>(list@, i as int, j as int));
                assert(product_in::<O, T>(list@, j as int, i as int));
                assert forall|q: int| 0 <= q < j + 1 implies #[trigger] product_in::<O, T>(
                    list@,
                    i as int,
                    q,
                ) by {
                    if q < j {
                        assert(product_in::<O, T>(first, i as int, q));
                    }
                }
                assert forall|q: int| 0 <= q < j + 1 implies #[trigger] product_in::<O, T>(
                    list@,
                    q,
                    i as int,
                ) by {
                    if q < j {
                        assert(product_in::<O, T>(first, q, i as int));
                    }
                }
                assert forall|p: int, q: int| 0 <= p < i && 0 <= q < i implies #[trigger] product_in::<
                    O,
                    T,
                >(list@, p, q) by {
                    assert(product_in::<O, T>(first, p, q));
                }
            }
            j += 1;
        }
        i += 1;
    }
    proof {
        let s = views(list@).to_set();
        assert(gens.subset_of(s)) by {
            assert forall|v: T::V| gens.contains(v) implies s.contains(v) by {
                let j = choose|j: int| 0 <= j < views(seed@).len() && views(seed@)[j] == v;
                assert(views(list@).contains(seed@[j]@));
            }
        }
        assert(op_closed::<O, T>(s)) by {
            assert forall|a: T::V, b: T::V| s.contains(a) && s.contains(b) implies s.contains(
                #[trigger] T::op_spec(a, b),
            ) by {
                let p = choose|p: int| 0 <= p < views(list@).len() && views(list@)[p] == a;
                let q = choose|q: int| 0 <= q < views(list@).len() && views(list@)[q] == b;
                assert(product_in::<O, T>(list@, p, q));
            }
        }
        assert forall|v: T::V| s.contains(v) implies generated::<O, T>(gens, v) by {
            let p = choose|p: int| 0 <= p < views(list@).len() && views(list@)[p] == v;
            assert(generated::<O, T>(gens, list@[p]@));
        }
    }
    Ok(list)
}

/// With any of its values, `s` holds its inverse.
pub open spec fn inverse_closed_set<O: OpFlag, T: Inverse<O>>(s: Set<T::V>) -> bool {
    forall|a: T::V| s.contains(a) ==> s.contains(#[trigger] T::inverse_spec(a))
}

/// `s` holds `gens` and the identity and is closed under the operation and
/// under inverses.
pub open spec fn group_closed<O: OpFlag, T: Inverse<O>>(gens: Set<T::V>, s: Set<T::V>) -> bool {
    &&& gens.subset_of(s)
    &&& s.contains(T::identity_spec())
    &&& op_closed::<O, T>(s)
    &&& inverse_closed_set::<O, T>(s)
}

/// `s` is the subgroup that `gens` generate: it is [`group_closed`], and lies
/// within every set that is.
pub open spec fn is_group_closure<O: OpFlag, T: Inverse<O>>(gens: Set<T::V>, s: Set<T::V>) -> bool {
    &&& group_closed::<O, T>(gens, s)
    &&& forall|t: Set<T::V>| #[trigger] group_closed::<O, T>(gens, t) ==> s.subset_of(t)
}

/// Every set that is [`group_closed`] over `gens` has more than `bound` values.
pub open spec fn group_closure_exceeds<O: OpFlag, T: Inverse<O>>(gens: Set<T::V>, bound: nat) -> bool {
    forall|s: Set<T::V>| #[trigger] group_closed::<O, T>(gens, s) ==> !(s.finite() && s.len() <= bound)
}

/// The generators, their inverses and the identity, as the seed of a subgroup.
pub open spec fn group_seed<O: OpFlag, T: Inverse<O>>(gens: Set<T::V>) -> Set<T::V> {
    Set::new(
        |v: T::V|
            v == T::identity_spec() || gens.contains(v) || exists|g: T::V|
                gens.contains(g) && #[trigger] T::inverse_spec(g) == v,
    )
}

/// In a group, the closure of the generators, their inverses and the identity
/// under the operation alone is the subgroup that the generators generate.
pub proof fn lemma_group_closure<O: OpFlag, T: Inverse<O> + Associative<O>>(
    gens: Set<T::V>,
    c: Set<T::V>,
)
    requires
        inverse_closed::<O, T>(),
        T::is_element(T::identity_spec()),
        forall|v: T::V| c.contains(v) ==> T::is_element(v),
        is_op_closure::<O, T>(group_seed::<O, T>(gens), c),
    ensures
        is_group_closure::<O, T>(gens, c),
{
    let seed = group_seed::<O, T>(gens);
    let e = T::identity_spec();
    assert(seed.contains(e));
    assert(gens.subset_of(c)) by {
        assert forall|v: T::V| gens.contains(v) implies c.contains(v) by {
            assert(seed.contains(v));
        }
    }
    let t = Set::new(|v: T::V| c.contains(v) && c.contains(T::inverse_spec(v)));
    assert(seed.subset_of(t)) by {
        assert forall|v: T::V| seed.contains(v) implies t.contains(v) by {
            if v == e {
                lemma_identity_self_inverse::<O, T>();
            } else if gens.contains(v) {
                assert(seed.contains(T::inverse_spec(v)));
            } else {
                let g = choose|g: T::V| gens.contains(g) && #[trigger] T::inverse_spec(g) == v;
                assert(seed.contains(g));
                lemma_inverse_involution::<O, T>(g);
            }
        }
    }
    assert(op_closed::<O, T>(t)) by {
        assert forall|a: T::V, b: T::V| t.contains(a) && t.contains(b) implies t.contains(
            #[trigger] T::op_spec(a, b),
        ) by {
            lemma_inverse_of_product::<O, T>(a, b);
            assert(c.contains(T::op_spec(a, b)));
            assert(c.contains(T::op_spec(T::inverse_spec(b), T::inverse_spec(a))));
        }
    }
    assert(inverse_closed_set::<O, T>(c)) by {
        assert forall|a: T::V| c.contains(a) implies c.contains(#[trigger] T::inverse_spec(a)) by {
            assert(generated::<O, T>(seed, a));
            assert(t.contains(a));
        }
    }
    assert forall|u: Set<T::V>| #[trigger] group_closed::<O, T>(gens, u) implies c.subset_of(u) by {
        assert(seed.subset_of(u)) by {
            assert forall|v: T::V| seed.contains(v) implies u.contains(v) by {
                if v != e && !gens.contains(v) {
                    let g = choose|g: T::V| gens.contains(g) && #[trigger] T::inverse_spec(g) == v;
                    assert(u.contains(g));
                }
            }
        }
        assert forall|v: T::V| c.contains(v) implies u.contains(v) by {
            assert(generated::<O, T>(seed, v));
        }
    }
}

/// The subgroup that the elements of `seed` generate, each value once: the
/// closure, under the operation, of the identity, the elements and their
/// inverses; `ClosureTooLarge` as soon as more than `bound` values are found.
pub fn generate_group<O: OpFlag, T: Inverse<O> + Associative<O> + Element>(
    seed: Vec<T>,
    bound: usize,
) -> (r: Result<Vec<T>, AlgebraError>)
    requires
        inverse_closed::<O, T>(),
        T::is_element(T::identity_spec()),
        forall|k: int| 0 <= k < seed@.len() ==> T::is_element(#[trigger] seed@[k]@),
    ensures
        match r {
            Ok(list) => {
                &&& is_group_closure::<O, T>(views(seed@).to_set(), views(list@).to_set())
                &&& views(list@).no_duplicates()
                &&& list@.len() <= bound
                &&& forall|k: int| 0 <= k < list@.len() ==> T::is_element(#[trigger] list@[k]@)
            },
            Err(e) => e == AlgebraError::ClosureTooLarge && group_closure_exceeds::<O, T>(
                views(seed@).to_set(),
                bound as nat,
            ),
        },
{
    let ghost gens = views(seed@).to_set();
    let mut full: Vec<T> = Vec::new();
    full.push(T::identity());
    let mut k: usize = 0;
    while k < seed.len()
        invariant
            k <= seed.len(),
            inverse_closed::<O, T>(),
            forall|j: int| 0 <= j < seed@.len() ==> T::is_element(#[trigger] seed@[j]@),
            full@.len() == 1 + 2 * k,
            full@[0]@ == T::identity_spec(),
            forall|j: int| 0 <= j < k ==> (#[trigger] full@[1 + 2 * j])@ == seed@[j]@,
            forall|j: int| 0 <= j < k ==> (#[trigger] full@[2 + 2 * j])@ == T::inverse_spec(seed@[j]@),
            forall|j: int| 0 <= j < full@.len() ==> T::is_element(#[trigger] full@[j]@),
        decreases seed.len() - k,
    {
        let g = seed[k].clone();
        proof {
            T::lemma_clone_by_value(seed@[k as int], g);
        }
        let inv = g.inverse();
        let ghost before = full@;
        full.push(g);
        full.push(inv);
        proof {
            assert forall|j: int| 0 <= j < k + 1 implies (#[trigger] full@[1 + 2 * j])@ == seed@[j]@ by {
                if j < k {
                    assert(full@[1 + 2 * j] == before[1 + 2 * j]);
                }
            }
            assert forall|j: int| 0 <= j < k + 1 implies (#[trigger] full@[2 + 2 * j])@
                == T::inverse_spec(seed@[j]@) by {
                if j < k {
                    assert(full@[2 + 2 * j] == before[2 + 2 * j]);
                }
            }
            assert forall|j: int| 0 <= j < full@.len() implies T::is_element(#[trigger] full@[j]@) by {
                if j < before.len() {
                    assert(full@[j] == before[j]);
                }
            }
        }
        k += 1;
    }
    proof {
        let have = views(full@).to_set();
        let want = group_seed::<O, T>(gens);
        assert forall|v: T::V| have.contains(v) implies want.contains(v) by {
            let i = choose|i: int| 0 <= i < views(full@).len() && views(full@)[i] == v;
            if i > 0 {
                let j = (i - 1) / 2;
                if i == 1 + 2 * j {
                    assert(full@[1 + 2 * j]@ == seed@[j]@);
                    assert(views(seed@)[j] == v);
                } else {
                    assert(i == 2 + 2 * j);
                    assert(full@[2 + 2 * j]@ == T::inverse_spec(seed@[j]@));
                    assert(views(seed@)[j] == seed@[j]@);
                    assert(gens.contains(seed@[j]@));
                }
            }
        }
        assert forall|v: T::V| want.contains(v) implies have.contains(v) by {
            if v == T::identity_spec() {
                assert(views(full@)[0] == v);
            } else if gens.contains(v) {
                let j = choose|j: int| 0 <= j < views(seed@).len() && views(seed@)[j] == v;
                assert(views(full@)[1 + 2 * j] == v);
            } else {
                let g = choose|g: T::V| gens.contains(g) && #[trigger] T::inverse_spec(g) == v;
                let j = choose|j: int| 0 <= j < views(seed@).len() && views(seed@)[j] == g;
                assert(views(full@)[2 + 2 * j] == v);
            }
        }
        assert(have =~= want);
    }
    let ghost full_views = views(full@).to_set();
    match generate::<O, T>(full, bound) {
        Ok(list) => {
            proof {
                let c = views(list@).to_set();
                assert forall|v: T::V| c.contains(v) implies T::is_element(v) by {
                    let i = choose|i: int| 0 <= i < views(list@).len() && views(list@)[i] == v;
                    assert(T::is_element(list@[i]@));
                }
                lemma_group_closure::<O, T>(gens, c);
            }
            Ok(list)
        },
        Err(e) => {
            proof {
                assert forall|s: Set<T::V>| #[trigger] group_closed::<O, T>(gens, s) implies !(
                s.finite() && s.len() <= bound) by {
                    assert(full_views.subset_of(s)) by {
                        assert forall|v: T::V| full_views.contains(v) implies s.contains(v) by {
                            if v != T::identity_spec() && !gens.contains(v) {
                                let g = choose|g: T::V|
                                    gens.contains(g) && #[trigger] T::inverse_spec(g) == v;
                                assert(s.contains(g));
                            }
                        }
                    }
                    assert(op_closed::<O, T>(s));
                }
            }
            Err(e)
        },
    }
}

/// The values that belong to `set`.
pub open spec fn members<T: View, S: SetT<T>>(set: &S) -> Set<T::V> {
    Set::new(|v: T::V| set.has(v))
}

/// A finite set holds the values of its list.
pub proof fn lemma_members_of_list<T: View + PartialEq>(set: &FiniteSet<T>)
    ensures
        members::<T, FiniteSet<T>>(set) == views(set@).to_set(),
{
    let a = members::<T, FiniteSet<T>>(set);
    let b = views(set@).to_set();
    assert forall|v: T::V| a.contains(v) == b.contains(v) by {
        if a.contains(v) {
            let i = choose|i: int| 0 <= i < set@.len() && #[trigger] set@[i]@ == v;
            assert(views(set@)[i] == v);
        }
        if b.contains(v) {
            let i = choose|i: int| 0 <= i < views(set@).len() && views(set@)[i] == v;
            assert(set@[i]@ == v);
        }
    }
    assert(a =~= b);
}

/// Copies of the elements of `generators`, where it can list them.
pub fn collect<T: Element, G: SetT<T>>(generators: &G) -> (r: Result<Vec<T>, AlgebraError>)
    requires
        generators.wf(),
    ensures
        match r {
            Ok(seed) => generators.enumerable() && views(seed@).to_set() == members::<T, G>(
                generators,
            ),
            Err(e) => !generators.enumerable() && e == AlgebraError::NotEnumerable,
        },
{
    let list = match generators.iter() {
        Ok(list) => list,
        Err(e) => {
            return Err(e);
        },
    };
    let ghost member = |v: T::V| generators.has(v);
    let mut seed: Vec<T> = Vec::new();
    let mut k: usize = 0;
    while k < list.len()
        invariant
            k <= list.len(),
            seed@.len() == k,
            forall|j: int| 0 <= j < k ==> (#[trigger] seed@[j])@ == list@[j]@,
        decreases list.len() - k,
    {
        let x = list[k].clone();
        proof {
            T::lemma_clone_by_value(*list@[k as int], x);
        }
        seed.push(x);
        k += 1;
    }
    proof {
        let a = views(seed@).to_set();
        let b = members::<T, G>(generators);
        assert forall|v: T::V| a.contains(v) == b.contains(v) by {
            if a.contains(v) {
                let i = choose|i: int| 0 <= i < views(seed@).len() && views(seed@)[i] == v;
                assert(member(list@[i]@));
            }
            if b.contains(v) {
                assert(member(v));
                let i = choose|i: int| 0 <= i < list@.len() && #[trigger] list@[i]@ == v;
                assert(views(seed@)[i] == v);
            }
        }
        assert(a =~= b);
    }
    Ok(seed)
}

/// Every value of `set` is an element of the type under the operation.
pub open spec fn within_type<O: OpFlag, T: Op<O>, S: SetT<T>>(set: &S) -> bool {
    forall|v: T::V| #[trigger] set.has(v) ==> T::is_element(v)
}

/// The closure of the elements of `generators` under the operation, each value
/// listed once. Fails with
/// `NotEnumerable` where `generators` cannot list its elements, and with
/// `ClosureTooLarge` where the closure has more than `bound` values.
pub fn close_under_op<O: OpFlag, T: Op<O> + Element, G: SetT<T>>(
    generators: &G,
    bound: usize,
) -> (r: Result<FiniteSet<T>, AlgebraError>)
    requires
        generators.wf(),
        within_type::<O, T, G>(generators),
    ensures
        match r {
            Ok(made) => {
                &&& generators.enumerable()
                &&& made.wf()
                &&& made@.len() <= bound
                &&& within_type::<O, T, FiniteSet<T>>(&made)
                &&& is_op_closure::<O, T>(
                    members::<T, G>(generators),
                    members::<T, FiniteSet<T>>(&made),
                )
            },
            Err(e) => if generators.enumerable() {
                e == AlgebraError::ClosureTooLarge && closure_exceeds::<O, T>(
                    members::<T, G>(generators),
                    bound as nat,
                )
            } else {
                e == AlgebraError::NotEnumerable
            },
        },
{
    let seed = match collect::<T, G>(generators) {
        Ok(seed) => seed,
        Err(e) => {
            return Err(e);
        },
    };
    proof {
        assert forall|k: int| 0 <= k < seed@.len() implies T::is_element(
            #[trigger] seed@[k]@,
        ) by {
            assert(views(seed@)[k] == seed@[k]@);
            assert(members::<T, G>(generators).contains(seed@[k]@));
        }
    }
    match generate::<O, T>(seed, bound) {
        Ok(list) => {
            let set = FiniteSet::new(list);
            proof {
                T::lemma_eq_by_value();
                lemma_members_of_list::<T>(&set);
                assert forall|v: T::V| #[trigger] set.has(v) implies T::is_element(v) by {
                    let i = choose|i: int| 0 <= i < set@.len() && #[trigger] set@[i]@ == v;
                }
            }
            Ok(set)
        },
        Err(e) => Err(e),
    }
}

/// The closure, under the operation, of the identity and the elements of
/// `generators`, each value listed once. Fails with `NotEnumerable` where `generators`
/// cannot list its elements, and with `ClosureTooLarge` where the closure
/// has more than `bound` values.
pub fn close_with_identity<O: OpFlag, T: Identity<O> + Element, G: SetT<T>>(
    generators: &G,
    bound: usize,
) -> (r: Result<FiniteSet<T>, AlgebraError>)
    requires
        generators.wf(),
        within_type::<O, T, G>(generators),
        T::is_element(T::identity_spec()),
    ensures
        match r {
            Ok(made) => {
                &&& generators.enumerable()
                &&& made.wf()
                &&& made@.len() <= bound
                &&& within_type::<O, T, FiniteSet<T>>(&made)
                &&& made.has(T::identity_spec())
                &&& is_op_closure::<O, T>(
                    members::<T, G>(generators).insert(T::identity_spec()),
                    members::<T, FiniteSet<T>>(&made),
                )
            },
            Err(e) => if generators.enumerable() {
                e == AlgebraError::ClosureTooLarge && closure_exceeds::<O, T>(
                    members::<T, G>(generators).insert(T::identity_spec()),
                    bound as nat,
                )
            } else {
                e == AlgebraError::NotEnumerable
            },
        },
{
    let mut seed = match collect::<T, G>(generators) {
        Ok(seed) => seed,
        Err(e) => {
            return Err(e);
        },
    };
    let ghost found = seed@;
    proof {
        assert forall|k: int| 0 <= k < seed@.len() implies T::is_element(
            #[trigger] seed@[k]@,
        ) by {
            assert(views(seed@)[k] == seed@[k]@);
            assert(members::<T, G>(generators).contains(seed@[k]@));
        }
    }
    seed.push(T::identity());
    proof {
        let a = views(seed@).to_set();
        let b = members::<T, G>(generators).insert(T::identity_spec());
        assert forall|v: T::V| a.contains(v) == b.contains(v) by {
            if a.contains(v) {
                let i = choose|i: int| 0 <= i < views(seed@).len() && views(seed@)[i] == v;
                if i < found.len() {
                    assert(views(found)[i] == v);
                }
            }
            if b.contains(v) {
                if v == T::identity_spec() {
                    assert(views(seed@)[found.len() as int] == v);
                } else {
                    assert(views(found).to_set().contains(v));
                    let i = choose|i: int| 0 <= i < views(found).len() && views(found)[i] == v;
                    assert(views(seed@)[i] == v);
                }
            }
        }
        assert(a =~= b);
        assert forall|k: int| 0 <= k < seed@.len() implies T::is_element(
            #[trigger] seed@[k]@,
        ) by {
            if k < found.len() {
                assert(seed@[k] == found[k]);
            }
        }
    }
    match generate::<O, T>(seed, bound) {
        Ok(list) => {
            let set = FiniteSet::new(list);
            proof {
                T::lemma_eq_by_value();
                lemma_members_of_list::<T>(&set);
                assert forall|v: T::V| #[trigger] set.has(v) implies T::is_element(v) by {
                    let i = choose|i: int| 0 <= i < set@.len() && #[trigger] set@[i]@ == v;
                }
                assert(members::<T, FiniteSet<T>>(&set).contains(T::identity_spec()));
            }
            Ok(set)
        },
        Err(e) => Err(e),
    }
}

/// The least set that holds the elements of `generators` and the identity and
/// is closed under the operation and under inverses, each value listed once.
/// Fails with
/// `NotEnumerable` where `generators` cannot list its elements, and with
/// `ClosureTooLarge` where that set has more than `bound` values.
pub fn close_to_group<O: OpFlag, T: Inverse<O> + Associative<O> + Element, G: SetT<T>>(
    generators: &G,
    bound: usize,
) -> (r: Result<FiniteSet<T>, AlgebraError>)
    requires
        generators.wf(),
        within_type::<O, T, G>(generators),
        T::is_element(T::identity_spec()),
        inverse_closed::<O, T>(),
    ensures
        match r {
            Ok(made) => {
                &&& generators.enumerable()
                &&& made.wf()
                &&& made@.len() <= bound
                &&& within_type::<O, T, FiniteSet<T>>(&made)
                &&& is_group_closure::<O, T>(
                    members::<T, G>(generators),
                    members::<T, FiniteSet<T>>(&made),
                )
            },
            Err(e) => if generators.enumerable() {
                e == AlgebraError::ClosureTooLarge && group_closure_exceeds::<O, T>(
                    members::<T, G>(generators),
                    bound as nat,
                )
            } else {
                e == AlgebraError::NotEnumerable
            },
        },
{
    let seed = match collect::<T, G>(generators) {
        Ok(seed) => seed,
        Err(e) => {
            return Err(e);
        },
    };
    proof {
        assert forall|k: int| 0 <= k < seed@.len() implies T::is_element(
            #[trigger] seed@[k]@,
        ) by {
            assert(views(seed@)[k] == seed@[k]@);
            assert(members::<T, G>(generators).contains(seed@[k]@));
        }
    }
    match generate_group::<O, T>(seed, bound) {
        Ok(list) => {
            let set = FiniteSet::new(list);
            proof {
                T::lemma_eq_by_value();
                lemma_members_of_list::<T>(&set);
                assert forall|v: T::V| #[trigger] set.has(v) implies T::is_element(v) by {
                    let i = choose|i: int| 0 <= i < set@.len() && #[trigger] set@[i]@ == v;
                }
            }
            Ok(set)
        },
        Err(e) => Err(e),
    }
}

/// A finite combination of generators: how a value is reached from them by
/// the operation and by inverses.
pub enum Word<V> {
    /// The identity.
    Identity,
    /// A generator.
    Generator(V),
    /// The product of two combinations, in this order.
    Product(Box<Word<V>>, Box<Word<V>>),
    /// The inverse of a combination.
    Inverse(Box<Word<V>>),
}

/// Every generator that `w` names is one of `gens`.
pub open spec fn over<V>(w: Word<V>, gens: Set<V>) -> bool
    decreases w,
{
    match w {
        Word::Identity => true,
        Word::Generator(v) => gens.contains(v),
        Word::Product(a, b) => over(*a, gens) && over(*b, gens),
        Word::Inverse(a) => over(*a, gens),
    }
}

/// The value that the combination `w` reaches.
pub open spec fn value<O: OpFlag, T: Inverse<O>>(w: Word<T::V>) -> T::V
    decreases w,
{
    match w {
        Word::Identity => T::identity_spec(),
        Word::Generator(v) => v,
        Word::Product(a, b) => T::op_spec(value::<O, T>(*a), value::<O, T>(*b)),
        Word::Inverse(a) => T::inverse_spec(value::<O, T>(*a)),
    }
}

/// Whatever a finite combination of the generators and their inverses reaches
/// lies in every set that holds the generators and the identity and is closed
/// under the operation and under inverses: so in the subgroup they generate.
pub proof fn lemma_word_in_closure<O: OpFlag, T: Inverse<O>>(
    gens: Set<T::V>,
    s: Set<T::V>,
    w: Word<T::V>,
)
    requires
        group_closed::<O, T>(gens, s),
        over(w, gens),
    ensures
        s.contains(value::<O, T>(w)),
    decreases w,
{
    match w {
        Word::Identity => {},
        Word::Generator(v) => {},
        Word::Product(a, b) => {
            lemma_word_in_closure::<O, T>(gens, s, *a);
            lemma_word_in_closure::<O, T>(gens, s, *b);
        },
        Word::Inverse(a) => {
            lemma_word_in_closure::<O, T>(gens, s, *a);
        },
    }
}

/// The subgroup that the generators generate holds nothing but what finite
/// combinations of the generators and their inverses reach.
pub proof fn lemma_closure_is_words<O: OpFlag, T: Inverse<O>>(gens: Set<T::V>, s: Set<T::V>, v: T::V)
    requires
        is_group_closure::<O, T>(gens, s),
        s.contains(v),
    ensures
        exists|w: Word<T::V>| over(w, gens) && value::<O, T>(w) == v,
{
    let reached = Set::new(|x: T::V| exists|w: Word<T::V>| over(w, gens) && value::<O, T>(w) == x);
    assert(gens.subset_of(reached)) by {
        assert forall|x: T::V| gens.contains(x) implies reached.contains(x) by {
            let w = Word::Generator(x);
            assert(over(w, gens) && value::<O, T>(w) == x);
        }
    }
    assert(reached.contains(T::identity_spec())) by {
        let w = Word::<T::V>::Identity;
        assert(over(w, gens) && value::<O, T>(w) == T::identity_spec());
    }
    assert(op_closed::<O, T>(reached)) by {
        assert forall|a: T::V, b: T::V| reached.contains(a) && reached.contains(b) implies reached.contains(
            #[trigger] T::op_spec(a, b),
        ) by {
            let wa = choose|w: Word<T::V>| over(w, gens) && value::<O, T>(w) == a;
            let wb = choose|w: Word<T::V>| over(w, gens) && value::<O, T>(w) == b;
            let w = Word::Product(Box::new(wa), Box::new(wb));
            assert(over(w, gens) && value::<O, T>(w) == T::op_spec(a, b));
        }
    }
    assert(inverse_closed_set::<O, T>(reached)) by {
        assert forall|a: T::V| reached.contains(a) implies reached.contains(
            #[trigger] T::inverse_spec(a),
        ) by {
            let wa = choose|w: Word<T::V>| over(w, gens) && value::<O, T>(w) == a;
            let w = Word::Inverse(Box::new(wa));
            assert(over(w, gens) && value::<O, T>(w) == T::inverse_spec(a));
        }
    }
    assert(group_closed::<O, T>(gens, reached));
    assert(reached.contains(v));
}

} // verus!
