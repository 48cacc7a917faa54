//! Permutations of the points `0..N`, as elements of a group under
//! composition.

use std::collections::HashMap;
use std::rc::Rc;
use std::sync::Arc;
use vstd::prelude::*;
use vstd::std_specs::cmp::PartialEqSpecImpl;

use crate::algebraic_objects::Group;
use crate::algebraic_objects::GroupLike;
use crate::algebraic_objects::WithCarrier;
use crate::ops::has_finite_order;
use crate::ops::inverse_closed;
use crate::ops::lemma_finite_order;
use crate::ops::Associative;
use crate::ops::Element;
use crate::ops::Identity;
use crate::ops::Inverse;
use crate::ops::Op;
use crate::ops::OP;
use crate::set::Cardinality;
use crate::set::SetT;
use crate::set::Universe;

verus! {

/// `s` maps the points `0..n` to themselves without sending two points to one.
pub open spec fn is_permutation(s: Seq<usize>, n: nat) -> bool {
    &&& s.len() == n
    &&& forall|i: int| 0 <= i < n ==> #[trigger] s[i] < n
    &&& forall|i: int, j: int| 0 <= i < j < n ==> #[trigger] s[i] != #[trigger] s[j]
}

/// The mapping that leaves each of the points `0..n` where it is.
pub open spec fn identity_map(n: nat) -> Seq<usize> {
    Seq::new(n, |i: int| i as usize)
}

/// The mapping that applies `a` and then `b`.
pub open spec fn compose(a: Seq<usize>, b: Seq<usize>) -> Seq<usize> {
    Seq::new(a.len(), |i: int| b[a[i] as int])
}

/// A point that `a` sends to `v`.
pub open spec fn preimage(a: Seq<usize>, v: int) -> int {
    choose|i: int| 0 <= i < a.len() && a[i] == v
}

/// The mapping that sends each point back to where `a` took it from.
pub open spec fn inverse_map(a: Seq<usize>) -> Seq<usize> {
    Seq::new(a.len(), |v: int| preimage(a, v) as usize)
}

/// A permutation reaches every point.
pub proof fn lemma_permutation_onto(s: Seq<usize>, n: nat, v: int)
    requires
        is_permutation(s, n),
        0 <= v < n,
    ensures
        0 <= preimage(s, v) < n,
        s[preimage(s, v)] == v,
{
    let t = s.map_values(|x: usize| x as int);
    assert(t.no_duplicates()) by {
        assert forall|i: int, j: int| 0 <= i < t.len() && 0 <= j < t.len() && i != j implies t[i]
            != t[j] by {
            if i < j {
                assert(s[i] != s[j]);
            } else {
                assert(s[j] != s[i]);
            }
        }
    }
    t.unique_seq_to_set();
    let range = vstd::set_lib::set_int_range(0, n as int);
    vstd::set_lib::lemma_int_range(0, n as int);
    assert(t.to_set().subset_of(range)) by {
        assert forall|x: int| t.to_set().contains(x) implies range.contains(x) by {
            let i = choose|i: int| 0 <= i < t.len() && t[i] == x;
            assert(s[i] < n);
        }
    }
    vstd::set_lib::lemma_len_subset(t.to_set(), range);
    vstd::set_lib::lemma_subset_equality(t.to_set(), range);
    assert(range.contains(v));
    assert(t.to_set().contains(v));
    let i = choose|i: int| 0 <= i < t.len() && t[i] == v;
    assert(0 <= i < s.len() && s[i] == v);
}

/// The identity mapping is a permutation.
pub proof fn lemma_identity_map(n: nat)
    requires
        n <= usize::MAX,
    ensures
        is_permutation(identity_map(n), n),
{
}

/// Applying one permutation after another gives a permutation.
pub proof fn lemma_compose_closed(a: Seq<usize>, b: Seq<usize>, n: nat)
    requires
        is_permutation(a, n),
        is_permutation(b, n),
    ensures
        is_permutation(compose(a, b), n),
{
    let c = compose(a, b);
    assert forall|i: int| 0 <= i < n implies #[trigger] c[i] < n by {
        assert(a[i] < n);
        assert(b[a[i] as int] < n);
    }
    assert forall|i: int, j: int| 0 <= i < j < n implies #[trigger] c[i] != #[trigger] c[j] by {
        assert(a[i] != a[j]);
        assert(a[i] < n && a[j] < n);
        if a[i] < a[j] {
            assert(b[a[i] as int] != b[a[j] as int]);
        } else {
            assert(b[a[j] as int] != b[a[i] as int]);
        }
    }
}

/// Composition may be regrouped.
pub proof fn lemma_compose_associative(a: Seq<usize>, b: Seq<usize>, c: Seq<usize>, n: nat)
    requires
        is_permutation(a, n),
        is_permutation(b, n),
        is_permutation(c, n),
    ensures
        compose(compose(a, b), c) == compose(a, compose(b, c)),
{
    assert forall|i: int| 0 <= i < n implies compose(compose(a, b), c)[i] == compose(
        a,
        compose(b, c),
    )[i] by {
        assert(a[i] < n);
    }
    assert(compose(compose(a, b), c) =~= compose(a, compose(b, c)));
}

/// Composing with the identity mapping, before or after, changes nothing.
pub proof fn lemma_compose_identity(a: Seq<usize>, n: nat)
    requires
        is_permutation(a, n),
        n <= usize::MAX,
    ensures
        compose(a, identity_map(n)) == a,
        compose(identity_map(n), a) == a,
{
    assert forall|i: int| 0 <= i < n implies compose(a, identity_map(n))[i] == a[i] by {
        assert(a[i] < n);
    }
    assert(compose(a, identity_map(n)) =~= a);
    assert(compose(identity_map(n), a) =~= a);
}

/// The inverse of a permutation is a permutation, and composing the two, in
/// either order, gives the identity mapping.
pub proof fn lemma_inverse_map(a: Seq<usize>, n: nat)
    requires
        is_permutation(a, n),
        n <= usize::MAX,
    ensures
        is_permutation(inverse_map(a), n),
        compose(a, inverse_map(a)) == identity_map(n),
        compose(inverse_map(a), a) == identity_map(n),
{
    let inv = inverse_map(a);
    assert forall|v: int| 0 <= v < n implies 0 <= preimage(a, v) < n && a[preimage(a, v)] == v by {
        lemma_permutation_onto(a, n, v);
    }
    assert forall|i: int| 0 <= i < n implies preimage(a, a[i] as int) == i by {
        assert(a[i] < n);
        let p = preimage(a, a[i] as int);
        if p < i {
            assert(a[p] != a[i]);
        } else if i < p {
            assert(a[i] != a[p]);
        }
    }
    assert forall|v: int| 0 <= v < n implies #[trigger] inv[v] < n by {
        assert(0 <= preimage(a, v) < n);
    }
    assert forall|v: int, w: int| 0 <= v < w < n implies #[trigger] inv[v] != #[trigger] inv[w] by {
        assert(a[preimage(a, v)] == v);
        assert(a[preimage(a, w)] == w);
    }
    assert forall|i: int| 0 <= i < n implies compose(a, inv)[i] == identity_map(n)[i] by {
        assert(a[i] < n);
        assert(preimage(a, a[i] as int) == i);
    }
    assert(compose(a, inv) =~= identity_map(n));
    assert forall|v: int| 0 <= v < n implies compose(inv, a)[v] == identity_map(n)[v] by {
        assert(a[preimage(a, v)] == v);
    }
    assert(compose(inv, a) =~= identity_map(n));
}

/// The cycles as sequences of points.
pub open spec fn cycle_seqs(cycles: Seq<Vec<usize>>) -> Seq<Seq<usize>> {
    Seq::new(cycles.len(), |c: int| cycles[c]@)
}

/// `(c, i)` is a place in `cycles`: entry `i` of cycle `c`.
pub open spec fn in_cycles(cycles: Seq<Seq<usize>>, c: int, i: int) -> bool {
    0 <= c < cycles.len() && 0 <= i < cycles[c].len()
}

/// The cycles name points of `1..=n`, and no point twice, neither within one
/// cycle nor in two.
pub open spec fn disjoint_cycles(cycles: Seq<Seq<usize>>, n: nat) -> bool {
    &&& forall|c: int, i: int| #[trigger] in_cycles(cycles, c, i) ==> 1 <= cycles[c][i] <= n
    &&& forall|c: int, i: int, d: int, j: int|
        #[trigger] in_cycles(cycles, c, i) && #[trigger] in_cycles(cycles, d, j) && cycles[c][i]
            == cycles[d][j] ==> c == d && i == j
}

/// The place `(c, i)` comes before the place `(d, j)`.
pub open spec fn place_before(c: int, i: int, d: int, j: int) -> bool {
    c < d || (c == d && i < j)
}

/// The point `p` is named at a place of `cycles` before `(d, j)`.
pub open spec fn named_before(cycles: Seq<Seq<usize>>, p: int, d: int, j: int) -> bool {
    exists|c: int, i: int| #[trigger]
        in_cycles(cycles, c, i) && place_before(c, i, d, j) && cycles[c][i] == p
}

/// The point `p` is named somewhere in `cycles`.
pub open spec fn named(cycles: Seq<Seq<usize>>, p: int) -> bool {
    exists|c: int, i: int| #[trigger] in_cycles(cycles, c, i) && cycles[c][i] == p
}

/// The point that follows `p` in its cycle, the first following the last; `p`
/// itself where no cycle names it.
pub open spec fn successor(cycles: Seq<Seq<usize>>, p: int) -> int {
    if named(cycles, p) {
        let (c, i) = choose|c: int, i: int| #[trigger]
            in_cycles(cycles, c, i) && cycles[c][i] == p;
        cycles[c][(i + 1) % (cycles[c].len() as int)] as int
    } else {
        p
    }
}

/// The mapping on `0..n` that the cycles, which count points from 1, describe.
pub open spec fn cycles_map(cycles: Seq<Seq<usize>>, n: nat) -> Seq<usize> {
    Seq::new(n, |j: int| (successor(cycles, j + 1) - 1) as usize)
}

/// The place after `i` in a cycle of length `len`.
proof fn lemma_next_place(i: int, len: int)
    requires
        0 <= i < len,
    ensures
        (i + 1) % len == (if i + 1 < len {
            i + 1
        } else {
            0
        }),
{
    if i + 1 < len {
        vstd::arithmetic::div_mod::lemma_small_mod((i + 1) as nat, len as nat);
    } else {
        vstd::arithmetic::div_mod::lemma_mod_self_0(len);
    }
}

/// In disjoint cycles, the successor of the point at a place is the point at
/// the next place of the same cycle.
proof fn lemma_successor_at(cycles: Seq<Seq<usize>>, n: nat, c: int, i: int)
    requires
        disjoint_cycles(cycles, n),
        in_cycles(cycles, c, i),
    ensures
        successor(cycles, cycles[c][i] as int) == cycles[c][(i + 1) % (cycles[c].len() as int)],
        in_cycles(cycles, c, (i + 1) % (cycles[c].len() as int)),
{
    lemma_next_place(i, cycles[c].len() as int);
    let p = cycles[c][i] as int;
    assert(named(cycles, p));
    let (d, j) = choose|d: int, j: int| #[trigger] in_cycles(cycles, d, j) && cycles[d][j] == p;
    assert(d == c && j == i);
}

/// Disjoint cycles describe a permutation.
pub proof fn lemma_cycles_map(cycles: Seq<Seq<usize>>, n: nat)
    requires
        disjoint_cycles(cycles, n),
        n <= usize::MAX,
    ensures
        is_permutation(cycles_map(cycles, n), n),
{
    let m = cycles_map(cycles, n);
    assert forall|p: int| 1 <= p <= n implies 1 <= #[trigger] successor(cycles, p) <= n by {
        if named(cycles, p) {
            let (c, i) = choose|c: int, i: int| #[trigger]
                in_cycles(cycles, c, i) && cycles[c][i] == p;
            lemma_successor_at(cycles, n, c, i);
        }
    }
    assert forall|j: int, k: int| 0 <= j < k < n implies #[trigger] m[j] != #[trigger] m[k] by {
        assert(1 <= successor(cycles, j + 1) <= n);
        assert(1 <= successor(cycles, k + 1) <= n);
        if successor(cycles, j + 1) == successor(cycles, k + 1) {
            if named(cycles, j + 1) {
                let (c, i) = choose|c: int, i: int| #[trigger]
                    in_cycles(cycles, c, i) && cycles[c][i] == j + 1;
                lemma_successor_at(cycles, n, c, i);
                let i2 = (i + 1) % (cycles[c].len() as int);
                if named(cycles, k + 1) {
                    let (d, l) = choose|d: int, l: int| #[trigger]
                        in_cycles(cycles, d, l) && cycles[d][l] == k + 1;
                    lemma_successor_at(cycles, n, d, l);
                    let l2 = (l + 1) % (cycles[d].len() as int);
                    assert(in_cycles(cycles, c, i2) && in_cycles(cycles, d, l2));
                    assert(c == d && i2 == l2);
                    lemma_next_place(i, cycles[c].len() as int);
                    lemma_next_place(l, cycles[c].len() as int);
                    assert(i == l);
                } else {
                    assert(in_cycles(cycles, c, i2) && cycles[c][i2] == k + 1);
                    assert(named(cycles, k + 1));
                }
            } else {
                if named(cycles, k + 1) {
                    let (d, l) = choose|d: int, l: int| #[trigger]
                        in_cycles(cycles, d, l) && cycles[d][l] == k + 1;
                    lemma_successor_at(cycles, n, d, l);
                    let l2 = (l + 1) % (cycles[d].len() as int);
                    assert(in_cycles(cycles, d, l2) && cycles[d][l2] == j + 1);
                    assert(named(cycles, j + 1));
                }
            }
        }
    }
}

/// A permutation of the points `0..N`: point `i` goes to entry `i` of the
/// mapping. The mapping is shared, so a clone costs no copy.
pub struct Permutation<const N: usize> {
    perm: Arc<Vec<usize>>,
}

impl<const N: usize> View for Permutation<N> {
    type V = Seq<usize>;

    closed spec fn view(&self) -> Seq<usize> {
        self.perm@
    }
}

impl<const N: usize> Permutation<N> {
    /// The permutation with the mapping `perm`, or an error where `perm` is not
    /// a permutation of `0..N`: it has another length, an entry out of range, or
    /// an entry twice.
    pub fn try_new(perm: Vec<usize>) -> (r: Result<Permutation<N>, ()>)
        ensures
            r is Ok <==> is_permutation(perm@, N as nat),
            r matches Ok(p) ==> p@ == perm@,
    {
        let n = perm.len();
        if n != N {
            return Err(());
        }
        let mut visited = vec![false; n];
        let mut k: usize = 0;
        while k < n
            invariant
                k <= n,
                n == N,
                perm@.len() == n,
                visited@.len() == n,
                forall|j: int| 0 <= j < k ==> #[trigger] perm@[j] < n,
                forall|i: int, j: int| 0 <= i < j < k ==> #[trigger] perm@[i] != #[trigger] perm@[j],
                forall|v: int|
                    0 <= v < n ==> (#[trigger] visited@[v] <==> exists|j: int|
                        0 <= j < k && perm@[j] == v),
            decreases n - k,
        {
            let i = perm[k];
            if i >= n {
                return Err(());
            }
            if visited[i] {
                proof {
                    let j = choose|j: int| 0 <= j < k && perm@[j] == i;
                    assert(perm@[j] == perm@[k as int]);
                }
                return Err(());
            }
            visited.set(i, true);
            k += 1;
        }
        Ok(Permutation { perm: Arc::new(perm) })
    }

    /// The permutation that the disjoint cycles describe, their points counted
    /// from 1: each point goes to the next of its cycle, the last to the first,
    /// and a point that no cycle names stays.
    pub fn new_from_disjoint(cycles: Vec<Vec<usize>>) -> (r: Permutation<N>)
        requires
            disjoint_cycles(cycle_seqs(cycles@), N as nat),
        ensures
            r@ == cycles_map(cycle_seqs(cycles@), N as nat),
            is_permutation(r@, N as nat),
    {
        let ghost cs = cycle_seqs(cycles@);
        let mut res = identity_vec(N);
        let mut c: usize = 0;
        while c < cycles.len()
            invariant
                c <= cycles.len(),
                cs == cycle_seqs(cycles@),
                disjoint_cycles(cs, N as nat),
                res@.len() == N,
                forall|j: int|
                    0 <= j < N ==> #[trigger] res@[j] == (if named_before(cs, j + 1, c as int, 0) {
                        successor(cs, j + 1) - 1
                    } else {
                        j
                    }),
            decreases cycles.len() - c,
        {
            let cycle = &cycles[c];
            let len = cycle.len();
            assert(cs[c as int] == cycle@);
            let mut i: usize = 0;
            while i < len
                invariant
                    i <= len,
                    c < cycles.len(),
                    len == cycle@.len(),
                    cs.len() == cycles@.len(),
                    cs[c as int] == cycle@,
                    disjoint_cycles(cs, N as nat),
                    res@.len() == N,
                    forall|j: int|
                        0 <= j < N ==> #[trigger] res@[j] == (if named_before(
                            cs,
                            j + 1,
                            c as int,
                            i as int,
                        ) {
                            successor(cs, j + 1) - 1
                        } else {
                            j
                        }),
                decreases len - i,
            {
                proof {
                    lemma_next_place(i as int, len as int);
                }
                let next = (i + 1) % len;
                let p = cycle[i];
                let q = cycle[next];
                proof {
                    assert(in_cycles(cs, c as int, i as int));
                    lemma_successor_at(cs, N as nat, c as int, i as int);
                    assert(in_cycles(cs, c as int, next as int));
                    assert(1 <= cs[c as int][next as int] <= N);
                }
                let ghost before = res@;
                res.set(p - 1, q - 1);
                proof {
                    assert forall|j: int| 0 <= j < N implies #[trigger] res@[j] == (if named_before(
                        cs,
                        j + 1,
                        c as int,
                        i + 1,
                    ) {
                        successor(cs, j + 1) - 1
                    } else {
                        j
                    }) by {
                        if j == p - 1 {
                            assert(place_before(c as int, i as int, c as int, i + 1));
                            assert(named_before(cs, j + 1, c as int, i + 1));
                        } else {
                            assert(res@[j] == before[j]);
                            if named_before(cs, j + 1, c as int, i + 1) {
                                let (d, k) = choose|d: int, k: int| #[trigger]
                                    in_cycles(cs, d, k) && place_before(d, k, c as int, i + 1)
                                        && cs[d][k] == j + 1;
                                assert(place_before(d, k, c as int, i as int));
                                assert(named_before(cs, j + 1, c as int, i as int));
                            }
                            if named_before(cs, j + 1, c as int, i as int) {
                                let (d, k) = choose|d: int, k: int| #[trigger]
                                    in_cycles(cs, d, k) && place_before(d, k, c as int, i as int)
                                        && cs[d][k] == j + 1;
                                assert(place_before(d, k, c as int, i + 1));
                                assert(named_before(cs, j + 1, c as int, i + 1));
                            }
                        }
                    }
                }
                i += 1;
            }
            proof {
                assert forall|p: int| #[trigger]
                    named_before(cs, p, c as int, len as int) == named_before(
                        cs,
                        p,
                        c + 1,
                        0,
                    ) by {
                    if named_before(cs, p, c as int, len as int) {
                        let (d, k) = choose|d: int, k: int| #[trigger]
                            in_cycles(cs, d, k) && place_before(d, k, c as int, len as int)
                                && cs[d][k] == p;
                        assert(place_before(d, k, c + 1, 0));
                    }
                    if named_before(cs, p, c + 1, 0) {
                        let (d, k) = choose|d: int, k: int| #[trigger]
                            in_cycles(cs, d, k) && place_before(d, k, c + 1, 0) && cs[d][k] == p;
                        assert(place_before(d, k, c as int, len as int));
                    }
                }
            }
            c += 1;
        }
        proof {
            assert forall|j: int| 0 <= j < N implies res@[j] == cycles_map(cs, N as nat)[j] by {
                if named_before(cs, j + 1, cycles.len() as int, 0) {
                } else {
                    if named(cs, j + 1) {
                        let (d, k) = choose|d: int, k: int| #[trigger]
                            in_cycles(cs, d, k) && cs[d][k] == j + 1;
                        assert(place_before(d, k, cycles.len() as int, 0));
                        assert(false);
                    }
                }
            }
            assert(res@ =~= cycles_map(cs, N as nat));
            lemma_cycles_map(cs, N as nat);
        }
        Permutation { perm: Arc::new(res) }
    }

    /// The permutation with the mapping `perm`, taken on trust.
    pub fn new_unchecked(perm: Vec<usize>) -> (r: Permutation<N>)
        ensures
            r@ == perm@,
    {
        Permutation { perm: Arc::new(perm) }
    }
}

impl<const N: usize> PartialEq for Permutation<N> {
    /// Two permutations are equal when their mappings are.
    fn eq(&self, other: &Self) -> (r: bool) {
        let n = self.perm.len();
        if other.perm.len() != n {
            return false;
        }
        let mut i: usize = 0;
        while i < n
            invariant
                i <= n,
                n == self@.len(),
                n == other@.len(),
                forall|j: int| 0 <= j < i ==> self@[j] == other@[j],
            decreases n - i,
        {
            if self.perm[i] != other.perm[i] {
                return false;
            }
            i += 1;
        }
        assert(self@ =~= other@);
        true
    }
}

impl<const N: usize> PartialEqSpecImpl for Permutation<N> {
    open spec fn obeys_eq_spec() -> bool {
        true
    }

    open spec fn eq_spec(&self, other: &Self) -> bool {
        self@ == other@
    }
}

impl<const N: usize> Eq for Permutation<N> {

}

impl<const N: usize> Clone for Permutation<N> {
    /// A second handle on the same mapping.
    fn clone(&self) -> (r: Self)
        ensures
            r@ == self@,
    {
        Permutation { perm: self.perm.clone() }
    }
}

impl<const N: usize> Element for Permutation<N> {
    proof fn lemma_eq_by_value() {
        reveal(vstd::laws_eq::obeys_view_eq);
    }

    proof fn lemma_clone_by_value(a: Self, b: Self) {
    }
}

impl<const N: usize> Op<OP<1>> for Permutation<N> {
    open spec fn is_element(v: Seq<usize>) -> bool {
        is_permutation(v, N as nat)
    }

    open spec fn op_spec(a: Seq<usize>, b: Seq<usize>) -> Seq<usize> {
        compose(a, b)
    }

    proof fn lemma_op_closed(a: Seq<usize>, b: Seq<usize>) {
        lemma_compose_closed(a, b, N as nat);
    }

    /// Applies `self`, then `other`.
    fn op(&self, other: Permutation<N>) -> (r: Self) {
        let mut perm: Vec<usize> = Vec::new();
        let mut i: usize = 0;
        while i < N
            invariant
                i <= N,
                is_permutation(self@, N as nat),
                is_permutation(other@, N as nat),
                perm@.len() == i,
                forall|j: int| 0 <= j < i ==> perm@[j] == other@[self@[j] as int],
            decreases N - i,
        {
            let x = self.perm[i];
            assert(self@[i as int] < N);
            perm.push(other.perm[x]);
            i += 1;
        }
        assert(perm@ =~= compose(self@, other@));
        Permutation { perm: Arc::new(perm) }
    }
}

impl<const N: usize> Associative<OP<1>> for Permutation<N> {
    proof fn lemma_associative(a: Seq<usize>, b: Seq<usize>, c: Seq<usize>) {
        lemma_compose_associative(a, b, c, N as nat);
    }
}

impl<const N: usize> Identity<OP<1>> for Permutation<N> {
    open spec fn identity_spec() -> Seq<usize> {
        identity_map(N as nat)
    }

    proof fn lemma_identity(a: Seq<usize>) {
        lemma_identity_map(N as nat);
        lemma_compose_identity(a, N as nat);
    }

    /// The permutation that moves no point.
    fn identity() -> (r: Self) {
        Permutation { perm: Arc::new(identity_vec(N)) }
    }
}

impl<const N: usize> Inverse<OP<1>> for Permutation<N> {
    open spec fn inverse_spec(a: Seq<usize>) -> Seq<usize> {
        inverse_map(a)
    }

    proof fn lemma_inverse(a: Seq<usize>) {
        lemma_inverse_map(a, N as nat);
    }

    /// Scatters each point to the place it is sent to: entry `perm[i]` of the
    /// result is `i`.
    fn inverse(&self) -> (r: Self) {
        let mut inv = vec![0usize; N];
        let mut i: usize = 0;
        while i < N
            invariant
                i <= N,
                is_permutation(self@, N as nat),
                inv@.len() == N,
                forall|j: int| 0 <= j < i ==> inv@[self@[j] as int] == j,
            decreases N - i,
        {
            let x = self.perm[i];
            assert(self@[i as int] < N);
            proof {
                assert forall|j: int| 0 <= j < i implies self@[j] != x by {
                    assert(self@[j] != self@[i as int]);
                }
            }
            inv.set(x, i);
            i += 1;
        }
        proof {
            assert forall|v: int| 0 <= v < N implies inv@[v] == inverse_map(self@)[v] by {
                lemma_permutation_onto(self@, N as nat, v);
                let p = preimage(self@, v);
                assert(inv@[self@[p] as int] == p);
            }
            assert(inv@ =~= inverse_map(self@));
        }
        Permutation { perm: Arc::new(inv) }
    }
}

/// The identity mapping on `n` points: `0, 1, ..., n - 1`.
pub fn identity_vec(n: usize) -> (v: Vec<usize>)
    ensures
        v@ == identity_map(n as nat),
{
    let mut v: Vec<usize> = Vec::new();
    let mut i: usize = 0;
    while i < n
        invariant
            i <= n,
            v@.len() == i,
            forall|j: int| 0 <= j < i ==> v@[j] == j,
        decreases n - i,
    {
        v.push(i);
        i += 1;
    }
    assert(v@ =~= identity_map(n as nat));
    v
}

/// Whether `cycles` are disjoint cycles on the points `1..=n`.
pub fn check_disjoint_cycles(cycles: &Vec<Vec<usize>>, n: usize) -> (ok: bool)
    ensures
        ok == disjoint_cycles(cycle_seqs(cycles@), n as nat),
{
    let ghost cs = cycle_seqs(cycles@);
    let mut visited = vec![false; n];
    let mut c: usize = 0;
    while c < cycles.len()
        invariant
            c <= cycles.len(),
            cs == cycle_seqs(cycles@),
            visited@.len() == n,
            checked_before(cs, n as nat, c as int, 0),
            forall|v: int| 0 <= v < n ==> #[trigger] visited@[v] == named_before(cs, v + 1, c as int, 0),
        decreases cycles.len() - c,
    {
        let cycle = &cycles[c];
        let len = cycle.len();
        assert(cs[c as int] == cycle@);
        let mut i: usize = 0;
        while i < len
            invariant
                i <= len,
                c < cycles.len(),
                len == cycle@.len(),
                cs == cycle_seqs(cycles@),
                cs[c as int] == cycle@,
                visited@.len() == n,
                checked_before(cs, n as nat, c as int, i as int),
                forall|v: int|
                    0 <= v < n ==> #[trigger] visited@[v] == named_before(cs, v + 1, c as int, i as int),
            decreases len - i,
        {
            let p = cycle[i];
            assert(in_cycles(cs, c as int, i as int));
            if p == 0 || p > n {
                return false;
            }
            if visited[p - 1] {
                proof {
                    let (d, k) = choose|d: int, k: int| #[trigger]
                        in_cycles(cs, d, k) && place_before(d, k, c as int, i as int) && cs[d][k]
                            == p;
                    assert(in_cycles(cs, d, k) && in_cycles(cs, c as int, i as int));
                }
                return false;
            }
            let ghost before = visited@;
            visited.set(p - 1, true);
            proof {
                assert forall|d: int, k: int, e: int, l: int|
                    #[trigger] in_cycles(cs, d, k) && place_before(d, k, c as int, i + 1)
                        && #[trigger] in_cycles(cs, e, l) && place_before(e, l, c as int, i + 1)
                        && cs[d][k] == cs[e][l] implies d == e && k == l by {
                    if d == c && k == i && !(e == c && l == i) {
                        assert(place_before(e, l, c as int, i as int));
                        assert(named_before(cs, p as int, c as int, i as int));
                    }
                    if e == c && l == i && !(d == c && k == i) {
                        assert(place_before(d, k, c as int, i as int));
                        assert(named_before(cs, p as int, c as int, i as int));
                    }
                }
                assert forall|v: int| 0 <= v < n implies #[trigger] visited@[v] == named_before(
                    cs,
                    v + 1,
                    c as int,
                    i + 1,
                ) by {
                    if v == p - 1 {
                        assert(place_before(c as int, i as int, c as int, i + 1));
                    } else {
                        assert(visited@[v] == before[v]);
                        if named_before(cs, v + 1, c as int, i + 1) {
                            let (d, k) = choose|d: int, k: int| #[trigger]
                                in_cycles(cs, d, k) && place_before(d, k, c as int, i + 1)
                                    && cs[d][k] == v + 1;
                            assert(place_before(d, k, c as int, i as int));
                        }
                        if named_before(cs, v + 1, c as int, i as int) {
                            let (d, k) = choose|d: int, k: int| #[trigger]
                                in_cycles(cs, d, k) && place_before(d, k, c as int, i as int)
                                    && cs[d][k] == v + 1;
                            assert(place_before(d, k, c as int, i + 1));
                        }
                    }
                }
            }
            i += 1;
        }
        proof {
            assert forall|p: int| #[trigger]
                named_before(cs, p, c as int, len as int) == named_before(cs, p, c + 1, 0) by {
                if named_before(cs, p, c as int, len as int) {
                    let (d, k) = choose|d: int, k: int| #[trigger]
                        in_cycles(cs, d, k) && place_before(d, k, c as int, len as int) && cs[d][k]
                            == p;
                    assert(place_before(d, k, c + 1, 0));
                }
                if named_before(cs, p, c + 1, 0) {
                    let (d, k) = choose|d: int, k: int| #[trigger]
                        in_cycles(cs, d, k) && place_before(d, k, c + 1, 0) && cs[d][k] == p;
                    assert(place_before(d, k, c as int, len as int));
                }
            }
        }
        c += 1;
    }
    true
}

/// Up to the place `(c, i)`, the cycles name points of `1..=n` and none twice.
pub open spec fn checked_before(cycles: Seq<Seq<usize>>, n: nat, c: int, i: int) -> bool {
    &&& forall|d: int, k: int| #[trigger]
        in_cycles(cycles, d, k) && place_before(d, k, c, i) ==> 1 <= cycles[d][k] <= n
    &&& forall|d: int, k: int, e: int, l: int|
        #[trigger] in_cycles(cycles, d, k) && place_before(d, k, c, i) && #[trigger] in_cycles(
            cycles,
            e,
            l,
        ) && place_before(e, l, c, i) && cycles[d][k] == cycles[e][l] ==> d == e && k == l
}

/// Identity mappings by number of points, each made on first request and kept
/// from then on. An entry, once written, never changes.
pub struct IdentityCache {
    map: HashMap<usize, Arc<Vec<usize>>>,
}

impl IdentityCache {
    /// The numbers of points for which a mapping is kept.
    pub closed spec fn keys(&self) -> Set<usize> {
        self.map@.dom()
    }

    /// The mapping kept for `n` points.
    pub closed spec fn entry(&self, n: usize) -> Seq<usize> {
        self.map@[n]@
    }

    /// Every mapping kept is the identity on its number of points.
    pub open spec fn wf(&self) -> bool {
        forall|n: usize| #[trigger] self.keys().contains(n) ==> self.entry(n) == identity_map(n as nat)
    }

    /// A cache that holds nothing yet.
    pub fn new() -> (cache: Self)
        ensures
            cache.wf(),
            cache.keys() == Set::<usize>::empty(),
    {
        IdentityCache { map: HashMap::new() }
    }

    /// The identity mapping on `n` points: the one kept, or a new one that is
    /// kept from now on.
    pub fn identity_for(&mut self, n: usize) -> (r: Arc<Vec<usize>>)
        requires
            old(self).wf(),
        ensures
            final(self).wf(),
            r@ == identity_map(n as nat),
            final(self).keys() == old(self).keys().insert(n),
    {
        broadcast use vstd::std_specs::hash::group_hash_axioms;
        let found = match self.map.get(&n) {
            Some(kept) => Some(kept.clone()),
            None => None,
        };
        match found {
            Some(kept) => {
                assert(self.keys().contains(n));
                assert(self.map@.dom().insert(n) =~= self.map@.dom());
                kept
            },
            None => {
                let made = Arc::new(identity_vec(n));
                let ghost before = self.map@;
                self.map.insert(n, made.clone());
                proof {
                    assert forall|k: usize| #[trigger] self.keys().contains(k) implies self.entry(k)
                        == identity_map(k as nat) by {
                        if k != n {
                            assert(before.dom().contains(k));
                            assert(old(self).keys().contains(k));
                        }
                    }
                }
                made
            },
        }
    }
}

impl<const N: usize> Permutation<N> {
    /// The permutation that moves no point, its mapping taken from `cache`.
    pub fn identity_cached(cache: &mut IdentityCache) -> (r: Self)
        requires
            old(cache).wf(),
        ensures
            final(cache).wf(),
            final(cache).keys() == old(cache).keys().insert(N),
            r@ == identity_map(N as nat),
    {
        Permutation { perm: cache.identity_for(N) }
    }
}

/// The number of permutations of `n` points.
pub open spec fn factorial(n: nat) -> nat
    decreases n,
{
    if n == 0 {
        1
    } else {
        n * factorial((n - 1) as nat)
    }
}

/// Factorials are positive and grow with their argument.
pub proof fn lemma_factorial_grows(i: nat, n: nat)
    requires
        i <= n,
    ensures
        1 <= factorial(i) <= factorial(n),
    decreases n,
{
    if i < n {
        lemma_factorial_grows(i, (n - 1) as nat);
        assert(factorial((n - 1) as nat) <= n * factorial((n - 1) as nat)) by (nonlinear_arith)
            requires
                n >= 1,
        ;
    } else if n > 0 {
        lemma_factorial_grows((n - 1) as nat, (n - 1) as nat);
        assert(1 <= n * factorial((n - 1) as nat)) by (nonlinear_arith)
            requires
                n >= 1,
                factorial((n - 1) as nat) >= 1,
        ;
    }
}

/// The group of all permutations of `N` points: its carrier holds every
/// permutation and reports their number, `N!`, as its size.
pub fn symmetric_group<const N: usize>() -> (group: Group<
    OP<1>,
    Permutation<N>,
    Universe<Permutation<N>>,
>)
    requires
        factorial(N as nat) <= usize::MAX,
    ensures
        group.carrier().size() == Cardinality::Finite(factorial(N as nat) as usize),
        group.carrier().has(identity_map(N as nat)),
{
    let mut count: usize = 1;
    let mut i: usize = 0;
    while i < N
        invariant
            i <= N,
            count == factorial(i as nat),
            factorial(N as nat) <= usize::MAX,
        decreases N - i,
    {
        proof {
            lemma_factorial_grows((i + 1) as nat, N as nat);
            assert(factorial((i + 1) as nat) == (i + 1) * factorial(i as nat));
            assert((i + 1) * count == count * (i + 1)) by (nonlinear_arith);
        }
        i += 1;
        count = count * i;
    }
    let set = Universe::new(Cardinality::Finite(count));
    Group::new_unchecked(Rc::new(set))
}

/// The sequences of length `len` with every entry below `n`.
pub open spec fn bounded_seqs(len: nat, n: nat) -> Set<Seq<usize>> {
    Set::new(|s: Seq<usize>| s.len() == len && forall|i: int| 0 <= i < len ==> #[trigger] s[i] < n)
}

/// Those of [`bounded_seqs`] whose last entry is below `k`.
spec fn bounded_seqs_upto(len: nat, n: nat, k: nat) -> Set<Seq<usize>> {
    Set::new(|s: Seq<usize>| bounded_seqs(len, n).contains(s) && len > 0 && s[len - 1] < k)
}

/// There are finitely many sequences of a given length with entries below a
/// given bound.
pub proof fn lemma_bounded_seqs_finite(len: nat, n: nat)
    requires
        n <= usize::MAX,
    ensures
        bounded_seqs(len, n).finite(),
    decreases len, n + 1,
{
    if len == 0 {
        assert(bounded_seqs(0, n) =~= set![Seq::<usize>::empty()]) by {
            assert forall|s: Seq<usize>| bounded_seqs(0, n).contains(s) implies s
                == Seq::<usize>::empty() by {
                assert(s =~= Seq::<usize>::empty());
            }
        }
    } else {
        lemma_bounded_seqs_upto_finite(len, n, n);
        assert(bounded_seqs(len, n) =~= bounded_seqs_upto(len, n, n));
    }
}

/// Finitely many of them end below `k`.
proof fn lemma_bounded_seqs_upto_finite(len: nat, n: nat, k: nat)
    requires
        len > 0,
        k <= n <= usize::MAX,
    ensures
        bounded_seqs_upto(len, n, k).finite(),
    decreases len, k,
{
    if k == 0 {
        assert(bounded_seqs_upto(len, n, 0) =~= Set::<Seq<usize>>::empty());
    } else {
        lemma_bounded_seqs_upto_finite(len, n, (k - 1) as nat);
        lemma_bounded_seqs_finite((len - 1) as nat, n);
        let shorter = bounded_seqs((len - 1) as nat, n);
        let last = (k - 1) as usize;
        let extend = |s: Seq<usize>| s.push(last);
        let longer = shorter.map(extend);
        vstd::set_lib::lemma_map_size_bound(shorter, longer, extend);
        let both = bounded_seqs_upto(len, n, (k - 1) as nat).union(longer);
        assert forall|s: Seq<usize>| bounded_seqs_upto(len, n, k).contains(s) implies both.contains(
            s,
        ) by {
            if s[len - 1] == last {
                let front = s.drop_last();
                assert(shorter.contains(front)) by {
                    assert forall|i: int| 0 <= i < len - 1 implies #[trigger] front[i] < n by {
                        assert(s[i] < n);
                    }
                }
                assert(extend(front) =~= s);
                assert(longer.contains(s));
            }
        }
        assert forall|s: Seq<usize>| both.contains(s) implies bounded_seqs_upto(len, n, k).contains(
            s,
        ) by {
            if longer.contains(s) {
                let front = choose|front: Seq<usize>| shorter.contains(front) && s == extend(front);
                assert forall|i: int| 0 <= i < len implies #[trigger] s[i] < n by {
                    if i < len - 1 {
                        assert(front[i] < n);
                    }
                }
            }
        }
        assert(bounded_seqs_upto(len, n, k) =~= both);
    }
}

impl<const N: usize> Permutation<N> {
    /// The inverse of a permutation is a permutation.
    pub proof fn lemma_inverse_closed()
        ensures
            inverse_closed::<OP<1>, Self>(),
    {
        assert forall|a: Seq<usize>| <Self as Op<OP<1>>>::is_element(a) implies <Self as Op<
            OP<1>,
        >>::is_element(#[trigger] <Self as Inverse<OP<1>>>::inverse_spec(a)) by {
            lemma_inverse_map(a, N as nat);
        }
    }

    /// Every permutation has finite order.
    pub proof fn lemma_finite_order(p: Seq<usize>)
        requires
            is_permutation(p, N as nat),
        ensures
            has_finite_order::<OP<1>, Self>(p),
    {
        let all = bounded_seqs(N as nat, N as nat);
        lemma_bounded_seqs_finite(N as nat, N as nat);
        Self::lemma_inverse_closed();
        lemma_finite_order::<OP<1>, Self>(p, all);
    }
}

} // verus!
