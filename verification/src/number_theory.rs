//! Greatest common divisors and inverses modulo a number: the arithmetic that
//! the modular element types rest on.

use vstd::arithmetic::div_mod::lemma_add_mod_noop;
use vstd::arithmetic::div_mod::lemma_fundamental_div_mod;
use vstd::arithmetic::div_mod::lemma_mod_bound;
use vstd::arithmetic::div_mod::lemma_mod_multiples_vanish;
use vstd::arithmetic::div_mod::lemma_mod_self_0;
use vstd::arithmetic::div_mod::lemma_mul_mod_noop_general;
use vstd::arithmetic::div_mod::lemma_small_mod;
use vstd::prelude::*;

verus! {

/// The greatest common divisor of `a` and `b`; 0 only for two zeros.
pub open spec fn gcd(a: nat, b: nat) -> nat
    decreases b,
{
    if b == 0 {
        a
    } else {
        gcd(b, a % b)
    }
}

/// `x` inverts `a` modulo `m`: their product leaves the remainder 1.
pub open spec fn inverts(a: int, x: int, m: int) -> bool {
    (a * x) % m == 1
}

/// `x` is the inverse of `a` among the residues modulo `m`.
pub open spec fn is_inverse_mod(a: int, x: int, m: int) -> bool {
    0 <= x < m && inverts(a, x, m)
}

/// The inverse of `a` among the residues modulo `m`, where `a` has one.
pub open spec fn inverse_mod(a: int, m: int) -> int {
    choose|x: int| is_inverse_mod(a, x, m)
}

/// `p` is at least 2 and has no divisor strictly between 1 and itself.
pub open spec fn is_prime(p: nat) -> bool {
    p >= 2 && forall|d: nat| 1 < d < p ==> #[trigger] (p % d) != 0
}

/// A combination of two multiples of `d` is a multiple of `d`.
pub proof fn lemma_combination_divisible(d: int, a: int, x: int, b: int, y: int)
    requires
        d > 0,
        a % d == 0,
        b % d == 0,
    ensures
        (a * x + b * y) % d == 0,
{
    lemma_mul_mod_noop_general(a, x, d);
    lemma_mul_mod_noop_general(b, y, d);
    assert((a % d) * x == 0) by (nonlinear_arith)
        requires
            a % d == 0,
    ;
    assert((b % d) * y == 0) by (nonlinear_arith)
        requires
            b % d == 0,
    ;
    lemma_small_mod(0, d as nat);
    lemma_add_mod_noop(a * x, b * y, d);
}

/// The greatest common divisor is a combination of the two numbers.
pub proof fn lemma_bezout(a: nat, b: nat) -> (c: (int, int))
    ensures
        a * c.0 + b * c.1 == gcd(a, b),
    decreases b,
{
    if b == 0 {
        (1, 0)
    } else {
        let (x, y) = lemma_bezout(b, a % b);
        let q = (a / b) as int;
        let r = (a % b) as int;
        lemma_fundamental_div_mod(a as int, b as int);
        assert(a * y + b * (x - q * y) == b * x + r * y) by (nonlinear_arith)
            requires
                a == b * q + r,
        ;
        (y, x - q * y)
    }
}

/// The greatest common divisor divides both numbers, and is 0 only for two
/// zeros.
pub proof fn lemma_gcd_divides(a: nat, b: nat)
    ensures
        gcd(a, b) == 0 <==> a == 0 && b == 0,
        gcd(a, b) > 0 ==> a % gcd(a, b) == 0 && b % gcd(a, b) == 0,
    decreases b,
{
    if b == 0 {
        if a > 0 {
            lemma_mod_self_0(a as int);
            lemma_small_mod(0, a);
        }
    } else {
        let r = a % b;
        let g = gcd(b, r);
        lemma_gcd_divides(b, r);
        lemma_fundamental_div_mod(a as int, b as int);
        let q = (a / b) as int;
        lemma_combination_divisible(g as int, b as int, q, r as int, 1);
        assert(b * q + r * 1 == a) by (nonlinear_arith)
            requires
                a == b * q + r,
        ;
    }
}

/// Whatever divides both numbers divides their greatest common divisor.
pub proof fn lemma_gcd_greatest(a: nat, b: nat, d: nat)
    requires
        d > 0,
        a % d == 0,
        b % d == 0,
    ensures
        gcd(a, b) % d == 0,
{
    let (x, y) = lemma_bezout(a, b);
    lemma_combination_divisible(d as int, a as int, x, b as int, y);
}

/// What has an inverse modulo `m` is coprime to `m`.
pub proof fn lemma_invertible_is_coprime(a: nat, x: int, m: nat)
    requires
        m > 0,
        inverts(a as int, x, m as int),
    ensures
        gcd(a, m) == 1,
{
    let g = gcd(a, m);
    lemma_gcd_divides(a, m);
    lemma_fundamental_div_mod(a * x, m as int);
    let q = (a * x) / (m as int);
    lemma_combination_divisible(g as int, a as int, x, m as int, -q);
    assert(a * x + m * (-q) == 1) by (nonlinear_arith)
        requires
            a * x == m * q + 1,
    ;
    if g >= 2 {
        lemma_small_mod(1, g);
    }
}

/// What is coprime to `m` has an inverse among the residues modulo `m`, and
/// only one.
pub proof fn lemma_coprime_is_invertible(a: nat, m: nat)
    requires
        m >= 2,
        gcd(a, m) == 1,
    ensures
        is_inverse_mod(a as int, inverse_mod(a as int, m as int), m as int),
        forall|x: int| is_inverse_mod(a as int, x, m as int) ==> x == inverse_mod(a as int, m as int),
{
    let (x, y) = lemma_bezout(a, m);
    assert(a * x == m * (-y) + 1) by (nonlinear_arith)
        requires
            a * x + m * y == 1,
    ;
    lemma_mod_multiples_vanish(-y, 1, m as int);
    lemma_small_mod(1, m);
    lemma_mul_mod_noop_general(a as int, x, m as int);
    lemma_mod_bound(x, m as int);
    assert(is_inverse_mod(a as int, x % (m as int), m as int));
    assert forall|z: int| is_inverse_mod(a as int, z, m as int) implies z == inverse_mod(
        a as int,
        m as int,
    ) by {
        lemma_inverse_unique(a as int, z, inverse_mod(a as int, m as int), m as int);
    }
}

/// Two inverses of one number among the residues modulo `m` are equal.
pub proof fn lemma_inverse_unique(a: int, x: int, y: int, m: int)
    requires
        is_inverse_mod(a, x, m),
        is_inverse_mod(a, y, m),
    ensures
        x == y,
{
    lemma_mul_mod_noop_general(x, a * y, m);
    lemma_mul_mod_noop_general(y, a * x, m);
    assert(x * (a * y) == y * (a * x)) by (nonlinear_arith);
    assert(x * 1 == x && y * 1 == y);
    lemma_small_mod(x as nat, m as nat);
    lemma_small_mod(y as nat, m as nat);
}

/// The product of two numbers coprime to `m` is coprime to `m`, and so is its
/// remainder.
pub proof fn lemma_coprime_product(a: nat, b: nat, m: nat)
    requires
        m >= 2,
        gcd(a, m) == 1,
        gcd(b, m) == 1,
    ensures
        gcd(((a * b) % m) as nat, m) == 1,
{
    lemma_coprime_is_invertible(a, m);
    lemma_coprime_is_invertible(b, m);
    let x = inverse_mod(a as int, m as int);
    let y = inverse_mod(b as int, m as int);
    let mi = m as int;
    let p = (a * b) as int;
    assert(p * (x * y) == (a * x) * (b * y)) by (nonlinear_arith)
        requires
            p == a * b,
    ;
    lemma_mul_mod_noop_general(a * x, b * y, mi);
    lemma_small_mod(1, m);
    assert((p * (x * y)) % mi == 1);
    lemma_mul_mod_noop_general(p, x * y, mi);
    lemma_mod_bound(p, mi);
    lemma_invertible_is_coprime((p % mi) as nat, x * y, m);
}

/// Below a prime, every positive number is coprime to it.
pub proof fn lemma_prime_coprime(a: nat, p: nat)
    requires
        is_prime(p),
        0 < a < p,
    ensures
        gcd(a, p) == 1,
{
    let g = gcd(a, p);
    lemma_gcd_divides(a, p);
    if g != 1 {
        vstd::arithmetic::div_mod::lemma_mod_is_zero(a, g);
        assert(1 < g < p);
        assert(p % g != 0);
    }
}

/// In the residues modulo `m` under addition, the number of times `k` must be
/// added up to reach a multiple of `m` is `m / gcd(k, m)`: so many times do,
/// and no fewer.
pub proof fn lemma_additive_order(k: nat, m: nat)
    requires
        m >= 1,
        k < m,
    ensures
        m / gcd(k, m) >= 1,
        (((m / gcd(k, m)) * k) as int) % (m as int) == 0,
        forall|n: nat|
            n >= 1 && #[trigger] (((n * k) as int) % (m as int)) == 0 ==> m / gcd(k, m) <= n,
{
    let g = gcd(k, m);
    lemma_gcd_divides(k, m);
    let mi = m as int;
    let gi = g as int;
    let n0 = mi / gi;
    let k0 = (k as int) / gi;
    lemma_fundamental_div_mod(mi, gi);
    lemma_fundamental_div_mod(k as int, gi);
    assert(mi == gi * n0);
    assert(k == gi * k0);
    assert(n0 >= 1) by (nonlinear_arith)
        requires
            mi == gi * n0,
            mi >= 1,
            gi >= 1,
    ;
    assert(n0 * k == mi * k0 + 0) by (nonlinear_arith)
        requires
            mi == gi * n0,
            k == gi * k0,
    ;
    lemma_mod_multiples_vanish(k0, 0, mi);
    lemma_small_mod(0, m);
    let (x, y) = lemma_bezout(k, m);
    assert forall|n: nat| n >= 1 && #[trigger] (((n * k) as int) % mi) == 0 implies n0 <= n by {
        let t = (n * k) as int / mi;
        lemma_fundamental_div_mod((n * k) as int, mi);
        assert(n * k == mi * t);
        let c = n * y + t * x;
        assert(n * gi == mi * c) by (nonlinear_arith)
            requires
                k * x + mi * y == gi,
                n * k == mi * t,
                c == n * y + t * x,
        ;
        assert(n == n0 * c) by (nonlinear_arith)
            requires
                n * gi == mi * c,
                mi == gi * n0,
                gi >= 1,
        ;
        assert(n0 <= n) by (nonlinear_arith)
            requires
                n == n0 * c,
                n >= 1,
                n0 >= 1,
        ;
    }
}

/// The greatest common divisor of `a` and `b`, by Euclid's algorithm.
pub fn gcd_u128(a: u128, b: u128) -> (g: u128)
    ensures
        g == gcd(a as nat, b as nat),
{
    let mut x = a;
    let mut y = b;
    while y != 0
        invariant
            gcd(x as nat, y as nat) == gcd(a as nat, b as nat),
        decreases y,
    {
        let r = x % y;
        x = y;
        y = r;
    }
    x
}

/// The inverse of `a` among the residues modulo `m`, by the extended algorithm
/// of Euclid with the coefficient of `a` kept reduced modulo `m`.
pub fn inverse_mod_u128(a: u128, m: u128) -> (x: u128)
    requires
        2 <= m <= 0x1_0000_0000_0000_0000,
        a < m,
        gcd(a as nat, m as nat) == 1,
    ensures
        x == inverse_mod(a as int, m as int),
        is_inverse_mod(a as int, x as int, m as int),
{
    let mut r0 = m;
    let mut r1 = a;
    let mut s0: u128 = 0;
    let mut s1: u128 = 1;
    proof {
        lemma_mod_self_0(m as int);
        lemma_small_mod(a as nat, m as nat);
        lemma_gcd_swap(a as nat, m as nat);
        assert(s0 * a == 0 && s1 * a == a) by (nonlinear_arith)
            requires
                s0 == 0,
                s1 == 1,
        ;
    }
    while r1 != 0
        invariant
            2 <= m <= 0x1_0000_0000_0000_0000,
            r0 <= m,
            r1 <= m,
            s0 < m,
            s1 < m,
            gcd(r0 as nat, r1 as nat) == 1,
            (s0 * a) % (m as int) == (r0 as int) % (m as int),
            (s1 * a) % (m as int) == (r1 as int) % (m as int),
        decreases r1,
    {
        let q = r0 / r1;
        let r2 = r0 % r1;
        assert(q * s1 <= 0x1_0000_0000_0000_0000 * 0x1_0000_0000_0000_0000 - 1) by (nonlinear_arith)
            requires
                q <= 0x1_0000_0000_0000_0000,
                s1 < 0x1_0000_0000_0000_0000,
        ;
        let t = (q * s1) % m;
        let s2 = (s0 + (m - t)) % m;
        proof {
            lemma_reduced_step(
                a as int,
                m as int,
                r0 as int,
                r1 as int,
                s0 as int,
                s1 as int,
                q as int,
            );
            lemma_fundamental_div_mod(r0 as int, r1 as int);
            assert(r0 - q * r1 == r2) by (nonlinear_arith)
                requires
                    r0 == r1 * q + r2,
            ;
            // s2 stands for s0 - q s1 modulo m
            let mi = m as int;
            lemma_fundamental_div_mod(q * s1, mi);
            let u = (q * s1) / mi;
            assert(s0 + (mi - t) == mi * (u + 1) + (s0 - q * s1)) by (nonlinear_arith)
                requires
                    q * s1 == mi * u + t,
            ;
            lemma_mod_multiples_vanish(u + 1, s0 - q * s1, mi);
            assert(s2 == (s0 - q * s1) % mi);
            lemma_mul_mod_noop_general(s0 - q * s1, a as int, mi);
        }
        r0 = r1;
        r1 = r2;
        s0 = s1;
        s1 = s2;
    }
    proof {
        assert(r0 == 1);
        lemma_small_mod(1, m as nat);
        lemma_coprime_is_invertible(a as nat, m as nat);
        assert(a * s0 == s0 * a) by (nonlinear_arith);
        assert(is_inverse_mod(a as int, s0 as int, m as int));
    }
    s0
}

/// The greatest common divisor does not depend on the order of the numbers.
pub proof fn lemma_gcd_swap(a: nat, b: nat)
    ensures
        gcd(a, b) == gcd(b, a),
{
    if a == 0 || b == 0 {
        if a == 0 && b > 0 {
            lemma_small_mod(0, b);
        }
        if b == 0 && a > 0 {
            lemma_small_mod(0, a);
        }
    } else if a < b {
        lemma_small_mod(a, b);
    } else if b < a {
        lemma_small_mod(b, a);
    }
}

/// One step of the extended algorithm keeps the coefficient in step with the
/// remainder, modulo `m`.
proof fn lemma_reduced_step(a: int, m: int, r0: int, r1: int, s0: int, s1: int, q: int)
    requires
        m > 0,
        (s0 * a) % m == r0 % m,
        (s1 * a) % m == r1 % m,
    ensures
        ((s0 - q * s1) * a) % m == (r0 - q * r1) % m,
{
    let big0 = s0 * a;
    let big1 = s1 * a;
    lemma_fundamental_div_mod(big0, m);
    lemma_fundamental_div_mod(big1, m);
    lemma_fundamental_div_mod(r0, m);
    lemma_fundamental_div_mod(r1, m);
    let d0 = big0 / m - r0 / m;
    let d1 = big1 / m - r1 / m;
    assert(big0 - r0 == m * d0) by (nonlinear_arith)
        requires
            big0 == m * (big0 / m) + big0 % m,
            r0 == m * (r0 / m) + r0 % m,
            big0 % m == r0 % m,
            d0 == big0 / m - r0 / m,
    ;
    assert(big1 - r1 == m * d1) by (nonlinear_arith)
        requires
            big1 == m * (big1 / m) + big1 % m,
            r1 == m * (r1 / m) + r1 % m,
            big1 % m == r1 % m,
            d1 == big1 / m - r1 / m,
    ;
    assert((s0 - q * s1) * a == big0 - q * big1) by (nonlinear_arith)
        requires
            big0 == s0 * a,
            big1 == s1 * a,
    ;
    let c = d0 - q * d1;
    assert(big0 - q * big1 == m * c + (r0 - q * r1)) by (nonlinear_arith)
        requires
            big0 - r0 == m * d0,
            big1 - r1 == m * d1,
            c == d0 - q * d1,
    ;
    lemma_mod_multiples_vanish(c, r0 - q * r1, m);
}

/// Reducing one summand first does not change a sum modulo `m`.
pub proof fn lemma_add_reduced(x: int, c: int, m: int)
    requires
        m > 0,
    ensures
        ((x % m) + c) % m == (x + c) % m,
        (c + (x % m)) % m == (c + x) % m,
{
    lemma_add_mod_noop(x, c, m);
    lemma_add_mod_noop(x % m, c, m);
    lemma_add_mod_noop(c, x, m);
    lemma_add_mod_noop(c, x % m, m);
    vstd::arithmetic::div_mod::lemma_mod_twice(x, m);
}

/// Addition modulo `m` may be regrouped.
pub proof fn lemma_add_mod_associative(a: int, b: int, c: int, m: int)
    requires
        m > 0,
    ensures
        (((a + b) % m) + c) % m == (a + ((b + c) % m)) % m,
{
    lemma_add_reduced(a + b, c, m);
    lemma_add_reduced(b + c, a, m);
}

/// Multiplication modulo `m` may be regrouped.
pub proof fn lemma_mul_mod_associative(a: int, b: int, c: int, m: int)
    requires
        m > 0,
    ensures
        (((a * b) % m) * c) % m == (a * ((b * c) % m)) % m,
{
    lemma_mul_mod_noop_general(a * b, c, m);
    lemma_mul_mod_noop_general(a, b * c, m);
    vstd::arithmetic::mul::lemma_mul_is_associative(a, b, c);
}

/// The product of two numbers below `bound` is below its square.
pub proof fn lemma_product_bound(a: int, b: int, bound: int)
    by (nonlinear_arith)
    requires
        0 <= a < bound,
        0 <= b < bound,
    ensures
        0 <= a * b <= (bound - 1) * (bound - 1),
{
}

/// One shares no divisor with any number.
pub proof fn lemma_gcd_one(m: nat)
    ensures
        gcd(1, m) == 1,
{
    if m == 1 {
        lemma_mod_self_0(1);
        assert(gcd(1, 1) == gcd(1, 0));
    } else if m > 1 {
        lemma_small_mod(1, m);
        assert(gcd(1, m) == gcd(m, 1));
        assert(m % 1 == 0);
        assert(gcd(m, 1) == gcd(1, 0));
    }
}

/// Zero and `m` have `m` as their greatest common divisor.
pub proof fn lemma_gcd_zero(m: nat)
    ensures
        gcd(0, m) == m,
{
    if m > 0 {
        lemma_small_mod(0, m);
        assert(gcd(0, m) == gcd(m, 0));
    }
}

/// The inverse of a number modulo `m` is itself coprime to `m`.
pub proof fn lemma_inverse_is_coprime(a: nat, x: nat, m: nat)
    requires
        m > 0,
        inverts(a as int, x as int, m as int),
    ensures
        gcd(x, m) == 1,
{
    assert(x * a == a * x) by (nonlinear_arith);
    lemma_invertible_is_coprime(x, a as int, m);
}

/// Whether `p` is a prime, by trying every divisor below it.
pub fn is_prime_u128(p: u128) -> (r: bool)
    ensures
        r == is_prime(p as nat),
{
    if p < 2 {
        return false;
    }
    let mut d: u128 = 2;
    while d < p
        invariant
            2 <= d <= p,
            forall|e: nat| 1 < e < d ==> #[trigger] ((p as nat) % e) != 0,
        decreases p - d,
    {
        if p % d == 0 {
            assert((p as nat) % (d as nat) == 0);
            return false;
        }
        d += 1;
    }
    true
}

} // verus!
