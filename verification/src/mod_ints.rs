//! Integers modulo a constant, in three widths, as elements under addition
//! and under multiplication.
//!
//! A modulus is fit for addition when the sum of two residues fits the width,
//! and for multiplication when their product does.

use std::marker::PhantomData;
use std::ops::Add;
use std::ops::Mul;
use vstd::arithmetic::div_mod::lemma_mod_self_0;
use vstd::arithmetic::div_mod::lemma_small_mod;
use vstd::prelude::*;
use vstd::std_specs::cmp::PartialEqSpecImpl;
use vstd::std_specs::ops::AddSpecImpl;
use vstd::std_specs::ops::MulSpecImpl;

use crate::errors::ModularError;
use crate::number_theory::gcd;
use crate::number_theory::gcd_u128;
use crate::number_theory::inverse_mod;
use crate::number_theory::inverse_mod_u128;
use crate::number_theory::is_inverse_mod;
use crate::number_theory::is_prime;
use crate::number_theory::is_prime_u128;
use crate::number_theory::lemma_add_mod_associative;
use crate::number_theory::lemma_coprime_is_invertible;
use crate::number_theory::lemma_coprime_product;
use crate::number_theory::lemma_gcd_one;
use crate::number_theory::lemma_gcd_zero;
use crate::number_theory::lemma_inverse_is_coprime;
use crate::number_theory::lemma_mul_mod_associative;
use crate::number_theory::lemma_prime_coprime;
use crate::number_theory::lemma_product_bound;
use crate::number_theory::lemma_add_reduced;
use crate::number_theory::lemma_additive_order;
use crate::ops::element_order;
use crate::ops::has_finite_order;
use crate::ops::inverse_closed;
use crate::ops::is_order;
use crate::ops::is_period;
use crate::ops::lemma_order_exists;
use crate::ops::power;
use crate::ops::Associative;
use crate::ops::Element;
use crate::ops::Identity;
use crate::ops::Inverse;
use crate::ops::Op;
use crate::ops::ADD;
use crate::ops::MUL;

verus! {

/// `v` is a residue modulo `m`, and `m` is at least `least` and at most `most`.
pub open spec fn residue_within(v: int, m: int, least: int, most: int) -> bool {
    0 <= v < m && least <= m <= most
}

/// `v` is a residue modulo `m` that shares no divisor with `m`, and `m` is at
/// least 2 and at most `most`.
pub open spec fn unit_within(v: int, m: int, most: int) -> bool {
    residue_within(v, m, 2, most) && gcd(v as nat, m as nat) == 1
}

/// `v` is a residue other than zero modulo the prime `p`, which is at most
/// `most`.
pub open spec fn nonzero_within(v: int, p: int, most: int) -> bool {
    0 < v < p && p <= most && is_prime(p as nat)
}

/// A unit modulo `m` has an inverse among the units, and the two multiply to 1
/// in either order.
pub proof fn lemma_unit_inverse(a: int, m: int, most: int)
    requires
        unit_within(a, m, most),
    ensures
        unit_within(inverse_mod(a, m), m, most),
        (a * inverse_mod(a, m)) % m == 1,
        (inverse_mod(a, m) * a) % m == 1,
{
    lemma_coprime_is_invertible(a as nat, m as nat);
    let x = inverse_mod(a, m);
    assert(a * x == x * a) by (nonlinear_arith);
    lemma_inverse_is_coprime(a as nat, x as nat, m as nat);
}

/// The product of two units modulo `m` is a unit.
pub proof fn lemma_unit_product(a: int, b: int, m: int, most: int)
    requires
        unit_within(a, m, most),
        unit_within(b, m, most),
    ensures
        unit_within((a * b) % m, m, most),
{
    lemma_product_bound(a, b, m);
    lemma_coprime_product(a as nat, b as nat, m as nat);
}

/// One is a unit modulo every `m` from 2 on.
pub proof fn lemma_unit_one(m: int, most: int)
    requires
        2 <= m <= most,
    ensures
        unit_within(1, m, most),
{
    lemma_gcd_one(m as nat);
}

/// Modulo a prime, the residues other than zero are the units.
pub proof fn lemma_nonzero_is_unit(v: int, p: int, most: int)
    requires
        is_prime(p as nat),
        2 <= p <= most,
    ensures
        nonzero_within(v, p, most) <==> unit_within(v, p, most),
{
    if 0 < v < p {
        lemma_prime_coprime(v as nat, p as nat);
    }
    if v == 0 {
        lemma_gcd_zero(p as nat);
    }
}

/// A residue modulo `M` in 32 bits.
#[derive(Debug, Clone, Copy)]
pub struct U32Mod<const M: u32>(pub u32);

impl<const M: u32> View for U32Mod<M> {
    type V = int;

    open spec fn view(&self) -> int {
        self.0 as int
    }
}

impl<const M: u32> PartialEq for U32Mod<M> {
    fn eq(&self, other: &Self) -> (r: bool) {
        self.0 == other.0
    }
}

impl<const M: u32> PartialEqSpecImpl for U32Mod<M> {
    open spec fn obeys_eq_spec() -> bool {
        true
    }

    open spec fn eq_spec(&self, other: &Self) -> bool {
        self.0 == other.0
    }
}

impl<const M: u32> Eq for U32Mod<M> {

}

impl<const M: u32> Element for U32Mod<M> {
    proof fn lemma_eq_by_value() {
        reveal(vstd::laws_eq::obeys_view_eq);
    }

    proof fn lemma_clone_by_value(a: Self, b: Self) {
    }
}

impl<const M: u32> U32Mod<M> {
    /// The residue `value`, for use under addition: the modulus must be at
    /// least 1 and at most half the range of the width, and `value` below it.
    pub fn try_new(value: u32) -> (r: Result<Self, ModularError>)
        ensures
            r == (if !(1 <= M <= 0x8000_0000) {
                Err::<Self, ModularError>(ModularError::ModulusOutOfRange)
            } else if value >= M {
                Err(ModularError::ValueOutOfRange)
            } else {
                Ok(U32Mod(value))
            }),
            r is Ok <==> <Self as Op<ADD>>::is_element(value as int),
    {
        if M < 1 || M > 0x8000_0000 {
            Err(ModularError::ModulusOutOfRange)
        } else if value >= M {
            Err(ModularError::ValueOutOfRange)
        } else {
            Ok(U32Mod(value))
        }
    }

    /// The residue `value`, for use under multiplication: the modulus must be
    /// at least 2 and at most the square root of the range of the width, and
    /// `value` below it.
    pub fn try_new_multiplicative(value: u32) -> (r: Result<Self, ModularError>)
        ensures
            r == (if !(2 <= M <= 0x1_0000) {
                Err::<Self, ModularError>(ModularError::ModulusOutOfRange)
            } else if value >= M {
                Err(ModularError::ValueOutOfRange)
            } else {
                Ok(U32Mod(value))
            }),
            r is Ok <==> <Self as Op<MUL>>::is_element(value as int),
    {
        if M < 2 || M > 0x1_0000 {
            Err(ModularError::ModulusOutOfRange)
        } else if value >= M {
            Err(ModularError::ValueOutOfRange)
        } else {
            Ok(U32Mod(value))
        }
    }
}

impl<const M: u32> Op<ADD> for U32Mod<M> {
    open spec fn is_element(v: int) -> bool {
        residue_within(v, M as int, 1, 0x8000_0000)
    }

    open spec fn op_spec(a: int, b: int) -> int {
        (a + b) % (M as int)
    }

    proof fn lemma_op_closed(a: int, b: int) {
    }

    /// The sum, reduced.
    fn op(&self, other: Self) -> (r: Self) {
        U32Mod((self.0 + other.0) % M)
    }
}

impl<const M: u32> Associative<ADD> for U32Mod<M> {
    proof fn lemma_associative(a: int, b: int, c: int) {
        lemma_add_mod_associative(a, b, c, M as int);
    }
}

impl<const M: u32> Identity<ADD> for U32Mod<M> {
    open spec fn identity_spec() -> int {
        0
    }

    proof fn lemma_identity(a: int) {
        lemma_small_mod(a as nat, M as nat);
    }

    /// Zero.
    fn identity() -> (r: Self) {
        U32Mod(0)
    }
}

impl<const M: u32> Inverse<ADD> for U32Mod<M> {
    /// The difference `M - a`, not reduced: for zero it is `M`, which is no
    /// residue.
    open spec fn inverse_spec(a: int) -> int {
        M - a
    }

    proof fn lemma_inverse(a: int) {
        vstd::arithmetic::div_mod::lemma_mod_self_0(M as int);
    }

    /// `M - self`. For every residue but zero this is the residue that adds up
    /// to zero with it. For zero it is `M` itself, which lies outside the
    /// residues.
    fn inverse(&self) -> (r: Self) {
        U32Mod(M - self.0)
    }
}

impl<const M: u32> Op<MUL> for U32Mod<M> {
    open spec fn is_element(v: int) -> bool {
        residue_within(v, M as int, 2, 0x1_0000)
    }

    open spec fn op_spec(a: int, b: int) -> int {
        (a * b) % (M as int)
    }

    proof fn lemma_op_closed(a: int, b: int) {
        lemma_product_bound(a, b, M as int);
    }

    /// The product, reduced.
    fn op(&self, other: Self) -> (r: Self) {
        proof {
            lemma_product_bound(self.0 as int, other.0 as int, 0x1_0000);
        }
        U32Mod((self.0 * other.0) % M)
    }
}

impl<const M: u32> Associative<MUL> for U32Mod<M> {
    proof fn lemma_associative(a: int, b: int, c: int) {
        lemma_mul_mod_associative(a, b, c, M as int);
    }
}

impl<const M: u32> Identity<MUL> for U32Mod<M> {
    open spec fn identity_spec() -> int {
        1
    }

    proof fn lemma_identity(a: int) {
        assert(a * 1 == a && 1 * a == a);
        lemma_small_mod(a as nat, M as nat);
    }

    /// One.
    fn identity() -> (r: Self) {
        U32Mod(1)
    }
}

impl<const M: u32> Add<U32Mod<M>> for U32Mod<M> {
    type Output = U32Mod<M>;

    fn add(self, other: U32Mod<M>) -> (r: U32Mod<M>) {
        <Self as Op<ADD>>::op(&self, other)
    }
}

impl<const M: u32> AddSpecImpl<U32Mod<M>> for U32Mod<M> {
    open spec fn obeys_add_spec() -> bool {
        true
    }

    open spec fn add_req(self, other: U32Mod<M>) -> bool {
        <Self as Op<ADD>>::is_element(self@) && <Self as Op<ADD>>::is_element(other@)
    }

    open spec fn add_spec(self, other: U32Mod<M>) -> U32Mod<M> {
        U32Mod(<Self as Op<ADD>>::op_spec(self@, other@) as u32)
    }
}

impl<const M: u32> Mul<U32Mod<M>> for U32Mod<M> {
    type Output = U32Mod<M>;

    fn mul(self, other: U32Mod<M>) -> (r: U32Mod<M>) {
        <Self as Op<MUL>>::op(&self, other)
    }
}

impl<const M: u32> MulSpecImpl<U32Mod<M>> for U32Mod<M> {
    open spec fn obeys_mul_spec() -> bool {
        true
    }

    open spec fn mul_req(self, other: U32Mod<M>) -> bool {
        <Self as Op<MUL>>::is_element(self@) && <Self as Op<MUL>>::is_element(other@)
    }

    open spec fn mul_spec(self, other: U32Mod<M>) -> U32Mod<M> {
        U32Mod(<Self as Op<MUL>>::op_spec(self@, other@) as u32)
    }
}

/// A residue modulo `M` in 64 bits.
#[derive(Debug, Clone, Copy)]
pub struct U64Mod<const M: u64>(pub u64);

impl<const M: u64> View for U64Mod<M> {
    type V = int;

    open spec fn view(&self) -> int {
        self.0 as int
    }
}

impl<const M: u64> PartialEq for U64Mod<M> {
    fn eq(&self, other: &Self) -> (r: bool) {
        self.0 == other.0
    }
}

impl<const M: u64> PartialEqSpecImpl for U64Mod<M> {
    open spec fn obeys_eq_spec() -> bool {
        true
    }

    open spec fn eq_spec(&self, other: &Self) -> bool {
        self.0 == other.0
    }
}

impl<const M: u64> Eq for U64Mod<M> {

}

impl<const M: u64> Element for U64Mod<M> {
    proof fn lemma_eq_by_value() {
        reveal(vstd::laws_eq::obeys_view_eq);
    }

    proof fn lemma_clone_by_value(a: Self, b: Self) {
    }
}

impl<const M: u64> U64Mod<M> {
    /// The residue `value`, for use under addition: the modulus must be at
    /// least 1 and at most half the range of the width, and `value` below it.
    pub fn try_new(value: u64) -> (r: Result<Self, ModularError>)
        ensures
            r == (if !(1 <= M <= 0x8000_0000_0000_0000) {
                Err::<Self, ModularError>(ModularError::ModulusOutOfRange)
            } else if value >= M {
                Err(ModularError::ValueOutOfRange)
            } else {
                Ok(U64Mod(value))
            }),
            r is Ok <==> <Self as Op<ADD>>::is_element(value as int),
    {
        if M < 1 || M > 0x8000_0000_0000_0000 {
            Err(ModularError::ModulusOutOfRange)
        } else if value >= M {
            Err(ModularError::ValueOutOfRange)
        } else {
            Ok(U64Mod(value))
        }
    }

    /// The residue `value`, for use under multiplication: the modulus must be
    /// at least 2 and at most the square root of the range of the width, and
    /// `value` below it.
    pub fn try_new_multiplicative(value: u64) -> (r: Result<Self, ModularError>)
        ensures
            r == (if !(2 <= M <= 0x1_0000_0000) {
                Err::<Self, ModularError>(ModularError::ModulusOutOfRange)
            } else if value >= M {
                Err(ModularError::ValueOutOfRange)
            } else {
                Ok(U64Mod(value))
            }),
            r is Ok <==> <Self as Op<MUL>>::is_element(value as int),
    {
        if M < 2 || M > 0x1_0000_0000 {
            Err(ModularError::ModulusOutOfRange)
        } else if value >= M {
            Err(ModularError::ValueOutOfRange)
        } else {
            Ok(U64Mod(value))
        }
    }
}

impl<const M: u64> Op<ADD> for U64Mod<M> {
    open spec fn is_element(v: int) -> bool {
        residue_within(v, M as int, 1, 0x8000_0000_0000_0000)
    }

    open spec fn op_spec(a: int, b: int) -> int {
        (a + b) % (M as int)
    }

    proof fn lemma_op_closed(a: int, b: int) {
    }

    /// The sum, reduced.
    fn op(&self, other: Self) -> (r: Self) {
        U64Mod((self.0 + other.0) % M)
    }
}

impl<const M: u64> Associative<ADD> for U64Mod<M> {
    proof fn lemma_associative(a: int, b: int, c: int) {
        lemma_add_mod_associative(a, b, c, M as int);
    }
}

impl<const M: u64> Identity<ADD> for U64Mod<M> {
    open spec fn identity_spec() -> int {
        0
    }

    proof fn lemma_identity(a: int) {
        lemma_small_mod(a as nat, M as nat);
    }

    /// Zero.
    fn identity() -> (r: Self) {
        U64Mod(0)
    }
}

impl<const M: u64> Inverse<ADD> for U64Mod<M> {
    /// The difference `M - a`, not reduced: for zero it is `M`, which is no
    /// residue.
    open spec fn inverse_spec(a: int) -> int {
        M - a
    }

    proof fn lemma_inverse(a: int) {
        vstd::arithmetic::div_mod::lemma_mod_self_0(M as int);
    }

    /// `M - self`. For every residue but zero this is the residue that adds up
    /// to zero with it. For zero it is `M` itself, which lies outside the
    /// residues.
    fn inverse(&self) -> (r: Self) {
        U64Mod(M - self.0)
    }
}

impl<const M: u64> Op<MUL> for U64Mod<M> {
    open spec fn is_element(v: int) -> bool {
        residue_within(v, M as int, 2, 0x1_0000_0000)
    }

    open spec fn op_spec(a: int, b: int) -> int {
        (a * b) % (M as int)
    }

    proof fn lemma_op_closed(a: int, b: int) {
        lemma_product_bound(a, b, M as int);
    }

    /// The product, reduced.
    fn op(&self, other: Self) -> (r: Self) {
        proof {
            lemma_product_bound(self.0 as int, other.0 as int, 0x1_0000_0000);
        }
        U64Mod((self.0 * other.0) % M)
    }
}

impl<const M: u64> Associative<MUL> for U64Mod<M> {
    proof fn lemma_associative(a: int, b: int, c: int) {
        lemma_mul_mod_associative(a, b, c, M as int);
    }
}

impl<const M: u64> Identity<MUL> for U64Mod<M> {
    open spec fn identity_spec() -> int {
        1
    }

    proof fn lemma_identity(a: int) {
        assert(a * 1 == a && 1 * a == a);
        lemma_small_mod(a as nat, M as nat);
    }

    /// One.
    fn identity() -> (r: Self) {
        U64Mod(1)
    }
}

impl<const M: u64> Add<U64Mod<M>> for U64Mod<M> {
    type Output = U64Mod<M>;

    fn add(self, other: U64Mod<M>) -> (r: U64Mod<M>) {
        <Self as Op<ADD>>::op(&self, other)
    }
}

impl<const M: u64> AddSpecImpl<U64Mod<M>> for U64Mod<M> {
    open spec fn obeys_add_spec() -> bool {
        true
    }

    open spec fn add_req(self, other: U64Mod<M>) -> bool {
        <Self as Op<ADD>>::is_element(self@) && <Self as Op<ADD>>::is_element(other@)
    }

    open spec fn add_spec(self, other: U64Mod<M>) -> U64Mod<M> {
        U64Mod(<Self as Op<ADD>>::op_spec(self@, other@) as u64)
    }
}

impl<const M: u64> Mul<U64Mod<M>> for U64Mod<M> {
    type Output = U64Mod<M>;

    fn mul(self, other: U64Mod<M>) -> (r: U64Mod<M>) {
        <Self as Op<MUL>>::op(&self, other)
    }
}

impl<const M: u64> MulSpecImpl<U64Mod<M>> for U64Mod<M> {
    open spec fn obeys_mul_spec() -> bool {
        true
    }

    open spec fn mul_req(self, other: U64Mod<M>) -> bool {
        <Self as Op<MUL>>::is_element(self@) && <Self as Op<MUL>>::is_element(other@)
    }

    open spec fn mul_spec(self, other: U64Mod<M>) -> U64Mod<M> {
        U64Mod(<Self as Op<MUL>>::op_spec(self@, other@) as u64)
    }
}

/// A residue modulo `M` in 128 bits.
#[derive(Debug, Clone, Copy)]
pub struct U128Mod<const M: u128>(pub u128);

impl<const M: u128> View for U128Mod<M> {
    type V = int;

    open spec fn view(&self) -> int {
        self.0 as int
    }
}

impl<const M: u128> PartialEq for U128Mod<M> {
    fn eq(&self, other: &Self) -> (r: bool) {
        self.0 == other.0
    }
}

impl<const M: u128> PartialEqSpecImpl for U128Mod<M> {
    open spec fn obeys_eq_spec() -> bool {
        true
    }

    open spec fn eq_spec(&self, other: &Self) -> bool {
        self.0 == other.0
    }
}

impl<const M: u128> Eq for U128Mod<M> {

}

impl<const M: u128> Element for U128Mod<M> {
    proof fn lemma_eq_by_value() {
        reveal(vstd::laws_eq::obeys_view_eq);
    }

    proof fn lemma_clone_by_value(a: Self, b: Self) {
    }
}

impl<const M: u128> U128Mod<M> {
    /// The residue `value`, for use under addition: the modulus must be at
    /// least 1 and at most half the range of the width, and `value` below it.
    pub fn try_new(value: u128) -> (r: Result<Self, ModularError>)
        ensures
            r == (if !(1 <= M <= 0x8000_0000_0000_0000_0000_0000_0000_0000) {
                Err::<Self, ModularError>(ModularError::ModulusOutOfRange)
            } else if value >= M {
                Err(ModularError::ValueOutOfRange)
            } else {
                Ok(U128Mod(value))
            }),
            r is Ok <==> <Self as Op<ADD>>::is_element(value as int),
    {
        if M < 1 || M > 0x8000_0000_0000_0000_0000_0000_0000_0000 {
            Err(ModularError::ModulusOutOfRange)
        } else if value >= M {
            Err(ModularError::ValueOutOfRange)
        } else {
            Ok(U128Mod(value))
        }
    }

    /// The residue `value`, for use under multiplication: the modulus must be
    /// at least 2 and at most the square root of the range of the width, and
    /// `value` below it.
    pub fn try_new_multiplicative(value: u128) -> (r: Result<Self, ModularError>)
        ensures
            r == (if !(2 <= M <= 0x1_0000_0000_0000_0000) {
                Err::<Self, ModularError>(ModularError::ModulusOutOfRange)
            } else if value >= M {
                Err(ModularError::ValueOutOfRange)
            } else {
                Ok(U128Mod(value))
            }),
            r is Ok <==> <Self as Op<MUL>>::is_element(value as int),
    {
        if M < 2 || M > 0x1_0000_0000_0000_0000 {
            Err(ModularError::ModulusOutOfRange)
        } else if value >= M {
            Err(ModularError::ValueOutOfRange)
        } else {
            Ok(U128Mod(value))
        }
    }
}

impl<const M: u128> Op<ADD> for U128Mod<M> {
    open spec fn is_element(v: int) -> bool {
        residue_within(v, M as int, 1, 0x8000_0000_0000_0000_0000_0000_0000_0000)
    }

    open spec fn op_spec(a: int, b: int) -> int {
        (a + b) % (M as int)
    }

    proof fn lemma_op_closed(a: int, b: int) {
    }

    /// The sum, reduced.
    fn op(&self, other: Self) -> (r: Self) {
        U128Mod((self.0 + other.0) % M)
    }
}

impl<const M: u128> Associative<ADD> for U128Mod<M> {
    proof fn lemma_associative(a: int, b: int, c: int) {
        lemma_add_mod_associative(a, b, c, M as int);
    }
}

impl<const M: u128> Identity<ADD> for U128Mod<M> {
    open spec fn identity_spec() -> int {
        0
    }

    proof fn lemma_identity(a: int) {
        lemma_small_mod(a as nat, M as nat);
    }

    /// Zero.
    fn identity() -> (r: Self) {
        U128Mod(0)
    }
}

impl<const M: u128> Inverse<ADD> for U128Mod<M> {
    /// The difference `M - a`, not reduced: for zero it is `M`, which is no
    /// residue.
    open spec fn inverse_spec(a: int) -> int {
        M - a
    }

    proof fn lemma_inverse(a: int) {
        vstd::arithmetic::div_mod::lemma_mod_self_0(M as int);
    }

    /// `M - self`. For every residue but zero this is the residue that adds up
    /// to zero with it. For zero it is `M` itself, which lies outside the
    /// residues.
    fn inverse(&self) -> (r: Self) {
        U128Mod(M - self.0)
    }
}

impl<const M: u128> Op<MUL> for U128Mod<M> {
    open spec fn is_element(v: int) -> bool {
        residue_within(v, M as int, 2, 0x1_0000_0000_0000_0000)
    }

    open spec fn op_spec(a: int, b: int) -> int {
        (a * b) % (M as int)
    }

    proof fn lemma_op_closed(a: int, b: int) {
        lemma_product_bound(a, b, M as int);
    }

    /// The product, reduced.
    fn op(&self, other: Self) -> (r: Self) {
        proof {
            lemma_product_bound(self.0 as int, other.0 as int, 0x1_0000_0000_0000_0000);
        }
        U128Mod((self.0 * other.0) % M)
    }
}

impl<const M: u128> Associative<MUL> for U128Mod<M> {
    proof fn lemma_associative(a: int, b: int, c: int) {
        lemma_mul_mod_associative(a, b, c, M as int);
    }
}

impl<const M: u128> Identity<MUL> for U128Mod<M> {
    open spec fn identity_spec() -> int {
        1
    }

    proof fn lemma_identity(a: int) {
        assert(a * 1 == a && 1 * a == a);
        lemma_small_mod(a as nat, M as nat);
    }

    /// One.
    fn identity() -> (r: Self) {
        U128Mod(1)
    }
}

impl<const M: u128> Add<U128Mod<M>> for U128Mod<M> {
    type Output = U128Mod<M>;

    fn add(self, other: U128Mod<M>) -> (r: U128Mod<M>) {
        <Self as Op<ADD>>::op(&self, other)
    }
}

impl<const M: u128> AddSpecImpl<U128Mod<M>> for U128Mod<M> {
    open spec fn obeys_add_spec() -> bool {
        true
    }

    open spec fn add_req(self, other: U128Mod<M>) -> bool {
        <Self as Op<ADD>>::is_element(self@) && <Self as Op<ADD>>::is_element(other@)
    }

    open spec fn add_spec(self, other: U128Mod<M>) -> U128Mod<M> {
        U128Mod(<Self as Op<ADD>>::op_spec(self@, other@) as u128)
    }
}

impl<const M: u128> Mul<U128Mod<M>> for U128Mod<M> {
    type Output = U128Mod<M>;

    fn mul(self, other: U128Mod<M>) -> (r: U128Mod<M>) {
        <Self as Op<MUL>>::op(&self, other)
    }
}

impl<const M: u128> MulSpecImpl<U128Mod<M>> for U128Mod<M> {
    open spec fn obeys_mul_spec() -> bool {
        true
    }

    open spec fn mul_req(self, other: U128Mod<M>) -> bool {
        <Self as Op<MUL>>::is_element(self@) && <Self as Op<MUL>>::is_element(other@)
    }

    open spec fn mul_spec(self, other: U128Mod<M>) -> U128Mod<M> {
        U128Mod(<Self as Op<MUL>>::op_spec(self@, other@) as u128)
    }
}

/// A residue modulo `M` in 32 bits that shares no divisor with `M`: an element
/// of the group of units under multiplication.
#[derive(Debug, Clone, Copy)]
pub struct U32CoprimeMod<const M: u32>(u32);

impl<const M: u32> View for U32CoprimeMod<M> {
    type V = int;

    closed spec fn view(&self) -> int {
        self.0 as int
    }
}

impl<const M: u32> PartialEq for U32CoprimeMod<M> {
    fn eq(&self, other: &Self) -> (r: bool) {
        self.0 == other.0
    }
}

impl<const M: u32> PartialEqSpecImpl for U32CoprimeMod<M> {
    open spec fn obeys_eq_spec() -> bool {
        true
    }

    open spec fn eq_spec(&self, other: &Self) -> bool {
        self@ == other@
    }
}

impl<const M: u32> Eq for U32CoprimeMod<M> {

}

impl<const M: u32> Element for U32CoprimeMod<M> {
    proof fn lemma_eq_by_value() {
        reveal(vstd::laws_eq::obeys_view_eq);
    }

    proof fn lemma_clone_by_value(a: Self, b: Self) {
    }
}

impl<const M: u32> U32CoprimeMod<M> {
    /// What keeps `n` from being a unit modulo `m`, the first that applies: the
    /// modulus out of range, `n` not below it, a common divisor.
    pub open spec fn refusal(n: int, m: int) -> ModularError {
        if !(2 <= m <= 0x1_0000) {
            ModularError::ModulusOutOfRange
        } else if n >= m {
            ModularError::ValueOutOfRange
        } else {
            ModularError::NotCoprime
        }
    }

    /// The unit `n`: the modulus must be at least 2 and at most the square root
    /// of the range of the width, `n` below it, and the two must share no
    /// divisor but 1.
    pub fn new(n: u32) -> (r: Result<Self, ModularError>)
        ensures
            match r {
                Ok(x) => x@ == n && unit_within(n as int, M as int, 0x1_0000),
                Err(e) => !unit_within(n as int, M as int, 0x1_0000) && e == Self::refusal(
                    n as int,
                    M as int,
                ),
            },
    {
        if M < 2 || M > 0x1_0000 {
            Err(ModularError::ModulusOutOfRange)
        } else if n >= M {
            Err(ModularError::ValueOutOfRange)
        } else if gcd_u128(n as u128, M as u128) != 1 {
            Err(ModularError::NotCoprime)
        } else {
            Ok(U32CoprimeMod(n))
        }
    }

    /// The number that stands for the unit.
    pub fn value(&self) -> (v: u32)
        ensures
            v == self@,
    {
        self.0
    }

    /// The inverse of a unit is a unit.
    pub proof fn lemma_inverse_closed()
        ensures
            inverse_closed::<MUL, Self>(),
    {
        assert forall|a: int| <Self as Op<MUL>>::is_element(a) implies <Self as Op<
            MUL,
        >>::is_element(#[trigger] <Self as Inverse<MUL>>::inverse_spec(a)) by {
            lemma_unit_inverse(a, M as int, 0x1_0000);
        }
    }
}

impl<const M: u32> Op<MUL> for U32CoprimeMod<M> {
    open spec fn is_element(v: int) -> bool {
        unit_within(v, M as int, 0x1_0000)
    }

    open spec fn op_spec(a: int, b: int) -> int {
        (a * b) % (M as int)
    }

    proof fn lemma_op_closed(a: int, b: int) {
        lemma_unit_product(a, b, M as int, 0x1_0000);
    }

    /// The product, reduced.
    fn op(&self, other: Self) -> (r: Self) {
        proof {
            lemma_product_bound(self.0 as int, other.0 as int, 0x1_0000);
        }
        U32CoprimeMod((self.0 * other.0) % M)
    }
}

impl<const M: u32> Associative<MUL> for U32CoprimeMod<M> {
    proof fn lemma_associative(a: int, b: int, c: int) {
        lemma_mul_mod_associative(a, b, c, M as int);
    }
}

impl<const M: u32> Identity<MUL> for U32CoprimeMod<M> {
    open spec fn identity_spec() -> int {
        1
    }

    proof fn lemma_identity(a: int) {
        assert(a * 1 == a && 1 * a == a);
        lemma_small_mod(a as nat, M as nat);
        lemma_unit_one(M as int, 0x1_0000);
    }

    /// One.
    fn identity() -> (r: Self) {
        U32CoprimeMod(1)
    }
}

impl<const M: u32> Inverse<MUL> for U32CoprimeMod<M> {
    /// The residue whose product with `a` leaves the remainder 1.
    open spec fn inverse_spec(a: int) -> int {
        inverse_mod(a, M as int)
    }

    proof fn lemma_inverse(a: int) {
        lemma_unit_inverse(a, M as int, 0x1_0000);
    }

    /// The inverse, by the extended algorithm of Euclid.
    fn inverse(&self) -> (r: Self) {
        U32CoprimeMod(inverse_mod_u128(self.0 as u128, M as u128) as u32)
    }
}

impl<const M: u32> Mul<U32CoprimeMod<M>> for U32CoprimeMod<M> {
    type Output = U32CoprimeMod<M>;

    /// The product, reduced.
    fn mul(self, other: U32CoprimeMod<M>) -> (r: U32CoprimeMod<M>)
        ensures
            r@ == (self@ * other@) % (M as int),
    {
        <Self as Op<MUL>>::op(&self, other)
    }
}

impl<const M: u32> MulSpecImpl<U32CoprimeMod<M>> for U32CoprimeMod<M> {
    open spec fn obeys_mul_spec() -> bool {
        true
    }

    open spec fn mul_req(self, other: U32CoprimeMod<M>) -> bool {
        <Self as Op<MUL>>::is_element(self@) && <Self as Op<MUL>>::is_element(other@)
    }

    closed spec fn mul_spec(self, other: U32CoprimeMod<M>) -> U32CoprimeMod<M> {
        U32CoprimeMod(<Self as Op<MUL>>::op_spec(self@, other@) as u32)
    }
}

/// A residue modulo `M` in 64 bits that shares no divisor with `M`: an element
/// of the group of units under multiplication.
#[derive(Debug, Clone, Copy)]
pub struct U64CoprimeMod<const M: u64>(u64);

impl<const M: u64> View for U64CoprimeMod<M> {
    type V = int;

    closed spec fn view(&self) -> int {
        self.0 as int
    }
}

impl<const M: u64> PartialEq for U64CoprimeMod<M> {
    fn eq(&self, other: &Self) -> (r: bool) {
        self.0 == other.0
    }
}

impl<const M: u64> PartialEqSpecImpl for U64CoprimeMod<M> {
    open spec fn obeys_eq_spec() -> bool {
        true
    }

    open spec fn eq_spec(&self, other: &Self) -> bool {
        self@ == other@
    }
}

impl<const M: u64> Eq for U64CoprimeMod<M> {

}

impl<const M: u64> Element for U64CoprimeMod<M> {
    proof fn lemma_eq_by_value() {
        reveal(vstd::laws_eq::obeys_view_eq);
    }

    proof fn lemma_clone_by_value(a: Self, b: Self) {
    }
}

impl<const M: u64> U64CoprimeMod<M> {
    /// What keeps `n` from being a unit modulo `m`, the first that applies: the
    /// modulus out of range, `n` not below it, a common divisor.
    pub open spec fn refusal(n: int, m: int) -> ModularError {
        if !(2 <= m <= 0x1_0000_0000) {
            ModularError::ModulusOutOfRange
        } else if n >= m {
            ModularError::ValueOutOfRange
        } else {
            ModularError::NotCoprime
        }
    }

    /// The unit `n`: the modulus must be at least 2 and at most the square root
    /// of the range of the width, `n` below it, and the two must share no
    /// divisor but 1.
    pub fn new(n: u64) -> (r: Result<Self, ModularError>)
        ensures
            match r {
                Ok(x) => x@ == n && unit_within(n as int, M as int, 0x1_0000_0000),
                Err(e) => !unit_within(n as int, M as int, 0x1_0000_0000) && e == Self::refusal(
                    n as int,
                    M as int,
                ),
            },
    {
        if M < 2 || M > 0x1_0000_0000 {
            Err(ModularError::ModulusOutOfRange)
        } else if n >= M {
            Err(ModularError::ValueOutOfRange)
        } else if gcd_u128(n as u128, M as u128) != 1 {
            Err(ModularError::NotCoprime)
        } else {
            Ok(U64CoprimeMod(n))
        }
    }

    /// The number that stands for the unit.
    pub fn value(&self) -> (v: u64)
        ensures
            v == self@,
    {
        self.0
    }

    /// The inverse of a unit is a unit.
    pub proof fn lemma_inverse_closed()
        ensures
            inverse_closed::<MUL, Self>(),
    {
        assert forall|a: int| <Self as Op<MUL>>::is_element(a) implies <Self as Op<
            MUL,
        >>::is_element(#[trigger] <Self as Inverse<MUL>>::inverse_spec(a)) by {
            lemma_unit_inverse(a, M as int, 0x1_0000_0000);
        }
    }
}

impl<const M: u64> Op<MUL> for U64CoprimeMod<M> {
    open spec fn is_element(v: int) -> bool {
        unit_within(v, M as int, 0x1_0000_0000)
    }

    open spec fn op_spec(a: int, b: int) -> int {
        (a * b) % (M as int)
    }

    proof fn lemma_op_closed(a: int, b: int) {
        lemma_unit_product(a, b, M as int, 0x1_0000_0000);
    }

    /// The product, reduced.
    fn op(&self, other: Self) -> (r: Self) {
        proof {
            lemma_product_bound(self.0 as int, other.0 as int, 0x1_0000_0000);
        }
        U64CoprimeMod((self.0 * other.0) % M)
    }
}

impl<const M: u64> Associative<MUL> for U64CoprimeMod<M> {
    proof fn lemma_associative(a: int, b: int, c: int) {
        lemma_mul_mod_associative(a, b, c, M as int);
    }
}

impl<const M: u64> Identity<MUL> for U64CoprimeMod<M> {
    open spec fn identity_spec() -> int {
        1
    }

    proof fn lemma_identity(a: int) {
        assert(a * 1 == a && 1 * a == a);
        lemma_small_mod(a as nat, M as nat);
        lemma_unit_one(M as int, 0x1_0000_0000);
    }

    /// One.
    fn identity() -> (r: Self) {
        U64CoprimeMod(1)
    }
}

impl<const M: u64> Inverse<MUL> for U64CoprimeMod<M> {
    /// The residue whose product with `a` leaves the remainder 1.
    open spec fn inverse_spec(a: int) -> int {
        inverse_mod(a, M as int)
    }

    proof fn lemma_inverse(a: int) {
        lemma_unit_inverse(a, M as int, 0x1_0000_0000);
    }

    /// The inverse, by the extended algorithm of Euclid.
    fn inverse(&self) -> (r: Self) {
        U64CoprimeMod(inverse_mod_u128(self.0 as u128, M as u128) as u64)
    }
}

impl<const M: u64> Mul<U64CoprimeMod<M>> for U64CoprimeMod<M> {
    type Output = U64CoprimeMod<M>;

    /// The product, reduced.
    fn mul(self, other: U64CoprimeMod<M>) -> (r: U64CoprimeMod<M>)
        ensures
            r@ == (self@ * other@) % (M as int),
    {
        <Self as Op<MUL>>::op(&self, other)
    }
}

impl<const M: u64> MulSpecImpl<U64CoprimeMod<M>> for U64CoprimeMod<M> {
    open spec fn obeys_mul_spec() -> bool {
        true
    }

    open spec fn mul_req(self, other: U64CoprimeMod<M>) -> bool {
        <Self as Op<MUL>>::is_element(self@) && <Self as Op<MUL>>::is_element(other@)
    }

    closed spec fn mul_spec(self, other: U64CoprimeMod<M>) -> U64CoprimeMod<M> {
        U64CoprimeMod(<Self as Op<MUL>>::op_spec(self@, other@) as u64)
    }
}

/// A residue modulo `M` in 128 bits that shares no divisor with `M`: an element
/// of the group of units under multiplication.
#[derive(Debug, Clone, Copy)]
pub struct U128CoprimeMod<const M: u128>(u128);

impl<const M: u128> View for U128CoprimeMod<M> {
    type V = int;

    closed spec fn view(&self) -> int {
        self.0 as int
    }
}

impl<const M: u128> PartialEq for U128CoprimeMod<M> {
    fn eq(&self, other: &Self) -> (r: bool) {
        self.0 == other.0
    }
}

impl<const M: u128> PartialEqSpecImpl for U128CoprimeMod<M> {
    open spec fn obeys_eq_spec() -> bool {
        true
    }

    open spec fn eq_spec(&self, other: &Self) -> bool {
        self@ == other@
    }
}

impl<const M: u128> Eq for U128CoprimeMod<M> {

}

impl<const M: u128> Element for U128CoprimeMod<M> {
    proof fn lemma_eq_by_value() {
        reveal(vstd::laws_eq::obeys_view_eq);
    }

    proof fn lemma_clone_by_value(a: Self, b: Self) {
    }
}

impl<const M: u128> U128CoprimeMod<M> {
    /// What keeps `n` from being a unit modulo `m`, the first that applies: the
    /// modulus out of range, `n` not below it, a common divisor.
    pub open spec fn refusal(n: int, m: int) -> ModularError {
        if !(2 <= m <= 0x1_0000_0000_0000_0000) {
            ModularError::ModulusOutOfRange
        } else if n >= m {
            ModularError::ValueOutOfRange
        } else {
            ModularError::NotCoprime
        }
    }

    /// The unit `n`: the modulus must be at least 2 and at most the square root
    /// of the range of the width, `n` below it, and the two must share no
    /// divisor but 1.
    pub fn new(n: u128) -> (r: Result<Self, ModularError>)
        ensures
            match r {
                Ok(x) => x@ == n && unit_within(n as int, M as int, 0x1_0000_0000_0000_0000),
                Err(e) => !unit_within(n as int, M as int, 0x1_0000_0000_0000_0000) && e == Self::refusal(
                    n as int,
                    M as int,
                ),
            },
    {
        if M < 2 || M > 0x1_0000_0000_0000_0000 {
            Err(ModularError::ModulusOutOfRange)
        } else if n >= M {
            Err(ModularError::ValueOutOfRange)
        } else if gcd_u128(n, M) != 1 {
            Err(ModularError::NotCoprime)
        } else {
            Ok(U128CoprimeMod(n))
        }
    }

    /// The number that stands for the unit.
    pub fn value(&self) -> (v: u128)
        ensures
            v == self@,
    {
        self.0
    }

    /// The inverse of a unit is a unit.
    pub proof fn lemma_inverse_closed()
        ensures
            inverse_closed::<MUL, Self>(),
    {
        assert forall|a: int| <Self as Op<MUL>>::is_element(a) implies <Self as Op<
            MUL,
        >>::is_element(#[trigger] <Self as Inverse<MUL>>::inverse_spec(a)) by {
            lemma_unit_inverse(a, M as int, 0x1_0000_0000_0000_0000);
        }
    }
}

impl<const M: u128> Op<MUL> for U128CoprimeMod<M> {
    open spec fn is_element(v: int) -> bool {
        unit_within(v, M as int, 0x1_0000_0000_0000_0000)
    }

    open spec fn op_spec(a: int, b: int) -> int {
        (a * b) % (M as int)
    }

    proof fn lemma_op_closed(a: int, b: int) {
        lemma_unit_product(a, b, M as int, 0x1_0000_0000_0000_0000);
    }

    /// The product, reduced.
    fn op(&self, other: Self) -> (r: Self) {
        proof {
            lemma_product_bound(self.0 as int, other.0 as int, 0x1_0000_0000_0000_0000);
        }
        U128CoprimeMod((self.0 * other.0) % M)
    }
}

impl<const M: u128> Associative<MUL> for U128CoprimeMod<M> {
    proof fn lemma_associative(a: int, b: int, c: int) {
        lemma_mul_mod_associative(a, b, c, M as int);
    }
}

impl<const M: u128> Identity<MUL> for U128CoprimeMod<M> {
    open spec fn identity_spec() -> int {
        1
    }

    proof fn lemma_identity(a: int) {
        assert(a * 1 == a && 1 * a == a);
        lemma_small_mod(a as nat, M as nat);
        lemma_unit_one(M as int, 0x1_0000_0000_0000_0000);
    }

    /// One.
    fn identity() -> (r: Self) {
        U128CoprimeMod(1)
    }
}

impl<const M: u128> Inverse<MUL> for U128CoprimeMod<M> {
    /// The residue whose product with `a` leaves the remainder 1.
    open spec fn inverse_spec(a: int) -> int {
        inverse_mod(a, M as int)
    }

    proof fn lemma_inverse(a: int) {
        lemma_unit_inverse(a, M as int, 0x1_0000_0000_0000_0000);
    }

    /// The inverse, by the extended algorithm of Euclid.
    fn inverse(&self) -> (r: Self) {
        U128CoprimeMod(inverse_mod_u128(self.0, M))
    }
}

impl<const M: u128> Mul<U128CoprimeMod<M>> for U128CoprimeMod<M> {
    type Output = U128CoprimeMod<M>;

    /// The product, reduced.
    fn mul(self, other: U128CoprimeMod<M>) -> (r: U128CoprimeMod<M>)
        ensures
            r@ == (self@ * other@) % (M as int),
    {
        <Self as Op<MUL>>::op(&self, other)
    }
}

impl<const M: u128> MulSpecImpl<U128CoprimeMod<M>> for U128CoprimeMod<M> {
    open spec fn obeys_mul_spec() -> bool {
        true
    }

    open spec fn mul_req(self, other: U128CoprimeMod<M>) -> bool {
        <Self as Op<MUL>>::is_element(self@) && <Self as Op<MUL>>::is_element(other@)
    }

    closed spec fn mul_spec(self, other: U128CoprimeMod<M>) -> U128CoprimeMod<M> {
        U128CoprimeMod(<Self as Op<MUL>>::op_spec(self@, other@) as u128)
    }
}

/// A table of inverses modulo `M`, supplied from outside for a small modulus.
/// Nothing is taken on trust from it: what it gives is used only where it
/// proves to be the inverse.
pub trait PrecompedInverse<const M: u32> {
    /// What the table holds as the inverse of the unit `value` modulo `M`.
    fn precomped_inverse(value: u32) -> (r: u32)
        requires
            unit_within(value as int, M as int, 0x1_0000),
    ;
}

/// A unit modulo `M` in 32 bits whose inverse is looked up in the table `P`.
#[derive(Debug)]
pub struct U32CoprimeModPrecomp<const M: u32, P: PrecompedInverse<M>>(u32, PhantomData<P>);

impl<const M: u32, P: PrecompedInverse<M>> View for U32CoprimeModPrecomp<M, P> {
    type V = int;

    closed spec fn view(&self) -> int {
        self.0 as int
    }
}

impl<const M: u32, P: PrecompedInverse<M>> Clone for U32CoprimeModPrecomp<M, P> {
    fn clone(&self) -> (r: Self)
        ensures
            r@ == self@,
    {
        U32CoprimeModPrecomp(self.0, PhantomData)
    }
}

impl<const M: u32, P: PrecompedInverse<M>> Copy for U32CoprimeModPrecomp<M, P> {

}

impl<const M: u32, P: PrecompedInverse<M>> PartialEq for U32CoprimeModPrecomp<M, P> {
    fn eq(&self, other: &Self) -> (r: bool) {
        self.0 == other.0
    }
}

impl<const M: u32, P: PrecompedInverse<M>> PartialEqSpecImpl for U32CoprimeModPrecomp<M, P> {
    open spec fn obeys_eq_spec() -> bool {
        true
    }

    open spec fn eq_spec(&self, other: &Self) -> bool {
        self@ == other@
    }
}

impl<const M: u32, P: PrecompedInverse<M>> Eq for U32CoprimeModPrecomp<M, P> {

}

impl<const M: u32, P: PrecompedInverse<M>> Element for U32CoprimeModPrecomp<M, P> {
    proof fn lemma_eq_by_value() {
        reveal(vstd::laws_eq::obeys_view_eq);
    }

    proof fn lemma_clone_by_value(a: Self, b: Self) {
    }
}

impl<const M: u32, P: PrecompedInverse<M>> U32CoprimeModPrecomp<M, P> {
    /// The unit `n`, on the same terms as [`U32CoprimeMod::new`].
    pub fn new(n: u32) -> (r: Result<Self, ModularError>)
        ensures
            match r {
                Ok(x) => x@ == n && unit_within(n as int, M as int, 0x1_0000),
                Err(e) => !unit_within(n as int, M as int, 0x1_0000) && e == U32CoprimeMod::<
                    M,
                >::refusal(n as int, M as int),
            },
    {
        if M < 2 || M > 0x1_0000 {
            Err(ModularError::ModulusOutOfRange)
        } else if n >= M {
            Err(ModularError::ValueOutOfRange)
        } else if gcd_u128(n as u128, M as u128) != 1 {
            Err(ModularError::NotCoprime)
        } else {
            Ok(U32CoprimeModPrecomp(n, PhantomData))
        }
    }

    /// The number that stands for the unit.
    pub fn value(&self) -> (v: u32)
        ensures
            v == self@,
    {
        self.0
    }

    /// The inverse of a unit is a unit.
    pub proof fn lemma_inverse_closed()
        ensures
            inverse_closed::<MUL, Self>(),
    {
        assert forall|a: int| <Self as Op<MUL>>::is_element(a) implies <Self as Op<
            MUL,
        >>::is_element(#[trigger] <Self as Inverse<MUL>>::inverse_spec(a)) by {
            lemma_unit_inverse(a, M as int, 0x1_0000);
        }
    }
}

impl<const M: u32, P: PrecompedInverse<M>> Op<MUL> for U32CoprimeModPrecomp<M, P> {
    open spec fn is_element(v: int) -> bool {
        unit_within(v, M as int, 0x1_0000)
    }

    open spec fn op_spec(a: int, b: int) -> int {
        (a * b) % (M as int)
    }

    proof fn lemma_op_closed(a: int, b: int) {
        lemma_unit_product(a, b, M as int, 0x1_0000);
    }

    /// The product, reduced.
    fn op(&self, other: Self) -> (r: Self) {
        proof {
            lemma_product_bound(self.0 as int, other.0 as int, 0x1_0000);
        }
        U32CoprimeModPrecomp((self.0 * other.0) % M, PhantomData)
    }
}

impl<const M: u32, P: PrecompedInverse<M>> Associative<MUL> for U32CoprimeModPrecomp<M, P> {
    proof fn lemma_associative(a: int, b: int, c: int) {
        lemma_mul_mod_associative(a, b, c, M as int);
    }
}

impl<const M: u32, P: PrecompedInverse<M>> Identity<MUL> for U32CoprimeModPrecomp<M, P> {
    open spec fn identity_spec() -> int {
        1
    }

    proof fn lemma_identity(a: int) {
        assert(a * 1 == a && 1 * a == a);
        lemma_small_mod(a as nat, M as nat);
        lemma_unit_one(M as int, 0x1_0000);
    }

    /// One.
    fn identity() -> (r: Self) {
        U32CoprimeModPrecomp(1, PhantomData)
    }
}

impl<const M: u32, P: PrecompedInverse<M>> Inverse<MUL> for U32CoprimeModPrecomp<M, P> {
    /// The residue whose product with `a` leaves the remainder 1.
    open spec fn inverse_spec(a: int) -> int {
        inverse_mod(a, M as int)
    }

    proof fn lemma_inverse(a: int) {
        lemma_unit_inverse(a, M as int, 0x1_0000);
    }

    /// The inverse, as the table gives it. The entry is multiplied back once;
    /// should it not be the inverse, the inverse is computed instead.
    fn inverse(&self) -> (r: Self) {
        let x = P::precomped_inverse(self.0);
        proof {
            lemma_coprime_is_invertible(self.0 as nat, M as nat);
            if x < M {
                lemma_product_bound(self.0 as int, x as int, 0x1_0000);
            }
        }
        if x < M && (self.0 * x) % M == 1 {
            assert(is_inverse_mod(self.0 as int, x as int, M as int));
            U32CoprimeModPrecomp(x, PhantomData)
        } else {
            U32CoprimeModPrecomp(inverse_mod_u128(self.0 as u128, M as u128) as u32, PhantomData)
        }
    }
}

impl<const M: u32, P: PrecompedInverse<M>> Mul for U32CoprimeModPrecomp<M, P> {
    type Output = U32CoprimeModPrecomp<M, P>;

    /// The product, reduced.
    fn mul(self, other: U32CoprimeModPrecomp<M, P>) -> (r: U32CoprimeModPrecomp<M, P>)
        ensures
            r@ == (self@ * other@) % (M as int),
    {
        <Self as Op<MUL>>::op(&self, other)
    }
}

impl<const M: u32, P: PrecompedInverse<M>> MulSpecImpl for U32CoprimeModPrecomp<M, P> {
    open spec fn obeys_mul_spec() -> bool {
        true
    }

    open spec fn mul_req(self, other: U32CoprimeModPrecomp<M, P>) -> bool {
        <Self as Op<MUL>>::is_element(self@) && <Self as Op<MUL>>::is_element(other@)
    }

    closed spec fn mul_spec(self, other: U32CoprimeModPrecomp<M, P>) -> U32CoprimeModPrecomp<M, P> {
        U32CoprimeModPrecomp(<Self as Op<MUL>>::op_spec(self@, other@) as u32, PhantomData)
    }
}

/// A residue modulo the prime `P` in 32 bits: an element of a group under
/// addition, and, where it is not zero, under multiplication.
#[derive(Debug, Clone, Copy)]
pub struct U32Field<const P: u32>(pub u32);

impl<const P: u32> View for U32Field<P> {
    type V = int;

    open spec fn view(&self) -> int {
        self.0 as int
    }
}

impl<const P: u32> PartialEq for U32Field<P> {
    fn eq(&self, other: &Self) -> (r: bool) {
        self.0 == other.0
    }
}

impl<const P: u32> PartialEqSpecImpl for U32Field<P> {
    open spec fn obeys_eq_spec() -> bool {
        true
    }

    open spec fn eq_spec(&self, other: &Self) -> bool {
        self.0 == other.0
    }
}

impl<const P: u32> Eq for U32Field<P> {

}

impl<const P: u32> Element for U32Field<P> {
    proof fn lemma_eq_by_value() {
        reveal(vstd::laws_eq::obeys_view_eq);
    }

    proof fn lemma_clone_by_value(a: Self, b: Self) {
    }
}

impl<const P: u32> U32Field<P> {
    /// What keeps `value` from being an element under multiplication, the
    /// first that applies: the modulus out of range, the modulus no prime,
    /// `value` zero or not below the modulus.
    pub open spec fn refusal(value: int, p: int) -> ModularError {
        if !(2 <= p <= 0x1_0000) {
            ModularError::ModulusOutOfRange
        } else if !is_prime(p as nat) {
            ModularError::ModulusNotPrime
        } else {
            ModularError::ValueOutOfRange
        }
    }

    /// The residue `value`, for use under addition: the modulus must be at
    /// least 1 and at most half the range of the width, and `value` below it.
    pub fn try_new(value: u32) -> (r: Result<Self, ModularError>)
        ensures
            r == (if !(1 <= P <= 0x8000_0000) {
                Err::<Self, ModularError>(ModularError::ModulusOutOfRange)
            } else if value >= P {
                Err(ModularError::ValueOutOfRange)
            } else {
                Ok(U32Field(value))
            }),
            r is Ok <==> <Self as Op<ADD>>::is_element(value as int),
    {
        if P < 1 || P > 0x8000_0000 {
            Err(ModularError::ModulusOutOfRange)
        } else if value >= P {
            Err(ModularError::ValueOutOfRange)
        } else {
            Ok(U32Field(value))
        }
    }

    /// The residue `value`, for use under multiplication: the modulus must be a
    /// prime of at most the square root of the range of the width, and `value`
    /// below it and not zero.
    pub fn try_new_multiplicative(value: u32) -> (r: Result<Self, ModularError>)
        ensures
            match r {
                Ok(x) => x == U32Field::<P>(value) && <Self as Op<MUL>>::is_element(value as int),
                Err(e) => !<Self as Op<MUL>>::is_element(value as int) && e == Self::refusal(
                    value as int,
                    P as int,
                ),
            },
    {
        if P < 2 || P > 0x1_0000 {
            Err(ModularError::ModulusOutOfRange)
        } else if !is_prime_u128(P as u128) {
            Err(ModularError::ModulusNotPrime)
        } else if value == 0 || value >= P {
            Err(ModularError::ValueOutOfRange)
        } else {
            Ok(U32Field(value))
        }
    }

    /// Under multiplication, the inverse of an element is an element.
    pub proof fn lemma_inverse_closed()
        ensures
            inverse_closed::<MUL, Self>(),
    {
        assert forall|a: int| <Self as Op<MUL>>::is_element(a) implies <Self as Op<
            MUL,
        >>::is_element(#[trigger] <Self as Inverse<MUL>>::inverse_spec(a)) by {
            lemma_nonzero_is_unit(a, P as int, 0x1_0000);
            lemma_unit_inverse(a, P as int, 0x1_0000);
            lemma_nonzero_is_unit(inverse_mod(a, P as int), P as int, 0x1_0000);
        }
    }
}

impl<const P: u32> Op<ADD> for U32Field<P> {
    open spec fn is_element(v: int) -> bool {
        residue_within(v, P as int, 1, 0x8000_0000)
    }

    open spec fn op_spec(a: int, b: int) -> int {
        (a + b) % (P as int)
    }

    proof fn lemma_op_closed(a: int, b: int) {
    }

    /// The sum, reduced.
    fn op(&self, other: Self) -> (r: Self) {
        U32Field((self.0 + other.0) % P)
    }
}

impl<const P: u32> Associative<ADD> for U32Field<P> {
    proof fn lemma_associative(a: int, b: int, c: int) {
        lemma_add_mod_associative(a, b, c, P as int);
    }
}

impl<const P: u32> Identity<ADD> for U32Field<P> {
    open spec fn identity_spec() -> int {
        0
    }

    proof fn lemma_identity(a: int) {
        lemma_small_mod(a as nat, P as nat);
    }

    /// Zero.
    fn identity() -> (r: Self) {
        U32Field(0)
    }
}

impl<const P: u32> Inverse<ADD> for U32Field<P> {
    /// The difference `P - a`, not reduced: for zero it is `P`, which is no
    /// residue.
    open spec fn inverse_spec(a: int) -> int {
        P - a
    }

    proof fn lemma_inverse(a: int) {
        lemma_mod_self_0(P as int);
    }

    /// `P - self`. For every residue but zero this is the residue that adds up
    /// to zero with it. For zero it is `P` itself, which lies outside the
    /// residues.
    fn inverse(&self) -> (r: Self) {
        U32Field(P - self.0)
    }
}

impl<const P: u32> Op<MUL> for U32Field<P> {
    open spec fn is_element(v: int) -> bool {
        nonzero_within(v, P as int, 0x1_0000)
    }

    open spec fn op_spec(a: int, b: int) -> int {
        (a * b) % (P as int)
    }

    proof fn lemma_op_closed(a: int, b: int) {
        lemma_nonzero_is_unit(a, P as int, 0x1_0000);
        lemma_nonzero_is_unit(b, P as int, 0x1_0000);
        lemma_unit_product(a, b, P as int, 0x1_0000);
        lemma_nonzero_is_unit((a * b) % (P as int), P as int, 0x1_0000);
    }

    /// The product, reduced.
    fn op(&self, other: Self) -> (r: Self) {
        proof {
            lemma_product_bound(self.0 as int, other.0 as int, 0x1_0000);
        }
        U32Field((self.0 * other.0) % P)
    }
}

impl<const P: u32> Associative<MUL> for U32Field<P> {
    proof fn lemma_associative(a: int, b: int, c: int) {
        lemma_mul_mod_associative(a, b, c, P as int);
    }
}

impl<const P: u32> Identity<MUL> for U32Field<P> {
    open spec fn identity_spec() -> int {
        1
    }

    proof fn lemma_identity(a: int) {
        assert(a * 1 == a && 1 * a == a);
        lemma_small_mod(a as nat, P as nat);
    }

    /// One.
    fn identity() -> (r: Self) {
        U32Field(1)
    }
}

impl<const P: u32> Inverse<MUL> for U32Field<P> {
    /// The residue whose product with `a` leaves the remainder 1.
    open spec fn inverse_spec(a: int) -> int {
        inverse_mod(a, P as int)
    }

    proof fn lemma_inverse(a: int) {
        lemma_nonzero_is_unit(a, P as int, 0x1_0000);
        lemma_unit_inverse(a, P as int, 0x1_0000);
    }

    /// The inverse, by the extended algorithm of Euclid.
    fn inverse(&self) -> (r: Self) {
        proof {
            lemma_nonzero_is_unit(self.0 as int, P as int, 0x1_0000);
        }
        U32Field(inverse_mod_u128(self.0 as u128, P as u128) as u32)
    }
}

impl<const P: u32> Add<U32Field<P>> for U32Field<P> {
    type Output = U32Field<P>;

    fn add(self, other: U32Field<P>) -> (r: U32Field<P>) {
        <Self as Op<ADD>>::op(&self, other)
    }
}

impl<const P: u32> AddSpecImpl<U32Field<P>> for U32Field<P> {
    open spec fn obeys_add_spec() -> bool {
        true
    }

    open spec fn add_req(self, other: U32Field<P>) -> bool {
        <Self as Op<ADD>>::is_element(self@) && <Self as Op<ADD>>::is_element(other@)
    }

    open spec fn add_spec(self, other: U32Field<P>) -> U32Field<P> {
        U32Field(<Self as Op<ADD>>::op_spec(self@, other@) as u32)
    }
}

impl<const P: u32> Mul<U32Field<P>> for U32Field<P> {
    type Output = U32Field<P>;

    /// The product, reduced; zero may take part.
    fn mul(self, other: U32Field<P>) -> (r: U32Field<P>) {
        proof {
            lemma_product_bound(self.0 as int, other.0 as int, 0x1_0000);
        }
        U32Field((self.0 * other.0) % P)
    }
}

impl<const P: u32> MulSpecImpl<U32Field<P>> for U32Field<P> {
    open spec fn obeys_mul_spec() -> bool {
        true
    }

    open spec fn mul_req(self, other: U32Field<P>) -> bool {
        residue_within(self@, P as int, 1, 0x1_0000) && other@ < P
    }

    open spec fn mul_spec(self, other: U32Field<P>) -> U32Field<P> {
        U32Field(((self@ * other@) % (P as int)) as u32)
    }
}

/// Under the tag `ADD`, the type `T` adds modulo `m` and has zero as its
/// identity.
pub open spec fn adds_modulo<T: Identity<ADD> + View<V = int>>(m: int) -> bool {
    &&& m >= 1
    &&& T::identity_spec() == 0
    &&& forall|a: int, b: int| #[trigger] T::op_spec(a, b) == (a + b) % m
}

/// Where a type adds modulo `m`, adding a residue up `n` times gives `n` times
/// the residue, reduced.
pub proof fn lemma_residue_power<T: Identity<ADD> + View<V = int>>(k: int, n: nat, m: int)
    requires
        adds_modulo::<T>(m),
        0 <= k < m,
        n >= 1,
    ensures
        power::<ADD, T>(k, n) == (n * k) % m,
    decreases n,
{
    if n > 1 {
        lemma_residue_power::<T>(k, (n - 1) as nat, m);
        let prev = (n - 1) * k;
        assert(n * k == prev + k) by (nonlinear_arith)
            requires
                prev == (n - 1) * k,
        ;
        lemma_add_reduced(prev, k, m);
    } else {
        assert(1 * k == k);
        lemma_small_mod(k as nat, m as nat);
    }
}

/// Where a type adds modulo `m`, every residue `k` has finite order, and its
/// order is `m / gcd(k, m)`; for zero that is 1.
pub proof fn lemma_residue_order<T: Identity<ADD> + View<V = int>>(k: int, m: int)
    requires
        adds_modulo::<T>(m),
        0 <= k < m,
    ensures
        has_finite_order::<ADD, T>(k),
        element_order::<ADD, T>(k) == (m as nat) / gcd(k as nat, m as nat),
{
    let kn = k as nat;
    let mn = m as nat;
    let n0 = mn / gcd(kn, mn);
    lemma_additive_order(kn, mn);
    lemma_residue_power::<T>(k, n0, m);
    assert(is_period::<ADD, T>(k, n0));
    assert forall|j: nat| is_period::<ADD, T>(k, j) implies n0 <= j by {
        lemma_residue_power::<T>(k, j, m);
        assert(((j * kn) as int) % (mn as int) == 0);
    }
    assert(is_order::<ADD, T>(k, n0));
    lemma_order_exists::<ADD, T>(k);
}

impl<const M: u32> U32Mod<M> {
    /// Under addition, the order of the residue `k` is `M / gcd(k, M)`.
    pub proof fn lemma_order(k: int)
        requires
            0 <= k < M,
        ensures
            has_finite_order::<ADD, Self>(k),
            element_order::<ADD, Self>(k) == (M as nat) / gcd(k as nat, M as nat),
    {
        lemma_residue_order::<Self>(k, M as int);
    }
}

impl<const M: u64> U64Mod<M> {
    /// Under addition, the order of the residue `k` is `M / gcd(k, M)`.
    pub proof fn lemma_order(k: int)
        requires
            0 <= k < M,
        ensures
            has_finite_order::<ADD, Self>(k),
            element_order::<ADD, Self>(k) == (M as nat) / gcd(k as nat, M as nat),
    {
        lemma_residue_order::<Self>(k, M as int);
    }
}

impl<const M: u128> U128Mod<M> {
    /// Under addition, the order of the residue `k` is `M / gcd(k, M)`.
    pub proof fn lemma_order(k: int)
        requires
            0 <= k < M,
        ensures
            has_finite_order::<ADD, Self>(k),
            element_order::<ADD, Self>(k) == (M as nat) / gcd(k as nat, M as nat),
    {
        lemma_residue_order::<Self>(k, M as int);
    }
}

impl<const P: u32> U32Field<P> {
    /// Under addition, the order of the residue `k` is `P / gcd(k, P)`.
    pub proof fn lemma_order(k: int)
        requires
            0 <= k < P,
        ensures
            has_finite_order::<ADD, Self>(k),
            element_order::<ADD, Self>(k) == (P as nat) / gcd(k as nat, P as nat),
    {
        lemma_residue_order::<Self>(k, P as int);
    }
}

} // verus!
