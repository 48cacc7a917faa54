//! The unsigned machine integers as elements: under addition each width forms
//! the group of residues modulo its range, under multiplication a monoid, both
//! with arithmetic that wraps.

use vstd::prelude::*;

use crate::number_theory::gcd;
use crate::number_theory::lemma_additive_order;
use crate::ops::element_order;
use crate::ops::has_finite_order;
use crate::ops::inverse_closed;
use crate::ops::is_order;
use crate::ops::is_period;
use crate::ops::lemma_order_exists;
use crate::ops::power;
use crate::ops::Associative;
use crate::ops::Element;
use crate::ops::Identity;
use crate::ops::Inverse;
use crate::ops::Op;
use crate::ops::ADD;
use crate::ops::MUL;

verus! {

impl Element for u8 {
    proof fn lemma_eq_by_value() {
        reveal(vstd::laws_eq::obeys_view_eq);
    }

    proof fn lemma_clone_by_value(a: Self, b: Self) {
    }
}

impl Op<ADD> for u8 {
    open spec fn is_element(v: u8) -> bool {
        true
    }

    open spec fn op_spec(a: u8, b: u8) -> u8 {
        ((a + b) % 256) as u8
    }

    proof fn lemma_op_closed(a: u8, b: u8) {
    }

    /// The sum modulo 256.
    fn op(&self, other: Self) -> (r: Self) {
        self.wrapping_add(other)
    }
}

impl Associative<ADD> for u8 {
    proof fn lemma_associative(a: u8, b: u8, c: u8) {
    }
}

impl Identity<ADD> for u8 {
    open spec fn identity_spec() -> u8 {
        0
    }

    proof fn lemma_identity(a: u8) {
    }

    /// Zero.
    fn identity() -> (r: Self) {
        0
    }
}

impl Inverse<ADD> for u8 {
    open spec fn inverse_spec(a: u8) -> u8 {
        ((256 - a) % 256) as u8
    }

    proof fn lemma_inverse(a: u8) {
    }

    /// The byte that adds up to zero with `self`, modulo 256.
    fn inverse(&self) -> (r: Self) {
        0u8.wrapping_sub(*self)
    }
}

impl Op<MUL> for u8 {
    open spec fn is_element(v: u8) -> bool {
        true
    }

    open spec fn op_spec(a: u8, b: u8) -> u8 {
        ((a * b) % 256) as u8
    }

    proof fn lemma_op_closed(a: u8, b: u8) {
    }

    /// The product modulo 256.
    fn op(&self, other: Self) -> (r: Self) {
        self.wrapping_mul(other)
    }
}

impl Associative<MUL> for u8 {
    proof fn lemma_associative(a: u8, b: u8, c: u8) {
        crate::number_theory::lemma_mul_mod_associative(a as int, b as int, c as int, 256);
    }
}

impl Identity<MUL> for u8 {
    open spec fn identity_spec() -> u8 {
        1
    }

    proof fn lemma_identity(a: u8) {
        assert(a * 1 == a && 1 * a == a);
    }

    /// One.
    fn identity() -> (r: Self) {
        1
    }
}

/// Under addition, the inverse of a byte is a byte.
pub proof fn lemma_byte_inverse_closed()
    ensures
        inverse_closed::<ADD, u8>(),
{
}

/// Adding a byte up `n` times gives `n` times the byte, modulo 256.
pub proof fn lemma_byte_power(k: u8, n: nat)
    requires
        n >= 1,
    ensures
        power::<ADD, u8>(k, n) == ((n * k) % 256) as u8,
    decreases n,
{
    if n > 1 {
        lemma_byte_power(k, (n - 1) as nat);
        let prev = ((n - 1) * k) as int;
        assert(n * k == prev + k) by (nonlinear_arith)
            requires
                prev == (n - 1) * k,
        ;
        crate::number_theory::lemma_add_reduced(prev, k as int, 256);
    } else {
        assert(1 * k == k);
    }
}

/// Under addition, every byte `k` has finite order, and its order is
/// `256 / gcd(k, 256)`; for zero that is 1.
pub proof fn lemma_byte_order(k: u8)
    ensures
        has_finite_order::<ADD, u8>(k),
        element_order::<ADD, u8>(k) == 256nat / gcd(k as nat, 256),
{
    let n0 = 256nat / gcd(k as nat, 256);
    lemma_additive_order(k as nat, 256);
    lemma_byte_power(k, n0);
    assert(is_period::<ADD, u8>(k, n0));
    assert forall|j: nat| is_period::<ADD, u8>(k, j) implies n0 <= j by {
        lemma_byte_power(k, j);
        let kn = k as nat;
        let m = 256nat;
        assert(((j * kn) as int) % (m as int) == 0);
    }
    assert(is_order::<ADD, u8>(k, n0));
    lemma_order_exists::<ADD, u8>(k);
}

impl Element for u16 {
    proof fn lemma_eq_by_value() {
        reveal(vstd::laws_eq::obeys_view_eq);
    }

    proof fn lemma_clone_by_value(a: Self, b: Self) {
    }
}

impl Op<ADD> for u16 {
    open spec fn is_element(v: u16) -> bool {
        true
    }

    open spec fn op_spec(a: u16, b: u16) -> u16 {
        ((a + b) % 0x1_0000) as u16
    }

    proof fn lemma_op_closed(a: u16, b: u16) {
    }

    /// The sum modulo the range of the width.
    fn op(&self, other: Self) -> (r: Self) {
        self.wrapping_add(other)
    }
}

impl Associative<ADD> for u16 {
    proof fn lemma_associative(a: u16, b: u16, c: u16) {
    }
}

impl Identity<ADD> for u16 {
    open spec fn identity_spec() -> u16 {
        0
    }

    proof fn lemma_identity(a: u16) {
    }

    /// Zero.
    fn identity() -> (r: Self) {
        0
    }
}

impl Inverse<ADD> for u16 {
    open spec fn inverse_spec(a: u16) -> u16 {
        ((0x1_0000 - a) % 0x1_0000) as u16
    }

    proof fn lemma_inverse(a: u16) {
    }

    /// The number that adds up to zero with `self`, modulo the range of the
    /// width.
    fn inverse(&self) -> (r: Self) {
        0u16.wrapping_sub(*self)
    }
}

impl Op<MUL> for u16 {
    open spec fn is_element(v: u16) -> bool {
        true
    }

    open spec fn op_spec(a: u16, b: u16) -> u16 {
        ((a * b) % 0x1_0000) as u16
    }

    proof fn lemma_op_closed(a: u16, b: u16) {
    }

    /// The product modulo the range of the width.
    fn op(&self, other: Self) -> (r: Self) {
        self.wrapping_mul(other)
    }
}

impl Associative<MUL> for u16 {
    proof fn lemma_associative(a: u16, b: u16, c: u16) {
        crate::number_theory::lemma_mul_mod_associative(a as int, b as int, c as int, 0x1_0000);
    }
}

impl Identity<MUL> for u16 {
    open spec fn identity_spec() -> u16 {
        1
    }

    proof fn lemma_identity(a: u16) {
        assert(a * 1 == a && 1 * a == a);
    }

    /// One.
    fn identity() -> (r: Self) {
        1
    }
}

/// Under addition, the inverse of a number of 16 bits is one again.
pub proof fn lemma_u16_inverse_closed()
    ensures
        inverse_closed::<ADD, u16>(),
{
}

/// Adding a number of 16 bits up `n` times gives `n` times the number,
/// modulo the range of the width.
pub proof fn lemma_u16_power(k: u16, n: nat)
    requires
        n >= 1,
    ensures
        power::<ADD, u16>(k, n) == ((n * k) % 0x1_0000) as u16,
    decreases n,
{
    if n > 1 {
        lemma_u16_power(k, (n - 1) as nat);
        let prev = ((n - 1) * k) as int;
        assert(n * k == prev + k) by (nonlinear_arith)
            requires
                prev == (n - 1) * k,
        ;
        crate::number_theory::lemma_add_reduced(prev, k as int, 0x1_0000);
    } else {
        assert(1 * k == k);
    }
}

/// Under addition, every number `k` of 16 bits has finite order, and its
/// order is `0x1_0000 / gcd(k, 0x1_0000)`; for zero that is 1.
pub proof fn lemma_u16_order(k: u16)
    ensures
        has_finite_order::<ADD, u16>(k),
        element_order::<ADD, u16>(k) == 0x1_0000nat / gcd(k as nat, 0x1_0000),
{
    let n0 = 0x1_0000nat / gcd(k as nat, 0x1_0000);
    lemma_additive_order(k as nat, 0x1_0000);
    lemma_u16_power(k, n0);
    assert(is_period::<ADD, u16>(k, n0));
    assert forall|j: nat| is_period::<ADD, u16>(k, j) implies n0 <= j by {
        lemma_u16_power(k, j);
        let kn = k as nat;
        let m = 0x1_0000nat;
        assert(((j * kn) as int) % (m as int) == 0);
    }
    assert(is_order::<ADD, u16>(k, n0));
    lemma_order_exists::<ADD, u16>(k);
}

impl Element for u32 {
    proof fn lemma_eq_by_value() {
        reveal(vstd::laws_eq::obeys_view_eq);
    }

    proof fn lemma_clone_by_value(a: Self, b: Self) {
    }
}

impl Op<ADD> for u32 {
    open spec fn is_element(v: u32) -> bool {
        true
    }

    open spec fn op_spec(a: u32, b: u32) -> u32 {
        ((a + b) % 0x1_0000_0000) as u32
    }

    proof fn lemma_op_closed(a: u32, b: u32) {
    }

    /// The sum modulo the range of the width.
    fn op(&self, other: Self) -> (r: Self) {
        self.wrapping_add(other)
    }
}

impl Associative<ADD> for u32 {
    proof fn lemma_associative(a: u32, b: u32, c: u32) {
    }
}

impl Identity<ADD> for u32 {
    open spec fn identity_spec() -> u32 {
        0
    }

    proof fn lemma_identity(a: u32) {
    }

    /// Zero.
    fn identity() -> (r: Self) {
        0
    }
}

impl Inverse<ADD> for u32 {
    open spec fn inverse_spec(a: u32) -> u32 {
        ((0x1_0000_0000 - a) % 0x1_0000_0000) as u32
    }

    proof fn lemma_inverse(a: u32) {
    }

    /// The number that adds up to zero with `self`, modulo the range of the
    /// width.
    fn inverse(&self) -> (r: Self) {
        0u32.wrapping_sub(*self)
    }
}

impl Op<MUL> for u32 {
    open spec fn is_element(v: u32) -> bool {
        true
    }

    open spec fn op_spec(a: u32, b: u32) -> u32 {
        ((a * b) % 0x1_0000_0000) as u32
    }

    proof fn lemma_op_closed(a: u32, b: u32) {
    }

    /// The product modulo the range of the width.
    fn op(&self, other: Self) -> (r: Self) {
        self.wrapping_mul(other)
    }
}

impl Associative<MUL> for u32 {
    proof fn lemma_associative(a: u32, b: u32, c: u32) {
        crate::number_theory::lemma_mul_mod_associative(a as int, b as int, c as int, 0x1_0000_0000);
    }
}

impl Identity<MUL> for u32 {
    open spec fn identity_spec() -> u32 {
        1
    }

    proof fn lemma_identity(a: u32) {
        assert(a * 1 == a && 1 * a == a);
    }

    /// One.
    fn identity() -> (r: Self) {
        1
    }
}

/// Under addition, the inverse of a number of 32 bits is one again.
pub proof fn lemma_u32_inverse_closed()
    ensures
        inverse_closed::<ADD, u32>(),
{
}

/// Adding a number of 32 bits up `n` times gives `n` times the number,
/// modulo the range of the width.
pub proof fn lemma_u32_power(k: u32, n: nat)
    requires
        n >= 1,
    ensures
        power::<ADD, u32>(k, n) == ((n * k) % 0x1_0000_0000) as u32,
    decreases n,
{
    if n > 1 {
        lemma_u32_power(k, (n - 1) as nat);
        let prev = ((n - 1) * k) as int;
        assert(n * k == prev + k) by (nonlinear_arith)
            requires
                prev == (n - 1) * k,
        ;
        crate::number_theory::lemma_add_reduced(prev, k as int, 0x1_0000_0000);
    } else {
        assert(1 * k == k);
    }
}

/// Under addition, every number `k` of 32 bits has finite order, and its
/// order is `0x1_0000_0000 / gcd(k, 0x1_0000_0000)`; for zero that is 1.
pub proof fn lemma_u32_order(k: u32)
    ensures
        has_finite_order::<ADD, u32>(k),
        element_order::<ADD, u32>(k) == 0x1_0000_0000nat / gcd(k as nat, 0x1_0000_0000),
{
    let n0 = 0x1_0000_0000nat / gcd(k as nat, 0x1_0000_0000);
    lemma_additive_order(k as nat, 0x1_0000_0000);
    lemma_u32_power(k, n0);
    assert(is_period::<ADD, u32>(k, n0));
    assert forall|j: nat| is_period::<ADD, u32>(k, j) implies n0 <= j by {
        lemma_u32_power(k, j);
        let kn = k as nat;
        let m = 0x1_0000_0000nat;
        assert(((j * kn) as int) % (m as int) == 0);
    }
    assert(is_order::<ADD, u32>(k, n0));
    lemma_order_exists::<ADD, u32>(k);
}

impl Element for u64 {
    proof fn lemma_eq_by_value() {
        reveal(vstd::laws_eq::obeys_view_eq);
    }

    proof fn lemma_clone_by_value(a: Self, b: Self) {
    }
}

impl Op<ADD> for u64 {
    open spec fn is_element(v: u64) -> bool {
        true
    }

    open spec fn op_spec(a: u64, b: u64) -> u64 {
        ((a + b) % 0x1_0000_0000_0000_0000) as u64
    }

    proof fn lemma_op_closed(a: u64, b: u64) {
    }

    /// The sum modulo the range of the width.
    fn op(&self, other: Self) -> (r: Self) {
        self.wrapping_add(other)
    }
}

impl Associative<ADD> for u64 {
    proof fn lemma_associative(a: u64, b: u64, c: u64) {
    }
}

impl Identity<ADD> for u64 {
    open spec fn identity_spec() -> u64 {
        0
    }

    proof fn lemma_identity(a: u64) {
    }

    /// Zero.
    fn identity() -> (r: Self) {
        0
    }
}

impl Inverse<ADD> for u64 {
    open spec fn inverse_spec(a: u64) -> u64 {
        ((0x1_0000_0000_0000_0000 - a) % 0x1_0000_0000_0000_0000) as u64
    }

    proof fn lemma_inverse(a: u64) {
    }

    /// The number that adds up to zero with `self`, modulo the range of the
    /// width.
    fn inverse(&self) -> (r: Self) {
        0u64.wrapping_sub(*self)
    }
}

impl Op<MUL> for u64 {
    open spec fn is_element(v: u64) -> bool {
        true
    }

    open spec fn op_spec(a: u64, b: u64) -> u64 {
        ((a * b) % 0x1_0000_0000_0000_0000) as u64
    }

    proof fn lemma_op_closed(a: u64, b: u64) {
    }

    /// The product modulo the range of the width.
    fn op(&self, other: Self) -> (r: Self) {
        self.wrapping_mul(other)
    }
}

impl Associative<MUL> for u64 {
    proof fn lemma_associative(a: u64, b: u64, c: u64) {
        crate::number_theory::lemma_mul_mod_associative(a as int, b as int, c as int, 0x1_0000_0000_0000_0000);
    }
}

impl Identity<MUL> for u64 {
    open spec fn identity_spec() -> u64 {
        1
    }

    proof fn lemma_identity(a: u64) {
        assert(a * 1 == a && 1 * a == a);
    }

    /// One.
    fn identity() -> (r: Self) {
        1
    }
}

/// Under addition, the inverse of a number of 64 bits is one again.
pub proof fn lemma_u64_inverse_closed()
    ensures
        inverse_closed::<ADD, u64>(),
{
}

/// Adding a number of 64 bits up `n` times gives `n` times the number,
/// modulo the range of the width.
pub proof fn lemma_u64_power(k: u64, n: nat)
    requires
        n >= 1,
    ensures
        power::<ADD, u64>(k, n) == ((n * k) % 0x1_0000_0000_0000_0000) as u64,
    decreases n,
{
    if n > 1 {
        lemma_u64_power(k, (n - 1) as nat);
        let prev = ((n - 1) * k) as int;
        assert(n * k == prev + k) by (nonlinear_arith)
            requires
                prev == (n - 1) * k,
        ;
        crate::number_theory::lemma_add_reduced(prev, k as int, 0x1_0000_0000_0000_0000);
    } else {
        assert(1 * k == k);
    }
}

/// Under addition, every number `k` of 64 bits has finite order, and its
/// order is `0x1_0000_0000_0000_0000 / gcd(k, 0x1_0000_0000_0000_0000)`; for zero that is 1.
pub proof fn lemma_u64_order(k: u64)
    ensures
        has_finite_order::<ADD, u64>(k),
        element_order::<ADD, u64>(k) == 0x1_0000_0000_0000_0000nat / gcd(k as nat, 0x1_0000_0000_0000_0000),
{
    let n0 = 0x1_0000_0000_0000_0000nat / gcd(k as nat, 0x1_0000_0000_0000_0000);
    lemma_additive_order(k as nat, 0x1_0000_0000_0000_0000);
    lemma_u64_power(k, n0);
    assert(is_period::<ADD, u64>(k, n0));
    assert forall|j: nat| is_period::<ADD, u64>(k, j) implies n0 <= j by {
        lemma_u64_power(k, j);
        let kn = k as nat;
        let m = 0x1_0000_0000_0000_0000nat;
        assert(((j * kn) as int) % (m as int) == 0);
    }
    assert(is_order::<ADD, u64>(k, n0));
    lemma_order_exists::<ADD, u64>(k);
}

} // verus!
