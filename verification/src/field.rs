//! Prime-field arithmetic as the rest of the crate sees it.
//!
//! A field element is known to the verifier only by its canonical
//! representative, a natural number below the modulus. The spec functions
//! here say what each operation yields on representatives; the trait
//! [`FieldElement`] is the interface that a concrete field offers, and the
//! lemmas are the modular arithmetic used to reason about gates.

use crate::bytes::le_value;
use vstd::arithmetic::div_mod::{
    lemma_add_mod_noop, lemma_fundamental_div_mod, lemma_mod_bound, lemma_mod_multiples_vanish,
    lemma_mul_mod_noop_general, lemma_small_mod,
};
use vstd::arithmetic::power::pow;
use vstd::prelude::*;

verus! {

/// The canonical representative of the integer `x` modulo `p`.
pub open spec fn reduce(x: int, p: nat) -> nat {
    (x % (p as int)) as nat
}

/// Sum of two representatives.
pub open spec fn fadd(a: nat, b: nat, p: nat) -> nat {
    reduce((a + b) as int, p)
}

/// Difference of two representatives.
pub open spec fn fsub(a: nat, b: nat, p: nat) -> nat {
    reduce(a - b, p)
}

/// Additive inverse of a representative.
pub open spec fn fneg(a: nat, p: nat) -> nat {
    reduce(-a, p)
}

/// Product of two representatives.
pub open spec fn fmul(a: nat, b: nat, p: nat) -> nat {
    reduce((a * b) as int, p)
}

/// `a` raised to the natural power `e`.
pub open spec fn fpow(a: nat, e: nat, p: nat) -> nat {
    reduce(pow(a as int, e), p)
}

/// `r` is the multiplicative inverse of `a`.
pub open spec fn is_inverse(a: nat, r: nat, p: nat) -> bool {
    r < p && fmul(a, r, p) == 1
}

/// `q` is the quotient of `a` by the nonzero `b`: the element with `q * b = a`.
pub open spec fn is_quotient(q: nat, a: nat, b: nat, p: nat) -> bool {
    q < p && b % p != 0 && fmul(q, b, p) == a % p
}

/// The quotient of `a` by `b`, where there is one.
pub open spec fn fdiv(a: nat, b: nat, p: nat) -> nat {
    choose|q: nat| is_quotient(q, a, b, p)
}

/// The multiplicative inverse of `a`, where there is one.
pub open spec fn finv(a: nat, p: nat) -> nat {
    choose|r: nat| is_inverse(a, r, p)
}

/// `x` and `y` differ by a multiple of `p`.
pub open spec fn congruent(x: int, y: int, p: nat) -> bool {
    (x - y) % (p as int) == 0
}

/// The representative of `x` is below `p` and congruent to `x`.
pub proof fn lemma_reduce(x: int, p: nat)
    requires
        p > 0,
    ensures
        reduce(x, p) < p,
        congruent(reduce(x, p) as int, x, p),
{
    lemma_mod_bound(x, p as int);
    lemma_fundamental_div_mod(x, p as int);
    let q = x / (p as int);
    assert(reduce(x, p) - x == (p as int) * (-q)) by (nonlinear_arith)
        requires
            x == (p as int) * q + (x % (p as int)),
            reduce(x, p) == x % (p as int),
    ;
    lemma_mod_multiples_vanish(-q, 0, p as int);
    assert((p as int) * (-q) + 0 == (p as int) * (-q));
    lemma_small_mod(0, p);
}

/// Every integer is congruent to itself.
pub proof fn lemma_congruent_refl(x: int, p: nat)
    requires
        p > 0,
    ensures
        congruent(x, x, p),
{
    lemma_small_mod(0, p);
}

/// Congruence does not depend on the order of its sides.
pub proof fn lemma_congruent_sym(x: int, y: int, p: nat)
    requires
        p > 0,
        congruent(x, y, p),
    ensures
        congruent(y, x, p),
{
    let m = p as int;
    lemma_fundamental_div_mod(x - y, m);
    let q = (x - y) / m;
    assert(y - x == m * (-q) + 0) by (nonlinear_arith)
        requires
            x - y == m * q,
    ;
    lemma_mod_multiples_vanish(-q, 0, m);
    lemma_small_mod(0, p);
}

/// Sums of congruent integers are congruent.
pub proof fn lemma_congruent_add(x1: int, y1: int, x2: int, y2: int, p: nat)
    requires
        p > 0,
        congruent(x1, y1, p),
        congruent(x2, y2, p),
    ensures
        congruent(x1 + x2, y1 + y2, p),
{
    lemma_add_mod_noop(x1 - y1, x2 - y2, p as int);
    assert((x1 - y1) + (x2 - y2) == (x1 + x2) - (y1 + y2));
    lemma_small_mod(0, p);
}

/// Integers congruent to the same integer are congruent.
pub proof fn lemma_congruent_trans(x: int, y: int, z: int, p: nat)
    requires
        p > 0,
        congruent(x, y, p),
        congruent(y, z, p),
    ensures
        congruent(x, z, p),
{
    lemma_add_mod_noop(x - y, y - z, p as int);
    assert((x - y) + (y - z) == x - z);
    lemma_small_mod(0, p);
}

/// Multiples of congruent integers are congruent.
pub proof fn lemma_congruent_scale(k: int, x: int, y: int, p: nat)
    requires
        p > 0,
        congruent(x, y, p),
    ensures
        congruent(k * x, k * y, p),
{
    lemma_mul_mod_noop_general(k, x - y, p as int);
    assert(k * (x - y) == k * x - k * y) by (nonlinear_arith);
    assert((k % (p as int)) * 0 == 0);
    lemma_small_mod(0, p);
}

/// Products of congruent integers are congruent.
pub proof fn lemma_congruent_mul(x1: int, y1: int, x2: int, y2: int, p: nat)
    requires
        p > 0,
        congruent(x1, y1, p),
        congruent(x2, y2, p),
    ensures
        congruent(x1 * x2, y1 * y2, p),
{
    lemma_congruent_scale(x1, x2, y2, p);
    lemma_congruent_scale(y2, x1, y1, p);
    assert(y2 * x1 == x1 * y2) by (nonlinear_arith);
    assert(y2 * y1 == y1 * y2) by (nonlinear_arith);
    lemma_congruent_trans(x1 * x2, x1 * y2, y1 * y2, p);
}

/// Negatives of congruent integers are congruent.
pub proof fn lemma_congruent_neg(x: int, y: int, p: nat)
    requires
        p > 0,
        congruent(x, y, p),
    ensures
        congruent(-x, -y, p),
{
    lemma_congruent_scale(-1, x, y, p);
}

/// Two representatives that are congruent are equal.
pub proof fn lemma_congruent_canonical(x: nat, y: nat, p: nat)
    requires
        x < p,
        y < p,
        congruent(x as int, y as int, p),
    ensures
        x == y,
{
    let m = p as int;
    if x >= y {
        lemma_small_mod((x - y) as nat, p);
    } else {
        lemma_congruent_sym(x as int, y as int, p);
        lemma_small_mod((y - x) as nat, p);
    }
}

/// Congruent integers have the same representative, and conversely.
pub proof fn lemma_congruent_reduce(x: int, y: int, p: nat)
    requires
        p > 0,
    ensures
        congruent(x, y, p) <==> reduce(x, p) == reduce(y, p),
{
    lemma_reduce(x, p);
    lemma_reduce(y, p);
    if congruent(x, y, p) {
        lemma_congruent_trans(reduce(x, p) as int, x, y, p);
        lemma_congruent_sym(reduce(y, p) as int, y, p);
        lemma_congruent_trans(reduce(x, p) as int, y, reduce(y, p) as int, p);
        lemma_congruent_canonical(reduce(x, p), reduce(y, p), p);
    }
    if reduce(x, p) == reduce(y, p) {
        lemma_congruent_sym(reduce(x, p) as int, x, p);
        lemma_congruent_trans(x, reduce(x, p) as int, y, p);
    }
}

/// There is at most one inverse.
pub proof fn lemma_inverse_unique(a: nat, r1: nat, r2: nat, p: nat)
    requires
        p > 1,
        is_inverse(a, r1, p),
        is_inverse(a, r2, p),
    ensures
        r1 == r2,
{
    let (a, s1, s2) = (a as int, r1 as int, r2 as int);
    lemma_reduce(a * s1, p);
    lemma_reduce(a * s2, p);
    // s1 = s1 * (a * s2) = s2 * (a * s1) = s2
    lemma_congruent_scale(s1, 1, a * s2, p);
    lemma_congruent_sym(1, a * s1, p);
    lemma_congruent_scale(s2, a * s1, 1, p);
    assert(s1 * (a * s2) == s2 * (a * s1)) by (nonlinear_arith);
    lemma_congruent_trans(s1 * 1, s1 * (a * s2), s2 * 1, p);
    lemma_congruent_canonical(r1, r2, p);
}

/// With an inverse of `b` in hand, the quotient of `a` by `b` is `a` times it.
pub proof fn lemma_quotient_by_inverse(a: nat, b: nat, r: nat, p: nat)
    requires
        p > 1,
        is_inverse(b, r, p),
    ensures
        is_quotient(fmul(a, r, p), a, b, p),
        forall|q: nat| is_quotient(q, a, b, p) ==> q == fmul(a, r, p),
        fdiv(a, b, p) == fmul(a, r, p),
{
    let q0 = fmul(a, r, p);
    let (x, y, s, z0) = (a as int, b as int, r as int, q0 as int);
    lemma_reduce(x * s, p);
    lemma_reduce(y * s, p);
    lemma_reduce(z0 * y, p);
    lemma_reduce(x, p);
    // b is not a multiple of p
    if b % p == 0 {
        lemma_congruent_scale(s, y, 0, p);
        assert(s * y == y * s) by (nonlinear_arith);
        assert(s * 0 == 0);
        lemma_congruent_sym(1, y * s, p);
        lemma_congruent_trans(1, y * s, 0, p);
        lemma_small_mod(1, p);
        assert(false);
    }
    // q0 * b = (a * r) * b = a * (b * r) = a
    lemma_congruent_refl(y, p);
    lemma_congruent_mul(z0, x * s, y, y, p);
    lemma_congruent_sym(1, y * s, p);
    lemma_congruent_scale(x, y * s, 1, p);
    assert((x * s) * y == x * (y * s)) by (nonlinear_arith);
    lemma_congruent_trans(z0 * y, (x * s) * y, x * 1, p);
    lemma_congruent_reduce(z0 * y, x, p);
    assert(is_quotient(q0, a, b, p));
    assert forall|q: nat| is_quotient(q, a, b, p) implies q == q0 by {
        let z = q as int;
        lemma_reduce(z * y, p);
        lemma_congruent_reduce(z * y, x, p);
        // q = q * (b * r) = r * (q * b) = r * a
        lemma_congruent_scale(z, 1, y * s, p);
        lemma_congruent_scale(s, z * y, x, p);
        assert(z * (y * s) == s * (z * y)) by (nonlinear_arith);
        assert(s * x == x * s) by (nonlinear_arith);
        lemma_congruent_trans(z * 1, z * (y * s), x * s, p);
        lemma_congruent_sym(z0, x * s, p);
        lemma_congruent_trans(z, x * s, z0, p);
        lemma_congruent_canonical(q, q0, p);
    }
}

/// With an inverse of `a` in hand, `finv` names it.
pub proof fn lemma_finv(a: nat, r: nat, p: nat)
    requires
        p > 1,
        is_inverse(a, r, p),
    ensures
        finv(a, p) == r,
{
    lemma_inverse_unique(a, r, finv(a, p), p);
}

/// `a` has a multiplicative inverse.
pub open spec fn has_inverse(a: nat, p: nat) -> bool {
    exists|r: nat| is_inverse(a, r, p)
}

/// `p` is the order of a field: every nonzero representative has an inverse.
pub open spec fn is_field(p: nat) -> bool {
    p > 1 && forall|a: nat| 0 < a < p ==> #[trigger] has_inverse(a, p)
}

/// The inverse that a field gives a nonzero representative.
pub proof fn lemma_field_inverse(k: nat, p: nat) -> (r: nat)
    requires
        is_field(p),
        0 < k < p,
    ensures
        is_inverse(k, r, p),
        finv(k, p) == r,
        forall|a: nat| fdiv(a, k, p) == fmul(a, r, p),
        forall|a: nat, q: nat| is_quotient(q, a, k, p) ==> q == fmul(a, r, p),
{
    assert(has_inverse(k, p));
    let r = choose|r: nat| is_inverse(k, r, p);
    lemma_finv(k, r, p);
    assert forall|a: nat| fdiv(a, k, p) == fmul(a, r, p) by {
        lemma_quotient_by_inverse(a, k, r, p);
    }
    assert forall|a: nat, q: nat| is_quotient(q, a, k, p) implies q == fmul(a, r, p) by {
        lemma_quotient_by_inverse(a, k, r, p);
    }
    r
}

/// An element of a prime field, known by its canonical representative.
///
/// Every operation states its result on representatives, so code that is
/// generic over the field can be reasoned about with integer arithmetic
/// modulo [`FieldElement::modulus`].
pub trait FieldElement: Sized + Copy {
    /// The order of the field.
    spec fn modulus() -> nat;

    /// The canonical representative, below the modulus.
    spec fn value(&self) -> nat;

    /// The field has more than one element.
    proof fn lemma_modulus()
        ensures
            Self::modulus() > 1,
    ;

    /// A representative is below the modulus.
    proof fn lemma_value(&self)
        ensures
            self.value() < Self::modulus(),
    ;

    /// The additive identity.
    fn zero() -> (r: Self)
        ensures
            r.value() == 0,
    ;

    /// The multiplicative identity.
    fn one() -> (r: Self)
        ensures
            r.value() == 1,
    ;

    /// Whether the element is zero.
    fn is_zero(&self) -> (z: bool)
        ensures
            z == (self.value() == 0),
    ;

    /// The sum.
    fn add(&self, rhs: &Self) -> (r: Self)
        ensures
            r.value() == fadd(self.value(), rhs.value(), Self::modulus()),
    ;

    /// The difference.
    fn sub(&self, rhs: &Self) -> (r: Self)
        ensures
            r.value() == fsub(self.value(), rhs.value(), Self::modulus()),
    ;

    /// The product.
    fn mul(&self, rhs: &Self) -> (r: Self)
        ensures
            r.value() == fmul(self.value(), rhs.value(), Self::modulus()),
    ;

    /// The additive inverse.
    fn neg(&self) -> (r: Self)
        ensures
            r.value() == fneg(self.value(), Self::modulus()),
    ;

    /// The multiplicative inverse; `None` exactly for zero.
    fn invert(&self) -> (r: Option<Self>)
        ensures
            r is None <==> self.value() == 0,
            r is Some ==> is_inverse(self.value(), r->0.value(), Self::modulus()),
    ;

    /// `self` raised to the power that the little-endian bytes `exponent` stand for.
    fn pow(&self, exponent: &Vec<u8>) -> (r: Self)
        ensures
            r.value() == fpow(self.value(), le_value(exponent@), Self::modulus()),
    ;

    /// The element congruent to the number that the little-endian `bytes` stand for.
    fn from_le_bytes(bytes: &Vec<u8>) -> (r: Self)
        ensures
            r.value() == le_value(bytes@) % Self::modulus(),
    ;

    /// The canonical representative as 32 little-endian bytes.
    fn to_le_bytes(&self) -> (bytes: Vec<u8>)
        ensures
            le_value(bytes@) == self.value(),
            bytes@.len() == 32,
    ;
}

} // verus!
