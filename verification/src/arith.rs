//! Arithmetic on signed integers as elements of a prime field.
//!
//! Constants of the constraint language are integers; a backend computes
//! with field elements. [`make_constant`] embeds the one in the other, and
//! [`PrimeFieldOps`] evaluates an operator on integers by way of the field,
//! handing back the canonical representative.

use crate::ast::InfixOp;
use crate::field::{
    fadd, fdiv, finv, fmul, fpow, fsub, is_quotient, lemma_congruent_neg, lemma_congruent_reduce,
    lemma_finv, lemma_quotient_by_inverse, lemma_reduce, reduce, FieldElement,
};
use crate::integer::{trunc_div, trunc_rem, Integer};
use std::marker::PhantomData;
use vstd::prelude::*;

verus! {

/// Why an operator could not be evaluated.
#[derive(Clone, Copy, PartialEq, Eq, Structural, Debug)]
pub enum ArithmeticError {
    /// The divisor, or the base of a negative power, is zero.
    DivisionByZero,
    /// Equality is a constraint, not an operation.
    NotEvaluable,
}

/// The quotient in the field, and zero where the divisor is zero.
pub open spec fn fdiv_or_zero(a: nat, b: nat, p: nat) -> nat {
    if b == 0 {
        0
    } else {
        fdiv(a, b, p)
    }
}

/// `a` raised to the integer power `e`: for a negative `e`, the inverse of
/// `a` raised to `-e`, which a zero base does not have.
pub open spec fn fpow_signed(a: nat, e: int, p: nat) -> Option<nat> {
    if e >= 0 {
        Some(fpow(a, e as nat, p))
    } else if fpow(a, (-e) as nat, p) == 0 {
        None
    } else {
        Some(finv(fpow(a, (-e) as nat, p), p))
    }
}

/// What an operator yields on two integers, operands and result taken
/// modulo `p` but for integer division and remainder.
pub open spec fn infix_value(op: InfixOp, a: int, b: int, p: nat) -> Result<int, ArithmeticError> {
    let x = reduce(a, p);
    let y = reduce(b, p);
    match op {
        InfixOp::Add => Ok(fadd(x, y, p) as int),
        InfixOp::Subtract => Ok(fsub(x, y, p) as int),
        InfixOp::Multiply => Ok(fmul(x, y, p) as int),
        InfixOp::Divide => if y == 0 {
            Err(ArithmeticError::DivisionByZero)
        } else {
            Ok(fdiv(x, y, p) as int)
        },
        InfixOp::DivideZ => Ok(fdiv_or_zero(x, y, p) as int),
        InfixOp::IntDivide => if b == 0 {
            Err(ArithmeticError::DivisionByZero)
        } else {
            Ok(trunc_div(a, b))
        },
        InfixOp::Modulo => if b == 0 {
            Err(ArithmeticError::DivisionByZero)
        } else {
            Ok(trunc_rem(a, b))
        },
        InfixOp::Exponentiate => match fpow_signed(x, b, p) {
            Some(v) => Ok(v as int),
            None => Err(ArithmeticError::DivisionByZero),
        },
        InfixOp::Equal => Err(ArithmeticError::NotEvaluable),
    }
}

/// The field element that the integer `c` stands for: its magnitude reduced,
/// and negated where `c` is not positive.
pub fn make_constant<F: FieldElement>(c: &Integer) -> (r: F)
    ensures
        r.value() == reduce(c@, F::modulus()),
{
    let magnitude = F::from_le_bytes(c.magnitude());
    if c.is_positive() {
        magnitude
    } else {
        let r = magnitude.neg();
        proof {
            let p = F::modulus();
            F::lemma_modulus();
            lemma_reduce(-c@, p);
            lemma_congruent_neg(magnitude.value() as int, -c@, p);
            lemma_congruent_reduce(-(magnitude.value() as int), c@, p);
        }
        r
    }
}

/// The quotient `a / b`; `None` exactly when `b` is zero.
pub fn divide<F: FieldElement>(a: &F, b: &F) -> (r: Option<F>)
    ensures
        r is None <==> b.value() == 0,
        r is Some ==> r->0.value() == fdiv(a.value(), b.value(), F::modulus()) && is_quotient(
            r->0.value(),
            a.value(),
            b.value(),
            F::modulus(),
        ),
{
    match b.invert() {
        None => None,
        Some(inverse) => {
            proof {
                F::lemma_modulus();
                lemma_quotient_by_inverse(a.value(), b.value(), inverse.value(), F::modulus());
            }
            Some(a.mul(&inverse))
        },
    }
}

/// The quotient `a / b`, and zero when `b` is zero.
pub fn divide_or_zero<F: FieldElement>(a: &F, b: &F) -> (r: F)
    ensures
        r.value() == fdiv_or_zero(a.value(), b.value(), F::modulus()),
{
    match divide(a, b) {
        None => F::zero(),
        Some(q) => q,
    }
}

/// `base` raised to the integer power `exponent`; `None` exactly when the
/// exponent is negative and the power to invert is zero.
pub fn power<F: FieldElement>(base: &F, exponent: &Integer) -> (r: Option<F>)
    ensures
        r is None <==> fpow_signed(base.value(), exponent@, F::modulus()) is None,
        r is Some ==> fpow_signed(base.value(), exponent@, F::modulus()) == Some(r->0.value()),
{
    let raised = base.pow(exponent.magnitude());
    if exponent.is_negative() {
        let r = raised.invert();
        proof {
            F::lemma_modulus();
            if r is Some {
                lemma_finv(raised.value(), r->0.value(), F::modulus());
            }
        }
        r
    } else {
        Some(raised)
    }
}

/// The canonical representative of a field element, as an integer.
pub fn to_integer<F: FieldElement>(x: &F) -> (r: Integer)
    ensures
        r@ == x.value(),
{
    Integer::from_magnitude(x.to_le_bytes())
}

/// Integer arithmetic by way of the prime field `F`.
pub struct PrimeFieldOps<F> {
    phantom: PhantomData<F>,
}

impl<F> Default for PrimeFieldOps<F> {
    fn default() -> (r: Self) {
        PrimeFieldOps { phantom: PhantomData }
    }
}

impl<F: FieldElement> PrimeFieldOps<F> {
    /// The representative of `a` modulo the field order.
    pub fn canonical(&self, a: Integer) -> (r: Integer)
        ensures
            r@ == reduce(a@, F::modulus()),
    {
        let b: F = make_constant(&a);
        to_integer(&b)
    }

    /// The representative of `-a` modulo the field order.
    pub fn negate(&self, a: Integer) -> (r: Integer)
        ensures
            r@ == reduce(-a@, F::modulus()),
    {
        let b: F = make_constant(&a);
        let r = to_integer(&b.neg());
        proof {
            let p = F::modulus();
            F::lemma_modulus();
            lemma_reduce(a@, p);
            lemma_congruent_neg(b.value() as int, a@, p);
            lemma_congruent_reduce(-(b.value() as int), -a@, p);
        }
        r
    }

    /// The result of `op` on `a` and `b`.
    ///
    /// The field operators work on the operands reduced and give back a
    /// representative; integer division and remainder work on the integers
    /// as they are. Division by zero and the equality sign are errors.
    pub fn infix(&self, op: InfixOp, a: Integer, b: Integer) -> (r: Result<
        Integer,
        ArithmeticError,
    >)
        ensures
            match r {
                Ok(v) => infix_value(op, a@, b@, F::modulus()) == Ok::<int, ArithmeticError>(v@),
                Err(e) => infix_value(op, a@, b@, F::modulus()) == Err::<int, ArithmeticError>(e),
            },
    {
        let c: F = make_constant(&a);
        let d: F = make_constant(&b);
        match op {
            InfixOp::Add => Ok(to_integer(&c.add(&d))),
            InfixOp::Subtract => Ok(to_integer(&c.sub(&d))),
            InfixOp::Multiply => Ok(to_integer(&c.mul(&d))),
            InfixOp::Divide => match divide(&c, &d) {
                Some(q) => Ok(to_integer(&q)),
                None => Err(ArithmeticError::DivisionByZero),
            },
            InfixOp::DivideZ => Ok(to_integer(&divide_or_zero(&c, &d))),
            InfixOp::IntDivide => match a.checked_div(&b) {
                Some(q) => Ok(q),
                None => Err(ArithmeticError::DivisionByZero),
            },
            InfixOp::Modulo => match a.checked_rem(&b) {
                Some(q) => Ok(q),
                None => Err(ArithmeticError::DivisionByZero),
            },
            InfixOp::Exponentiate => match power(&c, &b) {
                Some(q) => Ok(to_integer(&q)),
                None => Err(ArithmeticError::DivisionByZero),
            },
            InfixOp::Equal => Err(ArithmeticError::NotEvaluable),
        }
    }
}

} // verus!
