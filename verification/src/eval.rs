//! Evaluation of expressions to field elements.
//!
//! A variable has the value it was given as an input, or else the value of
//! its definition. [`denote`] says what an expression comes to when
//! definitions may be unfolded a bounded number of times, [`evaluation`] what
//! it comes to at all, and [`evaluate_expr`] computes it, remembering the
//! value of each variable that it had to work out.

use crate::arith::{divide, fpow_signed, make_constant, power, to_integer};
use crate::ast::{Expr, ExprModel, InfixOp, TExpr, VariableId};
use crate::field::{
    fadd, fdiv, fmul, fneg, fpow, fsub, is_field, lemma_field_inverse, lemma_quotient_by_inverse,
    lemma_reduce, reduce, FieldElement,
};
use std::collections::{HashMap, HashSet};
use vstd::arithmetic::div_mod::lemma_mod_bound;
use vstd::arithmetic::power::pow;
use vstd::prelude::*;

verus! {

/// Why an expression has no value.
#[derive(Clone, Copy, PartialEq, Eq, Structural, Debug)]
pub enum EvalError {
    /// The expression is of a shape that cannot be evaluated.
    UnexpectedExpression,
    /// A divisor, or the base of a negative power, is zero.
    DivisionByZero,
    /// The variable is neither an input nor defined.
    UndefinedVariable(VariableId),
    /// The definitions of the variables lead round in a circle.
    CyclicDefinition,
}

/// The outcome of an evaluation, on representatives.
pub type Outcome = Result<nat, EvalError>;

/// Whether the evaluator knows the operator. Safe division is known only
/// where `safe_divide` is set, and equality never.
pub open spec fn evaluable(op: InfixOp, safe_divide: bool) -> bool {
    match op {
        InfixOp::Equal => false,
        InfixOp::DivideZ => safe_divide,
        _ => true,
    }
}

/// What an operator other than a power or a safe quotient yields on two values.
pub open spec fn apply(op: InfixOp, x: nat, y: nat, p: nat) -> Outcome {
    match op {
        InfixOp::Add => Ok(fadd(x, y, p)),
        InfixOp::Subtract => Ok(fsub(x, y, p)),
        InfixOp::Multiply => Ok(fmul(x, y, p)),
        InfixOp::Divide => if y == 0 {
            Err(EvalError::DivisionByZero)
        } else {
            Ok(fdiv(x, y, p))
        },
        InfixOp::IntDivide => if y == 0 {
            Err(EvalError::DivisionByZero)
        } else {
            Ok((x / y) % p)
        },
        InfixOp::Modulo => if y == 0 {
            Err(EvalError::DivisionByZero)
        } else {
            Ok((x % y) % p)
        },
        _ => Err(EvalError::UnexpectedExpression),
    }
}

/// The value of `e` when at most `fuel` definitions may be unfolded one
/// inside the other.
///
/// Operands are evaluated from the left and the first failure is the
/// outcome. A safe quotient looks at its divisor first and, where that is
/// zero, not at its numerator. A power takes its exponent as the integer
/// that is written there. Running out of fuel counts as a circle.
pub open spec fn denote(
    e: ExprModel,
    defs: Map<VariableId, ExprModel>,
    inputs: Map<VariableId, nat>,
    p: nat,
    safe_divide: bool,
    fuel: nat,
) -> Outcome
    decreases fuel, e,
{
    match e {
        ExprModel::Constant(c) => Ok(reduce(c, p)),
        ExprModel::Variable(v) => if inputs.contains_key(v) {
            Ok(inputs[v])
        } else if !defs.contains_key(v) {
            Err(EvalError::UndefinedVariable(v))
        } else if fuel == 0 {
            Err(EvalError::CyclicDefinition)
        } else {
            denote(defs[v], defs, inputs, p, safe_divide, (fuel - 1) as nat)
        },
        ExprModel::Negate(a) => match denote(*a, defs, inputs, p, safe_divide, fuel) {
            Ok(x) => Ok(fneg(x, p)),
            Err(err) => Err(err),
        },
        ExprModel::Infix(op, a, b) => if !evaluable(op, safe_divide) {
            Err(EvalError::UnexpectedExpression)
        } else if op == InfixOp::Exponentiate {
            match *b {
                ExprModel::Constant(c) => match denote(*a, defs, inputs, p, safe_divide, fuel) {
                    Ok(x) => match fpow_signed(x, c, p) {
                        Some(v) => Ok(v),
                        None => Err(EvalError::DivisionByZero),
                    },
                    Err(err) => Err(err),
                },
                _ => Err(EvalError::UnexpectedExpression),
            }
        } else if op == InfixOp::DivideZ {
            match denote(*b, defs, inputs, p, safe_divide, fuel) {
                Ok(y) => if y == 0 {
                    Ok(0)
                } else {
                    match denote(*a, defs, inputs, p, safe_divide, fuel) {
                        Ok(x) => Ok(fdiv(x, y, p)),
                        Err(err) => Err(err),
                    }
                },
                Err(err) => Err(err),
            }
        } else {
            match denote(*a, defs, inputs, p, safe_divide, fuel) {
                Ok(x) => match denote(*b, defs, inputs, p, safe_divide, fuel) {
                    Ok(y) => apply(op, x, y, p),
                    Err(err) => Err(err),
                },
                Err(err) => Err(err),
            }
        },
        _ => Err(EvalError::UnexpectedExpression),
    }
}

/// The outcome is not that of a circle.
pub open spec fn settled(r: Outcome) -> bool {
    r != Err::<nat, EvalError>(EvalError::CyclicDefinition)
}

/// With enough fuel, `e` comes to `r`, which is not a circle.
pub open spec fn settles(
    e: ExprModel,
    defs: Map<VariableId, ExprModel>,
    inputs: Map<VariableId, nat>,
    p: nat,
    safe_divide: bool,
    r: Outcome,
) -> bool {
    settled(r) && exists|fuel: nat| denote(e, defs, inputs, p, safe_divide, fuel) == r
}

/// What `e` comes to: the outcome that some amount of fuel settles, and a
/// circle where none does.
pub open spec fn evaluation(
    e: ExprModel,
    defs: Map<VariableId, ExprModel>,
    inputs: Map<VariableId, nat>,
    p: nat,
    safe_divide: bool,
) -> Outcome {
    if exists|r: Outcome| settles(e, defs, inputs, p, safe_divide, r) {
        choose|r: Outcome| settles(e, defs, inputs, p, safe_divide, r)
    } else {
        Err(EvalError::CyclicDefinition)
    }
}

/// More fuel does not change an outcome that is settled.
pub proof fn lemma_fuel(
    e: ExprModel,
    defs: Map<VariableId, ExprModel>,
    inputs: Map<VariableId, nat>,
    p: nat,
    safe_divide: bool,
    fuel: nat,
    more: nat,
)
    requires
        fuel <= more,
        settled(denote(e, defs, inputs, p, safe_divide, fuel)),
    ensures
        denote(e, defs, inputs, p, safe_divide, more) == denote(
            e,
            defs,
            inputs,
            p,
            safe_divide,
            fuel,
        ),
    decreases fuel, e,
{
    match e {
        ExprModel::Variable(v) => {
            if !inputs.contains_key(v) && defs.contains_key(v) {
                lemma_fuel(defs[v], defs, inputs, p, safe_divide, (fuel - 1) as nat, (more - 1) as nat);
            }
        },
        ExprModel::Negate(a) => {
            lemma_fuel(*a, defs, inputs, p, safe_divide, fuel, more);
        },
        ExprModel::Infix(op, a, b) => {
            if !evaluable(op, safe_divide) {
            } else if op == InfixOp::Exponentiate {
                if *b is Constant {
                    lemma_fuel(*a, defs, inputs, p, safe_divide, fuel, more);
                }
            } else if op == InfixOp::DivideZ {
                lemma_fuel(*b, defs, inputs, p, safe_divide, fuel, more);
                let rb = denote(*b, defs, inputs, p, safe_divide, fuel);
                if rb is Ok && rb->Ok_0 != 0 {
                    lemma_fuel(*a, defs, inputs, p, safe_divide, fuel, more);
                }
            } else {
                lemma_fuel(*a, defs, inputs, p, safe_divide, fuel, more);
                if denote(*a, defs, inputs, p, safe_divide, fuel) is Ok {
                    lemma_fuel(*b, defs, inputs, p, safe_divide, fuel, more);
                }
            }
        },
        _ => {},
    }
}

/// An expression settles on one outcome at most, and that is its evaluation.
pub proof fn lemma_settles(
    e: ExprModel,
    defs: Map<VariableId, ExprModel>,
    inputs: Map<VariableId, nat>,
    p: nat,
    safe_divide: bool,
    r: Outcome,
)
    requires
        settles(e, defs, inputs, p, safe_divide, r),
    ensures
        evaluation(e, defs, inputs, p, safe_divide) == r,
{
    let r2 = evaluation(e, defs, inputs, p, safe_divide);
    assert(settles(e, defs, inputs, p, safe_divide, r2));
    let f1 = choose|fuel: nat| denote(e, defs, inputs, p, safe_divide, fuel) == r;
    let f2 = choose|fuel: nat| denote(e, defs, inputs, p, safe_divide, fuel) == r2;
    if f1 <= f2 {
        lemma_fuel(e, defs, inputs, p, safe_divide, f1, f2);
    } else {
        lemma_fuel(e, defs, inputs, p, safe_divide, f2, f1);
    }
}

/// Where every amount of fuel ends in a circle, so does the evaluation.
pub proof fn lemma_circle(
    e: ExprModel,
    defs: Map<VariableId, ExprModel>,
    inputs: Map<VariableId, nat>,
    p: nat,
    safe_divide: bool,
)
    requires
        forall|fuel: nat| !settled(#[trigger] denote(e, defs, inputs, p, safe_divide, fuel)),
    ensures
        evaluation(e, defs, inputs, p, safe_divide) == Err::<nat, EvalError>(
            EvalError::CyclicDefinition,
        ),
{
    if exists|r: Outcome| settles(e, defs, inputs, p, safe_divide, r) {
        let r = choose|r: Outcome| settles(e, defs, inputs, p, safe_divide, r);
        let f = choose|fuel: nat| denote(e, defs, inputs, p, safe_divide, fuel) == r;
        assert(!settled(denote(e, defs, inputs, p, safe_divide, f)));
    }
}

/// The definitions as the contracts see them.
pub open spec fn defs_model(defs: Map<VariableId, TExpr>) -> Map<VariableId, ExprModel> {
    Map::new(|v: VariableId| defs.contains_key(v), |v: VariableId| defs[v]@)
}

/// The assignments as the contracts see them.
pub open spec fn values<F: FieldElement>(assigns: Map<VariableId, F>) -> Map<VariableId, nat> {
    Map::new(|v: VariableId| assigns.contains_key(v), |v: VariableId| assigns[v].value())
}

/// The outcome of an evaluation as the contracts see it.
pub open spec fn outcome<F: FieldElement>(r: Result<F, EvalError>) -> Outcome {
    match r {
        Ok(x) => Ok(x.value()),
        Err(err) => Err(err),
    }
}

/// Every variable on the way ends in a circle with this much fuel.
pub open spec fn circle_below(
    visiting: Set<VariableId>,
    defs: Map<VariableId, ExprModel>,
    inputs: Map<VariableId, nat>,
    p: nat,
    safe_divide: bool,
    fuel: nat,
) -> bool {
    forall|u: VariableId|
        visiting.contains(u) ==> !settled(
            #[trigger] denote(ExprModel::Variable(u), defs, inputs, p, safe_divide, fuel),
        )
}

/// `e` ends in a circle whenever the variables on the way do.
pub open spec fn circular(
    e: ExprModel,
    visiting: Set<VariableId>,
    defs: Map<VariableId, ExprModel>,
    inputs: Map<VariableId, nat>,
    p: nat,
    safe_divide: bool,
) -> bool {
    forall|fuel: nat| #[trigger]
        circle_below(visiting, defs, inputs, p, safe_divide, fuel) ==> !settled(
            denote(e, defs, inputs, p, safe_divide, fuel),
        )
}

/// What the evaluator has found, stated of an expression and an outcome.
pub open spec fn found(
    e: ExprModel,
    r: Outcome,
    visiting: Set<VariableId>,
    defs: Map<VariableId, ExprModel>,
    inputs: Map<VariableId, nat>,
    p: nat,
    safe_divide: bool,
) -> bool {
    if settled(r) {
        settles(e, defs, inputs, p, safe_divide, r)
    } else {
        circular(e, visiting, defs, inputs, p, safe_divide)
    }
}

/// Every assignment is an input or the value that its variable settles on.
pub open spec fn remembered<F: FieldElement>(
    assigns: Map<VariableId, F>,
    defs: Map<VariableId, ExprModel>,
    inputs: Map<VariableId, nat>,
    safe_divide: bool,
) -> bool {
    &&& forall|v: VariableId| inputs.contains_key(v) ==> assigns.contains_key(v)
    &&& forall|v: VariableId| #[trigger]
        assigns.contains_key(v) ==> settles(
            ExprModel::Variable(v),
            defs,
            inputs,
            F::modulus(),
            safe_divide,
            Ok(assigns[v].value()),
        )
}

/// With any fuel, an expression that settles comes to its outcome or to a circle.
proof fn lemma_agrees(
    e: ExprModel,
    defs: Map<VariableId, ExprModel>,
    inputs: Map<VariableId, nat>,
    p: nat,
    safe_divide: bool,
    r: Outcome,
    fuel: nat,
)
    requires
        settles(e, defs, inputs, p, safe_divide, r),
    ensures
        settled(denote(e, defs, inputs, p, safe_divide, fuel)) ==> denote(
            e,
            defs,
            inputs,
            p,
            safe_divide,
            fuel,
        ) == r,
{
    let f0 = choose|f: nat| denote(e, defs, inputs, p, safe_divide, f) == r;
    if settled(denote(e, defs, inputs, p, safe_divide, fuel)) {
        if fuel <= f0 {
            lemma_fuel(e, defs, inputs, p, safe_divide, fuel, f0);
        } else {
            lemma_fuel(e, defs, inputs, p, safe_divide, f0, fuel);
        }
    }
}

/// Two expressions that settle do so with one amount of fuel.
proof fn lemma_common_fuel(
    a: ExprModel,
    ra: Outcome,
    b: ExprModel,
    rb: Outcome,
    defs: Map<VariableId, ExprModel>,
    inputs: Map<VariableId, nat>,
    p: nat,
    safe_divide: bool,
) -> (fuel: nat)
    requires
        settles(a, defs, inputs, p, safe_divide, ra),
        settles(b, defs, inputs, p, safe_divide, rb),
    ensures
        denote(a, defs, inputs, p, safe_divide, fuel) == ra,
        denote(b, defs, inputs, p, safe_divide, fuel) == rb,
{
    let fa = choose|f: nat| denote(a, defs, inputs, p, safe_divide, f) == ra;
    let fb = choose|f: nat| denote(b, defs, inputs, p, safe_divide, f) == rb;
    let fuel = if fa <= fb {
        fb
    } else {
        fa
    };
    lemma_fuel(a, defs, inputs, p, safe_divide, fa, fuel);
    lemma_fuel(b, defs, inputs, p, safe_divide, fb, fuel);
    fuel
}

/// A circle with some fuel is a circle with less.
proof fn lemma_circle_below(
    visiting: Set<VariableId>,
    defs: Map<VariableId, ExprModel>,
    inputs: Map<VariableId, nat>,
    p: nat,
    safe_divide: bool,
    fuel: nat,
    less: nat,
)
    requires
        less <= fuel,
        circle_below(visiting, defs, inputs, p, safe_divide, fuel),
    ensures
        circle_below(visiting, defs, inputs, p, safe_divide, less),
{
    assert forall|u: VariableId| visiting.contains(u) implies !settled(
        #[trigger] denote(ExprModel::Variable(u), defs, inputs, p, safe_divide, less),
    ) by {
        if settled(denote(ExprModel::Variable(u), defs, inputs, p, safe_divide, less)) {
            lemma_fuel(ExprModel::Variable(u), defs, inputs, p, safe_divide, less, fuel);
            assert(!settled(denote(ExprModel::Variable(u), defs, inputs, p, safe_divide, fuel)));
        }
    }
}

/// A variable whose definition ends in a circle once the variable itself is
/// on the way ends in a circle.
proof fn lemma_circle_closes(
    v: VariableId,
    visiting: Set<VariableId>,
    defs: Map<VariableId, ExprModel>,
    inputs: Map<VariableId, nat>,
    p: nat,
    safe_divide: bool,
    fuel: nat,
)
    requires
        !inputs.contains_key(v),
        defs.contains_key(v),
        circular(defs[v], visiting.insert(v), defs, inputs, p, safe_divide),
        circle_below(visiting, defs, inputs, p, safe_divide, fuel),
    ensures
        !settled(denote(ExprModel::Variable(v), defs, inputs, p, safe_divide, fuel)),
    decreases fuel,
{
    if fuel > 0 {
        let less = (fuel - 1) as nat;
        lemma_circle_below(visiting, defs, inputs, p, safe_divide, fuel, less);
        lemma_circle_closes(v, visiting, defs, inputs, p, safe_divide, less);
        assert(circle_below(visiting.insert(v), defs, inputs, p, safe_divide, less));
    }
}

/// Taking up a definition leaves fewer definitions to take up.
proof fn lemma_visit(dom: Set<VariableId>, visiting: Set<VariableId>, v: VariableId)
    requires
        dom.finite(),
        dom.contains(v),
        !visiting.contains(v),
    ensures
        dom.difference(visiting.insert(v)).len() < dom.difference(visiting).len(),
{
    assert(dom.difference(visiting.insert(v)) =~= dom.difference(visiting).remove(v));
    assert(dom.difference(visiting).contains(v));
}

/// The working evaluator: `inputs` are the assignments that evaluation
/// began with and `visiting` the variables whose definitions are being
/// worked out.
pub(crate) fn evaluate<F: FieldElement>(
    expr: &TExpr,
    defs: &HashMap<VariableId, TExpr>,
    assigns: &mut HashMap<VariableId, F>,
    visiting: &mut HashSet<VariableId>,
    safe_divide: bool,
    Ghost(inputs): Ghost<Map<VariableId, nat>>,
) -> (r: Result<F, EvalError>)
    requires
        remembered(old(assigns)@, defs_model(defs@), inputs, safe_divide),
    ensures
        final(visiting)@ == old(visiting)@,
        remembered(final(assigns)@, defs_model(defs@), inputs, safe_divide),
        forall|v: VariableId|
            old(assigns)@.contains_key(v) ==> final(assigns)@.contains_key(v) && final(assigns)@[v]
                == old(assigns)@[v],
        found(
            expr@,
            outcome(r),
            old(visiting)@,
            defs_model(defs@),
            inputs,
            F::modulus(),
            safe_divide,
        ),
    decreases defs@.dom().difference(old(visiting)@).len(), expr,
{
    let ghost p = F::modulus();
    let ghost dm = defs_model(defs@);
    let ghost seen = visiting@;
    match &expr.v {
        Expr::Constant(c) => {
            let x: F = make_constant(c);
            assert(denote(expr@, dm, inputs, p, safe_divide, 0) == outcome(Ok::<F, EvalError>(x)));
            Ok(x)
        },
        Expr::Variable(var) => {
            let v = var.id;
            match assigns.get(&v) {
                Some(x) => {
                    return Ok(*x);
                },
                None => {},
            }
            match defs.get(&v) {
                None => {
                    assert(denote(expr@, dm, inputs, p, safe_divide, 0) == Err::<nat, EvalError>(
                        EvalError::UndefinedVariable(v),
                    ));
                    Err(EvalError::UndefinedVariable(v))
                },
                Some(definition) => {
                    if visiting.contains(&v) {
                        return Err(EvalError::CyclicDefinition);
                    }
                    proof {
                        lemma_visit(defs@.dom(), seen, v);
                    }
                    visiting.insert(v);
                    let r = evaluate(definition, defs, assigns, visiting, safe_divide, Ghost(inputs));
                    visiting.remove(&v);
                    assert(visiting@ =~= seen);
                    proof {
                        assert(dm[v] == definition@);
                        if settled(outcome(r)) {
                            let f = choose|f: nat|
                                denote(definition@, dm, inputs, p, safe_divide, f) == outcome(r);
                            assert(denote(expr@, dm, inputs, p, safe_divide, f + 1) == outcome(r));
                        } else {
                            assert forall|fuel: nat| #[trigger]
                                circle_below(seen, dm, inputs, p, safe_divide, fuel) implies !settled(
                                denote(expr@, dm, inputs, p, safe_divide, fuel),
                            ) by {
                                lemma_circle_closes(v, seen, dm, inputs, p, safe_divide, fuel);
                            }
                        }
                    }
                    match r {
                        Ok(x) => {
                            assigns.insert(v, x);
                            Ok(x)
                        },
                        Err(err) => Err(err),
                    }
                },
            }
        },
        Expr::Negate(a) => {
            let r = evaluate(a, defs, assigns, visiting, safe_divide, Ghost(inputs));
            match r {
                Ok(x) => {
                    let y = x.neg();
                    proof {
                        let f = choose|f: nat|
                            denote(a@, dm, inputs, p, safe_divide, f) == outcome(r);
                        assert(denote(expr@, dm, inputs, p, safe_divide, f) == Ok::<nat, EvalError>(
                            y.value(),
                        ));
                    }
                    Ok(y)
                },
                Err(err) => {
                    proof {
                        if settled(outcome(r)) {
                            let f = choose|f: nat|
                                denote(a@, dm, inputs, p, safe_divide, f) == outcome(r);
                            assert(denote(expr@, dm, inputs, p, safe_divide, f) == outcome(r));
                        }
                    }
                    Err(err)
                },
            }
        },
        Expr::Infix(op, a, b) => {
            let known = match op {
                InfixOp::Equal => false,
                InfixOp::DivideZ => safe_divide,
                _ => true,
            };
            if !known {
                assert(denote(expr@, dm, inputs, p, safe_divide, 0) == Err::<nat, EvalError>(
                    EvalError::UnexpectedExpression,
                ));
                return Err(EvalError::UnexpectedExpression);
            }
            match op {
                InfixOp::Exponentiate => {
                    let exponent = match &b.v {
                        Expr::Constant(c) => c,
                        _ => {
                            assert(denote(expr@, dm, inputs, p, safe_divide, 0) == Err::<
                                nat,
                                EvalError,
                            >(EvalError::UnexpectedExpression));
                            return Err(EvalError::UnexpectedExpression);
                        },
                    };
                    let ra = evaluate(a, defs, assigns, visiting, safe_divide, Ghost(inputs));
                    let r = match ra {
                        Ok(x) => match power(&x, exponent) {
                            Some(y) => Ok(y),
                            None => Err(EvalError::DivisionByZero),
                        },
                        Err(err) => Err(err),
                    };
                    proof {
                        if settled(outcome(ra)) {
                            let f = choose|f: nat|
                                denote(a@, dm, inputs, p, safe_divide, f) == outcome(ra);
                            assert(denote(expr@, dm, inputs, p, safe_divide, f) == outcome(r));
                        }
                    }
                    r
                },
                InfixOp::DivideZ => {
                    let rb = evaluate(b, defs, assigns, visiting, safe_divide, Ghost(inputs));
                    let y = match rb {
                        Ok(y) => y,
                        Err(err) => {
                            proof {
                                if settled(outcome(rb)) {
                                    let f = choose|f: nat|
                                        denote(b@, dm, inputs, p, safe_divide, f) == outcome(rb);
                                    assert(denote(expr@, dm, inputs, p, safe_divide, f) == outcome(
                                        rb,
                                    ));
                                }
                            }
                            return Err(err);
                        },
                    };
                    if y.is_zero() {
                        let zero = F::zero();
                        proof {
                            let f = choose|f: nat|
                                denote(b@, dm, inputs, p, safe_divide, f) == outcome(rb);
                            assert(denote(expr@, dm, inputs, p, safe_divide, f) == Ok::<
                                nat,
                                EvalError,
                            >(0));
                        }
                        return Ok(zero);
                    }
                    let ghost kept = assigns@;
                    let ra = evaluate(a, defs, assigns, visiting, safe_divide, Ghost(inputs));
                    let r = match ra {
                        Ok(x) => match divide(&x, &y) {
                            Some(q) => Ok(q),
                            None => Err(EvalError::DivisionByZero),
                        },
                        Err(err) => Err(err),
                    };
                    proof {
                        if settled(outcome(ra)) {
                            let f = lemma_common_fuel(
                                b@,
                                outcome(rb),
                                a@,
                                outcome(ra),
                                dm,
                                inputs,
                                p,
                                safe_divide,
                            );
                            assert(denote(expr@, dm, inputs, p, safe_divide, f) == outcome(r));
                        } else {
                            assert forall|fuel: nat| #[trigger]
                                circle_below(seen, dm, inputs, p, safe_divide, fuel) implies !settled(
                                denote(expr@, dm, inputs, p, safe_divide, fuel),
                            ) by {
                                lemma_agrees(b@, dm, inputs, p, safe_divide, outcome(rb), fuel);
                            }
                        }
                    }
                    r
                },
                _ => {
                    let ra = evaluate(a, defs, assigns, visiting, safe_divide, Ghost(inputs));
                    let x = match ra {
                        Ok(x) => x,
                        Err(err) => {
                            proof {
                                if settled(outcome(ra)) {
                                    let f = choose|f: nat|
                                        denote(a@, dm, inputs, p, safe_divide, f) == outcome(ra);
                                    assert(denote(expr@, dm, inputs, p, safe_divide, f) == outcome(
                                        ra,
                                    ));
                                }
                            }
                            return Err(err);
                        },
                    };
                    let rb = evaluate(b, defs, assigns, visiting, safe_divide, Ghost(inputs));
                    let r = match rb {
                        Ok(y) => apply_operator(*op, &x, &y),
                        Err(err) => Err(err),
                    };
                    proof {
                        if settled(outcome(rb)) {
                            let f = lemma_common_fuel(
                                a@,
                                outcome(ra),
                                b@,
                                outcome(rb),
                                dm,
                                inputs,
                                p,
                                safe_divide,
                            );
                            assert(denote(expr@, dm, inputs, p, safe_divide, f) == outcome(r));
                        } else {
                            assert forall|fuel: nat| #[trigger]
                                circle_below(seen, dm, inputs, p, safe_divide, fuel) implies !settled(
                                denote(expr@, dm, inputs, p, safe_divide, fuel),
                            ) by {
                                lemma_agrees(a@, dm, inputs, p, safe_divide, outcome(ra), fuel);
                            }
                        }
                    }
                    r
                },
            }
        },
        _ => {
            assert(denote(expr@, dm, inputs, p, safe_divide, 0) == Err::<nat, EvalError>(
                EvalError::UnexpectedExpression,
            ));
            Err(EvalError::UnexpectedExpression)
        },
    }
}

/// The result of an operator on two values; powers and safe quotients are
/// not among them.
fn apply_operator<F: FieldElement>(op: InfixOp, x: &F, y: &F) -> (r: Result<F, EvalError>)
    ensures
        outcome(r) == apply(op, x.value(), y.value(), F::modulus()),
{
    proof {
        F::lemma_modulus();
    }
    match op {
        InfixOp::Add => Ok(x.add(y)),
        InfixOp::Subtract => Ok(x.sub(y)),
        InfixOp::Multiply => Ok(x.mul(y)),
        InfixOp::Divide => match divide(x, y) {
            Some(q) => Ok(q),
            None => Err(EvalError::DivisionByZero),
        },
        InfixOp::IntDivide => match to_integer(x).checked_div(&to_integer(y)) {
            Some(q) => {
                let z: F = make_constant(&q);
                assert(z.value() == (x.value() / y.value()) % F::modulus());
                Ok(z)
            },
            None => Err(EvalError::DivisionByZero),
        },
        InfixOp::Modulo => match to_integer(x).checked_rem(&to_integer(y)) {
            Some(q) => {
                let z: F = make_constant(&q);
                assert(z.value() == (x.value() % y.value()) % F::modulus());
                Ok(z)
            },
            None => Err(EvalError::DivisionByZero),
        },
        _ => Err(EvalError::UnexpectedExpression),
    }
}

/// The value of `expr`, each variable being the assignment it has or else
/// the value of its definition.
///
/// The outcome is that of [`evaluation`] with the assignments at the call
/// for inputs. Every variable whose value had to be worked out is assigned
/// it, also where the evaluation goes on to fail; no assignment is changed.
pub fn evaluate_expr<F: FieldElement>(
    expr: &TExpr,
    defs: &HashMap<VariableId, TExpr>,
    assigns: &mut HashMap<VariableId, F>,
    safe_divide: bool,
) -> (r: Result<F, EvalError>)
    ensures
        outcome(r) == evaluation(
            expr@,
            defs_model(defs@),
            values(old(assigns)@),
            F::modulus(),
            safe_divide,
        ),
        forall|v: VariableId|
            old(assigns)@.contains_key(v) ==> final(assigns)@.contains_key(v) && final(assigns)@[v]
                == old(assigns)@[v],
        forall|v: VariableId| #[trigger]
            final(assigns)@.contains_key(v) ==> evaluation(
                ExprModel::Variable(v),
                defs_model(defs@),
                values(old(assigns)@),
                F::modulus(),
                safe_divide,
            ) == Ok::<nat, EvalError>(final(assigns)@[v].value()),
{
    let ghost inputs = values(assigns@);
    let ghost dm = defs_model(defs@);
    let ghost p = F::modulus();
    let mut visiting: HashSet<VariableId> = HashSet::new();
    proof {
        assert forall|v: VariableId| #[trigger] assigns@.contains_key(v) implies settles(
            ExprModel::Variable(v),
            dm,
            inputs,
            p,
            safe_divide,
            Ok(assigns@[v].value()),
        ) by {
            assert(denote(ExprModel::Variable(v), dm, inputs, p, safe_divide, 0) == Ok::<
                nat,
                EvalError,
            >(assigns@[v].value()));
        }
    }
    let r = evaluate(expr, defs, assigns, &mut visiting, safe_divide, Ghost(inputs));
    proof {
        lemma_found(expr@, outcome(r), dm, inputs, p, safe_divide);
        assert forall|v: VariableId| #[trigger] assigns@.contains_key(v) implies evaluation(
            ExprModel::Variable(v),
            dm,
            inputs,
            p,
            safe_divide,
        ) == Ok::<nat, EvalError>(assigns@[v].value()) by {
            lemma_settles(
                ExprModel::Variable(v),
                dm,
                inputs,
                p,
                safe_divide,
                Ok(assigns@[v].value()),
            );
        }
    }
    r
}

/// What was found with no variable on the way is the evaluation.
pub proof fn lemma_found(
    e: ExprModel,
    r: Outcome,
    defs: Map<VariableId, ExprModel>,
    inputs: Map<VariableId, nat>,
    p: nat,
    safe_divide: bool,
)
    requires
        found(e, r, Set::empty(), defs, inputs, p, safe_divide),
    ensures
        evaluation(e, defs, inputs, p, safe_divide) == r,
{
    if settled(r) {
        lemma_settles(e, defs, inputs, p, safe_divide, r);
    } else {
        assert forall|fuel: nat| !settled(
            #[trigger] denote(e, defs, inputs, p, safe_divide, fuel),
        ) by {
            assert(circle_below(Set::empty(), defs, inputs, p, safe_divide, fuel));
        }
        lemma_circle(e, defs, inputs, p, safe_divide);
    }
}

/// An evaluation that is not a circle is settled by some amount of fuel,
/// and one that is a circle by none.
pub proof fn lemma_evaluation(
    e: ExprModel,
    defs: Map<VariableId, ExprModel>,
    inputs: Map<VariableId, nat>,
    p: nat,
    safe_divide: bool,
)
    ensures
        settled(evaluation(e, defs, inputs, p, safe_divide)) ==> settles(
            e,
            defs,
            inputs,
            p,
            safe_divide,
            evaluation(e, defs, inputs, p, safe_divide),
        ),
        !settled(evaluation(e, defs, inputs, p, safe_divide)) ==> forall|fuel: nat|
            !settled(#[trigger] denote(e, defs, inputs, p, safe_divide, fuel)),
{
    let r = evaluation(e, defs, inputs, p, safe_divide);
    if !settled(r) {
        assert forall|fuel: nat| !settled(
            #[trigger] denote(e, defs, inputs, p, safe_divide, fuel),
        ) by {
            let d = denote(e, defs, inputs, p, safe_divide, fuel);
            if settled(d) {
                assert(settles(e, defs, inputs, p, safe_divide, d));
                lemma_settles(e, defs, inputs, p, safe_divide, d);
            }
        }
    }
}

/// Witness validity: a variable that is not an input comes to what its
/// definition comes to. A constraint `v = e` whose right side is the
/// definition of `v` therefore has equal sides under every population.
pub proof fn lemma_witness_validity(
    v: VariableId,
    defs: Map<VariableId, ExprModel>,
    inputs: Map<VariableId, nat>,
    p: nat,
    safe_divide: bool,
)
    requires
        defs.contains_key(v),
        !inputs.contains_key(v),
    ensures
        evaluation(ExprModel::Variable(v), defs, inputs, p, safe_divide) == evaluation(
            defs[v],
            defs,
            inputs,
            p,
            safe_divide,
        ),
{
    let r = evaluation(defs[v], defs, inputs, p, safe_divide);
    lemma_evaluation(defs[v], defs, inputs, p, safe_divide);
    if settled(r) {
        let f = choose|f: nat| denote(defs[v], defs, inputs, p, safe_divide, f) == r;
        assert(denote(ExprModel::Variable(v), defs, inputs, p, safe_divide, f + 1) == r);
        lemma_settles(ExprModel::Variable(v), defs, inputs, p, safe_divide, r);
    } else {
        assert forall|fuel: nat| !settled(
            #[trigger] denote(ExprModel::Variable(v), defs, inputs, p, safe_divide, fuel),
        ) by {
            if fuel > 0 {
                assert(!settled(
                    denote(defs[v], defs, inputs, p, safe_divide, (fuel - 1) as nat),
                ));
            }
        }
        lemma_circle(ExprModel::Variable(v), defs, inputs, p, safe_divide);
    }
}

/// A constant comes to its representative.
pub proof fn lemma_constant(
    c: int,
    defs: Map<VariableId, ExprModel>,
    inputs: Map<VariableId, nat>,
    p: nat,
    safe_divide: bool,
)
    ensures
        evaluation(ExprModel::Constant(c), defs, inputs, p, safe_divide) == Ok::<nat, EvalError>(
            reduce(c, p),
        ),
{
    assert(denote(ExprModel::Constant(c), defs, inputs, p, safe_divide, 0) == Ok::<
        nat,
        EvalError,
    >(reduce(c, p)));
    lemma_settles(ExprModel::Constant(c), defs, inputs, p, safe_divide, Ok(reduce(c, p)));
}

/// A negation of what has a value comes to the negated value.
pub proof fn lemma_negation(
    a: ExprModel,
    x: nat,
    defs: Map<VariableId, ExprModel>,
    inputs: Map<VariableId, nat>,
    p: nat,
    safe_divide: bool,
)
    requires
        evaluation(a, defs, inputs, p, safe_divide) == Ok::<nat, EvalError>(x),
    ensures
        evaluation(ExprModel::Negate(Box::new(a)), defs, inputs, p, safe_divide) == Ok::<
            nat,
            EvalError,
        >(fneg(x, p)),
{
    lemma_evaluation(a, defs, inputs, p, safe_divide);
    let f = choose|f: nat| denote(a, defs, inputs, p, safe_divide, f) == Ok::<nat, EvalError>(x);
    let e = ExprModel::Negate(Box::new(a));
    assert(denote(e, defs, inputs, p, safe_divide, f) == Ok::<nat, EvalError>(fneg(x, p)));
    lemma_settles(e, defs, inputs, p, safe_divide, Ok(fneg(x, p)));
}

/// An operator on two operands that have values comes to the operator
/// applied to the values; a safe quotient by zero comes to zero.
pub proof fn lemma_operation(
    op: InfixOp,
    a: ExprModel,
    x: nat,
    b: ExprModel,
    y: nat,
    defs: Map<VariableId, ExprModel>,
    inputs: Map<VariableId, nat>,
    p: nat,
    safe_divide: bool,
)
    requires
        evaluable(op, safe_divide),
        op != InfixOp::Exponentiate,
        evaluation(a, defs, inputs, p, safe_divide) == Ok::<nat, EvalError>(x),
        evaluation(b, defs, inputs, p, safe_divide) == Ok::<nat, EvalError>(y),
    ensures
        evaluation(ExprModel::Infix(op, Box::new(a), Box::new(b)), defs, inputs, p, safe_divide)
            == if op == InfixOp::DivideZ {
            if y == 0 {
                Ok::<nat, EvalError>(0)
            } else {
                Ok::<nat, EvalError>(fdiv(x, y, p))
            }
        } else {
            apply(op, x, y, p)
        },
{
    lemma_evaluation(a, defs, inputs, p, safe_divide);
    lemma_evaluation(b, defs, inputs, p, safe_divide);
    let f = lemma_common_fuel(a, Ok(x), b, Ok(y), defs, inputs, p, safe_divide);
    let e = ExprModel::Infix(op, Box::new(a), Box::new(b));
    let r = denote(e, defs, inputs, p, safe_divide, f);
    assert(settled(r));
    lemma_settles(e, defs, inputs, p, safe_divide, r);
}

/// Every input is a representative.
pub open spec fn canonical_inputs(inputs: Map<VariableId, nat>, p: nat) -> bool {
    forall|v: VariableId| inputs.contains_key(v) ==> #[trigger] inputs[v] < p
}

/// In a field, a value that is reached from representatives is a representative.
pub proof fn lemma_denote_canonical(
    e: ExprModel,
    defs: Map<VariableId, ExprModel>,
    inputs: Map<VariableId, nat>,
    p: nat,
    safe_divide: bool,
    fuel: nat,
)
    requires
        is_field(p),
        canonical_inputs(inputs, p),
        denote(e, defs, inputs, p, safe_divide, fuel) is Ok,
    ensures
        denote(e, defs, inputs, p, safe_divide, fuel)->Ok_0 < p,
    decreases fuel, e,
{
    match e {
        ExprModel::Constant(c) => {
            lemma_reduce(c, p);
        },
        ExprModel::Variable(v) => {
            if !inputs.contains_key(v) {
                lemma_denote_canonical(defs[v], defs, inputs, p, safe_divide, (fuel - 1) as nat);
            }
        },
        ExprModel::Negate(a) => {
            let x = denote(*a, defs, inputs, p, safe_divide, fuel)->Ok_0;
            lemma_reduce(-x, p);
        },
        ExprModel::Infix(op, a, b) => {
            if op == InfixOp::Exponentiate {
                lemma_denote_canonical(*a, defs, inputs, p, safe_divide, fuel);
                let x = denote(*a, defs, inputs, p, safe_divide, fuel)->Ok_0;
                let c = b->Constant_0;
                if c >= 0 {
                    lemma_reduce(pow(x as int, c as nat), p);
                } else {
                    let d = fpow(x, (-c) as nat, p);
                    lemma_reduce(pow(x as int, (-c) as nat), p);
                    let r = lemma_field_inverse(d, p);
                }
            } else if op == InfixOp::DivideZ {
                lemma_denote_canonical(*b, defs, inputs, p, safe_divide, fuel);
                let y = denote(*b, defs, inputs, p, safe_divide, fuel)->Ok_0;
                if y != 0 {
                    let x = denote(*a, defs, inputs, p, safe_divide, fuel)->Ok_0;
                    let r = lemma_field_inverse(y, p);
                    lemma_quotient_by_inverse(x, y, r, p);
                }
            } else {
                lemma_denote_canonical(*b, defs, inputs, p, safe_divide, fuel);
                let x = denote(*a, defs, inputs, p, safe_divide, fuel)->Ok_0;
                let y = denote(*b, defs, inputs, p, safe_divide, fuel)->Ok_0;
                lemma_reduce((x + y) as int, p);
                lemma_reduce(x - y, p);
                lemma_reduce((x * y) as int, p);
                if op == InfixOp::Divide {
                    let r = lemma_field_inverse(y, p);
                    lemma_quotient_by_inverse(x, y, r, p);
                }
                if op == InfixOp::IntDivide || op == InfixOp::Modulo {
                    lemma_mod_bound((x / y) as int, p as int);
                    lemma_mod_bound((x % y) as int, p as int);
                }
            }
        },
        _ => {},
    }
}

/// In a field, what an expression over representatives comes to is a representative.
pub proof fn lemma_evaluation_canonical(
    e: ExprModel,
    defs: Map<VariableId, ExprModel>,
    inputs: Map<VariableId, nat>,
    p: nat,
    safe_divide: bool,
)
    requires
        is_field(p),
        canonical_inputs(inputs, p),
        evaluation(e, defs, inputs, p, safe_divide) is Ok,
    ensures
        evaluation(e, defs, inputs, p, safe_divide)->Ok_0 < p,
{
    lemma_evaluation(e, defs, inputs, p, safe_divide);
    let r = evaluation(e, defs, inputs, p, safe_divide);
    let f = choose|f: nat| denote(e, defs, inputs, p, safe_divide, f) == r;
    lemma_denote_canonical(e, defs, inputs, p, safe_divide, f);
}

} // verus!
