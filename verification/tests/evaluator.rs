use circuit_synth::arith::make_constant;
use circuit_synth::ast::{Expr, InfixOp, TExpr};
use circuit_synth::eval::{evaluate_expr, EvalError};
use circuit_synth::field::FieldElement;
use circuit_synth::halo2::field::Fp;
use circuit_synth::integer::Integer;
use circuit_synth::plonk::field::Fr;
use std::collections::HashMap;

fn constant(x: i64) -> TExpr {
    TExpr::constant(Integer::from_i64(x))
}

fn variable(id: u32) -> TExpr {
    TExpr::variable(id)
}

fn infix(op: InfixOp, a: TExpr, b: TExpr) -> TExpr {
    TExpr::infix(op, a, b)
}

fn fp(x: i64) -> Fp {
    make_constant(&Integer::from_i64(x))
}

fn fr(x: i64) -> Fr {
    make_constant(&Integer::from_i64(x))
}

#[test]
fn constant_evaluates_to_its_embedding() {
    let defs = HashMap::new();
    let mut assigns: HashMap<u32, Fp> = HashMap::new();
    assert_eq!(evaluate_expr(&constant(-4), &defs, &mut assigns, false), Ok(fp(-4)));
    assert!(assigns.is_empty());
}

#[test]
fn variable_takes_its_assignment_before_its_definition() {
    let mut defs = HashMap::new();
    defs.insert(1u32, constant(10));
    let mut assigns: HashMap<u32, Fp> = HashMap::new();
    assigns.insert(1, fp(99));
    assert_eq!(evaluate_expr(&variable(1), &defs, &mut assigns, false), Ok(fp(99)));
}

#[test]
fn definitions_are_unfolded_and_remembered() {
    // x := 3, y := x + 4, z := y * 2
    let mut defs = HashMap::new();
    defs.insert(0u32, constant(3));
    defs.insert(1u32, infix(InfixOp::Add, variable(0), constant(4)));
    defs.insert(2u32, infix(InfixOp::Multiply, variable(1), constant(2)));
    let mut assigns: HashMap<u32, Fp> = HashMap::new();
    assert_eq!(evaluate_expr(&variable(2), &defs, &mut assigns, false), Ok(fp(14)));
    assert_eq!(assigns.get(&0), Some(&fp(3)));
    assert_eq!(assigns.get(&1), Some(&fp(7)));
    assert_eq!(assigns.get(&2), Some(&fp(14)));
}

#[test]
fn negation_and_subtraction() {
    let defs = HashMap::new();
    let mut assigns: HashMap<u32, Fp> = HashMap::new();
    let e = infix(InfixOp::Subtract, TExpr::negate(constant(5)), constant(2));
    assert_eq!(evaluate_expr(&e, &defs, &mut assigns, false), Ok(fp(-7)));
}

#[test]
fn strict_quotient() {
    // q := p / r, r := 5, p := 20
    let mut defs = HashMap::new();
    defs.insert(0u32, infix(InfixOp::Divide, variable(1), variable(2)));
    defs.insert(1u32, constant(20));
    defs.insert(2u32, constant(5));
    let mut assigns: HashMap<u32, Fp> = HashMap::new();
    assert_eq!(evaluate_expr(&variable(0), &defs, &mut assigns, false), Ok(fp(4)));
}

#[test]
fn strict_quotient_by_zero_fails() {
    // q := p / r, r := 0, p := 1
    let mut defs = HashMap::new();
    defs.insert(0u32, infix(InfixOp::Divide, variable(1), variable(2)));
    defs.insert(1u32, constant(1));
    defs.insert(2u32, constant(0));
    let mut assigns: HashMap<u32, Fp> = HashMap::new();
    assert_eq!(
        evaluate_expr(&variable(0), &defs, &mut assigns, false),
        Err(EvalError::DivisionByZero)
    );
    // the operands had been worked out before the division failed
    assert_eq!(assigns.get(&1), Some(&fp(1)));
    assert_eq!(assigns.get(&2), Some(&fp(0)));
    assert_eq!(assigns.get(&0), None);
}

#[test]
fn safe_quotient_by_zero_is_zero() {
    let mut defs = HashMap::new();
    defs.insert(0u32, infix(InfixOp::DivideZ, variable(1), variable(2)));
    defs.insert(1u32, constant(1));
    defs.insert(2u32, constant(0));
    let mut assigns: HashMap<u32, Fr> = HashMap::new();
    assert_eq!(evaluate_expr(&variable(0), &defs, &mut assigns, true), Ok(fr(0)));
    // the numerator is not looked at
    assert_eq!(assigns.get(&1), None);
}

#[test]
fn safe_quotient_by_nonzero_is_the_quotient() {
    let defs = HashMap::new();
    let mut assigns: HashMap<u32, Fr> = HashMap::new();
    let e = infix(InfixOp::DivideZ, constant(20), constant(5));
    assert_eq!(evaluate_expr(&e, &defs, &mut assigns, true), Ok(fr(4)));
}

#[test]
fn safe_quotient_is_unexpected_where_not_allowed() {
    let defs = HashMap::new();
    let mut assigns: HashMap<u32, Fp> = HashMap::new();
    let e = infix(InfixOp::DivideZ, constant(20), constant(5));
    assert_eq!(
        evaluate_expr(&e, &defs, &mut assigns, false),
        Err(EvalError::UnexpectedExpression)
    );
}

#[test]
fn integer_quotient_and_remainder_of_representatives() {
    let defs = HashMap::new();
    let mut assigns: HashMap<u32, Fp> = HashMap::new();
    let q = infix(InfixOp::IntDivide, constant(17), constant(5));
    assert_eq!(evaluate_expr(&q, &defs, &mut assigns, false), Ok(fp(3)));
    let r = infix(InfixOp::Modulo, constant(17), constant(5));
    assert_eq!(evaluate_expr(&r, &defs, &mut assigns, false), Ok(fp(2)));
    let z = infix(InfixOp::IntDivide, constant(17), constant(0));
    assert_eq!(evaluate_expr(&z, &defs, &mut assigns, false), Err(EvalError::DivisionByZero));
    let m = infix(InfixOp::Modulo, constant(17), constant(0));
    assert_eq!(evaluate_expr(&m, &defs, &mut assigns, false), Err(EvalError::DivisionByZero));
}

#[test]
fn negative_power_in_a_definition() {
    // y := x ^ (-3), x := 2: y is the inverse of 8
    let mut defs = HashMap::new();
    defs.insert(0u32, infix(InfixOp::Exponentiate, variable(1), constant(-3)));
    defs.insert(1u32, constant(2));
    let mut assigns: HashMap<u32, Fp> = HashMap::new();
    let y = evaluate_expr(&variable(0), &defs, &mut assigns, false).unwrap();
    assert_eq!(y.mul(&fp(8)), Fp::one());
    let mut assigns_b: HashMap<u32, Fr> = HashMap::new();
    let z = evaluate_expr(&variable(0), &defs, &mut assigns_b, true).unwrap();
    assert_eq!(z.mul(&fr(8)), Fr::one());
}

#[test]
fn positive_power() {
    let defs = HashMap::new();
    let mut assigns: HashMap<u32, Fp> = HashMap::new();
    let e = infix(InfixOp::Exponentiate, constant(3), constant(4));
    assert_eq!(evaluate_expr(&e, &defs, &mut assigns, false), Ok(fp(81)));
    let z = infix(InfixOp::Exponentiate, constant(0), constant(0));
    assert_eq!(evaluate_expr(&z, &defs, &mut assigns, false), Ok(fp(1)));
}

#[test]
fn power_needs_a_constant_exponent() {
    let defs = HashMap::new();
    let mut assigns: HashMap<u32, Fp> = HashMap::new();
    assigns.insert(7, fp(2));
    let e = infix(InfixOp::Exponentiate, constant(3), variable(7));
    assert_eq!(
        evaluate_expr(&e, &defs, &mut assigns, false),
        Err(EvalError::UnexpectedExpression)
    );
}

#[test]
fn equality_and_other_shapes_are_unexpected() {
    let defs = HashMap::new();
    let mut assigns: HashMap<u32, Fp> = HashMap::new();
    let e = infix(InfixOp::Equal, constant(1), constant(1));
    assert_eq!(
        evaluate_expr(&e, &defs, &mut assigns, false),
        Err(EvalError::UnexpectedExpression)
    );
    let unit = Expr::Unit.type_expr();
    assert_eq!(
        evaluate_expr(&unit, &defs, &mut assigns, false),
        Err(EvalError::UnexpectedExpression)
    );
}

#[test]
fn undefined_variable_is_reported() {
    let mut defs = HashMap::new();
    defs.insert(0u32, infix(InfixOp::Add, variable(5), constant(1)));
    let mut assigns: HashMap<u32, Fp> = HashMap::new();
    assert_eq!(
        evaluate_expr(&variable(0), &defs, &mut assigns, false),
        Err(EvalError::UndefinedVariable(5))
    );
}

#[test]
fn cyclic_definitions_are_detected() {
    // a := b + 1, b := a * 2
    let mut defs = HashMap::new();
    defs.insert(0u32, infix(InfixOp::Add, variable(1), constant(1)));
    defs.insert(1u32, infix(InfixOp::Multiply, variable(0), constant(2)));
    let mut assigns: HashMap<u32, Fp> = HashMap::new();
    assert_eq!(
        evaluate_expr(&variable(0), &defs, &mut assigns, false),
        Err(EvalError::CyclicDefinition)
    );
    assert!(assigns.is_empty());
    // a variable defined by itself
    let mut own = HashMap::new();
    own.insert(3u32, variable(3));
    assert_eq!(
        evaluate_expr(&variable(3), &own, &mut assigns, false),
        Err(EvalError::CyclicDefinition)
    );
}

#[test]
fn shared_definitions_are_not_circles() {
    // d := s + s, s := t * t, t := 3: s and t are met twice, not in a circle
    let mut defs = HashMap::new();
    defs.insert(0u32, infix(InfixOp::Add, variable(1), variable(1)));
    defs.insert(1u32, infix(InfixOp::Multiply, variable(2), variable(2)));
    defs.insert(2u32, constant(3));
    let mut assigns: HashMap<u32, Fp> = HashMap::new();
    assert_eq!(evaluate_expr(&variable(0), &defs, &mut assigns, false), Ok(fp(18)));
}

#[test]
fn first_failure_from_the_left_wins() {
    let defs = HashMap::new();
    let mut assigns: HashMap<u32, Fp> = HashMap::new();
    let left = infix(InfixOp::Divide, constant(1), constant(0));
    let right = variable(9);
    let e = infix(InfixOp::Add, left, right);
    assert_eq!(evaluate_expr(&e, &defs, &mut assigns, false), Err(EvalError::DivisionByZero));
    let left = variable(9);
    let right = infix(InfixOp::Divide, constant(1), constant(0));
    let e = infix(InfixOp::Add, left, right);
    assert_eq!(
        evaluate_expr(&e, &defs, &mut assigns, false),
        Err(EvalError::UndefinedVariable(9))
    );
}
