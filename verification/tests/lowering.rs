use circuit_synth::arith::make_constant;
use circuit_synth::ast::{Expr, InfixOp, TExpr};
use circuit_synth::field::FieldElement;
use circuit_synth::gate::{
    lower_constraint, lower_expression, lower_module, Gate, LowerError, SynthesisError,
};
use circuit_synth::halo2::field::Fp;
use circuit_synth::integer::Integer;
use circuit_synth::plonk::field::Fr;
use std::collections::HashMap;

fn constant(x: i64) -> TExpr {
    TExpr::constant(Integer::from_i64(x))
}

fn variable(id: u32) -> TExpr {
    TExpr::variable(id)
}

fn infix(op: InfixOp, a: TExpr, b: TExpr) -> TExpr {
    TExpr::infix(op, a, b)
}

fn fp(x: i64) -> Fp {
    make_constant(&Integer::from_i64(x))
}

fn fr(x: i64) -> Fr {
    make_constant(&Integer::from_i64(x))
}

fn wire<F: FieldElement>(wire: Option<u32>, witness: &HashMap<u32, F>) -> F {
    match wire {
        Some(v) => witness[&v],
        None => F::zero(),
    }
}

/// q_l*a + q_r*b + q_m*a*b + q_o*c + q_c
fn gate_value<F: FieldElement>(gate: &Gate<F>, witness: &HashMap<u32, F>) -> F {
    let a = wire(gate.a, witness);
    let b = wire(gate.b, witness);
    let c = wire(gate.c, witness);
    gate.q_l
        .mul(&a)
        .add(&gate.q_r.mul(&b))
        .add(&gate.q_m.mul(&a.mul(&b)))
        .add(&gate.q_o.mul(&c))
        .add(&gate.q_c)
}

fn row<F: FieldElement>(
    a: Option<u32>,
    b: Option<u32>,
    c: Option<u32>,
    selectors: [F; 5],
) -> Gate<F> {
    Gate {
        a,
        b,
        c,
        q_l: selectors[0],
        q_r: selectors[1],
        q_o: selectors[2],
        q_m: selectors[3],
        q_c: selectors[4],
    }
}

fn lower_a(lhs: TExpr, rhs: TExpr) -> Result<Gate<Fp>, LowerError> {
    lower_constraint::<Fp>(&lhs, &rhs, false)
}

fn lower_b(lhs: TExpr, rhs: TExpr) -> Result<Gate<Fr>, LowerError> {
    lower_constraint::<Fr>(&lhs, &rhs, true)
}

#[test]
fn variable_equals_variable() {
    assert_eq!(
        lower_a(variable(1), variable(2)),
        Ok(row(Some(1), Some(2), None, [fp(1), fp(-1), fp(0), fp(0), fp(0)]))
    );
}

#[test]
fn variable_equals_constant() {
    assert_eq!(
        lower_a(variable(1), constant(3)),
        Ok(row(Some(1), None, None, [fp(1), fp(0), fp(0), fp(0), fp(-3)]))
    );
}

#[test]
fn variable_equals_negated_leaf() {
    assert_eq!(
        lower_a(variable(1), TExpr::negate(constant(3))),
        Ok(row(Some(1), None, None, [fp(1), fp(0), fp(0), fp(0), fp(3)]))
    );
    assert_eq!(
        lower_a(variable(1), TExpr::negate(variable(2))),
        Ok(row(Some(1), Some(2), None, [fp(1), fp(1), fp(0), fp(0), fp(0)]))
    );
}

#[test]
fn variable_equals_sum() {
    assert_eq!(
        lower_a(variable(1), infix(InfixOp::Add, variable(2), variable(3))),
        Ok(row(Some(1), Some(2), Some(3), [fp(1), fp(-1), fp(-1), fp(0), fp(0)]))
    );
    assert_eq!(
        lower_a(variable(1), infix(InfixOp::Add, constant(4), variable(3))),
        Ok(row(Some(1), Some(3), None, [fp(1), fp(-1), fp(0), fp(0), fp(-4)]))
    );
    assert_eq!(
        lower_a(variable(1), infix(InfixOp::Add, variable(2), constant(4))),
        Ok(row(Some(1), Some(2), None, [fp(1), fp(-1), fp(0), fp(0), fp(-4)]))
    );
    assert_eq!(
        lower_a(variable(1), infix(InfixOp::Add, constant(4), constant(5))),
        Ok(row(Some(1), None, None, [fp(1), fp(0), fp(0), fp(0), fp(-9)]))
    );
}

#[test]
fn variable_equals_difference() {
    assert_eq!(
        lower_a(variable(1), infix(InfixOp::Subtract, variable(2), variable(3))),
        Ok(row(Some(1), Some(2), Some(3), [fp(1), fp(-1), fp(1), fp(0), fp(0)]))
    );
    assert_eq!(
        lower_a(variable(1), infix(InfixOp::Subtract, constant(4), variable(3))),
        Ok(row(Some(1), Some(3), None, [fp(1), fp(1), fp(0), fp(0), fp(-4)]))
    );
    assert_eq!(
        lower_a(variable(1), infix(InfixOp::Subtract, variable(2), constant(4))),
        Ok(row(Some(1), Some(2), None, [fp(1), fp(-1), fp(0), fp(0), fp(4)]))
    );
    assert_eq!(
        lower_a(variable(1), infix(InfixOp::Subtract, constant(4), constant(5))),
        Ok(row(Some(1), None, None, [fp(1), fp(0), fp(0), fp(0), fp(1)]))
    );
}

#[test]
fn variable_equals_product() {
    assert_eq!(
        lower_a(variable(1), infix(InfixOp::Multiply, variable(2), variable(3))),
        Ok(row(Some(2), Some(3), Some(1), [fp(0), fp(0), fp(1), fp(-1), fp(0)]))
    );
    assert_eq!(
        lower_a(variable(1), infix(InfixOp::Multiply, constant(4), variable(3))),
        Ok(row(Some(1), Some(3), None, [fp(1), fp(-4), fp(0), fp(0), fp(0)]))
    );
    assert_eq!(
        lower_a(variable(1), infix(InfixOp::Multiply, variable(2), constant(4))),
        Ok(row(Some(1), Some(2), None, [fp(1), fp(-4), fp(0), fp(0), fp(0)]))
    );
    assert_eq!(
        lower_a(variable(1), infix(InfixOp::Multiply, constant(4), constant(5))),
        Ok(row(Some(1), None, None, [fp(1), fp(0), fp(0), fp(0), fp(-20)]))
    );
}

#[test]
fn variable_equals_quotient() {
    assert_eq!(
        lower_a(variable(1), infix(InfixOp::Divide, variable(2), variable(3))),
        Ok(row(Some(1), Some(3), Some(2), [fp(0), fp(0), fp(-1), fp(1), fp(0)]))
    );
    assert_eq!(
        lower_a(variable(1), infix(InfixOp::Divide, constant(4), variable(3))),
        Ok(row(Some(1), Some(3), None, [fp(0), fp(0), fp(0), fp(1), fp(-4)]))
    );
    let quarter = fp(4).invert().unwrap();
    assert_eq!(
        lower_a(variable(1), infix(InfixOp::Divide, variable(2), constant(4))),
        Ok(row(Some(1), Some(2), None, [fp(1), quarter.neg(), fp(0), fp(0), fp(0)]))
    );
    assert_eq!(
        lower_a(variable(1), infix(InfixOp::Divide, constant(20), constant(4))),
        Ok(row(Some(1), None, None, [fp(1), fp(0), fp(0), fp(0), fp(-5)]))
    );
}

#[test]
fn constant_on_the_left() {
    assert_eq!(
        lower_a(constant(7), variable(2)),
        Ok(row(Some(2), None, None, [fp(1), fp(0), fp(0), fp(0), fp(-7)]))
    );
    assert_eq!(
        lower_a(constant(7), constant(2)),
        Ok(row(None, None, None, [fp(0), fp(0), fp(0), fp(0), fp(5)]))
    );
    assert_eq!(
        lower_a(constant(7), TExpr::negate(constant(2))),
        Ok(row(None, None, None, [fp(0), fp(0), fp(0), fp(0), fp(9)]))
    );
    assert_eq!(
        lower_a(constant(7), TExpr::negate(variable(2))),
        Ok(row(Some(2), None, None, [fp(1), fp(0), fp(0), fp(0), fp(7)]))
    );
    assert_eq!(
        lower_a(constant(7), infix(InfixOp::Add, variable(2), variable(3))),
        Ok(row(Some(2), Some(3), None, [fp(1), fp(1), fp(0), fp(0), fp(-7)]))
    );
    assert_eq!(
        lower_a(constant(7), infix(InfixOp::Subtract, variable(2), constant(3))),
        Ok(row(Some(2), None, None, [fp(1), fp(0), fp(0), fp(0), fp(-10)]))
    );
    assert_eq!(
        lower_a(constant(7), infix(InfixOp::Multiply, variable(2), variable(3))),
        Ok(row(Some(2), Some(3), None, [fp(0), fp(0), fp(0), fp(1), fp(-7)]))
    );
    assert_eq!(
        lower_a(constant(7), infix(InfixOp::Multiply, constant(2), variable(3))),
        Ok(row(Some(3), None, None, [fp(2), fp(0), fp(0), fp(0), fp(-7)]))
    );
    assert_eq!(
        lower_a(constant(7), infix(InfixOp::Divide, constant(2), variable(3))),
        Ok(row(Some(3), None, None, [fp(7), fp(0), fp(0), fp(0), fp(-2)]))
    );
    assert_eq!(
        lower_a(constant(7), infix(InfixOp::Divide, variable(2), variable(3))),
        Ok(row(Some(2), Some(3), None, [fp(1), fp(-7), fp(0), fp(0), fp(0)]))
    );
    assert_eq!(
        lower_a(constant(7), infix(InfixOp::Divide, variable(2), constant(3))),
        Ok(row(Some(2), None, None, [fp(1), fp(0), fp(0), fp(0), fp(-21)]))
    );
}

#[test]
fn strict_division_by_a_zero_constant_has_no_gate() {
    assert_eq!(
        lower_a(variable(1), infix(InfixOp::Divide, variable(2), constant(0))),
        Err(LowerError::DivisionByZero)
    );
    assert_eq!(
        lower_a(variable(1), infix(InfixOp::Divide, constant(2), constant(0))),
        Err(LowerError::DivisionByZero)
    );
    assert_eq!(
        lower_a(constant(1), infix(InfixOp::Divide, variable(2), constant(0))),
        Err(LowerError::DivisionByZero)
    );
    assert_eq!(
        lower_a(constant(1), infix(InfixOp::Divide, constant(2), constant(0))),
        Err(LowerError::DivisionByZero)
    );
}

#[test]
fn safe_division_by_a_zero_constant_encodes_zero() {
    assert_eq!(
        lower_b(variable(1), infix(InfixOp::DivideZ, variable(2), constant(0))),
        Ok(row(Some(1), Some(2), None, [fr(1), fr(0), fr(0), fr(0), fr(0)]))
    );
    assert_eq!(
        lower_b(variable(1), infix(InfixOp::DivideZ, constant(2), constant(0))),
        Ok(row(Some(1), None, None, [fr(1), fr(0), fr(0), fr(0), fr(0)]))
    );
    assert_eq!(
        lower_b(constant(5), infix(InfixOp::DivideZ, variable(2), constant(0))),
        Ok(row(None, None, None, [fr(0), fr(0), fr(0), fr(0), fr(5)]))
    );
    assert_eq!(
        lower_b(constant(5), infix(InfixOp::DivideZ, constant(2), constant(0))),
        Ok(row(None, None, None, [fr(0), fr(0), fr(0), fr(0), fr(5)]))
    );
}

#[test]
fn safe_division_has_rows_only_where_it_is_allowed() {
    assert_eq!(
        lower_a(variable(1), infix(InfixOp::DivideZ, variable(2), variable(3))),
        Err(LowerError::UnsupportedConstraint)
    );
    assert_eq!(
        lower_a(constant(1), infix(InfixOp::DivideZ, variable(2), variable(3))),
        Err(LowerError::UnsupportedConstraint)
    );
    assert_eq!(
        lower_b(variable(1), infix(InfixOp::DivideZ, variable(2), variable(3))),
        Ok(row(Some(1), Some(3), Some(2), [fr(0), fr(0), fr(-1), fr(1), fr(0)]))
    );
}

#[test]
fn shapes_outside_the_normal_form_have_no_gate() {
    let nested = infix(InfixOp::Add, variable(2), infix(InfixOp::Add, variable(3), variable(4)));
    assert_eq!(lower_a(variable(1), nested), Err(LowerError::UnsupportedConstraint));
    assert_eq!(
        lower_a(variable(1), infix(InfixOp::Exponentiate, variable(2), constant(2))),
        Err(LowerError::UnsupportedConstraint)
    );
    assert_eq!(
        lower_a(variable(1), infix(InfixOp::IntDivide, variable(2), constant(2))),
        Err(LowerError::UnsupportedConstraint)
    );
    assert_eq!(
        lower_a(variable(1), infix(InfixOp::Modulo, variable(2), constant(2))),
        Err(LowerError::UnsupportedConstraint)
    );
    assert_eq!(
        lower_a(TExpr::negate(variable(1)), variable(2)),
        Err(LowerError::UnsupportedConstraint)
    );
    assert_eq!(
        lower_a(variable(1), TExpr::negate(TExpr::negate(variable(2)))),
        Err(LowerError::UnsupportedConstraint)
    );
    assert_eq!(lower_a(variable(1), Expr::Unit.type_expr()), Err(LowerError::UnsupportedConstraint));
}

#[test]
fn only_equalities_are_constraints() {
    let sum = infix(InfixOp::Add, variable(1), variable(2));
    assert_eq!(lower_expression::<Fp>(&sum, false), Err(LowerError::UnsupportedConstraint));
    assert_eq!(
        lower_expression::<Fp>(&variable(1), false),
        Err(LowerError::UnsupportedConstraint)
    );
    let equality = infix(InfixOp::Equal, variable(1), variable(2));
    assert!(lower_expression::<Fp>(&equality, false).is_ok());
}

#[test]
fn every_constraint_gets_one_gate_in_order() {
    let exprs = vec![
        infix(InfixOp::Equal, variable(0), constant(3)),
        infix(InfixOp::Equal, variable(1), infix(InfixOp::Add, variable(0), constant(4))),
        infix(InfixOp::Equal, variable(2), infix(InfixOp::Multiply, variable(1), constant(2))),
    ];
    let gates = lower_module::<Fp>(&exprs, false).unwrap();
    assert_eq!(gates.len(), 3);
    assert_eq!(gates[0], lower_a(variable(0), constant(3)).unwrap());
    assert_eq!(
        gates[1],
        lower_a(variable(1), infix(InfixOp::Add, variable(0), constant(4))).unwrap()
    );
    assert_eq!(
        gates[2],
        lower_a(variable(2), infix(InfixOp::Multiply, variable(1), constant(2))).unwrap()
    );
    // the same again gives the same
    assert_eq!(lower_module::<Fp>(&exprs, false).unwrap(), gates);
}

#[test]
fn first_constraint_without_a_gate_is_named() {
    let exprs = vec![
        infix(InfixOp::Equal, variable(0), constant(3)),
        infix(InfixOp::Equal, variable(1), infix(InfixOp::Divide, variable(0), constant(0))),
        infix(InfixOp::Add, variable(1), variable(2)),
    ];
    assert_eq!(
        lower_module::<Fp>(&exprs, false),
        Err(SynthesisError { index: 1, kind: LowerError::DivisionByZero })
    );
    let exprs = vec![infix(InfixOp::Add, variable(1), variable(2))];
    assert_eq!(
        lower_module::<Fp>(&exprs, false),
        Err(SynthesisError { index: 0, kind: LowerError::UnsupportedConstraint })
    );
}

fn leaf(kind: bool, id: u32, value: i64) -> TExpr {
    if kind {
        variable(id)
    } else {
        constant(value)
    }
}

fn apply(op: InfixOp, y: i64, z: i64) -> i64 {
    match op {
        InfixOp::Add => y + z,
        InfixOp::Subtract => y - z,
        InfixOp::Multiply => y * z,
        _ => y / z,
    }
}

/// For every operator and every choice of variable or constant in the three
/// places, a gate holds of a witness of its constraint and of no witness
/// in which the left side is off by one.
fn satisfied_rows<F: FieldElement + std::fmt::Debug + PartialEq>(safe_divide: bool) {
    let mut ops = vec![InfixOp::Add, InfixOp::Subtract, InfixOp::Multiply, InfixOp::Divide];
    if safe_divide {
        ops.push(InfixOp::DivideZ);
    }
    let (y, z) = (20i64, 5i64);
    for op in ops {
        let x = apply(op, y, z);
        for shape in 0..8u32 {
            let (lv, yv, zv) = (shape & 1 != 0, shape & 2 != 0, shape & 4 != 0);
            let lhs = leaf(lv, 1, x);
            let rhs = infix(op, leaf(yv, 2, y), leaf(zv, 3, z));
            let gate = lower_constraint::<F>(&lhs, &rhs, safe_divide).unwrap();
            let mut witness: HashMap<u32, F> = HashMap::new();
            witness.insert(1, make_constant(&Integer::from_i64(x)));
            witness.insert(2, make_constant(&Integer::from_i64(y)));
            witness.insert(3, make_constant(&Integer::from_i64(z)));
            assert!(gate_value(&gate, &witness).is_zero(), "{:?} shape {}", op, shape);
            if lv {
                witness.insert(1, make_constant(&Integer::from_i64(x + 1)));
                assert!(!gate_value(&gate, &witness).is_zero(), "{:?} shape {}", op, shape);
            } else {
                let off = leaf(lv, 1, x + 1);
                let rhs = infix(op, leaf(yv, 2, y), leaf(zv, 3, z));
                let gate = lower_constraint::<F>(&off, &rhs, safe_divide).unwrap();
                assert!(!gate_value(&gate, &witness).is_zero(), "{:?} shape {}", op, shape);
            }
        }
    }
}

#[test]
fn gates_hold_of_witnesses_of_their_constraints() {
    satisfied_rows::<Fp>(false);
    satisfied_rows::<Fr>(true);
}

#[test]
fn leaf_gates_hold_of_witnesses_of_their_constraints() {
    for shape in 0..4u32 {
        let (lv, rv) = (shape & 1 != 0, shape & 2 != 0);
        let mut witness: HashMap<u32, Fp> = HashMap::new();
        witness.insert(1, fp(9));
        witness.insert(2, fp(9));
        let gate = lower_a(leaf(lv, 1, 9), leaf(rv, 2, 9)).unwrap();
        assert!(gate_value(&gate, &witness).is_zero());
        witness.insert(2, fp(-9));
        let gate = lower_a(leaf(lv, 1, 9), TExpr::negate(leaf(rv, 2, -9))).unwrap();
        assert!(gate_value(&gate, &witness).is_zero());
        let gate = lower_a(leaf(lv, 1, 9), TExpr::negate(leaf(rv, 2, 9))).unwrap();
        witness.insert(2, fp(9));
        assert!(!gate_value(&gate, &witness).is_zero());
    }
}

#[test]
fn safe_quotient_by_a_zero_variable_is_not_captured() {
    // v1 = v2 | v3 with v3 = 0, v2 = 1: the constraint asks for v1 = 0,
    // its gate v1 * v3 - v2 cannot hold
    let gate = lower_b(variable(1), infix(InfixOp::DivideZ, variable(2), variable(3))).unwrap();
    let mut witness: HashMap<u32, Fr> = HashMap::new();
    witness.insert(1, fr(0));
    witness.insert(2, fr(1));
    witness.insert(3, fr(0));
    assert!(!gate_value(&gate, &witness).is_zero());
    // with a zero numerator it does
    witness.insert(2, fr(0));
    assert!(gate_value(&gate, &witness).is_zero());
}
