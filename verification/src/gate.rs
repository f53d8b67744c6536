//! Arithmetic gates and the table that lowers a constraint to one.
//!
//! A gate is a row `(a, b, c, q_l, q_r, q_o, q_m, q_c)` that holds of a
//! witness when `q_l*a + q_r*b + q_m*a*b + q_o*c + q_c` is zero in the field.
//! A normalised constraint `lhs = rhs` has a leaf on the left and, on the
//! right, a leaf, a negated leaf or one operator on two leaves; [`table`]
//! gives the row of each such shape and [`lower_constraint`] computes it.

use crate::arith::{divide, divide_or_zero, fdiv_or_zero, make_constant};
use crate::ast::{Expr, ExprModel, InfixOp, TExpr, VariableId};
use crate::field::{fadd, fdiv, finv, fmul, fsub, lemma_finv, reduce, FieldElement};
use crate::transform::expr_variables;
use vstd::arithmetic::div_mod::lemma_small_mod;
use vstd::prelude::*;

verus! {

/// Why a constraint has no gate.
#[derive(Clone, Copy, PartialEq, Eq, Structural, Debug)]
pub enum LowerError {
    /// The constraint is not of a normalised shape.
    UnsupportedConstraint,
    /// A strict division has a constant divisor that is zero in the field.
    DivisionByZero,
}

/// A leaf of a constraint, a constant being already in the field.
#[derive(Clone, Copy)]
pub enum Operand<F> {
    Variable(VariableId),
    Constant(F),
}

/// A leaf of a constraint: a variable, or a constant's representative.
pub enum OperandModel {
    Variable(VariableId),
    Constant(nat),
}

impl<F: FieldElement> View for Operand<F> {
    type V = OperandModel;

    open spec fn view(&self) -> OperandModel {
        match *self {
            Operand::Variable(v) => OperandModel::Variable(v),
            Operand::Constant(k) => OperandModel::Constant(k.value()),
        }
    }
}

/// The right-hand side of a normalised constraint.
#[derive(Clone, Copy)]
pub enum Shape<F> {
    Leaf(Operand<F>),
    Negated(Operand<F>),
    Binary(InfixOp, Operand<F>, Operand<F>),
}

/// The right-hand side of a normalised constraint.
pub enum ShapeModel {
    Leaf(OperandModel),
    Negated(OperandModel),
    Binary(InfixOp, OperandModel, OperandModel),
}

impl<F: FieldElement> View for Shape<F> {
    type V = ShapeModel;

    open spec fn view(&self) -> ShapeModel {
        match *self {
            Shape::Leaf(x) => ShapeModel::Leaf(x@),
            Shape::Negated(x) => ShapeModel::Negated(x@),
            Shape::Binary(op, x, y) => ShapeModel::Binary(op, x@, y@),
        }
    }
}

/// The leaf that an expression is, if it is one.
pub open spec fn operand_of(e: ExprModel, p: nat) -> Option<OperandModel> {
    match e {
        ExprModel::Variable(v) => Some(OperandModel::Variable(v)),
        ExprModel::Constant(c) => Some(OperandModel::Constant(reduce(c, p))),
        _ => None,
    }
}

/// Whether gates are made for the operator.
pub open spec fn is_gate_operator(op: InfixOp) -> bool {
    op == InfixOp::Add || op == InfixOp::Subtract || op == InfixOp::Multiply || op
        == InfixOp::Divide || op == InfixOp::DivideZ
}

/// The right-hand side that an expression is, if it is a normalised one.
pub open spec fn shape_of(e: ExprModel, p: nat) -> Option<ShapeModel> {
    match e {
        ExprModel::Negate(x) => match operand_of(*x, p) {
            Some(x) => Some(ShapeModel::Negated(x)),
            None => None,
        },
        ExprModel::Infix(op, x, y) => match (operand_of(*x, p), operand_of(*y, p)) {
            (Some(x), Some(y)) => if is_gate_operator(op) {
                Some(ShapeModel::Binary(op, x, y))
            } else {
                None
            },
            _ => None,
        },
        _ => match operand_of(e, p) {
            Some(x) => Some(ShapeModel::Leaf(x)),
            None => None,
        },
    }
}

/// A row of the table: up to three wired variables and five selectors,
/// written as the integers that the selectors are congruent to.
pub struct Row {
    pub a: Option<VariableId>,
    pub b: Option<VariableId>,
    pub c: Option<VariableId>,
    pub q_l: int,
    pub q_r: int,
    pub q_o: int,
    pub q_m: int,
    pub q_c: int,
}

/// A row with no wire in use.
pub open spec fn row0(q_c: int) -> Row {
    Row { a: None, b: None, c: None, q_l: 0, q_r: 0, q_o: 0, q_m: 0, q_c }
}

/// A row with one wire in use.
pub open spec fn row1(a: VariableId, q_l: int, q_c: int) -> Row {
    Row { a: Some(a), b: None, c: None, q_l, q_r: 0, q_o: 0, q_m: 0, q_c }
}

/// A row with two wires in use.
pub open spec fn row2(a: VariableId, b: VariableId, q_l: int, q_r: int, q_m: int, q_c: int) -> Row {
    Row { a: Some(a), b: Some(b), c: None, q_l, q_r, q_o: 0, q_m, q_c }
}

/// A row with all three wires in use.
pub open spec fn row3(
    a: VariableId,
    b: VariableId,
    c: VariableId,
    q_l: int,
    q_r: int,
    q_o: int,
    q_m: int,
) -> Row {
    Row { a: Some(a), b: Some(b), c: Some(c), q_l, q_r, q_o, q_m, q_c: 0 }
}

/// The rows for a variable on the left of an operator.
pub open spec fn variable_rows(
    v1: VariableId,
    op: InfixOp,
    x: OperandModel,
    y: OperandModel,
    p: nat,
) -> Result<Row, LowerError> {
    match (op, x, y) {
        (InfixOp::Add, OperandModel::Variable(v2), OperandModel::Variable(v3)) => Ok(
            row3(v1, v2, v3, 1, -1, -1, 0),
        ),
        (InfixOp::Add, OperandModel::Constant(k2), OperandModel::Variable(v3)) => Ok(
            row2(v1, v3, 1, -1, 0, -k2),
        ),
        (InfixOp::Add, OperandModel::Variable(v2), OperandModel::Constant(k3)) => Ok(
            row2(v1, v2, 1, -1, 0, -k3),
        ),
        (InfixOp::Add, OperandModel::Constant(k2), OperandModel::Constant(k3)) => Ok(
            row1(v1, 1, -fadd(k2, k3, p)),
        ),
        (InfixOp::Subtract, OperandModel::Variable(v2), OperandModel::Variable(v3)) => Ok(
            row3(v1, v2, v3, 1, -1, 1, 0),
        ),
        (InfixOp::Subtract, OperandModel::Constant(k2), OperandModel::Variable(v3)) => Ok(
            row2(v1, v3, 1, 1, 0, -k2),
        ),
        (InfixOp::Subtract, OperandModel::Variable(v2), OperandModel::Constant(k3)) => Ok(
            row2(v1, v2, 1, -1, 0, k3 as int),
        ),
        (InfixOp::Subtract, OperandModel::Constant(k2), OperandModel::Constant(k3)) => Ok(
            row1(v1, 1, -fsub(k2, k3, p)),
        ),
        (InfixOp::Multiply, OperandModel::Variable(v2), OperandModel::Variable(v3)) => Ok(
            row3(v2, v3, v1, 0, 0, 1, -1),
        ),
        (InfixOp::Multiply, OperandModel::Constant(k2), OperandModel::Variable(v3)) => Ok(
            row2(v1, v3, 1, -k2, 0, 0),
        ),
        (InfixOp::Multiply, OperandModel::Variable(v2), OperandModel::Constant(k3)) => Ok(
            row2(v1, v2, 1, -k3, 0, 0),
        ),
        (InfixOp::Multiply, OperandModel::Constant(k2), OperandModel::Constant(k3)) => Ok(
            row1(v1, 1, -fmul(k2, k3, p)),
        ),
        (InfixOp::Divide, OperandModel::Variable(v2), OperandModel::Variable(v3)) => Ok(
            row3(v1, v3, v2, 0, 0, -1, 1),
        ),
        (InfixOp::Divide, OperandModel::Constant(k2), OperandModel::Variable(v3)) => Ok(
            row2(v1, v3, 0, 0, 1, -k2),
        ),
        (InfixOp::Divide, OperandModel::Variable(v2), OperandModel::Constant(k3)) => if k3 == 0 {
            Err(LowerError::DivisionByZero)
        } else {
            Ok(row2(v1, v2, 1, -finv(k3, p), 0, 0))
        },
        (InfixOp::Divide, OperandModel::Constant(k2), OperandModel::Constant(k3)) => if k3 == 0 {
            Err(LowerError::DivisionByZero)
        } else {
            Ok(row1(v1, 1, -fdiv(k2, k3, p)))
        },
        (InfixOp::DivideZ, OperandModel::Variable(v2), OperandModel::Variable(v3)) => Ok(
            row3(v1, v3, v2, 0, 0, -1, 1),
        ),
        (InfixOp::DivideZ, OperandModel::Constant(k2), OperandModel::Variable(v3)) => Ok(
            row2(v1, v3, 0, 0, 1, -k2),
        ),
        (InfixOp::DivideZ, OperandModel::Variable(v2), OperandModel::Constant(k3)) => if k3 == 0 {
            Ok(row2(v1, v2, 1, 0, 0, 0))
        } else {
            Ok(row2(v1, v2, 1, -finv(k3, p), 0, 0))
        },
        (InfixOp::DivideZ, OperandModel::Constant(k2), OperandModel::Constant(k3)) => Ok(
            row1(v1, 1, -fdiv_or_zero(k2, k3, p)),
        ),
        _ => Err(LowerError::UnsupportedConstraint),
    }
}

/// The rows for a constant on the left of an operator.
pub open spec fn constant_rows(
    k1: nat,
    op: InfixOp,
    x: OperandModel,
    y: OperandModel,
    p: nat,
) -> Result<Row, LowerError> {
    match (op, x, y) {
        (InfixOp::Add, OperandModel::Variable(v2), OperandModel::Variable(v3)) => Ok(
            row2(v2, v3, 1, 1, 0, -k1),
        ),
        (InfixOp::Add, OperandModel::Constant(k2), OperandModel::Variable(v3)) => Ok(
            row1(v3, 1, k2 - k1),
        ),
        (InfixOp::Add, OperandModel::Variable(v2), OperandModel::Constant(k3)) => Ok(
            row1(v2, 1, k3 - k1),
        ),
        (InfixOp::Add, OperandModel::Constant(k2), OperandModel::Constant(k3)) => Ok(
            row0(k1 - fadd(k2, k3, p)),
        ),
        (InfixOp::Subtract, OperandModel::Variable(v2), OperandModel::Variable(v3)) => Ok(
            row2(v2, v3, 1, -1, 0, -k1),
        ),
        (InfixOp::Subtract, OperandModel::Constant(k2), OperandModel::Variable(v3)) => Ok(
            row1(v3, 1, k1 - k2),
        ),
        (InfixOp::Subtract, OperandModel::Variable(v2), OperandModel::Constant(k3)) => Ok(
            row1(v2, 1, -fadd(k1, k3, p)),
        ),
        (InfixOp::Subtract, OperandModel::Constant(k2), OperandModel::Constant(k3)) => Ok(
            row0(k1 - fsub(k2, k3, p)),
        ),
        (InfixOp::Multiply, OperandModel::Variable(v2), OperandModel::Variable(v3)) => Ok(
            row2(v2, v3, 0, 0, 1, -k1),
        ),
        (InfixOp::Multiply, OperandModel::Constant(k2), OperandModel::Variable(v3)) => Ok(
            row1(v3, k2 as int, -k1),
        ),
        (InfixOp::Multiply, OperandModel::Variable(v2), OperandModel::Constant(k3)) => Ok(
            row1(v2, k3 as int, -k1),
        ),
        (InfixOp::Multiply, OperandModel::Constant(k2), OperandModel::Constant(k3)) => Ok(
            row0(k1 - fmul(k2, k3, p)),
        ),
        (InfixOp::Divide, OperandModel::Variable(v2), OperandModel::Variable(v3)) => Ok(
            row2(v2, v3, 1, -k1, 0, 0),
        ),
        (InfixOp::Divide, OperandModel::Constant(k2), OperandModel::Variable(v3)) => Ok(
            row1(v3, k1 as int, -k2),
        ),
        (InfixOp::Divide, OperandModel::Variable(v2), OperandModel::Constant(k3)) => if k3 == 0 {
            Err(LowerError::DivisionByZero)
        } else {
            Ok(row1(v2, 1, -fmul(k1, k3, p)))
        },
        (InfixOp::Divide, OperandModel::Constant(k2), OperandModel::Constant(k3)) => if k3 == 0 {
            Err(LowerError::DivisionByZero)
        } else {
            Ok(row0(k1 - fdiv(k2, k3, p)))
        },
        (InfixOp::DivideZ, OperandModel::Variable(v2), OperandModel::Variable(v3)) => Ok(
            row2(v2, v3, 1, -k1, 0, 0),
        ),
        (InfixOp::DivideZ, OperandModel::Constant(k2), OperandModel::Variable(v3)) => Ok(
            row1(v3, k1 as int, -k2),
        ),
        (InfixOp::DivideZ, OperandModel::Variable(v2), OperandModel::Constant(k3)) => if k3 == 0 {
            Ok(row0(k1 as int))
        } else {
            Ok(row1(v2, 1, -fmul(k1, k3, p)))
        },
        (InfixOp::DivideZ, OperandModel::Constant(k2), OperandModel::Constant(k3)) => Ok(
            row0(k1 - fdiv_or_zero(k2, k3, p)),
        ),
        _ => Err(LowerError::UnsupportedConstraint),
    }
}

/// The row of the constraint `lhs = rhs`.
///
/// Safe division `|` has rows only where `safe_divide` is set. A strict
/// division by a constant that is zero in the field has none.
pub open spec fn table(lhs: OperandModel, rhs: ShapeModel, p: nat, safe_divide: bool) -> Result<
    Row,
    LowerError,
> {
    match (lhs, rhs) {
        (OperandModel::Variable(v1), ShapeModel::Leaf(OperandModel::Variable(v2))) => Ok(
            row2(v1, v2, 1, -1, 0, 0),
        ),
        (OperandModel::Variable(v1), ShapeModel::Leaf(OperandModel::Constant(k2))) => Ok(
            row1(v1, 1, -k2),
        ),
        (OperandModel::Variable(v1), ShapeModel::Negated(OperandModel::Constant(k2))) => Ok(
            row1(v1, 1, k2 as int),
        ),
        (OperandModel::Variable(v1), ShapeModel::Negated(OperandModel::Variable(v2))) => Ok(
            row2(v1, v2, 1, 1, 0, 0),
        ),
        (OperandModel::Variable(v1), ShapeModel::Binary(op, x, y)) => if op == InfixOp::DivideZ
            && !safe_divide {
            Err(LowerError::UnsupportedConstraint)
        } else {
            variable_rows(v1, op, x, y, p)
        },
        (OperandModel::Constant(k1), ShapeModel::Leaf(OperandModel::Variable(v2))) => Ok(
            row1(v2, 1, -k1),
        ),
        (OperandModel::Constant(k1), ShapeModel::Leaf(OperandModel::Constant(k2))) => Ok(
            row0(k1 - k2),
        ),
        (OperandModel::Constant(k1), ShapeModel::Negated(OperandModel::Constant(k2))) => Ok(
            row0((k1 + k2) as int),
        ),
        (OperandModel::Constant(k1), ShapeModel::Negated(OperandModel::Variable(v2))) => Ok(
            row1(v2, 1, k1 as int),
        ),
        (OperandModel::Constant(k1), ShapeModel::Binary(op, x, y)) => if op == InfixOp::DivideZ
            && !safe_divide {
            Err(LowerError::UnsupportedConstraint)
        } else {
            constant_rows(k1, op, x, y, p)
        },
    }
}

/// A gate: the variables on its three wires, an unused wire being `None`,
/// and its five selectors.
#[derive(Clone, Copy, Debug, PartialEq, Eq)]
pub struct Gate<F> {
    pub a: Option<VariableId>,
    pub b: Option<VariableId>,
    pub c: Option<VariableId>,
    pub q_l: F,
    pub q_r: F,
    pub q_o: F,
    pub q_m: F,
    pub q_c: F,
}

/// A gate, its selectors being representatives.
pub struct GateModel {
    pub a: Option<VariableId>,
    pub b: Option<VariableId>,
    pub c: Option<VariableId>,
    pub q_l: nat,
    pub q_r: nat,
    pub q_o: nat,
    pub q_m: nat,
    pub q_c: nat,
}

impl<F: FieldElement> View for Gate<F> {
    type V = GateModel;

    open spec fn view(&self) -> GateModel {
        GateModel {
            a: self.a,
            b: self.b,
            c: self.c,
            q_l: self.q_l.value(),
            q_r: self.q_r.value(),
            q_o: self.q_o.value(),
            q_m: self.q_m.value(),
            q_c: self.q_c.value(),
        }
    }
}

/// What a row of the table stands for: its selectors reduced.
pub open spec fn gate_of_row(row: Row, p: nat) -> GateModel {
    GateModel {
        a: row.a,
        b: row.b,
        c: row.c,
        q_l: reduce(row.q_l, p),
        q_r: reduce(row.q_r, p),
        q_o: reduce(row.q_o, p),
        q_m: reduce(row.q_m, p),
        q_c: reduce(row.q_c, p),
    }
}

/// What the constraint `lhs = rhs` is lowered to, or why it has no gate.
pub open spec fn lowered(lhs: ExprModel, rhs: ExprModel, p: nat, safe_divide: bool) -> Result<
    GateModel,
    LowerError,
> {
    match (operand_of(lhs, p), shape_of(rhs, p)) {
        (Some(x), Some(s)) => match table(x, s, p, safe_divide) {
            Ok(row) => Ok(gate_of_row(row, p)),
            Err(e) => Err(e),
        },
        _ => Err(LowerError::UnsupportedConstraint),
    }
}

/// Zero and one are their own representatives.
proof fn lemma_units<F: FieldElement>()
    ensures
        F::modulus() > 1,
        reduce(0, F::modulus()) == 0,
        reduce(1, F::modulus()) == 1,
{
    F::lemma_modulus();
    lemma_small_mod(0, F::modulus());
    lemma_small_mod(1, F::modulus());
}

/// The value of an element is its own representative.
proof fn lemma_canonical<F: FieldElement>(k: F)
    ensures
        reduce(k.value() as int, F::modulus()) == k.value(),
{
    k.lemma_value();
    lemma_small_mod(k.value(), F::modulus());
}

/// A gate with no wire in use.
fn gate0<F: FieldElement>(q_c: F) -> (g: Gate<F>)
    ensures
        g@ == (GateModel {
            a: None,
            b: None,
            c: None,
            q_l: 0,
            q_r: 0,
            q_o: 0,
            q_m: 0,
            q_c: q_c.value(),
        }),
{
    let zero = F::zero();
    Gate { a: None, b: None, c: None, q_l: zero, q_r: zero, q_o: zero, q_m: zero, q_c }
}

/// A gate with one wire in use.
fn gate1<F: FieldElement>(a: VariableId, q_l: F, q_c: F) -> (g: Gate<F>)
    ensures
        g@ == (GateModel {
            a: Some(a),
            b: None,
            c: None,
            q_l: q_l.value(),
            q_r: 0,
            q_o: 0,
            q_m: 0,
            q_c: q_c.value(),
        }),
{
    let zero = F::zero();
    Gate { a: Some(a), b: None, c: None, q_l, q_r: zero, q_o: zero, q_m: zero, q_c }
}

/// A gate with two wires in use.
fn gate2<F: FieldElement>(a: VariableId, b: VariableId, q_l: F, q_r: F, q_m: F, q_c: F) -> (g: Gate<
    F,
>)
    ensures
        g@ == (GateModel {
            a: Some(a),
            b: Some(b),
            c: None,
            q_l: q_l.value(),
            q_r: q_r.value(),
            q_o: 0,
            q_m: q_m.value(),
            q_c: q_c.value(),
        }),
{
    Gate { a: Some(a), b: Some(b), c: None, q_l, q_r, q_o: F::zero(), q_m, q_c }
}

/// A gate with all three wires in use.
fn gate3<F: FieldElement>(
    a: VariableId,
    b: VariableId,
    c: VariableId,
    q_l: F,
    q_r: F,
    q_o: F,
    q_m: F,
) -> (g: Gate<F>)
    ensures
        g@ == (GateModel {
            a: Some(a),
            b: Some(b),
            c: Some(c),
            q_l: q_l.value(),
            q_r: q_r.value(),
            q_o: q_o.value(),
            q_m: q_m.value(),
            q_c: 0,
        }),
{
    Gate { a: Some(a), b: Some(b), c: Some(c), q_l, q_r, q_o, q_m, q_c: F::zero() }
}

/// The leaf that `e` is, its constant made a field element.
pub fn operand<F: FieldElement>(e: &TExpr) -> (r: Option<Operand<F>>)
    ensures
        match r {
            Some(x) => operand_of(e@, F::modulus()) == Some(x@),
            None => operand_of(e@, F::modulus()) is None,
        },
{
    match &e.v {
        Expr::Variable(v) => Some(Operand::Variable(v.id)),
        Expr::Constant(c) => Some(Operand::Constant(make_constant(c))),
        _ => None,
    }
}

/// The right-hand side that `e` is, its constants made field elements.
pub fn shape<F: FieldElement>(e: &TExpr) -> (r: Option<Shape<F>>)
    ensures
        match r {
            Some(s) => shape_of(e@, F::modulus()) == Some(s@),
            None => shape_of(e@, F::modulus()) is None,
        },
{
    match &e.v {
        Expr::Negate(x) => match operand(x) {
            Some(x) => Some(Shape::Negated(x)),
            None => None,
        },
        Expr::Infix(op, x, y) => {
            let supported = match op {
                InfixOp::Add => true,
                InfixOp::Subtract => true,
                InfixOp::Multiply => true,
                InfixOp::Divide => true,
                InfixOp::DivideZ => true,
                _ => false,
            };
            match operand(x) {
                Some(x) => match operand(y) {
                    Some(y) => if supported {
                        Some(Shape::Binary(*op, x, y))
                    } else {
                        None
                    },
                    None => None,
                },
                None => None,
            }
        },
        _ => match operand(e) {
            Some(x) => Some(Shape::Leaf(x)),
            None => None,
        },
    }
}

/// Lowers a constraint with a variable on the left of an operator.
fn lower_variable<F: FieldElement>(v1: VariableId, op: InfixOp, x: &Operand<F>, y: &Operand<F>) -> (r:
    Result<Gate<F>, LowerError>)
    ensures
        match r {
            Ok(g) => variable_rows(v1, op, x@, y@, F::modulus()) is Ok && g@ == gate_of_row(
                variable_rows(v1, op, x@, y@, F::modulus())->Ok_0,
                F::modulus(),
            ),
            Err(e) => variable_rows(v1, op, x@, y@, F::modulus()) == Err::<Row, LowerError>(e),
        },
{
    proof {
        lemma_units::<F>();
    }
    let zero = F::zero();
    let one = F::one();
    let minus_one = one.neg();
    match (op, *x, *y) {
        (InfixOp::Add, Operand::Variable(v2), Operand::Variable(v3)) => Ok(
            gate3(v1, v2, v3, one, minus_one, minus_one, zero),
        ),
        (InfixOp::Add, Operand::Constant(k2), Operand::Variable(v3)) => Ok(
            gate2(v1, v3, one, minus_one, zero, k2.neg()),
        ),
        (InfixOp::Add, Operand::Variable(v2), Operand::Constant(k3)) => Ok(
            gate2(v1, v2, one, minus_one, zero, k3.neg()),
        ),
        (InfixOp::Add, Operand::Constant(k2), Operand::Constant(k3)) => Ok(
            gate1(v1, one, k2.add(&k3).neg()),
        ),
        (InfixOp::Subtract, Operand::Variable(v2), Operand::Variable(v3)) => Ok(
            gate3(v1, v2, v3, one, minus_one, one, zero),
        ),
        (InfixOp::Subtract, Operand::Constant(k2), Operand::Variable(v3)) => Ok(
            gate2(v1, v3, one, one, zero, k2.neg()),
        ),
        (InfixOp::Subtract, Operand::Variable(v2), Operand::Constant(k3)) => {
            proof {
                lemma_canonical(k3);
            }
            Ok(gate2(v1, v2, one, minus_one, zero, k3))
        },
        (InfixOp::Subtract, Operand::Constant(k2), Operand::Constant(k3)) => Ok(
            gate1(v1, one, k2.sub(&k3).neg()),
        ),
        (InfixOp::Multiply, Operand::Variable(v2), Operand::Variable(v3)) => Ok(
            gate3(v2, v3, v1, zero, zero, one, minus_one),
        ),
        (InfixOp::Multiply, Operand::Constant(k2), Operand::Variable(v3)) => Ok(
            gate2(v1, v3, one, k2.neg(), zero, zero),
        ),
        (InfixOp::Multiply, Operand::Variable(v2), Operand::Constant(k3)) => Ok(
            gate2(v1, v2, one, k3.neg(), zero, zero),
        ),
        (InfixOp::Multiply, Operand::Constant(k2), Operand::Constant(k3)) => Ok(
            gate1(v1, one, k2.mul(&k3).neg()),
        ),
        (InfixOp::Divide, Operand::Variable(v2), Operand::Variable(v3)) => Ok(
            gate3(v1, v3, v2, zero, zero, minus_one, one),
        ),
        (InfixOp::Divide, Operand::Constant(k2), Operand::Variable(v3)) => Ok(
            gate2(v1, v3, zero, zero, one, k2.neg()),
        ),
        (InfixOp::Divide, Operand::Variable(v2), Operand::Constant(k3)) => match k3.invert() {
            None => Err(LowerError::DivisionByZero),
            Some(inverse) => {
                proof {
                    lemma_finv(k3.value(), inverse.value(), F::modulus());
                }
                Ok(gate2(v1, v2, one, inverse.neg(), zero, zero))
            },
        },
        (InfixOp::Divide, Operand::Constant(k2), Operand::Constant(k3)) => match divide(&k2, &k3) {
            None => Err(LowerError::DivisionByZero),
            Some(q) => Ok(gate1(v1, one, q.neg())),
        },
        (InfixOp::DivideZ, Operand::Variable(v2), Operand::Variable(v3)) => Ok(
            gate3(v1, v3, v2, zero, zero, minus_one, one),
        ),
        (InfixOp::DivideZ, Operand::Constant(k2), Operand::Variable(v3)) => Ok(
            gate2(v1, v3, zero, zero, one, k2.neg()),
        ),
        (InfixOp::DivideZ, Operand::Variable(v2), Operand::Constant(k3)) => match k3.invert() {
            None => Ok(gate2(v1, v2, one, zero, zero, zero)),
            Some(inverse) => {
                proof {
                    lemma_finv(k3.value(), inverse.value(), F::modulus());
                }
                Ok(gate2(v1, v2, one, inverse.neg(), zero, zero))
            },
        },
        (InfixOp::DivideZ, Operand::Constant(k2), Operand::Constant(k3)) => Ok(
            gate1(v1, one, divide_or_zero(&k2, &k3).neg()),
        ),
        _ => Err(LowerError::UnsupportedConstraint),
    }
}

/// Lowers a constraint with a constant on the left of an operator.
fn lower_constant<F: FieldElement>(k1: &F, op: InfixOp, x: &Operand<F>, y: &Operand<F>) -> (r:
    Result<Gate<F>, LowerError>)
    ensures
        match r {
            Ok(g) => constant_rows(k1.value(), op, x@, y@, F::modulus()) is Ok && g@
                == gate_of_row(
                constant_rows(k1.value(), op, x@, y@, F::modulus())->Ok_0,
                F::modulus(),
            ),
            Err(e) => constant_rows(k1.value(), op, x@, y@, F::modulus()) == Err::<Row, LowerError>(
                e,
            ),
        },
{
    proof {
        lemma_units::<F>();
        lemma_canonical(*k1);
    }
    let zero = F::zero();
    let one = F::one();
    let minus_one = one.neg();
    match (op, *x, *y) {
        (InfixOp::Add, Operand::Variable(v2), Operand::Variable(v3)) => Ok(
            gate2(v2, v3, one, one, zero, k1.neg()),
        ),
        (InfixOp::Add, Operand::Constant(k2), Operand::Variable(v3)) => Ok(
            gate1(v3, one, k2.sub(k1)),
        ),
        (InfixOp::Add, Operand::Variable(v2), Operand::Constant(k3)) => Ok(
            gate1(v2, one, k3.sub(k1)),
        ),
        (InfixOp::Add, Operand::Constant(k2), Operand::Constant(k3)) => Ok(
            gate0(k1.sub(&k2.add(&k3))),
        ),
        (InfixOp::Subtract, Operand::Variable(v2), Operand::Variable(v3)) => Ok(
            gate2(v2, v3, one, minus_one, zero, k1.neg()),
        ),
        (InfixOp::Subtract, Operand::Constant(k2), Operand::Variable(v3)) => Ok(
            gate1(v3, one, k1.sub(&k2)),
        ),
        (InfixOp::Subtract, Operand::Variable(v2), Operand::Constant(k3)) => Ok(
            gate1(v2, one, k1.add(&k3).neg()),
        ),
        (InfixOp::Subtract, Operand::Constant(k2), Operand::Constant(k3)) => Ok(
            gate0(k1.sub(&k2.sub(&k3))),
        ),
        (InfixOp::Multiply, Operand::Variable(v2), Operand::Variable(v3)) => Ok(
            gate2(v2, v3, zero, zero, one, k1.neg()),
        ),
        (InfixOp::Multiply, Operand::Constant(k2), Operand::Variable(v3)) => {
            proof {
                lemma_canonical(k2);
            }
            Ok(gate1(v3, k2, k1.neg()))
        },
        (InfixOp::Multiply, Operand::Variable(v2), Operand::Constant(k3)) => {
            proof {
                lemma_canonical(k3);
            }
            Ok(gate1(v2, k3, k1.neg()))
        },
        (InfixOp::Multiply, Operand::Constant(k2), Operand::Constant(k3)) => Ok(
            gate0(k1.sub(&k2.mul(&k3))),
        ),
        (InfixOp::Divide, Operand::Variable(v2), Operand::Variable(v3)) => Ok(
            gate2(v2, v3, one, k1.neg(), zero, zero),
        ),
        (InfixOp::Divide, Operand::Constant(k2), Operand::Variable(v3)) => Ok(
            gate1(v3, *k1, k2.neg()),
        ),
        (InfixOp::Divide, Operand::Variable(v2), Operand::Constant(k3)) => if k3.is_zero() {
            Err(LowerError::DivisionByZero)
        } else {
            Ok(gate1(v2, one, k1.mul(&k3).neg()))
        },
        (InfixOp::Divide, Operand::Constant(k2), Operand::Constant(k3)) => match divide(&k2, &k3) {
            None => Err(LowerError::DivisionByZero),
            Some(q) => Ok(gate0(k1.sub(&q))),
        },
        (InfixOp::DivideZ, Operand::Variable(v2), Operand::Variable(v3)) => Ok(
            gate2(v2, v3, one, k1.neg(), zero, zero),
        ),
        (InfixOp::DivideZ, Operand::Constant(k2), Operand::Variable(v3)) => Ok(
            gate1(v3, *k1, k2.neg()),
        ),
        (InfixOp::DivideZ, Operand::Variable(v2), Operand::Constant(k3)) => if k3.is_zero() {
            Ok(gate0(*k1))
        } else {
            Ok(gate1(v2, one, k1.mul(&k3).neg()))
        },
        (InfixOp::DivideZ, Operand::Constant(k2), Operand::Constant(k3)) => Ok(
            gate0(k1.sub(&divide_or_zero(&k2, &k3))),
        ),
        _ => Err(LowerError::UnsupportedConstraint),
    }
}

/// Lowers `lhs = rhs` to what its row in the table stands for.
pub fn lower<F: FieldElement>(lhs: &Operand<F>, rhs: &Shape<F>, safe_divide: bool) -> (r: Result<
    Gate<F>,
    LowerError,
>)
    ensures
        match r {
            Ok(g) => table(lhs@, rhs@, F::modulus(), safe_divide) is Ok && g@ == gate_of_row(
                table(lhs@, rhs@, F::modulus(), safe_divide)->Ok_0,
                F::modulus(),
            ),
            Err(e) => table(lhs@, rhs@, F::modulus(), safe_divide) == Err::<Row, LowerError>(e),
        },
{
    proof {
        lemma_units::<F>();
    }
    let zero = F::zero();
    let one = F::one();
    let minus_one = one.neg();
    match (*lhs, *rhs) {
        (Operand::Variable(v1), Shape::Leaf(Operand::Variable(v2))) => Ok(
            gate2(v1, v2, one, minus_one, zero, zero),
        ),
        (Operand::Variable(v1), Shape::Leaf(Operand::Constant(k2))) => Ok(
            gate1(v1, one, k2.neg()),
        ),
        (Operand::Variable(v1), Shape::Negated(Operand::Constant(k2))) => {
            proof {
                lemma_canonical(k2);
            }
            Ok(gate1(v1, one, k2))
        },
        (Operand::Variable(v1), Shape::Negated(Operand::Variable(v2))) => Ok(
            gate2(v1, v2, one, one, zero, zero),
        ),
        (Operand::Variable(v1), Shape::Binary(op, x, y)) => {
            if !safe_divide {
                if let InfixOp::DivideZ = op {
                    return Err(LowerError::UnsupportedConstraint);
                }
            }
            lower_variable(v1, op, &x, &y)
        },
        (Operand::Constant(k1), Shape::Leaf(Operand::Variable(v2))) => Ok(gate1(v2, one, k1.neg())),
        (Operand::Constant(k1), Shape::Leaf(Operand::Constant(k2))) => Ok(gate0(k1.sub(&k2))),
        (Operand::Constant(k1), Shape::Negated(Operand::Constant(k2))) => Ok(gate0(k1.add(&k2))),
        (Operand::Constant(k1), Shape::Negated(Operand::Variable(v2))) => {
            proof {
                lemma_canonical(k1);
            }
            Ok(gate1(v2, one, k1))
        },
        (Operand::Constant(k1), Shape::Binary(op, x, y)) => {
            if !safe_divide {
                if let InfixOp::DivideZ = op {
                    return Err(LowerError::UnsupportedConstraint);
                }
            }
            lower_constant(&k1, op, &x, &y)
        },
    }
}

/// What the constraint `lhs = rhs` is lowered to, or why it has no gate.
pub fn lower_constraint<F: FieldElement>(lhs: &TExpr, rhs: &TExpr, safe_divide: bool) -> (r: Result<
    Gate<F>,
    LowerError,
>)
    ensures
        match r {
            Ok(g) => lowered(lhs@, rhs@, F::modulus(), safe_divide) == Ok::<GateModel, LowerError>(
                g@,
            ),
            Err(e) => lowered(lhs@, rhs@, F::modulus(), safe_divide) == Err::<GateModel, LowerError>(
                e,
            ),
        },
{
    let x = match operand::<F>(lhs) {
        Some(x) => x,
        None => {
            return Err(LowerError::UnsupportedConstraint);
        },
    };
    let s = match shape::<F>(rhs) {
        Some(s) => s,
        None => {
            return Err(LowerError::UnsupportedConstraint);
        },
    };
    lower(&x, &s, safe_divide)
}

/// Why a module could not be synthesised: the constraint at `index` has no gate.
#[derive(Clone, Copy, PartialEq, Eq, Structural, Debug)]
pub struct SynthesisError {
    pub index: usize,
    pub kind: LowerError,
}

/// What a top-level expression is lowered to; only an equality has a gate.
pub open spec fn constraint_gate(e: ExprModel, p: nat, safe_divide: bool) -> Result<
    GateModel,
    LowerError,
> {
    match e {
        ExprModel::Infix(InfixOp::Equal, lhs, rhs) => lowered(*lhs, *rhs, p, safe_divide),
        _ => Err(LowerError::UnsupportedConstraint),
    }
}

/// The models of a list of gates.
pub open spec fn gate_models<F: FieldElement>(gates: Seq<Gate<F>>) -> Seq<GateModel> {
    Seq::new(gates.len(), |i: int| gates[i]@)
}

/// Coverage: there is one gate for each constraint, in order, and it is
/// what the constraint is lowered to.
pub open spec fn covers(
    exprs: Seq<ExprModel>,
    gates: Seq<GateModel>,
    p: nat,
    safe_divide: bool,
) -> bool {
    &&& gates.len() == exprs.len()
    &&& forall|i: int|
        0 <= i < exprs.len() ==> constraint_gate(#[trigger] exprs[i], p, safe_divide) == Ok::<
            GateModel,
            LowerError,
        >(gates[i])
}

/// The constraint that `error` names is the first that has no gate, and
/// `error` says why it has none.
pub open spec fn first_failure(
    exprs: Seq<ExprModel>,
    error: SynthesisError,
    p: nat,
    safe_divide: bool,
) -> bool {
    &&& error.index < exprs.len()
    &&& forall|i: int|
        0 <= i < error.index ==> (#[trigger] constraint_gate(exprs[i], p, safe_divide)) is Ok
    &&& constraint_gate(exprs[error.index as int], p, safe_divide) == Err::<GateModel, LowerError>(
        error.kind,
    )
}

/// Lowers a top-level expression, which has to be an equality.
pub fn lower_expression<F: FieldElement>(e: &TExpr, safe_divide: bool) -> (r: Result<
    Gate<F>,
    LowerError,
>)
    ensures
        match r {
            Ok(g) => constraint_gate(e@, F::modulus(), safe_divide) == Ok::<GateModel, LowerError>(
                g@,
            ),
            Err(kind) => constraint_gate(e@, F::modulus(), safe_divide) == Err::<
                GateModel,
                LowerError,
            >(kind),
        },
{
    match &e.v {
        Expr::Infix(op, lhs, rhs) => match op {
            InfixOp::Equal => lower_constraint::<F>(lhs, rhs, safe_divide),
            _ => Err(LowerError::UnsupportedConstraint),
        },
        _ => Err(LowerError::UnsupportedConstraint),
    }
}

/// Lowers every constraint, in order.
///
/// Fails on the first constraint that has no gate, naming it.
pub fn lower_module<F: FieldElement>(exprs: &Vec<TExpr>, safe_divide: bool) -> (r: Result<
    Vec<Gate<F>>,
    SynthesisError,
>)
    ensures
        match r {
            Ok(gates) => covers(
                Seq::new(exprs@.len(), |i: int| exprs@[i]@),
                gate_models(gates@),
                F::modulus(),
                safe_divide,
            ),
            Err(error) => first_failure(
                Seq::new(exprs@.len(), |i: int| exprs@[i]@),
                error,
                F::modulus(),
                safe_divide,
            ),
        },
{
    let ghost models = Seq::new(exprs@.len(), |i: int| exprs@[i]@);
    let mut gates: Vec<Gate<F>> = Vec::new();
    let mut i: usize = 0;
    while i < exprs.len()
        invariant
            i <= exprs.len(),
            models == Seq::new(exprs@.len(), |i: int| exprs@[i]@),
            gates@.len() == i,
            forall|j: int|
                0 <= j < i ==> constraint_gate(#[trigger] models[j], F::modulus(), safe_divide)
                    == Ok::<GateModel, LowerError>(gates@[j]@),
        decreases exprs.len() - i,
    {
        match lower_expression::<F>(&exprs[i], safe_divide) {
            Ok(gate) => {
                gates.push(gate);
            },
            Err(kind) => {
                return Err(SynthesisError { index: i, kind });
            },
        }
        i += 1;
    }
    Ok(gates)
}

/// The variable is on one of the wires.
pub open spec fn on_wire(g: GateModel, v: VariableId) -> bool {
    g.a == Some(v) || g.b == Some(v) || g.c == Some(v)
}

/// The leaf is the variable.
pub open spec fn is_variable(x: OperandModel, v: VariableId) -> bool {
    x == OperandModel::Variable(v)
}

/// The variable is a leaf of the right-hand side.
pub open spec fn in_shape(s: ShapeModel, v: VariableId) -> bool {
    match s {
        ShapeModel::Leaf(x) => is_variable(x, v),
        ShapeModel::Negated(x) => is_variable(x, v),
        ShapeModel::Binary(_, x, y) => is_variable(x, v) || is_variable(y, v),
    }
}

/// The wires of a row hold variables of its constraint and no others.
pub proof fn lemma_row_wires(
    lhs: OperandModel,
    rhs: ShapeModel,
    p: nat,
    safe_divide: bool,
    v: VariableId,
)
    requires
        table(lhs, rhs, p, safe_divide) is Ok,
        on_wire(gate_of_row(table(lhs, rhs, p, safe_divide)->Ok_0, p), v),
    ensures
        is_variable(lhs, v) || in_shape(rhs, v),
{
    match rhs {
        ShapeModel::Binary(op, x, y) => {
            match (lhs, x, y) {
                (OperandModel::Variable(_), OperandModel::Variable(_), OperandModel::Variable(_)) => {},
                (OperandModel::Variable(_), OperandModel::Variable(_), OperandModel::Constant(_)) => {},
                (OperandModel::Variable(_), OperandModel::Constant(_), OperandModel::Variable(_)) => {},
                (OperandModel::Variable(_), OperandModel::Constant(_), OperandModel::Constant(_)) => {},
                (OperandModel::Constant(_), OperandModel::Variable(_), OperandModel::Variable(_)) => {},
                (OperandModel::Constant(_), OperandModel::Variable(_), OperandModel::Constant(_)) => {},
                (OperandModel::Constant(_), OperandModel::Constant(_), OperandModel::Variable(_)) => {},
                (OperandModel::Constant(_), OperandModel::Constant(_), OperandModel::Constant(_)) => {},
            }
        },
        _ => {},
    }
}

/// A leaf that is a variable is among the variables of its expression.
proof fn lemma_leaf_variable(e: ExprModel, p: nat, v: VariableId)
    requires
        operand_of(e, p) is Some,
        is_variable(operand_of(e, p)->0, v),
    ensures
        expr_variables(e).contains(v),
{
    assert(e == ExprModel::Variable(v));
    assert(expr_variables(e)[0] == v);
}

/// What either part of a concatenation holds, the whole holds.
proof fn lemma_concat_contains(s: Seq<VariableId>, t: Seq<VariableId>, v: VariableId)
    requires
        s.contains(v) || t.contains(v),
    ensures
        (s + t).contains(v),
{
    if s.contains(v) {
        let i = s.index_of(v);
        assert((s + t)[i] == v);
    } else {
        let i = t.index_of(v);
        assert((s + t)[s.len() + i] == v);
    }
}

/// The wires of what a constraint is lowered to hold variables that occur
/// in the constraint.
pub proof fn lemma_gate_wires(e: ExprModel, p: nat, safe_divide: bool, v: VariableId)
    requires
        constraint_gate(e, p, safe_divide) is Ok,
        on_wire(constraint_gate(e, p, safe_divide)->Ok_0, v),
    ensures
        expr_variables(e).contains(v),
{
    match e {
        ExprModel::Infix(InfixOp::Equal, lhs, rhs) => {
            let x = operand_of(*lhs, p)->0;
            let s = shape_of(*rhs, p)->0;
            lemma_row_wires(x, s, p, safe_divide, v);
            if is_variable(x, v) {
                lemma_leaf_variable(*lhs, p, v);
            } else {
                match *rhs {
                    ExprModel::Negate(a) => {
                        lemma_leaf_variable(*a, p, v);
                    },
                    ExprModel::Infix(_, a, b) => {
                        if is_variable(operand_of(*a, p)->0, v) {
                            lemma_leaf_variable(*a, p, v);
                        } else {
                            lemma_leaf_variable(*b, p, v);
                        }
                        lemma_concat_contains(expr_variables(*a), expr_variables(*b), v);
                    },
                    _ => {
                        lemma_leaf_variable(*rhs, p, v);
                    },
                }
            }
            lemma_concat_contains(expr_variables(*lhs), expr_variables(*rhs), v);
        },
        _ => {},
    }
}

/// Determinism: what the constraints of a module are lowered to depends on
/// nothing but the constraints. Two lists of gates that cover them are the
/// same list, and two failures name the same constraint for the same reason.
pub proof fn lemma_lowering_deterministic(
    exprs: Seq<ExprModel>,
    one: Seq<GateModel>,
    other: Seq<GateModel>,
    p: nat,
    safe_divide: bool,
)
    requires
        covers(exprs, one, p, safe_divide),
        covers(exprs, other, p, safe_divide),
    ensures
        one == other,
{
    assert(one =~= other) by {
        assert forall|i: int| 0 <= i < one.len() implies one[i] == other[i] by {
            assert(constraint_gate(exprs[i], p, safe_divide) == Ok::<GateModel, LowerError>(one[i]));
        }
    }
}

/// A module that has a first failure has only that one, and is not covered.
pub proof fn lemma_failure_deterministic(
    exprs: Seq<ExprModel>,
    one: SynthesisError,
    other: SynthesisError,
    gates: Seq<GateModel>,
    p: nat,
    safe_divide: bool,
)
    requires
        first_failure(exprs, one, p, safe_divide),
        first_failure(exprs, other, p, safe_divide),
    ensures
        one == other,
        !covers(exprs, gates, p, safe_divide),
{
    if one.index < other.index {
        assert(constraint_gate(exprs[one.index as int], p, safe_divide) is Ok);
    }
    if other.index < one.index {
        assert(constraint_gate(exprs[other.index as int], p, safe_divide) is Ok);
    }
    if covers(exprs, gates, p, safe_divide) {
        assert(constraint_gate(exprs[one.index as int], p, safe_divide) is Ok);
    }
}

} // verus!
