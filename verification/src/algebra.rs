//! What a gate says, what a constraint says, and that the table agrees.
//!
//! The table of [`crate::gate`] is only useful if the row it gives for a
//! constraint holds of every witness that satisfies the constraint. This
//! module states both notions over representatives and proves that
//! agreement, row by row.

use crate::arith::fdiv_or_zero;
use crate::ast::{ExprModel, InfixOp, VariableId};
use crate::field::{
    congruent, fadd, fdiv, fmul, fneg, fsub, is_field, is_quotient, lemma_congruent_add,
    lemma_congruent_mul, lemma_congruent_neg, lemma_congruent_reduce, lemma_congruent_refl,
    lemma_congruent_sym, lemma_congruent_trans, lemma_field_inverse, lemma_reduce, reduce,
};
use crate::gate::{
    gate_of_row, lowered, operand_of, row0, row1, row2, row3, shape_of, table, GateModel,
    OperandModel, Row, ShapeModel,
};
use vstd::arithmetic::div_mod::lemma_small_mod;
use vstd::prelude::*;

verus! {

/// A witness: the value of each variable.
pub type Witness = Map<VariableId, nat>;

/// The value on a wire: that of its variable, and zero on an unused wire.
pub open spec fn wire_value(wire: Option<VariableId>, w: Witness) -> nat {
    match wire {
        Some(v) => w[v],
        None => 0,
    }
}

/// The left side of a gate's equation, as an integer.
pub open spec fn gate_value(g: GateModel, w: Witness) -> int {
    let a = wire_value(g.a, w) as int;
    let b = wire_value(g.b, w) as int;
    let c = wire_value(g.c, w) as int;
    g.q_l * a + g.q_r * b + g.q_m * (a * b) + g.q_o * c + g.q_c
}

/// A gate's equation holds in the field of order `p`.
pub open spec fn gate_holds(g: GateModel, w: Witness, p: nat) -> bool {
    congruent(gate_value(g, w), 0, p)
}

/// The left side of a gate's equation with the row's integers for selectors.
pub open spec fn row_value(row: Row, w: Witness) -> int {
    let a = wire_value(row.a, w) as int;
    let b = wire_value(row.b, w) as int;
    let c = wire_value(row.c, w) as int;
    row.q_l * a + row.q_r * b + row.q_m * (a * b) + row.q_o * c + row.q_c
}

/// The value of a leaf.
pub open spec fn operand_value(x: OperandModel, w: Witness) -> nat {
    match x {
        OperandModel::Variable(v) => w[v],
        OperandModel::Constant(k) => k,
    }
}

/// `x` is the value of the right-hand side `s` in the field of order `p`.
///
/// A strict quotient has a value only for a nonzero divisor; a safe quotient
/// by zero is zero.
pub open spec fn shape_holds(x: nat, s: ShapeModel, w: Witness, p: nat) -> bool {
    match s {
        ShapeModel::Leaf(y) => x == operand_value(y, w),
        ShapeModel::Negated(y) => x == fneg(operand_value(y, w), p),
        ShapeModel::Binary(op, y, z) => {
            let a = operand_value(y, w);
            let b = operand_value(z, w);
            match op {
                InfixOp::Add => x == fadd(a, b, p),
                InfixOp::Subtract => x == fsub(a, b, p),
                InfixOp::Multiply => x == fmul(a, b, p),
                InfixOp::Divide => is_quotient(x, a, b, p),
                InfixOp::DivideZ => if b % p == 0 {
                    x == 0
                } else {
                    is_quotient(x, a, b, p)
                },
                _ => false,
            }
        },
    }
}

/// The constraint `lhs = rhs` holds under the witness `w`.
pub open spec fn constraint_holds(lhs: OperandModel, rhs: ShapeModel, w: Witness, p: nat) -> bool {
    shape_holds(operand_value(lhs, w), rhs, w, p)
}

/// A safe quotient of a nonzero numerator by a variable whose value is zero.
///
/// The constraint then asks for zero, while the row, which is that of the
/// strict quotient, cannot hold.
pub open spec fn degenerate_quotient(s: ShapeModel, w: Witness, p: nat) -> bool {
    match s {
        ShapeModel::Binary(InfixOp::DivideZ, y, OperandModel::Variable(v)) => w[v] % p == 0
            && operand_value(y, w) % p != 0,
        _ => false,
    }
}

/// The constants of a leaf are representatives.
pub open spec fn canonical_operand(x: OperandModel, p: nat) -> bool {
    match x {
        OperandModel::Variable(_) => true,
        OperandModel::Constant(k) => k < p,
    }
}

/// The constants of a right-hand side are representatives.
pub open spec fn canonical_shape(s: ShapeModel, p: nat) -> bool {
    match s {
        ShapeModel::Leaf(y) => canonical_operand(y, p),
        ShapeModel::Negated(y) => canonical_operand(y, p),
        ShapeModel::Binary(_, y, z) => canonical_operand(y, p) && canonical_operand(z, p),
    }
}

/// A gate holds exactly when its row, read with integer selectors, comes
/// to a multiple of `p`.
pub proof fn lemma_row_gate(row: Row, w: Witness, p: nat)
    requires
        p > 0,
    ensures
        gate_holds(gate_of_row(row, p), w, p) <==> congruent(row_value(row, w), 0, p),
{
    let g = gate_of_row(row, p);
    let a = wire_value(row.a, w) as int;
    let b = wire_value(row.b, w) as int;
    let c = wire_value(row.c, w) as int;
    lemma_reduce(row.q_l, p);
    lemma_reduce(row.q_r, p);
    lemma_reduce(row.q_o, p);
    lemma_reduce(row.q_m, p);
    lemma_reduce(row.q_c, p);
    lemma_congruent_refl(a, p);
    lemma_congruent_refl(b, p);
    lemma_congruent_refl(c, p);
    lemma_congruent_refl(a * b, p);
    lemma_congruent_mul(g.q_l as int, row.q_l, a, a, p);
    lemma_congruent_mul(g.q_r as int, row.q_r, b, b, p);
    lemma_congruent_mul(g.q_m as int, row.q_m, a * b, a * b, p);
    lemma_congruent_mul(g.q_o as int, row.q_o, c, c, p);
    lemma_congruent_add(g.q_l * a, row.q_l * a, g.q_r * b, row.q_r * b, p);
    lemma_congruent_add(
        g.q_l * a + g.q_r * b,
        row.q_l * a + row.q_r * b,
        g.q_m * (a * b),
        row.q_m * (a * b),
        p,
    );
    lemma_congruent_add(
        g.q_l * a + g.q_r * b + g.q_m * (a * b),
        row.q_l * a + row.q_r * b + row.q_m * (a * b),
        g.q_o * c,
        row.q_o * c,
        p,
    );
    lemma_congruent_add(
        g.q_l * a + g.q_r * b + g.q_m * (a * b) + g.q_o * c,
        row.q_l * a + row.q_r * b + row.q_m * (a * b) + row.q_o * c,
        g.q_c as int,
        row.q_c,
        p,
    );
    if congruent(row_value(row, w), 0, p) {
        lemma_congruent_trans(gate_value(g, w), row_value(row, w), 0, p);
    }
    if gate_holds(g, w, p) {
        lemma_congruent_sym(gate_value(g, w), row_value(row, w), p);
        lemma_congruent_trans(row_value(row, w), gate_value(g, w), 0, p);
    }
}

/// Zero is a multiple of `p`.
pub(crate) proof fn lemma_zero(p: nat)
    requires
        p > 0,
    ensures
        congruent(0, 0, p),
{
    lemma_small_mod(0, p);
}

/// From `x == reduce(e)`: the difference `x - e` is a multiple of `p`, and so is `e - x`.
proof fn lemma_difference(x: int, e: int, p: nat)
    requires
        p > 0,
        x == reduce(e, p),
    ensures
        congruent(x - e, 0, p),
        congruent(e - x, 0, p),
{
    lemma_reduce(e, p);
    lemma_congruent_sym(x, e, p);
}

/// From `reduce(e1) == reduce(e2)`: the difference is a multiple of `p`.
proof fn lemma_same_residue(e1: int, e2: int, p: nat)
    requires
        p > 0,
        reduce(e1, p) == reduce(e2, p),
    ensures
        congruent(e1 - e2, 0, p),
        congruent(e2 - e1, 0, p),
{
    lemma_congruent_reduce(e1, e2, p);
    lemma_congruent_sym(e1, e2, p);
}

/// The value of a row with no wire in use.
pub(crate) proof fn lemma_row0(q_c: int, w: Witness)
    ensures
        row_value(row0(q_c), w) == q_c,
{
}

/// The value of a row with one wire in use.
pub(crate) proof fn lemma_row1(a: VariableId, q_l: int, q_c: int, w: Witness)
    ensures
        row_value(row1(a, q_l, q_c), w) == q_l * w[a] + q_c,
{
    let x = w[a] as int;
    assert(x * 0 == 0);
    assert(0 * (x * 0) == 0);
}

/// The value of a row with two wires in use.
pub(crate) proof fn lemma_row2(
    a: VariableId,
    b: VariableId,
    q_l: int,
    q_r: int,
    q_m: int,
    q_c: int,
    w: Witness,
)
    ensures
        row_value(row2(a, b, q_l, q_r, q_m, q_c), w) == q_l * w[a] + q_r * w[b] + q_m * (w[a]
            * w[b]) + q_c,
{
}

/// The value of a row with all three wires in use.
pub(crate) proof fn lemma_row3(
    a: VariableId,
    b: VariableId,
    c: VariableId,
    q_l: int,
    q_r: int,
    q_o: int,
    q_m: int,
    w: Witness,
)
    ensures
        row_value(row3(a, b, c, q_l, q_r, q_o, q_m), w) == q_l * w[a] + q_r * w[b] + q_m * (w[a]
            * w[b]) + q_o * w[c],
{
}

/// `(-k) * x` and `k * x` are opposite, and a product does not depend on the order.
pub(crate) proof fn lemma_products(k: int, x: int)
    ensures
        (-k) * x == -(k * x),
        k * x == x * k,
        1 * x == x,
        (-1) * x == -x,
        0 * x == 0,
{
    assert((-k) * x == -(k * x)) by (nonlinear_arith);
    assert(k * x == x * k) by (nonlinear_arith);
}

/// The rows that the table gives without an operator.
proof fn lemma_leaf_rows(lhs: OperandModel, rhs: ShapeModel, w: Witness, p: nat, safe_divide: bool)
    requires
        p > 1,
        !(rhs is Binary),
        table(lhs, rhs, p, safe_divide) is Ok,
        constraint_holds(lhs, rhs, w, p),
    ensures
        congruent(row_value(table(lhs, rhs, p, safe_divide)->Ok_0, w), 0, p),
{
    let row = table(lhs, rhs, p, safe_divide)->Ok_0;
    let x = operand_value(lhs, w) as int;
    lemma_zero(p);
    match (lhs, rhs) {
        (OperandModel::Variable(v1), ShapeModel::Leaf(OperandModel::Variable(v2))) => {
            lemma_row2(v1, v2, 1, -1, 0, 0, w);
        },
        (OperandModel::Variable(v1), ShapeModel::Leaf(OperandModel::Constant(k2))) => {
            lemma_row1(v1, 1, -k2, w);
        },
        (OperandModel::Variable(v1), ShapeModel::Negated(OperandModel::Constant(k2))) => {
            lemma_row1(v1, 1, k2 as int, w);
            lemma_difference(x, -k2, p);
        },
        (OperandModel::Variable(v1), ShapeModel::Negated(OperandModel::Variable(v2))) => {
            lemma_row2(v1, v2, 1, 1, 0, 0, w);
            lemma_difference(x, -w[v2], p);
        },
        (OperandModel::Constant(k1), ShapeModel::Leaf(OperandModel::Variable(v2))) => {
            lemma_row1(v2, 1, -k1, w);
        },
        (OperandModel::Constant(k1), ShapeModel::Leaf(OperandModel::Constant(k2))) => {
            lemma_row0(k1 - k2, w);
        },
        (OperandModel::Constant(k1), ShapeModel::Negated(OperandModel::Constant(k2))) => {
            lemma_row0((k1 + k2) as int, w);
            lemma_difference(x, -k2, p);
        },
        (OperandModel::Constant(k1), ShapeModel::Negated(OperandModel::Variable(v2))) => {
            lemma_row1(v2, 1, k1 as int, w);
            lemma_difference(x, -w[v2], p);
        },
        _ => {},
    }
}

/// The rows of sums.
proof fn lemma_sum_rows(lhs: OperandModel, y: OperandModel, z: OperandModel, w: Witness, p: nat)
    requires
        p > 1,
        constraint_holds(lhs, ShapeModel::Binary(InfixOp::Add, y, z), w, p),
    ensures
        congruent(
            row_value(table(lhs, ShapeModel::Binary(InfixOp::Add, y, z), p, false)->Ok_0, w),
            0,
            p,
        ),
{
    let x = operand_value(lhs, w) as int;
    let a = operand_value(y, w) as int;
    let b = operand_value(z, w) as int;
    lemma_zero(p);
    lemma_difference(x, a + b, p);
    match (lhs, y, z) {
        (OperandModel::Variable(v1), OperandModel::Variable(v2), OperandModel::Variable(v3)) => {
            lemma_row3(v1, v2, v3, 1, -1, -1, 0, w);
        },
        (OperandModel::Variable(v1), OperandModel::Constant(k2), OperandModel::Variable(v3)) => {
            lemma_row2(v1, v3, 1, -1, 0, -k2, w);
        },
        (OperandModel::Variable(v1), OperandModel::Variable(v2), OperandModel::Constant(k3)) => {
            lemma_row2(v1, v2, 1, -1, 0, -k3, w);
        },
        (OperandModel::Variable(v1), OperandModel::Constant(k2), OperandModel::Constant(k3)) => {
            lemma_row1(v1, 1, -fadd(k2, k3, p), w);
        },
        (OperandModel::Constant(k1), OperandModel::Variable(v2), OperandModel::Variable(v3)) => {
            lemma_row2(v2, v3, 1, 1, 0, -k1, w);
        },
        (OperandModel::Constant(k1), OperandModel::Constant(k2), OperandModel::Variable(v3)) => {
            lemma_row1(v3, 1, k2 - k1, w);
        },
        (OperandModel::Constant(k1), OperandModel::Variable(v2), OperandModel::Constant(k3)) => {
            lemma_row1(v2, 1, k3 - k1, w);
        },
        (OperandModel::Constant(k1), OperandModel::Constant(k2), OperandModel::Constant(k3)) => {
            lemma_row0(k1 - fadd(k2, k3, p), w);
        },
    }
}

/// The rows of differences.
proof fn lemma_difference_rows(
    lhs: OperandModel,
    y: OperandModel,
    z: OperandModel,
    w: Witness,
    p: nat,
)
    requires
        p > 1,
        constraint_holds(lhs, ShapeModel::Binary(InfixOp::Subtract, y, z), w, p),
    ensures
        congruent(
            row_value(table(lhs, ShapeModel::Binary(InfixOp::Subtract, y, z), p, false)->Ok_0, w),
            0,
            p,
        ),
{
    let x = operand_value(lhs, w) as int;
    let a = operand_value(y, w) as int;
    let b = operand_value(z, w) as int;
    lemma_zero(p);
    lemma_difference(x, a - b, p);
    match (lhs, y, z) {
        (OperandModel::Variable(v1), OperandModel::Variable(v2), OperandModel::Variable(v3)) => {
            lemma_row3(v1, v2, v3, 1, -1, 1, 0, w);
        },
        (OperandModel::Variable(v1), OperandModel::Constant(k2), OperandModel::Variable(v3)) => {
            lemma_row2(v1, v3, 1, 1, 0, -k2, w);
        },
        (OperandModel::Variable(v1), OperandModel::Variable(v2), OperandModel::Constant(k3)) => {
            lemma_row2(v1, v2, 1, -1, 0, k3 as int, w);
        },
        (OperandModel::Variable(v1), OperandModel::Constant(k2), OperandModel::Constant(k3)) => {
            lemma_row1(v1, 1, -fsub(k2, k3, p), w);
        },
        (OperandModel::Constant(k1), OperandModel::Variable(v2), OperandModel::Variable(v3)) => {
            lemma_row2(v2, v3, 1, -1, 0, -k1, w);
        },
        (OperandModel::Constant(k1), OperandModel::Constant(k2), OperandModel::Variable(v3)) => {
            lemma_row1(v3, 1, k1 - k2, w);
        },
        (OperandModel::Constant(k1), OperandModel::Variable(v2), OperandModel::Constant(k3)) => {
            // the row is a - (k1 + k3), and k1 is congruent to a - k3
            let s = fadd(k1, k3, p) as int;
            lemma_row1(v2, 1, -s, w);
            lemma_reduce((k1 + k3) as int, p);
            lemma_congruent_add(s - (k1 + k3), 0, x - (a - b), 0, p);
            lemma_congruent_neg(s - a, 0, p);
        },
        (OperandModel::Constant(k1), OperandModel::Constant(k2), OperandModel::Constant(k3)) => {
            lemma_row0(k1 - fsub(k2, k3, p), w);
        },
    }
}

/// The rows of products.
proof fn lemma_product_rows(
    lhs: OperandModel,
    y: OperandModel,
    z: OperandModel,
    w: Witness,
    p: nat,
)
    requires
        p > 1,
        constraint_holds(lhs, ShapeModel::Binary(InfixOp::Multiply, y, z), w, p),
    ensures
        congruent(
            row_value(table(lhs, ShapeModel::Binary(InfixOp::Multiply, y, z), p, false)->Ok_0, w),
            0,
            p,
        ),
{
    let x = operand_value(lhs, w) as int;
    let a = operand_value(y, w) as int;
    let b = operand_value(z, w) as int;
    lemma_zero(p);
    lemma_difference(x, a * b, p);
    lemma_products(a, b);
    lemma_products(b, a);
    match (lhs, y, z) {
        (OperandModel::Variable(v1), OperandModel::Variable(v2), OperandModel::Variable(v3)) => {
            lemma_row3(v2, v3, v1, 0, 0, 1, -1, w);
            lemma_products(1, a * b);
        },
        (OperandModel::Variable(v1), OperandModel::Constant(k2), OperandModel::Variable(v3)) => {
            lemma_row2(v1, v3, 1, -k2, 0, 0, w);
        },
        (OperandModel::Variable(v1), OperandModel::Variable(v2), OperandModel::Constant(k3)) => {
            lemma_row2(v1, v2, 1, -k3, 0, 0, w);
        },
        (OperandModel::Variable(v1), OperandModel::Constant(k2), OperandModel::Constant(k3)) => {
            lemma_row1(v1, 1, -fmul(k2, k3, p), w);
        },
        (OperandModel::Constant(k1), OperandModel::Variable(v2), OperandModel::Variable(v3)) => {
            lemma_row2(v2, v3, 0, 0, 1, -k1, w);
            lemma_products(1, a * b);
        },
        (OperandModel::Constant(k1), OperandModel::Constant(k2), OperandModel::Variable(v3)) => {
            lemma_row1(v3, k2 as int, -k1, w);
        },
        (OperandModel::Constant(k1), OperandModel::Variable(v2), OperandModel::Constant(k3)) => {
            lemma_row1(v2, k3 as int, -k1, w);
        },
        (OperandModel::Constant(k1), OperandModel::Constant(k2), OperandModel::Constant(k3)) => {
            lemma_row0(k1 - fmul(k2, k3, p), w);
        },
    }
}

/// The rows of quotients by a variable.
proof fn lemma_variable_divisor_rows(
    lhs: OperandModel,
    op: InfixOp,
    y: OperandModel,
    v3: VariableId,
    w: Witness,
    p: nat,
)
    requires
        p > 1,
        op == InfixOp::Divide || op == InfixOp::DivideZ,
        constraint_holds(lhs, ShapeModel::Binary(op, y, OperandModel::Variable(v3)), w, p),
        !degenerate_quotient(ShapeModel::Binary(op, y, OperandModel::Variable(v3)), w, p),
    ensures
        congruent(
            row_value(
                table(lhs, ShapeModel::Binary(op, y, OperandModel::Variable(v3)), p, true)->Ok_0,
                w,
            ),
            0,
            p,
        ),
{
    let z = OperandModel::Variable(v3);
    let x = operand_value(lhs, w);
    let a = operand_value(y, w);
    let b = w[v3];
    let (xi, ai, bi) = (x as int, a as int, b as int);
    lemma_zero(p);
    lemma_products(xi, bi);
    lemma_products(1, xi * bi);
    // x * b - a is a multiple of p, and so is a - x * b
    if b % p == 0 {
        assert(x == 0 && a % p == 0);
        lemma_congruent_neg(ai, 0, p);
    } else {
        assert(is_quotient(x, a, b, p));
        lemma_reduce(ai, p);
        lemma_same_residue(xi * bi, ai, p);
    }
    assert(congruent(xi * bi - ai, 0, p));
    assert(congruent(ai - xi * bi, 0, p));
    if op == InfixOp::Divide {
        match (lhs, y) {
            (OperandModel::Variable(v1), OperandModel::Variable(v2)) => {
                lemma_row3(v1, v3, v2, 0, 0, -1, 1, w);
            },
            (OperandModel::Variable(v1), OperandModel::Constant(k2)) => {
                lemma_row2(v1, v3, 0, 0, 1, -k2, w);
            },
            (OperandModel::Constant(k1), OperandModel::Variable(v2)) => {
                lemma_row2(v2, v3, 1, -k1, 0, 0, w);
            },
            (OperandModel::Constant(k1), OperandModel::Constant(k2)) => {
                lemma_row1(v3, k1 as int, -k2, w);
            },
        }
    } else {
        match (lhs, y) {
            (OperandModel::Variable(v1), OperandModel::Variable(v2)) => {
                lemma_row3(v1, v3, v2, 0, 0, -1, 1, w);
            },
            (OperandModel::Variable(v1), OperandModel::Constant(k2)) => {
                lemma_row2(v1, v3, 0, 0, 1, -k2, w);
            },
            (OperandModel::Constant(k1), OperandModel::Variable(v2)) => {
                lemma_row2(v2, v3, 1, -k1, 0, 0, w);
            },
            (OperandModel::Constant(k1), OperandModel::Constant(k2)) => {
                lemma_row1(v3, k1 as int, -k2, w);
            },
        }
    }
}

/// The rows of quotients by a constant that is not zero.
proof fn lemma_constant_divisor_rows(
    lhs: OperandModel,
    op: InfixOp,
    y: OperandModel,
    k3: nat,
    w: Witness,
    p: nat,
)
    requires
        is_field(p),
        0 < k3 < p,
        op == InfixOp::Divide || op == InfixOp::DivideZ,
        constraint_holds(lhs, ShapeModel::Binary(op, y, OperandModel::Constant(k3)), w, p),
    ensures
        table(lhs, ShapeModel::Binary(op, y, OperandModel::Constant(k3)), p, true) is Ok,
        congruent(
            row_value(
                table(lhs, ShapeModel::Binary(op, y, OperandModel::Constant(k3)), p, true)->Ok_0,
                w,
            ),
            0,
            p,
        ),
{
    let x = operand_value(lhs, w);
    let a = operand_value(y, w);
    let (xi, ai) = (x as int, a as int);
    lemma_zero(p);
    lemma_small_mod(k3, p);
    assert(is_quotient(x, a, k3, p));
    let r = lemma_field_inverse(k3, p);
    let ri = r as int;
    assert(x == fmul(a, r, p));
    assert(fdiv(a, k3, p) == x);
    assert(fdiv_or_zero(a, k3, p) == x);
    lemma_products(ri, ai);
    // x - a * r is a multiple of p
    lemma_difference(xi, ai * ri, p);
    // a - x * k3 is a multiple of p
    let m = fmul(x, k3, p) as int;
    lemma_reduce(ai, p);
    assert(m == reduce(ai, p));
    lemma_difference(m, ai, p);
    if op == InfixOp::Divide {
        match (lhs, y) {
            (OperandModel::Variable(v1), OperandModel::Variable(v2)) => {
                lemma_row2(v1, v2, 1, -ri, 0, 0, w);
            },
            (OperandModel::Variable(v1), OperandModel::Constant(k2)) => {
                lemma_row1(v1, 1, -xi, w);
            },
            (OperandModel::Constant(k1), OperandModel::Variable(v2)) => {
                lemma_row1(v2, 1, -m, w);
            },
            (OperandModel::Constant(k1), OperandModel::Constant(k2)) => {
                lemma_row0(k1 - xi, w);
            },
        }
    } else {
        match (lhs, y) {
            (OperandModel::Variable(v1), OperandModel::Variable(v2)) => {
                lemma_row2(v1, v2, 1, -ri, 0, 0, w);
            },
            (OperandModel::Variable(v1), OperandModel::Constant(k2)) => {
                lemma_row1(v1, 1, -xi, w);
            },
            (OperandModel::Constant(k1), OperandModel::Variable(v2)) => {
                lemma_row1(v2, 1, -m, w);
            },
            (OperandModel::Constant(k1), OperandModel::Constant(k2)) => {
                lemma_row0(k1 - xi, w);
            },
        }
    }
}

/// The rows of safe quotients by the constant zero.
proof fn lemma_zero_divisor_rows(lhs: OperandModel, y: OperandModel, w: Witness, p: nat)
    requires
        p > 1,
        constraint_holds(
            lhs,
            ShapeModel::Binary(InfixOp::DivideZ, y, OperandModel::Constant(0)),
            w,
            p,
        ),
    ensures
        congruent(
            row_value(
                table(
                    lhs,
                    ShapeModel::Binary(InfixOp::DivideZ, y, OperandModel::Constant(0)),
                    p,
                    true,
                )->Ok_0,
                w,
            ),
            0,
            p,
        ),
{
    let x = operand_value(lhs, w);
    lemma_zero(p);
    lemma_small_mod(0, p);
    assert(x == 0);
    match (lhs, y) {
        (OperandModel::Variable(v1), OperandModel::Variable(v2)) => {
            lemma_row2(v1, v2, 1, 0, 0, 0, w);
        },
        (OperandModel::Variable(v1), OperandModel::Constant(k2)) => {
            lemma_row1(v1, 1, 0, w);
        },
        (OperandModel::Constant(k1), OperandModel::Variable(_)) => {
            lemma_row0(k1 as int, w);
        },
        (OperandModel::Constant(k1), OperandModel::Constant(k2)) => {
            lemma_row0(k1 as int, w);
        },
    }
}

/// The row of a constraint holds of every witness under which the
/// constraint holds.
///
/// `p` is the order of a field and the constants are representatives. One
/// kind of witness is left out: a safe quotient of a nonzero numerator by a
/// variable whose value is zero, for which the row cannot hold.
pub proof fn lemma_row_holds(
    lhs: OperandModel,
    rhs: ShapeModel,
    w: Witness,
    p: nat,
    safe_divide: bool,
)
    requires
        is_field(p),
        canonical_operand(lhs, p),
        canonical_shape(rhs, p),
        table(lhs, rhs, p, safe_divide) is Ok,
        constraint_holds(lhs, rhs, w, p),
        !degenerate_quotient(rhs, w, p),
    ensures
        gate_holds(gate_of_row(table(lhs, rhs, p, safe_divide)->Ok_0, p), w, p),
{
    let row = table(lhs, rhs, p, safe_divide)->Ok_0;
    match rhs {
        ShapeModel::Binary(op, y, z) => {
            if op == InfixOp::Divide || op == InfixOp::DivideZ {
                assert(table(lhs, rhs, p, true) == table(lhs, rhs, p, safe_divide));
                match z {
                    OperandModel::Variable(v3) => {
                        lemma_variable_divisor_rows(lhs, op, y, v3, w, p);
                    },
                    OperandModel::Constant(k3) => {
                        if k3 == 0 {
                            lemma_zero_divisor_rows(lhs, y, w, p);
                        } else {
                            lemma_constant_divisor_rows(lhs, op, y, k3, w, p);
                        }
                    },
                }
            } else {
                assert(table(lhs, rhs, p, false) == table(lhs, rhs, p, safe_divide));
                if op == InfixOp::Add {
                    lemma_sum_rows(lhs, y, z, w, p);
                } else if op == InfixOp::Subtract {
                    lemma_difference_rows(lhs, y, z, w, p);
                } else {
                    lemma_product_rows(lhs, y, z, w, p);
                }
            }
        },
        _ => {
            lemma_leaf_rows(lhs, rhs, w, p, safe_divide);
        },
    }
    lemma_row_gate(row, w, p);
}

/// The constants of a normalised constraint are representatives.
pub proof fn lemma_canonical_leaves(lhs: ExprModel, rhs: ExprModel, p: nat)
    requires
        p > 0,
        operand_of(lhs, p) is Some,
        shape_of(rhs, p) is Some,
    ensures
        canonical_operand(operand_of(lhs, p)->0, p),
        canonical_shape(shape_of(rhs, p)->0, p),
{
    let x = operand_of(lhs, p)->0;
    let s = shape_of(rhs, p)->0;
    assert(canonical_operand(x, p)) by {
        match lhs {
            ExprModel::Constant(c) => {
                lemma_reduce(c, p);
            },
            _ => {},
        }
    }
    assert(canonical_shape(s, p)) by {
        match rhs {
            ExprModel::Constant(c) => {
                lemma_reduce(c, p);
            },
            ExprModel::Negate(e) => {
                match *e {
                    ExprModel::Constant(c) => {
                        lemma_reduce(c, p);
                    },
                    _ => {},
                }
            },
            ExprModel::Infix(_, e1, e2) => {
                match *e1 {
                    ExprModel::Constant(c) => {
                        lemma_reduce(c, p);
                    },
                    _ => {},
                }
                match *e2 {
                    ExprModel::Constant(c) => {
                        lemma_reduce(c, p);
                    },
                    _ => {},
                }
            },
            _ => {},
        }
    }
}

/// Gate algebra: what a constraint is lowered to holds of every
/// witness under which the constraint holds.
///
/// `p` is the order of a field. One kind of witness is left out: a safe
/// quotient of a nonzero numerator by a variable whose value is zero.
pub proof fn lemma_gate_algebra(
    lhs: ExprModel,
    rhs: ExprModel,
    w: Witness,
    p: nat,
    safe_divide: bool,
)
    requires
        is_field(p),
        lowered(lhs, rhs, p, safe_divide) is Ok,
        constraint_holds(operand_of(lhs, p)->0, shape_of(rhs, p)->0, w, p),
        !degenerate_quotient(shape_of(rhs, p)->0, w, p),
    ensures
        gate_holds(lowered(lhs, rhs, p, safe_divide)->Ok_0, w, p),
{
    lemma_canonical_leaves(lhs, rhs, p);
    lemma_row_holds(operand_of(lhs, p)->0, shape_of(rhs, p)->0, w, p, safe_divide);
}

} // verus!
