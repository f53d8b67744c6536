//! A gate admits no witness that breaks its constraint.
//!
//! [`crate::algebra`] shows that a witness of a constraint satisfies what
//! the constraint is lowered to. This module shows the converse: a witness
//! that satisfies such a gate satisfies the constraint, as long as its
//! values are representatives and no variable that divides is zero.

use crate::algebra::{
    constraint_holds, gate_holds, lemma_products, lemma_row0, lemma_row1, lemma_row2, lemma_row3,
    lemma_row_gate, lemma_zero, operand_value, row_value, Witness,
};
use crate::arith::fdiv_or_zero;
use crate::ast::{ExprModel, InfixOp, VariableId};
use crate::field::{
    congruent, fadd, fdiv, fmul, fsub, is_field, is_quotient, lemma_congruent_add,
    lemma_congruent_neg, lemma_congruent_reduce, lemma_field_inverse, lemma_quotient_by_inverse,
    lemma_reduce, reduce,
};
use crate::gate::{gate_of_row, lowered, operand_of, shape_of, table, OperandModel, ShapeModel};
use vstd::arithmetic::div_mod::lemma_small_mod;
use vstd::prelude::*;

verus! {

/// The value of the leaf is a representative.
pub open spec fn bounded_operand(x: OperandModel, w: Witness, p: nat) -> bool {
    operand_value(x, w) < p
}

/// The values of the leaves of the right-hand side are representatives.
pub open spec fn bounded_shape(s: ShapeModel, w: Witness, p: nat) -> bool {
    match s {
        ShapeModel::Leaf(y) => bounded_operand(y, w, p),
        ShapeModel::Negated(y) => bounded_operand(y, w, p),
        ShapeModel::Binary(_, y, z) => bounded_operand(y, w, p) && bounded_operand(z, w, p),
    }
}

/// A quotient, strict or safe, by a variable whose value is zero.
///
/// The row of such a quotient says only that the numerator is zero, which
/// is less than the constraint says.
pub open spec fn zero_divisor(s: ShapeModel, w: Witness, p: nat) -> bool {
    match s {
        ShapeModel::Binary(op, _, OperandModel::Variable(v)) => (op == InfixOp::Divide || op
            == InfixOp::DivideZ) && w[v] % p == 0,
        _ => false,
    }
}

/// A representative that differs from `e` by a multiple of `p` is the
/// representative of `e`.
proof fn lemma_pinned(x: nat, e: int, value: int, p: nat)
    requires
        p > 0,
        x < p,
        congruent(value, 0, p),
        value == x - e || value == e - x,
    ensures
        x == reduce(e, p),
{
    if value == e - x {
        lemma_congruent_neg(value, 0, p);
    }
    lemma_congruent_reduce(x as int, e, p);
    lemma_small_mod(x, p);
}

/// The rows without an operator hold of witnesses of their constraints only.
proof fn lemma_leaf_rows(lhs: OperandModel, rhs: ShapeModel, w: Witness, p: nat, safe_divide: bool)
    requires
        p > 1,
        bounded_operand(lhs, w, p),
        bounded_shape(rhs, w, p),
        !(rhs is Binary),
        table(lhs, rhs, p, safe_divide) is Ok,
        congruent(row_value(table(lhs, rhs, p, safe_divide)->Ok_0, w), 0, p),
    ensures
        constraint_holds(lhs, rhs, w, p),
{
    let row = table(lhs, rhs, p, safe_divide)->Ok_0;
    let x = operand_value(lhs, w);
    match (lhs, rhs) {
        (OperandModel::Variable(v1), ShapeModel::Leaf(OperandModel::Variable(v2))) => {
            lemma_row2(v1, v2, 1, -1, 0, 0, w);
            lemma_pinned(x, w[v2] as int, row_value(row, w), p);
            lemma_small_mod(w[v2], p);
        },
        (OperandModel::Variable(v1), ShapeModel::Leaf(OperandModel::Constant(k2))) => {
            lemma_row1(v1, 1, -k2, w);
            lemma_pinned(x, k2 as int, row_value(row, w), p);
            lemma_small_mod(k2, p);
        },
        (OperandModel::Variable(v1), ShapeModel::Negated(OperandModel::Constant(k2))) => {
            lemma_row1(v1, 1, k2 as int, w);
            lemma_pinned(x, -k2, row_value(row, w), p);
        },
        (OperandModel::Variable(v1), ShapeModel::Negated(OperandModel::Variable(v2))) => {
            lemma_row2(v1, v2, 1, 1, 0, 0, w);
            lemma_pinned(x, -w[v2], row_value(row, w), p);
        },
        (OperandModel::Constant(k1), ShapeModel::Leaf(OperandModel::Variable(v2))) => {
            lemma_row1(v2, 1, -k1, w);
            lemma_pinned(x, w[v2] as int, row_value(row, w), p);
            lemma_small_mod(w[v2], p);
        },
        (OperandModel::Constant(k1), ShapeModel::Leaf(OperandModel::Constant(k2))) => {
            lemma_row0(k1 - k2, w);
            lemma_pinned(x, k2 as int, row_value(row, w), p);
            lemma_small_mod(k2, p);
        },
        (OperandModel::Constant(k1), ShapeModel::Negated(OperandModel::Constant(k2))) => {
            lemma_row0((k1 + k2) as int, w);
            lemma_pinned(x, -k2, row_value(row, w), p);
        },
        (OperandModel::Constant(k1), ShapeModel::Negated(OperandModel::Variable(v2))) => {
            lemma_row1(v2, 1, k1 as int, w);
            lemma_pinned(x, -w[v2], row_value(row, w), p);
        },
        _ => {},
    }
}

/// The rows of sums hold of witnesses of their constraints only.
proof fn lemma_sum_rows(lhs: OperandModel, y: OperandModel, z: OperandModel, w: Witness, p: nat)
    requires
        p > 1,
        bounded_operand(lhs, w, p),
        congruent(
            row_value(table(lhs, ShapeModel::Binary(InfixOp::Add, y, z), p, false)->Ok_0, w),
            0,
            p,
        ),
    ensures
        constraint_holds(lhs, ShapeModel::Binary(InfixOp::Add, y, z), w, p),
{
    let row = table(lhs, ShapeModel::Binary(InfixOp::Add, y, z), p, false)->Ok_0;
    let x = operand_value(lhs, w);
    let a = operand_value(y, w) as int;
    let b = operand_value(z, w) as int;
    match (lhs, y, z) {
        (OperandModel::Variable(v1), OperandModel::Variable(v2), OperandModel::Variable(v3)) => {
            lemma_row3(v1, v2, v3, 1, -1, -1, 0, w);
        },
        (OperandModel::Variable(v1), OperandModel::Constant(k2), OperandModel::Variable(v3)) => {
            lemma_row2(v1, v3, 1, -1, 0, -k2, w);
        },
        (OperandModel::Variable(v1), OperandModel::Variable(v2), OperandModel::Constant(k3)) => {
            lemma_row2(v1, v2, 1, -1, 0, -k3, w);
        },
        (OperandModel::Variable(v1), OperandModel::Constant(k2), OperandModel::Constant(k3)) => {
            lemma_row1(v1, 1, -fadd(k2, k3, p), w);
            lemma_reduce(a + b, p);
            lemma_congruent_add(row_value(row, w), 0, fadd(k2, k3, p) - (a + b), 0, p);
        },
        (OperandModel::Constant(k1), OperandModel::Variable(v2), OperandModel::Variable(v3)) => {
            lemma_row2(v2, v3, 1, 1, 0, -k1, w);
        },
        (OperandModel::Constant(k1), OperandModel::Constant(k2), OperandModel::Variable(v3)) => {
            lemma_row1(v3, 1, k2 - k1, w);
        },
        (OperandModel::Constant(k1), OperandModel::Variable(v2), OperandModel::Constant(k3)) => {
            lemma_row1(v2, 1, k3 - k1, w);
        },
        (OperandModel::Constant(k1), OperandModel::Constant(k2), OperandModel::Constant(k3)) => {
            lemma_row0(k1 - fadd(k2, k3, p), w);
            lemma_reduce(a + b, p);
            lemma_congruent_add(row_value(row, w), 0, fadd(k2, k3, p) - (a + b), 0, p);
        },
    }
    let value = if lhs is Variable && y is Constant && z is Constant || lhs is Constant
        && y is Constant && z is Constant {
        row_value(row, w) + (fadd(a as nat, b as nat, p) - (a + b))
    } else {
        row_value(row, w)
    };
    lemma_pinned(x, a + b, value, p);
}

/// The rows of differences hold of witnesses of their constraints only.
proof fn lemma_difference_rows(
    lhs: OperandModel,
    y: OperandModel,
    z: OperandModel,
    w: Witness,
    p: nat,
)
    requires
        p > 1,
        bounded_operand(lhs, w, p),
        congruent(
            row_value(table(lhs, ShapeModel::Binary(InfixOp::Subtract, y, z), p, false)->Ok_0, w),
            0,
            p,
        ),
    ensures
        constraint_holds(lhs, ShapeModel::Binary(InfixOp::Subtract, y, z), w, p),
{
    let row = table(lhs, ShapeModel::Binary(InfixOp::Subtract, y, z), p, false)->Ok_0;
    let x = operand_value(lhs, w);
    let a = operand_value(y, w) as int;
    let b = operand_value(z, w) as int;
    let mut value = row_value(row, w);
    match (lhs, y, z) {
        (OperandModel::Variable(v1), OperandModel::Variable(v2), OperandModel::Variable(v3)) => {
            lemma_row3(v1, v2, v3, 1, -1, 1, 0, w);
        },
        (OperandModel::Variable(v1), OperandModel::Constant(k2), OperandModel::Variable(v3)) => {
            lemma_row2(v1, v3, 1, 1, 0, -k2, w);
        },
        (OperandModel::Variable(v1), OperandModel::Variable(v2), OperandModel::Constant(k3)) => {
            lemma_row2(v1, v2, 1, -1, 0, k3 as int, w);
        },
        (OperandModel::Variable(v1), OperandModel::Constant(k2), OperandModel::Constant(k3)) => {
            lemma_row1(v1, 1, -fsub(k2, k3, p), w);
            lemma_reduce(a - b, p);
            lemma_congruent_add(row_value(row, w), 0, fsub(k2, k3, p) - (a - b), 0, p);
            value = row_value(row, w) + (fsub(k2, k3, p) - (a - b));
        },
        (OperandModel::Constant(k1), OperandModel::Variable(v2), OperandModel::Variable(v3)) => {
            lemma_row2(v2, v3, 1, -1, 0, -k1, w);
        },
        (OperandModel::Constant(k1), OperandModel::Constant(k2), OperandModel::Variable(v3)) => {
            lemma_row1(v3, 1, k1 - k2, w);
        },
        (OperandModel::Constant(k1), OperandModel::Variable(v2), OperandModel::Constant(k3)) => {
            // the row is a - (k1 + k3) with the sum reduced
            let s = fadd(k1, k3, p) as int;
            lemma_row1(v2, 1, -s, w);
            lemma_reduce((k1 + k3) as int, p);
            lemma_congruent_add(row_value(row, w), 0, s - (k1 + k3), 0, p);
            value = row_value(row, w) + (s - (k1 + k3));
        },
        (OperandModel::Constant(k1), OperandModel::Constant(k2), OperandModel::Constant(k3)) => {
            lemma_row0(k1 - fsub(k2, k3, p), w);
            lemma_reduce(a - b, p);
            lemma_congruent_add(row_value(row, w), 0, fsub(k2, k3, p) - (a - b), 0, p);
            value = row_value(row, w) + (fsub(k2, k3, p) - (a - b));
        },
    }
    lemma_pinned(x, a - b, value, p);
}

/// The rows of products hold of witnesses of their constraints only.
proof fn lemma_product_rows(
    lhs: OperandModel,
    y: OperandModel,
    z: OperandModel,
    w: Witness,
    p: nat,
)
    requires
        p > 1,
        bounded_operand(lhs, w, p),
        congruent(
            row_value(table(lhs, ShapeModel::Binary(InfixOp::Multiply, y, z), p, false)->Ok_0, w),
            0,
            p,
        ),
    ensures
        constraint_holds(lhs, ShapeModel::Binary(InfixOp::Multiply, y, z), w, p),
{
    let row = table(lhs, ShapeModel::Binary(InfixOp::Multiply, y, z), p, false)->Ok_0;
    let x = operand_value(lhs, w);
    let a = operand_value(y, w) as int;
    let b = operand_value(z, w) as int;
    let mut value = row_value(row, w);
    lemma_products(a, b);
    lemma_products(b, a);
    lemma_products(1, a * b);
    match (lhs, y, z) {
        (OperandModel::Variable(v1), OperandModel::Variable(v2), OperandModel::Variable(v3)) => {
            lemma_row3(v2, v3, v1, 0, 0, 1, -1, w);
        },
        (OperandModel::Variable(v1), OperandModel::Constant(k2), OperandModel::Variable(v3)) => {
            lemma_row2(v1, v3, 1, -k2, 0, 0, w);
        },
        (OperandModel::Variable(v1), OperandModel::Variable(v2), OperandModel::Constant(k3)) => {
            lemma_row2(v1, v2, 1, -k3, 0, 0, w);
        },
        (OperandModel::Variable(v1), OperandModel::Constant(k2), OperandModel::Constant(k3)) => {
            lemma_row1(v1, 1, -fmul(k2, k3, p), w);
            lemma_reduce(a * b, p);
            lemma_congruent_add(row_value(row, w), 0, fmul(k2, k3, p) - a * b, 0, p);
            value = row_value(row, w) + (fmul(k2, k3, p) - a * b);
        },
        (OperandModel::Constant(k1), OperandModel::Variable(v2), OperandModel::Variable(v3)) => {
            lemma_row2(v2, v3, 0, 0, 1, -k1, w);
        },
        (OperandModel::Constant(k1), OperandModel::Constant(k2), OperandModel::Variable(v3)) => {
            lemma_row1(v3, k2 as int, -k1, w);
        },
        (OperandModel::Constant(k1), OperandModel::Variable(v2), OperandModel::Constant(k3)) => {
            lemma_row1(v2, k3 as int, -k1, w);
        },
        (OperandModel::Constant(k1), OperandModel::Constant(k2), OperandModel::Constant(k3)) => {
            lemma_row0(k1 - fmul(k2, k3, p), w);
            lemma_reduce(a * b, p);
            lemma_congruent_add(row_value(row, w), 0, fmul(k2, k3, p) - a * b, 0, p);
            value = row_value(row, w) + (fmul(k2, k3, p) - a * b);
        },
    }
    lemma_pinned(x, a * b, value, p);
}

/// The rows of quotients by a variable that is not zero hold of witnesses
/// of their constraints only.
proof fn lemma_variable_divisor_rows(
    lhs: OperandModel,
    op: InfixOp,
    y: OperandModel,
    v3: VariableId,
    w: Witness,
    p: nat,
)
    requires
        p > 1,
        bounded_operand(lhs, w, p),
        op == InfixOp::Divide || op == InfixOp::DivideZ,
        w[v3] % p != 0,
        congruent(
            row_value(
                table(lhs, ShapeModel::Binary(op, y, OperandModel::Variable(v3)), p, true)->Ok_0,
                w,
            ),
            0,
            p,
        ),
    ensures
        constraint_holds(lhs, ShapeModel::Binary(op, y, OperandModel::Variable(v3)), w, p),
{
    let row = table(lhs, ShapeModel::Binary(op, y, OperandModel::Variable(v3)), p, true)->Ok_0;
    let x = operand_value(lhs, w);
    let a = operand_value(y, w);
    let b = w[v3];
    let (xi, ai, bi) = (x as int, a as int, b as int);
    lemma_products(xi, bi);
    lemma_products(1, xi * bi);
    if op == InfixOp::Divide {
        match (lhs, y) {
            (OperandModel::Variable(v1), OperandModel::Variable(v2)) => {
                lemma_row3(v1, v3, v2, 0, 0, -1, 1, w);
            },
            (OperandModel::Variable(v1), OperandModel::Constant(k2)) => {
                lemma_row2(v1, v3, 0, 0, 1, -k2, w);
            },
            (OperandModel::Constant(k1), OperandModel::Variable(v2)) => {
                lemma_row2(v2, v3, 1, -k1, 0, 0, w);
            },
            (OperandModel::Constant(k1), OperandModel::Constant(k2)) => {
                lemma_row1(v3, k1 as int, -k2, w);
            },
        }
    } else {
        match (lhs, y) {
            (OperandModel::Variable(v1), OperandModel::Variable(v2)) => {
                lemma_row3(v1, v3, v2, 0, 0, -1, 1, w);
            },
            (OperandModel::Variable(v1), OperandModel::Constant(k2)) => {
                lemma_row2(v1, v3, 0, 0, 1, -k2, w);
            },
            (OperandModel::Constant(k1), OperandModel::Variable(v2)) => {
                lemma_row2(v2, v3, 1, -k1, 0, 0, w);
            },
            (OperandModel::Constant(k1), OperandModel::Constant(k2)) => {
                lemma_row1(v3, k1 as int, -k2, w);
            },
        }
    }
    let value = row_value(row, w);
    assert(value == xi * bi - ai || value == ai - xi * bi);
    if value == ai - xi * bi {
        lemma_congruent_neg(value, 0, p);
    }
    lemma_congruent_reduce(xi * bi, ai, p);
    assert(is_quotient(x, a, b, p));
}

/// The rows of quotients by a constant that is not zero hold of witnesses
/// of their constraints only.
proof fn lemma_constant_divisor_rows(
    lhs: OperandModel,
    op: InfixOp,
    y: OperandModel,
    k3: nat,
    w: Witness,
    p: nat,
)
    requires
        is_field(p),
        bounded_operand(lhs, w, p),
        bounded_operand(y, w, p),
        0 < k3 < p,
        op == InfixOp::Divide || op == InfixOp::DivideZ,
        congruent(
            row_value(
                table(lhs, ShapeModel::Binary(op, y, OperandModel::Constant(k3)), p, true)->Ok_0,
                w,
            ),
            0,
            p,
        ),
    ensures
        constraint_holds(lhs, ShapeModel::Binary(op, y, OperandModel::Constant(k3)), w, p),
{
    let row = table(lhs, ShapeModel::Binary(op, y, OperandModel::Constant(k3)), p, true)->Ok_0;
    let x = operand_value(lhs, w);
    let a = operand_value(y, w);
    let (xi, ai) = (x as int, a as int);
    lemma_small_mod(k3, p);
    lemma_small_mod(a, p);
    let r = lemma_field_inverse(k3, p);
    let ri = r as int;
    let q = fmul(a, r, p);
    lemma_quotient_by_inverse(a, k3, r, p);
    assert(fdiv(a, k3, p) == q && fdiv_or_zero(a, k3, p) == q);
    lemma_products(ri, ai);
    lemma_reduce(ai * ri, p);
    lemma_reduce(xi * k3, p);
    let m = fmul(x, k3, p) as int;
    let value = row_value(row, w);
    if op == InfixOp::Divide {
        match (lhs, y) {
            (OperandModel::Variable(v1), OperandModel::Variable(v2)) => {
                lemma_row2(v1, v2, 1, -ri, 0, 0, w);
                lemma_pinned(x, ai * ri, value, p);
            },
            (OperandModel::Variable(v1), OperandModel::Constant(k2)) => {
                lemma_row1(v1, 1, -(q as int), w);
                lemma_pinned(x, q as int, value, p);
                lemma_small_mod(q, p);
            },
            (OperandModel::Constant(k1), OperandModel::Variable(v2)) => {
                lemma_row1(v2, 1, -m, w);
                lemma_pinned(a, m, value, p);
                lemma_small_mod(m as nat, p);
                assert(is_quotient(x, a, k3, p));
            },
            (OperandModel::Constant(k1), OperandModel::Constant(k2)) => {
                lemma_row0(k1 - q, w);
                lemma_pinned(x, q as int, value, p);
                lemma_small_mod(q, p);
            },
        }
    } else {
        match (lhs, y) {
            (OperandModel::Variable(v1), OperandModel::Variable(v2)) => {
                lemma_row2(v1, v2, 1, -ri, 0, 0, w);
                lemma_pinned(x, ai * ri, value, p);
            },
            (OperandModel::Variable(v1), OperandModel::Constant(k2)) => {
                lemma_row1(v1, 1, -(q as int), w);
                lemma_pinned(x, q as int, value, p);
                lemma_small_mod(q, p);
            },
            (OperandModel::Constant(k1), OperandModel::Variable(v2)) => {
                lemma_row1(v2, 1, -m, w);
                lemma_pinned(a, m, value, p);
                lemma_small_mod(m as nat, p);
                assert(is_quotient(x, a, k3, p));
            },
            (OperandModel::Constant(k1), OperandModel::Constant(k2)) => {
                lemma_row0(k1 - q, w);
                lemma_pinned(x, q as int, value, p);
                lemma_small_mod(q, p);
            },
        }
    }
    assert(is_quotient(x, a, k3, p));
}

/// The rows of safe quotients by the constant zero hold of witnesses of
/// their constraints only.
proof fn lemma_zero_divisor_rows(lhs: OperandModel, y: OperandModel, w: Witness, p: nat)
    requires
        p > 1,
        bounded_operand(lhs, w, p),
        congruent(
            row_value(
                table(
                    lhs,
                    ShapeModel::Binary(InfixOp::DivideZ, y, OperandModel::Constant(0)),
                    p,
                    true,
                )->Ok_0,
                w,
            ),
            0,
            p,
        ),
    ensures
        constraint_holds(
            lhs,
            ShapeModel::Binary(InfixOp::DivideZ, y, OperandModel::Constant(0)),
            w,
            p,
        ),
{
    let row = table(
        lhs,
        ShapeModel::Binary(InfixOp::DivideZ, y, OperandModel::Constant(0)),
        p,
        true,
    )->Ok_0;
    let x = operand_value(lhs, w);
    lemma_small_mod(0, p);
    match (lhs, y) {
        (OperandModel::Variable(v1), OperandModel::Variable(v2)) => {
            lemma_row2(v1, v2, 1, 0, 0, 0, w);
        },
        (OperandModel::Variable(v1), OperandModel::Constant(k2)) => {
            lemma_row1(v1, 1, 0, w);
        },
        (OperandModel::Constant(k1), OperandModel::Variable(_)) => {
            lemma_row0(k1 as int, w);
        },
        (OperandModel::Constant(k1), OperandModel::Constant(k2)) => {
            lemma_row0(k1 as int, w);
        },
    }
    lemma_pinned(x, 0, row_value(row, w), p);
}

/// The row of a constraint holds of no witness that breaks the constraint.
///
/// `p` is the order of a field and the leaves of the constraint have
/// representatives for values. One
/// kind of witness is left out: one in which a variable that divides is
/// zero, for which the row says less than the constraint.
pub proof fn lemma_row_exact(
    lhs: OperandModel,
    rhs: ShapeModel,
    w: Witness,
    p: nat,
    safe_divide: bool,
)
    requires
        is_field(p),
        bounded_operand(lhs, w, p),
        bounded_shape(rhs, w, p),
        table(lhs, rhs, p, safe_divide) is Ok,
        gate_holds(gate_of_row(table(lhs, rhs, p, safe_divide)->Ok_0, p), w, p),
        !zero_divisor(rhs, w, p),
    ensures
        constraint_holds(lhs, rhs, w, p),
{
    let row = table(lhs, rhs, p, safe_divide)->Ok_0;
    lemma_row_gate(row, w, p);
    lemma_zero(p);
    match rhs {
        ShapeModel::Binary(op, y, z) => {
            if op == InfixOp::Divide || op == InfixOp::DivideZ {
                assert(table(lhs, rhs, p, true) == table(lhs, rhs, p, safe_divide));
                match z {
                    OperandModel::Variable(v3) => {
                        lemma_variable_divisor_rows(lhs, op, y, v3, w, p);
                    },
                    OperandModel::Constant(k3) => {
                        if k3 == 0 {
                            lemma_zero_divisor_rows(lhs, y, w, p);
                        } else {
                            lemma_constant_divisor_rows(lhs, op, y, k3, w, p);
                        }
                    },
                }
            } else {
                assert(table(lhs, rhs, p, false) == table(lhs, rhs, p, safe_divide));
                if op == InfixOp::Add {
                    lemma_sum_rows(lhs, y, z, w, p);
                } else if op == InfixOp::Subtract {
                    lemma_difference_rows(lhs, y, z, w, p);
                } else {
                    lemma_product_rows(lhs, y, z, w, p);
                }
            }
        },
        _ => {
            lemma_leaf_rows(lhs, rhs, w, p, safe_divide);
        },
    }
}

/// What a constraint is lowered to holds of no witness that breaks the
/// constraint.
///
/// `p` is the order of a field and the leaves of the constraint have
/// representatives for values. One kind of witness is left out: one in
/// which a variable that divides is zero.
pub proof fn lemma_gate_exact(
    lhs: ExprModel,
    rhs: ExprModel,
    w: Witness,
    p: nat,
    safe_divide: bool,
)
    requires
        is_field(p),
        lowered(lhs, rhs, p, safe_divide) is Ok,
        bounded_operand(operand_of(lhs, p)->0, w, p),
        bounded_shape(shape_of(rhs, p)->0, w, p),
        gate_holds(lowered(lhs, rhs, p, safe_divide)->Ok_0, w, p),
        !zero_divisor(shape_of(rhs, p)->0, w, p),
    ensures
        constraint_holds(operand_of(lhs, p)->0, shape_of(rhs, p)->0, w, p),
{
    lemma_row_exact(operand_of(lhs, p)->0, shape_of(rhs, p)->0, w, p, safe_divide);
}

} // verus!
