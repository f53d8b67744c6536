//! From definitions to satisfied gates.
//!
//! A constraint `v = e` that repeats the definition of `v` holds of every
//! witness in which the variables have the values they evaluate to, and so
//! does what it is lowered to. This module proves that chain.

use crate::algebra::{
    constraint_holds, degenerate_quotient, gate_holds, lemma_gate_algebra, operand_value, Witness,
};
use crate::ast::{ExprModel, InfixOp, ModuleModel, VariableId};
use crate::circuit::{definitions_of, lemma_population, population};
use crate::eval::{
    canonical_inputs, evaluation, lemma_constant, lemma_evaluation_canonical, lemma_negation,
    lemma_operation, lemma_witness_validity, EvalError,
};
use crate::field::{is_field, lemma_field_inverse, lemma_quotient_by_inverse, lemma_reduce};
use crate::gate::{constraint_gate, lowered, operand_of, shape_of};
use crate::transform::{expr_variables, lemma_constraint_variable, module_variables};
use vstd::arithmetic::div_mod::lemma_small_mod;
use vstd::prelude::*;

verus! {

/// In the witness, every variable of `e` has the representative that it
/// evaluates to.
pub open spec fn evaluated(
    w: Witness,
    e: ExprModel,
    defs: Map<VariableId, ExprModel>,
    inputs: Map<VariableId, nat>,
    p: nat,
    safe_divide: bool,
) -> bool {
    forall|u: VariableId| #[trigger]
        expr_variables(e).contains(u) ==> w[u] < p && evaluation(
            ExprModel::Variable(u),
            defs,
            inputs,
            p,
            safe_divide,
        ) == Ok::<nat, EvalError>(w[u])
}

/// A leaf comes to its value in the witness.
proof fn lemma_leaf(
    e: ExprModel,
    w: Witness,
    defs: Map<VariableId, ExprModel>,
    inputs: Map<VariableId, nat>,
    p: nat,
    safe_divide: bool,
)
    requires
        p > 0,
        operand_of(e, p) is Some,
        evaluated(w, e, defs, inputs, p, safe_divide),
    ensures
        evaluation(e, defs, inputs, p, safe_divide) == Ok::<nat, EvalError>(
            operand_value(operand_of(e, p)->0, w),
        ),
        operand_value(operand_of(e, p)->0, w) < p,
{
    match e {
        ExprModel::Constant(c) => {
            lemma_constant(c, defs, inputs, p, safe_divide);
            lemma_reduce(c, p);
        },
        ExprModel::Variable(u) => {
            assert(expr_variables(e)[0] == u);
            assert(expr_variables(e).contains(u));
        },
        _ => {},
    }
}

/// The variables of a part are variables of the whole.
proof fn lemma_parts(
    w: Witness,
    a: ExprModel,
    b: ExprModel,
    defs: Map<VariableId, ExprModel>,
    inputs: Map<VariableId, nat>,
    p: nat,
    safe_divide: bool,
)
    requires
        forall|u: VariableId| #[trigger]
            (expr_variables(a) + expr_variables(b)).contains(u) ==> w[u] < p && evaluation(
                ExprModel::Variable(u),
                defs,
                inputs,
                p,
                safe_divide,
            ) == Ok::<nat, EvalError>(w[u]),
    ensures
        evaluated(w, a, defs, inputs, p, safe_divide),
        evaluated(w, b, defs, inputs, p, safe_divide),
{
    let whole = expr_variables(a) + expr_variables(b);
    assert forall|u: VariableId| #[trigger] expr_variables(a).contains(u) implies whole.contains(
        u,
    ) by {
        let i = expr_variables(a).index_of(u);
        assert(whole[i] == u);
    }
    assert forall|u: VariableId| #[trigger] expr_variables(b).contains(u) implies whole.contains(
        u,
    ) by {
        let i = expr_variables(b).index_of(u);
        assert(whole[expr_variables(a).len() + i] == u);
    }
}

/// Witness validity for constraints: a constraint `v = e` whose right side
/// is the definition of `v` holds of a witness in which `v` and the
/// variables of `e` have the values they evaluate to.
///
/// `p` is the order of a field and `v` is not an input.
pub proof fn lemma_definition_holds(
    v: VariableId,
    w: Witness,
    defs: Map<VariableId, ExprModel>,
    inputs: Map<VariableId, nat>,
    p: nat,
    safe_divide: bool,
)
    requires
        is_field(p),
        defs.contains_key(v),
        !inputs.contains_key(v),
        lowered(ExprModel::Variable(v), defs[v], p, safe_divide) is Ok,
        evaluation(ExprModel::Variable(v), defs, inputs, p, safe_divide) == Ok::<nat, EvalError>(
            w[v],
        ),
        evaluated(w, defs[v], defs, inputs, p, safe_divide),
    ensures
        constraint_holds(
            operand_of(ExprModel::Variable(v), p)->0,
            shape_of(defs[v], p)->0,
            w,
            p,
        ),
{
    let rhs = defs[v];
    lemma_witness_validity(v, defs, inputs, p, safe_divide);
    match rhs {
        ExprModel::Negate(a) => {
            assert(expr_variables(rhs) == expr_variables(*a));
            lemma_leaf(*a, w, defs, inputs, p, safe_divide);
            lemma_negation(
                *a,
                operand_value(operand_of(*a, p)->0, w),
                defs,
                inputs,
                p,
                safe_divide,
            );
        },
        ExprModel::Infix(op, a, b) => {
            assert(expr_variables(rhs) == expr_variables(*a) + expr_variables(*b));
            lemma_parts(w, *a, *b, defs, inputs, p, safe_divide);
            lemma_leaf(*a, w, defs, inputs, p, safe_divide);
            lemma_leaf(*b, w, defs, inputs, p, safe_divide);
            let x = operand_value(operand_of(*a, p)->0, w);
            let y = operand_value(operand_of(*b, p)->0, w);
            lemma_operation(op, *a, x, *b, y, defs, inputs, p, safe_divide);
            lemma_small_mod(y, p);
            if (op == InfixOp::Divide || op == InfixOp::DivideZ) && y != 0 {
                let r = lemma_field_inverse(y, p);
                lemma_quotient_by_inverse(x, y, r, p);
            }
        },
        _ => {
            lemma_leaf(rhs, w, defs, inputs, p, safe_divide);
        },
    }
}

/// What a constraint `v = e` that repeats the definition of `v` is lowered
/// to holds of a witness in which `v` and the variables of `e` have the
/// values they evaluate to.
///
/// `p` is the order of a field and `v` is not an input. One kind of witness
/// is left out: a safe quotient of a nonzero numerator by a variable whose
/// value is zero.
pub proof fn lemma_defined_gate_holds(
    v: VariableId,
    w: Witness,
    defs: Map<VariableId, ExprModel>,
    inputs: Map<VariableId, nat>,
    p: nat,
    safe_divide: bool,
)
    requires
        is_field(p),
        defs.contains_key(v),
        !inputs.contains_key(v),
        lowered(ExprModel::Variable(v), defs[v], p, safe_divide) is Ok,
        evaluation(ExprModel::Variable(v), defs, inputs, p, safe_divide) == Ok::<nat, EvalError>(
            w[v],
        ),
        evaluated(w, defs[v], defs, inputs, p, safe_divide),
        !degenerate_quotient(shape_of(defs[v], p)->0, w, p),
    ensures
        gate_holds(lowered(ExprModel::Variable(v), defs[v], p, safe_divide)->Ok_0, w, p),
{
    lemma_definition_holds(v, w, defs, inputs, p, safe_divide);
    lemma_gate_algebra(ExprModel::Variable(v), defs[v], w, p, safe_divide);
}

/// After population, what a constraint `v = e` that repeats the definition
/// of `v` is lowered to holds of the witness.
///
/// `p` is the order of a field, the inputs are representatives and `v` is
/// not among them. One kind of witness is left out: a safe quotient of a
/// nonzero numerator by a variable whose value is zero.
pub proof fn lemma_populated_gate_holds(
    m: ModuleModel,
    i: int,
    v: VariableId,
    w: Witness,
    inputs: Map<VariableId, nat>,
    p: nat,
    safe_divide: bool,
)
    requires
        is_field(p),
        canonical_inputs(inputs, p),
        population(
            module_variables(m),
            module_variables(m).len(),
            definitions_of(m.defs, m.defs.len()),
            inputs,
            p,
            safe_divide,
        ) == Ok::<Witness, EvalError>(w),
        0 <= i < m.exprs.len(),
        definitions_of(m.defs, m.defs.len()).contains_key(v),
        !inputs.contains_key(v),
        m.exprs[i] == ExprModel::Infix(
            InfixOp::Equal,
            Box::new(ExprModel::Variable(v)),
            Box::new(definitions_of(m.defs, m.defs.len())[v]),
        ),
        constraint_gate(m.exprs[i], p, safe_divide) is Ok,
        !degenerate_quotient(shape_of(definitions_of(m.defs, m.defs.len())[v], p)->0, w, p),
    ensures
        gate_holds(constraint_gate(m.exprs[i], p, safe_divide)->Ok_0, w, p),
{
    let defs = definitions_of(m.defs, m.defs.len());
    let rhs = defs[v];
    let variables = module_variables(m);
    lemma_population(variables, variables.len(), defs, inputs, p, safe_divide);
    assert forall|u: VariableId| #[trigger] expr_variables(m.exprs[i]).contains(u) implies w[u] < p
        && evaluation(ExprModel::Variable(u), defs, inputs, p, safe_divide) == Ok::<
        nat,
        EvalError,
    >(w[u]) by {
        lemma_constraint_variable(m, i, u);
        let j = variables.index_of(u);
        assert(w.contains_key(variables[j]));
        lemma_evaluation_canonical(ExprModel::Variable(u), defs, inputs, p, safe_divide);
    }
    assert(expr_variables(m.exprs[i]) == expr_variables(ExprModel::Variable(v)) + expr_variables(
        rhs,
    ));
    lemma_parts(w, ExprModel::Variable(v), rhs, defs, inputs, p, safe_divide);
    assert(expr_variables(ExprModel::Variable(v))[0] == v);
    assert(expr_variables(ExprModel::Variable(v)).contains(v));
    lemma_defined_gate_holds(v, w, defs, inputs, p, safe_divide);
}

} // verus!
