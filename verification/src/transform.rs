//! The variables of a module.
//!
//! A circuit has one witness entry for each variable that its module
//! mentions anywhere: in a constraint, in a definition or in the list of
//! public variables. They are collected once, in the order in which they are
//! first met.

use crate::ast::{Expr, ExprModel, Module, ModuleModel, Pat, PatModel, TExpr, TPat, VariableId};
use std::collections::HashSet;
use vstd::prelude::*;

verus! {

/// The variables of an expression, from the left, with repetitions.
pub open spec fn expr_variables(e: ExprModel) -> Seq<VariableId>
    decreases e,
{
    match e {
        ExprModel::Unit => seq![],
        ExprModel::Constant(_) => seq![],
        ExprModel::Variable(v) => seq![v],
        ExprModel::Negate(a) => expr_variables(*a),
        ExprModel::Product(a, b) => expr_variables(*a) + expr_variables(*b),
        ExprModel::Infix(_, a, b) => expr_variables(*a) + expr_variables(*b),
    }
}

/// The variables of a pattern, from the left, with repetitions.
pub open spec fn pat_variables(p: PatModel) -> Seq<VariableId>
    decreases p,
{
    match p {
        PatModel::Unit => seq![],
        PatModel::Constant(_) => seq![],
        PatModel::Variable(v) => seq![v],
        PatModel::Product(a, b) => pat_variables(*a) + pat_variables(*b),
    }
}

/// The variables of the first `n` constraints.
pub open spec fn constraint_variables(exprs: Seq<ExprModel>, n: nat) -> Seq<VariableId>
    decreases n,
{
    if n == 0 {
        seq![]
    } else {
        constraint_variables(exprs, (n - 1) as nat) + expr_variables(exprs[n - 1])
    }
}

/// The variables of the first `n` definitions, pattern before expression.
pub open spec fn definition_variables(defs: Seq<(PatModel, ExprModel)>, n: nat) -> Seq<VariableId>
    decreases n,
{
    if n == 0 {
        seq![]
    } else {
        definition_variables(defs, (n - 1) as nat) + pat_variables(defs[n - 1].0) + expr_variables(
            defs[n - 1].1,
        )
    }
}

/// Every occurrence of a variable in the module: constraints first, then
/// definitions, then the public variables.
pub open spec fn occurrences(m: ModuleModel) -> Seq<VariableId> {
    constraint_variables(m.exprs, m.exprs.len()) + definition_variables(m.defs, m.defs.len())
        + m.pubs
}

/// `acc` followed by the elements of `s` that are new, each once, in the
/// order in which they are first met.
pub open spec fn extend(acc: Seq<VariableId>, s: Seq<VariableId>) -> Seq<VariableId>
    decreases s.len(),
{
    if s.len() == 0 {
        acc
    } else if acc.contains(s[0]) {
        extend(acc, s.drop_first())
    } else {
        extend(acc.push(s[0]), s.drop_first())
    }
}

/// The variables of a module: each once, in the order in which it is first met.
pub open spec fn module_variables(m: ModuleModel) -> Seq<VariableId> {
    extend(seq![], occurrences(m))
}

/// Extending by a concatenation is extending by its parts in turn.
pub proof fn lemma_extend_concat(acc: Seq<VariableId>, s: Seq<VariableId>, t: Seq<VariableId>)
    ensures
        extend(acc, s + t) == extend(extend(acc, s), t),
    decreases s.len(),
{
    if s.len() == 0 {
        assert(s + t =~= t);
    } else {
        assert((s + t).drop_first() =~= s.drop_first() + t);
        assert((s + t)[0] == s[0]);
        if acc.contains(s[0]) {
            lemma_extend_concat(acc, s.drop_first(), t);
        } else {
            lemma_extend_concat(acc.push(s[0]), s.drop_first(), t);
        }
    }
}

/// Extending keeps what was there, adds exactly the elements of `s`, and
/// repeats nothing.
pub proof fn lemma_extend(acc: Seq<VariableId>, s: Seq<VariableId>)
    requires
        acc.no_duplicates(),
    ensures
        extend(acc, s).no_duplicates(),
        acc.len() <= extend(acc, s).len(),
        extend(acc, s).take(acc.len() as int) == acc,
        forall|v: VariableId| extend(acc, s).contains(v) <==> acc.contains(v) || s.contains(v),
    decreases s.len(),
{
    if s.len() > 0 {
        let rest = s.drop_first();
        let next = if acc.contains(s[0]) {
            acc
        } else {
            acc.push(s[0])
        };
        assert(next.no_duplicates());
        lemma_extend(next, rest);
        assert(extend(acc, s).take(acc.len() as int) == acc) by {
            assert(extend(acc, s).take(next.len() as int).take(acc.len() as int) == extend(
                acc,
                s,
            ).take(acc.len() as int));
            assert(next.take(acc.len() as int) == acc);
        }
        assert forall|v: VariableId| extend(acc, s).contains(v) <==> acc.contains(v) || s.contains(
            v,
        ) by {
            if s.contains(v) {
                let i = choose|i: int| 0 <= i < s.len() && s[i] == v;
                if i > 0 {
                    assert(rest[i - 1] == v);
                } else {
                    assert(next.contains(v)) by {
                        if !acc.contains(v) {
                            assert(next[acc.len() as int] == v);
                        }
                    }
                }
            }
            if rest.contains(v) {
                let i = choose|i: int| 0 <= i < rest.len() && rest[i] == v;
                assert(s[i + 1] == v);
            }
            if acc.contains(v) {
                let i = choose|i: int| 0 <= i < acc.len() && acc[i] == v;
                assert(next[i] == v);
            }
            if next.contains(v) && !acc.contains(v) {
                let i = choose|i: int| 0 <= i < next.len() && next[i] == v;
                assert(v == s[0]);
            }
        }
    } else {
        assert(acc.take(acc.len() as int) == acc);
    }
}

/// The variables of a module are distinct.
pub proof fn lemma_module_variables_distinct(m: ModuleModel)
    ensures
        module_variables(m).no_duplicates(),
        forall|v: VariableId| module_variables(m).contains(v) <==> occurrences(m).contains(v),
{
    lemma_extend(seq![], occurrences(m));
}

/// A variable of one of the first `n` constraints is among their variables.
proof fn lemma_constraint_prefix(exprs: Seq<ExprModel>, n: nat, i: int, v: VariableId)
    requires
        0 <= i < n <= exprs.len(),
        expr_variables(exprs[i]).contains(v),
    ensures
        constraint_variables(exprs, n).contains(v),
    decreases n,
{
    let before = constraint_variables(exprs, (n - 1) as nat);
    let last = expr_variables(exprs[n - 1]);
    if i < n - 1 {
        lemma_constraint_prefix(exprs, (n - 1) as nat, i, v);
        let j = before.index_of(v);
        assert((before + last)[j] == v);
    } else {
        let j = last.index_of(v);
        assert((before + last)[before.len() + j] == v);
    }
}

/// A variable that occurs in a constraint is a variable of the module.
pub proof fn lemma_constraint_variable(m: ModuleModel, i: int, v: VariableId)
    requires
        0 <= i < m.exprs.len(),
        expr_variables(m.exprs[i]).contains(v),
    ensures
        module_variables(m).contains(v),
{
    lemma_constraint_prefix(m.exprs, m.exprs.len(), i, v);
    let first = constraint_variables(m.exprs, m.exprs.len());
    let j = first.index_of(v);
    assert(occurrences(m)[j] == v);
    lemma_module_variables_distinct(m);
}

/// A public variable is a variable of the module.
pub proof fn lemma_public_variable(m: ModuleModel, i: int)
    requires
        0 <= i < m.pubs.len(),
    ensures
        module_variables(m).contains(m.pubs[i]),
{
    let before = constraint_variables(m.exprs, m.exprs.len()) + definition_variables(
        m.defs,
        m.defs.len(),
    );
    assert(occurrences(m)[before.len() + i] == m.pubs[i]);
    lemma_module_variables_distinct(m);
}

/// Adds `v` to `out` unless `seen` holds it.
fn note_variable(v: VariableId, out: &mut Vec<VariableId>, seen: &mut HashSet<VariableId>)
    requires
        old(seen)@ == old(out)@.to_set(),
    ensures
        final(seen)@ == final(out)@.to_set(),
        final(out)@ == extend(old(out)@, seq![v]),
{
    let ghost before = out@;
    proof {
        assert(seq![v].drop_first() =~= Seq::<VariableId>::empty());
        reveal_with_fuel(extend, 2);
    }
    if !seen.contains(&v) {
        seen.insert(v);
        out.push(v);
        proof {
            assert(!before.contains(v));
            assert(out@.to_set() =~= before.to_set().insert(v)) by {
                assert forall|u: VariableId| out@.to_set().contains(u) <==> before.to_set().insert(
                    v,
                ).contains(u) by {
                    if out@.contains(u) {
                        let i = choose|i: int| 0 <= i < out@.len() && out@[i] == u;
                        if i < before.len() {
                            assert(before[i] == u);
                        }
                    }
                    if before.contains(u) {
                        let i = choose|i: int| 0 <= i < before.len() && before[i] == u;
                        assert(out@[i] == u);
                    }
                    if u == v {
                        assert(out@[before.len() as int] == u);
                    }
                }
            }
        }
    } else {
        assert(before.contains(v));
    }
}

/// Adds to `out` the variables of `e` that `seen` does not hold.
fn note_expr(e: &TExpr, out: &mut Vec<VariableId>, seen: &mut HashSet<VariableId>)
    requires
        old(seen)@ == old(out)@.to_set(),
    ensures
        final(seen)@ == final(out)@.to_set(),
        final(out)@ == extend(old(out)@, expr_variables(e@)),
    decreases e,
{
    match &e.v {
        Expr::Unit => {},
        Expr::Constant(_) => {},
        Expr::Variable(v) => {
            note_variable(v.id, out, seen);
        },
        Expr::Negate(a) => {
            note_expr(a, out, seen);
        },
        Expr::Product(a, b) => {
            note_expr(a, out, seen);
            note_expr(b, out, seen);
            proof {
                lemma_extend_concat(old(out)@, expr_variables(a@), expr_variables(b@));
            }
        },
        Expr::Infix(_, a, b) => {
            note_expr(a, out, seen);
            note_expr(b, out, seen);
            proof {
                lemma_extend_concat(old(out)@, expr_variables(a@), expr_variables(b@));
            }
        },
    }
}

/// Adds to `out` the variables of `p` that `seen` does not hold.
fn note_pat(p: &TPat, out: &mut Vec<VariableId>, seen: &mut HashSet<VariableId>)
    requires
        old(seen)@ == old(out)@.to_set(),
    ensures
        final(seen)@ == final(out)@.to_set(),
        final(out)@ == extend(old(out)@, pat_variables(p@)),
    decreases p,
{
    match &p.v {
        Pat::Unit => {},
        Pat::Constant(_) => {},
        Pat::Variable(v) => {
            note_variable(v.id, out, seen);
        },
        Pat::Product(a, b) => {
            note_pat(a, out, seen);
            note_pat(b, out, seen);
            proof {
                lemma_extend_concat(old(out)@, pat_variables(a@), pat_variables(b@));
            }
        },
    }
}

/// The variables of the module: each once, in the order in which it is
/// first met in the constraints, the definitions and the public variables.
pub fn collect_module_variables(module: &Module) -> (variables: Vec<VariableId>)
    ensures
        variables@ == module_variables(module@),
        variables@.no_duplicates(),
        forall|v: VariableId| variables@.contains(v) <==> occurrences(module@).contains(v),
{
    let mut out: Vec<VariableId> = Vec::new();
    let mut seen: HashSet<VariableId> = HashSet::new();
    let ghost m = module@;
    assert(out@.to_set() =~= Set::<VariableId>::empty());
    let mut i: usize = 0;
    while i < module.exprs.len()
        invariant
            i <= module.exprs.len(),
            m == module@,
            seen@ == out@.to_set(),
            out@ == extend(seq![], constraint_variables(m.exprs, i as nat)),
        decreases module.exprs.len() - i,
    {
        note_expr(&module.exprs[i], &mut out, &mut seen);
        proof {
            lemma_extend_concat(
                seq![],
                constraint_variables(m.exprs, i as nat),
                expr_variables(m.exprs[i as int]),
            );
        }
        i += 1;
    }
    let ghost first = constraint_variables(m.exprs, m.exprs.len());
    let mut j: usize = 0;
    proof {
        assert(first + definition_variables(m.defs, 0) =~= first);
    }
    while j < module.defs.len()
        invariant
            j <= module.defs.len(),
            m == module@,
            first == constraint_variables(m.exprs, m.exprs.len()),
            seen@ == out@.to_set(),
            out@ == extend(seq![], first + definition_variables(m.defs, j as nat)),
        decreases module.defs.len() - j,
    {
        let ghost before = out@;
        note_pat(&module.defs[j].0.0, &mut out, &mut seen);
        let ghost middle = out@;
        note_expr(&module.defs[j].0.1, &mut out, &mut seen);
        proof {
            let done = first + definition_variables(m.defs, j as nat);
            let pv = pat_variables(m.defs[j as int].0);
            let ev = expr_variables(m.defs[j as int].1);
            lemma_extend_concat(seq![], done, pv);
            lemma_extend_concat(seq![], done + pv, ev);
            assert(first + definition_variables(m.defs, (j + 1) as nat) =~= done + pv + ev);
        }
        j += 1;
    }
    let ghost second = first + definition_variables(m.defs, m.defs.len());
    let mut k: usize = 0;
    proof {
        assert(second + m.pubs.take(0) =~= second);
    }
    while k < module.pubs.len()
        invariant
            k <= module.pubs.len(),
            m == module@,
            second == constraint_variables(m.exprs, m.exprs.len()) + definition_variables(
                m.defs,
                m.defs.len(),
            ),
            seen@ == out@.to_set(),
            out@ == extend(seq![], second + m.pubs.take(k as int)),
        decreases module.pubs.len() - k,
    {
        note_variable(module.pubs[k].id, &mut out, &mut seen);
        proof {
            let done = second + m.pubs.take(k as int);
            lemma_extend_concat(seq![], done, seq![m.pubs[k as int]]);
            assert(second + m.pubs.take(k + 1) =~= done + seq![m.pubs[k as int]]);
        }
        k += 1;
    }
    proof {
        assert(m.pubs.take(m.pubs.len() as int) =~= m.pubs);
        lemma_extend(seq![], occurrences(m));
    }
    out
}

} // verus!
