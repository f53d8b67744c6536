//! What the two backends' circuit modules have in common: the witness map,
//! its population from inputs and definitions, and circuit sizes.

use crate::ast::{Definition, ExprModel, Module, Pat, PatModel, TExpr, VariableId};
use crate::eval::{
    defs_model, denote, evaluate, evaluation, lemma_found, outcome, remembered, settles, values,
    EvalError,
};
use crate::field::FieldElement;
use crate::transform::{collect_module_variables, module_variables};
use std::collections::{HashMap, HashSet};
use vstd::prelude::*;

verus! {

/// `2^n`.
pub open spec fn exp2(n: nat) -> nat
    decreases n,
{
    if n == 0 {
        1
    } else {
        2 * exp2((n - 1) as nat)
    }
}

/// `k` is the least exponent with `2^k >= n`.
pub open spec fn is_size_exponent(k: nat, n: nat) -> bool {
    exp2(k) >= n && (k == 0 || exp2((k - 1) as nat) < n)
}

/// The least `k` with `2^k >= n`, and that power of two.
pub fn size_exponent(n: u64) -> (r: (u32, u128))
    ensures
        is_size_exponent(r.0 as nat, n as nat),
        r.1 == exp2(r.0 as nat),
        r.0 <= 66,
{
    wide_size_exponent(n as u128)
}

/// The least `k` with `2^k >= n`, and that power of two, for sizes that are
/// sums of lengths.
pub(crate) fn wide_size_exponent(n: u128) -> (r: (u32, u128))
    requires
        n <= 0x4_0000_0000_0000_0000,
    ensures
        is_size_exponent(r.0 as nat, n as nat),
        r.1 == exp2(r.0 as nat),
        r.0 <= 66,
{
    let mut k: u32 = 0;
    let mut size: u128 = 1;
    while size < n
        invariant
            n <= 0x4_0000_0000_0000_0000,
            size == exp2(k as nat),
            k <= 66,
            k == 0 || exp2((k - 1) as nat) < n,
            k == 66 ==> size >= 0x4_0000_0000_0000_0000,
        decreases 66 - k,
    {
        proof {
            assert(exp2((k + 1) as nat) == 2 * exp2(k as nat));
            if k == 65 {
                assert(size * 2 >= 0x4_0000_0000_0000_0000) by {
                    assert(exp2(66) == 0x4_0000_0000_0000_0000) by {
                        reveal_with_fuel(exp2, 67);
                    }
                    assert(exp2(66) == 2 * exp2(65));
                }
            }
        }
        size = size * 2;
        k = k + 1;
    }
    (k, size)
}

/// A greater exponent gives a power of two that is no less.
pub proof fn lemma_exp2_monotonic(a: nat, b: nat)
    requires
        a <= b,
    ensures
        exp2(a) <= exp2(b),
    decreases b,
{
    if a < b {
        lemma_exp2_monotonic(a, (b - 1) as nat);
    }
}

/// There is one size exponent for a size.
pub proof fn lemma_size_exponent_unique(k1: nat, k2: nat, n: nat)
    requires
        is_size_exponent(k1, n),
        is_size_exponent(k2, n),
    ensures
        k1 == k2,
{
    if k1 < k2 {
        lemma_exp2_monotonic(k1, (k2 - 1) as nat);
    }
    if k2 < k1 {
        lemma_exp2_monotonic(k2, (k1 - 1) as nat);
    }
}

/// Whether the witness has an entry for each of the variables and for
/// nothing else.
pub(crate) fn covers_variables<F>(witness: &HashMap<VariableId, Option<F>>, variables: &Vec<VariableId>) -> (ok:
    bool)
    requires
        variables@.no_duplicates(),
    ensures
        ok == (witness@.dom() == variables@.to_set()),
{
    let ghost vars = variables@;
    proof {
        vars.unique_seq_to_set();
    }
    if witness.len() != variables.len() {
        return false;
    }
    let mut i: usize = 0;
    while i < variables.len()
        invariant
            i <= variables.len(),
            vars == variables@,
            forall|j: int| 0 <= j < i ==> witness@.contains_key(#[trigger] vars[j]),
        decreases variables.len() - i,
    {
        if !witness.contains_key(&variables[i]) {
            assert(vars.to_set().contains(vars[i as int]));
            return false;
        }
        i += 1;
    }
    proof {
        assert(vars.to_set().subset_of(witness@.dom())) by {
            assert forall|v: VariableId| vars.to_set().contains(v) implies witness@.dom().contains(
                v,
            ) by {
                let j = choose|j: int| 0 <= j < vars.len() && vars[j] == v;
                assert(witness@.contains_key(vars[j]));
            }
        }
        vstd::set_lib::lemma_subset_equality(vars.to_set(), witness@.dom());
    }
    true
}

/// The definitions of the first `n` bindings whose pattern is a variable,
/// a later one replacing an earlier one of the same variable.
pub open spec fn definitions_of(defs: Seq<(PatModel, ExprModel)>, n: nat) -> Map<
    VariableId,
    ExprModel,
>
    decreases n,
{
    if n == 0 {
        Map::empty()
    } else {
        let before = definitions_of(defs, (n - 1) as nat);
        match defs[n - 1].0 {
            PatModel::Variable(v) => before.insert(v, defs[n - 1].1),
            _ => before,
        }
    }
}

/// The definitions of a module, by the variable that each defines.
pub fn definitions(module: &Module) -> (defs: HashMap<VariableId, TExpr>)
    ensures
        defs_model(defs@) == definitions_of(module@.defs, module@.defs.len()),
{
    let mut defs: HashMap<VariableId, TExpr> = HashMap::new();
    let mut i: usize = 0;
    assert(defs_model(defs@) =~= definitions_of(module@.defs, 0));
    while i < module.defs.len()
        invariant
            i <= module.defs.len(),
            defs_model(defs@) == definitions_of(module@.defs, i as nat),
        decreases module.defs.len() - i,
    {
        let ghost before = defs@;
        let definition: &Definition = &module.defs[i];
        match &definition.0.0.v {
            Pat::Variable(var) => {
                let value = definition.0.1.duplicate();
                defs.insert(var.id, value);
                assert(defs_model(defs@) =~= defs_model(before).insert(var.id, value@));
            },
            _ => {},
        }
        i += 1;
    }
    defs
}

/// Those of the first `n` variables that have no definition: the ones whose
/// values have to be given.
pub open spec fn undefined(
    variables: Seq<VariableId>,
    defs: Map<VariableId, ExprModel>,
    n: nat,
) -> Seq<VariableId>
    decreases n,
{
    if n == 0 {
        seq![]
    } else if defs.contains_key(variables[n - 1]) {
        undefined(variables, defs, (n - 1) as nat)
    } else {
        undefined(variables, defs, (n - 1) as nat).push(variables[n - 1])
    }
}

/// The variables of a module that have no definition, in the order in
/// which the module meets them: the inputs that a prover has to supply.
pub fn input_variables(module: &Module) -> (inputs: Vec<VariableId>)
    ensures
        inputs@ == undefined(
            module_variables(module@),
            definitions_of(module@.defs, module@.defs.len()),
            module_variables(module@).len(),
        ),
{
    let variables = collect_module_variables(module);
    let defs = definitions(module);
    let mut inputs: Vec<VariableId> = Vec::new();
    let mut i: usize = 0;
    while i < variables.len()
        invariant
            i <= variables.len(),
            inputs@ == undefined(variables@, defs_model(defs@), i as nat),
        decreases variables.len() - i,
    {
        if !defs.contains_key(&variables[i]) {
            inputs.push(variables[i]);
        }
        i += 1;
    }
    inputs
}

/// The witness in which every variable of `variables` is unknown.
pub fn unknown_witness<F>(variables: &Vec<VariableId>) -> (witness: HashMap<VariableId, Option<F>>)
    ensures
        witness@.dom() == variables@.to_set(),
        forall|v: VariableId| witness@.contains_key(v) ==> witness@[v] is None,
{
    let mut witness: HashMap<VariableId, Option<F>> = HashMap::new();
    let mut i: usize = 0;
    assert(witness@.dom() =~= variables@.take(0).to_set());
    while i < variables.len()
        invariant
            i <= variables.len(),
            witness@.dom() == variables@.take(i as int).to_set(),
            forall|v: VariableId| witness@.contains_key(v) ==> witness@[v] is None,
        decreases variables.len() - i,
    {
        let ghost before = witness@.dom();
        witness.insert(variables[i], None);
        proof {
            let s = variables@.take(i as int);
            let t = variables@.take(i + 1);
            assert(t == s.push(variables@[i as int]));
            assert(witness@.dom() =~= t.to_set()) by {
                assert forall|v: VariableId| witness@.dom().contains(v) <==> t.to_set().contains(
                    v,
                ) by {
                    if s.contains(v) {
                        let j = choose|j: int| 0 <= j < s.len() && s[j] == v;
                        assert(t[j] == v);
                    }
                    if v == variables@[i as int] {
                        assert(t[i as int] == v);
                    }
                    if t.contains(v) {
                        let j = choose|j: int| 0 <= j < t.len() && t[j] == v;
                        if j < i {
                            assert(s[j] == v);
                        }
                    }
                }
            }
        }
        i += 1;
    }
    assert(variables@.take(variables.len() as int) == variables@);
    witness
}

/// The values of the first `n` variables, or the first failure among them.
pub open spec fn population(
    variables: Seq<VariableId>,
    n: nat,
    defs: Map<VariableId, ExprModel>,
    inputs: Map<VariableId, nat>,
    p: nat,
    safe_divide: bool,
) -> Result<Map<VariableId, nat>, EvalError>
    decreases n,
{
    if n == 0 {
        Ok(Map::empty())
    } else {
        match population(variables, (n - 1) as nat, defs, inputs, p, safe_divide) {
            Err(err) => Err(err),
            Ok(found) => match evaluation(
                ExprModel::Variable(variables[n - 1]),
                defs,
                inputs,
                p,
                safe_divide,
            ) {
                Ok(x) => Ok(found.insert(variables[n - 1], x)),
                Err(err) => Err(err),
            },
        }
    }
}

/// The known values of a witness.
pub open spec fn known_values<F: FieldElement>(witness: Map<VariableId, Option<F>>) -> Map<
    VariableId,
    nat,
> {
    Map::new(
        |v: VariableId| witness.contains_key(v) && witness[v] is Some,
        |v: VariableId| witness[v]->0.value(),
    )
}

/// Every variable of the witness has a value.
pub open spec fn all_known<F>(witness: Map<VariableId, Option<F>>) -> bool {
    forall|v: VariableId| witness.contains_key(v) ==> witness[v] is Some
}

/// Gives each variable of `variables` its value: its input, or else the
/// value of its definition.
///
/// On success the witness holds exactly the values of `variables`, all
/// known. On the first variable that has no value the witness is left as it
/// was and the failure of that variable is returned.
pub(crate) fn populate<F: FieldElement>(
    variables: &Vec<VariableId>,
    defs: &HashMap<VariableId, TExpr>,
    witness: &mut HashMap<VariableId, Option<F>>,
    field_assigns: HashMap<VariableId, F>,
    safe_divide: bool,
) -> (r: Result<(), EvalError>)
    requires
        old(witness)@.dom() == variables@.to_set(),
    ensures
        final(witness)@.dom() == old(witness)@.dom(),
        match r {
            Ok(()) => all_known(final(witness)@) && population(
                variables@,
                variables@.len(),
                defs_model(defs@),
                values(field_assigns@),
                F::modulus(),
                safe_divide,
            ) == Ok::<Map<VariableId, nat>, EvalError>(known_values(final(witness)@)),
            Err(err) => final(witness)@ == old(witness)@ && population(
                variables@,
                variables@.len(),
                defs_model(defs@),
                values(field_assigns@),
                F::modulus(),
                safe_divide,
            ) == Err::<Map<VariableId, nat>, EvalError>(err),
        },
{
    let ghost inputs = values(field_assigns@);
    let ghost dm = defs_model(defs@);
    let ghost p = F::modulus();
    let ghost vars = variables@;
    let mut assigns = field_assigns;
    let mut visiting: HashSet<VariableId> = HashSet::new();
    let mut found: Vec<F> = Vec::new();
    proof {
        assert forall|v: VariableId| #[trigger] assigns@.contains_key(v) implies settles(
            ExprModel::Variable(v),
            dm,
            inputs,
            p,
            safe_divide,
            Ok(assigns@[v].value()),
        ) by {
            assert(denote(ExprModel::Variable(v), dm, inputs, p, safe_divide, 0)
                == Ok::<nat, EvalError>(assigns@[v].value()));
        }
    }
    let mut i: usize = 0;
    while i < variables.len()
        invariant
            i <= variables.len(),
            vars == variables@,
            dm == defs_model(defs@),
            p == F::modulus(),
            visiting@ == Set::<VariableId>::empty(),
            witness@ == old(witness)@,
            inputs == values(field_assigns@),
            remembered(assigns@, dm, inputs, safe_divide),
            found.len() == i,
            forall|j: int|
                0 <= j < i ==> evaluation(
                    ExprModel::Variable(vars[j]),
                    dm,
                    inputs,
                    p,
                    safe_divide,
                ) == Ok::<nat, EvalError>(#[trigger] found@[j].value()),
            population(vars, i as nat, dm, inputs, p, safe_divide) is Ok,
        decreases variables.len() - i,
    {
        let variable = TExpr::variable(variables[i]);
        let r = evaluate(&variable, defs, &mut assigns, &mut visiting, safe_divide, Ghost(inputs));
        proof {
            lemma_found(variable@, outcome(r), dm, inputs, p, safe_divide);
        }
        match r {
            Ok(x) => {
                found.push(x);
            },
            Err(err) => {
                proof {
                    assert(evaluation(variable@, dm, inputs, p, safe_divide) == Err::<
                        nat,
                        EvalError,
                    >(err));
                    assert(population(vars, (i + 1) as nat, dm, inputs, p, safe_divide) == Err::<
                        Map<VariableId, nat>,
                        EvalError,
                    >(err));
                    lemma_population_fails(vars, (i + 1) as nat, vars.len(), dm, inputs, p, safe_divide);
                }
                return Err(err);
            },
        }
        i += 1;
    }
    let mut j: usize = 0;
    let ghost target = population(vars, vars.len(), dm, inputs, p, safe_divide)->Ok_0;
    while j < variables.len()
        invariant
            j <= variables.len(),
            vars == variables@,
            found.len() == variables.len(),
            witness@.dom() == vars.to_set(),
            forall|n: int|
                0 <= n < vars.len() ==> evaluation(
                    ExprModel::Variable(vars[n]),
                    dm,
                    inputs,
                    p,
                    safe_divide,
                ) == Ok::<nat, EvalError>(#[trigger] found@[n].value()),
            forall|n: int|
                0 <= n < j ==> witness@[#[trigger] vars[n]] is Some && evaluation(
                    ExprModel::Variable(vars[n]),
                    dm,
                    inputs,
                    p,
                    safe_divide,
                ) == Ok::<nat, EvalError>(witness@[vars[n]]->0.value()),
        decreases variables.len() - j,
    {
        let ghost before = witness@;
        witness.insert(variables[j], Some(found[j]));
        proof {
            assert(vars.to_set().contains(vars[j as int]));
            assert(witness@.dom() =~= before.dom());
            assert forall|n: int| 0 <= n < j + 1 implies witness@[#[trigger] vars[n]] is Some
                && evaluation(ExprModel::Variable(vars[n]), dm, inputs, p, safe_divide) == Ok::<
                nat,
                EvalError,
            >(witness@[vars[n]]->0.value()) by {
                if vars[n] != vars[j as int] {
                    assert(witness@[vars[n]] == before[vars[n]]);
                }
            }
        }
        j += 1;
    }
    proof {
        lemma_population_succeeds(vars, vars.len(), dm, inputs, p, safe_divide);
        assert(all_known(witness@)) by {
            assert forall|v: VariableId| witness@.contains_key(v) implies witness@[v] is Some by {
                let n = choose|n: int| 0 <= n < vars.len() && vars[n] == v;
                assert(witness@[vars[n]] is Some);
            }
        }
        assert(known_values(witness@) =~= target) by {
            assert forall|v: VariableId| known_values(witness@).contains_key(v) implies #[trigger]
                target.contains_key(v) && target[v] == known_values(witness@)[v] by {
                let n = choose|n: int| 0 <= n < vars.len() && vars[n] == v;
                assert(witness@[vars[n]] is Some);
            }
            assert forall|v: VariableId| #[trigger]
                target.contains_key(v) implies known_values(witness@).contains_key(v) by {
                let n = choose|n: int| 0 <= n < vars.len() && vars[n] == v;
                assert(witness@[vars[n]] is Some);
            }
        }
    }
    Ok(())
}

/// What a population gives a variable is what the variable comes to.
pub proof fn lemma_population(
    variables: Seq<VariableId>,
    n: nat,
    defs: Map<VariableId, ExprModel>,
    inputs: Map<VariableId, nat>,
    p: nat,
    safe_divide: bool,
)
    requires
        n <= variables.len(),
        population(variables, n, defs, inputs, p, safe_divide) is Ok,
    ensures
        forall|j: int|
            0 <= j < n ==> {
                let found = population(variables, n, defs, inputs, p, safe_divide)->Ok_0;
                found.contains_key(#[trigger] variables[j]) && evaluation(
                    ExprModel::Variable(variables[j]),
                    defs,
                    inputs,
                    p,
                    safe_divide,
                ) == Ok::<nat, EvalError>(found[variables[j]])
            },
    decreases n,
{
    if n > 0 {
        lemma_population(variables, (n - 1) as nat, defs, inputs, p, safe_divide);
    }
}

/// A failure among the first `n` variables is the failure of the whole.
proof fn lemma_population_fails(
    variables: Seq<VariableId>,
    n: nat,
    m: nat,
    defs: Map<VariableId, ExprModel>,
    inputs: Map<VariableId, nat>,
    p: nat,
    safe_divide: bool,
)
    requires
        n <= m,
        population(variables, n, defs, inputs, p, safe_divide) is Err,
    ensures
        population(variables, m, defs, inputs, p, safe_divide) == population(
            variables,
            n,
            defs,
            inputs,
            p,
            safe_divide,
        ),
    decreases m - n,
{
    if n < m {
        lemma_population_fails(variables, n, (m - 1) as nat, defs, inputs, p, safe_divide);
    }
}

/// Where every one of the first `n` variables has a value, their population
/// is the map of those values.
proof fn lemma_population_succeeds(
    variables: Seq<VariableId>,
    n: nat,
    defs: Map<VariableId, ExprModel>,
    inputs: Map<VariableId, nat>,
    p: nat,
    safe_divide: bool,
)
    requires
        n <= variables.len(),
        forall|j: int|
            0 <= j < n ==> (#[trigger] evaluation(
                ExprModel::Variable(variables[j]),
                defs,
                inputs,
                p,
                safe_divide,
            )) is Ok,
    ensures
        population(variables, n, defs, inputs, p, safe_divide) is Ok,
        forall|v: VariableId| #[trigger]
            population(variables, n, defs, inputs, p, safe_divide)->Ok_0.contains_key(v) <==> (
            exists|j: int| 0 <= j < n && variables[j] == v),
        forall|j: int|
            0 <= j < n ==> (#[trigger] evaluation(
                ExprModel::Variable(variables[j]),
                defs,
                inputs,
                p,
                safe_divide,
            )) == Ok::<nat, EvalError>(
                population(variables, n, defs, inputs, p, safe_divide)->Ok_0[variables[j]],
            ),
    decreases n,
{
    if n > 0 {
        lemma_population_succeeds(variables, (n - 1) as nat, defs, inputs, p, safe_divide);
        let before = population(variables, (n - 1) as nat, defs, inputs, p, safe_divide)->Ok_0;
        let last = variables[n - 1];
        let now = population(variables, n, defs, inputs, p, safe_divide)->Ok_0;
        assert(evaluation(ExprModel::Variable(variables[n - 1]), defs, inputs, p, safe_divide) is Ok);
        assert forall|v: VariableId| #[trigger] now.contains_key(v) <==> (exists|j: int|
            0 <= j < n && variables[j] == v) by {
            if before.contains_key(v) {
                let j = choose|j: int| 0 <= j < n - 1 && variables[j] == v;
                assert(0 <= j < n && variables[j] == v);
            }
            if exists|j: int| 0 <= j < n && variables[j] == v {
                let j = choose|j: int| 0 <= j < n && variables[j] == v;
                if j < n - 1 {
                    assert(before.contains_key(v));
                }
            }
        }
    }
}

/// Why a stored circuit could not be read back.
#[derive(Clone, Copy, PartialEq, Eq, Structural, Debug)]
pub enum DecodeError {
    /// What is stored for the variable is not the representative of a
    /// field element.
    InvalidFieldRepr(VariableId),
}

/// A witness as the contracts see it: unknown, or a representative.
pub open spec fn witness_values<F: FieldElement>(witness: Map<VariableId, Option<F>>) -> Map<
    VariableId,
    Option<nat>,
> {
    Map::new(
        |v: VariableId| witness.contains_key(v),
        |v: VariableId|
            match witness[v] {
                Some(x) => Some(x.value()),
                None => None,
            },
    )
}

/// What is stored of a witness: for each of `variables`, in order, the
/// number that stands for its value, and nothing for an unknown one.
pub open spec fn encoding(witness: Map<VariableId, Option<nat>>, variables: Seq<VariableId>) -> Seq<
    (VariableId, Option<nat>),
> {
    Seq::new(variables.len(), |i: int| (variables[i], witness[variables[i]]))
}

/// The witness that the first `n` stored entries stand for. A number that
/// is not below the field order `p` is no representative; the first
/// variable with such a number is the error.
pub open spec fn decoding(entries: Seq<(VariableId, Option<nat>)>, n: nat, p: nat) -> Result<
    Map<VariableId, Option<nat>>,
    DecodeError,
>
    decreases n,
{
    if n == 0 {
        Ok(Map::empty())
    } else {
        match decoding(entries, (n - 1) as nat, p) {
            Err(err) => Err(err),
            Ok(witness) => match entries[n - 1].1 {
                Some(x) => if x < p {
                    Ok(witness.insert(entries[n - 1].0, Some(x)))
                } else {
                    Err(DecodeError::InvalidFieldRepr(entries[n - 1].0))
                },
                None => Ok(witness.insert(entries[n - 1].0, None)),
            },
        }
    }
}

/// A failure among the first `n` entries is the failure of the whole.
pub proof fn lemma_decoding_fails(entries: Seq<(VariableId, Option<nat>)>, n: nat, m: nat, p: nat)
    requires
        n <= m,
        decoding(entries, n, p) is Err,
    ensures
        decoding(entries, m, p) == decoding(entries, n, p),
    decreases m - n,
{
    if n < m {
        lemma_decoding_fails(entries, n, (m - 1) as nat, p);
    }
}

/// The first `n` entries of what is stored of a witness are read back as
/// the witness of the first `n` variables.
proof fn lemma_decoding_prefix(
    witness: Map<VariableId, Option<nat>>,
    variables: Seq<VariableId>,
    n: nat,
    p: nat,
)
    requires
        n <= variables.len(),
        forall|v: VariableId| #[trigger]
            witness.contains_key(v) && witness[v] is Some ==> witness[v]->0 < p,
        forall|i: int| 0 <= i < variables.len() ==> witness.contains_key(#[trigger] variables[i]),
    ensures
        decoding(encoding(witness, variables), n, p) is Ok,
        forall|v: VariableId| #[trigger]
            decoding(encoding(witness, variables), n, p)->Ok_0.contains_key(v) <==> exists|i: int|
                0 <= i < n && variables[i] == v,
        forall|v: VariableId| #[trigger]
            decoding(encoding(witness, variables), n, p)->Ok_0.contains_key(v) ==> decoding(
                encoding(witness, variables),
                n,
                p,
            )->Ok_0[v] == witness[v],
    decreases n,
{
    if n > 0 {
        lemma_decoding_prefix(witness, variables, (n - 1) as nat, p);
        let entries = encoding(witness, variables);
        let before = decoding(entries, (n - 1) as nat, p)->Ok_0;
        let last = variables[n - 1];
        assert(entries[n - 1] == (last, witness[last]));
        assert(witness.contains_key(last));
        let now = decoding(entries, n, p)->Ok_0;
        assert forall|v: VariableId| #[trigger] now.contains_key(v) <==> exists|i: int|
            0 <= i < n && variables[i] == v by {
            if before.contains_key(v) {
                let i = choose|i: int| 0 <= i < n - 1 && variables[i] == v;
                assert(0 <= i < n && variables[i] == v);
            }
            if exists|i: int| 0 <= i < n && variables[i] == v {
                let i = choose|i: int| 0 <= i < n && variables[i] == v;
                if i < n - 1 {
                    assert(before.contains_key(v));
                }
            }
        }
    }
}

/// Round trip: what is stored of a witness is read back as that witness.
///
/// The witness has a value, known or not, for exactly the variables in
/// `variables`, and its known values are representatives.
pub proof fn lemma_round_trip(
    witness: Map<VariableId, Option<nat>>,
    variables: Seq<VariableId>,
    p: nat,
)
    requires
        witness.dom() == variables.to_set(),
        forall|v: VariableId| #[trigger]
            witness.contains_key(v) && witness[v] is Some ==> witness[v]->0 < p,
    ensures
        decoding(encoding(witness, variables), variables.len(), p) == Ok::<
            Map<VariableId, Option<nat>>,
            DecodeError,
        >(witness),
{
    assert forall|i: int| 0 <= i < variables.len() implies witness.contains_key(
        #[trigger] variables[i],
    ) by {
        assert(variables.to_set().contains(variables[i]));
    }
    lemma_decoding_prefix(witness, variables, variables.len(), p);
    let read = decoding(encoding(witness, variables), variables.len(), p)->Ok_0;
    assert(read =~= witness) by {
        assert forall|v: VariableId| read.contains_key(v) <==> witness.contains_key(v) by {
            if witness.contains_key(v) {
                assert(variables.to_set().contains(v));
                let i = choose|i: int| 0 <= i < variables.len() && variables[i] == v;
                assert(0 <= i < variables.len() && variables[i] == v);
            }
            if read.contains_key(v) {
                let i = choose|i: int| 0 <= i < variables.len() && variables[i] == v;
                assert(variables.to_set().contains(variables[i]));
            }
        }
    }
}

} // verus!
