//! The circuit module of the composer backend and its gadget.
//!
//! The composer keeps the wiring: every variable of the module is
//! registered once, with its value, and gates name the variables on their
//! wires. The gadget consists of one gate for each public variable, which
//! exposes its value, and then one gate for each constraint.

pub use crate::arith::{make_constant, PrimeFieldOps};
use crate::ast::{Module, ModuleModel, Variable, VariableId};
use crate::bytes::limbs_value;
use crate::circuit::{
    all_known, covers_variables, decoding, definitions, definitions_of, encoding, exp2,
    is_size_exponent, known_values, lemma_decoding_fails, populate, population, unknown_witness,
    wide_size_exponent, witness_values, DecodeError,
};
use crate::eval::{values, EvalError};
use crate::field::{reduce, FieldElement};
use crate::gate::{
    covers, first_failure, gate_models, lemma_gate_wires, lower_module, on_wire, Gate, GateModel,
    SynthesisError,
};
use crate::plonk::field::{modulus, Fr};
use crate::transform::{
    collect_module_variables, lemma_constraint_variable, lemma_module_variables_distinct,
    lemma_public_variable, module_variables,
};
use std::collections::HashMap;
use vstd::prelude::*;

verus! {

/// Gates that the composer adds of its own: one that pins its zero
/// variable and three that blind the circuit polynomials.
pub const BUILTIN_GATE_COUNT: u64 = 4;

/// The circuit of a module: the module and its witness.
#[derive(Debug)]
pub struct PlonkModule {
    pub module: Module,
    pub variable_map: HashMap<VariableId, Option<Fr>>,
}

/// A gate as the composer takes it: wires, selectors and, for a gate that
/// exposes a public input, the value exposed.
#[derive(Clone, Copy, Debug, PartialEq, Eq)]
pub struct ComposerGate {
    pub gate: Gate<Fr>,
    pub pi: Option<Fr>,
}

/// What the gadget hands to the composer: the variables to register, each
/// with its value, and the gates in order.
#[derive(Debug)]
pub struct Gadget {
    pub inputs: Vec<(VariableId, Fr)>,
    pub gates: Vec<ComposerGate>,
}

/// The value of a variable in the witness, zero standing for one that is
/// unknown or absent.
pub open spec fn value_or_zero(witness: Map<VariableId, Option<Fr>>, v: VariableId) -> nat {
    if witness.contains_key(v) && witness[v] is Some {
        witness[v]->0.value()
    } else {
        0
    }
}

/// What exposes the public variable `v`: `-v`, which the public input cancels.
pub open spec fn public_gate(v: VariableId) -> GateModel {
    GateModel {
        a: Some(v),
        b: None,
        c: None,
        q_l: reduce(-1, modulus()),
        q_r: 0,
        q_o: 0,
        q_m: 0,
        q_c: 0,
    }
}

/// The gates of a list of composer gates, without their public inputs.
pub open spec fn plain_gates(gates: Seq<ComposerGate>) -> Seq<Gate<Fr>> {
    Seq::new(gates.len(), |i: int| gates[i].gate)
}

/// The value at each position of a vector of public inputs, given as
/// positions and values side by side; of two values at one position the
/// later one counts.
pub open spec fn position_values(positions: Seq<usize>, vals: Seq<Fr>, n: nat) -> Map<usize, Fr>
    decreases n,
{
    if n == 0 {
        Map::empty()
    } else {
        position_values(positions, vals, (n - 1) as nat).insert(positions[n - 1], vals[n - 1])
    }
}

/// The value that the public inputs hold at a position, zero where they
/// hold none.
pub open spec fn value_at(inputs: Map<usize, Fr>, position: usize) -> nat {
    if inputs.contains_key(position) {
        inputs[position].value()
    } else {
        0
    }
}

/// The first `n` public variables, each with the value that the public
/// inputs hold at its intended position.
pub open spec fn annotations(
    pubs: Seq<Variable>,
    intended: Seq<usize>,
    inputs: Map<usize, Fr>,
    n: nat,
) -> Map<VariableId, (Variable, nat)>
    decreases n,
{
    if n == 0 {
        Map::empty()
    } else {
        annotations(pubs, intended, inputs, (n - 1) as nat).insert(
            pubs[n - 1].id,
            (pubs[n - 1], value_at(inputs, intended[n - 1])),
        )
    }
}

/// An annotated vector of public inputs as the contracts see it.
pub open spec fn annotated_values(annotated: Map<VariableId, (Variable, Fr)>) -> Map<
    VariableId,
    (Variable, nat),
> {
    Map::new(
        |v: VariableId| annotated.contains_key(v),
        |v: VariableId| (annotated[v].0, annotated[v].1.value()),
    )
}

/// Stored entries of a witness as numbers: a stored decomposition is the
/// number that its limbs stand for.
pub open spec fn limb_entries(entries: Seq<(VariableId, Option<Vec<u32>>)>) -> Seq<
    (VariableId, Option<nat>),
> {
    Seq::new(
        entries.len(),
        |i: int|
            (
                entries[i].0,
                match entries[i].1 {
                    Some(limbs) => Some(limbs_value(limbs@)),
                    None => None,
                },
            ),
    )
}

/// The lesser of two lengths.
pub open spec fn min_len(a: nat, b: nat) -> nat {
    if a <= b {
        a
    } else {
        b
    }
}

/// Variable identity: a variable of the module is registered at one place
/// only, so that every wire that names it gets the same handle.
pub proof fn lemma_variable_identity(m: ModuleModel, one: int, other: int)
    requires
        0 <= one < module_variables(m).len(),
        0 <= other < module_variables(m).len(),
        module_variables(m)[one] == module_variables(m)[other],
    ensures
        one == other,
{
    lemma_module_variables_distinct(m);
}

impl PlonkModule {
    /// The witness map has an entry for every variable of the module and
    /// for nothing else.
    pub open spec fn wf(&self) -> bool {
        self.variable_map@.dom() == module_variables(self.module@).to_set()
    }

    /// The circuit of `module`, every variable unknown.
    pub fn new(module: Module) -> (r: PlonkModule)
        ensures
            r.wf(),
            r.module == module,
            forall|v: VariableId| r.variable_map@.contains_key(v) ==> r.variable_map@[v] is None,
    {
        let variables = collect_module_variables(&module);
        let variable_map = unknown_witness(&variables);
        PlonkModule { module, variable_map }
    }

    /// Gives every variable its value: its input from `field_assigns`, or
    /// else the value of its definition, in which safe division may occur.
    ///
    /// On success every entry of the witness is known. Where a variable has
    /// no value the circuit is left as it was and the failure of the first
    /// such variable is returned.
    pub fn populate_variables(&mut self, field_assigns: HashMap<VariableId, Fr>) -> (r: Result<
        (),
        EvalError,
    >)
        requires
            old(self).wf(),
        ensures
            final(self).wf(),
            final(self).module == old(self).module,
            match r {
                Ok(()) => all_known(final(self).variable_map@) && population(
                    module_variables(old(self).module@),
                    module_variables(old(self).module@).len(),
                    definitions_of(old(self).module@.defs, old(self).module@.defs.len()),
                    values(field_assigns@),
                    modulus(),
                    true,
                ) == Ok::<Map<VariableId, nat>, EvalError>(
                    known_values(final(self).variable_map@),
                ),
                Err(err) => final(self).variable_map@ == old(self).variable_map@ && population(
                    module_variables(old(self).module@),
                    module_variables(old(self).module@).len(),
                    definitions_of(old(self).module@.defs, old(self).module@.defs.len()),
                    values(field_assigns@),
                    modulus(),
                    true,
                ) == Err::<Map<VariableId, nat>, EvalError>(err),
            },
    {
        let variables = collect_module_variables(&self.module);
        let defs = definitions(&self.module);
        populate(&variables, &defs, &mut self.variable_map, field_assigns, true)
    }

    /// The value of a variable in the witness, zero standing for one that
    /// is unknown or absent.
    pub fn witness_value(&self, v: VariableId) -> (x: Fr)
        ensures
            x.value() == value_or_zero(self.variable_map@, v),
    {
        match self.variable_map.get(&v) {
            Some(Some(x)) => *x,
            _ => Fr::zero(),
        }
    }

    /// Annotates a vector of public inputs, given as positions and values
    /// side by side, with the public variables of this module.
    ///
    /// The `i`-th public variable is taken to stand at the `i`-th of the
    /// intended positions and is given the value that the vector holds
    /// there, or zero where it holds none. Public variables beyond the
    /// intended positions are left out.
    pub fn annotate_public_inputs(
        &self,
        intended_pi_pos: &Vec<usize>,
        pi_pos: &Vec<usize>,
        pi_vals: &Vec<Fr>,
    ) -> (annotated: HashMap<VariableId, (Variable, Fr)>)
        ensures
            annotated_values(annotated@) == annotations(
                self.module.pubs@,
                intended_pi_pos@,
                position_values(pi_pos@, pi_vals@, min_len(pi_pos@.len(), pi_vals@.len())),
                min_len(self.module.pubs@.len(), intended_pi_pos@.len()),
            ),
    {
        // First map public input positions to values
        let mut pi_map: HashMap<usize, Fr> = HashMap::new();
        let count = if pi_pos.len() <= pi_vals.len() {
            pi_pos.len()
        } else {
            pi_vals.len()
        };
        let mut i: usize = 0;
        assert(pi_map@ =~= position_values(pi_pos@, pi_vals@, 0));
        while i < count
            invariant
                i <= count,
                count <= pi_pos.len(),
                count <= pi_vals.len(),
                pi_map@ == position_values(pi_pos@, pi_vals@, i as nat),
            decreases count - i,
        {
            pi_map.insert(pi_pos[i], pi_vals[i]);
            i += 1;
        }
        // Next, annotate the public inputs with this module's variables
        let ghost inputs = pi_map@;
        let mut annotated: HashMap<VariableId, (Variable, Fr)> = HashMap::new();
        let limit = if self.module.pubs.len() <= intended_pi_pos.len() {
            self.module.pubs.len()
        } else {
            intended_pi_pos.len()
        };
        let mut j: usize = 0;
        assert(annotated_values(annotated@) =~= annotations(
            self.module.pubs@,
            intended_pi_pos@,
            inputs,
            0,
        ));
        while j < limit
            invariant
                j <= limit,
                limit <= self.module.pubs.len(),
                limit <= intended_pi_pos.len(),
                inputs == pi_map@,
                annotated_values(annotated@) == annotations(
                    self.module.pubs@,
                    intended_pi_pos@,
                    inputs,
                    j as nat,
                ),
            decreases limit - j,
        {
            let var = &self.module.pubs[j];
            let val = match pi_map.get(&intended_pi_pos[j]) {
                Some(x) => *x,
                None => Fr::zero(),
            };
            let ghost before = annotated@;
            annotated.insert(var.id, (var.duplicate(), val));
            assert(annotated_values(annotated@) =~= annotated_values(before).insert(
                var.id,
                (*var, val.value()),
            ));
            j += 1;
        }
        annotated
    }

    /// The gadget of the circuit: every variable of the module to register,
    /// each once and with its value in the witness; one gate for each
    /// public variable in order, which exposes that value; and then one
    /// gate for each constraint in order.
    ///
    /// Fails on the first constraint that has no gate, naming it.
    pub fn gadget(&self) -> (r: Result<Gadget, SynthesisError>)
        ensures
            match r {
                Ok(g) => {
                    &&& g.inputs@.len() == module_variables(self.module@).len()
                    &&& forall|i: int|
                        0 <= i < g.inputs@.len() ==> (#[trigger] g.inputs@[i]).0
                            == module_variables(self.module@)[i] && g.inputs@[i].1.value()
                            == value_or_zero(self.variable_map@, g.inputs@[i].0)
                    &&& g.gates@.len() == self.module@.pubs.len() + self.module@.exprs.len()
                    &&& forall|i: int|
                        0 <= i < self.module@.pubs.len() ==> {
                            &&& (#[trigger] g.gates@[i]).gate@ == public_gate(self.module@.pubs[i])
                            &&& g.gates@[i].pi is Some
                            &&& g.gates@[i].pi->0.value() == value_or_zero(
                                self.variable_map@,
                                self.module@.pubs[i],
                            )
                        }
                    &&& covers(
                        self.module@.exprs,
                        gate_models(plain_gates(g.gates@).skip(self.module@.pubs.len() as int)),
                        modulus(),
                        true,
                    )
                    &&& forall|i: int|
                        self.module@.pubs.len() <= i < g.gates@.len() ==> (
                        #[trigger] g.gates@[i]).pi is None
                    &&& forall|i: int, v: VariableId|
                        0 <= i < g.gates@.len() && on_wire(#[trigger] g.gates@[i].gate@, v)
                            ==> #[trigger] module_variables(self.module@).contains(v)
                },
                Err(error) => first_failure(self.module@.exprs, error, modulus(), true),
            },
    {
        let ghost exprs = self.module@.exprs;
        let ghost pubs = self.module@.pubs;
        proof {
            assert(exprs == Seq::new(self.module.exprs@.len(), |i: int| self.module.exprs@[i]@));
        }
        let lowered = match lower_module::<Fr>(&self.module.exprs, true) {
            Ok(gates) => gates,
            Err(error) => {
                return Err(error);
            },
        };
        let variables = collect_module_variables(&self.module);
        let mut inputs: Vec<(VariableId, Fr)> = Vec::new();
        let mut n: usize = 0;
        while n < variables.len()
            invariant
                n <= variables.len(),
                inputs@.len() == n,
                forall|i: int|
                    0 <= i < n ==> (#[trigger] inputs@[i]).0 == variables@[i] && inputs@[i].1.value()
                        == value_or_zero(self.variable_map@, inputs@[i].0),
            decreases variables.len() - n,
        {
            inputs.push((variables[n], self.witness_value(variables[n])));
            n += 1;
        }
        let zero = Fr::zero();
        let minus_one = Fr::one().neg();
        let mut gates: Vec<ComposerGate> = Vec::new();
        let mut i: usize = 0;
        while i < self.module.pubs.len()
            invariant
                i <= self.module.pubs.len(),
                pubs == self.module@.pubs,
                zero.value() == 0,
                minus_one.value() == reduce(-1, modulus()),
                gates@.len() == i,
                forall|j: int|
                    0 <= j < i ==> {
                        &&& (#[trigger] gates@[j]).gate@ == public_gate(pubs[j])
                        &&& gates@[j].pi is Some
                        &&& gates@[j].pi->0.value() == value_or_zero(self.variable_map@, pubs[j])
                    },
            decreases self.module.pubs.len() - i,
        {
            let v = self.module.pubs[i].id;
            let gate = Gate {
                a: Some(v),
                b: None,
                c: None,
                q_l: minus_one,
                q_r: zero,
                q_o: zero,
                q_m: zero,
                q_c: zero,
            };
            gates.push(ComposerGate { gate, pi: Some(self.witness_value(v)) });
            i += 1;
        }
        let ghost public = gates@;
        let mut j: usize = 0;
        while j < lowered.len()
            invariant
                j <= lowered.len(),
                public.len() == self.module.pubs.len(),
                gates@.len() == public.len() + j,
                forall|n: int| 0 <= n < public.len() ==> gates@[n] == public[n],
                forall|n: int|
                    0 <= n < j ==> (#[trigger] gates@[public.len() + n]).gate == lowered@[n]
                        && gates@[public.len() + n].pi is None,
            decreases lowered.len() - j,
        {
            gates.push(ComposerGate { gate: lowered[j], pi: None });
            j += 1;
        }
        proof {
            assert(pubs.len() == public.len());
            let tail = plain_gates(gates@).skip(pubs.len() as int);
            assert(tail.len() == lowered@.len());
            assert forall|n: int| 0 <= n < tail.len() implies tail[n] == lowered@[n] by {
                assert(gates@[public.len() + n].gate == lowered@[n]);
            }
            assert(tail =~= lowered@);
            assert forall|i: int, v: VariableId|
                0 <= i < gates@.len() && on_wire(
                    #[trigger] gates@[i].gate@,
                    v,
                ) implies #[trigger] module_variables(self.module@).contains(v) by {
                if i < pubs.len() {
                    assert(gates@[i] == public[i]);
                    assert(v == pubs[i]);
                    lemma_public_variable(self.module@, i);
                } else {
                    let j = i - pubs.len();
                    assert(gates@[public.len() + j].gate == lowered@[j]);
                    assert(gate_models(lowered@)[j] == gates@[i].gate@);
                    lemma_gate_wires(self.module@.exprs[j], modulus(), true, v);
                    lemma_constraint_variable(self.module@, j, v);
                }
            }
            assert(covers(exprs, gate_models(tail), modulus(), true));
            assert(inputs@.len() == module_variables(self.module@).len());
            assert(gates@.len() == self.module@.pubs.len() + self.module@.exprs.len());
            assert forall|i: int| 0 <= i < self.module@.pubs.len() implies {
                &&& (#[trigger] gates@[i]).gate@ == public_gate(self.module@.pubs[i])
                &&& gates@[i].pi is Some
                &&& gates@[i].pi->0.value() == value_or_zero(
                    self.variable_map@,
                    self.module@.pubs[i],
                )
            } by {
                assert(gates@[i] == public[i]);
            }
            assert forall|n: int| pubs.len() <= n < gates@.len() implies (
            #[trigger] gates@[n]).pi is None by {
                assert(gates@[public.len() + (n - public.len())].pi is None);
            }
        }
        Ok(Gadget { inputs, gates })
    }

    /// The size of the circuit as the composer pads it: the least power of
    /// two that holds the constraints, the public variables and the
    /// composer's own gates. `None` where that does not fit the machine.
    pub fn padded_circuit_size(&self) -> (size: Option<usize>)
        ensures
            match size {
                Some(n) => exists|k: nat|
                    is_size_exponent(
                        k,
                        (self.module@.exprs.len() + self.module@.pubs.len()
                            + BUILTIN_GATE_COUNT) as nat,
                    ) && n == #[trigger] exp2(k),
                None => exists|k: nat|
                    is_size_exponent(
                        k,
                        (self.module@.exprs.len() + self.module@.pubs.len()
                            + BUILTIN_GATE_COUNT) as nat,
                    ) && #[trigger] exp2(k) > usize::MAX,
            },
    {
        let count: u128 = self.module.exprs.len() as u128 + self.module.pubs.len() as u128
            + BUILTIN_GATE_COUNT as u128;
        let (k, size) = wide_size_exponent(count);
        if size <= usize::MAX as u128 {
            assert(is_size_exponent(k as nat, count as nat) && size == exp2(k as nat));
            Some(size as usize)
        } else {
            assert(is_size_exponent(k as nat, count as nat) && exp2(k as nat) > usize::MAX);
            None
        }
    }

    /// Whether the circuit is well formed.
    pub fn check(&self) -> (ok: bool)
        ensures
            ok == self.wf(),
    {
        let variables = collect_module_variables(&self.module);
        covers_variables(&self.variable_map, &variables)
    }

    /// What is stored of the witness: for each variable of the module, in
    /// order, the 32-bit limbs of its value, and nothing for an unknown one.
    pub fn encode_witness(&self) -> (entries: Vec<(VariableId, Option<Vec<u32>>)>)
        requires
            self.wf(),
        ensures
            limb_entries(entries@) == encoding(
                witness_values(self.variable_map@),
                module_variables(self.module@),
            ),
    {
        let variables = collect_module_variables(&self.module);
        let mut entries: Vec<(VariableId, Option<Vec<u32>>)> = Vec::new();
        let mut i: usize = 0;
        while i < variables.len()
            invariant
                i <= variables.len(),
                self.variable_map@.dom() == variables@.to_set(),
                entries@.len() == i,
                forall|j: int|
                    0 <= j < i ==> (#[trigger] limb_entries(entries@)[j]) == (
                        variables@[j],
                        witness_values(self.variable_map@)[variables@[j]],
                    ),
            decreases variables.len() - i,
        {
            let v = variables[i];
            assert(variables@.to_set().contains(variables@[i as int]));
            let stored = match self.variable_map.get(&v) {
                Some(Some(x)) => Some(x.to_limbs()),
                _ => None,
            };
            let ghost before = entries@;
            entries.push((v, stored));
            assert forall|j: int| 0 <= j < i + 1 implies (#[trigger] limb_entries(entries@)[j]) == (
                variables@[j],
                witness_values(self.variable_map@)[variables@[j]],
            ) by {
                if j < i {
                    assert(limb_entries(before)[j] == limb_entries(entries@)[j]);
                }
            }
            i += 1;
        }
        assert(limb_entries(entries@) =~= encoding(
            witness_values(self.variable_map@),
            module_variables(self.module@),
        ));
        entries
    }

    /// The circuit with the given module and stored witness. The limbs
    /// stored for a variable have to stand for the representative of a
    /// field element; the first variable for which they do not is the
    /// error.
    pub fn decode(module: Module, entries: &Vec<(VariableId, Option<Vec<u32>>)>) -> (r: Result<
        PlonkModule,
        DecodeError,
    >)
        ensures
            match r {
                Ok(m) => m.module == module && decoding(
                    limb_entries(entries@),
                    entries@.len(),
                    modulus(),
                ) == Ok::<Map<VariableId, Option<nat>>, DecodeError>(
                    witness_values(m.variable_map@),
                ),
                Err(err) => decoding(limb_entries(entries@), entries@.len(), modulus()) == Err::<
                    Map<VariableId, Option<nat>>,
                    DecodeError,
                >(err),
            },
    {
        let ghost stored = limb_entries(entries@);
        let mut variable_map: HashMap<VariableId, Option<Fr>> = HashMap::new();
        let mut i: usize = 0;
        assert(witness_values(variable_map@) =~= Map::<VariableId, Option<nat>>::empty());
        while i < entries.len()
            invariant
                i <= entries.len(),
                stored == limb_entries(entries@),
                decoding(stored, i as nat, modulus()) == Ok::<
                    Map<VariableId, Option<nat>>,
                    DecodeError,
                >(witness_values(variable_map@)),
            decreases entries.len() - i,
        {
            let v = entries[i].0;
            let ghost before = variable_map@;
            let value = match &entries[i].1 {
                Some(limbs) => match Fr::from_limbs(limbs) {
                    Some(x) => Some(x),
                    None => {
                        proof {
                            lemma_decoding_fails(stored, (i + 1) as nat, stored.len(), modulus());
                        }
                        return Err(DecodeError::InvalidFieldRepr(v));
                    },
                },
                None => None,
            };
            variable_map.insert(v, value);
            assert(witness_values(variable_map@) =~= witness_values(before).insert(
                v,
                stored[i as int].1,
            ));
            i += 1;
        }
        Ok(PlonkModule { module, variable_map })
    }
}

} // verus!
