//! The circuit module of the table backend and its synthesis.
//!
//! Synthesis lays one gate per constraint into a row of its own, after a
//! first row that pins a cell to zero. A variable is bound to the cell where
//! it is first met; every later cell that holds it, and every unused cell,
//! is tied by a copy constraint to that first cell or to the zero cell.

pub use crate::arith::{make_constant, PrimeFieldOps};
use crate::ast::{Module, VariableId};
use crate::bytes::le_value;
use crate::circuit::{
    all_known, covers_variables, decoding, definitions, definitions_of, encoding, is_size_exponent,
    known_values, lemma_decoding_fails, lemma_size_exponent_unique, populate, population,
    unknown_witness, wide_size_exponent, witness_values, DecodeError,
};
use crate::eval::{values, EvalError};
use crate::field::FieldElement;
use crate::gate::{
    covers, first_failure, gate_models, lemma_gate_wires, lower_module, on_wire, Gate, GateModel,
    SynthesisError,
};
use crate::halo2::field::{modulus, Fp};
use crate::transform::{collect_module_variables, lemma_constraint_variable, module_variables};
use std::collections::HashMap;
use vstd::prelude::*;

verus! {

/// Rows that an empty circuit takes up.
pub const ROW_PADDING: u64 = 8;

/// The three advice columns of a row.
#[derive(Clone, Copy, PartialEq, Eq, Structural, Debug)]
pub enum AdviceColumn {
    A,
    B,
    C,
}

/// An advice column at a certain row: a cell of the table.
#[derive(Clone, Copy, PartialEq, Eq, Structural, Debug)]
pub struct Variable(pub AdviceColumn, pub usize);

/// The circuit of a module: its witness and the logarithm of its size.
#[derive(Debug)]
pub struct Halo2Module {
    pub module: Module,
    pub variable_map: HashMap<VariableId, Option<Fp>>,
    pub k: u32,
}

/// What synthesis lays out: the rows, the first of which pins the zero
/// cell, and the copy constraints between cells.
#[derive(Debug)]
pub struct Synthesis {
    pub gates: Vec<Gate<Fp>>,
    pub copies: Vec<(Variable, Variable)>,
}

/// What the first row holds: `b = 0`, with no variable on a wire.
pub open spec fn pin_gate() -> GateModel {
    GateModel { a: None, b: None, c: None, q_l: 0, q_r: 1, q_o: 0, q_m: 0, q_c: 0 }
}

/// The cell that is pinned to zero.
pub open spec fn zero_cell() -> Variable {
    Variable(AdviceColumn::B, 0)
}

/// The column of the `n`-th wire of a row.
pub open spec fn column(n: nat) -> AdviceColumn {
    if n == 0 {
        AdviceColumn::A
    } else if n == 1 {
        AdviceColumn::B
    } else {
        AdviceColumn::C
    }
}

/// The cell of the `slot`-th wire, counted through the rows after the first.
pub open spec fn cell_at(slot: nat) -> Variable {
    Variable(column(slot % 3), (1 + slot / 3) as usize)
}

/// The wires of the given gates, row by row.
pub open spec fn wires_of(gates: Seq<GateModel>) -> Seq<Option<VariableId>>
    decreases gates.len(),
{
    if gates.len() == 0 {
        seq![]
    } else {
        wires_of(gates.drop_last()).push(gates.last().a).push(gates.last().b).push(gates.last().c)
    }
}

/// The slot where each variable is first met among the wires.
pub open spec fn first_slots(wires: Seq<Option<VariableId>>) -> Map<VariableId, nat>
    decreases wires.len(),
{
    if wires.len() == 0 {
        Map::empty()
    } else {
        let before = first_slots(wires.drop_last());
        match wires.last() {
            Some(v) => if before.contains_key(v) {
                before
            } else {
                before.insert(v, (wires.len() - 1) as nat)
            },
            None => before,
        }
    }
}

/// The copy constraints of the wires, in the order in which they are made:
/// an unused wire is tied to the zero cell, and a wire whose variable was
/// met before to the cell where it was first met.
pub open spec fn copies_of(wires: Seq<Option<VariableId>>) -> Seq<(Variable, Variable)>
    decreases wires.len(),
{
    if wires.len() == 0 {
        seq![]
    } else {
        let before = copies_of(wires.drop_last());
        let first = first_slots(wires.drop_last());
        let here = cell_at((wires.len() - 1) as nat);
        match wires.last() {
            Some(v) => if first.contains_key(v) {
                before.push((here, cell_at(first[v])))
            } else {
                before
            },
            None => before.push((here, zero_cell())),
        }
    }
}

/// The bookkeeping of synthesis agrees with the wires laid so far.
pub open spec fn laid(
    wires: Seq<Option<VariableId>>,
    inputs: Map<VariableId, Variable>,
    copies: Seq<(Variable, Variable)>,
) -> bool {
    &&& copies == copies_of(wires)
    &&& forall|v: VariableId| inputs.contains_key(v) <==> first_slots(wires).contains_key(v)
    &&& forall|v: VariableId| #[trigger]
        inputs.contains_key(v) ==> inputs[v] == cell_at(first_slots(wires)[v])
}

/// Binds `var` to `cell` if it is met for the first time, and ties `cell`
/// to the cell of its first meeting otherwise.
fn copy_variable(
    var: VariableId,
    cell: Variable,
    map: &mut HashMap<VariableId, Variable>,
    copies: &mut Vec<(Variable, Variable)>,
    Ghost(wires): Ghost<Seq<Option<VariableId>>>,
)
    requires
        laid(wires, old(map)@, old(copies)@),
        cell == cell_at(wires.len()),
    ensures
        laid(wires.push(Some(var)), final(map)@, final(copies)@),
{
    let ghost next = wires.push(Some(var));
    assert(next.drop_last() == wires);
    match map.get(&var) {
        None => {
            map.insert(var, cell);
        },
        Some(first) => {
            copies.push((cell, *first));
        },
    }
}

/// Ties the unused `cell` to the zero cell.
fn copy_unused(
    cell: Variable,
    map: &HashMap<VariableId, Variable>,
    copies: &mut Vec<(Variable, Variable)>,
    Ghost(wires): Ghost<Seq<Option<VariableId>>>,
)
    requires
        laid(wires, map@, old(copies)@),
        cell == cell_at(wires.len()),
    ensures
        laid(wires.push(None), map@, final(copies)@),
{
    let ghost next = wires.push(None);
    assert(next.drop_last() == wires);
    copies.push((cell, Variable(AdviceColumn::B, 0)));
}

/// Lays one wire of the row `row`.
fn lay_wire(
    wire: Option<VariableId>,
    column: AdviceColumn,
    row: usize,
    map: &mut HashMap<VariableId, Variable>,
    copies: &mut Vec<(Variable, Variable)>,
    Ghost(wires): Ghost<Seq<Option<VariableId>>>,
)
    requires
        laid(wires, old(map)@, old(copies)@),
        Variable(column, row) == cell_at(wires.len()),
    ensures
        laid(wires.push(wire), final(map)@, final(copies)@),
{
    match wire {
        Some(var) => copy_variable(var, Variable(column, row), map, copies, Ghost(wires)),
        None => copy_unused(Variable(column, row), map, copies, Ghost(wires)),
    }
}

/// Adds the row of `gate` and the copy constraints of its three wires.
fn make_gate(
    gate: Gate<Fp>,
    inputs: &mut HashMap<VariableId, Variable>,
    synthesis: &mut Synthesis,
)
    requires
        old(synthesis).gates.len() >= 1,
        laid(
            wires_of(gate_models(old(synthesis).gates@).skip(1)),
            old(inputs)@,
            old(synthesis).copies@,
        ),
    ensures
        final(synthesis).gates@ == old(synthesis).gates@.push(gate),
        laid(
            wires_of(gate_models(final(synthesis).gates@).skip(1)),
            final(inputs)@,
            final(synthesis).copies@,
        ),
{
    let row = synthesis.gates.len();
    let ghost rows = gate_models(synthesis.gates@).skip(1);
    let ghost wires = wires_of(rows);
    proof {
        lemma_wires_len(rows);
        assert(wires.len() == 3 * (row - 1));
    }
    synthesis.gates.push(gate);
    lay_wire(gate.a, AdviceColumn::A, row, inputs, &mut synthesis.copies, Ghost(wires));
    lay_wire(
        gate.b,
        AdviceColumn::B,
        row,
        inputs,
        &mut synthesis.copies,
        Ghost(wires.push(gate.a)),
    );
    lay_wire(
        gate.c,
        AdviceColumn::C,
        row,
        inputs,
        &mut synthesis.copies,
        Ghost(wires.push(gate.a).push(gate.b)),
    );
    proof {
        let now = gate_models(synthesis.gates@).skip(1);
        assert(now.drop_last() == rows);
        assert(now.last() == gate@);
    }
}

/// There are three wires to a row.
pub proof fn lemma_wires_len(gates: Seq<GateModel>)
    ensures
        wires_of(gates).len() == 3 * gates.len(),
    decreases gates.len(),
{
    if gates.len() > 0 {
        lemma_wires_len(gates.drop_last());
    }
}

/// Stored entries of a witness as numbers: a stored representation is the
/// number that its bytes stand for.
pub open spec fn byte_entries(entries: Seq<(VariableId, Option<[u8; 32]>)>) -> Seq<
    (VariableId, Option<nat>),
> {
    Seq::new(
        entries.len(),
        |i: int|
            (
                entries[i].0,
                match entries[i].1 {
                    Some(bytes) => Some(le_value(bytes@)),
                    None => None,
                },
            ),
    )
}

/// The two cells are one, or a copy constraint ties the first to the second.
pub open spec fn tied(cell: Variable, to: Variable, copies: Seq<(Variable, Variable)>) -> bool {
    cell == to || copies.contains((cell, to))
}

/// What the layout does with one wire: a wire that holds a variable is the
/// cell where the variable is first met or is tied to that cell, and an
/// unused wire is tied to the zero cell.
pub proof fn lemma_wire_tied(wires: Seq<Option<VariableId>>, slot: int)
    requires
        0 <= slot < wires.len(),
    ensures
        match wires[slot] {
            Some(v) => {
                let first = first_slots(wires);
                &&& first.contains_key(v)
                &&& first[v] <= slot
                &&& wires[first[v] as int] == Some(v)
                &&& first[v] != slot ==> copies_of(wires).contains(
                    (cell_at(slot as nat), cell_at(first[v])),
                )
            },
            None => copies_of(wires).contains((cell_at(slot as nat), zero_cell())),
        },
    decreases wires.len(),
{
    let before = wires.drop_last();
    let last = (wires.len() - 1) as int;
    let copies = copies_of(wires);
    let earlier = copies_of(before);
    assert(forall|i: int| 0 <= i < earlier.len() ==> copies[i] == earlier[i]);
    if slot < last {
        lemma_wire_tied(before, slot);
        assert(wires[slot] == before[slot]);
        match wires[slot] {
            Some(v) => {
                let pair = (cell_at(slot as nat), cell_at(first_slots(before)[v]));
                if first_slots(before)[v] != slot {
                    let i = choose|i: int| 0 <= i < earlier.len() && earlier[i] == pair;
                    assert(copies[i] == pair);
                }
                assert(wires[first_slots(before)[v] as int] == before[first_slots(before)[v] as int]);
            },
            None => {
                let pair = (cell_at(slot as nat), zero_cell());
                let i = choose|i: int| 0 <= i < earlier.len() && earlier[i] == pair;
                assert(copies[i] == pair);
            },
        }
    } else {
        match wires[slot] {
            Some(v) => {
                if first_slots(before).contains_key(v) {
                    lemma_first_slot(before, v);
                    assert(copies[earlier.len() as int] == (
                        cell_at(slot as nat),
                        cell_at(first_slots(before)[v]),
                    ));
                    assert(wires[first_slots(before)[v] as int] == before[first_slots(
                        before,
                    )[v] as int]);
                }
            },
            None => {
                assert(copies[earlier.len() as int] == (cell_at(slot as nat), zero_cell()));
            },
        }
    }
}

/// The first slot of a variable is a slot that holds it.
pub proof fn lemma_first_slot(wires: Seq<Option<VariableId>>, v: VariableId)
    requires
        first_slots(wires).contains_key(v),
    ensures
        first_slots(wires)[v] < wires.len(),
        wires[first_slots(wires)[v] as int] == Some(v),
    decreases wires.len(),
{
    if wires.len() > 0 {
        let before = wires.drop_last();
        if first_slots(before).contains_key(v) {
            lemma_first_slot(before, v);
            assert(wires[first_slots(before)[v] as int] == before[first_slots(before)[v] as int]);
        }
    }
}

/// Variable identity: two wires that hold the same variable are each the
/// cell where that variable was first met, or tied to it by a copy
/// constraint.
pub proof fn lemma_variable_identity(wires: Seq<Option<VariableId>>, one: int, other: int)
    requires
        0 <= one < wires.len(),
        0 <= other < wires.len(),
        wires[one] is Some,
        wires[one] == wires[other],
    ensures
        ({
            let hub = cell_at(first_slots(wires)[wires[one]->0]);
            tied(cell_at(one as nat), hub, copies_of(wires)) && tied(
                cell_at(other as nat),
                hub,
                copies_of(wires),
            )
        }),
{
    lemma_wire_tied(wires, one);
    lemma_wire_tied(wires, other);
}

impl Halo2Module {
    /// The witness map has an entry for every variable of the module and
    /// for nothing else, and `k` is the least exponent whose power of two
    /// holds the constraints and the padding.
    pub open spec fn wf(&self) -> bool {
        &&& self.variable_map@.dom() == module_variables(self.module@).to_set()
        &&& is_size_exponent(self.k as nat, (self.module@.exprs.len() + ROW_PADDING) as nat)
    }

    /// The circuit of `module`, every variable unknown.
    pub fn new(module: Module) -> (r: Self)
        ensures
            r.wf(),
            r.module == module,
            forall|v: VariableId| r.variable_map@.contains_key(v) ==> r.variable_map@[v] is None,
    {
        let variables = collect_module_variables(&module);
        let variable_map = unknown_witness(&variables);
        let (k, _) = wide_size_exponent(module.exprs.len() as u128 + ROW_PADDING as u128);
        Halo2Module { module, variable_map, k }
    }

    /// Gives every variable its value: its input from `field_assigns`, or
    /// else the value of its definition.
    ///
    /// On success every entry of the witness is known. Where a variable has
    /// no value the circuit is left as it was and the failure of the first
    /// such variable is returned.
    pub fn populate_variables(&mut self, field_assigns: HashMap<VariableId, Fp>) -> (r: Result<
        (),
        EvalError,
    >)
        requires
            old(self).wf(),
        ensures
            final(self).wf(),
            final(self).module == old(self).module,
            final(self).k == old(self).k,
            match r {
                Ok(()) => all_known(final(self).variable_map@) && population(
                    module_variables(old(self).module@),
                    module_variables(old(self).module@).len(),
                    definitions_of(old(self).module@.defs, old(self).module@.defs.len()),
                    values(field_assigns@),
                    modulus(),
                    false,
                ) == Ok::<Map<VariableId, nat>, EvalError>(
                    known_values(final(self).variable_map@),
                ),
                Err(err) => final(self).variable_map@ == old(self).variable_map@ && population(
                    module_variables(old(self).module@),
                    module_variables(old(self).module@).len(),
                    definitions_of(old(self).module@.defs, old(self).module@.defs.len()),
                    values(field_assigns@),
                    modulus(),
                    false,
                ) == Err::<Map<VariableId, nat>, EvalError>(err),
            },
    {
        let variables = collect_module_variables(&self.module);
        let defs = definitions(&self.module);
        populate(&variables, &defs, &mut self.variable_map, field_assigns, false)
    }

    /// The same circuit with every variable unknown.
    pub fn without_witnesses(&self) -> (r: Self)
        requires
            self.wf(),
        ensures
            r.wf(),
            r.module@ == self.module@,
            r.k == self.k,
            forall|v: VariableId| r.variable_map@.contains_key(v) ==> r.variable_map@[v] is None,
    {
        let module = self.module.duplicate();
        let variables = collect_module_variables(&module);
        let variable_map = unknown_witness(&variables);
        Halo2Module { module, variable_map, k: self.k }
    }

    /// The value to assign to the cell of a wire: zero on an unused wire,
    /// and otherwise what the witness holds for the variable, which may be
    /// unknown.
    pub fn wire_value(&self, wire: Option<VariableId>) -> (value: Option<Fp>)
        requires
            wire is Some ==> self.variable_map@.contains_key(wire->0),
        ensures
            match wire {
                Some(v) => value == self.variable_map@[v],
                None => value is Some && value->0.value() == 0,
            },
    {
        match wire {
            Some(v) => match self.variable_map.get(&v) {
                Some(value) => *value,
                None => None,
            },
            None => Some(Fp::zero()),
        }
    }

    /// Lays the circuit out: the row that pins the zero cell, then one row
    /// for each constraint in order, with the copy constraints of its wires.
    ///
    /// Fails on the first constraint that has no gate, naming it.
    pub fn synthesize(&self) -> (r: Result<Synthesis, SynthesisError>)
        ensures
            match r {
                Ok(s) => {
                    &&& s.gates@.len() == self.module@.exprs.len() + 1
                    &&& s.gates@[0]@ == pin_gate()
                    &&& covers(
                        self.module@.exprs,
                        gate_models(s.gates@).skip(1),
                        modulus(),
                        false,
                    )
                    &&& s.copies@ == copies_of(wires_of(gate_models(s.gates@).skip(1)))
                    &&& self.wf() ==> forall|i: int, v: VariableId|
                        0 <= i < s.gates@.len() && on_wire(#[trigger] s.gates@[i]@, v)
                            ==> #[trigger] self.variable_map@.contains_key(v)
                },
                Err(error) => first_failure(self.module@.exprs, error, modulus(), false),
            },
    {
        let gates = match lower_module::<Fp>(&self.module.exprs, false) {
            Ok(gates) => gates,
            Err(error) => {
                assert(self.module@.exprs == Seq::new(
                    self.module.exprs@.len(),
                    |i: int| self.module.exprs@[i]@,
                ));
                return Err(error);
            },
        };
        let zero = Fp::zero();
        let pin = Gate {
            a: None,
            b: None,
            c: None,
            q_l: zero,
            q_r: Fp::one(),
            q_o: zero,
            q_m: zero,
            q_c: zero,
        };
        let mut synthesis = Synthesis { gates: Vec::new(), copies: Vec::new() };
        synthesis.gates.push(pin);
        let mut inputs: HashMap<VariableId, Variable> = HashMap::new();
        proof {
            assert(gate_models(synthesis.gates@).skip(1) == Seq::<GateModel>::empty());
        }
        let mut i: usize = 0;
        while i < gates.len()
            invariant
                i <= gates.len(),
                synthesis.gates@.len() == i + 1,
                synthesis.gates@[0]@ == pin_gate(),
                forall|j: int| 0 <= j < i ==> synthesis.gates@[j + 1] == #[trigger] gates@[j],
                laid(
                    wires_of(gate_models(synthesis.gates@).skip(1)),
                    inputs@,
                    synthesis.copies@,
                ),
            decreases gates.len() - i,
        {
            make_gate(gates[i], &mut inputs, &mut synthesis);
            i += 1;
        }
        proof {
            assert(self.module@.exprs == Seq::new(
                self.module.exprs@.len(),
                |i: int| self.module.exprs@[i]@,
            ));
            assert(gate_models(synthesis.gates@).skip(1) == gate_models(gates@));
            if self.wf() {
                assert forall|i: int, v: VariableId|
                    0 <= i < synthesis.gates@.len() && on_wire(
                        #[trigger] synthesis.gates@[i]@,
                        v,
                    ) implies #[trigger] self.variable_map@.contains_key(v) by {
                    assert(i > 0);
                    assert(gate_models(gates@)[i - 1] == synthesis.gates@[i]@);
                    lemma_gate_wires(self.module@.exprs[i - 1], modulus(), false, v);
                    lemma_constraint_variable(self.module@, i - 1, v);
                    assert(module_variables(self.module@).to_set().contains(v));
                }
            }
        }
        Ok(synthesis)
    }

    /// Whether the circuit is well formed.
    pub fn check(&self) -> (ok: bool)
        ensures
            ok == self.wf(),
    {
        let variables = collect_module_variables(&self.module);
        let (k, _) = wide_size_exponent(self.module.exprs.len() as u128 + ROW_PADDING as u128);
        proof {
            if is_size_exponent(
                self.k as nat,
                (self.module@.exprs.len() + ROW_PADDING) as nat,
            ) {
                lemma_size_exponent_unique(
                    self.k as nat,
                    k as nat,
                    (self.module@.exprs.len() + ROW_PADDING) as nat,
                );
            }
        }
        covers_variables(&self.variable_map, &variables) && k == self.k
    }

    /// What is stored of the witness: for each variable of the module, in
    /// order, the canonical bytes of its value, and nothing for an unknown
    /// one.
    pub fn encode_witness(&self) -> (entries: Vec<(VariableId, Option<[u8; 32]>)>)
        requires
            self.wf(),
        ensures
            byte_entries(entries@) == encoding(
                witness_values(self.variable_map@),
                module_variables(self.module@),
            ),
    {
        let variables = collect_module_variables(&self.module);
        let mut entries: Vec<(VariableId, Option<[u8; 32]>)> = Vec::new();
        let mut i: usize = 0;
        while i < variables.len()
            invariant
                i <= variables.len(),
                self.variable_map@.dom() == variables@.to_set(),
                entries@.len() == i,
                forall|j: int|
                    0 <= j < i ==> (#[trigger] byte_entries(entries@)[j]) == (
                        variables@[j],
                        witness_values(self.variable_map@)[variables@[j]],
                    ),
            decreases variables.len() - i,
        {
            let v = variables[i];
            assert(variables@.to_set().contains(variables@[i as int]));
            let stored = match self.variable_map.get(&v) {
                Some(Some(x)) => Some(x.to_repr()),
                _ => None,
            };
            let ghost before = entries@;
            entries.push((v, stored));
            assert forall|j: int| 0 <= j < i + 1 implies (#[trigger] byte_entries(entries@)[j]) == (
                variables@[j],
                witness_values(self.variable_map@)[variables@[j]],
            ) by {
                if j < i {
                    assert(byte_entries(before)[j] == byte_entries(entries@)[j]);
                }
            }
            i += 1;
        }
        assert(byte_entries(entries@) =~= encoding(
            witness_values(self.variable_map@),
            module_variables(self.module@),
        ));
        entries
    }

    /// The circuit with the given module, stored witness and size
    /// exponent. The bytes stored for a variable have to be the canonical
    /// representation of a field element; the first variable for which
    /// they are not is the error.
    pub fn decode(module: Module, entries: &Vec<(VariableId, Option<[u8; 32]>)>, k: u32) -> (r:
        Result<Halo2Module, DecodeError>)
        ensures
            match r {
                Ok(m) => m.module == module && m.k == k && decoding(
                    byte_entries(entries@),
                    entries@.len(),
                    modulus(),
                ) == Ok::<Map<VariableId, Option<nat>>, DecodeError>(
                    witness_values(m.variable_map@),
                ),
                Err(err) => decoding(byte_entries(entries@), entries@.len(), modulus()) == Err::<
                    Map<VariableId, Option<nat>>,
                    DecodeError,
                >(err),
            },
    {
        let ghost stored = byte_entries(entries@);
        let mut variable_map: HashMap<VariableId, Option<Fp>> = HashMap::new();
        let mut i: usize = 0;
        assert(witness_values(variable_map@) =~= Map::<VariableId, Option<nat>>::empty());
        while i < entries.len()
            invariant
                i <= entries.len(),
                stored == byte_entries(entries@),
                decoding(stored, i as nat, modulus()) == Ok::<
                    Map<VariableId, Option<nat>>,
                    DecodeError,
                >(witness_values(variable_map@)),
            decreases entries.len() - i,
        {
            let (v, bytes) = entries[i];
            let ghost before = variable_map@;
            let value = match bytes {
                Some(bytes) => match Fp::from_repr(bytes) {
                    Some(x) => Some(x),
                    None => {
                        proof {
                            lemma_decoding_fails(stored, (i + 1) as nat, stored.len(), modulus());
                        }
                        return Err(DecodeError::InvalidFieldRepr(v));
                    },
                },
                None => None,
            };
            variable_map.insert(v, value);
            assert(witness_values(variable_map@) =~= witness_values(before).insert(
                v,
                stored[i as int].1,
            ));
            i += 1;
        }
        Ok(Halo2Module { module, variable_map, k })
    }
}

} // verus!
