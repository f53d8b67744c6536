use circuit_synth::arith::make_constant;
use circuit_synth::ast::{Definition, Expr, InfixOp, Module, TExpr, TPat, Variable as Name};
use circuit_synth::circuit::DecodeError;
use circuit_synth::eval::EvalError;
use circuit_synth::field::FieldElement;
use circuit_synth::gate::{Gate, LowerError, SynthesisError};
use circuit_synth::halo2::field::Fp;
use circuit_synth::halo2::synth::{AdviceColumn, Halo2Module, Synthesis, Variable};
use circuit_synth::integer::Integer;
use halo2_proofs::circuit::{Cell, Layouter, SimpleFloorPlanner, Value};
use halo2_proofs::dev::MockProver;
use halo2_proofs::pasta::{EqAffine, Fp as Base};
use halo2_proofs::plonk::{
    create_proof, keygen_pk, keygen_vk, verify_proof, Advice, Circuit, Column, ConstraintSystem,
    Error, Fixed, SingleVerifier,
};
use halo2_proofs::poly::commitment::Params;
use halo2_proofs::poly::Rotation;
use halo2_proofs::transcript::{Blake2bRead, Blake2bWrite, Challenge255};
use ff::PrimeField;
use rand_core::OsRng;
use std::collections::HashMap;

fn constant(x: i64) -> TExpr {
    TExpr::constant(Integer::from_i64(x))
}

fn variable(id: u32) -> TExpr {
    TExpr::variable(id)
}

fn infix(op: InfixOp, a: TExpr, b: TExpr) -> TExpr {
    TExpr::infix(op, a, b)
}

fn equal(a: TExpr, b: TExpr) -> TExpr {
    TExpr::infix(InfixOp::Equal, a, b)
}

fn fp(x: i64) -> Fp {
    make_constant(&Integer::from_i64(x))
}

/// A module in which every constraint `v = e` is also the definition of `v`.
fn defining(constraints: Vec<(u32, TExpr)>) -> Module {
    let mut defs = Vec::new();
    let mut exprs = Vec::new();
    for (v, e) in constraints {
        defs.push(Definition::new(TPat::variable(v), e.duplicate()));
        exprs.push(equal(variable(v), e));
    }
    Module { pubs: vec![], defs, exprs }
}

/// x = 3, y = x + 4, z = y * 2
fn chain() -> Module {
    defining(vec![
        (0, constant(3)),
        (1, infix(InfixOp::Add, variable(0), constant(4))),
        (2, infix(InfixOp::Multiply, variable(1), constant(2))),
    ])
}

#[derive(Clone)]
struct Columns {
    advice: [Column<Advice>; 3],
    fixed: [Column<Fixed>; 5],
}

#[derive(Clone)]
struct Table {
    rows: Vec<([Value<Base>; 3], [Base; 5])>,
    copies: Vec<((usize, usize), (usize, usize))>,
}

fn base(x: &Fp) -> Base {
    Base::from_repr(x.to_repr()).unwrap()
}

fn place(cell: &Variable) -> (usize, usize) {
    let column = match cell.0 {
        AdviceColumn::A => 0,
        AdviceColumn::B => 1,
        AdviceColumn::C => 2,
    };
    (column, cell.1)
}

fn table(circuit: &Halo2Module, synthesis: &Synthesis) -> Table {
    let mut rows = Vec::new();
    for gate in &synthesis.gates {
        let wires = [gate.a, gate.b, gate.c].map(|wire| match circuit.wire_value(wire) {
            Some(x) => Value::known(base(&x)),
            None => Value::unknown(),
        });
        let selectors = [gate.q_l, gate.q_r, gate.q_o, gate.q_m, gate.q_c].map(|q| base(&q));
        rows.push((wires, selectors));
    }
    let copies = synthesis.copies.iter().map(|(from, to)| (place(from), place(to))).collect();
    Table { rows, copies }
}

impl Circuit<Base> for Table {
    type Config = Columns;
    type FloorPlanner = SimpleFloorPlanner;

    fn without_witnesses(&self) -> Self {
        let rows = self.rows.iter().map(|(_, q)| ([Value::unknown(); 3], *q)).collect();
        Table { rows, copies: self.copies.clone() }
    }

    fn configure(meta: &mut ConstraintSystem<Base>) -> Columns {
        meta.set_minimum_degree(5);
        let advice = [meta.advice_column(), meta.advice_column(), meta.advice_column()];
        for column in advice {
            meta.enable_equality(column);
        }
        let sm = meta.fixed_column();
        let sl = meta.fixed_column();
        let sr = meta.fixed_column();
        let so = meta.fixed_column();
        let sc = meta.fixed_column();
        meta.create_gate("Combined add-mult", |meta| {
            let a = meta.query_advice(advice[0], Rotation::cur());
            let b = meta.query_advice(advice[1], Rotation::cur());
            let c = meta.query_advice(advice[2], Rotation::cur());
            let sl = meta.query_fixed(sl, Rotation::cur());
            let sr = meta.query_fixed(sr, Rotation::cur());
            let so = meta.query_fixed(so, Rotation::cur());
            let sm = meta.query_fixed(sm, Rotation::cur());
            let sc = meta.query_fixed(sc, Rotation::cur());
            vec![a.clone() * sl + b.clone() * sr + a * b * sm + (c * so) + sc]
        });
        Columns { advice, fixed: [sl, sr, so, sm, sc] }
    }

    fn synthesize(&self, config: Columns, mut layouter: impl Layouter<Base>) -> Result<(), Error> {
        let mut cells: Vec<[Cell; 3]> = Vec::new();
        for (wires, selectors) in &self.rows {
            let row = layouter.assign_region(
                || "raw_poly",
                |mut region| {
                    let lhs = region.assign_advice(|| "lhs", config.advice[0], 0, || wires[0])?;
                    let rhs = region.assign_advice(|| "rhs", config.advice[1], 0, || wires[1])?;
                    let out = region.assign_advice(|| "out", config.advice[2], 0, || wires[2])?;
                    for n in 0..5 {
                        region.assign_fixed(
                            || "selector",
                            config.fixed[n],
                            0,
                            || Value::known(selectors[n]),
                        )?;
                    }
                    Ok([lhs.cell(), rhs.cell(), out.cell()])
                },
            )?;
            cells.push(row);
        }
        for (from, to) in &self.copies {
            layouter.assign_region(
                || "copy",
                |mut region| region.constrain_equal(cells[from.1][from.0], cells[to.1][to.0]),
            )?;
        }
        Ok(())
    }
}

fn satisfied(circuit: &Halo2Module) -> bool {
    let synthesis = circuit.synthesize().unwrap();
    let prover = MockProver::run(circuit.k, &table(circuit, &synthesis), vec![]).unwrap();
    prover.verify().is_ok()
}

fn populated(module: Module, inputs: Vec<(u32, i64)>) -> Halo2Module {
    let mut circuit = Halo2Module::new(module);
    let mut assigns = HashMap::new();
    for (v, x) in inputs {
        assigns.insert(v, fp(x));
    }
    circuit.populate_variables(assigns).unwrap();
    circuit
}

#[test]
fn new_circuit_knows_no_value() {
    let circuit = Halo2Module::new(chain());
    assert_eq!(circuit.variable_map.len(), 3);
    assert!(circuit.variable_map.values().all(|x| x.is_none()));
    assert_eq!(circuit.k, 4);
    assert!(circuit.check());
}

#[test]
fn size_exponent_is_the_least_that_holds_constraints_and_padding() {
    let sized = |n: usize| {
        let exprs = (0..n).map(|_| equal(constant(0), constant(0))).collect();
        Halo2Module::new(Module { pubs: vec![], defs: vec![], exprs }).k
    };
    assert_eq!(sized(0), 3);
    assert_eq!(sized(1), 4);
    assert_eq!(sized(8), 4);
    assert_eq!(sized(9), 5);
    assert_eq!(sized(248), 8);
    assert_eq!(sized(249), 9);
    assert_eq!(sized(257), 9);
}

#[test]
fn chain_is_populated_from_its_definitions() {
    let circuit = populated(chain(), vec![]);
    assert_eq!(circuit.variable_map[&0], Some(fp(3)));
    assert_eq!(circuit.variable_map[&1], Some(fp(7)));
    assert_eq!(circuit.variable_map[&2], Some(fp(14)));
    assert!(satisfied(&circuit));
}

#[test]
fn chain_is_proved_and_verified() {
    let circuit = populated(chain(), vec![]);
    let synthesis = circuit.synthesize().unwrap();
    let table = table(&circuit, &synthesis);
    let params: Params<EqAffine> = Params::new(circuit.k);
    let vk = keygen_vk(&params, &table).unwrap();
    let pk = keygen_pk(&params, vk.clone(), &table).unwrap();
    let mut transcript = Blake2bWrite::<_, _, Challenge255<_>>::init(vec![]);
    create_proof(&params, &pk, &[table], &[&[]], OsRng, &mut transcript).unwrap();
    let proof = transcript.finalize();
    let strategy = SingleVerifier::new(&params);
    let mut transcript = Blake2bRead::<_, _, Challenge255<_>>::init(&proof[..]);
    assert!(verify_proof(&params, &vk, strategy, &[&[]], &mut transcript).is_ok());
    // a proof that was tampered with is rejected
    let mut forged = proof.clone();
    forged[10] ^= 1;
    let strategy = SingleVerifier::new(&params);
    let mut transcript = Blake2bRead::<_, _, Challenge255<_>>::init(&forged[..]);
    assert!(verify_proof(&params, &vk, strategy, &[&[]], &mut transcript).is_err());
}

#[test]
fn inputs_take_precedence_and_flow_into_definitions() {
    // a = b with a := b and b given
    let module = defining(vec![(0, variable(1))]);
    let circuit = populated(module, vec![(1, 9)]);
    assert_eq!(circuit.variable_map[&0], Some(fp(9)));
    assert_eq!(circuit.variable_map[&1], Some(fp(9)));
    assert!(satisfied(&circuit));
}

#[test]
fn quotient_is_populated_and_satisfied() {
    // q = p / r, r = 5, p = 20
    let module = defining(vec![
        (0, infix(InfixOp::Divide, variable(1), variable(2))),
        (2, constant(5)),
        (1, constant(20)),
    ]);
    let circuit = populated(module, vec![]);
    assert_eq!(circuit.variable_map[&1], Some(fp(20)));
    assert_eq!(circuit.variable_map[&2], Some(fp(5)));
    assert_eq!(circuit.variable_map[&0], Some(fp(4)));
    assert!(satisfied(&circuit));
}

#[test]
fn strict_quotient_by_zero_fails_population() {
    let module = defining(vec![
        (0, infix(InfixOp::Divide, variable(1), variable(2))),
        (2, constant(0)),
        (1, constant(1)),
    ]);
    let mut circuit = Halo2Module::new(module);
    assert_eq!(circuit.populate_variables(HashMap::new()), Err(EvalError::DivisionByZero));
    // the witness is left as it was
    assert!(circuit.variable_map.values().all(|x| x.is_none()));
}

#[test]
fn population_fails_on_variables_without_value() {
    let module = Module {
        pubs: vec![],
        defs: vec![],
        exprs: vec![equal(variable(0), variable(1))],
    };
    let mut circuit = Halo2Module::new(module);
    assert_eq!(
        circuit.populate_variables(HashMap::new()),
        Err(EvalError::UndefinedVariable(0))
    );
    let cyclic = defining(vec![(0, variable(1)), (1, variable(0))]);
    let mut circuit = Halo2Module::new(cyclic);
    assert_eq!(circuit.populate_variables(HashMap::new()), Err(EvalError::CyclicDefinition));
}

#[test]
fn unsatisfiable_constraint_compiles_and_is_never_satisfied() {
    // 0 = 1
    let module = Module {
        pubs: vec![],
        defs: vec![],
        exprs: vec![equal(constant(0), constant(1))],
    };
    let circuit = populated(module, vec![]);
    let synthesis = circuit.synthesize().unwrap();
    assert_eq!(synthesis.gates.len(), 2);
    assert_eq!(synthesis.gates[1].q_c, fp(-1));
    assert!(!satisfied(&circuit));
    // a proof can be made, and is rejected
    let table = table(&circuit, &synthesis);
    let params: Params<EqAffine> = Params::new(circuit.k);
    let vk = keygen_vk(&params, &table).unwrap();
    let pk = keygen_pk(&params, vk.clone(), &table).unwrap();
    let mut transcript = Blake2bWrite::<_, _, Challenge255<_>>::init(vec![]);
    create_proof(&params, &pk, &[table], &[&[]], OsRng, &mut transcript).unwrap();
    let proof = transcript.finalize();
    let strategy = SingleVerifier::new(&params);
    let mut transcript = Blake2bRead::<_, _, Challenge255<_>>::init(&proof[..]);
    assert!(verify_proof(&params, &vk, strategy, &[&[]], &mut transcript).is_err());
}

#[test]
fn witness_that_breaks_a_constraint_is_not_satisfied() {
    // a = b with both given, and different
    let module = Module {
        pubs: vec![],
        defs: vec![],
        exprs: vec![equal(variable(0), variable(1))],
    };
    assert!(satisfied(&populated(
        Module { pubs: vec![], defs: vec![], exprs: vec![equal(variable(0), variable(1))] },
        vec![(0, 2), (1, 2)]
    )));
    assert!(!satisfied(&populated(module, vec![(0, 1), (1, 2)])));
}

#[test]
fn layout_pins_zero_and_ties_cells() {
    let circuit = Halo2Module::new(chain());
    let synthesis = circuit.synthesize().unwrap();
    let zero = fp(0);
    let pin = Gate {
        a: None,
        b: None,
        c: None,
        q_l: zero,
        q_r: fp(1),
        q_o: zero,
        q_m: zero,
        q_c: zero,
    };
    assert_eq!(synthesis.gates.len(), 4);
    assert_eq!(synthesis.gates[0], pin);
    let zero_cell = Variable(AdviceColumn::B, 0);
    let cell = |column, row| Variable(column, row);
    assert_eq!(
        synthesis.copies,
        vec![
            // x = 3: wires (x, -, -)
            (cell(AdviceColumn::B, 1), zero_cell),
            (cell(AdviceColumn::C, 1), zero_cell),
            // y = x + 4: wires (y, x, -)
            (cell(AdviceColumn::B, 2), cell(AdviceColumn::A, 1)),
            (cell(AdviceColumn::C, 2), zero_cell),
            // z = y * 2: wires (z, y, -)
            (cell(AdviceColumn::B, 3), cell(AdviceColumn::A, 2)),
            (cell(AdviceColumn::C, 3), zero_cell),
        ]
    );
}

#[test]
fn same_variable_on_two_wires_of_one_row() {
    // v = v * v
    let module = Module {
        pubs: vec![],
        defs: vec![],
        exprs: vec![equal(variable(5), infix(InfixOp::Multiply, variable(5), variable(5)))],
    };
    let circuit = Halo2Module::new(module);
    let synthesis = circuit.synthesize().unwrap();
    assert_eq!(
        synthesis.copies,
        vec![
            (Variable(AdviceColumn::B, 1), Variable(AdviceColumn::A, 1)),
            (Variable(AdviceColumn::C, 1), Variable(AdviceColumn::A, 1)),
        ]
    );
    assert!(satisfied(&populated(
        Module {
            pubs: vec![],
            defs: vec![],
            exprs: vec![equal(variable(5), infix(InfixOp::Multiply, variable(5), variable(5)))],
        },
        vec![(5, 1)]
    )));
}

#[test]
fn synthesis_is_the_same_every_time() {
    let circuit = populated(chain(), vec![]);
    let one = circuit.synthesize().unwrap();
    let other = circuit.synthesize().unwrap();
    assert_eq!(one.gates, other.gates);
    assert_eq!(one.copies, other.copies);
    assert_eq!(circuit.encode_witness(), circuit.encode_witness());
}

#[test]
fn synthesis_names_the_constraint_that_has_no_gate() {
    let module = Module {
        pubs: vec![],
        defs: vec![],
        exprs: vec![
            equal(variable(0), constant(1)),
            equal(variable(0), infix(InfixOp::DivideZ, variable(1), variable(2))),
        ],
    };
    let circuit = Halo2Module::new(module);
    assert_eq!(
        circuit.synthesize().err(),
        Some(SynthesisError { index: 1, kind: LowerError::UnsupportedConstraint })
    );
}

#[test]
fn without_witnesses_forgets_every_value() {
    let circuit = populated(chain(), vec![]);
    let blank = circuit.without_witnesses();
    assert_eq!(blank.k, circuit.k);
    assert_eq!(blank.variable_map.len(), 3);
    assert!(blank.variable_map.values().all(|x| x.is_none()));
    assert_eq!(blank.module.exprs.len(), 3);
    assert!(blank.check());
}

#[test]
fn wire_values_are_zero_on_unused_wires() {
    let circuit = populated(chain(), vec![]);
    assert_eq!(circuit.wire_value(None), Some(fp(0)));
    assert_eq!(circuit.wire_value(Some(1)), Some(fp(7)));
    let blank = circuit.without_witnesses();
    assert_eq!(blank.wire_value(Some(1)), None);
}

#[test]
fn witness_is_stored_and_read_back() {
    let circuit = populated(chain(), vec![]);
    let stored = circuit.encode_witness();
    assert_eq!(
        stored,
        vec![(0, Some(fp(3).to_repr())), (1, Some(fp(7).to_repr())), (2, Some(fp(14).to_repr()))]
    );
    let mut three = [0u8; 32];
    three[0] = 3;
    assert_eq!(stored[0].1, Some(three));
    let read = Halo2Module::decode(chain(), &stored, circuit.k).unwrap();
    assert_eq!(read.variable_map, circuit.variable_map);
    assert_eq!(read.k, circuit.k);
    assert!(read.check());
    assert_eq!(read.encode_witness(), stored);
    // unknown values are stored as nothing
    let blank = Halo2Module::new(chain());
    let stored = blank.encode_witness();
    assert_eq!(stored, vec![(0, None), (1, None), (2, None)]);
    let read = Halo2Module::decode(chain(), &stored, blank.k).unwrap();
    assert_eq!(read.variable_map, blank.variable_map);
}

#[test]
fn bytes_that_are_no_representation_are_rejected() {
    let stored = vec![(0, Some([0u8; 32])), (1, Some([0xff; 32])), (2, Some([0xff; 32]))];
    assert_eq!(
        Halo2Module::decode(chain(), &stored, 4).err(),
        Some(DecodeError::InvalidFieldRepr(1))
    );
}

#[test]
fn check_finds_a_witness_or_size_that_does_not_fit() {
    let mut circuit = Halo2Module::new(chain());
    circuit.k = 5;
    assert!(!circuit.check());
    circuit.k = 4;
    assert!(circuit.check());
    circuit.variable_map.insert(77, None);
    assert!(!circuit.check());
    circuit.variable_map.remove(&77);
    circuit.variable_map.remove(&0);
    assert!(!circuit.check());
    circuit.variable_map.insert(78, None);
    assert!(!circuit.check());
}

#[test]
fn names_do_not_matter_to_the_circuit() {
    let named = Module {
        pubs: vec![],
        defs: vec![],
        exprs: vec![equal(
            Expr::Variable(Name { name: Some("x".to_string()), id: 0 }).type_expr(),
            constant(3),
        )],
    };
    let plain = Module {
        pubs: vec![],
        defs: vec![],
        exprs: vec![equal(variable(0), constant(3))],
    };
    assert_eq!(
        Halo2Module::new(named).synthesize().unwrap().gates,
        Halo2Module::new(plain).synthesize().unwrap().gates
    );
}

#[test]
fn stored_witness_survives_the_byte_encoding() {
    let circuit = populated(chain(), vec![]);
    let stored = circuit.encode_witness();
    let blob = bincode::encode_to_vec(&stored, bincode::config::standard()).unwrap();
    let (read, used): (Vec<(u32, Option<[u8; 32]>)>, usize) =
        bincode::decode_from_slice(&blob, bincode::config::standard()).unwrap();
    assert_eq!(used, blob.len());
    assert_eq!(read, stored);
    let decoded = Halo2Module::decode(chain(), &read, circuit.k).unwrap();
    let again =
        bincode::encode_to_vec(&decoded.encode_witness(), bincode::config::standard()).unwrap();
    assert_eq!(again, blob);
}
