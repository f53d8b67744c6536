use circuit_synth::arith::make_constant;
use circuit_synth::ast::{Definition, InfixOp, Module, TExpr, TPat, Variable};
use circuit_synth::circuit::DecodeError;
use circuit_synth::eval::EvalError;
use circuit_synth::field::FieldElement;
use circuit_synth::gate::{Gate, LowerError, SynthesisError};
use circuit_synth::integer::Integer;
use circuit_synth::plonk::field::Fr;
use circuit_synth::plonk::synth::{ComposerGate, PlonkModule};
use std::collections::HashMap;

fn constant(x: i64) -> TExpr {
    TExpr::constant(Integer::from_i64(x))
}

fn variable(id: u32) -> TExpr {
    TExpr::variable(id)
}

fn infix(op: InfixOp, a: TExpr, b: TExpr) -> TExpr {
    TExpr::infix(op, a, b)
}

fn equal(a: TExpr, b: TExpr) -> TExpr {
    TExpr::infix(InfixOp::Equal, a, b)
}

fn fr(x: i64) -> Fr {
    make_constant(&Integer::from_i64(x))
}

fn named(name: &str, id: u32) -> Variable {
    Variable { name: Some(name.to_string()), id }
}

/// A module in which every constraint `v = e` is also the definition of `v`.
fn defining(pubs: Vec<Variable>, constraints: Vec<(u32, TExpr)>) -> Module {
    let mut defs = Vec::new();
    let mut exprs = Vec::new();
    for (v, e) in constraints {
        defs.push(Definition::new(TPat::variable(v), e.duplicate()));
        exprs.push(equal(variable(v), e));
    }
    Module { pubs, defs, exprs }
}

fn populated(module: Module, inputs: Vec<(u32, i64)>) -> PlonkModule {
    let mut circuit = PlonkModule::new(module);
    let mut assigns = HashMap::new();
    for (v, x) in inputs {
        assigns.insert(v, fr(x));
    }
    circuit.populate_variables(assigns).unwrap();
    circuit
}

/// q_l*a + q_r*b + q_m*a*b + q_o*c + q_c + pi
fn gate_value(gate: &ComposerGate, witness: &HashMap<u32, Option<Fr>>, pi: Option<Fr>) -> Fr {
    let wire = |w: Option<u32>| match w {
        Some(v) => witness[&v].unwrap(),
        None => Fr::zero(),
    };
    let g = &gate.gate;
    let (a, b, c) = (wire(g.a), wire(g.b), wire(g.c));
    g.q_l
        .mul(&a)
        .add(&g.q_r.mul(&b))
        .add(&g.q_m.mul(&a.mul(&b)))
        .add(&g.q_o.mul(&c))
        .add(&g.q_c)
        .add(&pi.unwrap_or(Fr::zero()))
}

/// a = b with a public
fn public_pair() -> Module {
    defining(vec![named("a", 0)], vec![(0, variable(1))])
}

#[test]
fn public_variable_is_exposed_with_its_value() {
    let circuit = populated(public_pair(), vec![(1, 9)]);
    assert_eq!(circuit.variable_map[&0], Some(fr(9)));
    assert_eq!(circuit.variable_map[&1], Some(fr(9)));
    let gadget = circuit.gadget().unwrap();
    assert_eq!(gadget.inputs, vec![(0, fr(9)), (1, fr(9))]);
    assert_eq!(gadget.gates.len(), 2);
    let zero = fr(0);
    assert_eq!(
        gadget.gates[0],
        ComposerGate {
            gate: Gate {
                a: Some(0),
                b: None,
                c: None,
                q_l: fr(-1),
                q_r: zero,
                q_o: zero,
                q_m: zero,
                q_c: zero,
            },
            pi: Some(fr(9)),
        }
    );
    assert_eq!(
        gadget.gates[1],
        ComposerGate {
            gate: Gate {
                a: Some(0),
                b: Some(1),
                c: None,
                q_l: fr(1),
                q_r: fr(-1),
                q_o: zero,
                q_m: zero,
                q_c: zero,
            },
            pi: None,
        }
    );
    // the public input vector is [9]
    let public_inputs: Vec<Fr> = gadget.gates.iter().filter_map(|g| g.pi).collect();
    assert_eq!(public_inputs, vec![fr(9)]);
    for gate in &gadget.gates {
        assert!(gate_value(gate, &circuit.variable_map, gate.pi).is_zero());
    }
    // with the public input tampered to 10 the exposing gate no longer holds
    assert!(!gate_value(&gadget.gates[0], &circuit.variable_map, Some(fr(10))).is_zero());
}

#[test]
fn unknown_values_are_registered_as_zero() {
    let circuit = PlonkModule::new(public_pair());
    assert!(circuit.check());
    let gadget = circuit.gadget().unwrap();
    assert_eq!(gadget.inputs, vec![(0, fr(0)), (1, fr(0))]);
    assert_eq!(gadget.gates[0].pi, Some(fr(0)));
    assert_eq!(circuit.witness_value(0), fr(0));
    assert_eq!(circuit.witness_value(55), fr(0));
}

#[test]
fn safe_quotient_by_zero_populates_zero() {
    // q = p | r, r = 0, p = 1
    let module = defining(
        vec![],
        vec![
            (0, infix(InfixOp::DivideZ, variable(1), variable(2))),
            (2, constant(0)),
            (1, constant(1)),
        ],
    );
    let circuit = populated(module, vec![]);
    assert_eq!(circuit.variable_map[&0], Some(fr(0)));
    assert_eq!(circuit.variable_map[&1], Some(fr(1)));
    assert_eq!(circuit.variable_map[&2], Some(fr(0)));
}

#[test]
fn strict_quotient_by_zero_fails_population_here_too() {
    let module = defining(
        vec![],
        vec![
            (0, infix(InfixOp::Divide, variable(1), variable(2))),
            (2, constant(0)),
            (1, constant(1)),
        ],
    );
    let mut circuit = PlonkModule::new(module);
    assert_eq!(circuit.populate_variables(HashMap::new()), Err(EvalError::DivisionByZero));
    assert!(circuit.variable_map.values().all(|x| x.is_none()));
}

#[test]
fn quotient_gates_hold_of_the_populated_witness() {
    // q = p / r, r = 5, p = 20, s = p | r
    let module = defining(
        vec![],
        vec![
            (0, infix(InfixOp::Divide, variable(1), variable(2))),
            (2, constant(5)),
            (1, constant(20)),
            (3, infix(InfixOp::DivideZ, variable(1), variable(2))),
        ],
    );
    let circuit = populated(module, vec![]);
    assert_eq!(circuit.variable_map[&0], Some(fr(4)));
    assert_eq!(circuit.variable_map[&3], Some(fr(4)));
    let gadget = circuit.gadget().unwrap();
    assert_eq!(gadget.gates.len(), 4);
    for gate in &gadget.gates {
        assert!(gate_value(gate, &circuit.variable_map, gate.pi).is_zero());
    }
}

#[test]
fn gadget_names_the_constraint_that_has_no_gate() {
    let module = Module {
        pubs: vec![],
        defs: vec![],
        exprs: vec![
            equal(variable(0), constant(1)),
            equal(variable(0), infix(InfixOp::Divide, constant(1), constant(0))),
        ],
    };
    assert_eq!(
        PlonkModule::new(module).gadget().err(),
        Some(SynthesisError { index: 1, kind: LowerError::DivisionByZero })
    );
    let module = Module {
        pubs: vec![],
        defs: vec![],
        exprs: vec![equal(variable(0), infix(InfixOp::Modulo, variable(1), constant(2)))],
    };
    assert_eq!(
        PlonkModule::new(module).gadget().err(),
        Some(SynthesisError { index: 0, kind: LowerError::UnsupportedConstraint })
    );
}

#[test]
fn gadget_is_the_same_every_time() {
    let circuit = populated(public_pair(), vec![(1, 9)]);
    let one = circuit.gadget().unwrap();
    let other = circuit.gadget().unwrap();
    assert_eq!(one.inputs, other.inputs);
    assert_eq!(one.gates, other.gates);
}

#[test]
fn padded_size_is_a_power_of_two() {
    let sized = |constraints: usize, publics: usize| {
        let exprs = (0..constraints).map(|_| equal(constant(0), constant(0))).collect();
        let pubs = (0..publics).map(|i| Variable::new(i as u32)).collect();
        PlonkModule::new(Module { pubs, defs: vec![], exprs }).padded_circuit_size()
    };
    assert_eq!(sized(0, 0), Some(4));
    assert_eq!(sized(1, 0), Some(8));
    assert_eq!(sized(1, 1), Some(8));
    assert_eq!(sized(3, 1), Some(8));
    assert_eq!(sized(4, 1), Some(16));
    assert_eq!(sized(200, 52), Some(256));
    assert_eq!(sized(200, 53), Some(512));
}

#[test]
fn public_inputs_are_annotated_by_position() {
    let module = Module {
        pubs: vec![named("a", 0), named("b", 1), named("c", 2)],
        defs: vec![],
        exprs: vec![],
    };
    let circuit = PlonkModule::new(module);
    // the composer put a at row 4 and b at row 7; c has no position
    let annotated =
        circuit.annotate_public_inputs(&vec![4, 7], &vec![7, 4], &vec![fr(20), fr(10)]);
    assert_eq!(annotated.len(), 2);
    assert_eq!(annotated[&0].0.name, Some("a".to_string()));
    assert_eq!(annotated[&0].1, fr(10));
    assert_eq!(annotated[&1].0.name, Some("b".to_string()));
    assert_eq!(annotated[&1].1, fr(20));
    // a position without a value is annotated with zero
    let annotated = circuit.annotate_public_inputs(&vec![4, 7, 9], &vec![4], &vec![fr(10)]);
    assert_eq!(annotated.len(), 3);
    assert_eq!(annotated[&0].1, fr(10));
    assert_eq!(annotated[&1].1, fr(0));
    assert_eq!(annotated[&2].1, fr(0));
    // of two values at one position the later one counts
    let annotated =
        circuit.annotate_public_inputs(&vec![4], &vec![4, 4], &vec![fr(1), fr(2), fr(3)]);
    assert_eq!(annotated.len(), 1);
    assert_eq!(annotated[&0].1, fr(2));
}

#[test]
fn limbs_are_stored_and_read_back() {
    let circuit = populated(public_pair(), vec![(1, 9)]);
    let stored = circuit.encode_witness();
    assert_eq!(stored, vec![(0, Some(vec![9u32])), (1, Some(vec![9u32]))]);
    let read = PlonkModule::decode(public_pair(), &stored).unwrap();
    assert_eq!(read.variable_map, circuit.variable_map);
    assert!(read.check());
    assert_eq!(read.encode_witness(), stored);
    let blank = PlonkModule::new(public_pair());
    assert_eq!(blank.encode_witness(), vec![(0, None), (1, None)]);
    let zero = populated(defining(vec![], vec![(0, constant(0))]), vec![]);
    assert_eq!(zero.encode_witness(), vec![(0, Some(vec![]))]);
}

#[test]
fn limbs_that_are_no_representative_are_rejected() {
    let stored = vec![(0, Some(vec![1u32])), (1, Some(vec![u32::MAX; 8]))];
    assert_eq!(
        PlonkModule::decode(public_pair(), &stored).err(),
        Some(DecodeError::InvalidFieldRepr(1))
    );
    let stored = vec![(0, Some(vec![0u32, 0, 0, 0, 0, 0, 0, 0, 1]))];
    assert_eq!(
        PlonkModule::decode(public_pair(), &stored).err(),
        Some(DecodeError::InvalidFieldRepr(0))
    );
    // high zero limbs do not change the number
    let stored = vec![(0, Some(vec![5u32, 0, 0])), (1, None)];
    let read = PlonkModule::decode(public_pair(), &stored).unwrap();
    assert_eq!(read.variable_map[&0], Some(fr(5)));
    assert_eq!(read.variable_map[&1], None);
}

#[test]
fn field_operations_of_the_scalar_field() {
    assert_eq!(fr(3).add(&fr(4)), fr(7));
    assert_eq!(fr(3).sub(&fr(4)), fr(-1));
    assert_eq!(fr(3).mul(&fr(4)), fr(12));
    assert_eq!(fr(3).neg(), fr(-3));
    assert_eq!(fr(0).invert(), None);
    assert_eq!(fr(4).invert().unwrap().mul(&fr(4)), fr(1));
    assert_eq!(fr(2).pow(&vec![10u8]), fr(1024));
    assert_eq!(fr(2).pow(&vec![]), fr(1));
    assert!(fr(0).is_zero());
    assert!(!fr(1).is_zero());
    assert_eq!(Fr::from_le_bytes(&vec![0x01, 0x01]), fr(257));
    assert_eq!(fr(257).to_le_bytes()[..2], [0x01u8, 0x01]);
    // the order of the field stands for zero
    let order = vec![
        0x01u8, 0x00, 0x00, 0x00, 0xff, 0xff, 0xff, 0xff, 0xfe, 0x5b, 0xfe, 0xff, 0x02, 0xa4,
        0xbd, 0x53, 0x05, 0xd8, 0xa1, 0x09, 0x08, 0xd8, 0x39, 0x33, 0x48, 0x7d, 0x9d, 0x29, 0x53,
        0xa7, 0xed, 0x73,
    ];
    assert_eq!(Fr::from_le_bytes(&order), fr(0));
}

#[test]
fn stored_limbs_survive_the_byte_encoding() {
    let circuit = populated(public_pair(), vec![(1, -9)]);
    let stored = circuit.encode_witness();
    let blob = bincode::encode_to_vec(&stored, bincode::config::standard()).unwrap();
    let (read, used): (Vec<(u32, Option<Vec<u32>>)>, usize) =
        bincode::decode_from_slice(&blob, bincode::config::standard()).unwrap();
    assert_eq!(used, blob.len());
    assert_eq!(read, stored);
    let decoded = PlonkModule::decode(public_pair(), &read).unwrap();
    assert_eq!(decoded.variable_map, circuit.variable_map);
    let again =
        bincode::encode_to_vec(&decoded.encode_witness(), bincode::config::standard()).unwrap();
    assert_eq!(again, blob);
}
