use circuit_synth::ast::{Definition, Expr, InfixOp, Module, Pat, TExpr, TPat, Variable};
use circuit_synth::circuit::{definitions, input_variables, size_exponent};
use circuit_synth::integer::Integer;
use circuit_synth::transform::collect_module_variables;

#[test]
fn variables_are_collected_once_in_order_of_first_meeting() {
    // constraints: v3 = v1 + v3, v2 = 7; definition: v5 := v1 * v4; public: v9, v2
    let module = Module {
        pubs: vec![Variable::new(9), Variable::new(2)],
        defs: vec![Definition::new(
            TPat::variable(5),
            TExpr::infix(InfixOp::Multiply, TExpr::variable(1), TExpr::variable(4)),
        )],
        exprs: vec![
            TExpr::infix(
                InfixOp::Equal,
                TExpr::variable(3),
                TExpr::infix(InfixOp::Add, TExpr::variable(1), TExpr::variable(3)),
            ),
            TExpr::infix(
                InfixOp::Equal,
                TExpr::variable(2),
                TExpr::constant(Integer::from_i64(7)),
            ),
        ],
    };
    assert_eq!(collect_module_variables(&module), vec![3, 1, 2, 5, 4, 9]);
}

#[test]
fn empty_module_has_no_variables() {
    let module = Module { pubs: vec![], defs: vec![], exprs: vec![] };
    assert_eq!(collect_module_variables(&module), Vec::<u32>::new());
}

#[test]
fn variables_under_negation_and_products_are_found() {
    let module = Module {
        pubs: vec![],
        defs: vec![],
        exprs: vec![
            TExpr::negate(TExpr::variable(8)),
            Expr::Product(Box::new(TExpr::variable(6)), Box::new(TExpr::variable(8))).type_expr(),
            Expr::Unit.type_expr(),
        ],
    };
    assert_eq!(collect_module_variables(&module), vec![8, 6]);
}

#[test]
fn integers_of_every_sign_and_size() {
    assert_eq!(Integer::from_i64(0).magnitude, Vec::<u8>::new());
    assert!(Integer::from_i64(0).is_zero());
    assert!(!Integer::from_i64(0).is_positive());
    assert!(!Integer::from_i64(0).is_negative());
    assert_eq!(Integer::from_i64(258).magnitude, vec![2u8, 1]);
    assert!(Integer::from_i64(258).is_positive());
    let least = Integer::from_i64(i64::MIN);
    assert!(least.is_negative());
    assert_eq!(least.magnitude, vec![0u8, 0, 0, 0, 0, 0, 0, 0x80]);
    assert_eq!(Integer::from_u64(u64::MAX).magnitude, vec![0xffu8; 8]);
    let negative_zero = Integer { negative: true, magnitude: vec![0, 0] };
    assert!(negative_zero.is_zero());
    assert!(!negative_zero.is_negative());
}

#[test]
fn integer_division_has_no_quotient_by_zero() {
    let seven = Integer::from_i64(7);
    assert!(seven.checked_div(&Integer::from_i64(0)).is_none());
    assert!(seven.checked_rem(&Integer::from_i64(0)).is_none());
    let q = seven.checked_div(&Integer::from_i64(-2)).unwrap();
    assert!(q.negative);
    assert_eq!(q.magnitude, vec![3u8]);
    let r = seven.checked_rem(&Integer::from_i64(-2)).unwrap();
    assert!(!r.negative);
    assert_eq!(r.magnitude, vec![1u8]);
}

#[test]
fn inputs_are_the_variables_without_definition() {
    // constraints: v3 = v1 + v2; definitions: v3 := v1 + v2, v2 := 7
    let sum = || TExpr::infix(InfixOp::Add, TExpr::variable(1), TExpr::variable(2));
    let module = Module {
        pubs: vec![Variable::new(9)],
        defs: vec![
            Definition::new(TPat::variable(3), sum()),
            Definition::new(TPat::variable(2), TExpr::constant(Integer::from_i64(7))),
        ],
        exprs: vec![TExpr::infix(InfixOp::Equal, TExpr::variable(3), sum())],
    };
    assert_eq!(input_variables(&module), vec![1, 9]);
}

#[test]
fn later_definition_of_a_variable_replaces_an_earlier_one() {
    let module = Module {
        pubs: vec![],
        defs: vec![
            Definition::new(TPat::variable(1), TExpr::constant(Integer::from_i64(5))),
            Definition::new(TPat::variable(1), TExpr::constant(Integer::from_i64(6))),
            Definition::new(
                TPat { v: Pat::Unit },
                TExpr::constant(Integer::from_i64(7)),
            ),
        ],
        exprs: vec![],
    };
    let defs = definitions(&module);
    assert_eq!(defs.len(), 1);
    match &defs[&1].v {
        Expr::Constant(c) => assert_eq!(c.magnitude, vec![6u8]),
        other => panic!("unexpected definition {:?}", other),
    }
}

#[test]
fn size_exponents() {
    assert_eq!(size_exponent(0), (0, 1));
    assert_eq!(size_exponent(1), (0, 1));
    assert_eq!(size_exponent(2), (1, 2));
    assert_eq!(size_exponent(3), (2, 4));
    assert_eq!(size_exponent(16), (4, 16));
    assert_eq!(size_exponent(17), (5, 32));
    assert_eq!(size_exponent(265), (9, 512));
    assert_eq!(size_exponent(u64::MAX), (64, 1u128 << 64));
}
