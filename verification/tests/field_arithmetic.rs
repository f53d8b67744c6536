use circuit_synth::arith::{make_constant, ArithmeticError, PrimeFieldOps};
use circuit_synth::ast::InfixOp;
use circuit_synth::field::FieldElement;
use circuit_synth::halo2::field::Fp;
use circuit_synth::integer::Integer;
use circuit_synth::plonk::field::Fr;

fn integer(x: i64) -> Integer {
    Integer::from_i64(x)
}

fn magnitude(x: &Integer) -> Vec<u8> {
    let mut bytes = x.magnitude.clone();
    while bytes.last() == Some(&0) {
        bytes.pop();
    }
    bytes
}

#[test]
fn make_constant_embeds_small_integers() {
    let three: Fp = make_constant(&integer(3));
    let four: Fp = make_constant(&integer(4));
    let seven: Fp = make_constant(&integer(7));
    assert_eq!(three.add(&four), seven);
    assert_eq!(seven.sub(&four), three);
}

#[test]
fn make_constant_negates_negative_integers() {
    let minus_two: Fp = make_constant(&integer(-2));
    let two: Fp = make_constant(&integer(2));
    assert_eq!(minus_two.add(&two), Fp::zero());
    assert_eq!(two.neg(), minus_two);
}

#[test]
fn canonical_of_minus_one_is_modulus_minus_one() {
    let ops: PrimeFieldOps<Fp> = PrimeFieldOps::default();
    let r = ops.canonical(integer(-1));
    assert!(!r.negative);
    // p - 1 = 0x40000000000000000000000000000000224698fc094cf91b992d30ed00000000
    let mut expected = vec![
        0x00u8, 0x00, 0x00, 0x00, 0xed, 0x30, 0x2d, 0x99, 0x1b, 0xf9, 0x4c, 0x09, 0xfc, 0x98,
        0x46, 0x22,
    ];
    expected.extend(vec![0u8; 15]);
    expected.push(0x40);
    assert_eq!(r.magnitude, expected);
}

#[test]
fn infix_divide_by_zero_is_an_error() {
    let ops: PrimeFieldOps<Fp> = PrimeFieldOps::default();
    assert_eq!(
        ops.infix(InfixOp::Divide, integer(1), integer(0)).err(),
        Some(ArithmeticError::DivisionByZero)
    );
}

#[test]
fn infix_safe_divide_by_zero_is_zero() {
    let ops: PrimeFieldOps<Fr> = PrimeFieldOps::default();
    let r = ops.infix(InfixOp::DivideZ, integer(1), integer(0)).unwrap();
    assert_eq!(magnitude(&r), Vec::<u8>::new());
}

#[test]
fn infix_equal_is_not_evaluable() {
    let ops: PrimeFieldOps<Fp> = PrimeFieldOps::default();
    assert_eq!(
        ops.infix(InfixOp::Equal, integer(1), integer(1)).err(),
        Some(ArithmeticError::NotEvaluable)
    );
}

#[test]
fn infix_integer_division_truncates_towards_zero() {
    let ops: PrimeFieldOps<Fp> = PrimeFieldOps::default();
    let q = ops.infix(InfixOp::IntDivide, integer(-7), integer(2)).unwrap();
    assert!(q.negative);
    assert_eq!(magnitude(&q), vec![3u8]);
    let r = ops.infix(InfixOp::Modulo, integer(-7), integer(2)).unwrap();
    assert!(r.negative);
    assert_eq!(magnitude(&r), vec![1u8]);
}

#[test]
fn negative_power_is_inverse_of_power() {
    // y = 2 ^ (-3) is the inverse of 8
    let ops: PrimeFieldOps<Fp> = PrimeFieldOps::default();
    let y = ops.infix(InfixOp::Exponentiate, integer(2), integer(-3)).unwrap();
    let y_elem: Fp = make_constant(&y);
    let eight: Fp = make_constant(&integer(8));
    assert_eq!(y_elem.mul(&eight), Fp::one());
    let ops_b: PrimeFieldOps<Fr> = PrimeFieldOps::default();
    let z = ops_b.infix(InfixOp::Exponentiate, integer(2), integer(-3)).unwrap();
    let z_elem: Fr = make_constant(&z);
    let eight_b: Fr = make_constant(&integer(8));
    assert_eq!(z_elem.mul(&eight_b), Fr::one());
}

#[test]
fn zero_base_has_no_negative_power() {
    let ops: PrimeFieldOps<Fp> = PrimeFieldOps::default();
    assert_eq!(
        ops.infix(InfixOp::Exponentiate, integer(0), integer(-1)).err(),
        Some(ArithmeticError::DivisionByZero)
    );
}

#[test]
fn wide_constants_are_reduced() {
    // 2^512 + 5, a constant of 65 bytes
    let mut bytes = vec![0u8; 65];
    bytes[0] = 5;
    bytes[64] = 1;
    let wide = Integer { negative: false, magnitude: bytes };
    let x: Fp = make_constant(&wide);
    // 2^256 as a field element, squared
    let mut half = vec![0u8; 33];
    half[32] = 1;
    let root: Fp = make_constant(&Integer { negative: false, magnitude: half });
    let five: Fp = make_constant(&integer(5));
    assert_eq!(x, root.mul(&root).add(&five));
}

#[test]
fn limbs_round_trip() {
    let x: Fr = make_constant(&integer(-5));
    let limbs = x.to_limbs();
    assert_eq!(limbs.len(), 8);
    assert_eq!(Fr::from_limbs(&limbs), Some(x));
    assert_eq!(Fr::from_limbs(&vec![u32::MAX; 8]), None);
    assert_eq!(Fr::zero().to_limbs(), Vec::<u32>::new());
}

#[test]
fn repr_round_trip() {
    let x: Fp = make_constant(&integer(-5));
    assert_eq!(Fp::from_repr(x.to_repr()), Some(x));
    assert_eq!(Fp::from_repr([0xff; 32]), None);
}

#[test]
fn field_operations_of_the_base_field() {
    let fp = |x: i64| -> Fp { make_constant(&integer(x)) };
    assert_eq!(fp(3).add(&fp(4)), fp(7));
    assert_eq!(fp(3).sub(&fp(4)), fp(-1));
    assert_eq!(fp(3).mul(&fp(4)), fp(12));
    assert_eq!(fp(3).neg(), fp(-3));
    assert_eq!(fp(0).invert(), None);
    assert_eq!(fp(4).invert().unwrap().mul(&fp(4)), fp(1));
    assert_eq!(fp(2).pow(&vec![10u8]), fp(1024));
    assert_eq!(fp(2).pow(&vec![]), fp(1));
    assert!(fp(0).is_zero());
    assert!(!fp(1).is_zero());
    assert_eq!(Fp::from_le_bytes(&vec![0x01, 0x01]), fp(257));
    assert_eq!(fp(257).to_le_bytes()[..2], [0x01u8, 0x01]);
    let mut wide = [0u8; 64];
    wide[0] = 2;
    assert_eq!(Fp::from_bytes_wide(&wide), fp(2));
    // the order of the field stands for zero
    let mut order = vec![
        0x01u8, 0x00, 0x00, 0x00, 0xed, 0x30, 0x2d, 0x99, 0x1b, 0xf9, 0x4c, 0x09, 0xfc, 0x98,
        0x46, 0x22,
    ];
    order.extend(vec![0u8; 15]);
    order.push(0x40);
    assert_eq!(Fp::from_le_bytes(&order), fp(0));
}
