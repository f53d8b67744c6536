//! The scalar field of the BLS12-381 curve.
//!
//! An element is held as its canonical 32-byte little-endian representation.
//! The arithmetic itself is done by `ark_ff` on `ark_bls12_381::Fr`; each
//! operation below is a thin call into those crates whose result is stated
//! on representatives and taken on trust.

use ark_ff::{BigInteger, Field, PrimeField};
use crate::bytes::{le_value, limbs_value, repr_is_zero, repr_to_vec, unit_repr, zero_repr};
use crate::field::{fadd, fmul, fneg, fpow, fsub, is_inverse, FieldElement};
use vstd::arithmetic::div_mod::{lemma_mod_bound, lemma_small_mod};
use vstd::prelude::*;

verus! {

/// The order of the field.
pub open spec fn modulus() -> nat {
    0x73eda753299d7d483339d80809a1d80553bda402fffe5bfeffffffff00000001nat
}

/// An element of the field.
#[derive(Clone, Copy, Debug, PartialEq, Eq)]
pub struct Fr {
    repr: [u8; 32],
}

impl Fr {
    /// The representation stands for a number below the modulus.
    #[verifier::type_invariant]
    pub closed spec fn canonical(self) -> bool {
        le_value(self.repr@) < modulus()
    }

    /// The 32 bytes that the element is held as.
    pub closed spec fn repr(self) -> Seq<u8> {
        self.repr@
    }

    /// The canonical representation.
    pub fn to_repr(&self) -> (bytes: [u8; 32])
        ensures
            bytes@ == self.repr(),
            le_value(bytes@) == self.value(),
    {
        proof {
            use_type_invariant(self);
            lemma_small_mod(le_value(self.repr@), modulus());
        }
        self.repr
    }

    /// The element that the 32-bit limbs stand for, least significant limb
    /// first, if they stand for a number below the modulus.
    pub fn from_limbs(limbs: &Vec<u32>) -> (r: Option<Fr>)
        ensures
            r is Some <==> limbs_value(limbs@) < modulus(),
            r is Some ==> r->0.value() == limbs_value(limbs@),
    {
        let r = field_from_limbs(limbs);
        proof {
            if r is Some {
                lemma_small_mod(le_value(r->0.repr@), modulus());
            }
        }
        r
    }

    /// The representative as 32-bit limbs, least significant limb first
    /// and without high zero limbs.
    pub fn to_limbs(&self) -> (limbs: Vec<u32>)
        ensures
            limbs_value(limbs@) == self.value(),
            limbs.len() == 0 || limbs@.last() != 0,
    {
        proof {
            use_type_invariant(self);
            lemma_small_mod(le_value(self.repr@), modulus());
        }
        field_to_limbs(self)
    }
}

/// `BigUint::new` of `num_bigint` on the limbs, `TryFrom<BigUint>` of
/// `ark_ff::BigInteger256` and `PrimeField::from_repr` of
/// `ark_bls12_381::Fr`: the element is returned exactly when the limbs
/// stand for a number below the modulus, and it is that number.
#[verifier::external_body]
fn field_from_limbs(limbs: &Vec<u32>) -> (r: Option<Fr>)
    ensures
        r is Some <==> limbs_value(limbs@) < modulus(),
        r is Some ==> r->0.canonical() && le_value(r->0.repr@) == limbs_value(limbs@),
{
    let number = num_bigint::BigUint::new(limbs.clone());
    let repr = ark_ff::BigInteger256::try_from(number).ok()?;
    let x = ark_bls12_381::Fr::from_repr(repr)?;
    Some(Fr { repr: x.into_repr().to_bytes_le().try_into().unwrap() })
}

/// `Into<BigUint>` of `ark_bls12_381::Fr` and `BigUint::to_u32_digits` of
/// `num_bigint`: the limbs of the representative, the last of them not zero.
#[verifier::external_body]
fn field_to_limbs(a: &Fr) -> (limbs: Vec<u32>)
    requires
        a.canonical(),
    ensures
        limbs_value(limbs@) == le_value(a.repr@),
        limbs.len() == 0 || limbs@.last() != 0,
{
    let x = ark_bls12_381::Fr::from_le_bytes_mod_order(&a.repr);
    let number: num_bigint::BigUint = x.into();
    number.to_u32_digits()
}

/// `From<BigUint>` of `ark_bls12_381::Fr`, on the number that `num_bigint`
/// reads from the bytes: that number reduced modulo the field order.
#[verifier::external_body]
fn field_from_le_bytes(bytes: &Vec<u8>) -> (r: Fr)
    ensures
        r.canonical(),
        le_value(r.repr@) == le_value(bytes@) % modulus(),
{
    let x = ark_bls12_381::Fr::from(num_bigint::BigUint::from_bytes_le(bytes));
    Fr { repr: x.into_repr().to_bytes_le().try_into().unwrap() }
}

/// `+` on `ark_bls12_381::Fr`: the sum in the field.
#[verifier::external_body]
fn field_add(a: &Fr, b: &Fr) -> (r: Fr)
    requires
        a.canonical(),
        b.canonical(),
    ensures
        r.canonical(),
        le_value(r.repr@) == fadd(le_value(a.repr@), le_value(b.repr@), modulus()),
{
    let x = ark_bls12_381::Fr::from_le_bytes_mod_order(&a.repr);
    let y = ark_bls12_381::Fr::from_le_bytes_mod_order(&b.repr);
    Fr { repr: (x + y).into_repr().to_bytes_le().try_into().unwrap() }
}

/// `-` on `ark_bls12_381::Fr`: the difference in the field.
#[verifier::external_body]
fn field_sub(a: &Fr, b: &Fr) -> (r: Fr)
    requires
        a.canonical(),
        b.canonical(),
    ensures
        r.canonical(),
        le_value(r.repr@) == fsub(le_value(a.repr@), le_value(b.repr@), modulus()),
{
    let x = ark_bls12_381::Fr::from_le_bytes_mod_order(&a.repr);
    let y = ark_bls12_381::Fr::from_le_bytes_mod_order(&b.repr);
    Fr { repr: (x - y).into_repr().to_bytes_le().try_into().unwrap() }
}

/// `*` on `ark_bls12_381::Fr`: the product in the field.
#[verifier::external_body]
fn field_mul(a: &Fr, b: &Fr) -> (r: Fr)
    requires
        a.canonical(),
        b.canonical(),
    ensures
        r.canonical(),
        le_value(r.repr@) == fmul(le_value(a.repr@), le_value(b.repr@), modulus()),
{
    let x = ark_bls12_381::Fr::from_le_bytes_mod_order(&a.repr);
    let y = ark_bls12_381::Fr::from_le_bytes_mod_order(&b.repr);
    Fr { repr: (x * y).into_repr().to_bytes_le().try_into().unwrap() }
}

/// Unary `-` on `ark_bls12_381::Fr`: the additive inverse in the field.
#[verifier::external_body]
fn field_neg(a: &Fr) -> (r: Fr)
    requires
        a.canonical(),
    ensures
        r.canonical(),
        le_value(r.repr@) == fneg(le_value(a.repr@), modulus()),
{
    let x = ark_bls12_381::Fr::from_le_bytes_mod_order(&a.repr);
    Fr { repr: (-x).into_repr().to_bytes_le().try_into().unwrap() }
}

/// `Field::inverse` of `ark_bls12_381::Fr`: nothing for zero, and otherwise
/// the element whose product with the argument is one.
#[verifier::external_body]
fn field_invert(a: &Fr) -> (r: Option<Fr>)
    requires
        a.canonical(),
    ensures
        r is None <==> le_value(a.repr@) == 0,
        r is Some ==> r->0.canonical() && is_inverse(
            le_value(a.repr@),
            le_value(r->0.repr@),
            modulus(),
        ),
{
    let x = ark_bls12_381::Fr::from_le_bytes_mod_order(&a.repr);
    let y = x.inverse()?;
    Some(Fr { repr: y.into_repr().to_bytes_le().try_into().unwrap() })
}

/// `Field::pow` of `ark_bls12_381::Fr`, on the 64-bit limbs that
/// `num_bigint` reads from the exponent's bytes: the base multiplied with
/// itself as often as the exponent says, in the field.
#[verifier::external_body]
fn field_pow(a: &Fr, exponent: &Vec<u8>) -> (r: Fr)
    requires
        a.canonical(),
    ensures
        r.canonical(),
        le_value(r.repr@) == fpow(le_value(a.repr@), le_value(exponent@), modulus()),
{
    let x = ark_bls12_381::Fr::from_le_bytes_mod_order(&a.repr);
    let limbs = num_bigint::BigUint::from_bytes_le(exponent).to_u64_digits();
    Fr { repr: x.pow(limbs).into_repr().to_bytes_le().try_into().unwrap() }
}

impl FieldElement for Fr {
    open spec fn modulus() -> nat {
        modulus()
    }

    closed spec fn value(&self) -> nat {
        le_value(self.repr@) % modulus()
    }

    proof fn lemma_modulus() {
    }

    proof fn lemma_value(&self) {
        lemma_mod_bound(le_value(self.repr@) as int, modulus() as int);
    }

    fn zero() -> (r: Self) {
        let repr = zero_repr();
        proof {
            lemma_small_mod(0, modulus());
        }
        Fr { repr }
    }

    fn one() -> (r: Self) {
        let repr = unit_repr();
        proof {
            lemma_small_mod(1, modulus());
        }
        Fr { repr }
    }

    fn is_zero(&self) -> (z: bool) {
        proof {
            use_type_invariant(self);
            lemma_small_mod(le_value(self.repr@), modulus());
        }
        repr_is_zero(&self.repr)
    }

    fn add(&self, rhs: &Self) -> (r: Self) {
        proof {
            use_type_invariant(self);
            use_type_invariant(rhs);
            lemma_small_mod(le_value(self.repr@), modulus());
            lemma_small_mod(le_value(rhs.repr@), modulus());
        }
        let r = field_add(self, rhs);
        proof {
            lemma_small_mod(le_value(r.repr@), modulus());
        }
        r
    }

    fn sub(&self, rhs: &Self) -> (r: Self) {
        proof {
            use_type_invariant(self);
            use_type_invariant(rhs);
            lemma_small_mod(le_value(self.repr@), modulus());
            lemma_small_mod(le_value(rhs.repr@), modulus());
        }
        let r = field_sub(self, rhs);
        proof {
            lemma_small_mod(le_value(r.repr@), modulus());
        }
        r
    }

    fn mul(&self, rhs: &Self) -> (r: Self) {
        proof {
            use_type_invariant(self);
            use_type_invariant(rhs);
            lemma_small_mod(le_value(self.repr@), modulus());
            lemma_small_mod(le_value(rhs.repr@), modulus());
        }
        let r = field_mul(self, rhs);
        proof {
            lemma_small_mod(le_value(r.repr@), modulus());
        }
        r
    }

    fn neg(&self) -> (r: Self) {
        proof {
            use_type_invariant(self);
            lemma_small_mod(le_value(self.repr@), modulus());
        }
        let r = field_neg(self);
        proof {
            lemma_small_mod(le_value(r.repr@), modulus());
        }
        r
    }

    fn invert(&self) -> (r: Option<Self>) {
        proof {
            use_type_invariant(self);
            lemma_small_mod(le_value(self.repr@), modulus());
        }
        let r = field_invert(self);
        proof {
            if r is Some {
                lemma_small_mod(le_value(r->0.repr@), modulus());
            }
        }
        r
    }

    fn pow(&self, exponent: &Vec<u8>) -> (r: Self) {
        proof {
            use_type_invariant(self);
            lemma_small_mod(le_value(self.repr@), modulus());
        }
        let r = field_pow(self, exponent);
        proof {
            lemma_small_mod(le_value(r.repr@), modulus());
        }
        r
    }

    fn from_le_bytes(bytes: &Vec<u8>) -> (r: Self) {
        let r = field_from_le_bytes(bytes);
        proof {
            lemma_small_mod(le_value(r.repr@), modulus());
        }
        r
    }

    fn to_le_bytes(&self) -> (bytes: Vec<u8>) {
        proof {
            use_type_invariant(self);
            lemma_small_mod(le_value(self.repr@), modulus());
        }
        repr_to_vec(&self.repr)
    }
}

} // verus!
