//! The base field of the Pallas curve.
//!
//! An element is held as its canonical 32-byte little-endian representation.
//! The arithmetic itself is done by `pasta_curves`; each operation below is a
//! thin call into that crate whose result is stated on representatives and
//! taken on trust.

use crate::bytes::{
    le_value, lemma_le_value_concat, lemma_le_value_padding, lemma_le_value_push,
    lemma_le_value_zero, lemma_pow256_add, pow256, repr_is_zero, repr_to_vec, unit_repr, zero_repr,
};
use crate::field::{
    congruent, fadd, fmul, fneg, fpow, fsub, is_inverse, lemma_congruent_add, lemma_congruent_mul,
    lemma_congruent_reduce, lemma_congruent_trans, lemma_reduce, FieldElement,
};
use ff::{Field, PrimeField};
use halo2_proofs::arithmetic::FieldExt;
use vstd::arithmetic::div_mod::{lemma_mod_bound, lemma_small_mod};
use vstd::prelude::*;

verus! {

/// The order of the field.
pub open spec fn modulus() -> nat {
    0x40000000000000000000000000000000224698fc094cf91b992d30ed00000001nat
}

/// An element of the field.
#[derive(Clone, Copy, Debug, PartialEq, Eq)]
pub struct Fp {
    repr: [u8; 32],
}

impl Fp {
    /// The representation stands for a number below the modulus.
    #[verifier::type_invariant]
    pub closed spec fn canonical(self) -> bool {
        le_value(self.repr@) < modulus()
    }

    /// The 32 bytes that the element is held as.
    pub closed spec fn repr(self) -> Seq<u8> {
        self.repr@
    }

    /// The element with the given canonical representation, if it is one.
    pub fn from_repr(bytes: [u8; 32]) -> (r: Option<Fp>)
        ensures
            r is Some <==> le_value(bytes@) < modulus(),
            r is Some ==> r->0.repr() == bytes@ && r->0.value() == le_value(bytes@),
    {
        let r = field_from_repr(bytes);
        proof {
            if r is Some {
                lemma_small_mod(le_value(bytes@), modulus());
            }
        }
        r
    }

    /// The canonical representation.
    pub fn to_repr(&self) -> (bytes: [u8; 32])
        ensures
            bytes@ == self.repr(),
            le_value(bytes@) == self.value(),
    {
        proof {
            use_type_invariant(self);
            lemma_small_mod(le_value(self.repr@), modulus());
        }
        self.repr
    }

    /// The element congruent to the 512-bit little-endian number `bytes`.
    pub fn from_bytes_wide(bytes: &[u8; 64]) -> (r: Fp)
        ensures
            r.value() == le_value(bytes@) % modulus(),
    {
        let r = field_from_bytes_wide(bytes);
        proof {
            lemma_small_mod(le_value(r.repr@), modulus());
        }
        r
    }
}

/// `PrimeField::from_repr` of `pasta_curves::Fp`: the element is returned
/// exactly when the bytes stand for a number below the modulus, and it is
/// then held as those bytes.
#[verifier::external_body]
fn field_from_repr(bytes: [u8; 32]) -> (r: Option<Fp>)
    ensures
        r is Some <==> le_value(bytes@) < modulus(),
        r is Some ==> r->0.repr@ == bytes@,
{
    let parsed: Option<halo2_proofs::pasta::Fp> = halo2_proofs::pasta::Fp::from_repr(bytes).into();
    parsed.map(|x| Fp { repr: x.to_repr() })
}

/// `FieldExt::from_bytes_wide` of `pasta_curves::Fp`: the 64 bytes are read as
/// a little-endian number and reduced modulo the field order.
#[verifier::external_body]
fn field_from_bytes_wide(bytes: &[u8; 64]) -> (r: Fp)
    ensures
        r.canonical(),
        le_value(r.repr@) == le_value(bytes@) % modulus(),
{
    Fp { repr: halo2_proofs::pasta::Fp::from_bytes_wide(bytes).to_repr() }
}

/// `+` on `pasta_curves::Fp`: the sum in the field.
#[verifier::external_body]
fn field_add(a: &Fp, b: &Fp) -> (r: Fp)
    requires
        a.canonical(),
        b.canonical(),
    ensures
        r.canonical(),
        le_value(r.repr@) == fadd(le_value(a.repr@), le_value(b.repr@), modulus()),
{
    let x = halo2_proofs::pasta::Fp::from_repr(a.repr).unwrap();
    let y = halo2_proofs::pasta::Fp::from_repr(b.repr).unwrap();
    Fp { repr: (x + y).to_repr() }
}

/// `-` on `pasta_curves::Fp`: the difference in the field.
#[verifier::external_body]
fn field_sub(a: &Fp, b: &Fp) -> (r: Fp)
    requires
        a.canonical(),
        b.canonical(),
    ensures
        r.canonical(),
        le_value(r.repr@) == fsub(le_value(a.repr@), le_value(b.repr@), modulus()),
{
    let x = halo2_proofs::pasta::Fp::from_repr(a.repr).unwrap();
    let y = halo2_proofs::pasta::Fp::from_repr(b.repr).unwrap();
    Fp { repr: (x - y).to_repr() }
}

/// `*` on `pasta_curves::Fp`: the product in the field.
#[verifier::external_body]
fn field_mul(a: &Fp, b: &Fp) -> (r: Fp)
    requires
        a.canonical(),
        b.canonical(),
    ensures
        r.canonical(),
        le_value(r.repr@) == fmul(le_value(a.repr@), le_value(b.repr@), modulus()),
{
    let x = halo2_proofs::pasta::Fp::from_repr(a.repr).unwrap();
    let y = halo2_proofs::pasta::Fp::from_repr(b.repr).unwrap();
    Fp { repr: (x * y).to_repr() }
}

/// Unary `-` on `pasta_curves::Fp`: the additive inverse in the field.
#[verifier::external_body]
fn field_neg(a: &Fp) -> (r: Fp)
    requires
        a.canonical(),
    ensures
        r.canonical(),
        le_value(r.repr@) == fneg(le_value(a.repr@), modulus()),
{
    let x = halo2_proofs::pasta::Fp::from_repr(a.repr).unwrap();
    Fp { repr: (-x).to_repr() }
}

/// `Field::invert` of `pasta_curves::Fp`: nothing for zero, and otherwise the
/// element whose product with the argument is one.
#[verifier::external_body]
fn field_invert(a: &Fp) -> (r: Option<Fp>)
    requires
        a.canonical(),
    ensures
        r is None <==> le_value(a.repr@) == 0,
        r is Some ==> r->0.canonical() && is_inverse(
            le_value(a.repr@),
            le_value(r->0.repr@),
            modulus(),
        ),
{
    let x = halo2_proofs::pasta::Fp::from_repr(a.repr).unwrap();
    let inverse: Option<halo2_proofs::pasta::Fp> = x.invert().into();
    inverse.map(|y| Fp { repr: y.to_repr() })
}

/// `Field::pow_vartime` of `pasta_curves::Fp`, on the 64-bit limbs that
/// `num_bigint` reads from the exponent's bytes: the base multiplied with
/// itself as often as the exponent says, in the field.
#[verifier::external_body]
fn field_pow(a: &Fp, exponent: &Vec<u8>) -> (r: Fp)
    requires
        a.canonical(),
    ensures
        r.canonical(),
        le_value(r.repr@) == fpow(le_value(a.repr@), le_value(exponent@), modulus()),
{
    let x = halo2_proofs::pasta::Fp::from_repr(a.repr).unwrap();
    let limbs = num_bigint::BigUint::from_bytes_le(exponent).to_u64_digits();
    Fp { repr: x.pow_vartime(&limbs).to_repr() }
}

/// The 64 bytes that start with `bytes[start..end]` and go on with zeros.
fn padded_window(bytes: &Vec<u8>, start: usize, end: usize) -> (window: [u8; 64])
    requires
        start <= end <= bytes.len(),
        end - start <= 64,
    ensures
        le_value(window@) == le_value(bytes@.subrange(start as int, end as int)),
{
    let length = end - start;
    let mut window = [0u8; 64];
    assert(window == vstd::array::spec_array_fill_for_copy_type::<u8, 64>(0u8));
    assert(forall|j: int| 0 <= j < 64 ==> window@[j] == 0);
    let mut i: usize = 0;
    while i < length
        invariant
            i <= length,
            length == end - start,
            length <= 64,
            end <= bytes.len(),
            forall|j: int| 0 <= j < i ==> window@[j] == bytes@[start + j],
            forall|j: int| i <= j < 64 ==> window@[j] == 0,
        decreases length - i,
    {
        window[i] = bytes[start + i];
        i += 1;
    }
    proof {
        let digits = bytes@.subrange(start as int, end as int);
        let zeros = window@.skip(length as int);
        assert(window@ == digits + zeros);
        lemma_le_value_padding(digits, zeros);
    }
    window
}

/// `2^512` in the field: the weight of one 64-byte window.
fn window_weight() -> (weight: Fp)
    ensures
        weight.value() == pow256(64) % modulus(),
{
    let mut half = [0u8; 64];
    assert(half == vstd::array::spec_array_fill_for_copy_type::<u8, 64>(0u8));
    assert(forall|j: int| 0 <= j < 64 ==> half@[j] == 0);
    half[32] = 1;
    proof {
        let low = half@.take(32);
        let marked = half@.take(33);
        let high = half@.skip(33);
        assert(marked == low.push(1));
        assert(half@ == marked + high);
        lemma_le_value_padding(marked, high);
        lemma_le_value_push(low, 1);
        lemma_le_value_zero(low);
        assert(le_value(half@) == pow256(32));
    }
    let root = Fp::from_bytes_wide(&half);
    let weight = root.mul(&root);
    proof {
        let p = modulus();
        let h = pow256(32) as int;
        lemma_pow256_add(32, 32);
        lemma_reduce(h, p);
        lemma_congruent_mul(root.value() as int, h, root.value() as int, h, p);
        lemma_reduce((root.value() * root.value()) as int, p);
        lemma_congruent_trans(weight.value() as int, (root.value() * root.value()) as int, h * h, p);
        lemma_reduce(h * h, p);
        lemma_congruent_reduce(weight.value() as int, h * h, p);
        weight.lemma_value();
        lemma_small_mod(weight.value(), p);
    }
    weight
}

/// The element congruent to the little-endian number `bytes`, whatever its length.
///
/// The bytes are taken in windows of 64, each reduced on its own, and summed
/// from the most significant window down.
pub fn reduce_le_bytes(bytes: &Vec<u8>) -> (r: Fp)
    ensures
        r.value() == le_value(bytes@) % modulus(),
{
    let n = bytes.len();
    let weight = window_weight();
    let mut acc = Fp::zero();
    let mut end: usize = n;
    proof {
        assert(bytes@.subrange(n as int, n as int) == Seq::<u8>::empty());
        lemma_small_mod(0, modulus());
    }
    while end > 0
        invariant
            end <= n,
            n == bytes.len(),
            end == n || end % 64 == 0,
            acc.value() == le_value(bytes@.subrange(end as int, n as int)) % modulus(),
            weight.value() == pow256(64) % modulus(),
        decreases end,
    {
        let start: usize = if end % 64 == 0 {
            end - 64
        } else {
            end - end % 64
        };
        let window = padded_window(bytes, start, end);
        let digit = Fp::from_bytes_wide(&window);
        let shifted = acc.mul(&weight);
        let next = shifted.add(&digit);
        proof {
            let p = modulus();
            let low = bytes@.subrange(start as int, end as int);
            let high = bytes@.subrange(end as int, n as int);
            assert(bytes@.subrange(start as int, n as int) == low + high);
            lemma_le_value_concat(low, high);
            let l = le_value(low) as int;
            let h = le_value(high) as int;
            let w = pow256(64) as int;
            if end != n {
                assert(low.len() == 64);
            } else {
                assert(high == Seq::<u8>::empty());
                assert(h == 0);
            }
            assert(pow256(low.len()) * le_value(high) == w * h) by (nonlinear_arith)
                requires
                    pow256(low.len()) == w || h == 0,
                    h == le_value(high),
            ;
            lemma_reduce(h, p);
            lemma_reduce(w, p);
            lemma_reduce(l, p);
            lemma_congruent_mul(acc.value() as int, h, weight.value() as int, w, p);
            lemma_reduce((acc.value() * weight.value()) as int, p);
            lemma_congruent_trans(
                shifted.value() as int,
                (acc.value() * weight.value()) as int,
                h * w,
                p,
            );
            lemma_congruent_add(shifted.value() as int, h * w, digit.value() as int, l, p);
            lemma_reduce((shifted.value() + digit.value()) as int, p);
            lemma_congruent_trans(
                next.value() as int,
                (shifted.value() + digit.value()) as int,
                h * w + l,
                p,
            );
            assert(h * w + l == l + w * h) by (nonlinear_arith);
            lemma_reduce(l + w * h, p);
            lemma_congruent_reduce(next.value() as int, l + w * h, p);
            next.lemma_value();
            lemma_small_mod(next.value(), p);
        }
        acc = next;
        end = start;
    }
    proof {
        assert(bytes@.subrange(0, n as int) == bytes@);
    }
    acc
}

impl FieldElement for Fp {
    open spec fn modulus() -> nat {
        modulus()
    }

    closed spec fn value(&self) -> nat {
        le_value(self.repr@) % modulus()
    }

    proof fn lemma_modulus() {
    }

    proof fn lemma_value(&self) {
        lemma_mod_bound(le_value(self.repr@) as int, modulus() as int);
    }

    fn zero() -> (r: Self) {
        let repr = zero_repr();
        proof {
            lemma_small_mod(0, modulus());
        }
        Fp { repr }
    }

    fn one() -> (r: Self) {
        let repr = unit_repr();
        proof {
            lemma_small_mod(1, modulus());
        }
        Fp { repr }
    }

    fn is_zero(&self) -> (z: bool) {
        proof {
            use_type_invariant(self);
            lemma_small_mod(le_value(self.repr@), modulus());
        }
        repr_is_zero(&self.repr)
    }

    fn add(&self, rhs: &Self) -> (r: Self) {
        proof {
            use_type_invariant(self);
            use_type_invariant(rhs);
            lemma_small_mod(le_value(self.repr@), modulus());
            lemma_small_mod(le_value(rhs.repr@), modulus());
        }
        let r = field_add(self, rhs);
        proof {
            lemma_small_mod(le_value(r.repr@), modulus());
        }
        r
    }

    fn sub(&self, rhs: &Self) -> (r: Self) {
        proof {
            use_type_invariant(self);
            use_type_invariant(rhs);
            lemma_small_mod(le_value(self.repr@), modulus());
            lemma_small_mod(le_value(rhs.repr@), modulus());
        }
        let r = field_sub(self, rhs);
        proof {
            lemma_small_mod(le_value(r.repr@), modulus());
        }
        r
    }

    fn mul(&self, rhs: &Self) -> (r: Self) {
        proof {
            use_type_invariant(self);
            use_type_invariant(rhs);
            lemma_small_mod(le_value(self.repr@), modulus());
            lemma_small_mod(le_value(rhs.repr@), modulus());
        }
        let r = field_mul(self, rhs);
        proof {
            lemma_small_mod(le_value(r.repr@), modulus());
        }
        r
    }

    fn neg(&self) -> (r: Self) {
        proof {
            use_type_invariant(self);
            lemma_small_mod(le_value(self.repr@), modulus());
        }
        let r = field_neg(self);
        proof {
            lemma_small_mod(le_value(r.repr@), modulus());
        }
        r
    }

    fn invert(&self) -> (r: Option<Self>) {
        proof {
            use_type_invariant(self);
            lemma_small_mod(le_value(self.repr@), modulus());
        }
        let r = field_invert(self);
        proof {
            if r is Some {
                lemma_small_mod(le_value(r->0.repr@), modulus());
            }
        }
        r
    }

    fn pow(&self, exponent: &Vec<u8>) -> (r: Self) {
        proof {
            use_type_invariant(self);
            lemma_small_mod(le_value(self.repr@), modulus());
        }
        let r = field_pow(self, exponent);
        proof {
            lemma_small_mod(le_value(r.repr@), modulus());
        }
        r
    }

    fn from_le_bytes(bytes: &Vec<u8>) -> (r: Self) {
        reduce_le_bytes(bytes)
    }

    fn to_le_bytes(&self) -> (bytes: Vec<u8>) {
        proof {
            use_type_invariant(self);
            lemma_small_mod(le_value(self.repr@), modulus());
        }
        repr_to_vec(&self.repr)
    }
}

} // verus!
