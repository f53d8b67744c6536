//! Little-endian byte strings read as natural numbers.
//!
//! Constants, field representations and exponents all travel through the
//! library as little-endian byte strings. This module fixes what number such
//! a string stands for and proves the handful of facts the rest of the crate
//! needs about it.

use vstd::prelude::*;

verus! {

/// `256^n`.
pub open spec fn pow256(n: nat) -> nat
    decreases n,
{
    if n == 0 {
        1
    } else {
        256 * pow256((n - 1) as nat)
    }
}

/// The number that the little-endian byte string `s` stands for.
pub open spec fn le_value(s: Seq<u8>) -> nat
    decreases s.len(),
{
    if s.len() == 0 {
        0
    } else {
        (s[0] as nat) + 256 * le_value(s.drop_first())
    }
}

/// The number that the little-endian string of 32-bit limbs `s` stands for.
pub open spec fn limbs_value(s: Seq<u32>) -> nat
    decreases s.len(),
{
    if s.len() == 0 {
        0
    } else {
        (s[0] as nat) + 0x1_0000_0000 * limbs_value(s.drop_first())
    }
}

/// Every byte of `s` is zero.
pub open spec fn all_zero(s: Seq<u8>) -> bool {
    forall|i: int| 0 <= i < s.len() ==> s[i] == 0
}

/// Powers of 256 multiply as their exponents add.
pub proof fn lemma_pow256_add(m: nat, n: nat)
    ensures
        pow256(m + n) == pow256(m) * pow256(n),
    decreases m,
{
    if m == 0 {
        assert(pow256(0) == 1);
    } else {
        lemma_pow256_add((m - 1) as nat, n);
        assert(pow256(m + n) == 256 * pow256((m + n - 1) as nat));
        assert(((m - 1) as nat) + n == (m + n - 1) as nat);
        assert(256 * (pow256((m - 1) as nat) * pow256(n)) == (256 * pow256((m - 1) as nat))
            * pow256(n)) by (nonlinear_arith);
    }
}

/// The value of a concatenation: the second string is shifted past the first.
pub proof fn lemma_le_value_concat(a: Seq<u8>, b: Seq<u8>)
    ensures
        le_value(a + b) == le_value(a) + pow256(a.len()) * le_value(b),
    decreases a.len(),
{
    if a.len() == 0 {
        assert(a + b =~= b);
        assert(pow256(0) == 1);
    } else {
        let rest = a.drop_first();
        lemma_le_value_concat(rest, b);
        assert((a + b).drop_first() =~= rest + b);
        assert((a + b)[0] == a[0]);
        assert(256 * (pow256(rest.len()) * le_value(b)) == (256 * pow256(rest.len())) * le_value(
            b,
        )) by (nonlinear_arith);
    }
}

/// A string stands for zero exactly when all its bytes are zero.
pub proof fn lemma_le_value_zero(s: Seq<u8>)
    ensures
        le_value(s) == 0 <==> all_zero(s),
    decreases s.len(),
{
    if s.len() > 0 {
        let rest = s.drop_first();
        lemma_le_value_zero(rest);
        if all_zero(s) {
            assert forall|i: int| 0 <= i < rest.len() implies rest[i] == 0 by {
                assert(rest[i] == s[i + 1]);
            }
        }
        if le_value(s) == 0 {
            assert(s[0] == 0);
            assert(all_zero(rest));
            assert forall|i: int| 0 <= i < s.len() implies s[i] == 0 by {
                if i > 0 {
                    assert(s[i] == rest[i - 1]);
                }
            }
        }
    }
}

/// Zero bytes at the high end do not change the value.
pub proof fn lemma_le_value_padding(s: Seq<u8>, zeros: Seq<u8>)
    requires
        all_zero(zeros),
    ensures
        le_value(s + zeros) == le_value(s),
{
    lemma_le_value_concat(s, zeros);
    lemma_le_value_zero(zeros);
    assert(pow256(s.len()) * 0 == 0);
}

/// Appending one byte adds it at the next free position.
pub proof fn lemma_le_value_push(s: Seq<u8>, b: u8)
    ensures
        le_value(s.push(b)) == le_value(s) + pow256(s.len()) * (b as nat),
{
    let t = seq![b];
    assert(s.push(b) =~= s + t);
    lemma_le_value_concat(s, t);
    assert(t.drop_first() =~= Seq::<u8>::empty());
    assert(le_value(t) == b as nat) by {
        reveal_with_fuel(le_value, 2);
    }
}

/// Whether the byte string stands for zero.
pub fn is_zero_bytes(bytes: &Vec<u8>) -> (zero: bool)
    ensures
        zero == (le_value(bytes@) == 0),
{
    let mut i: usize = 0;
    while i < bytes.len()
        invariant
            i <= bytes.len(),
            forall|j: int| 0 <= j < i ==> bytes@[j] == 0,
        decreases bytes.len() - i,
    {
        if bytes[i] != 0 {
            proof {
                lemma_le_value_zero(bytes@);
            }
            return false;
        }
        i += 1;
    }
    proof {
        lemma_le_value_zero(bytes@);
    }
    true
}

/// The little-endian bytes of `x`, without high zero bytes.
pub fn bytes_of_u64(x: u64) -> (bytes: Vec<u8>)
    ensures
        le_value(bytes@) == x,
        bytes.len() <= 8,
{
    let mut bytes: Vec<u8> = Vec::new();
    let mut rest: u64 = x;
    let ghost mut scale: nat = 1;
    while rest > 0
        invariant
            scale == pow256(bytes.len() as nat),
            le_value(bytes@) + scale * rest == x,
            bytes.len() <= 8,
            bytes.len() == 8 ==> rest == 0,
            scale > 0,
        decreases rest,
    {
        let low: u8 = (rest % 256) as u8;
        proof {
            lemma_le_value_push(bytes@, low);
            assert(scale * rest == scale * (low as nat) + (scale * 256) * (rest / 256)) by (nonlinear_arith)
                requires
                    low == rest % 256,
            ;
            if bytes.len() == 7 {
                lemma_pow256_add(7, 1);
                assert(pow256(8) == 0x1_0000_0000_0000_0000) by {
                    reveal_with_fuel(pow256, 9);
                }
                assert(scale * 256 == pow256(8));
                assert(rest / 256 == 0) by (nonlinear_arith)
                    requires
                        (scale * 256) * (rest / 256) <= x,
                        scale * 256 == 0x1_0000_0000_0000_0000,
                        x < 0x1_0000_0000_0000_0000,
                        rest / 256 >= 0,
                ;
            }
            assert(pow256((bytes.len() + 1) as nat) == 256 * scale);
        }
        bytes.push(low);
        rest = rest / 256;
        proof {
            scale = scale * 256;
        }
    }
    bytes
}

/// The 32 bytes that stand for zero.
pub fn zero_repr() -> (repr: [u8; 32])
    ensures
        le_value(repr@) == 0,
{
    let repr = [0u8; 32];
    proof {
        assert(repr == vstd::array::spec_array_fill_for_copy_type::<u8, 32>(0u8));
        assert(all_zero(repr@));
        lemma_le_value_zero(repr@);
    }
    repr
}

/// The 32 bytes that stand for one.
pub fn unit_repr() -> (repr: [u8; 32])
    ensures
        le_value(repr@) == 1,
{
    let mut repr = [0u8; 32];
    assert(repr == vstd::array::spec_array_fill_for_copy_type::<u8, 32>(0u8));
    assert(all_zero(repr@));
    repr[0] = 1;
    proof {
        let rest = repr@.drop_first();
        assert(all_zero(rest)) by {
            assert forall|i: int| 0 <= i < rest.len() implies rest[i] == 0 by {
                assert(rest[i] == repr@[i + 1]);
            }
        }
        lemma_le_value_zero(rest);
    }
    repr
}

/// Whether the 32 bytes stand for zero.
pub fn repr_is_zero(repr: &[u8; 32]) -> (zero: bool)
    ensures
        zero == (le_value(repr@) == 0),
{
    proof {
        lemma_le_value_zero(repr@);
    }
    let mut i: usize = 0;
    while i < 32
        invariant
            i <= 32,
            forall|j: int| 0 <= j < i ==> repr@[j] == 0,
            le_value(repr@) == 0 <==> all_zero(repr@),
        decreases 32 - i,
    {
        if repr[i] != 0 {
            return false;
        }
        i += 1;
    }
    true
}

/// The 32 bytes as a vector.
pub fn repr_to_vec(repr: &[u8; 32]) -> (bytes: Vec<u8>)
    ensures
        bytes@ == repr@,
{
    let mut bytes: Vec<u8> = Vec::new();
    let mut i: usize = 0;
    while i < 32
        invariant
            i <= 32,
            bytes@ == repr@.take(i as int),
        decreases 32 - i,
    {
        bytes.push(repr[i]);
        assert(repr@.take(i + 1) == repr@.take(i as int).push(repr@[i as int]));
        i += 1;
    }
    assert(repr@.take(32) == repr@);
    bytes
}

} // verus!
