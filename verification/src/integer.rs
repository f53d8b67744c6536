//! Signed integers of any size.
//!
//! Constants of the constraint language are not bounded by a machine word.
//! The library holds one as a sign and the little-endian bytes of its
//! magnitude, and knows it in contracts as the mathematical integer. Long
//! division is left to `num_bigint`.

use crate::bytes::{bytes_of_u64, is_zero_bytes, le_value};
use vstd::arithmetic::div_mod::lemma_small_mod;
use vstd::prelude::*;

verus! {

/// A signed integer of any size: a sign and a little-endian magnitude.
#[derive(Debug)]
pub struct Integer {
    pub negative: bool,
    pub magnitude: Vec<u8>,
}

impl View for Integer {
    type V = int;

    open spec fn view(&self) -> int {
        if self.negative {
            -(le_value(self.magnitude@) as int)
        } else {
            le_value(self.magnitude@) as int
        }
    }
}

impl Integer {
    /// The integer `x`.
    pub fn from_u64(x: u64) -> (r: Integer)
        ensures
            r@ == x,
    {
        Integer { negative: false, magnitude: bytes_of_u64(x) }
    }

    /// The integer `x`.
    pub fn from_i64(x: i64) -> (r: Integer)
        ensures
            r@ == x,
    {
        if x >= 0 {
            Integer { negative: false, magnitude: bytes_of_u64(x as u64) }
        } else if x == i64::MIN {
            Integer { negative: true, magnitude: bytes_of_u64(0x8000_0000_0000_0000u64) }
        } else {
            Integer { negative: true, magnitude: bytes_of_u64((-x) as u64) }
        }
    }

    /// The absolute value as little-endian bytes.
    pub fn magnitude(&self) -> (bytes: &Vec<u8>)
        ensures
            le_value(bytes@) == if self@ < 0 {
                -self@
            } else {
                self@
            },
    {
        &self.magnitude
    }

    /// Whether the integer is zero.
    pub fn is_zero(&self) -> (z: bool)
        ensures
            z == (self@ == 0),
    {
        is_zero_bytes(&self.magnitude)
    }

    /// Whether the integer is greater than zero.
    pub fn is_positive(&self) -> (b: bool)
        ensures
            b == (self@ > 0),
    {
        !self.negative && !is_zero_bytes(&self.magnitude)
    }

    /// Whether the integer is less than zero.
    pub fn is_negative(&self) -> (b: bool)
        ensures
            b == (self@ < 0),
    {
        self.negative && !is_zero_bytes(&self.magnitude)
    }

    /// A copy of the integer.
    pub fn duplicate(&self) -> (r: Integer)
        ensures
            r@ == self@,
    {
        Integer { negative: self.negative, magnitude: self.magnitude.clone() }
    }

    /// The non-negative integer with the given little-endian bytes.
    pub fn from_magnitude(magnitude: Vec<u8>) -> (r: Integer)
        ensures
            r@ == le_value(magnitude@),
    {
        Integer { negative: false, magnitude }
    }

    /// Integer quotient, rounded towards zero; `None` for a zero divisor.
    pub fn checked_div(&self, divisor: &Integer) -> (r: Option<Integer>)
        ensures
            r is None <==> divisor@ == 0,
            r is Some ==> r->0@ == trunc_div(self@, divisor@),
    {
        if is_zero_bytes(&divisor.magnitude) {
            return None;
        }
        let magnitude = magnitude_div(&self.magnitude, &divisor.magnitude);
        Some(Integer { negative: self.negative != divisor.negative, magnitude })
    }

    /// Remainder of the quotient rounded towards zero; `None` for a zero divisor.
    pub fn checked_rem(&self, divisor: &Integer) -> (r: Option<Integer>)
        ensures
            r is None <==> divisor@ == 0,
            r is Some ==> r->0@ == trunc_rem(self@, divisor@),
    {
        if is_zero_bytes(&divisor.magnitude) {
            return None;
        }
        let magnitude = magnitude_rem(&self.magnitude, &divisor.magnitude);
        proof {
            if le_value(self.magnitude@) == 0 {
                lemma_small_mod(0, le_value(divisor.magnitude@));
            }
        }
        Some(Integer { negative: self.negative, magnitude })
    }
}

/// The absolute value.
pub open spec fn abs(x: int) -> nat {
    if x < 0 {
        (-x) as nat
    } else {
        x as nat
    }
}

/// The quotient of `a` by `b`, rounded towards zero.
pub open spec fn trunc_div(a: int, b: int) -> int {
    if (a < 0) != (b < 0) {
        -((abs(a) / abs(b)) as int)
    } else {
        (abs(a) / abs(b)) as int
    }
}

/// What is left of `a` after the quotient rounded towards zero: it has the sign of `a`.
pub open spec fn trunc_rem(a: int, b: int) -> int {
    if a < 0 {
        -((abs(a) % abs(b)) as int)
    } else {
        (abs(a) % abs(b)) as int
    }
}

/// `/` on `num_bigint::BigUint`, between the numbers that the two byte
/// strings stand for: the integer quotient, as little-endian bytes.
#[verifier::external_body]
fn magnitude_div(a: &Vec<u8>, b: &Vec<u8>) -> (q: Vec<u8>)
    requires
        le_value(b@) != 0,
    ensures
        le_value(q@) == le_value(a@) / le_value(b@),
{
    let x = num_bigint::BigUint::from_bytes_le(a);
    let y = num_bigint::BigUint::from_bytes_le(b);
    (x / y).to_bytes_le()
}

/// `%` on `num_bigint::BigUint`, between the numbers that the two byte
/// strings stand for: the remainder, as little-endian bytes.
#[verifier::external_body]
fn magnitude_rem(a: &Vec<u8>, b: &Vec<u8>) -> (r: Vec<u8>)
    requires
        le_value(b@) != 0,
    ensures
        le_value(r@) == le_value(a@) % le_value(b@),
{
    let x = num_bigint::BigUint::from_bytes_le(a);
    let y = num_bigint::BigUint::from_bytes_le(b);
    (x % y).to_bytes_le()
}

} // verus!
