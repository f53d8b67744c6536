//! Lowering of three-address equality constraints to Plonk-style arithmetic
//! gates, with the field arithmetic and witness evaluation that go with it.

pub mod algebra;
pub mod arith;
pub mod ast;
pub mod bytes;
pub mod circuit;
pub mod eval;
pub mod exactness;
pub mod field;
pub mod gate;
pub mod halo2;
pub mod integer;
pub mod plonk;
pub mod soundness;
pub mod transform;
