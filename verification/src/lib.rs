//! A PLONK-style constraint system over the scalar field of BLS12-381 and
//! its lowering to polynomials over a radix-2 evaluation domain.

pub mod field;
pub mod gate;
pub mod circuit;
pub mod polynomial;
pub mod domain;
pub mod error;
pub mod permutation;
pub mod grand_product;
pub mod arithmetization;
pub mod transcript;
pub mod snark;
