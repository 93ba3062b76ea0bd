//! Building blocks for a PLONK prover whose polynomial work is shared among a
//! committee with packed secret sharing over the BN254 scalar field.

pub mod calldata;
pub mod curve;
pub mod dfft;
pub mod dmsm;
pub mod domain;
pub mod dpoly_commit;
pub mod dpp;
pub mod fibo;
pub mod field;
pub mod pack;
pub mod plonk;
pub mod poly_commit;
pub mod pss;
pub mod random;
