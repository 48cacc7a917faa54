//! Algebraic structures over tagged binary operations: magmas, semigroups,
//! quasigroups, monoids and groups built on a carrier collection, with
//! permutations and modular integers as element families.

pub mod algebraic_objects;
pub mod closure;
pub mod errors;
pub mod integers;
pub mod mod_ints;
pub mod number_theory;
pub mod ops;
pub mod permutations;
pub mod set;
