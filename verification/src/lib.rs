//! Insertion of explicit reference-count instructions into a monomorphic
//! intermediate representation.

pub mod accounts;
pub mod arena;
pub mod borrow;
pub mod collections;
pub mod counting;
pub mod erasure;
pub mod feasible;
pub mod inc_dec;
pub mod insertion;
pub mod inserted;
pub mod ir;
pub mod likeness;
pub mod liveness;
pub mod liveness_laws;
pub mod occurrence;
pub mod ownership;
pub mod ownership_laws;
pub mod placement;
pub mod scope;
pub mod steps;
pub mod totals;
pub mod usage;
pub mod well_formed;
