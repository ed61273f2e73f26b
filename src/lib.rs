//! Arithmetization kernel of a PLONK-style proof system: the Goldilocks
//! field and its degree-D extension, and the weighted multiply-add gate with
//! its wire layout, constraint evaluation, witness generator and codec.
pub mod field;
pub mod ext;
pub mod config;
pub mod gate;
pub mod witness;
pub mod generator;
pub mod serial;
pub mod algebra;
pub mod circuit;
pub mod export;
