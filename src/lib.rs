//! Reads molecular structures from fixed-column Protein Data Bank text into a
//! structure, chain, residue and atom hierarchy.

pub mod builder;
pub mod line;
pub mod model;
pub mod numeral;
pub mod theorems;
