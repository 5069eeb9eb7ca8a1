//! Enumerating the expressions that are equal to a given one by the
//! commutative and associative laws, and deciding whether two expressions
//! are equal by them.

pub mod helper;
pub mod laws;
pub mod symmetry;
pub mod values;
pub mod variants;
