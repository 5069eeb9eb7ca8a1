//! A calculator for arithmetic expressions that also decides whether two
//! expressions are equal up to the commutative and associative laws of
//! addition and multiplication.

pub mod collection;
pub mod commute;
pub mod expression;
pub mod helpers;
pub mod scan;
