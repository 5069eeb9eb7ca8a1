//! Scanning text character by character while tracking byte, character and
//! line positions, with simple scanners that combine into larger ones.

pub mod context;
pub mod scan;
pub mod scanner;
pub mod text;
