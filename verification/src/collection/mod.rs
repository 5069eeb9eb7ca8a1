//! Collections that the enumeration of equivalent expressions runs on.

pub mod combinations;
pub mod link_list;
