//! The outside collections and algorithms that the library relies on, each
//! behind a contract that is believed rather than proved.

pub mod line;
pub mod queue;
pub mod sorting;
pub mod table;
