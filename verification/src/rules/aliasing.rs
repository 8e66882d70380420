//! Rules on aliases.

pub mod al06;
pub mod al09;
