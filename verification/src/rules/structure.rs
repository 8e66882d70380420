//! Rules on the structure of statements.

pub mod st08;
