//! Rules on the layout of statements.

pub mod lt09;
