//! A rule-based linter and fixer for SQL syntax trees.
//!
//! The crate holds the rule-execution engine and a set of rules:
//!
//! - [`segment`]: the loss-less, persistent segment tree, held in an arena;
//! - [`position`]: where in the text a segment begins;
//! - [`query`]: predicates over segments and ordered selections of them;
//! - [`context`] and [`crawler`]: what a rule sees, and on which segments
//!   it is invoked;
//! - [`fix`]: the edits that a rule proposes and the violations that
//!   carry them;
//! - [`conflict`] and [`apply`]: which fixes of a cycle are applied, and
//!   how they turn a tree into a new one;
//! - [`reflow`]: the respacing of the tokens around an edit;
//! - [`rule`] and [`rules`]: the contract of a rule, and the rules;
//! - [`linter`], [`fixer`] and [`api`]: one crawl with every rule, the
//!   cycle of crawling and fixing, and the entry points;
//! - [`tokens`] and [`effect`]: what edits keep of a tree, and what they
//!   do to its text.
//!
//! The contracts are checked by Verus. The few calls into std and into
//! other crates that Verus has no specification for stand behind small
//! wrappers, in [`text`], [`config`], [`rules::aliasing::al06`] and
//! [`rules::layout::lt09`], whose contracts are stated and not proved.

pub mod text;
pub mod segment;
pub mod position;
pub mod query;
pub mod config;
pub mod fix;
pub mod context;
pub mod crawler;
pub mod conflict;
pub mod apply;
pub mod reflow;
pub mod rule;
pub mod rules;
pub mod linter;
pub mod fixer;
pub mod api;
pub mod tokens;
pub mod effect;
