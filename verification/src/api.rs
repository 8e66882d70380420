//! The entry points: linting and fixing a parsed document.
//!
//! The parser is not part of this crate. What it returns for a source
//! text is handed in: the tree, which is admitted only if it reproduces
//! the text, or its error, which is handed on as it is.

use vstd::prelude::*;
use vstd::string::*;
use ahash::AHashMap;
use crate::config::{config_entries, Value};
use crate::fixer::{fix_tree, run, FixState};
use crate::linter::{
    active_rules, config_faults, configure, diagnostics_view, lint_diagnostics, lint_tree,
    lint_violations, violations_view, Diagnostic, LintReport,
};
use crate::rules::ErasedRule;
use crate::segment::{text_of, SegmentArena};

verus! {

/// The parser could not make a tree of the source text, or made one that
/// does not reproduce it.
pub struct ParseError {
    pub message: String,
}

/// A document as the parser returned it: an arena and the root of the
/// tree in it.
pub struct SyntaxTree {
    pub arena: SegmentArena,
    pub root: usize,
}

/// How many cycles a fixing run may apply.
pub const RUNAWAY_LIMIT: usize = 10;

impl SyntaxTree {
    /// The arena is well formed and holds the root.
    pub open spec fn wf(&self) -> bool {
        self.arena.wf() && self.root < self.arena@.len()
    }

    /// The text of the document.
    pub open spec fn text(&self) -> Seq<char> {
        text_of(self.arena@, self.root as int)
    }

    /// Admits the tree that the parser made of `source`, if it is
    /// loss-less: if its leaves, read in order, give `source` again.
    pub fn from_parsed(source: &str, arena: SegmentArena, root: usize) -> (out: Result<
        SyntaxTree,
        ParseError,
    >)
        requires
            arena.wf(),
        ensures
            match out {
                Ok(tree) => tree.wf() && tree.arena == arena && tree.root == root && tree.text()
                    == source@,
                Err(_) => !(root < arena@.len() && text_of(arena@, root as int) == source@),
            },
    {
        if root >= arena.len() {
            return Err(ParseError { message: String::from_str("the root is not in the arena") });
        }
        let raw = arena.raw_of(root);
        if !crate::text::str_eq(raw.as_str(), source) {
            return Err(
                ParseError {
                    message: String::from_str("the tree does not reproduce the source text"),
                },
            );
        }
        Ok(SyntaxTree { arena, root })
    }

    /// Serializes the document: the text of its leaves, in order.
    pub fn raw(&self) -> (out: String)
        requires
            self.wf(),
        ensures
            out@ == self.text(),
    {
        self.arena.raw_of(self.root)
    }
}

/// Lints a document with the rules `rules` as `config` configures them.
/// The error of the parser is handed on; nothing else fails the call.
pub fn lint(
    parsed: Result<SyntaxTree, ParseError>,
    dialect: &str,
    rules: Vec<ErasedRule>,
    config: &AHashMap<String, Value>,
) -> (out: Result<LintReport, ParseError>)
    requires
        parsed matches Ok(tree) ==> tree.wf(),
    ensures
        match parsed {
            Ok(tree) => out matches Ok(report) && violations_view(report.violations@)
                == lint_violations(
                    rules@,
                    config_entries(*config),
                    tree.arena@,
                    tree.root,
                    dialect@,
                )
                && diagnostics_view(report.diagnostics@) == lint_diagnostics(
                rules@,
                config_entries(*config),
                tree.arena@,
                tree.root,
                dialect@,
            ),
            Err(e) => out == Err::<LintReport, ParseError>(e),
        },
{
    match parsed {
        Ok(tree) => Ok(lint_tree(&tree.arena, tree.root, dialect, &rules, config)),
        Err(e) => Err(e),
    }
}

/// What fixing a document yields.
pub struct FixReport {
    /// The text of the final tree.
    pub text: String,
    /// The final tree; the arena holds the earlier trees beside it.
    pub tree: SyntaxTree,
    /// Whether the last crawl proposed no more fixes.
    pub converged: bool,
    /// What went wrong on the way, in order.
    pub diagnostics: Vec<Diagnostic>,
}

/// Fixes a document with the rules `rules` as `config` configures them,
/// in at most `limit` cycles, and serializes the result. The error of
/// the parser is handed on; nothing else fails the call.
pub fn fix_with_limit(
    parsed: Result<SyntaxTree, ParseError>,
    rules: Vec<ErasedRule>,
    dialect: &str,
    config: &AHashMap<String, Value>,
    limit: usize,
) -> (out: Result<FixReport, ParseError>)
    requires
        parsed matches Ok(tree) ==> tree.wf(),
    ensures
        match parsed {
            Ok(tree) => out matches Ok(report) && ({
                let entries = config_entries(*config);
                let active = active_rules(rules@, entries, rules@.len() as int);
                let end = run(active, tree.arena@, tree.root, dialect@, entries, limit as nat, 0);
                &&& report.tree.wf()
                &&& report.tree.arena@ == end.arena
                &&& report.tree.root == end.root
                &&& report.text@ == text_of(end.arena, end.root as int)
                &&& report.converged == (end.state == FixState::Converged)
                &&& diagnostics_view(report.diagnostics@) == config_faults(
                    rules@,
                    entries,
                    rules@.len() as int,
                ) + end.faults
            }),
            Err(e) => out == Err::<FixReport, ParseError>(e),
        },
{
    match parsed {
        Ok(tree) => {
            let SyntaxTree { arena, root } = tree;
            let mut arena = arena;
            let (active, mut diagnostics) = configure(&rules, config);
            let ghost before = diagnostics_view(diagnostics@);
            let outcome = fix_tree(&mut arena, root, dialect, &active, config, limit);
            let mut found = outcome.diagnostics;
            let ghost fv = diagnostics_view(found@);
            diagnostics.append(&mut found);
            proof {
                assert(diagnostics_view(diagnostics@) =~= before + fv);
            }
            let text = arena.raw_of(outcome.root);
            Ok(
                FixReport {
                    text,
                    tree: SyntaxTree { arena, root: outcome.root },
                    converged: matches!(outcome.state, FixState::Converged),
                    diagnostics,
                },
            )
        },
        Err(e) => Err(e),
    }
}

/// Fixes a document in at most [`RUNAWAY_LIMIT`] cycles.
pub fn fix(
    parsed: Result<SyntaxTree, ParseError>,
    rules: Vec<ErasedRule>,
    dialect: &str,
    config: &AHashMap<String, Value>,
) -> (out: Result<FixReport, ParseError>)
    requires
        parsed matches Ok(tree) ==> tree.wf(),
    ensures
        match parsed {
            Ok(tree) => out matches Ok(report) && ({
                let entries = config_entries(*config);
                let active = active_rules(rules@, entries, rules@.len() as int);
                let end = run(
                    active,
                    tree.arena@,
                    tree.root,
                    dialect@,
                    entries,
                    RUNAWAY_LIMIT as nat,
                    0,
                );
                &&& report.tree.wf()
                &&& report.tree.arena@ == end.arena
                &&& report.tree.root == end.root
                &&& report.text@ == text_of(end.arena, end.root as int)
                &&& report.converged == (end.state == FixState::Converged)
                &&& diagnostics_view(report.diagnostics@) == config_faults(
                    rules@,
                    entries,
                    rules@.len() as int,
                ) + end.faults
            }),
            Err(e) => out == Err::<FixReport, ParseError>(e),
        },
{
    fix_with_limit(parsed, rules, dialect, config, RUNAWAY_LIMIT)
}

} // verus!
