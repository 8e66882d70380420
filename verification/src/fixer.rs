//! The fixer: crawls, applies the fixes accepted, and crawls again, until
//! a crawl yields no fix or the budget of cycles is spent.

use vstd::prelude::*;
use vstd::string::*;
use ahash::AHashMap;
use crate::apply::{plan_ok, rebuild, rebuild_spec};
use crate::config::{config_entries, Value, ValueData};
use crate::conflict::{
    accepted_plan, decisions, fix_valid, groups_of, lemma_accepted_fixes_are_valid, select_fixes,
    FixDecision,
};
use crate::fix::{fixes_view, results_view, LintFixData, LintResult, LintResultData};
use crate::linter::{
    all_faults, all_owners, all_results, diagnostics_view, evaluate, is_clean,
    lemma_clean_input_has_no_violations, Diagnostic, DiagnosticData, Evaluation,
};
use crate::rule::Rule;
use crate::rules::ErasedRule;
use crate::segment::{extends, SegmentArena, SegmentData};

verus! {

/// The states of a fixing run.
#[derive(Debug, Clone, Copy, PartialEq, Eq, Structural)]
pub enum FixState {
    /// The rules are being invoked on the current tree.
    Crawling,
    /// The fixes accepted are being applied to the current tree.
    Applying,
    /// The last crawl yielded no fix to apply.
    Converged,
    /// Fixes were still proposed when the budget of cycles was spent.
    NonConverged,
}

/// The state that follows a crawl which accepted `accepted` fixes, after
/// `cycles` cycles of a budget of `limit`.
pub open spec fn after_crawl(accepted: nat, cycles: nat, limit: nat) -> FixState {
    if accepted == 0 {
        FixState::Converged
    } else if cycles >= limit {
        FixState::NonConverged
    } else {
        FixState::Applying
    }
}

/// Decides the state that follows a crawl.
pub fn next_state(accepted: usize, cycles: usize, limit: usize) -> (out: FixState)
    ensures
        out == after_crawl(accepted as nat, cycles as nat, limit as nat),
{
    if accepted == 0 {
        FixState::Converged
    } else if cycles >= limit {
        FixState::NonConverged
    } else {
        FixState::Applying
    }
}

/// The fixes that one crawl of the tree below `root` accepts.
#[verifier::opaque]
pub open spec fn cycle_plan(
    rules: Seq<ErasedRule>,
    a: Seq<SegmentData>,
    root: usize,
    dialect: Seq<char>,
    entries: Map<Seq<char>, ValueData>,
) -> Seq<LintFixData> {
    let results = all_results(rules, a, root, dialect, entries, rules.len() as int);
    accepted_plan(a, root, groups_of(results), results.len() as int)
}

/// One diagnostic for each of the first `n` violations whose fixes are
/// stale.
pub open spec fn stale_faults(
    rules: Seq<ErasedRule>,
    owners: Seq<usize>,
    results: Seq<LintResultData>,
    decided: Seq<FixDecision>,
    n: int,
) -> Seq<DiagnosticData>
    decreases n,
{
    if n <= 0 || n > results.len() || n > owners.len() || n > decided.len() {
        Seq::empty()
    } else {
        let before = stale_faults(rules, owners, results, decided, n - 1);
        if decided[n - 1] == FixDecision::Stale && owners[n - 1] < rules.len() {
            before.push(
                DiagnosticData::SkippedFix {
                    rule_name: rules[owners[n - 1] as int].name_spec(),
                    anchor: results[n - 1].anchor,
                },
            )
        } else {
            before
        }
    }
}

/// The diagnostics of one crawl: the segments that a rule could not
/// evaluate, then the violations whose fixes are stale.
#[verifier::opaque]
pub open spec fn cycle_faults(
    rules: Seq<ErasedRule>,
    a: Seq<SegmentData>,
    root: usize,
    dialect: Seq<char>,
    entries: Map<Seq<char>, ValueData>,
) -> Seq<DiagnosticData> {
    let n = rules.len() as int;
    let results = all_results(rules, a, root, dialect, entries, n);
    all_faults(rules, a, root, dialect, entries, n) + stale_faults(
        rules,
        all_owners(rules, a, root, dialect, entries, n),
        results,
        decisions(a, root, groups_of(results), results.len() as int),
        results.len() as int,
    )
}

/// Every fix that a cycle applies names a segment of the tree that the
/// cycle crawled.
pub proof fn lemma_cycle_plan_is_valid(
    rules: Seq<ErasedRule>,
    a: Seq<SegmentData>,
    root: usize,
    dialect: Seq<char>,
    entries: Map<Seq<char>, ValueData>,
)
    ensures
        forall|i: int|
            0 <= i < cycle_plan(rules, a, root, dialect, entries).len() ==> fix_valid(
                a,
                root,
                #[trigger] cycle_plan(rules, a, root, dialect, entries)[i],
            ),
{
    reveal(cycle_plan);
    let results = all_results(rules, a, root, dialect, entries, rules.len() as int);
    lemma_accepted_fixes_are_valid(a, root, groups_of(results), results.len() as int);
}

/// How a fixing run ends.
pub struct RunEnd {
    pub arena: Seq<SegmentData>,
    pub root: usize,
    pub state: FixState,
    pub cycles: nat,
    pub faults: Seq<DiagnosticData>,
}

/// The end of a fixing run that has applied `done` cycles of a budget of
/// `limit` and stands at the tree below `root`: it crawls; with no fix
/// accepted it has converged; with the budget spent it has not; else it
/// applies the fixes accepted and goes on from the new tree.
pub open spec fn run(
    rules: Seq<ErasedRule>,
    a: Seq<SegmentData>,
    root: usize,
    dialect: Seq<char>,
    entries: Map<Seq<char>, ValueData>,
    limit: nat,
    done: nat,
) -> RunEnd
    decreases limit - done,
{
    let plan = cycle_plan(rules, a, root, dialect, entries);
    let faults = cycle_faults(rules, a, root, dialect, entries);
    match after_crawl(plan.len(), done, limit) {
        FixState::Applying => {
            let (b, next) = rebuild_spec(a, root as int, plan);
            let end = run(rules, b, next, dialect, entries, limit, done + 1);
            RunEnd { faults: faults + end.faults, ..end }
        },
        FixState::NonConverged => RunEnd {
            arena: a,
            root,
            state: FixState::NonConverged,
            cycles: done,
            faults: faults.push(DiagnosticData::NonConvergence { cycles: done as usize }),
        },
        _ => RunEnd { arena: a, root, state: FixState::Converged, cycles: done, faults },
    }
}

/// A run that has converged ends at a tree on which a crawl accepts no
/// fix.
pub proof fn lemma_converged_is_stable(
    rules: Seq<ErasedRule>,
    a: Seq<SegmentData>,
    root: usize,
    dialect: Seq<char>,
    entries: Map<Seq<char>, ValueData>,
    limit: nat,
    done: nat,
)
    requires
        run(rules, a, root, dialect, entries, limit, done).state == FixState::Converged,
    ensures
        ({
            let end = run(rules, a, root, dialect, entries, limit, done);
            cycle_plan(rules, end.arena, end.root, dialect, entries).len() == 0
        }),
    decreases limit - done,
{
    let plan = cycle_plan(rules, a, root, dialect, entries);
    if after_crawl(plan.len(), done, limit) == FixState::Applying {
        let (b, next) = rebuild_spec(a, root as int, plan);
        lemma_converged_is_stable(rules, b, next, dialect, entries, limit, done + 1);
    }
}

/// Fixing is idempotent: a run that has converged ends at a tree which
/// a second run, under any budget, leaves as it is, and says so.
pub proof fn lemma_fix_idempotent(
    rules: Seq<ErasedRule>,
    a: Seq<SegmentData>,
    root: usize,
    dialect: Seq<char>,
    entries: Map<Seq<char>, ValueData>,
    limit: nat,
    again: nat,
)
    requires
        run(rules, a, root, dialect, entries, limit, 0).state == FixState::Converged,
    ensures
        ({
            let first = run(rules, a, root, dialect, entries, limit, 0);
            let second = run(rules, first.arena, first.root, dialect, entries, again, 0);
            second.arena == first.arena && second.root == first.root && second.state
                == FixState::Converged && second.cycles == 0
        }),
{
    lemma_converged_is_stable(rules, a, root, dialect, entries, limit, 0);
}

/// Clean input is left as it is: where the rules find nothing on a
/// tree, a fixing run converges at once, on that tree.
pub proof fn lemma_clean_input_is_left_alone(
    rules: Seq<ErasedRule>,
    a: Seq<SegmentData>,
    root: usize,
    dialect: Seq<char>,
    entries: Map<Seq<char>, ValueData>,
    limit: nat,
)
    requires
        is_clean(rules, a, root, dialect, entries),
    ensures
        ({
            let end = run(rules, a, root, dialect, entries, limit, 0);
            end.arena == a && end.root == root && end.state == FixState::Converged && end.cycles
                == 0
        }),
{
    reveal(cycle_plan);
    lemma_clean_input_has_no_violations(rules, a, root, dialect, entries, rules.len() as int);
}

/// What a fixing run leaves behind.
pub struct FixOutcome {
    /// The root of the final tree.
    pub root: usize,
    /// `Converged` or `NonConverged`.
    pub state: FixState,
    /// How many cycles applied fixes.
    pub cycles: usize,
    /// What went wrong on the way, in order.
    pub diagnostics: Vec<Diagnostic>,
}

/// Adds a diagnostic for each violation whose fixes are stale.
fn report_stale(
    rules: &Vec<ErasedRule>,
    owners: &Vec<usize>,
    results: &Vec<LintResult>,
    decided: &Vec<FixDecision>,
    out: &mut Vec<Diagnostic>,
)
    requires
        decided@.len() == results@.len(),
        owners@.len() == results@.len(),
    ensures
        diagnostics_view(final(out)@) == diagnostics_view(old(out)@) + stale_faults(
            rules@,
            owners@,
            results_view(results@),
            decided@,
            results@.len() as int,
        ),
{
    let ghost base = diagnostics_view(out@);
    let ghost shown = results_view(results@);
    let mut i: usize = 0;
    proof {
        assert(base + Seq::<DiagnosticData>::empty() =~= base);
    }
    while i < results.len()
        invariant
            decided@.len() == results@.len(),
            owners@.len() == results@.len(),
            shown == results_view(results@),
            0 <= i <= results@.len(),
            diagnostics_view(out@) == base + stale_faults(
                rules@,
                owners@,
                shown,
                decided@,
                i as int,
            ),
        decreases results@.len() - i,
    {
        let owner = owners[i];
        let ghost sofar = stale_faults(rules@, owners@, shown, decided@, i as int);
        if matches!(decided[i], FixDecision::Stale) && owner < rules.len() {
            let ghost prev = diagnostics_view(out@);
            let d = Diagnostic::SkippedFix {
                rule_name: rules[owner].name().to_owned(),
                anchor: results[i].anchor,
            };
            out.push(d);
            proof {
                assert(shown[i as int] == results@[i as int]@);
                assert(diagnostics_view(out@) =~= prev.push(d@));
                assert(diagnostics_view(out@) =~= base + sofar.push(d@));
            }
        }
        i = i + 1;
    }
}

/// Crawls the tree below `root` once and decides which fixes to apply.
/// Gives the fixes accepted and adds the diagnostics of the crawl.
fn crawl_cycle(
    rules: &Vec<ErasedRule>,
    arena: &SegmentArena,
    root: usize,
    dialect: &str,
    config: &AHashMap<String, Value>,
    diagnostics: &mut Vec<Diagnostic>,
) -> (plan: Vec<crate::fix::LintFix>)
    requires
        arena.wf(),
        root < arena@.len(),
    ensures
        fixes_view(plan@) == cycle_plan(rules@, arena@, root, dialect@, config_entries(*config)),
        fixes_view(plan@).len() == plan@.len(),
        plan_ok(arena@.len(), fixes_view(plan@)),
        diagnostics_view(final(diagnostics)@) == diagnostics_view(old(diagnostics)@)
            + cycle_faults(rules@, arena@, root, dialect@, config_entries(*config)),
{
    let ghost before = diagnostics_view(diagnostics@);
    proof {
        reveal(cycle_plan);
        reveal(cycle_faults);
    }
    let evaluation = evaluate(rules, arena, root, dialect, config);
    let (decided, plan) = select_fixes(arena, root, &evaluation.results);
    let ghost faults = diagnostics_view(evaluation.faults@);
    let Evaluation { results, owners, violations: _, faults: found } = evaluation;
    let mut found = found;
    diagnostics.append(&mut found);
    proof {
        assert(diagnostics_view(diagnostics@) =~= before + faults);
        assert(results_view(results@).len() == results@.len());
    }
    report_stale(rules, &owners, &results, &decided, diagnostics);
    proof {
        let stale = stale_faults(
            rules@,
            owners@,
            results_view(results@),
            decided@,
            results@.len() as int,
        );
        assert(diagnostics_view(diagnostics@) =~= before + (faults + stale));
    }
    plan
}

/// Fixes the tree below `root` with the rules `rules`, which are
/// configured: crawls and applies the fixes accepted, at most `limit`
/// times. The segments of the final tree stand in the arena beside
/// those of the first, which is left as it was.
pub fn fix_tree(
    arena: &mut SegmentArena,
    root: usize,
    dialect: &str,
    rules: &Vec<ErasedRule>,
    config: &AHashMap<String, Value>,
    limit: usize,
) -> (out: FixOutcome)
    requires
        old(arena).wf(),
        root < old(arena)@.len(),
    ensures
        final(arena).wf(),
        extends(final(arena)@, old(arena)@),
        out.root < final(arena)@.len(),
        ({
            let end = run(
                rules@,
                old(arena)@,
                root,
                dialect@,
                config_entries(*config),
                limit as nat,
                0,
            );
            &&& final(arena)@ == end.arena
            &&& out.root == end.root
            &&& out.state == end.state
            &&& out.cycles == end.cycles
            &&& diagnostics_view(out.diagnostics@) == end.faults
        }),
{
    let ghost a0 = arena@;
    let ghost whole = run(rules@, a0, root, dialect@, config_entries(*config), limit as nat, 0);
    let mut diagnostics: Vec<Diagnostic> = Vec::new();
    let mut current = root;
    let mut cycles: usize = 0;
    proof {
        assert(diagnostics_view(diagnostics@) =~= Seq::<DiagnosticData>::empty());
        assert(Seq::<DiagnosticData>::empty() + whole.faults =~= whole.faults);
    }
    loop
        invariant
            arena.wf(),
            a0 == old(arena)@,
            extends(arena@, a0),
            current < arena@.len(),
            cycles <= limit,
            whole == run(rules@, a0, root, dialect@, config_entries(*config), limit as nat, 0),
            ({
                let rest = run(
                    rules@,
                    arena@,
                    current,
                    dialect@,
                    config_entries(*config),
                    limit as nat,
                    cycles as nat,
                );
                &&& whole.arena == rest.arena
                &&& whole.root == rest.root
                &&& whole.state == rest.state
                &&& whole.cycles == rest.cycles
                &&& whole.faults == diagnostics_view(diagnostics@) + rest.faults
            }),
        decreases limit - cycles,
    {
        let ghost a = arena@;
        let ghost before = diagnostics_view(diagnostics@);
        let plan = crawl_cycle(rules, arena, current, dialect, config, &mut diagnostics);
        let ghost now = cycle_faults(rules@, a, current, dialect@, config_entries(*config));
        match next_state(plan.len(), cycles, limit) {
            FixState::Applying => {
                let ghost rest = run(
                    rules@,
                    a,
                    current,
                    dialect@,
                    config_entries(*config),
                    limit as nat,
                    cycles as nat,
                );
                current = rebuild(arena, current, &plan);
                cycles = cycles + 1;
                proof {
                    let next = run(
                        rules@,
                        arena@,
                        current,
                        dialect@,
                        config_entries(*config),
                        limit as nat,
                        cycles as nat,
                    );
                    assert(rest.faults == now + next.faults);
                    assert(before + (now + next.faults) =~= (before + now) + next.faults);
                }
            },
            FixState::NonConverged => {
                let ghost prev = diagnostics_view(diagnostics@);
                let d = Diagnostic::NonConvergence { cycles };
                diagnostics.push(d);
                proof {
                    assert(diagnostics_view(diagnostics@) =~= prev.push(d@));
                    assert(diagnostics_view(diagnostics@) =~= before + now.push(d@));
                }
                return FixOutcome {
                    root: current,
                    state: FixState::NonConverged,
                    cycles,
                    diagnostics,
                };
            },
            _ => {
                proof {
                    let rest = run(
                        rules@,
                        a,
                        current,
                        dialect@,
                        config_entries(*config),
                        limit as nat,
                        cycles as nat,
                    );
                    assert(rest.faults == now);
                    assert(rest.state == FixState::Converged);
                }
                return FixOutcome { root: current, state: FixState::Converged, cycles, diagnostics };
            },
        }
    }
}

} // verus!
