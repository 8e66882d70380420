//! The linter: configures the active rules, invokes each on the segments
//! its crawler selects, and gathers what they find.

use vstd::prelude::*;
use vstd::string::*;
use ahash::AHashMap;
use crate::config::{config_entries, Value, ValueData};
use crate::context::{ContextData, RuleContext};
use crate::crawler::{contexts_of, contexts_view, crawl_spec};
use crate::fix::{results_view, LintResult, LintResultData};
use crate::position::{position_in, PositionMarker};
use crate::rule::Rule;
use crate::rules::ErasedRule;
use crate::segment::{SegmentArena, SegmentData};

verus! {

/// A violation as it is reported: which rule, what it says, and where.
pub struct Violation {
    pub rule_name: String,
    pub message: String,
    pub position: PositionMarker,
}

/// The content of a [`Violation`].
pub struct ViolationData {
    pub rule_name: Seq<char>,
    pub message: Seq<char>,
    pub position: PositionMarker,
}

impl View for Violation {
    type V = ViolationData;

    open spec fn view(&self) -> ViolationData {
        ViolationData {
            rule_name: self.rule_name@,
            message: self.message@,
            position: self.position,
        }
    }
}

/// The contents of a list of violations.
pub open spec fn violations_view(v: Seq<Violation>) -> Seq<ViolationData> {
    v.map_values(|x: Violation| x@)
}

/// Something that went wrong beside the violations, and did not stop
/// the run.
pub enum Diagnostic {
    /// The rule could not be configured and was left out of the run.
    ConfigError { rule_name: String, option: String },
    /// The rule could not evaluate a segment; nothing is reported there.
    RuleEvalFault { rule_name: String, segment: usize },
    /// A fix of the rule names a segment that is not in the tree; the
    /// fixes of that violation were not applied.
    SkippedFix { rule_name: String, anchor: usize },
    /// Fixes were still proposed when the cycle budget ran out.
    NonConvergence { cycles: usize },
}

/// The content of a [`Diagnostic`].
pub enum DiagnosticData {
    ConfigError { rule_name: Seq<char>, option: Seq<char> },
    RuleEvalFault { rule_name: Seq<char>, segment: usize },
    SkippedFix { rule_name: Seq<char>, anchor: usize },
    NonConvergence { cycles: usize },
}

impl View for Diagnostic {
    type V = DiagnosticData;

    open spec fn view(&self) -> DiagnosticData {
        match self {
            Diagnostic::ConfigError { rule_name, option } => DiagnosticData::ConfigError {
                rule_name: rule_name@,
                option: option@,
            },
            Diagnostic::RuleEvalFault { rule_name, segment } => DiagnosticData::RuleEvalFault {
                rule_name: rule_name@,
                segment: *segment,
            },
            Diagnostic::SkippedFix { rule_name, anchor } => DiagnosticData::SkippedFix {
                rule_name: rule_name@,
                anchor: *anchor,
            },
            Diagnostic::NonConvergence { cycles } => DiagnosticData::NonConvergence {
                cycles: *cycles,
            },
        }
    }
}

/// The contents of a list of diagnostics.
pub open spec fn diagnostics_view(v: Seq<Diagnostic>) -> Seq<DiagnosticData> {
    v.map_values(|x: Diagnostic| x@)
}

/// The rules that the options `entries` configure among the first `n`,
/// each as configured, in order.
pub open spec fn active_rules(
    rules: Seq<ErasedRule>,
    entries: Map<Seq<char>, ValueData>,
    n: int,
) -> Seq<ErasedRule>
    decreases n,
{
    if n <= 0 || n > rules.len() {
        Seq::empty()
    } else {
        let before = active_rules(rules, entries, n - 1);
        match rules[n - 1].load_spec(entries) {
            Ok(rule) => before.push(rule),
            Err(_) => before,
        }
    }
}

/// One diagnostic for each of the first `n` rules that the options
/// `entries` cannot configure.
pub open spec fn config_faults(
    rules: Seq<ErasedRule>,
    entries: Map<Seq<char>, ValueData>,
    n: int,
) -> Seq<DiagnosticData>
    decreases n,
{
    if n <= 0 || n > rules.len() {
        Seq::empty()
    } else {
        let before = config_faults(rules, entries, n - 1);
        match rules[n - 1].load_spec(entries) {
            Ok(_) => before,
            Err(option) => before.push(
                DiagnosticData::ConfigError { rule_name: rules[n - 1].name_spec(), option },
            ),
        }
    }
}

/// Configures each rule. A rule that cannot be configured is left out
/// and reported; the others go on.
pub fn configure(rules: &Vec<ErasedRule>, config: &AHashMap<String, Value>) -> (out: (
    Vec<ErasedRule>,
    Vec<Diagnostic>,
))
    ensures
        out.0@ == active_rules(rules@, config_entries(*config), rules@.len() as int),
        diagnostics_view(out.1@) == config_faults(
            rules@,
            config_entries(*config),
            rules@.len() as int,
        ),
{
    let ghost entries = config_entries(*config);
    let mut active: Vec<ErasedRule> = Vec::new();
    let mut faults: Vec<Diagnostic> = Vec::new();
    let mut i: usize = 0;
    proof {
        assert(diagnostics_view(faults@) =~= Seq::<DiagnosticData>::empty());
    }
    while i < rules.len()
        invariant
            entries == config_entries(*config),
            0 <= i <= rules@.len(),
            active@ == active_rules(rules@, entries, i as int),
            diagnostics_view(faults@) == config_faults(rules@, entries, i as int),
        decreases rules@.len() - i,
    {
        let ghost before = diagnostics_view(faults@);
        match rules[i].load_from_config(config) {
            Ok(rule) => {
                active.push(rule);
            },
            Err(e) => {
                let d = Diagnostic::ConfigError {
                    rule_name: rules[i].name().to_owned(),
                    option: e.option,
                };
                faults.push(d);
                proof {
                    assert(diagnostics_view(faults@) =~= before.push(d@));
                }
            },
        }
        i = i + 1;
    }
    (active, faults)
}

/// The violation of `rule` in context `cx` as it is reported: under the
/// name of the rule, with the message of the violation or else the
/// description of the rule, at the place where its anchor begins in the
/// tree below `root`, or else where the segment of the context begins.
pub open spec fn violation_of(
    rule: ErasedRule,
    a: Seq<SegmentData>,
    root: usize,
    cx: ContextData,
    r: LintResultData,
) -> ViolationData {
    ViolationData {
        rule_name: rule.name_spec(),
        message: match r.description {
            Some(m) => m,
            None => rule.description_spec(),
        },
        position: match position_in(a, root as int, r.anchor, PositionMarker::origin_spec()) {
            Some(p) => p,
            None => cx.position,
        },
    }
}

/// What `rule` finds in context `cx`: its violations, or nothing if it
/// cannot evaluate the segment.
pub open spec fn found_in(
    rule: ErasedRule,
    a: Seq<SegmentData>,
    dialect: Seq<char>,
    entries: Map<Seq<char>, ValueData>,
    cx: ContextData,
) -> Seq<LintResultData> {
    match rule.eval_spec(a, cx, dialect, entries) {
        Ok(found) => found,
        Err(_) => Seq::empty(),
    }
}

/// What `rule` finds in the first `n` contexts, in order.
pub open spec fn rule_results(
    rule: ErasedRule,
    a: Seq<SegmentData>,
    dialect: Seq<char>,
    entries: Map<Seq<char>, ValueData>,
    contexts: Seq<ContextData>,
    n: int,
) -> Seq<LintResultData>
    decreases n,
{
    if n <= 0 || n > contexts.len() {
        Seq::empty()
    } else {
        rule_results(rule, a, dialect, entries, contexts, n - 1) + found_in(
            rule,
            a,
            dialect,
            entries,
            contexts[n - 1],
        )
    }
}

/// The reports on what `rule` finds in the first `n` contexts.
pub open spec fn rule_violations(
    rule: ErasedRule,
    a: Seq<SegmentData>,
    root: usize,
    dialect: Seq<char>,
    entries: Map<Seq<char>, ValueData>,
    contexts: Seq<ContextData>,
    n: int,
) -> Seq<ViolationData>
    decreases n,
{
    if n <= 0 || n > contexts.len() {
        Seq::empty()
    } else {
        rule_violations(rule, a, root, dialect, entries, contexts, n - 1) + found_in(
            rule,
            a,
            dialect,
            entries,
            contexts[n - 1],
        ).map_values(|r: LintResultData| violation_of(rule, a, root, contexts[n - 1], r))
    }
}

/// One diagnostic for each of the first `n` contexts that `rule` cannot
/// evaluate.
pub open spec fn rule_faults(
    rule: ErasedRule,
    a: Seq<SegmentData>,
    dialect: Seq<char>,
    entries: Map<Seq<char>, ValueData>,
    contexts: Seq<ContextData>,
    n: int,
) -> Seq<DiagnosticData>
    decreases n,
{
    if n <= 0 || n > contexts.len() {
        Seq::empty()
    } else {
        let before = rule_faults(rule, a, dialect, entries, contexts, n - 1);
        match rule.eval_spec(a, contexts[n - 1], dialect, entries) {
            Ok(_) => before,
            Err(fault) => before.push(
                DiagnosticData::RuleEvalFault {
                    rule_name: rule.name_spec(),
                    segment: fault.segment,
                },
            ),
        }
    }
}

/// What the first `n` rules find on the tree below `root`, rule by rule
/// and, for each rule, in document order.
pub open spec fn all_results(
    rules: Seq<ErasedRule>,
    a: Seq<SegmentData>,
    root: usize,
    dialect: Seq<char>,
    entries: Map<Seq<char>, ValueData>,
    n: int,
) -> Seq<LintResultData>
    decreases n,
{
    if n <= 0 || n > rules.len() {
        Seq::empty()
    } else {
        let contexts = crawl_spec(rules[n - 1].crawl_targets(), a, root);
        all_results(rules, a, root, dialect, entries, n - 1) + rule_results(
            rules[n - 1],
            a,
            dialect,
            entries,
            contexts,
            contexts.len() as int,
        )
    }
}

/// For each entry of [`all_results`], the place of its rule in `rules`.
pub open spec fn all_owners(
    rules: Seq<ErasedRule>,
    a: Seq<SegmentData>,
    root: usize,
    dialect: Seq<char>,
    entries: Map<Seq<char>, ValueData>,
    n: int,
) -> Seq<usize>
    decreases n,
{
    if n <= 0 || n > rules.len() {
        Seq::empty()
    } else {
        let contexts = crawl_spec(rules[n - 1].crawl_targets(), a, root);
        all_owners(rules, a, root, dialect, entries, n - 1) + Seq::new(
            rule_results(rules[n - 1], a, dialect, entries, contexts, contexts.len() as int).len(),
            |i: int| (n - 1) as usize,
        )
    }
}

/// The reports on what the first `n` rules find.
pub open spec fn all_violations(
    rules: Seq<ErasedRule>,
    a: Seq<SegmentData>,
    root: usize,
    dialect: Seq<char>,
    entries: Map<Seq<char>, ValueData>,
    n: int,
) -> Seq<ViolationData>
    decreases n,
{
    if n <= 0 || n > rules.len() {
        Seq::empty()
    } else {
        let contexts = crawl_spec(rules[n - 1].crawl_targets(), a, root);
        all_violations(rules, a, root, dialect, entries, n - 1) + rule_violations(
            rules[n - 1],
            a,
            root,
            dialect,
            entries,
            contexts,
            contexts.len() as int,
        )
    }
}

/// The diagnostics on the segments that the first `n` rules cannot
/// evaluate.
pub open spec fn all_faults(
    rules: Seq<ErasedRule>,
    a: Seq<SegmentData>,
    root: usize,
    dialect: Seq<char>,
    entries: Map<Seq<char>, ValueData>,
    n: int,
) -> Seq<DiagnosticData>
    decreases n,
{
    if n <= 0 || n > rules.len() {
        Seq::empty()
    } else {
        let contexts = crawl_spec(rules[n - 1].crawl_targets(), a, root);
        all_faults(rules, a, root, dialect, entries, n - 1) + rule_faults(
            rules[n - 1],
            a,
            dialect,
            entries,
            contexts,
            contexts.len() as int,
        )
    }
}

/// What one crawl of the tree with every rule yields.
pub struct Evaluation {
    /// The violations found, rule by rule, in document order.
    pub results: Vec<LintResult>,
    /// For each violation, the place of its rule among the rules.
    pub owners: Vec<usize>,
    /// The violations as they are reported.
    pub violations: Vec<Violation>,
    /// The segments that a rule could not evaluate.
    pub faults: Vec<Diagnostic>,
}

/// The reports on the violations `found` of `rule` in context `cx`.
fn report(
    rule: &ErasedRule,
    arena: &SegmentArena,
    root: usize,
    cx: &RuleContext,
    found: &Vec<LintResult>,
    violations: &mut Vec<Violation>,
)
    requires
        arena.wf(),
        root < arena@.len(),
    ensures
        violations_view(final(violations)@) == violations_view(old(violations)@) + results_view(
            found@,
        ).map_values(|r: LintResultData| violation_of(*rule, arena@, root, cx@, r)),
{
    let ghost before = violations_view(violations@);
    let ghost shown = results_view(found@).map_values(
        |r: LintResultData| violation_of(*rule, arena@, root, cx@, r),
    );
    let mut i: usize = 0;
    proof {
        assert(before + shown.take(0) =~= before);
    }
    while i < found.len()
        invariant
            arena.wf(),
            root < arena@.len(),
            0 <= i <= found@.len(),
            shown == results_view(found@).map_values(
                |r: LintResultData| violation_of(*rule, arena@, root, cx@, r),
            ),
            violations_view(violations@) == before + shown.take(i as int),
        decreases found@.len() - i,
    {
        let r = &found[i];
        let message = match &r.description {
            Some(m) => m.clone(),
            None => rule.description().to_owned(),
        };
        let position = match PositionMarker::origin().locate(arena, root, r.anchor) {
            Some(p) => p,
            None => cx.position,
        };
        let v = Violation { rule_name: rule.name().to_owned(), message, position };
        let ghost prev = violations_view(violations@);
        proof {
            assert(results_view(found@)[i as int] == found@[i as int]@);
            assert(v@ == shown[i as int]);
        }
        violations.push(v);
        proof {
            assert(violations_view(violations@) =~= prev.push(v@));
            assert(shown.take(i + 1) =~= shown.take(i as int).push(shown[i as int]));
            assert(violations_view(violations@) =~= before + shown.take(i + 1));
        }
        i = i + 1;
    }
    proof {
        assert(shown.take(i as int) == shown);
    }
}

/// Appends `n` copies of `value`.
fn push_copies(out: &mut Vec<usize>, value: usize, n: usize)
    ensures
        final(out)@ == old(out)@ + Seq::new(n as nat, |i: int| value),
{
    let mut j: usize = 0;
    proof {
        assert(out@ =~= old(out)@ + Seq::new(0, |i: int| value));
    }
    while j < n
        invariant
            0 <= j <= n,
            out@ == old(out)@ + Seq::new(j as nat, |i: int| value),
        decreases n - j,
    {
        out.push(value);
        proof {
            assert(out@ =~= old(out)@ + Seq::new((j + 1) as nat, |i: int| value));
        }
        j = j + 1;
    }
}

/// Invokes `rule`, which stands at place `owner` among the rules, on
/// every segment that its crawler selects, and adds what it finds.
fn evaluate_rule(
    rule: &ErasedRule,
    owner: usize,
    arena: &SegmentArena,
    root: usize,
    dialect: &str,
    config: &AHashMap<String, Value>,
    out: &mut Evaluation,
)
    requires
        arena.wf(),
        root < arena@.len(),
        old(out).owners@.len() == old(out).results@.len(),
    ensures
        ({
            let contexts = crawl_spec(rule.crawl_targets(), arena@, root);
            let n = contexts.len() as int;
            &&& results_view(final(out).results@) == results_view(old(out).results@)
                + rule_results(*rule, arena@, dialect@, config_entries(*config), contexts, n)
            &&& final(out).owners@ == old(out).owners@ + Seq::new(
                rule_results(*rule, arena@, dialect@, config_entries(*config), contexts, n).len(),
                |i: int| owner,
            )
            &&& violations_view(final(out).violations@) == violations_view(old(out).violations@)
                + rule_violations(
                    *rule,
                    arena@,
                    root,
                    dialect@,
                    config_entries(*config),
                    contexts,
                    n,
                )
            &&& diagnostics_view(final(out).faults@) == diagnostics_view(old(out).faults@)
                + rule_faults(*rule, arena@, dialect@, config_entries(*config), contexts, n)
        }),
{
    let ghost a = arena@;
    let ghost results0 = results_view(out.results@);
    let ghost owners0 = out.owners@;
    let ghost violations0 = violations_view(out.violations@);
    let ghost faults0 = diagnostics_view(out.faults@);
    let crawler = rule.crawl_behaviour();
    let contexts = crawler.crawl(arena, root, dialect, config);
    let ghost cxs = contexts_view(contexts@);
    let mut i: usize = 0;
    proof {
        assert(results0 + Seq::<LintResultData>::empty() =~= results0);
        assert(owners0 + Seq::new(0, |i: int| owner) =~= owners0);
        assert(violations0 + Seq::<ViolationData>::empty() =~= violations0);
        assert(faults0 + Seq::<DiagnosticData>::empty() =~= faults0);
    }
    while i < contexts.len()
        invariant
            arena.wf(),
            a == arena@,
            root < a.len(),
            contexts_of(contexts@, arena, dialect, config),
            cxs == contexts_view(contexts@),
            cxs == crawl_spec(rule.crawl_targets(), a, root),
            0 <= i <= contexts@.len(),
            results_view(out.results@) == results0 + rule_results(
                *rule,
                a,
                dialect@,
                config_entries(*config),
                cxs,
                i as int,
            ),
            out.owners@ == owners0 + Seq::new(
                rule_results(*rule, a, dialect@, config_entries(*config), cxs, i as int).len(),
                |i: int| owner,
            ),
            violations_view(out.violations@) == violations0 + rule_violations(
                *rule,
                a,
                root,
                dialect@,
                config_entries(*config),
                cxs,
                i as int,
            ),
            diagnostics_view(out.faults@) == faults0 + rule_faults(
                *rule,
                a,
                dialect@,
                config_entries(*config),
                cxs,
                i as int,
            ),
        decreases contexts@.len() - i,
    {
        let cx = &contexts[i];
        let ghost rs = rule_results(*rule, a, dialect@, config_entries(*config), cxs, i as int);
        let ghost vs = rule_violations(
            *rule,
            a,
            root,
            dialect@,
            config_entries(*config),
            cxs,
            i as int,
        );
        let ghost fs = rule_faults(*rule, a, dialect@, config_entries(*config), cxs, i as int);
        let ghost results1 = results_view(out.results@);
        let ghost faults1 = diagnostics_view(out.faults@);
        proof {
            assert(cxs[i as int] == cx@);
            assert(cx.wf() && cx.arena == arena && cx.dialect == dialect);
        }
        match rule.eval(cx) {
            Ok(mut found) => {
                let ghost fv = results_view(found@);
                report(rule, arena, root, cx, &found, &mut out.violations);
                push_copies(&mut out.owners, owner, found.len());
                out.results.append(&mut found);
                proof {
                    assert(out.owners@ =~= owners0 + Seq::new(
                        (rs + fv).len(),
                        |i: int| owner,
                    ));
                    assert(results_view(out.results@) =~= results1 + fv);
                    assert(results_view(out.results@) =~= results0 + (rs + fv));
                    assert(violations_view(out.violations@) =~= violations0 + (vs
                        + fv.map_values(
                        |r: LintResultData| violation_of(*rule, a, root, cx@, r),
                    )));
                    assert(faults1 =~= faults0 + fs);
                }
            },
            Err(fault) => {
                let d = Diagnostic::RuleEvalFault {
                    rule_name: rule.name().to_owned(),
                    segment: fault.segment,
                };
                out.faults.push(d);
                proof {
                    assert(diagnostics_view(out.faults@) =~= faults1.push(d@));
                    assert(diagnostics_view(out.faults@) =~= faults0 + fs.push(d@));
                    assert(results_view(out.results@) =~= results0 + (rs + Seq::<
                        LintResultData,
                    >::empty()));
                    assert(violations_view(out.violations@) =~= violations0 + (vs + Seq::<
                        LintResultData,
                    >::empty().map_values(
                        |r: LintResultData| violation_of(*rule, a, root, cx@, r),
                    )));
                }
            },
        }
        i = i + 1;
    }
}

/// Crawls the tree below `root` once with every rule, in the order of
/// `rules`, and gathers what the rules find.
pub fn evaluate(
    rules: &Vec<ErasedRule>,
    arena: &SegmentArena,
    root: usize,
    dialect: &str,
    config: &AHashMap<String, Value>,
) -> (out: Evaluation)
    requires
        arena.wf(),
        root < arena@.len(),
    ensures
        out.owners@.len() == out.results@.len(),
        results_view(out.results@) == all_results(
            rules@,
            arena@,
            root,
            dialect@,
            config_entries(*config),
            rules@.len() as int,
        ),
        out.owners@ == all_owners(
            rules@,
            arena@,
            root,
            dialect@,
            config_entries(*config),
            rules@.len() as int,
        ),
        violations_view(out.violations@) == all_violations(
            rules@,
            arena@,
            root,
            dialect@,
            config_entries(*config),
            rules@.len() as int,
        ),
        diagnostics_view(out.faults@) == all_faults(
            rules@,
            arena@,
            root,
            dialect@,
            config_entries(*config),
            rules@.len() as int,
        ),
{
    let mut out = Evaluation {
        results: Vec::new(),
        owners: Vec::new(),
        violations: Vec::new(),
        faults: Vec::new(),
    };
    let mut i: usize = 0;
    proof {
        assert(results_view(out.results@) =~= Seq::<LintResultData>::empty());
        assert(violations_view(out.violations@) =~= Seq::<ViolationData>::empty());
        assert(diagnostics_view(out.faults@) =~= Seq::<DiagnosticData>::empty());
    }
    while i < rules.len()
        invariant
            arena.wf(),
            root < arena@.len(),
            0 <= i <= rules@.len(),
            out.owners@.len() == out.results@.len(),
            results_view(out.results@) == all_results(
                rules@,
                arena@,
                root,
                dialect@,
                config_entries(*config),
                i as int,
            ),
            out.owners@ == all_owners(
                rules@,
                arena@,
                root,
                dialect@,
                config_entries(*config),
                i as int,
            ),
            violations_view(out.violations@) == all_violations(
                rules@,
                arena@,
                root,
                dialect@,
                config_entries(*config),
                i as int,
            ),
            diagnostics_view(out.faults@) == all_faults(
                rules@,
                arena@,
                root,
                dialect@,
                config_entries(*config),
                i as int,
            ),
        decreases rules@.len() - i,
    {
        evaluate_rule(&rules[i], i, arena, root, dialect, config, &mut out);
        proof {
            assert(results_view(out.results@).len() == out.results@.len());
        }
        i = i + 1;
    }
    out
}

/// What a run of the linter reports.
pub struct LintReport {
    pub violations: Vec<Violation>,
    pub diagnostics: Vec<Diagnostic>,
}

/// The diagnostics of a lint run: first the rules that could not be
/// configured, then the segments that a rule could not evaluate.
pub open spec fn lint_diagnostics(
    rules: Seq<ErasedRule>,
    entries: Map<Seq<char>, ValueData>,
    a: Seq<SegmentData>,
    root: usize,
    dialect: Seq<char>,
) -> Seq<DiagnosticData> {
    let active = active_rules(rules, entries, rules.len() as int);
    config_faults(rules, entries, rules.len() as int) + all_faults(
        active,
        a,
        root,
        dialect,
        entries,
        active.len() as int,
    )
}

/// The violations of a lint run: what the configured rules find, rule by
/// rule and, for each rule, in document order.
pub open spec fn lint_violations(
    rules: Seq<ErasedRule>,
    entries: Map<Seq<char>, ValueData>,
    a: Seq<SegmentData>,
    root: usize,
    dialect: Seq<char>,
) -> Seq<ViolationData> {
    let active = active_rules(rules, entries, rules.len() as int);
    all_violations(active, a, root, dialect, entries, active.len() as int)
}

/// Lints the tree below `root` with the rules `rules` as `config`
/// configures them.
pub fn lint_tree(
    arena: &SegmentArena,
    root: usize,
    dialect: &str,
    rules: &Vec<ErasedRule>,
    config: &AHashMap<String, Value>,
) -> (out: LintReport)
    requires
        arena.wf(),
        root < arena@.len(),
    ensures
        violations_view(out.violations@) == lint_violations(
            rules@,
            config_entries(*config),
            arena@,
            root,
            dialect@,
        ),
        diagnostics_view(out.diagnostics@) == lint_diagnostics(
            rules@,
            config_entries(*config),
            arena@,
            root,
            dialect@,
        ),
{
    let (active, mut diagnostics) = configure(rules, config);
    let ghost before = diagnostics_view(diagnostics@);
    let evaluation = evaluate(&active, arena, root, dialect, config);
    let Evaluation { results: _, owners: _, violations, faults } = evaluation;
    let mut faults = faults;
    let ghost fv = diagnostics_view(faults@);
    diagnostics.append(&mut faults);
    proof {
        assert(diagnostics_view(diagnostics@) =~= before + fv);
    }
    LintReport { violations, diagnostics }
}

/// The rules find nothing on the tree below `root`: whichever rule is
/// invoked on whichever segment that its crawler selects, it comes back
/// without a violation.
pub open spec fn is_clean(
    rules: Seq<ErasedRule>,
    a: Seq<SegmentData>,
    root: usize,
    dialect: Seq<char>,
    entries: Map<Seq<char>, ValueData>,
) -> bool {
    forall|i: int, j: int|
        0 <= i < rules.len() && 0 <= j < crawl_spec(rules[i].crawl_targets(), a, root).len()
            ==> (#[trigger] found_in(
            rules[i],
            a,
            dialect,
            entries,
            crawl_spec(rules[i].crawl_targets(), a, root)[j],
        )).len() == 0
}

/// A rule that finds nothing in any of the first `n` contexts has
/// nothing to report on them.
pub proof fn lemma_rule_finds_nothing(
    rule: ErasedRule,
    a: Seq<SegmentData>,
    root: usize,
    dialect: Seq<char>,
    entries: Map<Seq<char>, ValueData>,
    contexts: Seq<ContextData>,
    n: int,
)
    requires
        0 <= n <= contexts.len(),
        forall|j: int|
            0 <= j < n ==> (#[trigger] found_in(rule, a, dialect, entries, contexts[j])).len() == 0,
    ensures
        rule_results(rule, a, dialect, entries, contexts, n) == Seq::<LintResultData>::empty(),
        rule_violations(rule, a, root, dialect, entries, contexts, n) == Seq::<
            ViolationData,
        >::empty(),
    decreases n,
{
    if n > 0 {
        lemma_rule_finds_nothing(rule, a, root, dialect, entries, contexts, n - 1);
        let last = found_in(rule, a, dialect, entries, contexts[n - 1]);
        assert(last =~= Seq::<LintResultData>::empty());
        assert(Seq::<LintResultData>::empty() + last =~= Seq::<LintResultData>::empty());
        assert(Seq::<ViolationData>::empty() + last.map_values(
            |r: LintResultData| violation_of(rule, a, root, contexts[n - 1], r),
        ) =~= Seq::<ViolationData>::empty());
    }
}

/// Clean input lints clean: where the rules find nothing on a tree,
/// linting it reports no violation.
pub proof fn lemma_clean_input_has_no_violations(
    rules: Seq<ErasedRule>,
    a: Seq<SegmentData>,
    root: usize,
    dialect: Seq<char>,
    entries: Map<Seq<char>, ValueData>,
    n: int,
)
    requires
        is_clean(rules, a, root, dialect, entries),
        0 <= n <= rules.len(),
    ensures
        all_results(rules, a, root, dialect, entries, n) == Seq::<LintResultData>::empty(),
        all_violations(rules, a, root, dialect, entries, n) == Seq::<ViolationData>::empty(),
    decreases n,
{
    if n > 0 {
        lemma_clean_input_has_no_violations(rules, a, root, dialect, entries, n - 1);
        let contexts = crawl_spec(rules[n - 1].crawl_targets(), a, root);
        lemma_rule_finds_nothing(
            rules[n - 1],
            a,
            root,
            dialect,
            entries,
            contexts,
            contexts.len() as int,
        );
        assert(Seq::<LintResultData>::empty() + Seq::<LintResultData>::empty() =~= Seq::<
            LintResultData,
        >::empty());
        assert(Seq::<ViolationData>::empty() + Seq::<ViolationData>::empty() =~= Seq::<
            ViolationData,
        >::empty());
    }
}

} // verus!
