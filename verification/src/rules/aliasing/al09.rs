//! Self-aliased columns: a column is not given its own name as alias.

use vstd::prelude::*;
use vstd::string::*;
use ahash::AHashMap;
use crate::config::{ConfigError, Value, ValueData};
use crate::context::{ContextData, RuleContext};
use crate::crawler::{seeker_of, Crawler, CrawlerData, SegmentSeekerCrawler};
use crate::fix::{deletion, results_view, LintFix, LintResult, LintResultData};
use crate::query::{is_type, of_type};
use crate::rule::{Rule, RuleEvalFault};
use crate::rules::ErasedRule;
use crate::segment::{
    children_of_kind, first_child, leaves_of, text_of, views_of, SegmentArena, SegmentData,
};
use crate::text::uppercase_of;

verus! {

/// The rule against self-aliased columns.
#[derive(Debug, Clone, Copy)]
pub struct RuleAL09 {}

/// The identifier that names the column of a column reference: its
/// quoted identifier, or else the last of its plain identifiers.
pub open spec fn column_identifier(a: Seq<SegmentData>, column: usize) -> Option<usize> {
    match first_child(a, column as int, seq!["quoted_identifier"@]) {
        Some(quoted) => Some(quoted),
        None => {
            let plain = children_of_kind(
                a,
                column as int,
                seq!["identifier"@, "naked_identifier"@],
            );
            if plain.len() > 0 {
                Some(plain.last())
            } else {
                None
            }
        },
    }
}

/// The identifier of an alias expression: its plain identifier, or else
/// its quoted one.
pub open spec fn alias_name(a: Seq<SegmentData>, alias: usize) -> Option<usize> {
    match first_child(a, alias as int, seq!["naked_identifier"@]) {
        Some(plain) => Some(plain),
        None => first_child(a, alias as int, seq!["quoted_identifier"@]),
    }
}

/// The violation on a self-aliased select clause element: reported at
/// its first leaf, with the removal of the whitespace and of the alias.
pub open spec fn self_alias_violation(
    first_leaf: usize,
    whitespace: usize,
    alias: usize,
) -> LintResultData {
    LintResultData {
        anchor: first_leaf,
        fixes: seq![deletion(whitespace), deletion(alias)],
        description: Some("Column should not be self-aliased."@),
        context: Seq::empty(),
    }
}

/// The verdict on an aliased column, given the name of the column and
/// the name of the alias, both in upper case: a violation if they are
/// the same, reported at the first of the leaves of the element. `Err`
/// when there is a violation and no leaf to report it at.
pub open spec fn alias_verdict(
    column_upper: Seq<char>,
    alias_upper: Seq<char>,
    leaves: Seq<usize>,
    whitespace: usize,
    alias: usize,
) -> Result<Seq<LintResultData>, ()> {
    if column_upper == alias_upper {
        if leaves.len() > 0 {
            Ok(seq![self_alias_violation(leaves[0], whitespace, alias)])
        } else {
            Err(())
        }
    } else {
        Ok(Seq::empty())
    }
}

/// What the rule finds on one select clause element. The element is in
/// violation when it is a column reference with an alias whose name, in
/// upper case, is that of the column. `Err` when such an element lacks
/// the whitespace or the alias identifier that the fix needs.
pub open spec fn element_finding(a: Seq<SegmentData>, element: usize) -> Result<
    Seq<LintResultData>,
    (),
> {
    let column = first_child(a, element as int, seq!["column_reference"@]);
    let alias = first_child(a, element as int, seq!["alias_expression"@]);
    if column is Some && alias is Some && column_identifier(a, column.unwrap()) is Some {
        let whitespace = first_child(a, element as int, seq!["whitespace"@]);
        let name = alias_name(a, alias.unwrap());
        let leaves = leaves_of(a, element as int);
        if whitespace is None || name is None {
            Err(())
        } else {
            alias_verdict(
                uppercase_of(text_of(a, column_identifier(a, column.unwrap()).unwrap() as int)),
                uppercase_of(text_of(a, name.unwrap() as int)),
                leaves,
                whitespace.unwrap(),
                alias.unwrap(),
            )
        }
    } else {
        Ok(Seq::empty())
    }
}

/// What the rule finds on the first `n` of the elements, in order; `Err`
/// as soon as one of them cannot be evaluated.
pub open spec fn findings(a: Seq<SegmentData>, elements: Seq<usize>, n: int) -> Result<
    Seq<LintResultData>,
    (),
>
    decreases n,
{
    if n <= 0 || n > elements.len() {
        Ok(Seq::empty())
    } else {
        match findings(a, elements, n - 1) {
            Ok(before) => match element_finding(a, elements[n - 1]) {
                Ok(found) => Ok(before + found),
                Err(_) => Err(()),
            },
            Err(_) => Err(()),
        }
    }
}

impl RuleAL09 {
    /// This rule as one of the rules.
    pub fn erased(self) -> (out: ErasedRule)
        ensures
            out == ErasedRule::AL09(self),
    {
        ErasedRule::AL09(self)
    }

    fn column_identifier_of(arena: &SegmentArena, column: usize) -> (out: Option<usize>)
        requires
            arena.wf(),
            column < arena@.len(),
        ensures
            out == column_identifier(arena@, column),
            out matches Some(k) ==> k < arena@.len(),
    {
        match arena.child_of_type(column, "quoted_identifier") {
            Some(quoted) => Some(quoted),
            None => {
                let types = ["identifier", "naked_identifier"];
                assert(views_of(types@) =~= seq!["identifier"@, "naked_identifier"@]);
                let plain = arena.children_of_kind(column, &types);
                if plain.len() > 0 {
                    Some(plain[plain.len() - 1])
                } else {
                    None
                }
            },
        }
    }

    fn alias_name_of(arena: &SegmentArena, alias: usize) -> (out: Option<usize>)
        requires
            arena.wf(),
            alias < arena@.len(),
        ensures
            out == alias_name(arena@, alias),
            out matches Some(k) ==> k < arena@.len(),
    {
        match arena.child_of_type(alias, "naked_identifier") {
            Some(plain) => Some(plain),
            None => arena.child_of_type(alias, "quoted_identifier"),
        }
    }

    /// Gives the verdict on an aliased column, given the name of the
    /// column and the name of the alias, both in upper case.
    pub fn judge_alias(
        column_upper: &str,
        alias_upper: &str,
        leaves: &Vec<usize>,
        whitespace: usize,
        alias_expression: usize,
    ) -> (out: Result<Vec<LintResult>, ()>)
        ensures
            match out {
                Ok(found) => alias_verdict(
                    column_upper@,
                    alias_upper@,
                    leaves@,
                    whitespace,
                    alias_expression,
                ) == Ok::<Seq<LintResultData>, ()>(results_view(found@)),
                Err(_) => alias_verdict(
                    column_upper@,
                    alias_upper@,
                    leaves@,
                    whitespace,
                    alias_expression,
                ) is Err,
            },
    {
        let mut found: Vec<LintResult> = Vec::new();
        proof {
            assert(results_view(found@) =~= Seq::<LintResultData>::empty());
        }
        if crate::text::str_eq(column_upper, alias_upper) {
            if leaves.len() == 0 {
                return Err(());
            }
            let mut fixes: Vec<LintFix> = Vec::new();
            fixes.push(LintFix::delete(whitespace));
            fixes.push(LintFix::delete(alias_expression));
            let violation = LintResult::new(
                leaves[0],
                fixes,
                Some(String::from_str("Column should not be self-aliased.")),
                Vec::new(),
            );
            proof {
                assert(violation@.fixes =~= seq![deletion(whitespace), deletion(alias_expression)]);
            }
            found.push(violation);
            proof {
                assert(results_view(found@) =~= seq![
                    self_alias_violation(leaves@[0], whitespace, alias_expression),
                ]);
            }
        }
        Ok(found)
    }

    /// Evaluates one select clause element.
    pub fn eval_element(arena: &SegmentArena, element: usize) -> (out: Result<Vec<LintResult>, ()>)
        requires
            arena.wf(),
            element < arena@.len(),
        ensures
            match out {
                Ok(found) => element_finding(arena@, element) == Ok::<Seq<LintResultData>, ()>(
                    results_view(found@),
                ),
                Err(_) => element_finding(arena@, element) is Err,
            },
    {
        let mut found: Vec<LintResult> = Vec::new();
        proof {
            assert(results_view(found@) =~= Seq::<LintResultData>::empty());
        }
        let clause_element_raw_segment = arena.get_raw_segments(element);
        let column = arena.child_of_type(element, "column_reference");
        let alias_expression = arena.child_of_type(element, "alias_expression");
        if let Some(column) = column {
            if let Some(alias_expression) = alias_expression {
                if let Some(column_identifier) = Self::column_identifier_of(arena, column) {
                    let whitespace = match arena.child_of_type(element, "whitespace") {
                        Some(w) => w,
                        None => {
                            return Err(());
                        },
                    };
                    let alias_identifier = match Self::alias_name_of(arena, alias_expression) {
                        Some(n) => n,
                        None => {
                            return Err(());
                        },
                    };
                    let column_upper = arena.get_raw_upper(column_identifier);
                    let alias_upper = arena.get_raw_upper(alias_identifier);
                    return Self::judge_alias(
                        column_upper.as_str(),
                        alias_upper.as_str(),
                        &clause_element_raw_segment,
                        whitespace,
                        alias_expression,
                    );
                }
            }
        }
        Ok(found)
    }
}

impl Default for RuleAL09 {
    fn default() -> (out: RuleAL09) {
        RuleAL09 {  }
    }
}

impl Rule for RuleAL09 {
    open spec fn name_spec(&self) -> Seq<char> {
        "aliasing.self_alias.column"@
    }

    open spec fn description_spec(&self) -> Seq<char> {
        "Find self-aliased columns and fix them"@
    }

    open spec fn crawl_targets(&self) -> CrawlerData {
        seeker_of("select_clause"@)
    }

    open spec fn load_spec(&self, entries: Map<Seq<char>, ValueData>) -> Result<
        ErasedRule,
        Seq<char>,
    > {
        Ok(ErasedRule::AL09(RuleAL09 {  }))
    }

    open spec fn eval_spec(
        &self,
        a: Seq<SegmentData>,
        cx: ContextData,
        dialect: Seq<char>,
        entries: Map<Seq<char>, ValueData>,
    ) -> Result<Seq<LintResultData>, RuleEvalFault> {
        let elements = of_type(a[cx.segment as int].children, a, "select_clause_element"@);
        match findings(a, elements, elements.len() as int) {
            Ok(found) => Ok(found),
            Err(_) => Err(RuleEvalFault { segment: cx.segment }),
        }
    }

    fn name(&self) -> (out: &'static str) {
        "aliasing.self_alias.column"
    }

    fn description(&self) -> (out: &'static str) {
        "Find self-aliased columns and fix them"
    }

    fn crawl_behaviour(&self) -> (out: Crawler) {
        SegmentSeekerCrawler::for_type("select_clause")
    }

    fn load_from_config(&self, _config: &AHashMap<String, Value>) -> (out: Result<
        ErasedRule,
        ConfigError,
    >) {
        Ok(RuleAL09::default().erased())
    }

    fn eval(&self, cx: &RuleContext) -> (out: Result<Vec<LintResult>, RuleEvalFault>) {
        let mut violations: Vec<LintResult> = Vec::new();
        let ghost a = cx.arena@;
        let children = cx.children();
        let elements = children.select_if(&is_type("select_clause_element"));
        let mut i: usize = 0;
        proof {
            assert(results_view(violations@) =~= Seq::<LintResultData>::empty());
        }
        while i < elements.len()
            invariant
                cx.wf(),
                a == cx.arena@,
                elements.wf(),
                elements.arena == cx.arena,
                elements@ == of_type(a[cx.segment as int].children, a, "select_clause_element"@),
                0 <= i <= elements@.len(),
                findings(a, elements@, i as int) == Ok::<Seq<LintResultData>, ()>(
                    results_view(violations@),
                ),
            decreases elements@.len() - i,
        {
            let ghost before = results_view(violations@);
            match Self::eval_element(cx.arena, elements.items[i]) {
                Ok(mut found) => {
                    let ghost fv = results_view(found@);
                    violations.append(&mut found);
                    proof {
                        assert(results_view(violations@) =~= before + fv);
                    }
                },
                Err(_) => {
                    proof {
                        lemma_findings_fail(a, elements@, i + 1, elements@.len() as int);
                    }
                    return Err(RuleEvalFault { segment: cx.segment });
                },
            }
            i = i + 1;
        }
        Ok(violations)
    }
}

/// Once an element cannot be evaluated, no longer run of elements can.
pub proof fn lemma_findings_fail(a: Seq<SegmentData>, elements: Seq<usize>, n: int, m: int)
    requires
        0 <= n <= m <= elements.len(),
        findings(a, elements, n) is Err,
    ensures
        findings(a, elements, m) is Err,
    decreases m - n,
{
    if n < m {
        lemma_findings_fail(a, elements, n, m - 1);
    }
}

} // verus!
