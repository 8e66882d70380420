//! Bare `UNION`: a `UNION` says whether it is `DISTINCT` or `ALL`.

use vstd::prelude::*;
use vstd::string::*;
use ahash::AHashMap;
use crate::config::{ConfigError, Value, ValueData};
use crate::context::{ContextData, RuleContext};
use crate::crawler::{seeker_of, Crawler, CrawlerData, SegmentSeekerCrawler};
use crate::fix::{
    edits_view, results_view, EditSegment, EditSegmentData, EditType, LintFix, LintFixData,
    LintResult, LintResultData,
};
use crate::rule::{Rule, RuleEvalFault};
use crate::rules::ErasedRule;
use crate::segment::{text_of, SegmentData};
use crate::text::{contains, contains_text, str_eq, to_uppercase, uppercase_of};

verus! {

/// The rule against a `UNION` without `DISTINCT` or `ALL`.
#[derive(Debug, Clone, Copy)]
pub struct RuleAM02 {}

/// The dialects in which a bare `UNION` is held to be ambiguous.
pub open spec fn dialect_supported(dialect: Seq<char>) -> bool {
    dialect == "ansi"@ || dialect == "hive"@ || dialect == "mysql"@ || dialect == "redshift"@
}

/// How a set operator is to be completed, given its text `raw` and that
/// text in upper case, `upper`: `Some(true)` for a bare `union` written
/// in lower case, `Some(false)` for a bare `UNION` in any other case,
/// `None` when it is no union or names `ALL` or `DISTINCT` already.
pub open spec fn bare_union(raw: Seq<char>, upper: Seq<char>) -> Option<bool> {
    let qualified = contains_text(upper, "ALL"@) || contains_text(upper, "DISTINCT"@);
    if contains_text(raw, "union"@) && !qualified {
        Some(true)
    } else if contains_text(upper, "UNION"@) && !qualified {
        Some(false)
    } else {
        None
    }
}

/// The segments that stand for a qualified union, in the given case.
pub open spec fn union_distinct(lower: bool) -> Seq<EditSegmentData> {
    if lower {
        seq![
            EditSegmentData::New { kind: "keyword"@, raw: "union"@ },
            EditSegmentData::New { kind: "whitespace"@, raw: " "@ },
            EditSegmentData::New { kind: "keyword"@, raw: "distinct"@ },
        ]
    } else {
        seq![
            EditSegmentData::New { kind: "keyword"@, raw: "UNION"@ },
            EditSegmentData::New { kind: "whitespace"@, raw: " "@ },
            EditSegmentData::New { kind: "keyword"@, raw: "DISTINCT"@ },
        ]
    }
}

/// The violation on the set operator `segment` whose first child is
/// `first`: that child is replaced by the qualified union.
pub open spec fn bare_union_violation(segment: usize, first: usize, lower: bool) -> LintResultData {
    LintResultData {
        anchor: segment,
        fixes: seq![
            LintFixData { edit_type: EditType::Replace, anchor: first, edit: union_distinct(lower) },
        ],
        description: None,
        context: Seq::empty(),
    }
}

/// Decides how a set operator with text `raw`, `upper` in upper case, is
/// to be completed.
pub fn classify_union(raw: &str, upper: &str) -> (out: Option<bool>)
    ensures
        out == bare_union(raw@, upper@),
{
    let qualified = contains(upper, "ALL") || contains(upper, "DISTINCT");
    if contains(raw, "union") && !qualified {
        Some(true)
    } else if contains(upper, "UNION") && !qualified {
        Some(false)
    } else {
        None
    }
}

/// The segments that stand for a qualified union, in the given case.
pub fn union_distinct_edit(lower: bool) -> (out: Vec<EditSegment>)
    ensures
        edits_view(out@) == union_distinct(lower),
{
    let mut edits: Vec<EditSegment> = Vec::new();
    if lower {
        edits.push(EditSegment::keyword("union"));
        edits.push(EditSegment::whitespace(" "));
        edits.push(EditSegment::keyword("distinct"));
    } else {
        edits.push(EditSegment::keyword("UNION"));
        edits.push(EditSegment::whitespace(" "));
        edits.push(EditSegment::keyword("DISTINCT"));
    }
    proof {
        assert(edits_view(edits@) =~= union_distinct(lower));
    }
    edits
}

impl RuleAM02 {
    /// This rule as one of the rules.
    pub fn erased(self) -> (out: ErasedRule)
        ensures
            out == ErasedRule::AM02(self),
    {
        ErasedRule::AM02(self)
    }
}

impl Default for RuleAM02 {
    fn default() -> (out: RuleAM02) {
        RuleAM02 {  }
    }
}

impl Rule for RuleAM02 {
    open spec fn name_spec(&self) -> Seq<char> {
        "ambiguous.union"@
    }

    open spec fn description_spec(&self) -> Seq<char> {
        "Look for UNION keyword not immediately followed by DISTINCT or ALL"@
    }

    open spec fn crawl_targets(&self) -> CrawlerData {
        seeker_of("set_operator"@)
    }

    open spec fn load_spec(&self, entries: Map<Seq<char>, ValueData>) -> Result<
        ErasedRule,
        Seq<char>,
    > {
        Ok(ErasedRule::AM02(RuleAM02 {  }))
    }

    open spec fn eval_spec(
        &self,
        a: Seq<SegmentData>,
        cx: ContextData,
        dialect: Seq<char>,
        entries: Map<Seq<char>, ValueData>,
    ) -> Result<Seq<LintResultData>, RuleEvalFault> {
        if !dialect_supported(dialect) {
            Ok(Seq::empty())
        } else {
            let raw = text_of(a, cx.segment as int);
            match bare_union(raw, uppercase_of(raw)) {
                Some(lower) => if a[cx.segment as int].children.len() > 0 {
                    Ok(
                        seq![
                            bare_union_violation(
                                cx.segment,
                                a[cx.segment as int].children[0],
                                lower,
                            ),
                        ],
                    )
                } else {
                    Err(RuleEvalFault { segment: cx.segment })
                },
                None => Ok(Seq::empty()),
            }
        }
    }

    fn name(&self) -> (out: &'static str) {
        "ambiguous.union"
    }

    fn description(&self) -> (out: &'static str) {
        "Look for UNION keyword not immediately followed by DISTINCT or ALL"
    }

    fn crawl_behaviour(&self) -> (out: Crawler) {
        SegmentSeekerCrawler::for_type("set_operator")
    }

    fn load_from_config(&self, _config: &AHashMap<String, Value>) -> (out: Result<
        ErasedRule,
        ConfigError,
    >) {
        Ok(RuleAM02::default().erased())
    }

    fn eval(&self, cx: &RuleContext) -> (out: Result<Vec<LintResult>, RuleEvalFault>) {
        let mut found: Vec<LintResult> = Vec::new();
        proof {
            assert(results_view(found@) =~= Seq::<LintResultData>::empty());
        }
        let supported = str_eq(cx.dialect, "ansi") || str_eq(cx.dialect, "hive") || str_eq(
            cx.dialect,
            "mysql",
        ) || str_eq(cx.dialect, "redshift");
        if !supported {
            return Ok(found);
        }
        let raw = cx.arena.raw_of(cx.segment);
        let upper = to_uppercase(raw.as_str());
        match classify_union(raw.as_str(), upper.as_str()) {
            Some(lower) => {
                let segments = cx.arena.children(cx.segment);
                if segments.len() == 0 {
                    return Err(RuleEvalFault { segment: cx.segment });
                }
                let mut fixes: Vec<LintFix> = Vec::new();
                fixes.push(LintFix::replace(segments[0], union_distinct_edit(lower)));
                let violation = LintResult::new(cx.segment, fixes, None, Vec::new());
                proof {
                    assert(violation@.fixes =~= bare_union_violation(
                        cx.segment,
                        segments@[0],
                        lower,
                    ).fixes);
                }
                found.push(violation);
                proof {
                    assert(results_view(found@) =~= seq![
                        bare_union_violation(cx.segment, segments@[0], lower),
                    ]);
                }
                Ok(found)
            },
            None => Ok(found),
        }
    }
}

} // verus!
