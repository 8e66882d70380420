//! Comparison with `NULL`: `NULL` is tested with `IS` and `IS NOT`, not
//! with relational operators.

use vstd::prelude::*;
use vstd::string::*;
use ahash::AHashMap;
use crate::config::{config_entries, ConfigError, Value, ValueData};
use crate::context::{ContextData, RuleContext};
use crate::crawler::{seeker_of, Crawler, CrawlerData, SegmentSeekerCrawler};
use crate::fix::{
    edits_view, fixes_view, results_view, EditSegment, EditSegmentData, EditType, LintFixData,
    LintResult, LintResultData,
};
use crate::query::{head_of, is_code, select_spec, test_of, PredicateData};
use crate::reflow::{
    elements_around, elements_view, replaced, respace_fixes, Filter, ReflowSequence, ReflowSide,
};
use crate::rule::{Rule, RuleEvalFault};
use crate::rules::ErasedRule;
use crate::segment::{text_of, SegmentData};
use crate::text::str_eq;

verus! {

/// One piece of the text that replaces a comparison with `NULL`.
pub enum CorrectionListItem {
    WhitespaceSegment,
    KeywordSegment(String),
}

/// The content of a [`CorrectionListItem`].
pub enum CorrectionItemData {
    WhitespaceSegment,
    KeywordSegment(Seq<char>),
}

impl View for CorrectionListItem {
    type V = CorrectionItemData;

    open spec fn view(&self) -> CorrectionItemData {
        match self {
            CorrectionListItem::WhitespaceSegment => CorrectionItemData::WhitespaceSegment,
            CorrectionListItem::KeywordSegment(k) => CorrectionItemData::KeywordSegment(k@),
        }
    }
}

/// The contents of a list of correction items.
pub open spec fn corrections_view(v: Seq<CorrectionListItem>) -> Seq<CorrectionItemData> {
    v.map_values(|c: CorrectionListItem| c@)
}

/// The rule against comparing with `NULL` by a relational operator.
#[derive(Debug, Clone, Copy)]
pub struct RuleCV05 {}

/// What replaces the operator `operator_raw` in front of `NULL`: `IS`
/// for `=`, `IS NOT` for any other operator, in upper or in lower case.
pub open spec fn base_is_null_sequence(is_upper: bool, operator_raw: Seq<char>) -> Seq<
    CorrectionItemData,
> {
    let is_seg = CorrectionItemData::KeywordSegment(
        if is_upper {
            "IS"@
        } else {
            "is"@
        },
    );
    let not_seg = CorrectionItemData::KeywordSegment(
        if is_upper {
            "NOT"@
        } else {
            "not"@
        },
    );
    if operator_raw == "="@ {
        seq![is_seg]
    } else {
        seq![is_seg, CorrectionItemData::WhitespaceSegment, not_seg]
    }
}

/// What replaces the operator `operator_raw` in front of `NULL`.
pub fn create_base_is_null_sequence(is_upper: bool, operator_raw: String) -> (out: Vec<
    CorrectionListItem,
>)
    ensures
        corrections_view(out@) == base_is_null_sequence(is_upper, operator_raw@),
{
    let is_seg = CorrectionListItem::KeywordSegment(
        String::from_str(
            if is_upper {
                "IS"
            } else {
                "is"
            },
        ),
    );
    let not_seg = CorrectionListItem::KeywordSegment(
        String::from_str(
            if is_upper {
                "NOT"
            } else {
                "not"
            },
        ),
    );
    let mut out: Vec<CorrectionListItem> = Vec::new();
    if str_eq(operator_raw.as_str(), "=") {
        out.push(is_seg);
        proof {
            assert(corrections_view(out@) =~= base_is_null_sequence(is_upper, operator_raw@));
        }
    } else {
        out.push(is_seg);
        out.push(CorrectionListItem::WhitespaceSegment);
        out.push(not_seg);
        proof {
            assert(corrections_view(out@) =~= base_is_null_sequence(is_upper, operator_raw@));
        }
    }
    out
}

/// A correction item as an edit segment: a keyword, or a single space.
pub open spec fn correction_edit(c: CorrectionItemData) -> EditSegmentData {
    match c {
        CorrectionItemData::WhitespaceSegment => EditSegmentData::New {
            kind: "whitespace"@,
            raw: " "@,
        },
        CorrectionItemData::KeywordSegment(k) => EditSegmentData::New { kind: "keyword"@, raw: k },
    }
}

/// Correction items as edit segments.
pub open spec fn correction_edits(items: Seq<CorrectionItemData>) -> Seq<EditSegmentData> {
    items.map_values(|c: CorrectionItemData| correction_edit(c))
}

/// Correction items as edit segments.
pub fn edit_of(items: &Vec<CorrectionListItem>) -> (out: Vec<EditSegment>)
    ensures
        edits_view(out@) == correction_edits(corrections_view(items@)),
{
    let mut out: Vec<EditSegment> = Vec::new();
    let mut i: usize = 0;
    while i < items.len()
        invariant
            0 <= i <= items@.len(),
            out@.len() == i,
            forall|k: int| 0 <= k < i ==> (#[trigger] out@[k])@ == correction_edit(items@[k]@),
        decreases items@.len() - i,
    {
        let e = match &items[i] {
            CorrectionListItem::KeywordSegment(keyword) => EditSegment::keyword(keyword.as_str()),
            CorrectionListItem::WhitespaceSegment => EditSegment::whitespace(" "),
        };
        out.push(e);
        i = i + 1;
    }
    proof {
        assert(edits_view(out@) =~= correction_edits(corrections_view(items@)));
    }
    out
}

/// The type of segment `id` is one of three.
pub open spec fn kind_one_of(
    a: Seq<SegmentData>,
    id: usize,
    x: Seq<char>,
    y: Seq<char>,
    z: Seq<char>,
) -> bool {
    a[id as int].kind == x || a[id as int].kind == y || a[id as int].kind == z
}

/// The operator stands where `=` assigns and does not compare: in a
/// `SET` clause, in a script call, in a list of options, or in an
/// exclusion constraint.
pub open spec fn assigns(a: Seq<SegmentData>, stack: Seq<usize>) -> bool {
    (stack.len() >= 2 && kind_one_of(
        a,
        stack[stack.len() - 2],
        "set_clause_list"@,
        "execute_script_statement"@,
        "options_segment"@,
    )) || (stack.len() >= 1 && (kind_one_of(
        a,
        stack.last(),
        "set_clause_list"@,
        "execute_script_statement"@,
        "assignment_operator"@,
    ) || a[stack.last() as int].kind == "exclusion_constraint_element"@))
}

/// The operator is one that compares for equality.
pub open spec fn compares_equality(raw: Seq<char>) -> bool {
    raw == "="@ || raw == "!="@ || raw == "<>"@
}

/// The first code segment behind `segment` among its siblings, if it is
/// a `NULL` literal.
pub open spec fn null_operand(a: Seq<SegmentData>, cx: ContextData) -> Option<usize> {
    match select_spec(
        a[cx.parent_stack.last() as int].children,
        a,
        None,
        None,
        Some(cx.segment),
        None,
    ) {
        Some(after) => {
            let next_code = head_of(after.filter(test_of(Some(PredicateData::IsCode), a)));
            if next_code.len() > 0 && a[next_code[0] as int].kind == "null_literal"@ {
                Some(next_code[0])
            } else {
                None
            }
        },
        None => None,
    }
}

/// Whether the text begins with a capital `N`.
pub open spec fn starts_upper(raw: Seq<char>) -> bool {
    raw.len() > 0 && raw[0] == 'N'
}

/// What the rule finds on a comparison operator outside an assignment:
/// an operator for equality in front of `NULL` is replaced by `IS` or
/// `IS NOT`, in the case of the literal, and the gaps around it are
/// respaced.
pub open spec fn comparison_findings(
    a: Seq<SegmentData>,
    cx: ContextData,
    entries: Map<Seq<char>, ValueData>,
) -> Result<Seq<LintResultData>, RuleEvalFault> {
    let raw = text_of(a, cx.segment as int);
    if assigns(a, cx.parent_stack) || !compares_equality(raw) {
        Ok(Seq::empty())
    } else if cx.parent_stack.len() == 0 {
        Err(RuleEvalFault { segment: cx.segment })
    } else {
        match null_operand(a, cx) {
            None => Ok(Seq::empty()),
            Some(operand) => {
                let edit = correction_edits(
                    base_is_null_sequence(starts_upper(text_of(a, operand as int)), raw),
                );
                match elements_around(a, cx.parent_stack[0], cx.segment, ReflowSide::Both) {
                    Some(elems) => match replaced(a, elems, cx.segment, edit) {
                        Some(staged) => Ok(
                            seq![
                                LintResultData {
                                    anchor: cx.segment,
                                    fixes: seq![
                                        LintFixData {
                                            edit_type: EditType::Replace,
                                            anchor: cx.segment,
                                            edit,
                                        },
                                    ] + respace_fixes(entries, staged, false, Filter::All),
                                    description: None,
                                    context: Seq::empty(),
                                },
                            ],
                        ),
                        None => Err(RuleEvalFault { segment: cx.segment }),
                    },
                    None => Err(RuleEvalFault { segment: cx.segment }),
                }
            },
        }
    }
}

impl RuleCV05 {
    /// This rule as one of the rules.
    pub fn erased(self) -> (out: ErasedRule)
        ensures
            out == ErasedRule::CV05(self),
    {
        ErasedRule::CV05(self)
    }

    fn is_assignment(cx: &RuleContext) -> (out: bool)
        requires
            cx.wf(),
        ensures
            out == assigns(cx.arena@, cx.parent_stack@),
    {
        let n = cx.parent_stack.len();
        if n >= 2 {
            let above = cx.parent_stack[n - 2];
            if cx.arena.is_type(above, "set_clause_list") || cx.arena.is_type(
                above,
                "execute_script_statement",
            ) || cx.arena.is_type(above, "options_segment") {
                return true;
            }
        }
        if n >= 1 {
            let parent = cx.parent_stack[n - 1];
            if cx.arena.is_type(parent, "set_clause_list") || cx.arena.is_type(
                parent,
                "execute_script_statement",
            ) || cx.arena.is_type(parent, "assignment_operator") || cx.arena.is_type(
                parent,
                "exclusion_constraint_element",
            ) {
                return true;
            }
        }
        false
    }

    fn null_operand_of(cx: &RuleContext) -> (out: Option<usize>)
        requires
            cx.wf(),
            cx.parent_stack@.len() > 0,
        ensures
            out == null_operand(cx.arena@, cx@),
            out matches Some(k) ==> k < cx.arena@.len(),
    {
        let parent = cx.parent_stack[cx.parent_stack.len() - 1];
        let kids = cx.arena.children(parent);
        let items = crate::segment::copy_range(kids, 0, kids.len());
        proof {
            assert(kids@.subrange(0, kids@.len() as int) == kids@);
        }
        let siblings = crate::query::Segments::new(cx.arena, items);
        let after_op_list = match siblings.select(None, None, Some(cx.segment), None) {
            Ok(found) => found,
            Err(_) => {
                return None;
            },
        };
        let next_code = after_op_list.find_first(Some(&is_code()));
        match next_code.get(0) {
            Some(sub_seg) => {
                if cx.arena.is_type(sub_seg, "null_literal") {
                    Some(sub_seg)
                } else {
                    None
                }
            },
            None => None,
        }
    }
}

impl Default for RuleCV05 {
    fn default() -> (out: RuleCV05) {
        RuleCV05 {  }
    }
}

impl Rule for RuleCV05 {
    open spec fn name_spec(&self) -> Seq<char> {
        "convention.is_null"@
    }

    open spec fn description_spec(&self) -> Seq<char> {
        "Relational operators should not be used to check for NULL values."@
    }

    open spec fn crawl_targets(&self) -> CrawlerData {
        seeker_of("comparison_operator"@)
    }

    open spec fn load_spec(&self, entries: Map<Seq<char>, ValueData>) -> Result<
        ErasedRule,
        Seq<char>,
    > {
        Ok(ErasedRule::CV05(RuleCV05 {  }))
    }

    open spec fn eval_spec(
        &self,
        a: Seq<SegmentData>,
        cx: ContextData,
        dialect: Seq<char>,
        entries: Map<Seq<char>, ValueData>,
    ) -> Result<Seq<LintResultData>, RuleEvalFault> {
        comparison_findings(a, cx, entries)
    }

    fn name(&self) -> (out: &'static str) {
        "convention.is_null"
    }

    fn description(&self) -> (out: &'static str) {
        "Relational operators should not be used to check for NULL values."
    }

    fn crawl_behaviour(&self) -> (out: Crawler) {
        SegmentSeekerCrawler::for_type("comparison_operator")
    }

    fn load_from_config(&self, _config: &AHashMap<String, Value>) -> (out: Result<
        ErasedRule,
        ConfigError,
    >) {
        Ok(RuleCV05::default().erased())
    }

    fn eval(&self, cx: &RuleContext) -> (out: Result<Vec<LintResult>, RuleEvalFault>) {
        let mut found: Vec<LintResult> = Vec::new();
        proof {
            assert(results_view(found@) =~= Seq::<LintResultData>::empty());
        }
        let fault = RuleEvalFault { segment: cx.segment };
        if Self::is_assignment(cx) {
            return Ok(found);
        }
        let raw = cx.arena.raw_of(cx.segment);
        if !(str_eq(raw.as_str(), "=") || str_eq(raw.as_str(), "!=") || str_eq(
            raw.as_str(),
            "<>",
        )) {
            return Ok(found);
        }
        if cx.parent_stack.len() == 0 {
            return Err(fault);
        }
        let sub_seg = match Self::null_operand_of(cx) {
            Some(s) => s,
            None => {
                return Ok(found);
            },
        };
        let literal = cx.arena.raw_of(sub_seg);
        let is_upper = literal.as_str().unicode_len() > 0 && literal.as_str().get_char(0) == 'N';
        let ghost raw_view = raw@;
        let edit = edit_of(&create_base_is_null_sequence(is_upper, raw));
        let ghost edit_view = edits_view(edit@);
        let seq = match ReflowSequence::from_around_target(
            cx.arena,
            cx.segment,
            cx.parent_stack[0],
            ReflowSide::Both,
            cx.config,
        ) {
            Ok(seq) => seq,
            Err(_) => {
                return Err(fault);
            },
        };
        let ghost none = fixes_view(seq.fixes@);
        let seq = match seq.replace(cx.segment, edit) {
            Ok(seq) => seq,
            Err(_) => {
                return Err(fault);
            },
        };
        let fixes = seq.respace(false, Filter::All).fixes();
        let violation = LintResult::new(cx.segment, fixes, None, Vec::new());
        proof {
            assert(none =~= Seq::<LintFixData>::empty());
            assert(violation@.fixes =~= seq![
                LintFixData { edit_type: EditType::Replace, anchor: cx.segment, edit: edit_view },
            ] + respace_fixes(
                config_entries(*cx.config),
                elements_view(seq.elements@),
                false,
                Filter::All,
            ));
        }
        found.push(violation);
        proof {
            assert(results_view(found@) =~= seq![violation@]);
        }
        Ok(found)
    }
}

} // verus!
