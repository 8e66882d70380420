//! `DISTINCT` with brackets: `DISTINCT` is a keyword, not a function, and
//! wants no brackets around a single target.

use vstd::prelude::*;
use vstd::string::*;
use ahash::AHashMap;
use crate::config::{config_entries, ConfigError, Value, ValueData};
use crate::context::{ContextData, RuleContext};
use crate::crawler::{Crawler, CrawlerData, SegmentSeekerCrawler};
use crate::fix::{
    as_existing, edits_view, existing_edit, fixes_view, results_view, EditSegment,
    EditSegmentData, EditType, LintFix, LintFixData, LintResult, LintResultData,
};
use crate::query::{all_below, is_type, of_type, Segments};
use crate::reflow::{
    elements_around, elements_view, replaced, respace_fixes, ElementData, Filter, ReflowSequence,
    ReflowSide,
};
use crate::rule::{Rule, RuleEvalFault};
use crate::rules::ErasedRule;
use crate::segment::{first_child, is_meta_kind, text_of, views_of, SegmentArena, SegmentData};
use crate::text::{str_eq, uppercase_of};

verus! {

/// The rule against brackets after `DISTINCT`.
#[derive(Debug, Clone, Copy)]
pub struct RuleST08 {}

/// The test "the segment in this slot is a structural marker", or its
/// negation.
pub open spec fn meta_is(a: Seq<SegmentData>, keep_meta: bool) -> spec_fn(usize) -> bool {
    |k: usize| k < a.len() && is_meta_kind(a[k as int].kind) == keep_meta
}

/// What stands between the brackets of a bracketed segment: its children
/// without structural markers and without the first and the last.
pub open spec fn unbracketed(a: Seq<SegmentData>, bracketed: usize) -> Seq<usize> {
    let kept = a[bracketed as int].children.filter(meta_is(a, false));
    if kept.len() >= 2 {
        kept.subrange(1, kept.len() - 1)
    } else {
        Seq::empty()
    }
}

/// The violation at `anchor` with the edits `fixes`, if there are any.
pub open spec fn if_any(anchor: usize, fixes: Seq<LintFixData>) -> Seq<LintResultData> {
    if fixes.len() > 0 {
        seq![LintResultData { anchor, fixes, description: None, context: Seq::empty() }]
    } else {
        Seq::empty()
    }
}

/// The elements around a bracketed segment once its brackets are staged
/// for removal, seen from `root`.
pub open spec fn without_brackets(a: Seq<SegmentData>, root: usize, bracketed: usize) -> Option<
    Seq<ElementData>,
> {
    match elements_around(a, root, bracketed, ReflowSide::Before) {
        Some(elems) => replaced(a, elems, bracketed, as_existing(unbracketed(a, bracketed))),
        None => None,
    }
}

/// The edit that replaces `anchor` by `edit`.
pub open spec fn replacement(anchor: usize, edit: Seq<EditSegmentData>) -> LintFixData {
    LintFixData { edit_type: EditType::Replace, anchor, edit }
}

/// What the rule finds on a select clause: brackets around the single
/// term of the first target after a modifier are removed and the gap
/// before it respaced; brackets that are part of a longer expression
/// stay, and the gap after the modifier is respaced.
pub open spec fn select_clause_findings(
    a: Seq<SegmentData>,
    cx: ContextData,
    entries: Map<Seq<char>, ValueData>,
) -> Result<Seq<LintResultData>, RuleEvalFault> {
    let kids = a[cx.segment as int].children;
    let modifier = of_type(kids, a, "select_clause_modifier"@);
    let elements = of_type(kids, a, "select_clause_element"@);
    if elements.len() == 0 || modifier.len() == 0 {
        Ok(Seq::empty())
    } else {
        let expression = match first_child(a, elements[0] as int, seq!["expression"@]) {
            Some(e) => e,
            None => elements[0],
        };
        match first_child(a, expression as int, seq!["bracketed"@]) {
            None => Ok(Seq::empty()),
            Some(bracketed) => if cx.parent_stack.len() == 0 {
                Err(RuleEvalFault { segment: cx.segment })
            } else if a[expression as int].children.len() == 1 {
                match without_brackets(a, cx.parent_stack[0], bracketed) {
                    Some(elems) => Ok(
                        if_any(
                            bracketed,
                            seq![replacement(bracketed, as_existing(unbracketed(a, bracketed)))]
                                + respace_fixes(entries, elems, false, Filter::All),
                        ),
                    ),
                    None => Err(RuleEvalFault { segment: cx.segment }),
                }
            } else {
                match elements_around(a, cx.parent_stack[0], modifier[0], ReflowSide::After) {
                    Some(elems) => Ok(if_any(
                        modifier[0],
                        respace_fixes(entries, elems, false, Filter::All),
                    )),
                    None => Err(RuleEvalFault { segment: cx.segment }),
                }
            },
        }
    }
}

/// The segments that stand for `DISTINCT` used as a keyword before what
/// the brackets of `bracketed` hold.
pub open spec fn distinct_keyword_edit(a: Seq<SegmentData>, bracketed: usize) -> Seq<
    EditSegmentData,
> {
    seq![
        EditSegmentData::New { kind: "keyword"@, raw: "DISTINCT"@ },
        EditSegmentData::New { kind: "whitespace"@, raw: " "@ },
    ] + as_existing(unbracketed(a, bracketed))
}

/// How a call of a function is rewritten, given the name of the function
/// in upper case and its bracketed arguments: a call of `DISTINCT` that
/// is all of the expression `anchor` becomes the keyword and its target.
pub open spec fn distinct_call_findings(
    a: Seq<SegmentData>,
    anchor: usize,
    name_upper: Option<Seq<char>>,
    bracketed: Option<usize>,
) -> Seq<LintResultData> {
    if name_upper == Some("DISTINCT"@) && bracketed is Some {
        seq![
            LintResultData {
                anchor,
                fixes: seq![replacement(anchor, distinct_keyword_edit(a, bracketed.unwrap()))],
                description: None,
                context: Seq::empty(),
            },
        ]
    } else {
        Seq::empty()
    }
}

/// What the rule finds on a function call.
pub open spec fn function_findings(a: Seq<SegmentData>, cx: ContextData) -> Result<
    Seq<LintResultData>,
    RuleEvalFault,
> {
    if cx.parent_stack.len() == 0 {
        Err(RuleEvalFault { segment: cx.segment })
    } else {
        let anchor = cx.parent_stack.last();
        if a[anchor as int].kind != "expression"@ || a[anchor as int].children.len() != 1 {
            Ok(Seq::empty())
        } else {
            let kids = a[cx.segment as int].children;
            let names = of_type(kids, a, "function_name"@);
            let brackets = of_type(kids, a, "bracketed"@);
            Ok(
                distinct_call_findings(
                    a,
                    anchor,
                    if names.len() > 0 {
                        Some(uppercase_of(text_of(a, names[0] as int)))
                    } else {
                        None
                    },
                    if brackets.len() > 0 {
                        Some(brackets[0])
                    } else {
                        None
                    },
                ),
            )
        }
    }
}

impl RuleST08 {
    /// This rule as one of the rules.
    pub fn erased(self) -> (out: ErasedRule)
        ensures
            out == ErasedRule::ST08(self),
    {
        ErasedRule::ST08(self)
    }

    /// The segments among `segments` that are structural markers, or
    /// those that are not.
    pub fn filter_meta(arena: &SegmentArena, segments: &[usize], keep_meta: bool) -> (out: Vec<
        usize,
    >)
        requires
            forall|j: int| 0 <= j < segments@.len() ==> segments@[j] < arena@.len(),
        ensures
            out@ == segments@.filter(meta_is(arena@, keep_meta)),
            all_below(out@, arena@.len()),
    {
        let ghost pick = meta_is(arena@, keep_meta);
        let mut buff: Vec<usize> = Vec::new();
        let mut i: usize = 0;
        proof {
            reveal(Seq::filter);
        }
        while i < segments.len()
            invariant
                forall|j: int| 0 <= j < segments@.len() ==> segments@[j] < arena@.len(),
                pick == meta_is(arena@, keep_meta),
                0 <= i <= segments@.len(),
                buff@ == segments@.take(i as int).filter(pick),
                all_below(buff@, arena@.len()),
            decreases segments@.len() - i,
        {
            proof {
                reveal(Seq::filter);
                assert(segments@.take(i + 1).drop_last() == segments@.take(i as int));
            }
            if arena.is_meta(segments[i]) == keep_meta {
                buff.push(segments[i]);
            }
            i = i + 1;
        }
        proof {
            assert(segments@.take(i as int) == segments@);
        }
        buff
    }

    /// What stands between the brackets of `bracketed`.
    pub fn inner_segments(arena: &SegmentArena, bracketed: usize) -> (out: Vec<usize>)
        requires
            arena.wf(),
            bracketed < arena@.len(),
        ensures
            out@ == unbracketed(arena@, bracketed),
            all_below(out@, arena@.len()),
    {
        let kept = Self::filter_meta(arena, arena.children(bracketed).as_slice(), false);
        if kept.len() >= 2 {
            crate::segment::copy_range(&kept, 1, kept.len() - 1)
        } else {
            Vec::new()
        }
    }

    /// Stages the removal of the brackets of the first segment of
    /// `bracketed`, on the sequence of leaves in front of it. Gives the
    /// segment with the sequence, or `None` when there is no such segment,
    /// when the context has no root above it, or when the segment is not
    /// found below that root.
    pub fn remove_unneeded_brackets<'a>(
        self,
        context: &RuleContext<'a>,
        bracketed: Segments<'a>,
    ) -> (out:
        Option<(usize, ReflowSequence<'a>)>)
        requires
            context.wf(),
            bracketed.wf(),
            bracketed.arena == context.arena,
        ensures
            match out {
                Some((anchor, seq)) => bracketed@.len() > 0 && anchor == bracketed@[0]
                    && context.parent_stack@.len() > 0 && seq.wf() && seq.arena == context.arena
                    && seq.config == context.config && without_brackets(
                        context.arena@,
                        context.parent_stack@[0],
                        anchor,
                    ) == Some(
                    elements_view(seq.elements@),
                ) && fixes_view(seq.fixes@) == seq![
                    replacement(anchor, as_existing(unbracketed(context.arena@, anchor))),
                ],
                None => bracketed@.len() == 0 || context.parent_stack@.len() == 0
                    || without_brackets(context.arena@, context.parent_stack@[0], bracketed@[0])
                    is None,
            },
    {
        let anchor = match bracketed.get(0) {
            Some(k) => k,
            None => {
                return None;
            },
        };
        if context.parent_stack.len() == 0 {
            return None;
        }
        let root = context.parent_stack[0];
        let seq = match ReflowSequence::from_around_target(
            context.arena,
            anchor,
            root,
            ReflowSide::Before,
            context.config,
        ) {
            Ok(seq) => seq,
            Err(_) => {
                return None;
            },
        };
        let inner = Self::inner_segments(context.arena, anchor);
        let ghost before = fixes_view(seq.fixes@);
        match seq.replace(anchor, existing_edit(&inner)) {
            Ok(seq) => {
                proof {
                    assert(before =~= Seq::<LintFixData>::empty());
                    assert(fixes_view(seq.fixes@) =~= seq![
                        replacement(anchor, as_existing(unbracketed(context.arena@, anchor))),
                    ]);
                }
                Some((anchor, seq))
            },
            Err(_) => None,
        }
    }

    /// Wraps the edits of a respaced sequence into a violation at
    /// `anchor`, if there are any.
    fn respaced<'a>(anchor: usize, seq: ReflowSequence<'a>) -> (out: Vec<LintResult>)
        requires
            seq.wf(),
        ensures
            results_view(out@) == if_any(
                anchor,
                fixes_view(seq.fixes@) + respace_fixes(
                    config_entries(*seq.config),
                    elements_view(seq.elements@),
                    false,
                    Filter::All,
                ),
            ),
    {
        let mut out: Vec<LintResult> = Vec::new();
        let fixes = seq.respace(false, Filter::All).fixes();
        proof {
            assert(results_view(out@) =~= Seq::<LintResultData>::empty());
        }
        if fixes.len() > 0 {
            let found = LintResult::new(anchor, fixes, None, Vec::new());
            out.push(found);
            proof {
                assert(results_view(out@) =~= seq![found@]);
            }
        }
        out
    }

    /// Rewrites a call of a function of the given name, in upper case,
    /// which is all of the expression `anchor`.
    pub fn rewrite_distinct_call(
        arena: &SegmentArena,
        anchor: usize,
        name_upper: Option<String>,
        bracketed: Option<usize>,
    ) -> (out: Vec<LintResult>)
        requires
            arena.wf(),
            bracketed matches Some(b) ==> b < arena@.len(),
        ensures
            results_view(out@) == distinct_call_findings(
                arena@,
                anchor,
                crate::fix::text_view(name_upper),
                bracketed,
            ),
    {
        let mut out: Vec<LintResult> = Vec::new();
        proof {
            assert(results_view(out@) =~= Seq::<LintResultData>::empty());
        }
        let name = match name_upper {
            Some(n) => n,
            None => {
                return out;
            },
        };
        let bracketed = match bracketed {
            Some(b) => b,
            None => {
                return out;
            },
        };
        if !str_eq(name.as_str(), "DISTINCT") {
            return out;
        }
        let inner = Self::inner_segments(arena, bracketed);
        let mut edits: Vec<EditSegment> = Vec::new();
        edits.push(EditSegment::keyword("DISTINCT"));
        edits.push(EditSegment::whitespace(" "));
        let mut rest = existing_edit(&inner);
        let ghost head = edits_view(edits@);
        let ghost tail = edits_view(rest@);
        edits.append(&mut rest);
        proof {
            assert(edits_view(edits@) =~= head + tail);
            assert(edits_view(edits@) =~= distinct_keyword_edit(arena@, bracketed));
        }
        let mut fixes: Vec<LintFix> = Vec::new();
        fixes.push(LintFix::replace(anchor, edits));
        let found = LintResult::new(anchor, fixes, None, Vec::new());
        proof {
            assert(found@.fixes =~= seq![
                replacement(anchor, distinct_keyword_edit(arena@, bracketed)),
            ]);
        }
        out.push(found);
        proof {
            assert(results_view(out@) =~= seq![found@]);
        }
        out
    }

    fn eval_select_clause(&self, cx: &RuleContext) -> (out: Result<Vec<LintResult>, RuleEvalFault>)
        requires
            cx.wf(),
        ensures
            match out {
                Ok(found) => select_clause_findings(
                    cx.arena@,
                    cx@,
                    config_entries(*cx.config),
                ) == Ok::<Seq<LintResultData>, RuleEvalFault>(results_view(found@)),
                Err(fault) => select_clause_findings(
                    cx.arena@,
                    cx@,
                    config_entries(*cx.config),
                ) == Err::<Seq<LintResultData>, RuleEvalFault>(fault),
            },
    {
        let none: Vec<LintResult> = Vec::new();
        proof {
            assert(results_view(none@) =~= Seq::<LintResultData>::empty());
        }
        let fault = RuleEvalFault { segment: cx.segment };
        let children = cx.children();
        let modifier = children.select_if(&is_type("select_clause_modifier"));
        let selected_elements = children.select_if(&is_type("select_clause_element"));
        let first_element = match selected_elements.first() {
            Some(e) => e,
            None => {
                return Ok(none);
            },
        };
        let anchor_modifier = match modifier.first() {
            Some(m) => m,
            None => {
                return Ok(none);
            },
        };
        let expression = match cx.arena.child_of_type(first_element, "expression") {
            Some(e) => e,
            None => first_element,
        };
        let bracketed = match cx.arena.child_of_type(expression, "bracketed") {
            Some(b) => b,
            None => {
                return Ok(none);
            },
        };
        if cx.parent_stack.len() == 0 {
            return Err(fault);
        }
        if cx.arena.children(expression).len() == 1 {
            let picked = Segments::from_segment(cx.arena, bracketed);
            match self.remove_unneeded_brackets(cx, picked) {
                Some((anchor, seq)) => Ok(Self::respaced(anchor, seq)),
                None => Err(fault),
            }
        } else {
            match ReflowSequence::from_around_target(
                cx.arena,
                anchor_modifier,
                cx.parent_stack[0],
                ReflowSide::After,
                cx.config,
            ) {
                Ok(seq) => {
                    proof {
                        assert(fixes_view(seq.fixes@) =~= Seq::<LintFixData>::empty());
                        assert(Seq::<LintFixData>::empty() + respace_fixes(
                            config_entries(*cx.config),
                            elements_view(seq.elements@),
                            false,
                            Filter::All,
                        ) =~= respace_fixes(
                            config_entries(*cx.config),
                            elements_view(seq.elements@),
                            false,
                            Filter::All,
                        ));
                    }
                    Ok(Self::respaced(anchor_modifier, seq))
                },
                Err(_) => Err(fault),
            }
        }
    }

    fn eval_function(&self, cx: &RuleContext) -> (out: Result<Vec<LintResult>, RuleEvalFault>)
        requires
            cx.wf(),
        ensures
            match out {
                Ok(found) => function_findings(cx.arena@, cx@) == Ok::<
                    Seq<LintResultData>,
                    RuleEvalFault,
                >(results_view(found@)),
                Err(fault) => function_findings(cx.arena@, cx@) == Err::<
                    Seq<LintResultData>,
                    RuleEvalFault,
                >(fault),
            },
    {
        let none: Vec<LintResult> = Vec::new();
        proof {
            assert(results_view(none@) =~= Seq::<LintResultData>::empty());
        }
        let anchor = match cx.parent() {
            Some(p) => p,
            None => {
                return Err(RuleEvalFault { segment: cx.segment });
            },
        };
        if !cx.arena.is_type(anchor, "expression") || cx.arena.children(anchor).len() != 1 {
            return Ok(none);
        }
        let children = cx.children();
        let function_name = children.select_if(&is_type("function_name")).first();
        let bracketed = children.select_if(&is_type("bracketed")).first();
        let name_upper = match function_name {
            Some(n) => Some(cx.arena.get_raw_upper(n)),
            None => None,
        };
        Ok(Self::rewrite_distinct_call(cx.arena, anchor, name_upper, bracketed))
    }
}

impl Default for RuleST08 {
    fn default() -> (out: RuleST08) {
        RuleST08 {  }
    }
}

impl Rule for RuleST08 {
    open spec fn name_spec(&self) -> Seq<char> {
        "structure.distinc"@
    }

    open spec fn description_spec(&self) -> Seq<char> {
        "Looking for DISTINCT before a bracket"@
    }

    open spec fn crawl_targets(&self) -> CrawlerData {
        CrawlerData::SegmentSeeker {
            types: seq!["select_clause"@, "function"@],
            allow_recurse: true,
        }
    }

    open spec fn load_spec(&self, entries: Map<Seq<char>, ValueData>) -> Result<
        ErasedRule,
        Seq<char>,
    > {
        Ok(ErasedRule::ST08(RuleST08 {  }))
    }

    open spec fn eval_spec(
        &self,
        a: Seq<SegmentData>,
        cx: ContextData,
        dialect: Seq<char>,
        entries: Map<Seq<char>, ValueData>,
    ) -> Result<Seq<LintResultData>, RuleEvalFault> {
        if a[cx.segment as int].kind == "select_clause"@ {
            select_clause_findings(a, cx, entries)
        } else if a[cx.segment as int].kind == "function"@ {
            function_findings(a, cx)
        } else {
            Ok(Seq::empty())
        }
    }

    fn name(&self) -> (out: &'static str) {
        "structure.distinc"
    }

    fn description(&self) -> (out: &'static str) {
        "Looking for DISTINCT before a bracket"
    }

    fn crawl_behaviour(&self) -> (out: Crawler) {
        let types = ["select_clause", "function"];
        assert(views_of(types@) =~= seq!["select_clause"@, "function"@]);
        SegmentSeekerCrawler::new(&types).into_crawler()
    }

    fn load_from_config(&self, _config: &AHashMap<String, Value>) -> (out: Result<
        ErasedRule,
        ConfigError,
    >) {
        Ok(RuleST08::default().erased())
    }

    fn eval(&self, cx: &RuleContext) -> (out: Result<Vec<LintResult>, RuleEvalFault>) {
        if cx.arena.is_type(cx.segment, "select_clause") {
            self.eval_select_clause(cx)
        } else if cx.arena.is_type(cx.segment, "function") {
            self.eval_function(cx)
        } else {
            let none: Vec<LintResult> = Vec::new();
            proof {
                assert(results_view(none@) =~= Seq::<LintResultData>::empty());
            }
            Ok(none)
        }
    }
}

} // verus!
