//! Select targets: a single select target stands on the line of the
//! `SELECT` keyword.

use vstd::prelude::*;
use vstd::string::*;
use ahash::AHashMap;
use itertools::Itertools;
use crate::config::{config_get, ConfigError, Value, ValueData};
use crate::context::{siblings_after, ContextData, RuleContext};
use crate::crawler::{seeker_of, Crawler, CrawlerData, SegmentSeekerCrawler};
use crate::fix::{
    as_existing, deletion, edits_view, existing_edit, fixes_view, results_view, EditSegment,
    EditSegmentData, EditType, LintFix, LintFixData, LintResult, LintResultData,
};
use crate::query::{
    all_below, children_of_all, first_index, index_in, is_comment, is_keyword, is_meta, is_type,
    of_type, or, select_spec, test_of, PredicateData, Segments,
};
use crate::rule::{Rule, RuleEvalFault};
use crate::rules::ErasedRule;
use crate::segment::SegmentData;
use crate::text::str_eq;

verus! {

/// Whether a lone wildcard counts as a single target or as many.
#[derive(Debug, Clone, Copy, PartialEq, Eq, Structural)]
pub enum WildcardPolicy {
    Single,
    Multiple,
}

/// The rule on the line of select targets.
#[derive(Debug, Clone, Copy)]
pub struct RuleLT09 {
    pub wildcard_policy: WildcardPolicy,
}

/// Where the parts of a select clause stand among its children, and what
/// follows the clause.
pub struct SelectTargetsInfo {
    pub select_idx: Option<usize>,
    pub first_new_line_idx: Option<usize>,
    pub first_select_target_idx: Option<usize>,
    pub first_whitespace_idx: Option<usize>,
    pub comment_after_select_idx: Option<usize>,
    pub select_targets: Vec<usize>,
    pub from_segment: Option<usize>,
    pub pre_from_whitespace: Vec<usize>,
}

/// The content of a [`SelectTargetsInfo`].
pub struct TargetsInfoData {
    pub select_idx: Option<usize>,
    pub first_new_line_idx: Option<usize>,
    pub first_select_target_idx: Option<usize>,
    pub first_whitespace_idx: Option<usize>,
    pub comment_after_select_idx: Option<usize>,
    pub select_targets: Seq<usize>,
    pub from_segment: Option<usize>,
    pub pre_from_whitespace: Seq<usize>,
}

impl View for SelectTargetsInfo {
    type V = TargetsInfoData;

    open spec fn view(&self) -> TargetsInfoData {
        TargetsInfoData {
            select_idx: self.select_idx,
            first_new_line_idx: self.first_new_line_idx,
            first_select_target_idx: self.first_select_target_idx,
            first_whitespace_idx: self.first_whitespace_idx,
            comment_after_select_idx: self.comment_after_select_idx,
            select_targets: self.select_targets@,
            from_segment: self.from_segment,
            pre_from_whitespace: self.pre_from_whitespace@,
        }
    }
}

/// The place among `items` of the first of the segments `found`.
pub open spec fn place_of_first(items: Seq<usize>, found: Seq<usize>) -> Option<usize> {
    if found.len() > 0 {
        match first_index(items, found[0]) {
            Some(i) => Some(i as usize),
            None => None,
        }
    } else {
        None
    }
}

/// The first of the segments `found`.
pub open spec fn first_of(found: Seq<usize>) -> Option<usize> {
    if found.len() > 0 {
        Some(found[0])
    } else {
        None
    }
}

/// The test "a comment, whitespace or a structural marker".
pub open spec fn trivia() -> PredicateData {
    PredicateData::Or(
        Box::new(
            PredicateData::Or(
                Box::new(PredicateData::IsComment),
                Box::new(PredicateData::IsType("whitespace"@)),
            ),
        ),
        Box::new(PredicateData::IsMeta),
    )
}

/// The comments between the `SELECT` keyword and the first line break,
/// with nothing but whitespace and markers around them.
pub open spec fn comments_after_select(
    a: Seq<SegmentData>,
    kids: Seq<usize>,
    selects: Seq<usize>,
    newlines: Seq<usize>,
) -> Option<Seq<usize>> {
    if newlines.len() > 0 {
        select_spec(
            kids,
            a,
            Some(PredicateData::IsComment),
            Some(trivia()),
            first_of(selects),
            Some(newlines[0]),
        )
    } else {
        Some(Seq::empty())
    }
}

/// The whitespace behind the first line break.
pub open spec fn whitespace_after_line(
    a: Seq<SegmentData>,
    kids: Seq<usize>,
    newlines: Seq<usize>,
) -> Option<
    Seq<usize>,
> {
    if newlines.len() > 0 && place_of_first(kids, newlines) is Some {
        select_spec(
            kids,
            a,
            Some(PredicateData::IsType("whitespace"@)),
            None,
            Some(kids[place_of_first(kids, newlines).unwrap() as int]),
            None,
        )
    } else {
        Some(Seq::empty())
    }
}

/// Where the parts of the select clause of context `cx` stand; `None`
/// when a query on its children fails.
pub open spec fn targets_info(a: Seq<SegmentData>, cx: ContextData) -> Option<TargetsInfoData> {
    let kids = a[cx.segment as int].children;
    let select_targets = of_type(kids, a, "select_clause_element"@);
    let selects = kids.filter(test_of(Some(PredicateData::IsKeyword("select"@)), a));
    let newlines = of_type(kids, a, "newline"@);
    let siblings_post = siblings_after(a, cx.parent_stack, cx.segment_idx);
    let from_segment = first_of(of_type(siblings_post, a, "from_clause"@));
    match (
        comments_after_select(a, kids, selects, newlines),
        whitespace_after_line(a, kids, newlines),
        select_spec(
            siblings_post,
            a,
            Some(PredicateData::IsType("whitespace"@)),
            None,
            None,
            from_segment,
        ),
    ) {
        (Some(comments), Some(spaces), Some(pre_from_whitespace)) => Some(
            TargetsInfoData {
                select_idx: place_of_first(kids, selects),
                first_new_line_idx: place_of_first(kids, newlines),
                first_select_target_idx: place_of_first(kids, select_targets),
                first_whitespace_idx: place_of_first(kids, spaces),
                comment_after_select_idx: place_of_first(kids, comments),
                select_targets,
                from_segment,
                pre_from_whitespace,
            },
        ),
        _ => None,
    }
}

/// The order of places in which an absent place comes before every
/// place that is there.
pub open spec fn place_before(x: Option<usize>, y: Option<usize>) -> bool {
    match (x, y) {
        (None, Some(_)) => true,
        (Some(i), Some(j)) => i < j,
        _ => false,
    }
}

/// Decides [`place_before`].
pub fn is_place_before(x: Option<usize>, y: Option<usize>) -> (out: bool)
    ensures
        out == place_before(x, y),
{
    match (x, y) {
        (None, Some(_)) => true,
        (Some(i), Some(j)) => i < j,
        _ => false,
    }
}

/// The edits that remove the segments `ids`.
pub open spec fn deletions_of(ids: Seq<usize>) -> Seq<LintFixData> {
    ids.map_values(|k: usize| deletion(k))
}

/// The anchors of the edits among `fixes` that delete.
pub open spec fn deleted_anchors(fixes: Seq<LintFixData>) -> Seq<usize>
    decreases fixes.len(),
{
    if fixes.len() == 0 {
        Seq::empty()
    } else if fixes.last().edit_type == EditType::Delete {
        deleted_anchors(fixes.drop_last()).push(fixes.last().anchor)
    } else {
        deleted_anchors(fixes.drop_last())
    }
}

/// Those of the first `n` segments of `segs` that are neither in `taken`
/// nor earlier in `segs`, in order.
pub open spec fn fresh(taken: Seq<usize>, segs: Seq<usize>, n: int) -> Seq<usize>
    decreases n,
{
    if n <= 0 || n > segs.len() {
        Seq::empty()
    } else {
        let before = fresh(taken, segs, n - 1);
        if (taken + before).contains(segs[n - 1]) {
            before
        } else {
            before.push(segs[n - 1])
        }
    }
}

/// A line break, as a new segment.
pub open spec fn line_break() -> EditSegmentData {
    EditSegmentData::New { kind: "newline"@, raw: "\n"@ }
}

/// The edits that move what is left in the select clause `clause`
/// between `start_seg` and `stop_seg` behind the clause: the segments
/// `delete_segments` and the segments moved are deleted, unless `fixes`
/// deletes them already, and the segments moved are created anew behind
/// the clause, after a line break if `add_newline` says so. `None` when
/// a bound is not among the children `kids`.
pub open spec fn move_after_clause(
    a: Seq<SegmentData>,
    clause: usize,
    kids: Seq<usize>,
    fixes: Seq<LintFixData>,
    start_seg: usize,
    stop_seg: usize,
    delete_segments: Seq<usize>,
    add_newline: bool,
) -> Option<Seq<LintFixData>> {
    match select_spec(kids, a, None, None, Some(start_seg), Some(stop_seg)) {
        Some(moved) => {
            let gone = delete_segments + moved;
            let deletes = deletions_of(fresh(deleted_anchors(fixes), gone, gone.len() as int));
            let lead = if add_newline {
                seq![line_break()]
            } else {
                Seq::empty()
            };
            Some(
                deletes + (if moved.len() > 0 || add_newline {
                    seq![
                        LintFixData {
                            edit_type: EditType::CreateAfter,
                            anchor: clause,
                            edit: lead + as_existing(moved),
                        },
                    ]
                } else {
                    Seq::empty()
                }),
            )
        },
        None => None,
    }
}

/// The edits that tidy up behind a select clause whose statement goes
/// on with a line break: the whitespace in front of the target goes, the
/// line break behind the clause goes if the target had a line of its
/// own, and a line break is put behind the clause. `None` when a query
/// fails.
pub open spec fn after_clause_fixes(
    a: Seq<SegmentData>,
    clause: usize,
    kids: Seq<usize>,
    fixes: Seq<LintFixData>,
    start_idx: usize,
    first_new_line_idx: usize,
    line_after_clause: usize,
) -> Option<Seq<LintFixData>> {
    match select_spec(
        kids.reverse(),
        a,
        None,
        Some(PredicateData::IsType("whitespace"@)),
        Some(kids[start_idx as int]),
        None,
    ) {
        Some(to_delete) => if to_delete.len() == 0 {
            Some(fixes)
        } else if start_idx < to_delete.len() + 1 {
            None
        } else {
            let last_newline = a[kids[start_idx - to_delete.len() - 1] as int].kind == "newline"@;
            let fixes1 = if last_newline {
                fixes.push(deletion(line_after_clause))
            } else {
                fixes
            };
            match move_after_clause(
                a,
                clause,
                kids,
                fixes1,
                kids[first_new_line_idx as int],
                to_delete.last(),
                to_delete,
                true,
            ) {
                Some(more) => Some(fixes1 + more),
                None => None,
            }
        },
        None => None,
    }
}

/// The edits on a select clause with a single target that stands on a
/// line after the `SELECT` keyword. `None` when the clause has a
/// modifier, when the statement goes on behind the clause with anything
/// but a line break, or when a query fails.
pub open spec fn single_target_fixes(
    a: Seq<SegmentData>,
    cx: ContextData,
    info: TargetsInfoData,
) -> Option<
    Seq<LintFixData>,
> {
    let kids = a[cx.segment as int].children;
    let target_idx = info.first_select_target_idx.unwrap();
    let line_idx = info.first_new_line_idx.unwrap();
    if target_idx >= kids.len() || line_idx >= kids.len() || of_type(
        kids,
        a,
        "select_clause_modifier"@,
    ).len() > 0 {
        None
    } else {
        let target = kids[target_idx as int];
        let fixes = seq![deletion(target)];
        let tidied = if cx.parent_stack.len() > 0 && a[cx.parent_stack.last() as int].kind
            == "select_statement"@ {
            let around = a[cx.parent_stack.last() as int].children;
            match first_index(around, cx.segment) {
                Some(clause_idx) => if around.len() > clause_idx + 1 {
                    if a[around[clause_idx + 1] as int].kind == "newline"@ {
                        after_clause_fixes(
                            a,
                            cx.segment,
                            kids,
                            fixes,
                            target_idx,
                            line_idx,
                            around[clause_idx + 1],
                        )
                    } else {
                        None
                    }
                } else {
                    Some(fixes)
                },
                None => None,
            }
        } else {
            Some(fixes)
        };
        match tidied {
            Some(fixes) => if info.comment_after_select_idx is None {
                Some(
                    fixes.push(
                        LintFixData {
                            edit_type: EditType::Replace,
                            anchor: kids[line_idx as int],
                            edit: seq![
                                EditSegmentData::New { kind: "whitespace"@, raw: " "@ },
                                EditSegmentData::Existing(target),
                            ],
                        },
                    ),
                )
            } else {
                Some(Seq::empty())
            },
            None => None,
        }
    }
}

/// What the rule finds on a select clause with a single target: nothing
/// unless the `SELECT` keyword, the first line break and the target come
/// in this order; else one violation at the clause, with the edits that
/// bring the target up to the line of the keyword.
pub open spec fn single_target_findings(
    a: Seq<SegmentData>,
    cx: ContextData,
    info: TargetsInfoData,
) -> Result<Seq<LintResultData>, RuleEvalFault> {
    if !(place_before(info.select_idx, info.first_new_line_idx) && place_before(
        info.first_new_line_idx,
        info.first_select_target_idx,
    )) {
        Ok(Seq::empty())
    } else {
        match single_target_fixes(a, cx, info) {
            Some(fixes) => Ok(
                seq![
                    LintResultData {
                        anchor: cx.segment,
                        fixes,
                        description: None,
                        context: Seq::empty(),
                    },
                ],
            ),
            None => Err(RuleEvalFault { segment: cx.segment }),
        }
    }
}

/// Whether one of the select targets is a wildcard.
pub open spec fn has_wildcard(a: Seq<SegmentData>, targets: Seq<usize>) -> bool {
    children_of_all(a, targets).filter(
        test_of(Some(PredicateData::IsType("wildcard_expression"@)), a),
    ).len() > 0
}

/// Calls `Itertools::collect_vec` on the two lists chained: the items of
/// `head` and then those of `tail` come back, each once and in order.
#[verifier::external_body]
fn chain_collect(head: Vec<EditSegment>, tail: Vec<EditSegment>) -> (out: Vec<EditSegment>)
    ensures
        out@ == head@ + tail@,
{
    head.into_iter().chain(tail).collect_vec()
}

/// The option that sets the wildcard policy is absent, `single` or
/// `multiple`.
pub open spec fn policy_option(entries: Map<Seq<char>, ValueData>) -> Result<WildcardPolicy, ()> {
    if entries.contains_key("wildcard_policy"@) {
        match entries["wildcard_policy"@] {
            ValueData::String(s) => if s == "single"@ {
                Ok(WildcardPolicy::Single)
            } else if s == "multiple"@ {
                Ok(WildcardPolicy::Multiple)
            } else {
                Err(())
            },
            _ => Err(()),
        }
    } else {
        Ok(WildcardPolicy::Single)
    }
}

/// The place among `items` of the first of the segments `found`.
fn place(items: &Segments, found: &Segments) -> (out: Option<usize>)
    ensures
        out == place_of_first(items@, found@),
        out matches Some(i) ==> i < items@.len(),
{
    match found.get(0) {
        Some(first) => items.find(first),
        None => None,
    }
}

/// Whether `x` is among `ids`.
fn holds(ids: &Vec<usize>, x: usize) -> (out: bool)
    ensures
        out == ids@.contains(x),
{
    let mut i: usize = 0;
    while i < ids.len()
        invariant
            0 <= i <= ids@.len(),
            forall|j: int| 0 <= j < i ==> ids@[j] != x,
        decreases ids@.len() - i,
    {
        if ids[i] == x {
            return true;
        }
        i = i + 1;
    }
    false
}

/// The anchors of the edits among `fixes` that delete.
fn delete_anchors(fixes: &Vec<LintFix>) -> (out: Vec<usize>)
    ensures
        out@ == deleted_anchors(fixes_view(fixes@)),
{
    let ghost view = fixes_view(fixes@);
    let mut out: Vec<usize> = Vec::new();
    let mut i: usize = 0;
    while i < fixes.len()
        invariant
            0 <= i <= fixes@.len(),
            view == fixes_view(fixes@),
            out@ == deleted_anchors(view.take(i as int)),
        decreases fixes@.len() - i,
    {
        proof {
            assert(view.take(i + 1).drop_last() == view.take(i as int));
            assert(view.take(i + 1).last() == fixes@[i as int]@);
        }
        if matches!(fixes[i].edit_type, EditType::Delete) {
            out.push(fixes[i].anchor);
        }
        i = i + 1;
    }
    proof {
        assert(view.take(i as int) == view);
    }
    out
}

/// Adds the removal of each of the segments `gone` that is not removed
/// yet.
fn delete_fresh(fixes: &mut Vec<LintFix>, gone: &Vec<usize>)
    ensures
        fixes_view(final(fixes)@) == fixes_view(old(fixes)@) + deletions_of(
            fresh(deleted_anchors(fixes_view(old(fixes)@)), gone@, gone@.len() as int),
        ),
{
    let ghost base = fixes_view(fixes@);
    let mut all_deletes = delete_anchors(fixes);
    let ghost taken = all_deletes@;
    let mut i: usize = 0;
    proof {
        assert(base + deletions_of(Seq::<usize>::empty()) =~= base);
        assert(taken + Seq::<usize>::empty() =~= taken);
    }
    while i < gone.len()
        invariant
            0 <= i <= gone@.len(),
            all_deletes@ == taken + fresh(taken, gone@, i as int),
            fixes_view(fixes@) == base + deletions_of(fresh(taken, gone@, i as int)),
        decreases gone@.len() - i,
    {
        let seg = gone[i];
        let ghost sofar = fresh(taken, gone@, i as int);
        if !holds(&all_deletes, seg) {
            let ghost prev = fixes_view(fixes@);
            let fix = LintFix::delete(seg);
            fixes.push(fix);
            all_deletes.push(seg);
            proof {
                assert(fixes_view(fixes@) =~= prev.push(fix@));
                assert(deletions_of(sofar.push(seg)) =~= deletions_of(sofar).push(deletion(seg)));
                assert(fixes_view(fixes@) =~= base + deletions_of(sofar.push(seg)));
                assert(all_deletes@ =~= taken + sofar.push(seg));
            }
        }
        i = i + 1;
    }
}

impl RuleLT09 {
    /// The rule under which a lone wildcard is a single target.
    pub open spec fn default_spec() -> RuleLT09 {
        RuleLT09 { wildcard_policy: WildcardPolicy::Single }
    }

    /// This rule as one of the rules.
    pub fn erased(self) -> (out: ErasedRule)
        ensures
            out == ErasedRule::LT09(self),
    {
        ErasedRule::LT09(self)
    }

    /// Finds where the parts of the select clause stand.
    pub fn get_indexes(cx: &RuleContext) -> (out: Result<SelectTargetsInfo, RuleEvalFault>)
        requires
            cx.wf(),
        ensures
            match out {
                Ok(info) => targets_info(cx.arena@, cx@) == Some(info@) && all_below(
                    info.select_targets@,
                    cx.arena@.len(),
                ),
                Err(fault) => targets_info(cx.arena@, cx@) is None && fault.segment == cx.segment,
            },
    {
        let fault = RuleEvalFault { segment: cx.segment };
        let children = cx.children();
        let select_targets = children.select_if(&is_type("select_clause_element"));
        let first_select_target_idx = place(&children, &select_targets);
        let selects = children.select_if(&is_keyword("select"));
        let select_idx = place(&children, &selects);
        let newlines = children.select_if(&is_type("newline"));
        let first_new_line_idx = place(&children, &newlines);
        let mut comment_after_select_idx: Option<usize> = None;
        if !newlines.is_empty() {
            let comment_after_select = match children.select(
                Some(&is_comment()),
                Some(&or(or(is_comment(), is_type("whitespace")), is_meta())),
                selects.get(0),
                newlines.get(0),
            ) {
                Ok(found) => found,
                Err(_) => {
                    return Err(fault);
                },
            };
            comment_after_select_idx = place(&children, &comment_after_select);
        }
        let mut first_whitespace_idx: Option<usize> = None;
        if let Some(line) = first_new_line_idx {
            let segments_after_first_line = match children.select(
                Some(&is_type("whitespace")),
                None,
                Some(children.items[line]),
                None,
            ) {
                Ok(found) => found,
                Err(_) => {
                    return Err(fault);
                },
            };
            first_whitespace_idx = place(&children, &segments_after_first_line);
        }
        let siblings_post = cx.siblings_post();
        let from_segment = siblings_post.select_if(&is_type("from_clause")).get(0);
        let pre_from_whitespace = match siblings_post.select(
            Some(&is_type("whitespace")),
            None,
            None,
            from_segment,
        ) {
            Ok(found) => found,
            Err(_) => {
                return Err(fault);
            },
        };
        Ok(
            SelectTargetsInfo {
                select_idx,
                first_new_line_idx,
                first_select_target_idx,
                first_whitespace_idx,
                comment_after_select_idx,
                select_targets: select_targets.items,
                from_segment,
                pre_from_whitespace: pre_from_whitespace.items,
            },
        )
    }

    /// The edits that clean up behind the select clause: what is left
    /// between `start_seg` and `stop_seg` moves behind the clause.
    fn fixes_for_move_after_select_clause(
        cx: &RuleContext,
        select_children: &Segments,
        fixes: &mut Vec<LintFix>,
        start_seg: usize,
        stop_seg: usize,
        delete_segments: &Vec<usize>,
        add_newline: bool,
    ) -> (out: bool)
        requires
            cx.wf(),
            select_children.wf(),
            select_children.arena == cx.arena,
        ensures
            match move_after_clause(
                cx.arena@,
                cx.segment,
                select_children@,
                fixes_view(old(fixes)@),
                start_seg,
                stop_seg,
                delete_segments@,
                add_newline,
            ) {
                Some(more) => out && fixes_view(final(fixes)@) == fixes_view(old(fixes)@) + more,
                None => !out,
            },
    {
        let ghost base = fixes_view(fixes@);
        let move_after_select_clause = match select_children.select(
            None,
            None,
            Some(start_seg),
            Some(stop_seg),
        ) {
            Ok(found) => found,
            Err(_) => {
                return false;
            },
        };
        let mut gone = crate::segment::copy_range(delete_segments, 0, delete_segments.len());
        let mut moved = crate::segment::copy_range(
            &move_after_select_clause.items,
            0,
            move_after_select_clause.items.len(),
        );
        proof {
            assert(delete_segments@.subrange(0, delete_segments@.len() as int)
                == delete_segments@);
            assert(move_after_select_clause@.subrange(0, move_after_select_clause@.len() as int)
                == move_after_select_clause@);
        }
        gone.append(&mut moved);
        delete_fresh(fixes, &gone);
        if !move_after_select_clause.is_empty() || add_newline {
            let mut lead: Vec<EditSegment> = Vec::new();
            if add_newline {
                lead.push(EditSegment::newline());
            }
            let tail = existing_edit(&move_after_select_clause.items);
            let ghost lead_view = edits_view(lead@);
            let ghost tail_view = edits_view(tail@);
            let edit = chain_collect(lead, tail);
            proof {
                assert(edits_view(edit@) =~= lead_view + tail_view);
                assert(lead_view =~= (if add_newline {
                    seq![line_break()]
                } else {
                    Seq::empty()
                }));
            }
            let ghost prev = fixes_view(fixes@);
            let fix = LintFix::create_after(cx.segment, edit);
            fixes.push(fix);
            proof {
                assert(fixes_view(fixes@) =~= prev.push(fix@));
                assert(fixes_view(fixes@) =~= base + move_after_clause(
                    cx.arena@,
                    cx.segment,
                    select_children@,
                    base,
                    start_seg,
                    stop_seg,
                    delete_segments@,
                    add_newline,
                ).unwrap());
            }
        } else {
            proof {
                assert(fixes_view(fixes@) =~= base + move_after_clause(
                    cx.arena@,
                    cx.segment,
                    select_children@,
                    base,
                    start_seg,
                    stop_seg,
                    delete_segments@,
                    add_newline,
                ).unwrap());
            }
        }
        true
    }

    /// The edits that tidy up behind a select clause whose statement
    /// goes on with the line break `line_after_clause`.
    fn tidy_after_clause(
        cx: &RuleContext,
        select_children: &Segments,
        fixes: &mut Vec<LintFix>,
        start_idx: usize,
        first_new_line_idx: usize,
        line_after_clause: usize,
    ) -> (out: bool)
        requires
            cx.wf(),
            select_children.wf(),
            select_children.arena == cx.arena,
            start_idx < select_children@.len(),
            first_new_line_idx < select_children@.len(),
        ensures
            match after_clause_fixes(
                cx.arena@,
                cx.segment,
                select_children@,
                fixes_view(old(fixes)@),
                start_idx,
                first_new_line_idx,
                line_after_clause,
            ) {
                Some(all) => out && fixes_view(final(fixes)@) == all,
                None => !out,
            },
    {
        let ghost base = fixes_view(fixes@);
        let to_delete = match select_children.reversed().select(
            None,
            Some(&is_type("whitespace")),
            Some(select_children.items[start_idx]),
            None,
        ) {
            Ok(found) => found,
            Err(_) => {
                return false;
            },
        };
        if to_delete.is_empty() {
            return true;
        }
        let n = to_delete.len();
        if start_idx <= n {
            return false;
        }
        let delete_last_newline = cx.arena.is_type(
            select_children.items[start_idx - n - 1],
            "newline",
        );
        if delete_last_newline {
            let fix = LintFix::delete(line_after_clause);
            fixes.push(fix);
            proof {
                assert(fixes_view(fixes@) =~= base.push(fix@));
            }
        }
        let stop_seg = to_delete.items[n - 1];
        Self::fixes_for_move_after_select_clause(
            cx,
            select_children,
            fixes,
            select_children.items[first_new_line_idx],
            stop_seg,
            &to_delete.items,
            true,
        )
    }

    /// Evaluates a select clause with a single target.
    pub fn eval_single_select_target_element(
        &self,
        select_targets_info: &SelectTargetsInfo,
        cx: &RuleContext,
    ) -> (out: Result<Vec<LintResult>, RuleEvalFault>)
        requires
            cx.wf(),
        ensures
            match out {
                Ok(found) => single_target_findings(cx.arena@, cx@, select_targets_info@) == Ok::<
                    Seq<LintResultData>,
                    RuleEvalFault,
                >(results_view(found@)),
                Err(fault) => single_target_findings(cx.arena@, cx@, select_targets_info@)
                    == Err::<Seq<LintResultData>, RuleEvalFault>(fault),
            },
    {
        let mut found: Vec<LintResult> = Vec::new();
        proof {
            assert(results_view(found@) =~= Seq::<LintResultData>::empty());
        }
        let fault = RuleEvalFault { segment: cx.segment };
        if !(is_place_before(
            select_targets_info.select_idx,
            select_targets_info.first_new_line_idx,
        ) && is_place_before(
            select_targets_info.first_new_line_idx,
            select_targets_info.first_select_target_idx,
        )) {
            return Ok(found);
        }
        let target_idx = match select_targets_info.first_select_target_idx {
            Some(i) => i,
            None => {
                return Err(fault);
            },
        };
        let line_idx = match select_targets_info.first_new_line_idx {
            Some(i) => i,
            None => {
                return Err(fault);
            },
        };
        let select_children = cx.children();
        if target_idx >= select_children.len() || line_idx >= select_children.len() {
            return Err(fault);
        }
        let modifier = select_children.select_if(&is_type("select_clause_modifier"));
        if !modifier.is_empty() {
            return Err(fault);
        }
        let target = select_children.items[target_idx];
        let mut insert_buff: Vec<EditSegment> = Vec::new();
        insert_buff.push(EditSegment::whitespace(" "));
        insert_buff.push(EditSegment::Existing(target));
        proof {
            assert(edits_view(insert_buff@) =~= seq![
                EditSegmentData::New { kind: "whitespace"@, raw: " "@ },
                EditSegmentData::Existing(target),
            ]);
        }
        let mut fixes: Vec<LintFix> = Vec::new();
        fixes.push(LintFix::delete(target));
        proof {
            assert(fixes_view(fixes@) =~= seq![deletion(target)]);
        }
        let start_idx = target_idx;
        match cx.parent() {
            Some(select_stmt) => {
                if cx.arena.is_type(select_stmt, "select_statement") {
                    let around = cx.arena.children(select_stmt);
                    let select_clause_idx = match index_in(
                        around,
                        cx.segment,
                    ) {
                        Some(i) => i,
                        None => {
                            return Err(fault);
                        },
                    };
                    let total = around.len();
                    let after_select_clause_idx = select_clause_idx + 1;
                    if total > after_select_clause_idx {
                        let next = around[after_select_clause_idx];
                        if cx.arena.is_type(next, "newline") {
                            if !Self::tidy_after_clause(
                                cx,
                                &select_children,
                                &mut fixes,
                                start_idx,
                                line_idx,
                                next,
                            ) {
                                return Err(fault);
                            }
                        } else {
                            return Err(fault);
                        }
                    }
                }
            },
            None => {},
        }
        if select_targets_info.comment_after_select_idx.is_none() {
            let ghost prev = fixes_view(fixes@);
            let fix = LintFix::replace(select_children.items[line_idx], insert_buff);
            fixes.push(fix);
            proof {
                assert(fixes_view(fixes@) =~= prev.push(fix@));
            }
        } else {
            fixes = Vec::new();
            proof {
                assert(fixes_view(fixes@) =~= Seq::<LintFixData>::empty());
            }
        }
        let violation = LintResult::new(cx.segment, fixes, None, Vec::new());
        found.push(violation);
        proof {
            assert(results_view(found@) =~= seq![violation@]);
        }
        Ok(found)
    }

    /// Evaluates a select clause with several targets. Nothing is
    /// reported on it.
    pub fn eval_multiple_select_target_elements(
        &self,
        select_targets_info: &SelectTargetsInfo,
        segment: usize,
    ) -> (out: Vec<LintResult>)
        ensures
            results_view(out@) == Seq::<LintResultData>::empty(),
    {
        let fixes: Vec<LintResult> = Vec::new();
        proof {
            assert(results_view(fixes@) =~= Seq::<LintResultData>::empty());
        }
        fixes
    }
}

impl Default for RuleLT09 {
    fn default() -> (out: RuleLT09)
        ensures
            out == RuleLT09::default_spec(),
    {
        RuleLT09 { wildcard_policy: WildcardPolicy::Single }
    }
}

impl Rule for RuleLT09 {
    open spec fn name_spec(&self) -> Seq<char> {
        "layout.select_targets"@
    }

    open spec fn description_spec(&self) -> Seq<char> {
        "Select targets should be on a new line unless there is only one select target."@
    }

    open spec fn crawl_targets(&self) -> CrawlerData {
        seeker_of("select_clause"@)
    }

    open spec fn load_spec(&self, entries: Map<Seq<char>, ValueData>) -> Result<
        ErasedRule,
        Seq<char>,
    > {
        match policy_option(entries) {
            Ok(wildcard_policy) => Ok(ErasedRule::LT09(RuleLT09 { wildcard_policy })),
            Err(_) => Err("wildcard_policy"@),
        }
    }

    open spec fn eval_spec(
        &self,
        a: Seq<SegmentData>,
        cx: ContextData,
        dialect: Seq<char>,
        entries: Map<Seq<char>, ValueData>,
    ) -> Result<Seq<LintResultData>, RuleEvalFault> {
        match targets_info(a, cx) {
            Some(info) => if info.select_targets.len() == 1 && (!has_wildcard(
                a,
                info.select_targets,
            ) || self.wildcard_policy == WildcardPolicy::Single) {
                single_target_findings(a, cx, info)
            } else {
                Ok(Seq::empty())
            },
            None => Err(RuleEvalFault { segment: cx.segment }),
        }
    }

    fn name(&self) -> (out: &'static str) {
        "layout.select_targets"
    }

    fn description(&self) -> (out: &'static str) {
        "Select targets should be on a new line unless there is only one select target."
    }

    fn crawl_behaviour(&self) -> (out: Crawler) {
        SegmentSeekerCrawler::for_type("select_clause")
    }

    fn load_from_config(&self, config: &AHashMap<String, Value>) -> (out: Result<
        ErasedRule,
        ConfigError,
    >) {
        match config_get(config, "wildcard_policy") {
            None => Ok(RuleLT09 { wildcard_policy: WildcardPolicy::Single }.erased()),
            Some(Value::String(s)) => {
                if str_eq(s.as_str(), "single") {
                    Ok(RuleLT09 { wildcard_policy: WildcardPolicy::Single }.erased())
                } else if str_eq(s.as_str(), "multiple") {
                    Ok(RuleLT09 { wildcard_policy: WildcardPolicy::Multiple }.erased())
                } else {
                    Err(ConfigError { option: String::from_str("wildcard_policy") })
                }
            },
            Some(_) => Err(ConfigError { option: String::from_str("wildcard_policy") }),
        }
    }

    fn eval(&self, cx: &RuleContext) -> (out: Result<Vec<LintResult>, RuleEvalFault>) {
        let select_targets_info = match Self::get_indexes(cx) {
            Ok(info) => info,
            Err(fault) => {
                return Err(fault);
            },
        };
        let targets = Segments::new(
            cx.arena,
            crate::segment::copy_range(
                &select_targets_info.select_targets,
                0,
                select_targets_info.select_targets.len(),
            ),
        );
        proof {
            assert(select_targets_info.select_targets@.subrange(
                0,
                select_targets_info.select_targets@.len() as int,
            ) == select_targets_info.select_targets@);
        }
        let wildcards = targets.children(Some(&is_type("wildcard_expression")));
        let has_wildcard = !wildcards.is_empty();
        if select_targets_info.select_targets.len() == 1 && (!has_wildcard || matches!(
            self.wildcard_policy,
            WildcardPolicy::Single
        )) {
            return self.eval_single_select_target_element(&select_targets_info, cx);
        } else if select_targets_info.select_targets.len() > 0 {
            return Ok(self.eval_multiple_select_target_elements(&select_targets_info, cx.segment));
        }
        let none: Vec<LintResult> = Vec::new();
        proof {
            assert(results_view(none@) =~= Seq::<LintResultData>::empty());
        }
        Ok(none)
    }
}

} // verus!
