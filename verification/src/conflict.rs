//! Which of the proposed fixes of one crawl cycle are applied.
//!
//! The fixes of one violation stand or fall together. A violation whose
//! fixes name a segment that is not in the tree is stale. A violation
//! whose anchors touch those of a violation accepted before it, in the
//! same cycle, is deferred: the next cycle proposes it again on the new
//! tree.

use vstd::prelude::*;
use vstd::string::*;
use crate::apply::{items_ok, plan_ok};
use crate::fix::{
    edits_view, fixes_view, results_view, EditSegment, EditSegmentData, LintFix, LintFixData,
    LintResult, LintResultData,
};
use crate::query::all_below;
use crate::segment::{in_subtree, is_descendant, SegmentArena, SegmentData};

verus! {

/// What became of the fixes of one violation.
#[derive(Debug, Clone, Copy, PartialEq, Eq, Structural)]
pub enum FixDecision {
    /// The violation proposes no fix.
    NoFix,
    /// The fixes are applied in this cycle.
    Accepted,
    /// A fix names a segment that is not in the tree: none is applied.
    Stale,
    /// An anchor touches one of a violation accepted earlier in the
    /// cycle: none is applied in this cycle.
    Deferred,
}

/// The fix can be applied to the tree below `root`: its anchor lies
/// strictly below the root, and what it takes from the arena is there.
pub open spec fn fix_valid(a: Seq<SegmentData>, root: usize, f: LintFixData) -> bool {
    f.anchor < a.len() && is_descendant(a, root as int, f.anchor) && items_ok(a.len(), f.edit)
}

/// Every fix of the group can be applied.
pub open spec fn group_valid(a: Seq<SegmentData>, root: usize, g: Seq<LintFixData>) -> bool {
    forall|i: int| 0 <= i < g.len() ==> fix_valid(a, root, #[trigger] g[i])
}

/// One of the two segments is the other or lies below it.
pub open spec fn comparable(a: Seq<SegmentData>, x: usize, y: usize) -> bool {
    in_subtree(a, x as int, y) || in_subtree(a, y as int, x)
}

/// Segment `x` touches one of the anchors taken.
pub open spec fn clashes(a: Seq<SegmentData>, x: usize, taken: Seq<usize>) -> bool {
    exists|j: int| 0 <= j < taken.len() && comparable(a, x, #[trigger] taken[j])
}

/// An anchor of the group touches one of the anchors taken.
pub open spec fn group_clashes(
    a: Seq<SegmentData>,
    g: Seq<LintFixData>,
    taken: Seq<usize>,
) -> bool {
    exists|i: int| 0 <= i < g.len() && clashes(a, (#[trigger] g[i]).anchor, taken)
}

/// The decision on one group of fixes, given the anchors taken before.
pub open spec fn decide(
    a: Seq<SegmentData>,
    root: usize,
    g: Seq<LintFixData>,
    taken: Seq<usize>,
) -> FixDecision {
    if g.len() == 0 {
        FixDecision::NoFix
    } else if !group_valid(a, root, g) {
        FixDecision::Stale
    } else if group_clashes(a, g, taken) {
        FixDecision::Deferred
    } else {
        FixDecision::Accepted
    }
}

/// The anchors of a group of fixes.
pub open spec fn anchors_of(g: Seq<LintFixData>) -> Seq<usize> {
    g.map_values(|f: LintFixData| f.anchor)
}

/// The fix groups of a list of violations.
pub open spec fn groups_of(results: Seq<LintResultData>) -> Seq<Seq<LintFixData>> {
    results.map_values(|r: LintResultData| r.fixes)
}

/// The anchors of the groups accepted among the first `n`.
pub open spec fn taken_after(
    a: Seq<SegmentData>,
    root: usize,
    groups: Seq<Seq<LintFixData>>,
    n: int,
) -> Seq<usize>
    decreases n,
{
    if n <= 0 || n > groups.len() {
        Seq::empty()
    } else {
        let before = taken_after(a, root, groups, n - 1);
        if decide(a, root, groups[n - 1], before) == FixDecision::Accepted {
            before + anchors_of(groups[n - 1])
        } else {
            before
        }
    }
}

/// The decisions on the first `n` groups, taken in order.
pub open spec fn decisions(
    a: Seq<SegmentData>,
    root: usize,
    groups: Seq<Seq<LintFixData>>,
    n: int,
) -> Seq<FixDecision>
    decreases n,
{
    if n <= 0 || n > groups.len() {
        Seq::empty()
    } else {
        decisions(a, root, groups, n - 1).push(
            decide(a, root, groups[n - 1], taken_after(a, root, groups, n - 1)),
        )
    }
}

/// The fixes of the groups accepted among the first `n`, in order.
pub open spec fn accepted_plan(
    a: Seq<SegmentData>,
    root: usize,
    groups: Seq<Seq<LintFixData>>,
    n: int,
) -> Seq<LintFixData>
    decreases n,
{
    if n <= 0 || n > groups.len() {
        Seq::empty()
    } else {
        let before = accepted_plan(a, root, groups, n - 1);
        if decide(a, root, groups[n - 1], taken_after(a, root, groups, n - 1))
            == FixDecision::Accepted {
            before + groups[n - 1]
        } else {
            before
        }
    }
}

/// Whether the arena holds every segment that `items` takes from it.
pub fn items_in_arena(arena: &SegmentArena, items: &Vec<EditSegment>) -> (yes: bool)
    ensures
        yes == items_ok(arena@.len(), edits_view(items@)),
{
    let n = arena.len();
    let mut i: usize = 0;
    while i < items.len()
        invariant
            n == arena@.len(),
            0 <= i <= items@.len(),
            items_ok(n as nat, edits_view(items@).take(i as int)),
        decreases items@.len() - i,
    {
        match &items[i] {
            EditSegment::Existing(id) => {
                if *id >= n {
                    assert(edits_view(items@)[i as int] == items@[i as int]@);
                    return false;
                }
            },
            EditSegment::New { .. } => {},
        }
        proof {
            assert forall|k: int| 0 <= k < i + 1 implies (#[trigger] edits_view(items@).take(
                i + 1,
            )[k] matches EditSegmentData::Existing(id) ==> id < n) by {
                if k < i {
                    assert(edits_view(items@).take(i as int)[k] == edits_view(items@).take(
                        i + 1,
                    )[k]);
                } else {
                    assert(edits_view(items@)[i as int] == items@[i as int]@);
                }
            }
        }
        i = i + 1;
    }
    proof {
        assert(edits_view(items@).take(i as int) == edits_view(items@));
    }
    true
}

/// Whether the fix can be applied to the tree below `root`.
pub fn fix_is_valid(arena: &SegmentArena, root: usize, fix: &LintFix) -> (yes: bool)
    requires
        arena.wf(),
        root < arena@.len(),
    ensures
        yes == fix_valid(arena@, root, fix@),
{
    fix.anchor < arena.len() && arena.has_descendant(root, fix.anchor) && items_in_arena(
        arena,
        &fix.edit,
    )
}

/// Whether every fix of the group can be applied.
pub fn group_is_valid(arena: &SegmentArena, root: usize, fixes: &Vec<LintFix>) -> (yes: bool)
    requires
        arena.wf(),
        root < arena@.len(),
    ensures
        yes == group_valid(arena@, root, fixes_view(fixes@)),
{
    let mut i: usize = 0;
    while i < fixes.len()
        invariant
            arena.wf(),
            root < arena@.len(),
            0 <= i <= fixes@.len(),
            forall|k: int| 0 <= k < i ==> fix_valid(arena@, root, #[trigger] fixes_view(fixes@)[k]),
        decreases fixes@.len() - i,
    {
        assert(fixes_view(fixes@)[i as int] == fixes@[i as int]@);
        if !fix_is_valid(arena, root, &fixes[i]) {
            return false;
        }
        i = i + 1;
    }
    true
}

/// Whether segment `x` touches one of the anchors taken.
pub fn touches_taken(arena: &SegmentArena, x: usize, taken: &Vec<usize>) -> (yes: bool)
    requires
        arena.wf(),
        x < arena@.len(),
        all_below(taken@, arena@.len()),
    ensures
        yes == clashes(arena@, x, taken@),
{
    let mut j: usize = 0;
    while j < taken.len()
        invariant
            arena.wf(),
            x < arena@.len(),
            all_below(taken@, arena@.len()),
            0 <= j <= taken@.len(),
            forall|k: int| 0 <= k < j ==> !comparable(arena@, x, #[trigger] taken@[k]),
        decreases taken@.len() - j,
    {
        if arena.in_subtree(x, taken[j]) || arena.in_subtree(taken[j], x) {
            return true;
        }
        j = j + 1;
    }
    false
}

/// Whether an anchor of the group touches one of the anchors taken.
pub fn group_touches_taken(arena: &SegmentArena, fixes: &Vec<LintFix>, taken: &Vec<usize>) -> (yes:
    bool)
    requires
        arena.wf(),
        all_below(taken@, arena@.len()),
        forall|i: int| 0 <= i < fixes@.len() ==> (#[trigger] fixes@[i]).anchor < arena@.len(),
    ensures
        yes == group_clashes(arena@, fixes_view(fixes@), taken@),
{
    let mut i: usize = 0;
    while i < fixes.len()
        invariant
            arena.wf(),
            all_below(taken@, arena@.len()),
            forall|i: int| 0 <= i < fixes@.len() ==> (#[trigger] fixes@[i]).anchor < arena@.len(),
            0 <= i <= fixes@.len(),
            forall|k: int|
                0 <= k < i ==> !clashes(arena@, (#[trigger] fixes_view(fixes@)[k]).anchor, taken@),
        decreases fixes@.len() - i,
    {
        assert(fixes_view(fixes@)[i as int] == fixes@[i as int]@);
        if touches_taken(arena, fixes[i].anchor, taken) {
            return true;
        }
        i = i + 1;
    }
    false
}

/// Decides on one group of fixes, given the anchors taken before.
pub fn decide_group(
    arena: &SegmentArena,
    root: usize,
    fixes: &Vec<LintFix>,
    taken: &Vec<usize>,
) -> (d:
    FixDecision)
    requires
        arena.wf(),
        root < arena@.len(),
        all_below(taken@, arena@.len()),
    ensures
        d == decide(arena@, root, fixes_view(fixes@), taken@),
{
    if fixes.len() == 0 {
        FixDecision::NoFix
    } else if !group_is_valid(arena, root, fixes) {
        FixDecision::Stale
    } else {
        proof {
            assert forall|i: int| 0 <= i < fixes@.len() implies (#[trigger] fixes@[i]).anchor
                < arena@.len() by {
                assert(fix_valid(arena@, root, fixes_view(fixes@)[i]));
            }
        }
        if group_touches_taken(arena, fixes, taken) {
            FixDecision::Deferred
        } else {
            FixDecision::Accepted
        }
    }
}

/// Decides, violation by violation and in order, whose fixes are applied
/// in this cycle, and gathers the fixes accepted into one plan.
///
/// Every fix of an accepted violation names a segment that lies in the
/// tree below `root`, as the tree is when the call is made.
pub fn select_fixes(arena: &SegmentArena, root: usize, results: &Vec<LintResult>) -> (out: (
    Vec<FixDecision>,
    Vec<LintFix>,
))
    requires
        arena.wf(),
        root < arena@.len(),
    ensures
        out.0@.len() == results@.len(),
        out.0@ == decisions(
            arena@,
            root,
            groups_of(results_view(results@)),
            results@.len() as int,
        ),
        fixes_view(out.1@) == accepted_plan(
            arena@,
            root,
            groups_of(results_view(results@)),
            results@.len() as int,
        ),
        plan_ok(arena@.len(), fixes_view(out.1@)),
        forall|i: int, j: int|
            0 <= i < results@.len() && out.0@[i] == FixDecision::Accepted && 0 <= j
                < results@[i].fixes@.len() ==> is_descendant(
                arena@,
                root as int,
                (#[trigger] results@[i].fixes@[j]).anchor,
            ),
{
    let ghost a = arena@;
    let ghost groups = groups_of(results_view(results@));
    let mut ds: Vec<FixDecision> = Vec::new();
    let mut plan: Vec<LintFix> = Vec::new();
    let mut taken: Vec<usize> = Vec::new();
    let mut i: usize = 0;
    proof {
        assert(fixes_view(plan@) =~= Seq::<LintFixData>::empty());
    }
    while i < results.len()
        invariant
            arena.wf(),
            a == arena@,
            root < a.len(),
            groups == groups_of(results_view(results@)),
            0 <= i <= results@.len(),
            all_below(taken@, a.len()),
            taken@ == taken_after(a, root, groups, i as int),
            ds@.len() == i,
            ds@ == decisions(a, root, groups, i as int),
            fixes_view(plan@) == accepted_plan(a, root, groups, i as int),
            plan_ok(a.len(), fixes_view(plan@)),
            forall|r: int, j: int|
                0 <= r < i && ds@[r] == FixDecision::Accepted && 0 <= j < results@[r].fixes@.len()
                    ==> is_descendant(a, root as int, (#[trigger] results@[r].fixes@[j]).anchor),
        decreases results@.len() - i,
    {
        let fixes = &results[i].fixes;
        let ghost g = fixes_view(fixes@);
        proof {
            assert(groups[i as int] == results_view(results@)[i as int].fixes);
            assert(results_view(results@)[i as int] == results@[i as int]@);
            assert(groups[i as int] == g);
        }
        let d = decide_group(arena, root, fixes, &taken);
        ds.push(d);
        if d == FixDecision::Accepted {
            let ghost taken0 = taken@;
            let ghost plan0 = fixes_view(plan@);
            let mut j: usize = 0;
            proof {
                assert(taken0 + anchors_of(g.take(0)) =~= taken0);
                assert(plan0 + g.take(0) =~= plan0);
            }
            while j < fixes.len()
                invariant
                    a == arena@,
                    g == fixes_view(fixes@),
                    group_valid(a, root, g),
                    0 <= j <= fixes@.len(),
                    all_below(taken@, a.len()),
                    taken@ == taken0 + anchors_of(g.take(j as int)),
                    fixes_view(plan@) == plan0 + g.take(j as int),
                    plan_ok(a.len(), fixes_view(plan@)),
                decreases fixes@.len() - j,
            {
                let ghost before = fixes_view(plan@);
                assert(g[j as int] == fixes@[j as int]@);
                assert(fix_valid(a, root, g[j as int]));
                taken.push(fixes[j].anchor);
                plan.push(fixes[j].duplicate());
                proof {
                    assert(taken@ =~= taken0 + anchors_of(g.take(j + 1)));
                    assert(fixes_view(plan@) =~= before.push(g[j as int]));
                    assert(fixes_view(plan@) =~= plan0 + g.take(j + 1));
                    assert forall|k: int| 0 <= k < fixes_view(plan@).len() implies items_ok(
                        a.len(),
                        (#[trigger] fixes_view(plan@)[k]).edit,
                    ) by {
                        if k < before.len() {
                            assert(fixes_view(plan@)[k] == before[k]);
                        }
                    }
                }
                j = j + 1;
            }
            proof {
                assert(g.take(j as int) == g);
                assert forall|j: int| 0 <= j < results@[i as int].fixes@.len() implies is_descendant(
                    a,
                    root as int,
                    (#[trigger] results@[i as int].fixes@[j]).anchor,
                ) by {
                    assert(fix_valid(a, root, g[j]));
                    assert(g[j] == fixes@[j]@);
                }
            }
        }
        i = i + 1;
    }
    (ds, plan)
}

/// Anchor validity: every fix that is accepted names a segment that
/// lies in the tree below `root`, and takes from the arena only what is
/// there.
pub proof fn lemma_accepted_fixes_are_valid(
    a: Seq<SegmentData>,
    root: usize,
    groups: Seq<Seq<LintFixData>>,
    n: int,
)
    ensures
        forall|i: int|
            0 <= i < accepted_plan(a, root, groups, n).len() ==> fix_valid(
                a,
                root,
                #[trigger] accepted_plan(a, root, groups, n)[i],
            ),
    decreases n,
{
    if 0 < n <= groups.len() {
        lemma_accepted_fixes_are_valid(a, root, groups, n - 1);
        let before = accepted_plan(a, root, groups, n - 1);
        let all = accepted_plan(a, root, groups, n);
        let g = groups[n - 1];
        if decide(a, root, g, taken_after(a, root, groups, n - 1)) == FixDecision::Accepted {
            assert forall|i: int| 0 <= i < all.len() implies fix_valid(
                a,
                root,
                #[trigger] all[i],
            ) by {
                if i < before.len() {
                    assert(all[i] == before[i]);
                } else {
                    assert(all[i] == g[i - before.len()]);
                }
            }
        }
    }
}

/// The anchors of a group accepted among the first `n` stay taken.
pub proof fn lemma_taken_stays(
    a: Seq<SegmentData>,
    root: usize,
    groups: Seq<Seq<LintFixData>>,
    i: int,
    n: int,
    x: int,
)
    requires
        0 <= i < n <= groups.len(),
        decisions(a, root, groups, n)[i] == FixDecision::Accepted,
        0 <= x < groups[i].len(),
    ensures
        taken_after(a, root, groups, n).contains(groups[i][x].anchor),
    decreases n,
{
    lemma_decisions_prefix(a, root, groups, i, n);
    let before = taken_after(a, root, groups, n - 1);
    let all = taken_after(a, root, groups, n);
    if i < n - 1 {
        lemma_decisions_prefix(a, root, groups, i, n - 1);
        lemma_taken_stays(a, root, groups, i, n - 1, x);
        let at = choose|at: int| 0 <= at < before.len() && before[at] == groups[i][x].anchor;
        if decide(a, root, groups[n - 1], before) == FixDecision::Accepted {
            assert(all[at] == before[at]);
        }
    } else {
        assert(anchors_of(groups[i])[x] == groups[i][x].anchor);
        assert(all[before.len() + x] == groups[i][x].anchor);
    }
}

/// The decision on a group does not depend on the groups behind it.
pub proof fn lemma_decisions_prefix(
    a: Seq<SegmentData>,
    root: usize,
    groups: Seq<Seq<LintFixData>>,
    i: int,
    n: int,
)
    requires
        0 <= i < n <= groups.len(),
    ensures
        decisions(a, root, groups, n).len() == n,
        decisions(a, root, groups, n)[i] == decide(
            a,
            root,
            groups[i],
            taken_after(a, root, groups, i),
        ),
    decreases n,
{
    lemma_decisions_len(a, root, groups, n - 1);
    if i < n - 1 {
        lemma_decisions_prefix(a, root, groups, i, n - 1);
    }
}

/// There is one decision for each group.
pub proof fn lemma_decisions_len(
    a: Seq<SegmentData>,
    root: usize,
    groups: Seq<Seq<LintFixData>>,
    n: int,
)
    requires
        0 <= n <= groups.len(),
    ensures
        decisions(a, root, groups, n).len() == n,
    decreases n,
{
    if n > 0 {
        lemma_decisions_len(a, root, groups, n - 1);
    }
}

/// Fixes accepted in one cycle do not interact: where two violations are
/// both accepted, no anchor of the one is an anchor of the other, nor
/// lies above it or below it.
pub proof fn lemma_accepted_groups_are_apart(
    a: Seq<SegmentData>,
    root: usize,
    groups: Seq<Seq<LintFixData>>,
    i: int,
    j: int,
    x: int,
    y: int,
)
    requires
        0 <= i < j < groups.len(),
        decisions(a, root, groups, groups.len() as int)[i] == FixDecision::Accepted,
        decisions(a, root, groups, groups.len() as int)[j] == FixDecision::Accepted,
        0 <= x < groups[i].len(),
        0 <= y < groups[j].len(),
    ensures
        !comparable(a, groups[i][x].anchor, groups[j][y].anchor),
{
    let n = groups.len() as int;
    lemma_decisions_prefix(a, root, groups, i, n);
    lemma_decisions_prefix(a, root, groups, j, n);
    lemma_decisions_prefix(a, root, groups, i, j);
    lemma_taken_stays(a, root, groups, i, j, x);
    let taken = taken_after(a, root, groups, j);
    let at = choose|at: int| 0 <= at < taken.len() && taken[at] == groups[i][x].anchor;
    assert(!group_clashes(a, groups[j], taken));
    if comparable(a, groups[i][x].anchor, groups[j][y].anchor) {
        assert(comparable(a, groups[j][y].anchor, taken[at]));
        assert(clashes(a, groups[j][y].anchor, taken));
    }
}

} // verus!
