//! Fix application: how a set of edits turns a tree into a new one.
//!
//! An edit never changes a segment in place. The segments on the path
//! from an edited place up to the root are built anew, in fresh slots of
//! the arena, and every subtree that no edit touches is shared between
//! the old tree and the new one.

use vstd::prelude::*;
use vstd::string::*;
use crate::segment::copy_range;
use crate::fix::{edits_view, fixes_view, EditSegment, EditSegmentData, EditType, LintFix, LintFixData};
use crate::query::all_below;
use crate::segment::{
    arena_wf, extends, in_subtree, is_descendant, lemma_contains_concat, lemma_preorder_all_part,
    preorder, preorder_all, SegmentArena, SegmentData,
};

verus! {

/// Every segment that `items` takes from the arena is in its first `n`
/// slots.
pub open spec fn items_ok(n: nat, items: Seq<EditSegmentData>) -> bool {
    forall|i: int|
        0 <= i < items.len() ==> (#[trigger] items[i] matches EditSegmentData::Existing(id) ==> id
            < n)
}

/// Every edit of `plan` takes only segments in the first `n` slots.
pub open spec fn plan_ok(n: nat, plan: Seq<LintFixData>) -> bool {
    forall|i: int| 0 <= i < plan.len() ==> items_ok(n, (#[trigger] plan[i]).edit)
}

/// Puts `items` into arena `a`: a new leaf gets the next free slot, a
/// segment of the arena keeps its own. Gives the arena and the slots.
pub open spec fn place(a: Seq<SegmentData>, items: Seq<EditSegmentData>) -> (
    Seq<SegmentData>,
    Seq<usize>,
)
    decreases items.len(),
{
    if items.len() == 0 {
        (a, Seq::empty())
    } else {
        let (b, ids) = place(a, items.drop_last());
        match items.last() {
            EditSegmentData::Existing(id) => (b, ids.push(id)),
            EditSegmentData::New { kind, raw } => (
                b.push(SegmentData { kind, raw, children: Seq::empty() }),
                ids.push(b.len() as usize),
            ),
        }
    }
}

/// Placing two lists in turn is placing them joined.
pub proof fn lemma_place_concat(
    a: Seq<SegmentData>,
    s: Seq<EditSegmentData>,
    t: Seq<EditSegmentData>,
)
    ensures
        place(a, s + t).0 == place(place(a, s).0, t).0,
        place(a, s + t).1 == place(a, s).1 + place(place(a, s).0, t).1,
    decreases t.len(),
{
    if t.len() == 0 {
        assert(s + t =~= s);
        assert(place(a, s).1 + Seq::<usize>::empty() =~= place(a, s).1);
    } else {
        lemma_place_concat(a, s, t.drop_last());
        assert((s + t).drop_last() =~= s + t.drop_last());
        assert((s + t).last() == t.last());
        let b = place(a, s).0;
        let (c, ids) = place(b, t.drop_last());
        match t.last() {
            EditSegmentData::Existing(id) => {
                assert((place(a, s).1 + ids).push(id) =~= place(a, s).1 + ids.push(id));
            },
            EditSegmentData::New { kind, raw } => {
                assert((place(a, s).1 + ids).push(c.len() as usize) =~= place(a, s).1 + ids.push(
                    c.len() as usize,
                ));
            },
        }
    }
}

/// The segments that the edits of kind `which` at anchor `k` create, in
/// the order of the plan.
pub open spec fn created_items(plan: Seq<LintFixData>, k: usize, which: EditType) -> Seq<
    EditSegmentData,
>
    decreases plan.len(),
{
    if plan.len() == 0 {
        Seq::empty()
    } else {
        created_items(plan.drop_last(), k, which) + (if plan.last().anchor == k
            && plan.last().edit_type == which {
            plan.last().edit
        } else {
            Seq::empty()
        })
    }
}

/// The edit removes its anchor `k`: it deletes or replaces it.
pub open spec fn removes(f: LintFixData, k: usize) -> bool {
    f.anchor == k && (f.edit_type == EditType::Delete || f.edit_type == EditType::Replace)
}

/// What comes in the place of segment `k`, if the plan removes it: the
/// first edit that deletes or replaces `k` decides.
pub open spec fn removal(plan: Seq<LintFixData>, k: usize) -> Option<Seq<EditSegmentData>>
    decreases plan.len(),
{
    if plan.len() == 0 {
        None
    } else if removes(plan[0], k) {
        Some(
            if plan[0].edit_type == EditType::Delete {
                Seq::empty()
            } else {
                plan[0].edit
            },
        )
    } else {
        removal(plan.drop_first(), k)
    }
}

/// The outcome of rebuilding a run of children.
pub struct Rebuilt {
    pub arena: Seq<SegmentData>,
    pub kids: Seq<usize>,
    pub changed: bool,
}

/// Applies `plan` below segment `id`. A segment with an edit somewhere
/// below it is built anew over its new children, in the next free slot;
/// any other segment is kept as it is. Gives the arena and the slot of
/// the segment that stands for `id` afterwards.
pub open spec fn rebuild_spec(a: Seq<SegmentData>, id: int, plan: Seq<LintFixData>) -> (
    Seq<SegmentData>,
    usize,
)
    decreases id, 1int, 0int,
{
    if 0 <= id < a.len() {
        let r = rebuild_kids(a, a[id].children, a[id].children.len() as int, id, plan);
        if r.changed {
            (
                r.arena.push(SegmentData { kind: a[id].kind, raw: a[id].raw, children: r.kids }),
                r.arena.len() as usize,
            )
        } else {
            (r.arena, id as usize)
        }
    } else {
        (a, id as usize)
    }
}

/// Applies `plan` to the first `n` of the children `kids` of a segment
/// in slot `bound`. For each child in turn: what the plan creates before
/// it, then what replaces it or else the child rebuilt, then what the
/// plan creates after it.
pub open spec fn rebuild_kids(
    a: Seq<SegmentData>,
    kids: Seq<usize>,
    n: int,
    bound: int,
    plan: Seq<LintFixData>,
) -> Rebuilt
    decreases bound, 0int, n,
{
    if n <= 0 || n > kids.len() {
        Rebuilt { arena: a, kids: Seq::empty(), changed: false }
    } else {
        let prev = rebuild_kids(a, kids, n - 1, bound, plan);
        let k = kids[n - 1];
        let (a1, pre) = place(prev.arena, created_items(plan, k, EditType::CreateBefore));
        let (a2, mid, moved) = match removal(plan, k) {
            Some(items) => (place(a1, items).0, place(a1, items).1, true),
            None => if k < bound {
                let (b, k2) = rebuild_spec(a1, k as int, plan);
                (b, seq![k2], k2 != k)
            } else {
                (a1, seq![k], false)
            },
        };
        let (a3, post) = place(a2, created_items(plan, k, EditType::CreateAfter));
        Rebuilt {
            arena: a3,
            kids: prev.kids + pre + mid + post,
            changed: prev.changed || pre.len() > 0 || post.len() > 0 || moved,
        }
    }
}

/// Puts `items` into the arena and appends their slots to `out`.
pub fn place_items(arena: &mut SegmentArena, items: &Vec<EditSegment>, out: &mut Vec<usize>)
    requires
        old(arena).wf(),
        items_ok(old(arena)@.len(), edits_view(items@)),
        all_below(old(out)@, old(arena)@.len()),
    ensures
        final(arena).wf(),
        extends(final(arena)@, old(arena)@),
        all_below(final(out)@, final(arena)@.len()),
        final(arena)@ == place(old(arena)@, edits_view(items@)).0,
        final(out)@ == old(out)@ + place(old(arena)@, edits_view(items@)).1,
{
    let ghost a0 = arena@;
    let ghost out0 = out@;
    let ghost view = edits_view(items@);
    let mut j: usize = 0;
    proof {
        assert(out0 + Seq::<usize>::empty() =~= out0);
    }
    while j < items.len()
        invariant
            0 <= j <= items@.len(),
            view == edits_view(items@),
            arena.wf(),
            extends(arena@, a0),
            items_ok(a0.len(), view),
            all_below(out@, arena@.len()),
            arena@ == place(a0, view.take(j as int)).0,
            out@ == out0 + place(a0, view.take(j as int)).1,
        decreases items@.len() - j,
    {
        proof {
            assert(view.take(j + 1).drop_last() == view.take(j as int));
            assert(view.take(j + 1).last() == items@[j as int]@);
            assert(view[j as int] == items@[j as int]@);
        }
        let ghost ids = place(a0, view.take(j as int)).1;
        match &items[j] {
            EditSegment::Existing(id) => {
                out.push(*id);
                proof {
                    assert(out@ =~= out0 + ids.push(*id));
                }
            },
            EditSegment::New { kind, raw } => {
                let id = arena.add_leaf(kind.as_str(), raw.as_str());
                out.push(id);
                proof {
                    assert(out@ =~= out0 + ids.push(id));
                }
            },
        }
        j = j + 1;
    }
    proof {
        assert(view.take(j as int) == view);
    }
}

/// Puts into the arena what the edits of kind `which` at anchor `k`
/// create, and appends the slots to `out`.
fn place_created(
    arena: &mut SegmentArena,
    plan: &Vec<LintFix>,
    k: usize,
    which: EditType,
    out: &mut Vec<usize>,
)
    requires
        old(arena).wf(),
        plan_ok(old(arena)@.len(), fixes_view(plan@)),
        all_below(old(out)@, old(arena)@.len()),
    ensures
        final(arena).wf(),
        extends(final(arena)@, old(arena)@),
        all_below(final(out)@, final(arena)@.len()),
        final(arena)@ == place(old(arena)@, created_items(fixes_view(plan@), k, which)).0,
        final(out)@ == old(out)@ + place(
            old(arena)@,
            created_items(fixes_view(plan@), k, which),
        ).1,
{
    let ghost a0 = arena@;
    let ghost out0 = out@;
    let ghost view = fixes_view(plan@);
    let mut j: usize = 0;
    proof {
        assert(out0 + Seq::<usize>::empty() =~= out0);
    }
    while j < plan.len()
        invariant
            0 <= j <= plan@.len(),
            view == fixes_view(plan@),
            arena.wf(),
            extends(arena@, a0),
            plan_ok(a0.len(), view),
            all_below(out@, arena@.len()),
            arena@ == place(a0, created_items(view.take(j as int), k, which)).0,
            out@ == out0 + place(a0, created_items(view.take(j as int), k, which)).1,
        decreases plan@.len() - j,
    {
        let ghost sofar = created_items(view.take(j as int), k, which);
        proof {
            assert(view.take(j + 1).drop_last() == view.take(j as int));
            assert(view.take(j + 1).last() == plan@[j as int]@);
            assert(view[j as int] == plan@[j as int]@);
            assert(sofar + Seq::<EditSegmentData>::empty() =~= sofar);
        }
        if plan[j].anchor == k && plan[j].edit_type == which {
            proof {
                lemma_place_concat(a0, sofar, plan@[j as int]@.edit);
                assert(items_ok(a0.len(), view[j as int].edit));
            }
            let ghost ids = place(arena@, plan@[j as int]@.edit).1;
            let ghost before = out@;
            place_items(arena, &plan[j].edit, out);
            proof {
                assert(out@ =~= out0 + (place(a0, sofar).1 + ids));
            }
        }
        j = j + 1;
    }
    proof {
        assert(view.take(j as int) == view);
    }
}

/// Puts into the arena what the plan has in the place of segment `k`, if
/// it removes `k`, and appends the slots to `out`. Tells whether it did.
fn place_removal(
    arena: &mut SegmentArena,
    plan: &Vec<LintFix>,
    k: usize,
    out: &mut Vec<usize>,
) -> (removed:
    bool)
    requires
        old(arena).wf(),
        plan_ok(old(arena)@.len(), fixes_view(plan@)),
        all_below(old(out)@, old(arena)@.len()),
    ensures
        final(arena).wf(),
        extends(final(arena)@, old(arena)@),
        all_below(final(out)@, final(arena)@.len()),
        removed == removal(fixes_view(plan@), k) is Some,
        match removal(fixes_view(plan@), k) {
            Some(items) => final(arena)@ == place(old(arena)@, items).0 && final(out)@ == old(
                out,
            )@ + place(old(arena)@, items).1,
            None => final(arena)@ == old(arena)@ && final(out)@ == old(out)@,
        },
{
    let ghost view = fixes_view(plan@);
    let mut j: usize = 0;
    proof {
        assert(view.skip(0) == view);
    }
    while j < plan.len()
        invariant
            0 <= j <= plan@.len(),
            view == fixes_view(plan@),
            arena.wf(),
            arena@ == old(arena)@,
            out@ == old(out)@,
            plan_ok(arena@.len(), view),
            all_below(out@, arena@.len()),
            removal(view, k) == removal(view.skip(j as int), k),
        decreases plan@.len() - j,
    {
        proof {
            assert(view.skip(j as int)[0] == plan@[j as int]@);
            assert(view[j as int] == plan@[j as int]@);
            assert(view.skip(j as int).drop_first() == view.skip(j + 1));
        }
        let fix = &plan[j];
        if fix.anchor == k && (fix.edit_type == EditType::Delete || fix.edit_type
            == EditType::Replace) {
            if fix.edit_type == EditType::Replace {
                proof {
                    assert(items_ok(arena@.len(), view[j as int].edit));
                }
                place_items(arena, &fix.edit, out);
            } else {
                proof {
                    assert(out@ + Seq::<usize>::empty() =~= out@);
                }
            }
            return true;
        }
        j = j + 1;
    }
    false
}

/// A plan that fits an arena fits every arena that extends it.
pub proof fn lemma_plan_ok_grows(n: nat, m: nat, plan: Seq<LintFixData>)
    requires
        plan_ok(n, plan),
        n <= m,
    ensures
        plan_ok(m, plan),
{
    assert forall|i: int| 0 <= i < plan.len() implies items_ok(m, (#[trigger] plan[i]).edit) by {
        assert(items_ok(n, plan[i].edit));
    }
}

/// Applies `plan` below segment `id` and returns the slot of the segment
/// that stands for `id` in the new tree. No slot that was in use changes.
pub fn rebuild(arena: &mut SegmentArena, id: usize, plan: &Vec<LintFix>) -> (out: usize)
    requires
        old(arena).wf(),
        id < old(arena)@.len(),
        plan_ok(old(arena)@.len(), fixes_view(plan@)),
    ensures
        final(arena).wf(),
        extends(final(arena)@, old(arena)@),
        out < final(arena)@.len(),
        final(arena)@ == rebuild_spec(old(arena)@, id as int, fixes_view(plan@)).0,
        out == rebuild_spec(old(arena)@, id as int, fixes_view(plan@)).1,
    decreases id,
{
    let ghost a0 = arena@;
    let ghost view = fixes_view(plan@);
    let n = arena.children(id).len();
    let kids = copy_range(arena.children(id), 0, n);
    proof {
        assert(a0[id as int].children.subrange(0, n as int) == a0[id as int].children);
    }
    let mut fresh: Vec<usize> = Vec::new();
    let mut changed = false;
    let mut i: usize = 0;
    while i < n
        invariant
            arena.wf(),
            extends(arena@, a0),
            id < a0.len(),
            view == fixes_view(plan@),
            plan_ok(a0.len(), view),
            n == kids@.len(),
            kids@ == a0[id as int].children,
            forall|j: int| 0 <= j < kids@.len() ==> kids@[j] < id,
            0 <= i <= n,
            all_below(fresh@, arena@.len()),
            arena@ == rebuild_kids(a0, kids@, i as int, id as int, view).arena,
            fresh@ == rebuild_kids(a0, kids@, i as int, id as int, view).kids,
            changed == rebuild_kids(a0, kids@, i as int, id as int, view).changed,
        decreases n - i,
    {
        let k = kids[i];
        let ghost prev = rebuild_kids(a0, kids@, i as int, id as int, view);
        let before = fresh.len();
        proof {
            lemma_plan_ok_grows(a0.len(), arena@.len(), view);
        }
        place_created(arena, plan, k, EditType::CreateBefore, &mut fresh);
        let ghost a1 = arena@;
        let middle = fresh.len();
        proof {
            lemma_plan_ok_grows(a0.len(), arena@.len(), view);
        }
        let removed = place_removal(arena, plan, k, &mut fresh);
        let mut same = false;
        if !removed {
            let k2 = rebuild(arena, k, plan);
            fresh.push(k2);
            same = k2 == k;
        }
        let ghost a2 = arena@;
        let ghost upto_mid = fresh@;
        let after = fresh.len();
        proof {
            lemma_plan_ok_grows(a0.len(), arena@.len(), view);
        }
        place_created(arena, plan, k, EditType::CreateAfter, &mut fresh);
        let done = fresh.len();
        proof {
            let pre = place(prev.arena, created_items(view, k, EditType::CreateBefore)).1;
            let mid = match removal(view, k) {
                Some(items) => place(a1, items).1,
                None => seq![rebuild_spec(a1, k as int, view).1],
            };
            let post = place(a2, created_items(view, k, EditType::CreateAfter)).1;
            assert(upto_mid =~= prev.kids + pre + mid);
            assert(fresh@ =~= prev.kids + pre + mid + post);
            assert(pre.len() == middle - before);
            assert(post.len() == done - after);
        }
        if middle > before || done > after || !same {
            changed = true;
        }
        i = i + 1;
    }
    if changed {
        arena.add_like(id, fresh)
    } else {
        id
    }
}

/// A plan with no edit at segment `k` creates nothing around it and
/// puts nothing in its place.
pub proof fn lemma_no_edit_at(plan: Seq<LintFixData>, k: usize, which: EditType)
    requires
        forall|i: int| 0 <= i < plan.len() ==> (#[trigger] plan[i]).anchor != k,
    ensures
        created_items(plan, k, which) == Seq::<EditSegmentData>::empty(),
        removal(plan, k) is None,
    decreases plan.len(),
{
    if plan.len() > 0 {
        assert(plan[0].anchor != k);
        assert(plan[plan.len() - 1].anchor != k);
        assert forall|i: int| 0 <= i < plan.drop_last().len() implies (
        #[trigger] plan.drop_last()[i]).anchor != k by {
            assert(plan.drop_last()[i] == plan[i]);
        }
        assert forall|i: int| 0 <= i < plan.drop_first().len() implies (
        #[trigger] plan.drop_first()[i]).anchor != k by {
            assert(plan.drop_first()[i] == plan[i + 1]);
        }
        lemma_no_edit_at(plan.drop_last(), k, which);
        lemma_no_edit_at(plan.drop_first(), k, which);
        assert(Seq::<EditSegmentData>::empty() + Seq::<EditSegmentData>::empty() =~= Seq::<
            EditSegmentData,
        >::empty());
    }
}

/// What no edit touches is shared: a plan without an anchor strictly
/// below segment `id` leaves the segment in its slot and the arena as it
/// is.
pub proof fn lemma_untouched_is_shared(a: Seq<SegmentData>, id: int, plan: Seq<LintFixData>)
    requires
        arena_wf(a),
        0 <= id < a.len(),
        forall|i: int| 0 <= i < plan.len() ==> !is_descendant(a, id, (#[trigger] plan[i]).anchor),
    ensures
        rebuild_spec(a, id, plan) == (a, id as usize),
    decreases id, 1int, 0int,
{
    let kids = a[id].children;
    assert forall|i: int, j: int| 0 <= i < plan.len() && 0 <= j < kids.len() implies !in_subtree(
        a,
        #[trigger] kids[j] as int,
        (#[trigger] plan[i]).anchor,
    ) by {
        if in_subtree(a, kids[j] as int, plan[i].anchor) {
            lemma_preorder_all_part(a, kids, j, id, plan[i].anchor);
        }
    }
    lemma_untouched_kids(a, kids, kids.len() as int, id, plan);
}

/// A plan without an anchor at or below any of the first `n` children
/// leaves these children as they are.
pub proof fn lemma_untouched_kids(
    a: Seq<SegmentData>,
    kids: Seq<usize>,
    n: int,
    bound: int,
    plan: Seq<LintFixData>,
)
    requires
        arena_wf(a),
        0 <= n <= kids.len(),
        0 <= bound <= a.len(),
        forall|j: int| 0 <= j < n ==> kids[j] < bound,
        forall|i: int, j: int|
            0 <= i < plan.len() && 0 <= j < n ==> !in_subtree(
                a,
                #[trigger] kids[j] as int,
                (#[trigger] plan[i]).anchor,
            ),
    ensures
        rebuild_kids(a, kids, n, bound, plan) == (Rebuilt {
            arena: a,
            kids: kids.take(n),
            changed: false,
        }),
    decreases bound, 0int, n,
{
    if n == 0 {
        assert(kids.take(0) =~= Seq::<usize>::empty());
    } else {
        let k = kids[n - 1];
        lemma_untouched_kids(a, kids, n - 1, bound, plan);
        assert forall|i: int| 0 <= i < plan.len() implies (#[trigger] plan[i]).anchor != k
            && !is_descendant(a, k as int, plan[i].anchor) by {
            assert(!in_subtree(a, k as int, plan[i].anchor));
            assert(preorder(a, k as int)[0] == k);
            lemma_contains_concat(
                seq![k],
                preorder_all(a, a[k as int].children, k as int),
                plan[i].anchor,
            );
        }
        lemma_no_edit_at(plan, k, EditType::CreateBefore);
        lemma_no_edit_at(plan, k, EditType::CreateAfter);
        lemma_untouched_is_shared(a, k as int, plan);
        assert(kids.take(n - 1) + Seq::<usize>::empty() + seq![k] + Seq::<usize>::empty()
            =~= kids.take(n));
    }
}

/// Applying no edit changes nothing.
pub proof fn lemma_empty_plan(a: Seq<SegmentData>, id: int)
    requires
        arena_wf(a),
        0 <= id < a.len(),
    ensures
        rebuild_spec(a, id, Seq::<LintFixData>::empty()) == (a, id as usize),
{
    lemma_untouched_is_shared(a, id, Seq::<LintFixData>::empty());
}

} // verus!
