//! The effect of a plan on the text: the text of the new tree is the
//! text of the old one with what the plan creates put in, and with what
//! the plan removes taken out or replaced, and is otherwise unchanged,
//! character for character.

use vstd::prelude::*;
use crate::apply::{
    created_items, items_ok, lemma_plan_ok_grows, place, plan_ok, rebuild_kids, rebuild_spec,
    removal,
};
use crate::fix::{EditSegmentData, EditType, LintFixData};
use crate::query::all_below;
use crate::segment::{arena_wf, extends, text_of, text_of_all, SegmentData};
use crate::tokens::{
    lemma_created, lemma_place, lemma_place_len, lemma_rebuild, lemma_rebuild_kids,
    lemma_rebuild_len, lemma_removal,
};

verus! {

/// The text that edit segments bring: the text of a new leaf, or the
/// text that a segment of the arena spans.
pub open spec fn items_text(a: Seq<SegmentData>, items: Seq<EditSegmentData>) -> Seq<char>
    decreases items.len(),
{
    if items.len() == 0 {
        Seq::empty()
    } else {
        items_text(a, items.drop_last()) + (match items.last() {
            EditSegmentData::New { kind, raw } => raw,
            EditSegmentData::Existing(id) => text_of(a, id as int),
        })
    }
}

/// The text of segment `id` after the plan: a leaf keeps its text; a
/// segment with children has the edited texts of its children.
pub open spec fn edited_text(a: Seq<SegmentData>, id: int, plan: Seq<LintFixData>) -> Seq<char>
    decreases id, 1int, 0int,
{
    if 0 <= id < a.len() {
        if a[id].children.len() == 0 {
            a[id].raw
        } else {
            edited_text_all(a, a[id].children, a[id].children.len() as int, id, plan)
        }
    } else {
        Seq::empty()
    }
}

/// The text of the first `n` of the children `kids` after the plan: for
/// each child in turn, the text of what the plan creates before it, then
/// the text of what replaces it or else its own edited text, then the
/// text of what the plan creates after it.
pub open spec fn edited_text_all(
    a: Seq<SegmentData>,
    kids: Seq<usize>,
    n: int,
    bound: int,
    plan: Seq<LintFixData>,
) -> Seq<char>
    decreases bound, 0int, n,
{
    if n <= 0 || n > kids.len() {
        Seq::empty()
    } else {
        let k = kids[n - 1];
        edited_text_all(a, kids, n - 1, bound, plan) + items_text(
            a,
            created_items(plan, k, EditType::CreateBefore),
        ) + (match removal(plan, k) {
            Some(items) => items_text(a, items),
            None => if k < bound {
                edited_text(a, k as int, plan)
            } else {
                Seq::empty()
            },
        }) + items_text(a, created_items(plan, k, EditType::CreateAfter))
    }
}

/// The text that a segment spans is the same in every arena that
/// extends the one it stands in.
pub proof fn lemma_text_frame(a: Seq<SegmentData>, b: Seq<SegmentData>, id: int)
    requires
        arena_wf(a),
        extends(b, a),
        0 <= id < a.len(),
    ensures
        text_of(b, id) == text_of(a, id),
    decreases id, 1int, 0int,
{
    assert(b[id] == a[id]);
    if a[id].children.len() > 0 {
        lemma_text_all_frame(a, b, a[id].children, id);
    }
}

/// The text that a run of segments spans is the same in every arena
/// that extends the one they stand in.
pub proof fn lemma_text_all_frame(
    a: Seq<SegmentData>,
    b: Seq<SegmentData>,
    ids: Seq<usize>,
    bound: int,
)
    requires
        arena_wf(a),
        extends(b, a),
        bound <= a.len(),
    ensures
        text_of_all(b, ids, bound) == text_of_all(a, ids, bound),
    decreases bound, 0int, ids.len(),
{
    if ids.len() > 0 {
        lemma_text_all_frame(a, b, ids.drop_last(), bound);
        if ids.last() < bound {
            lemma_text_frame(a, b, ids.last() as int);
        }
    }
}

/// The text of two runs of segments joined is the text of the first and
/// then the text of the second.
pub proof fn lemma_text_all_concat(a: Seq<SegmentData>, s: Seq<usize>, t: Seq<usize>, bound: int)
    ensures
        text_of_all(a, s + t, bound) == text_of_all(a, s, bound) + text_of_all(a, t, bound),
    decreases t.len(),
{
    if t.len() == 0 {
        assert(s + t =~= s);
        assert(text_of_all(a, s, bound) + Seq::<char>::empty() =~= text_of_all(a, s, bound));
    } else {
        lemma_text_all_concat(a, s, t.drop_last(), bound);
        assert((s + t).drop_last() =~= s + t.drop_last());
        assert((s + t).last() == t.last());
        let last = if t.last() < bound {
            text_of(a, t.last() as int)
        } else {
            Seq::empty()
        };
        assert((text_of_all(a, s, bound) + text_of_all(a, t.drop_last(), bound)) + last
            =~= text_of_all(a, s, bound) + (text_of_all(a, t.drop_last(), bound) + last));
    }
}

/// Where every segment of a run lies below two bounds, its text does not
/// depend on which of the bounds is taken.
pub proof fn lemma_text_all_bound(a: Seq<SegmentData>, ids: Seq<usize>, low: int, high: int)
    requires
        all_below(ids, low as nat),
        0 <= low <= high,
    ensures
        text_of_all(a, ids, low) == text_of_all(a, ids, high),
    decreases ids.len(),
{
    if ids.len() > 0 {
        assert(all_below(ids.drop_last(), low as nat)) by {
            assert forall|j: int| 0 <= j < ids.drop_last().len() implies ids.drop_last()[j]
                < low by {
                assert(ids.drop_last()[j] == ids[j]);
            }
        }
        lemma_text_all_bound(a, ids.drop_last(), low, high);
        assert(ids.last() == ids[ids.len() - 1]);
    }
}

/// The text of a run of segments is the same, whatever the bound, in
/// every arena that extends the one they stand in.
pub proof fn lemma_text_all_grow(a: Seq<SegmentData>, b: Seq<SegmentData>, ids: Seq<usize>)
    requires
        arena_wf(a),
        extends(b, a),
        all_below(ids, a.len()),
    ensures
        text_of_all(b, ids, b.len() as int) == text_of_all(a, ids, a.len() as int),
{
    lemma_text_all_frame(a, b, ids, a.len() as int);
    lemma_text_all_bound(b, ids, a.len() as int, b.len() as int);
}

/// The text that edit segments bring is the same in every arena that
/// extends the one they were made for.
pub proof fn lemma_items_text_frame(
    a: Seq<SegmentData>,
    b: Seq<SegmentData>,
    items: Seq<EditSegmentData>,
)
    requires
        arena_wf(a),
        extends(b, a),
        items_ok(a.len(), items),
    ensures
        items_text(b, items) == items_text(a, items),
    decreases items.len(),
{
    if items.len() > 0 {
        assert(items_ok(a.len(), items.drop_last())) by {
            assert forall|i: int| 0 <= i < items.drop_last().len() implies (
            #[trigger] items.drop_last()[i] matches EditSegmentData::Existing(id) ==> id
                < a.len()) by {
                assert(items.drop_last()[i] == items[i]);
            }
        }
        lemma_items_text_frame(a, b, items.drop_last());
        assert(items.last() == items[items.len() - 1]);
        match items.last() {
            EditSegmentData::Existing(id) => {
                lemma_text_frame(a, b, id as int);
            },
            EditSegmentData::New { .. } => {},
        }
    }
}

/// The segments that placing yields span the text that the edit
/// segments bring.
pub proof fn lemma_place_text(a: Seq<SegmentData>, items: Seq<EditSegmentData>)
    requires
        arena_wf(a),
        items_ok(a.len(), items),
        place(a, items).0.len() <= usize::MAX,
    ensures
        text_of_all(place(a, items).0, place(a, items).1, place(a, items).0.len() as int)
            == items_text(a, items),
    decreases items.len(),
{
    if items.len() > 0 {
        let (b0, ids0) = place(a, items.drop_last());
        let (b, ids) = place(a, items);
        assert(b0.len() <= b.len());
        assert(items_ok(a.len(), items.drop_last())) by {
            assert forall|i: int| 0 <= i < items.drop_last().len() implies (
            #[trigger] items.drop_last()[i] matches EditSegmentData::Existing(id) ==> id
                < a.len()) by {
                assert(items.drop_last()[i] == items[i]);
            }
        }
        lemma_place_text(a, items.drop_last());
        lemma_place(a, items.drop_last());
        lemma_place(a, items);
        assert(items.last() == items[items.len() - 1]);
        assert(ids.drop_last() =~= ids0);
        lemma_text_all_grow(b0, b, ids0);
        match items.last() {
            EditSegmentData::Existing(id) => {
                assert(ids.last() == id);
                assert(extends(b, a));
                lemma_text_frame(a, b, id as int);
            },
            EditSegmentData::New { kind, raw } => {
                assert(ids.last() == b0.len());
                assert(text_of(b, b0.len() as int) == raw);
            },
        }
    }
}

/// The text of a single segment, as a run of one.
pub proof fn lemma_text_all_one(a: Seq<SegmentData>, k: usize, bound: int)
    requires
        k < bound,
    ensures
        text_of_all(a, seq![k], bound) == text_of(a, k as int),
{
    assert(seq![k].drop_last() =~= Seq::<usize>::empty());
    assert(text_of_all(a, Seq::<usize>::empty(), bound) =~= Seq::<char>::empty());
    assert(Seq::<char>::empty() + text_of(a, k as int) =~= text_of(a, k as int));
}

/// The text of a segment after the plan is the same in every arena that
/// extends the one it stands in.
pub proof fn lemma_edited_text_frame(
    a: Seq<SegmentData>,
    b: Seq<SegmentData>,
    id: int,
    plan: Seq<LintFixData>,
)
    requires
        arena_wf(a),
        extends(b, a),
        0 <= id < a.len(),
        plan_ok(a.len(), plan),
    ensures
        edited_text(b, id, plan) == edited_text(a, id, plan),
    decreases id, 1int, 0int,
{
    assert(b[id] == a[id]);
    if a[id].children.len() > 0 {
        lemma_edited_text_all_frame(a, b, a[id].children, a[id].children.len() as int, id, plan);
    }
}

/// The text of a run of children after the plan is the same in every
/// arena that extends the one they stand in.
pub proof fn lemma_edited_text_all_frame(
    a: Seq<SegmentData>,
    b: Seq<SegmentData>,
    kids: Seq<usize>,
    n: int,
    bound: int,
    plan: Seq<LintFixData>,
)
    requires
        arena_wf(a),
        extends(b, a),
        0 <= n <= kids.len(),
        0 <= bound <= a.len(),
        plan_ok(a.len(), plan),
    ensures
        edited_text_all(b, kids, n, bound, plan) == edited_text_all(a, kids, n, bound, plan),
    decreases bound, 0int, n,
{
    if n > 0 {
        let k = kids[n - 1];
        lemma_edited_text_all_frame(a, b, kids, n - 1, bound, plan);
        lemma_created(a, a.len(), plan, k, EditType::CreateBefore);
        lemma_created(a, a.len(), plan, k, EditType::CreateAfter);
        lemma_items_text_frame(a, b, created_items(plan, k, EditType::CreateBefore));
        lemma_items_text_frame(a, b, created_items(plan, k, EditType::CreateAfter));
        match removal(plan, k) {
            Some(items) => {
                lemma_removal(a, a.len(), plan, k);
                lemma_items_text_frame(a, b, items);
            },
            None => {
                if k < bound {
                    lemma_edited_text_frame(a, b, k as int, plan);
                }
            },
        }
    }
}

/// The text of four runs of segments joined, each of which was made in
/// an arena that the next extends.
proof fn lemma_joined_text(
    a0: Seq<SegmentData>,
    a1: Seq<SegmentData>,
    a2: Seq<SegmentData>,
    a3: Seq<SegmentData>,
    s0: Seq<usize>,
    s1: Seq<usize>,
    s2: Seq<usize>,
    s3: Seq<usize>,
)
    requires
        arena_wf(a0),
        arena_wf(a1),
        arena_wf(a2),
        extends(a1, a0),
        extends(a2, a1),
        extends(a3, a2),
        all_below(s0, a0.len()),
        all_below(s1, a1.len()),
        all_below(s2, a2.len()),
    ensures
        text_of_all(a3, s0 + s1 + s2 + s3, a3.len() as int) == text_of_all(
            a0,
            s0,
            a0.len() as int,
        ) + text_of_all(a1, s1, a1.len() as int) + text_of_all(a2, s2, a2.len() as int)
            + text_of_all(a3, s3, a3.len() as int),
{
    let top = a3.len() as int;
    assert(extends(a3, a1));
    assert(extends(a3, a0));
    lemma_text_all_grow(a0, a3, s0);
    lemma_text_all_grow(a1, a3, s1);
    lemma_text_all_grow(a2, a3, s2);
    lemma_text_all_concat(a3, s0, s1, top);
    lemma_text_all_concat(a3, s0 + s1, s2, top);
    lemma_text_all_concat(a3, s0 + s1 + s2, s3, top);
}

/// The text of a rebuilt segment is its text after the plan.
pub proof fn lemma_rebuild_text(a: Seq<SegmentData>, id: int, plan: Seq<LintFixData>)
    requires
        arena_wf(a),
        0 <= id < a.len(),
        plan_ok(a.len(), plan),
        rebuild_spec(a, id, plan).0.len() <= usize::MAX,
    ensures
        text_of(rebuild_spec(a, id, plan).0, rebuild_spec(a, id, plan).1 as int) == edited_text(
            a,
            id,
            plan,
        ),
    decreases id, 1int, 0int,
{
    let kids = a[id].children;
    let n = kids.len() as int;
    let r = rebuild_kids(a, kids, n, id, plan);
    let (b, out) = rebuild_spec(a, id, plan);
    lemma_rebuild_kids(a, kids, n, id, plan);
    lemma_rebuild_kids_text(a, kids, n, id, plan);
    if r.changed {
        assert(b == r.arena.push(
            SegmentData { kind: a[id].kind, raw: a[id].raw, children: r.kids },
        ));
        assert(out == r.arena.len());
        assert(b[out as int].children == r.kids);
        assert(n > 0);
        assert(a[id].raw.len() == 0);
        assert(edited_text(a, id, plan) == edited_text_all(a, kids, n, id, plan));
        lemma_text_all_frame(r.arena, b, r.kids, r.arena.len() as int);
        if r.kids.len() == 0 {
            assert(text_of_all(r.arena, r.kids, r.arena.len() as int) =~= Seq::<char>::empty());
            assert(b[out as int].raw =~= Seq::<char>::empty());
        }
    } else {
        lemma_text_frame(a, r.arena, id);
        lemma_untouched_text(a, kids, n, id, plan);
        assert(kids.take(n) == kids);
    }
}

/// Where rebuilding a run of children changes nothing, the text of the
/// children after the plan is the text they have.
proof fn lemma_untouched_text(
    a: Seq<SegmentData>,
    kids: Seq<usize>,
    n: int,
    bound: int,
    plan: Seq<LintFixData>,
)
    requires
        arena_wf(a),
        plan_ok(a.len(), plan),
        0 <= n <= kids.len(),
        0 <= bound <= a.len(),
        forall|j: int| 0 <= j < n ==> kids[j] < bound,
        rebuild_kids(a, kids, n, bound, plan).arena.len() <= usize::MAX,
        !rebuild_kids(a, kids, n, bound, plan).changed,
    ensures
        edited_text_all(a, kids, n, bound, plan) == text_of_all(a, kids.take(n), bound),
    decreases bound, 0int, n,
{
    if n == 0 {
        assert(kids.take(0) =~= Seq::<usize>::empty());
    } else {
        let prev = rebuild_kids(a, kids, n - 1, bound, plan);
        let k = kids[n - 1];
        let before = created_items(plan, k, EditType::CreateBefore);
        let after = created_items(plan, k, EditType::CreateAfter);
        let (a1, pre) = place(prev.arena, before);
        let a2 = rebuild_spec(a1, k as int, plan).0;
        let (a3, post) = place(a2, after);
        assert(removal(plan, k) is None);
        assert(prev.arena.len() <= a1.len() <= a2.len() <= a3.len()) by {
            lemma_place_len(prev.arena, before);
            lemma_rebuild_len(a1, k as int, plan);
            lemma_place_len(a2, after);
        }
        lemma_rebuild_kids(a, kids, n - 1, bound, plan);
        lemma_untouched_text(a, kids, n - 1, bound, plan);
        lemma_plan_ok_grows(a.len(), prev.arena.len(), plan);
        lemma_created(a, prev.arena.len(), plan, k, EditType::CreateBefore);
        lemma_place(prev.arena, before);
        lemma_place_count(prev.arena, before);
        lemma_plan_ok_grows(a.len(), a1.len(), plan);
        lemma_rebuild(a1, k as int, plan);
        lemma_rebuild_text(a1, k as int, plan);
        lemma_edited_text_frame(a, a1, k as int, plan);
        lemma_text_frame(a, a1, k as int);
        lemma_text_frame(a1, a2, k as int);
        lemma_plan_ok_grows(a.len(), a2.len(), plan);
        lemma_created(a, a2.len(), plan, k, EditType::CreateAfter);
        lemma_place_count(a2, after);
        assert(kids.take(n).drop_last() == kids.take(n - 1));
        assert(kids.take(n).last() == k);
        assert(items_text(a, before) =~= Seq::<char>::empty());
        assert(items_text(a, after) =~= Seq::<char>::empty());
        assert(edited_text_all(a, kids, n, bound, plan) =~= edited_text_all(
            a,
            kids,
            n - 1,
            bound,
            plan,
        ) + edited_text(a, k as int, plan));
    }
}

/// Placing yields one segment for each edit segment.
proof fn lemma_place_count(a: Seq<SegmentData>, items: Seq<EditSegmentData>)
    ensures
        place(a, items).1.len() == items.len(),
    decreases items.len(),
{
    if items.len() > 0 {
        lemma_place_count(a, items.drop_last());
    }
}

/// The text of the rebuilt children is their text after the plan.
pub proof fn lemma_rebuild_kids_text(
    a: Seq<SegmentData>,
    kids: Seq<usize>,
    n: int,
    bound: int,
    plan: Seq<LintFixData>,
)
    requires
        arena_wf(a),
        plan_ok(a.len(), plan),
        0 <= n <= kids.len(),
        0 <= bound <= a.len(),
        forall|j: int| 0 <= j < n ==> kids[j] < bound,
        rebuild_kids(a, kids, n, bound, plan).arena.len() <= usize::MAX,
    ensures
        text_of_all(
            rebuild_kids(a, kids, n, bound, plan).arena,
            rebuild_kids(a, kids, n, bound, plan).kids,
            rebuild_kids(a, kids, n, bound, plan).arena.len() as int,
        ) == edited_text_all(a, kids, n, bound, plan),
    decreases bound, 0int, n,
{
    let r = rebuild_kids(a, kids, n, bound, plan);
    if n > 0 {
        let prev = rebuild_kids(a, kids, n - 1, bound, plan);
        let k = kids[n - 1];
        let before = created_items(plan, k, EditType::CreateBefore);
        let after = created_items(plan, k, EditType::CreateAfter);
        let (a1, pre) = place(prev.arena, before);
        let (a2, mid) = match removal(plan, k) {
            Some(items) => place(a1, items),
            None => (rebuild_spec(a1, k as int, plan).0, seq![rebuild_spec(a1, k as int, plan).1]),
        };
        let (a3, post) = place(a2, after);
        assert(r.arena == a3);
        assert(r.kids == prev.kids + pre + mid + post);
        assert(prev.arena.len() <= a1.len() <= a2.len() <= a3.len()) by {
            lemma_place_len(prev.arena, before);
            match removal(plan, k) {
                Some(items) => {
                    lemma_place_len(a1, items);
                },
                None => {
                    lemma_rebuild_len(a1, k as int, plan);
                },
            }
            lemma_place_len(a2, after);
        }
        // The children before this one.
        lemma_rebuild_kids(a, kids, n - 1, bound, plan);
        lemma_rebuild_kids_text(a, kids, n - 1, bound, plan);
        // What is created before it.
        assert(extends(a1, prev.arena) && arena_wf(a1) && all_below(pre, a1.len())
            && text_of_all(a1, pre, a1.len() as int) == items_text(a, before)) by {
            lemma_plan_ok_grows(a.len(), prev.arena.len(), plan);
            lemma_created(a, prev.arena.len(), plan, k, EditType::CreateBefore);
            lemma_created(a, a.len(), plan, k, EditType::CreateBefore);
            lemma_place(prev.arena, before);
            lemma_place_text(prev.arena, before);
            lemma_items_text_frame(a, prev.arena, before);
        }
        assert(extends(a1, a));
        // The child itself, or what replaces it.
        assert(extends(a2, a1) && arena_wf(a2) && all_below(mid, a2.len()) && text_of_all(
            a2,
            mid,
            a2.len() as int,
        ) == (match removal(plan, k) {
            Some(items) => items_text(a, items),
            None => edited_text(a, k as int, plan),
        })) by {
            lemma_plan_ok_grows(a.len(), a1.len(), plan);
            match removal(plan, k) {
                Some(items) => {
                    lemma_removal(a, a1.len(), plan, k);
                    lemma_removal(a, a.len(), plan, k);
                    lemma_place(a1, items);
                    lemma_place_text(a1, items);
                    lemma_items_text_frame(a, a1, items);
                },
                None => {
                    lemma_rebuild(a1, k as int, plan);
                    lemma_rebuild_text(a1, k as int, plan);
                    lemma_text_all_one(a2, mid[0], a2.len() as int);
                    lemma_edited_text_frame(a, a1, k as int, plan);
                },
            }
        }
        assert(extends(a2, a));
        // What is created after it.
        assert(extends(a3, a2) && arena_wf(a3) && text_of_all(a3, post, a3.len() as int)
            == items_text(a, after)) by {
            lemma_plan_ok_grows(a.len(), a2.len(), plan);
            lemma_created(a, a2.len(), plan, k, EditType::CreateAfter);
            lemma_created(a, a.len(), plan, k, EditType::CreateAfter);
            lemma_place(a2, after);
            lemma_place_text(a2, after);
            lemma_items_text_frame(a, a2, after);
        }
        lemma_joined_text(prev.arena, a1, a2, a3, prev.kids, pre, mid, post);
    }
}

/// The effect of a plan on the text: the tree that a plan makes of the
/// tree below `root` spans the text of the old tree with the edits of
/// the plan made, and with nothing else changed.
pub proof fn lemma_text_after_plan(a: Seq<SegmentData>, root: usize, plan: Seq<LintFixData>)
    requires
        arena_wf(a),
        root < a.len(),
        plan_ok(a.len(), plan),
        rebuild_spec(a, root as int, plan).0.len() <= usize::MAX,
    ensures
        text_of(rebuild_spec(a, root as int, plan).0, rebuild_spec(a, root as int, plan).1 as int)
            == edited_text(a, root as int, plan),
        text_of(rebuild_spec(a, root as int, plan).0, root as int) == text_of(a, root as int),
{
    lemma_rebuild_text(a, root as int, plan);
    lemma_rebuild(a, root as int, plan);
    lemma_text_frame(a, rebuild_spec(a, root as int, plan).0, root as int);
}

} // verus!
