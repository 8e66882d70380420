//! The tokens of a tree, and the edits that keep them: whatever an edit
//! of whitespace does to a tree, every token that is neither whitespace
//! nor a structural marker stays, with its type and its text, in its
//! place among the others.

use vstd::prelude::*;
use crate::apply::{
    created_items, items_ok, place, plan_ok, rebuild_kids, rebuild_spec, removal, removes,
};
use crate::config::ValueData;
use crate::fix::{EditSegmentData, EditType, LintFixData};
use crate::query::all_below;
use crate::reflow::{
    elements_wf, is_gap_kind, lemma_respace_whitespace, respace_fixes, whitespace_edit,
    whitespace_items, ElementData, Filter,
};
use crate::segment::{arena_wf, extends, SegmentData};

verus! {

/// A token: the type and the text of a leaf.
pub struct Token {
    pub kind: Seq<char>,
    pub raw: Seq<char>,
}

/// The tokens below segment `id` in document order: its leaves that have
/// text and are neither whitespace nor structural markers.
pub open spec fn tokens_of(a: Seq<SegmentData>, id: int) -> Seq<Token>
    decreases id, 1int, 0int,
{
    if 0 <= id < a.len() {
        if a[id].children.len() == 0 {
            if is_gap_kind(a[id].kind) || a[id].raw.len() == 0 {
                Seq::empty()
            } else {
                seq![Token { kind: a[id].kind, raw: a[id].raw }]
            }
        } else {
            tokens_of_all(a, a[id].children, id)
        }
    } else {
        Seq::empty()
    }
}

/// The tokens below the segments `ids`, one after another; only slots
/// below `bound` count.
pub open spec fn tokens_of_all(a: Seq<SegmentData>, ids: Seq<usize>, bound: int) -> Seq<Token>
    decreases bound, 0int, ids.len(),
{
    if ids.len() == 0 {
        Seq::empty()
    } else {
        tokens_of_all(a, ids.drop_last(), bound) + (if ids.last() < bound {
            tokens_of(a, ids.last() as int)
        } else {
            Seq::empty()
        })
    }
}

/// Every edit of the plan touches nothing but whitespace.
pub open spec fn whitespace_plan(a: Seq<SegmentData>, plan: Seq<LintFixData>) -> bool {
    forall|i: int| 0 <= i < plan.len() ==> whitespace_edit(a, #[trigger] plan[i])
}

/// The tokens below a segment are the same in every arena that extends
/// the one it stands in.
pub proof fn lemma_tokens_frame(a: Seq<SegmentData>, b: Seq<SegmentData>, id: int)
    requires
        arena_wf(a),
        extends(b, a),
        0 <= id < a.len(),
    ensures
        tokens_of(b, id) == tokens_of(a, id),
    decreases id, 1int, 0int,
{
    assert(b[id] == a[id]);
    if a[id].children.len() > 0 {
        lemma_tokens_all_frame(a, b, a[id].children, id);
    }
}

/// The tokens below a run of segments are the same in every arena that
/// extends the one they stand in.
pub proof fn lemma_tokens_all_frame(
    a: Seq<SegmentData>,
    b: Seq<SegmentData>,
    ids: Seq<usize>,
    bound: int,
)
    requires
        arena_wf(a),
        extends(b, a),
        bound <= a.len(),
    ensures
        tokens_of_all(b, ids, bound) == tokens_of_all(a, ids, bound),
    decreases bound, 0int, ids.len(),
{
    if ids.len() > 0 {
        lemma_tokens_all_frame(a, b, ids.drop_last(), bound);
        if ids.last() < bound {
            lemma_tokens_frame(a, b, ids.last() as int);
        }
    }
}

/// The tokens below two runs of segments joined are those of the first
/// and then those of the second.
pub proof fn lemma_tokens_all_concat(a: Seq<SegmentData>, s: Seq<usize>, t: Seq<usize>, bound: int)
    ensures
        tokens_of_all(a, s + t, bound) == tokens_of_all(a, s, bound) + tokens_of_all(a, t, bound),
    decreases t.len(),
{
    if t.len() == 0 {
        assert(s + t =~= s);
        assert(tokens_of_all(a, s, bound) + Seq::<Token>::empty() =~= tokens_of_all(a, s, bound));
    } else {
        lemma_tokens_all_concat(a, s, t.drop_last(), bound);
        assert((s + t).drop_last() =~= s + t.drop_last());
        assert((s + t).last() == t.last());
        let last = if t.last() < bound {
            tokens_of(a, t.last() as int)
        } else {
            Seq::empty()
        };
        assert((tokens_of_all(a, s, bound) + tokens_of_all(a, t.drop_last(), bound)) + last
            =~= tokens_of_all(a, s, bound) + (tokens_of_all(a, t.drop_last(), bound) + last));
    }
}

/// Where every segment of a run lies below two bounds, the tokens do not
/// depend on which of the bounds is taken.
pub proof fn lemma_tokens_all_bound(a: Seq<SegmentData>, ids: Seq<usize>, low: int, high: int)
    requires
        all_below(ids, low as nat),
        0 <= low <= high,
    ensures
        tokens_of_all(a, ids, low) == tokens_of_all(a, ids, high),
    decreases ids.len(),
{
    if ids.len() > 0 {
        assert(all_below(ids.drop_last(), low as nat)) by {
            assert forall|j: int| 0 <= j < ids.drop_last().len() implies ids.drop_last()[j]
                < low by {
                assert(ids.drop_last()[j] == ids[j]);
            }
        }
        lemma_tokens_all_bound(a, ids.drop_last(), low, high);
        assert(ids.last() == ids[ids.len() - 1]);
    }
}

/// What placing edit segments does to an arena: it extends it, keeps it
/// well formed, and yields slots of the new arena. Where the segments
/// are whitespace, the slots hold no token.
pub proof fn lemma_place(a: Seq<SegmentData>, items: Seq<EditSegmentData>)
    requires
        arena_wf(a),
        items_ok(a.len(), items),
        place(a, items).0.len() <= usize::MAX,
    ensures
        extends(place(a, items).0, a),
        arena_wf(place(a, items).0),
        all_below(place(a, items).1, place(a, items).0.len()),
        whitespace_items(items) ==> tokens_of_all(
            place(a, items).0,
            place(a, items).1,
            place(a, items).0.len() as int,
        ) == Seq::<Token>::empty(),
    decreases items.len(),
{
    if items.len() > 0 {
        let (b0, ids0) = place(a, items.drop_last());
        let (b, ids) = place(a, items);
        assert(b0.len() <= b.len());
        assert(items_ok(a.len(), items.drop_last())) by {
            assert forall|i: int| 0 <= i < items.drop_last().len() implies (
            #[trigger] items.drop_last()[i] matches EditSegmentData::Existing(id) ==> id
                < a.len()) by {
                assert(items.drop_last()[i] == items[i]);
            }
        }
        lemma_place(a, items.drop_last());
        assert(items.last() == items[items.len() - 1]);
        assert(ids.drop_last() =~= ids0);
        if whitespace_items(items) {
            assert(whitespace_items(items.drop_last())) by {
                assert forall|i: int| 0 <= i < items.drop_last().len() implies (
                #[trigger] items.drop_last()[i] matches EditSegmentData::New { kind, .. }
                    && crate::segment::is_whitespace_kind(kind)) by {
                    assert(items.drop_last()[i] == items[i]);
                }
            }
            lemma_tokens_all_frame(b0, b, ids0, b0.len() as int);
            lemma_tokens_all_bound(b, ids0, b0.len() as int, b.len() as int);
            assert(tokens_of_all(b, ids0, b.len() as int) == Seq::<Token>::empty());
            assert(ids.last() == b0.len());
            assert(tokens_of(b, b0.len() as int) == Seq::<Token>::empty());
            assert(Seq::<Token>::empty() + Seq::<Token>::empty() =~= Seq::<Token>::empty());
        }
    }
}

/// The tokens below a run of segments are the same, whatever the
/// bound, in every arena that extends the one they stand in.
pub proof fn lemma_tokens_all_grow(a: Seq<SegmentData>, b: Seq<SegmentData>, ids: Seq<usize>)
    requires
        arena_wf(a),
        extends(b, a),
        all_below(ids, a.len()),
    ensures
        tokens_of_all(b, ids, b.len() as int) == tokens_of_all(a, ids, a.len() as int),
{
    lemma_tokens_all_frame(a, b, ids, a.len() as int);
    lemma_tokens_all_bound(b, ids, a.len() as int, b.len() as int);
}

/// Placing edit segments never shrinks an arena.
pub proof fn lemma_place_len(a: Seq<SegmentData>, items: Seq<EditSegmentData>)
    ensures
        a.len() <= place(a, items).0.len(),
    decreases items.len(),
{
    if items.len() > 0 {
        lemma_place_len(a, items.drop_last());
    }
}

/// Rebuilding never shrinks an arena.
pub proof fn lemma_rebuild_len(a: Seq<SegmentData>, id: int, plan: Seq<LintFixData>)
    ensures
        a.len() <= rebuild_spec(a, id, plan).0.len(),
    decreases id, 1int, 0int,
{
    if 0 <= id < a.len() {
        lemma_rebuild_kids_len(a, a[id].children, a[id].children.len() as int, id, plan);
    }
}

/// Rebuilding a run of children never shrinks an arena.
pub proof fn lemma_rebuild_kids_len(
    a: Seq<SegmentData>,
    kids: Seq<usize>,
    n: int,
    bound: int,
    plan: Seq<LintFixData>,
)
    ensures
        a.len() <= rebuild_kids(a, kids, n, bound, plan).arena.len(),
    decreases bound, 0int, n,
{
    if 0 < n <= kids.len() {
        let prev = rebuild_kids(a, kids, n - 1, bound, plan);
        let k = kids[n - 1];
        lemma_rebuild_kids_len(a, kids, n - 1, bound, plan);
        let (a1, pre) = place(prev.arena, created_items(plan, k, EditType::CreateBefore));
        lemma_place_len(prev.arena, created_items(plan, k, EditType::CreateBefore));
        let a2 = match removal(plan, k) {
            Some(items) => place(a1, items).0,
            None => if k < bound {
                rebuild_spec(a1, k as int, plan).0
            } else {
                a1
            },
        };
        match removal(plan, k) {
            Some(items) => {
                lemma_place_len(a1, items);
            },
            None => {
                if k < bound {
                    lemma_rebuild_len(a1, k as int, plan);
                }
            },
        }
        lemma_place_len(a2, created_items(plan, k, EditType::CreateAfter));
    }
}

/// What the plan creates at an anchor takes from the arena only what
/// the plan takes, and is whitespace where the plan is.
pub proof fn lemma_created(
    a: Seq<SegmentData>,
    n: nat,
    plan: Seq<LintFixData>,
    k: usize,
    which: EditType,
)
    requires
        plan_ok(n, plan),
    ensures
        items_ok(n, created_items(plan, k, which)),
        whitespace_plan(a, plan) ==> whitespace_items(created_items(plan, k, which)),
    decreases plan.len(),
{
    if plan.len() > 0 {
        let before = created_items(plan.drop_last(), k, which);
        assert(plan_ok(n, plan.drop_last())) by {
            assert forall|i: int| 0 <= i < plan.drop_last().len() implies items_ok(
                n,
                (#[trigger] plan.drop_last()[i]).edit,
            ) by {
                assert(plan.drop_last()[i] == plan[i]);
            }
        }
        if whitespace_plan(a, plan) {
            assert(whitespace_plan(a, plan.drop_last())) by {
                assert forall|i: int| 0 <= i < plan.drop_last().len() implies whitespace_edit(
                    a,
                    #[trigger] plan.drop_last()[i],
                ) by {
                    assert(plan.drop_last()[i] == plan[i]);
                }
            }
            assert(whitespace_edit(a, plan[plan.len() - 1]));
        }
        lemma_created(a, n, plan.drop_last(), k, which);
        let all = created_items(plan, k, which);
        let last = plan[plan.len() - 1];
        assert(plan.last() == last);
        assert(items_ok(n, last.edit));
        assert forall|i: int| 0 <= i < all.len() implies (#[trigger] all[i] matches EditSegmentData::Existing(
            id,
        ) ==> id < n) by {
            if i < before.len() {
                assert(all[i] == before[i]);
            } else {
                assert(all[i] == last.edit[i - before.len()]);
            }
        }
        if whitespace_plan(a, plan) {
            assert forall|i: int| 0 <= i < all.len() implies (#[trigger] all[i] matches EditSegmentData::New {
                kind,
                ..
            } && crate::segment::is_whitespace_kind(kind)) by {
                if i < before.len() {
                    assert(all[i] == before[i]);
                } else {
                    assert(all[i] == last.edit[i - before.len()]);
                }
            }
        }
    }
}

/// What the plan puts in the place of a segment takes from the arena
/// only what the plan takes; and where the plan is whitespace, so is
/// the segment and so is what comes in its place.
pub proof fn lemma_removal(a: Seq<SegmentData>, n: nat, plan: Seq<LintFixData>, k: usize)
    requires
        plan_ok(n, plan),
        removal(plan, k) is Some,
    ensures
        items_ok(n, removal(plan, k).unwrap()),
        whitespace_plan(a, plan) ==> whitespace_items(removal(plan, k).unwrap()) && k < a.len()
            && a[k as int].children.len() == 0 && crate::segment::is_whitespace_kind(
            a[k as int].kind,
        ),
    decreases plan.len(),
{
    if plan.len() > 0 {
        assert(items_ok(n, plan[0].edit));
        if whitespace_plan(a, plan) {
            assert(whitespace_edit(a, plan[0]));
        }
        if !removes(plan[0], k) {
            assert(plan_ok(n, plan.drop_first())) by {
                assert forall|i: int| 0 <= i < plan.drop_first().len() implies items_ok(
                    n,
                    (#[trigger] plan.drop_first()[i]).edit,
                ) by {
                    assert(plan.drop_first()[i] == plan[i + 1]);
                }
            }
            if whitespace_plan(a, plan) {
                assert(whitespace_plan(a, plan.drop_first())) by {
                    assert forall|i: int| 0 <= i < plan.drop_first().len() implies whitespace_edit(
                        a,
                        #[trigger] plan.drop_first()[i],
                    ) by {
                        assert(plan.drop_first()[i] == plan[i + 1]);
                    }
                }
            }
            lemma_removal(a, n, plan.drop_first(), k);
        }
    }
}

/// A plan that touches nothing but whitespace in an arena touches
/// nothing but whitespace in every arena that extends it.
pub proof fn lemma_whitespace_plan_grows(
    a: Seq<SegmentData>,
    b: Seq<SegmentData>,
    plan: Seq<LintFixData>,
)
    requires
        extends(b, a),
        whitespace_plan(a, plan),
    ensures
        whitespace_plan(b, plan),
{
    assert forall|i: int| 0 <= i < plan.len() implies whitespace_edit(b, #[trigger] plan[i]) by {
        assert(whitespace_edit(a, plan[i]));
    }
}

/// What applying a plan below a segment does to an arena: it extends
/// it, keeps it well formed, and yields a segment of the new arena. And
/// where the plan touches nothing but whitespace, the new segment has
/// the tokens of the old one.
pub proof fn lemma_rebuild(a: Seq<SegmentData>, id: int, plan: Seq<LintFixData>)
    requires
        arena_wf(a),
        0 <= id < a.len(),
        plan_ok(a.len(), plan),
        rebuild_spec(a, id, plan).0.len() <= usize::MAX,
    ensures
        extends(rebuild_spec(a, id, plan).0, a),
        arena_wf(rebuild_spec(a, id, plan).0),
        rebuild_spec(a, id, plan).1 < rebuild_spec(a, id, plan).0.len(),
        whitespace_plan(a, plan) ==> tokens_of(
            rebuild_spec(a, id, plan).0,
            rebuild_spec(a, id, plan).1 as int,
        ) == tokens_of(a, id),
    decreases id, 1int, 0int,
{
    let kids = a[id].children;
    let n = kids.len() as int;
    let r = rebuild_kids(a, kids, n, id, plan);
    let (b, out) = rebuild_spec(a, id, plan);
    lemma_rebuild_kids(a, kids, n, id, plan);
    assert(kids.take(n) == kids);
    if r.changed {
        assert(b == r.arena.push(SegmentData { kind: a[id].kind, raw: a[id].raw, children: r.kids }));
        assert(out == r.arena.len());
        assert(b[out as int].children == r.kids);
        assert forall|i: int, j: int| 0 <= i < b.len() && 0 <= j < b[i].children.len() implies (
        #[trigger] b[i].children[j]) < i by {
            if i < r.arena.len() {
                assert(b[i] == r.arena[i]);
            }
        }
        assert forall|i: int| 0 <= i < b.len() && (#[trigger] b[i]).children.len() > 0 implies b[i].raw.len()
            == 0 by {
            if i < r.arena.len() {
                assert(b[i] == r.arena[i]);
            }
        }
        if whitespace_plan(a, plan) {
            lemma_tokens_all_frame(r.arena, b, r.kids, r.arena.len() as int);
        }
    } else {
        if whitespace_plan(a, plan) {
            lemma_tokens_frame(a, r.arena, id);
        }
    }
}

/// The tokens below a single segment, as a run of one.
pub proof fn lemma_tokens_all_one(a: Seq<SegmentData>, k: usize, bound: int)
    requires
        k < bound,
    ensures
        tokens_of_all(a, seq![k], bound) == tokens_of(a, k as int),
{
    assert(seq![k].drop_last() =~= Seq::<usize>::empty());
    assert(tokens_of_all(a, Seq::<usize>::empty(), bound) =~= Seq::<Token>::empty());
    assert(Seq::<Token>::empty() + tokens_of(a, k as int) =~= tokens_of(a, k as int));
}

/// Four runs of segments, each below the length of its arena, lie below
/// the length of the last arena when joined.
proof fn lemma_joined_below(
    s0: Seq<usize>,
    s1: Seq<usize>,
    s2: Seq<usize>,
    s3: Seq<usize>,
    n0: nat,
    n1: nat,
    n2: nat,
    n3: nat,
)
    requires
        all_below(s0, n0),
        all_below(s1, n1),
        all_below(s2, n2),
        all_below(s3, n3),
        n0 <= n1 <= n2 <= n3,
    ensures
        all_below(s0 + s1 + s2 + s3, n3),
{
    let all = s0 + s1 + s2 + s3;
    assert forall|j: int| 0 <= j < all.len() implies all[j] < n3 by {
        if j < s0.len() {
            assert(all[j] == s0[j]);
        } else if j < s0.len() + s1.len() {
            assert(all[j] == s1[j - s0.len()]);
        } else if j < s0.len() + s1.len() + s2.len() {
            assert(all[j] == s2[j - s0.len() - s1.len()]);
        } else {
            assert(all[j] == s3[j - s0.len() - s1.len() - s2.len()]);
        }
    }
}

/// The tokens of four runs of segments joined, each of which was made in
/// an arena that the next extends.
proof fn lemma_joined_tokens(
    a0: Seq<SegmentData>,
    a1: Seq<SegmentData>,
    a2: Seq<SegmentData>,
    a3: Seq<SegmentData>,
    s0: Seq<usize>,
    s1: Seq<usize>,
    s2: Seq<usize>,
    s3: Seq<usize>,
)
    requires
        arena_wf(a0),
        arena_wf(a1),
        arena_wf(a2),
        extends(a1, a0),
        extends(a2, a1),
        extends(a3, a2),
        all_below(s0, a0.len()),
        all_below(s1, a1.len()),
        all_below(s2, a2.len()),
    ensures
        tokens_of_all(a3, s0 + s1 + s2 + s3, a3.len() as int) == tokens_of_all(
            a0,
            s0,
            a0.len() as int,
        ) + tokens_of_all(a1, s1, a1.len() as int) + tokens_of_all(a2, s2, a2.len() as int)
            + tokens_of_all(a3, s3, a3.len() as int),
{
    let top = a3.len() as int;
    assert(extends(a3, a1));
    assert(extends(a3, a0));
    lemma_tokens_all_grow(a0, a3, s0);
    lemma_tokens_all_grow(a1, a3, s1);
    lemma_tokens_all_grow(a2, a3, s2);
    lemma_tokens_all_concat(a3, s0, s1, top);
    lemma_tokens_all_concat(a3, s0 + s1, s2, top);
    lemma_tokens_all_concat(a3, s0 + s1 + s2, s3, top);
}

/// What applying a plan to a run of children does to an arena: it
/// extends it, keeps it well formed, and yields segments of the new
/// arena. And where the plan touches nothing but whitespace, the new
/// segments have the tokens of the old ones.
pub proof fn lemma_rebuild_kids(
    a: Seq<SegmentData>,
    kids: Seq<usize>,
    n: int,
    bound: int,
    plan: Seq<LintFixData>,
)
    requires
        arena_wf(a),
        plan_ok(a.len(), plan),
        0 <= n <= kids.len(),
        0 <= bound <= a.len(),
        forall|j: int| 0 <= j < n ==> kids[j] < bound,
        rebuild_kids(a, kids, n, bound, plan).arena.len() <= usize::MAX,
    ensures
        extends(rebuild_kids(a, kids, n, bound, plan).arena, a),
        arena_wf(rebuild_kids(a, kids, n, bound, plan).arena),
        all_below(
            rebuild_kids(a, kids, n, bound, plan).kids,
            rebuild_kids(a, kids, n, bound, plan).arena.len(),
        ),
        rebuild_kids(a, kids, n, bound, plan).changed ==> n > 0,
        whitespace_plan(a, plan) ==> tokens_of_all(
            rebuild_kids(a, kids, n, bound, plan).arena,
            rebuild_kids(a, kids, n, bound, plan).kids,
            rebuild_kids(a, kids, n, bound, plan).arena.len() as int,
        ) == tokens_of_all(a, kids.take(n), bound),
    decreases bound, 0int, n,
{
    let r = rebuild_kids(a, kids, n, bound, plan);
    if n == 0 {
        assert(kids.take(0) =~= Seq::<usize>::empty());
    } else {
        let prev = rebuild_kids(a, kids, n - 1, bound, plan);
        let k = kids[n - 1];
        let before = created_items(plan, k, EditType::CreateBefore);
        let after = created_items(plan, k, EditType::CreateAfter);
        let (a1, pre) = place(prev.arena, before);
        let (a2, mid) = match removal(plan, k) {
            Some(items) => place(a1, items),
            None => (rebuild_spec(a1, k as int, plan).0, seq![rebuild_spec(a1, k as int, plan).1]),
        };
        let (a3, post) = place(a2, after);
        assert(r.arena == a3);
        assert(r.kids == prev.kids + pre + mid + post);
        // The arenas grow, so each of them fits.
        assert(prev.arena.len() <= a1.len() <= a2.len() <= a3.len()) by {
            lemma_place_len(prev.arena, before);
            match removal(plan, k) {
                Some(items) => {
                    lemma_place_len(a1, items);
                },
                None => {
                    lemma_rebuild_len(a1, k as int, plan);
                },
            }
            lemma_place_len(a2, after);
        }
        // The children before this one.
        lemma_rebuild_kids(a, kids, n - 1, bound, plan);
        // What is created before it.
        assert(extends(a1, prev.arena) && arena_wf(a1) && all_below(pre, a1.len()) && (
        whitespace_plan(a, plan) ==> tokens_of_all(a1, pre, a1.len() as int) == Seq::<
            Token,
        >::empty())) by {
            crate::apply::lemma_plan_ok_grows(a.len(), prev.arena.len(), plan);
            lemma_created(a, prev.arena.len(), plan, k, EditType::CreateBefore);
            lemma_place(prev.arena, before);
        }
        assert(extends(a1, a));
        // The child itself, or what replaces it.
        assert(extends(a2, a1) && arena_wf(a2) && all_below(mid, a2.len()) && (whitespace_plan(
            a,
            plan,
        ) ==> tokens_of_all(a2, mid, a2.len() as int) == tokens_of(a, k as int))) by {
            crate::apply::lemma_plan_ok_grows(a.len(), a1.len(), plan);
            match removal(plan, k) {
                Some(items) => {
                    lemma_removal(a, a1.len(), plan, k);
                    lemma_place(a1, items);
                },
                None => {
                    if whitespace_plan(a, plan) {
                        lemma_whitespace_plan_grows(a, a1, plan);
                    }
                    lemma_rebuild(a1, k as int, plan);
                    lemma_tokens_all_one(a2, mid[0], a2.len() as int);
                    lemma_tokens_frame(a, a1, k as int);
                },
            }
        }
        assert(extends(a2, a));
        // What is created after it.
        assert(extends(a3, a2) && arena_wf(a3) && all_below(post, a3.len()) && (whitespace_plan(
            a,
            plan,
        ) ==> tokens_of_all(a3, post, a3.len() as int) == Seq::<Token>::empty())) by {
            crate::apply::lemma_plan_ok_grows(a.len(), a2.len(), plan);
            lemma_created(a, a2.len(), plan, k, EditType::CreateAfter);
            lemma_place(a2, after);
        }
        assert(extends(a3, a));
        lemma_joined_below(
            prev.kids,
            pre,
            mid,
            post,
            prev.arena.len(),
            a1.len(),
            a2.len(),
            a3.len(),
        );
        if whitespace_plan(a, plan) {
            lemma_joined_tokens(prev.arena, a1, a2, a3, prev.kids, pre, mid, post);
            assert(kids.take(n).drop_last() == kids.take(n - 1));
            assert(kids.take(n).last() == k);
            assert(tokens_of_all(a3, r.kids, a3.len() as int) =~= tokens_of_all(
                a,
                kids.take(n - 1),
                bound,
            ) + tokens_of(a, k as int));
        }
    }
}

/// A plan that touches nothing but whitespace takes nothing from the
/// arena.
pub proof fn lemma_whitespace_plan_ok(a: Seq<SegmentData>, n: nat, plan: Seq<LintFixData>)
    requires
        whitespace_plan(a, plan),
    ensures
        plan_ok(n, plan),
{
    assert forall|i: int| 0 <= i < plan.len() implies items_ok(n, (#[trigger] plan[i]).edit) by {
        assert(whitespace_edit(a, plan[i]));
    }
}

/// An edit of whitespace keeps every token: where a plan touches nothing
/// but whitespace, the tree that it makes of the tree below `root` has
/// the same tokens, with the same types and texts, in the same order.
pub proof fn lemma_whitespace_edits_keep_tokens(
    a: Seq<SegmentData>,
    root: usize,
    plan: Seq<LintFixData>,
)
    requires
        arena_wf(a),
        root < a.len(),
        whitespace_plan(a, plan),
        rebuild_spec(a, root as int, plan).0.len() <= usize::MAX,
    ensures
        tokens_of(rebuild_spec(a, root as int, plan).0, rebuild_spec(a, root as int, plan).1 as int)
            == tokens_of(a, root as int),
{
    lemma_whitespace_plan_ok(a, a.len(), plan);
    lemma_rebuild(a, root as int, plan);
}

/// Respacing keeps every token: whatever sequence of leaves of the
/// arena is respaced, under whatever options, applying the edits of the
/// respacing to the tree
/// below `root` changes no token that is not whitespace, neither its
/// type nor its text nor its place among the others.
pub proof fn lemma_respace_keeps_tokens(
    a: Seq<SegmentData>,
    root: usize,
    entries: Map<Seq<char>, ValueData>,
    elems: Seq<ElementData>,
    strip_newlines: bool,
    filter: Filter,
)
    requires
        arena_wf(a),
        root < a.len(),
        elements_wf(a, elems),
        rebuild_spec(a, root as int, respace_fixes(entries, elems, strip_newlines, filter)).0.len()
            <= usize::MAX,
    ensures
        ({
            let plan = respace_fixes(entries, elems, strip_newlines, filter);
            tokens_of(
                rebuild_spec(a, root as int, plan).0,
                rebuild_spec(a, root as int, plan).1 as int,
            ) == tokens_of(a, root as int)
        }),
{
    lemma_respace_whitespace(a, entries, elems, -1, 0, strip_newlines, filter);
    lemma_whitespace_edits_keep_tokens(
        a,
        root,
        respace_fixes(entries, elems, strip_newlines, filter),
    );
}

} // verus!
