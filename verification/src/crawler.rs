//! Crawlers: which segments of a tree a rule is invoked on, and with what
//! context.

use vstd::prelude::*;
use vstd::string::*;
use ahash::AHashMap;
use crate::config::Value;
use crate::context::{is_path, ContextData, RuleContext};
use crate::position::{advance, lemma_advance_concat, lemma_advance_monotonic, PositionMarker};
use crate::query::all_below;
use crate::segment::{
    arena_wf, has_kind_in, preorder, preorder_all, text_of, text_of_all, SegmentArena, SegmentData,
};
use crate::text::str_eq;

verus! {

/// The contents of a list of texts.
pub open spec fn texts_view(v: Seq<String>) -> Seq<Seq<char>> {
    v.map_values(|s: String| s@)
}

/// Owned copies of the texts `types`.
pub fn strings_of(types: &[&str]) -> (out: Vec<String>)
    ensures
        texts_view(out@) == crate::segment::views_of(types@),
{
    let mut out: Vec<String> = Vec::new();
    let mut i: usize = 0;
    while i < types.len()
        invariant
            0 <= i <= types@.len(),
            out@.len() == i,
            forall|k: int| 0 <= k < i ==> (#[trigger] out@[k])@ == types@[k]@,
        decreases types@.len() - i,
    {
        out.push(types[i].to_owned());
        i = i + 1;
    }
    proof {
        assert(texts_view(out@) =~= crate::segment::views_of(types@));
    }
    out
}

/// Whether `kind` is one of `types`.
pub fn kind_listed(kind: &str, types: &Vec<String>) -> (yes: bool)
    ensures
        yes == texts_view(types@).contains(kind@),
{
    let mut i: usize = 0;
    while i < types.len()
        invariant
            0 <= i <= types@.len(),
            forall|k: int| 0 <= k < i ==> types@[k]@ != kind@,
        decreases types@.len() - i,
    {
        if str_eq(kind, types[i].as_str()) {
            assert(texts_view(types@)[i as int] == kind@);
            return true;
        }
        i = i + 1;
    }
    false
}

/// The contexts that a seeker yields below and at segment `id`, which is
/// child `idx` of the last entry of `stack` and begins at `pos`: one for
/// every segment whose type is among `types`, in document order. With
/// `recurse` unset, nothing inside a match is reported.
pub open spec fn seek(
    a: Seq<SegmentData>,
    id: int,
    stack: Seq<usize>,
    idx: usize,
    types: Seq<Seq<char>>,
    recurse: bool,
    pos: PositionMarker,
) -> Seq<ContextData>
    decreases id, 1int, 0int,
{
    if 0 <= id < a.len() {
        let hit = types.contains(a[id].kind);
        let here = if hit {
            seq![
                ContextData {
                    segment: id as usize,
                    parent_stack: stack,
                    segment_idx: idx,
                    position: pos,
                },
            ]
        } else {
            Seq::empty()
        };
        if hit && !recurse {
            here
        } else {
            here + seek_all(
                a,
                a[id].children,
                a[id].children.len() as int,
                id,
                stack.push(id as usize),
                types,
                recurse,
                pos,
            )
        }
    } else {
        Seq::empty()
    }
}

/// The contexts that a seeker yields for the first `n` of the children
/// `kids` of a segment in slot `bound`, which begins at `pos`.
pub open spec fn seek_all(
    a: Seq<SegmentData>,
    kids: Seq<usize>,
    n: int,
    bound: int,
    stack: Seq<usize>,
    types: Seq<Seq<char>>,
    recurse: bool,
    pos: PositionMarker,
) -> Seq<ContextData>
    decreases bound, 0int, n,
{
    if n <= 0 || n > kids.len() {
        Seq::empty()
    } else {
        seek_all(a, kids, n - 1, bound, stack, types, recurse, pos) + (if kids[n - 1] < bound {
            seek(
                a,
                kids[n - 1] as int,
                stack,
                (n - 1) as usize,
                types,
                recurse,
                advance(pos, text_of_all(a, kids.take(n - 1), bound)),
            )
        } else {
            Seq::empty()
        })
    }
}

/// The view of an optional text.
pub open spec fn opt_view(t: Option<&str>) -> Option<Seq<char>> {
    match t {
        Some(s) => Some(s@),
        None => None,
    }
}

/// The segments of types `types` at and below segment `id`, in document
/// order. Segment `id` itself counts only with `allow_self`; with
/// `recurse_into` unset nothing inside a match is reported; and no
/// child of type `no_recurse` is entered.
pub open spec fn crawl_ids(
    a: Seq<SegmentData>,
    id: int,
    types: Seq<Seq<char>>,
    recurse_into: bool,
    no_recurse: Option<Seq<char>>,
    allow_self: bool,
) -> Seq<usize>
    decreases id, 1int, 0int,
{
    if 0 <= id < a.len() {
        let hit = allow_self && types.contains(a[id].kind);
        let here = if hit {
            seq![id as usize]
        } else {
            Seq::empty()
        };
        if recurse_into || !hit {
            here + crawl_ids_all(a, a[id].children, id, types, recurse_into, no_recurse)
        } else {
            here
        }
    } else {
        Seq::empty()
    }
}

/// What [`crawl_ids`] finds at and below the segments `ids`, which are
/// children of the segment in slot `bound`.
pub open spec fn crawl_ids_all(
    a: Seq<SegmentData>,
    ids: Seq<usize>,
    bound: int,
    types: Seq<Seq<char>>,
    recurse_into: bool,
    no_recurse: Option<Seq<char>>,
) -> Seq<usize>
    decreases bound, 0int, ids.len(),
{
    if ids.len() == 0 {
        Seq::empty()
    } else {
        crawl_ids_all(a, ids.drop_last(), bound, types, recurse_into, no_recurse) + (if ids.last()
            < bound && ids.last() < a.len() && no_recurse != Some(a[ids.last() as int].kind) {
            crawl_ids(a, ids.last() as int, types, recurse_into, no_recurse, true)
        } else {
            Seq::empty()
        })
    }
}

/// The segments of types `types` at and below segment `id`, in document
/// order.
pub fn recursive_crawl(
    arena: &SegmentArena,
    id: usize,
    types: &[&str],
    recurse_into: bool,
    no_recursive_seg_type: Option<&str>,
    allow_self: bool,
) -> (out: Vec<usize>)
    requires
        arena.wf(),
        id < arena@.len(),
    ensures
        out@ == crawl_ids(
            arena@,
            id as int,
            crate::segment::views_of(types@),
            recurse_into,
            opt_view(no_recursive_seg_type),
            allow_self,
        ),
        all_below(out@, arena@.len()),
{
    let mut out: Vec<usize> = Vec::new();
    crawl_into(arena, id, types, recurse_into, no_recursive_seg_type, allow_self, &mut out);
    proof {
        let found = crawl_ids(
            arena@,
            id as int,
            crate::segment::views_of(types@),
            recurse_into,
            opt_view(no_recursive_seg_type),
            allow_self,
        );
        assert(Seq::<usize>::empty() + found =~= found);
    }
    out
}

fn crawl_into(
    arena: &SegmentArena,
    id: usize,
    types: &[&str],
    recurse_into: bool,
    no_recurse: Option<&str>,
    allow_self: bool,
    out: &mut Vec<usize>,
)
    requires
        arena.wf(),
        id < arena@.len(),
        all_below(old(out)@, arena@.len()),
    ensures
        final(out)@ == old(out)@ + crawl_ids(
            arena@,
            id as int,
            crate::segment::views_of(types@),
            recurse_into,
            opt_view(no_recurse),
            allow_self,
        ),
        all_below(final(out)@, arena@.len()),
    decreases id,
{
    let ghost a = arena@;
    let ghost tv = crate::segment::views_of(types@);
    let hit = allow_self && crate::segment::kind_among(arena.kind(id), types);
    if hit {
        out.push(id);
    }
    let ghost here = out@;
    proof {
        if hit {
            assert(here =~= old(out)@ + seq![id]);
        } else {
            assert(here =~= old(out)@ + Seq::<usize>::empty());
        }
    }
    if recurse_into || !hit {
        let kids = arena.children(id);
        let mut i: usize = 0;
        proof {
            assert(here + Seq::<usize>::empty() =~= here);
        }
        while i < kids.len()
            invariant
                arena.wf(),
                a == arena@,
                tv == crate::segment::views_of(types@),
                id < a.len(),
                kids@ == a[id as int].children,
                forall|j: int| 0 <= j < kids@.len() ==> kids@[j] < id,
                0 <= i <= kids@.len(),
                all_below(out@, a.len()),
                out@ == here + crawl_ids_all(
                    a,
                    kids@.take(i as int),
                    id as int,
                    tv,
                    recurse_into,
                    opt_view(no_recurse),
                ),
            decreases kids@.len() - i,
        {
            let k = kids[i];
            let ghost sofar = crawl_ids_all(
                a,
                kids@.take(i as int),
                id as int,
                tv,
                recurse_into,
                opt_view(no_recurse),
            );
            proof {
                assert(kids@.take(i + 1).drop_last() == kids@.take(i as int));
                assert(sofar + Seq::<usize>::empty() =~= sofar);
            }
            let skip = match no_recurse {
                Some(t) => str_eq(arena.kind(k), t),
                None => false,
            };
            if !skip {
                crawl_into(arena, k, types, recurse_into, no_recurse, true, out);
                proof {
                    assert(out@ =~= here + (sofar + crawl_ids(
                        a,
                        k as int,
                        tv,
                        recurse_into,
                        opt_view(no_recurse),
                        true,
                    )));
                }
            }
            i = i + 1;
        }
        proof {
            assert(kids@.take(i as int) == kids@);
            assert(out@ =~= old(out)@ + (here.skip(old(out)@.len() as int) + crawl_ids_all(
                a,
                kids@,
                id as int,
                tv,
                recurse_into,
                opt_view(no_recurse),
            )));
        }
    }
}

/// The contents of a list of contexts.
pub open spec fn contexts_view(v: Seq<RuleContext>) -> Seq<ContextData> {
    v.map_values(|c: RuleContext| c@)
}

/// Every context is well formed and looks at the given arena, dialect
/// and configuration.
pub open spec fn contexts_of(
    v: Seq<RuleContext>,
    arena: &SegmentArena,
    dialect: &str,
    config: &AHashMap<String, Value>,
) -> bool {
    forall|i: int|
        0 <= i < v.len() ==> (#[trigger] v[i]).wf() && v[i].arena == arena && v[i].dialect
            == dialect && v[i].config == config
}

/// A crawler that seeks the segments of given types.
pub struct SegmentSeekerCrawler {
    pub types: Vec<String>,
    pub allow_recurse: bool,
}

/// The traversal that a rule asks for.
pub enum Crawler {
    /// Invoke the rule on the root alone.
    RootOnly,
    /// Invoke the rule on every segment of the given types.
    SegmentSeeker(SegmentSeekerCrawler),
}

/// The content of a [`Crawler`].
pub enum CrawlerData {
    RootOnly,
    SegmentSeeker { types: Seq<Seq<char>>, allow_recurse: bool },
}

impl View for Crawler {
    type V = CrawlerData;

    open spec fn view(&self) -> CrawlerData {
        match self {
            Crawler::RootOnly => CrawlerData::RootOnly,
            Crawler::SegmentSeeker(s) => CrawlerData::SegmentSeeker {
                types: texts_view(s.types@),
                allow_recurse: s.allow_recurse,
            },
        }
    }
}

/// The seeker for the single type `kind` that also looks inside matches.
pub open spec fn seeker_of(kind: Seq<char>) -> CrawlerData {
    CrawlerData::SegmentSeeker { types: seq![kind], allow_recurse: true }
}

/// The contexts that `crawler` yields on the tree below `root`.
pub open spec fn crawl_spec(crawler: CrawlerData, a: Seq<SegmentData>, root: usize) -> Seq<
    ContextData,
> {
    match crawler {
        CrawlerData::RootOnly => seq![
            ContextData {
                segment: root,
                parent_stack: Seq::empty(),
                segment_idx: 0,
                position: PositionMarker::origin_spec(),
            },
        ],
        CrawlerData::SegmentSeeker { types, allow_recurse } => seek(
            a,
            root as int,
            Seq::empty(),
            0,
            types,
            allow_recurse,
            PositionMarker::origin_spec(),
        ),
    }
}

impl SegmentSeekerCrawler {
    /// A seeker for `types` that also reports matches inside matches.
    pub fn new(types: &[&str]) -> (out: SegmentSeekerCrawler)
        ensures
            texts_view(out.types@) == crate::segment::views_of(types@),
            out.allow_recurse,
    {
        SegmentSeekerCrawler { types: strings_of(types), allow_recurse: true }
    }

    /// The same seeker, told whether to look inside matches.
    pub fn with_recurse(self, allow_recurse: bool) -> (out: SegmentSeekerCrawler)
        ensures
            out.types == self.types,
            out.allow_recurse == allow_recurse,
    {
        SegmentSeekerCrawler { types: self.types, allow_recurse }
    }

    /// A seeker for the single type `kind` that also looks inside matches.
    pub fn for_type(kind: &str) -> (out: Crawler)
        ensures
            out@ == seeker_of(kind@),
    {
        let types = [kind];
        assert(crate::segment::views_of(types@) =~= seq![kind@]);
        SegmentSeekerCrawler::new(&types).into_crawler()
    }

    /// This seeker as the traversal of a rule.
    pub fn into_crawler(self) -> (out: Crawler)
        ensures
            out == Crawler::SegmentSeeker(self),
    {
        Crawler::SegmentSeeker(self)
    }

    fn seek_from<'a>(
        &self,
        arena: &'a SegmentArena,
        dialect: &'a str,
        config: &'a AHashMap<String, Value>,
        id: usize,
        stack: &Vec<usize>,
        idx: usize,
        pos: PositionMarker,
        out: &mut Vec<RuleContext<'a>>,
    )
        requires
            arena.wf(),
            is_path(arena@, stack@, id, idx),
            contexts_of(old(out)@, arena, dialect, config),
        ensures
            contexts_of(final(out)@, arena, dialect, config),
            contexts_view(final(out)@) == contexts_view(old(out)@) + seek(
                arena@,
                id as int,
                stack@,
                idx,
                texts_view(self.types@),
                self.allow_recurse,
                pos,
            ),
        decreases id,
    {
        let ghost a = arena@;
        let ghost types = texts_view(self.types@);
        let ghost before = contexts_view(old(out)@);
        let hit = kind_listed(arena.kind(id), &self.types);
        if hit {
            let parent_stack = crate::segment::copy_range(stack, 0, stack.len());
            proof {
                assert(stack@.subrange(0, stack@.len() as int) == stack@);
            }
            let cx = RuleContext {
                arena,
                dialect,
                config,
                segment: id,
                parent_stack,
                segment_idx: idx,
                position: pos,
            };
            out.push(cx);
            proof {
                assert(contexts_view(out@) =~= before + seq![cx@]);
            }
        } else {
            proof {
                assert(before + Seq::<ContextData>::empty() =~= before);
            }
        }
        if hit && !self.allow_recurse {
            return ;
        }
        let ghost here = contexts_view(out@);
        let kids = arena.children(id);
        let mut below = crate::segment::copy_range(stack, 0, stack.len());
        below.push(id);
        proof {
            assert(stack@.subrange(0, stack@.len() as int) == stack@);
            assert(below@ == stack@.push(id));
            assert(here + Seq::<ContextData>::empty() =~= here);
            assert forall|i: int| 0 <= i < below@.len() - 1 implies a[below@[i] as int].children.contains(
                #[trigger] below@[i + 1],
            ) by {
                if i < stack@.len() - 1 {
                    assert(below@[i + 1] == stack@[i + 1]);
                } else {
                    assert(a[stack@.last() as int].children[idx as int] == id);
                }
            }
        }
        let mut p = pos;
        let mut i: usize = 0;
        while i < kids.len()
            invariant
                arena.wf(),
                a == arena@,
                types == texts_view(self.types@),
                id < a.len(),
                kids@ == a[id as int].children,
                forall|j: int| 0 <= j < kids@.len() ==> kids@[j] < id,
                all_below(below@, a.len()),
                below@ == stack@.push(id),
                forall|k: int|
                    0 <= k < below@.len() - 1 ==> a[below@[k] as int].children.contains(
                        #[trigger] below@[k + 1],
                    ),
                0 <= i <= kids@.len(),
                p == advance(pos, text_of_all(a, kids@.take(i as int), id as int)),
                contexts_of(out@, arena, dialect, config),
                contexts_view(out@) == here + seek_all(
                    a,
                    kids@,
                    i as int,
                    id as int,
                    below@,
                    types,
                    self.allow_recurse,
                    pos,
                ),
            decreases kids@.len() - i,
        {
            let ghost sofar = contexts_view(out@);
            self.seek_from(arena, dialect, config, kids[i], &below, i, p, out);
            proof {
                assert(kids@.take(i + 1).drop_last() == kids@.take(i as int));
                lemma_advance_concat(
                    pos,
                    text_of_all(a, kids@.take(i as int), id as int),
                    text_of(a, kids@[i as int] as int),
                );
                let step = seek(
                    a,
                    kids@[i as int] as int,
                    below@,
                    i,
                    types,
                    self.allow_recurse,
                    p,
                );
                assert(contexts_view(out@) =~= here + (seek_all(
                    a,
                    kids@,
                    i as int,
                    id as int,
                    below@,
                    types,
                    self.allow_recurse,
                    pos,
                ) + step));
            }
            p = p.after_segment(arena, kids[i]);
            i = i + 1;
        }
    }
}

impl Crawler {
    /// The contexts of the segments that the rule is to be invoked on, in
    /// document order.
    pub fn crawl<'a>(
        &self,
        arena: &'a SegmentArena,
        root: usize,
        dialect: &'a str,
        config: &'a AHashMap<String, Value>,
    ) -> (out: Vec<RuleContext<'a>>)
        requires
            arena.wf(),
            root < arena@.len(),
        ensures
            contexts_of(out@, arena, dialect, config),
            contexts_view(out@) == crawl_spec(self@, arena@, root),
    {
        let mut out: Vec<RuleContext<'a>> = Vec::new();
        match self {
            Crawler::RootOnly => {
                let cx = RuleContext {
                    arena,
                    dialect,
                    config,
                    segment: root,
                    parent_stack: Vec::new(),
                    segment_idx: 0,
                    position: PositionMarker::origin(),
                };
                out.push(cx);
                proof {
                    assert(contexts_view(out@) =~= crawl_spec(self@, arena@, root));
                }
            },
            Crawler::SegmentSeeker(seeker) => {
                let stack: Vec<usize> = Vec::new();
                proof {
                    assert(contexts_view(out@) =~= Seq::<ContextData>::empty());
                }
                seeker.seek_from(
                    arena,
                    dialect,
                    config,
                    root,
                    &stack,
                    0,
                    PositionMarker::origin(),
                    &mut out,
                );
                proof {
                    assert(contexts_view(out@) =~= crawl_spec(self@, arena@, root));
                }
            },
        }
        out
    }
}

/// The segments that a list of contexts is about.
pub open spec fn segments_of(contexts: Seq<ContextData>) -> Seq<usize> {
    contexts.map_values(|c: ContextData| c.segment)
}

/// A seeker that looks inside matches reports in document order: the
/// segments of its contexts are the segments of the tree that have one
/// of the types sought, in the order of the document, each as often as
/// it stands in the tree.
pub proof fn lemma_seek_in_document_order(
    a: Seq<SegmentData>,
    id: int,
    stack: Seq<usize>,
    idx: usize,
    types: Seq<Seq<char>>,
    pos: PositionMarker,
)
    requires
        arena_wf(a),
        a.len() <= usize::MAX,
        0 <= id < a.len(),
    ensures
        segments_of(seek(a, id, stack, idx, types, true, pos)) == preorder(a, id).filter(
            has_kind_in(a, types),
        ),
    decreases id, 1int, 0int,
{
    let pick = has_kind_in(a, types);
    let kids = a[id].children;
    let below = seek_all(a, kids, kids.len() as int, id, stack.push(id as usize), types, true, pos);
    let here = seek(a, id, stack, idx, types, true, pos);
    lemma_seek_all_in_document_order(
        a,
        kids,
        kids.len() as int,
        id,
        stack.push(id as usize),
        types,
        pos,
    );
    assert(kids.take(kids.len() as int) == kids);
    Seq::filter_distributes_over_add(seq![id as usize], preorder_all(a, kids, id), pick);
    assert(seq![id as usize].filter(pick) =~= (if types.contains(a[id].kind) {
        seq![id as usize]
    } else {
        Seq::empty()
    })) by {
        reveal(Seq::filter);
        assert(seq![id as usize].drop_last() =~= Seq::<usize>::empty());
        assert(Seq::<usize>::empty().filter(pick) =~= Seq::<usize>::empty());
    }
    assert(segments_of(here) =~= seq![id as usize].filter(pick) + segments_of(below));
}

/// What a seeker reports on a run of children, in document order.
pub proof fn lemma_seek_all_in_document_order(
    a: Seq<SegmentData>,
    kids: Seq<usize>,
    n: int,
    bound: int,
    stack: Seq<usize>,
    types: Seq<Seq<char>>,
    pos: PositionMarker,
)
    requires
        arena_wf(a),
        a.len() <= usize::MAX,
        0 <= n <= kids.len(),
        0 <= bound <= a.len(),
    ensures
        segments_of(seek_all(a, kids, n, bound, stack, types, true, pos)) == preorder_all(
            a,
            kids.take(n),
            bound,
        ).filter(has_kind_in(a, types)),
    decreases bound, 0int, n,
{
    let pick = has_kind_in(a, types);
    if n == 0 {
        reveal(Seq::filter);
        assert(kids.take(0) =~= Seq::<usize>::empty());
        assert(segments_of(Seq::<ContextData>::empty()) =~= Seq::<usize>::empty());
    } else {
        let k = kids[n - 1];
        lemma_seek_all_in_document_order(a, kids, n - 1, bound, stack, types, pos);
        assert(kids.take(n).drop_last() == kids.take(n - 1));
        assert(kids.take(n).last() == k);
        let before = seek_all(a, kids, n - 1, bound, stack, types, true, pos);
        let last = if k < bound {
            seek(
                a,
                k as int,
                stack,
                (n - 1) as usize,
                types,
                true,
                advance(pos, text_of_all(a, kids.take(n - 1), bound)),
            )
        } else {
            Seq::empty()
        };
        let tail = if k < bound {
            preorder(a, k as int)
        } else {
            Seq::empty()
        };
        if k < bound {
            lemma_seek_in_document_order(
                a,
                k as int,
                stack,
                (n - 1) as usize,
                types,
                advance(pos, text_of_all(a, kids.take(n - 1), bound)),
            );
        } else {
            reveal(Seq::filter);
            assert(segments_of(Seq::<ContextData>::empty()) =~= Seq::<usize>::empty());
        }
        Seq::filter_distributes_over_add(preorder_all(a, kids.take(n - 1), bound), tail, pick);
        assert(segments_of(before + last) =~= segments_of(before) + segments_of(last));
    }
}

/// The contexts come in the order of their places in the text.
pub open spec fn in_text_order(contexts: Seq<ContextData>) -> bool {
    forall|i: int, j: int|
        0 <= i <= j < contexts.len() ==> (#[trigger] contexts[i]).position.offset <= (
        #[trigger] contexts[j]).position.offset
}

/// Every context begins at an offset from `lo` to `hi`.
pub open spec fn begins_within(contexts: Seq<ContextData>, lo: usize, hi: usize) -> bool {
    forall|i: int|
        0 <= i < contexts.len() ==> lo <= (#[trigger] contexts[i]).position.offset <= hi
}

/// Contexts in text order up to an offset, followed by contexts in text
/// order from that offset on, are in text order.
proof fn lemma_joined_in_text_order(
    s: Seq<ContextData>,
    t: Seq<ContextData>,
    lo: usize,
    mid: usize,
    hi: usize,
)
    requires
        in_text_order(s),
        in_text_order(t),
        begins_within(s, lo, mid),
        begins_within(t, mid, hi),
        lo <= mid <= hi,
    ensures
        in_text_order(s + t),
        begins_within(s + t, lo, hi),
{
    let all = s + t;
    assert forall|i: int| 0 <= i < all.len() implies lo <= (#[trigger] all[i]).position.offset
        <= hi by {
        if i < s.len() {
            assert(all[i] == s[i]);
        } else {
            assert(all[i] == t[i - s.len()]);
        }
    }
    assert forall|i: int, j: int| 0 <= i <= j < all.len() implies (
    #[trigger] all[i]).position.offset <= (#[trigger] all[j]).position.offset by {
        if j < s.len() {
            assert(all[i] == s[i] && all[j] == s[j]);
        } else if i < s.len() {
            assert(all[i] == s[i] && all[j] == t[j - s.len()]);
        } else {
            assert(all[i] == t[i - s.len()] && all[j] == t[j - s.len()]);
        }
    }
}

/// Markers are monotonic along the document: the contexts that a seeker
/// yields come in the order of their places in the text, and each begins
/// within the text of the segment sought through.
pub proof fn lemma_seek_in_text_order(
    a: Seq<SegmentData>,
    id: int,
    stack: Seq<usize>,
    idx: usize,
    types: Seq<Seq<char>>,
    recurse: bool,
    pos: PositionMarker,
)
    requires
        0 <= id < a.len(),
    ensures
        in_text_order(seek(a, id, stack, idx, types, recurse, pos)),
        begins_within(
            seek(a, id, stack, idx, types, recurse, pos),
            pos.offset,
            advance(pos, text_of(a, id)).offset,
        ),
    decreases id, 1int, 0int,
{
    let kids = a[id].children;
    let end = advance(pos, text_of(a, id)).offset;
    lemma_advance_monotonic(pos, text_of(a, id));
    let hit = types.contains(a[id].kind);
    let here = if hit {
        seq![
            ContextData { segment: id as usize, parent_stack: stack, segment_idx: idx, position: pos },
        ]
    } else {
        Seq::empty()
    };
    if !(hit && !recurse) {
        let below = seek_all(
            a,
            kids,
            kids.len() as int,
            id,
            stack.push(id as usize),
            types,
            recurse,
            pos,
        );
        lemma_seek_all_in_text_order(
            a,
            kids,
            kids.len() as int,
            id,
            stack.push(id as usize),
            types,
            recurse,
            pos,
        );
        assert(kids.take(kids.len() as int) == kids);
        lemma_joined_in_text_order(here, below, pos.offset, pos.offset, end);
    }
}

/// The contexts that a seeker yields on a run of children come in the
/// order of their places in the text.
pub proof fn lemma_seek_all_in_text_order(
    a: Seq<SegmentData>,
    kids: Seq<usize>,
    n: int,
    bound: int,
    stack: Seq<usize>,
    types: Seq<Seq<char>>,
    recurse: bool,
    pos: PositionMarker,
)
    requires
        0 <= n <= kids.len(),
        0 <= bound <= a.len(),
    ensures
        in_text_order(seek_all(a, kids, n, bound, stack, types, recurse, pos)),
        begins_within(
            seek_all(a, kids, n, bound, stack, types, recurse, pos),
            pos.offset,
            advance(pos, text_of_all(a, kids.take(n), bound)).offset,
        ),
    decreases bound, 0int, n,
{
    if n == 0 {
        lemma_advance_monotonic(pos, text_of_all(a, kids.take(0), bound));
    } else {
        let k = kids[n - 1];
        let before = seek_all(a, kids, n - 1, bound, stack, types, recurse, pos);
        let so_far = text_of_all(a, kids.take(n - 1), bound);
        let mid = advance(pos, so_far);
        lemma_seek_all_in_text_order(a, kids, n - 1, bound, stack, types, recurse, pos);
        assert(kids.take(n).drop_last() == kids.take(n - 1));
        assert(kids.take(n).last() == k);
        if k < bound {
            let last = seek(a, k as int, stack, (n - 1) as usize, types, recurse, mid);
            lemma_seek_in_text_order(a, k as int, stack, (n - 1) as usize, types, recurse, mid);
            lemma_advance_concat(pos, so_far, text_of(a, k as int));
            lemma_advance_monotonic(pos, so_far);
            lemma_advance_monotonic(mid, text_of(a, k as int));
            lemma_joined_in_text_order(
                before,
                last,
                pos.offset,
                mid.offset,
                advance(mid, text_of(a, k as int)).offset,
            );
        } else {
            assert(so_far + Seq::<char>::empty() =~= so_far);
            assert(before + Seq::<ContextData>::empty() =~= before);
        }
    }
}

} // verus!
